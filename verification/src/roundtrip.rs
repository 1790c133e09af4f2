//! What is written is read back: the text form of code points, and the
//! rows of records.

use vstd::prelude::*;
use crate::metadata::{
    category_name, category_named, chars_of_tokens, codepoints_of_text, hex_digit, hex_digit_value,
    hex_text, hex_value, is_scalar_value, is_space, lemma_category_name_round_trip,
    text_of_codepoints, token_char, tokens, tokens_after, GlyphRecordView, OpenTypeCategory,
};
use crate::document::layer_sound;
use crate::glyph::DrawingView;
use crate::loading::{
    covered, drawings_of, is_layer_dir, layer_readable, layers_readable, loaded_layer, loaded_layers,
    loaded_set, loaded_sets, loaded_source, loaded_sources, name_after, readable, set_fits,
    set_readable, source_readable, sources_readable,
};
use crate::model::{
    coverage, coverage_disjoint, has_one_default, FontgardenView, GlyphSetView, LayerView, SourceView,
};
use crate::name_map::{ascending_keys, strictly_ascending};
use crate::name_set::lemma_to_set_push;
use crate::names::NameView;
use crate::storage::{
    layer_dir_names, saved, saved_glyphs, saved_layer, saved_layers, saved_set, saved_sets,
    saved_source, saved_sources, StoredGlyphView,
};
use crate::tables::{
    color_row_sound, color_rows, flag_text, marks_of_rows, record_row, record_rows, records_of_rows,
    row_fault, row_flag, row_record, RowView,
};
use crate::ufo::{canonical_rgba, valid_name};

verus! {

/// A hexadecimal digit is read back as its value, and is no white space.
pub proof fn lemma_hex_digit(d: nat)
    requires
        d < 16,
    ensures
        hex_digit_value(hex_digit(d)) == Some(d),
        !is_space(hex_digit(d)),
{
    let c = hex_digit(d);
    if d < 10 {
        assert(c as u32 == 48 + d);
    } else {
        assert(c as u32 == 55 + d);
    }
}

/// The value of digits with one more digit.
pub proof fn lemma_hex_value_push(text: Seq<char>, c: char)
    requires
        text.len() > 0,
        hex_value(text) is Some,
        hex_digit_value(c) is Some,
    ensures
        hex_value(text.push(c)) == Some(hex_value(text)->0 * 16 + hex_digit_value(c)->0),
{
    assert(text.push(c).drop_last() =~= text);
    assert(text.push(c).last() == c);
}

/// How the quotients of a number by powers of sixteen follow one another.
pub proof fn lemma_quotients(v: u32)
    ensures
        (v / 0x10) / 16 == v / 0x100,
        (v / 0x100) / 16 == v / 0x1000,
        (v / 0x1000) / 16 == v / 0x10000,
        (v / 0x10000) / 16 == v / 0x100000,
{
    assert((v / 0x10) / 16 == v / 0x100) by (bit_vector);
    assert((v / 0x100) / 16 == v / 0x1000) by (bit_vector);
    assert((v / 0x1000) / 16 == v / 0x10000) by (bit_vector);
    assert((v / 0x10000) / 16 == v / 0x100000) by (bit_vector);
}

/// The value of four digits.
pub proof fn lemma_four_digits(a: nat, b: nat, c: nat, d: nat)
    requires
        a < 16,
        b < 16,
        c < 16,
        d < 16,
    ensures
        hex_value(seq![hex_digit(a), hex_digit(b), hex_digit(c), hex_digit(d)]) == Some(
            ((a * 16 + b) * 16 + c) * 16 + d,
        ),
{
    lemma_hex_digit(a);
    lemma_hex_digit(b);
    lemma_hex_digit(c);
    lemma_hex_digit(d);
    let t1 = seq![hex_digit(a)];
    assert(t1.drop_last() =~= Seq::<char>::empty());
    assert(hex_value(t1) == Some(a));
    lemma_hex_value_push(t1, hex_digit(b));
    let t2 = t1.push(hex_digit(b));
    lemma_hex_value_push(t2, hex_digit(c));
    let t3 = t2.push(hex_digit(c));
    lemma_hex_value_push(t3, hex_digit(d));
    assert(t3.push(hex_digit(d)) =~= seq![hex_digit(a), hex_digit(b), hex_digit(c), hex_digit(d)]);
}

/// The text of a number is read back as the number.
pub proof fn lemma_hex_text_value(v: nat)
    requires
        v <= 0x10FFFF,
    ensures
        hex_value(hex_text(v)) == Some(v),
        hex_text(v).len() >= 4,
        forall|i: int| 0 <= i < hex_text(v).len() ==> !is_space(#[trigger] hex_text(v)[i]),
{
    let u = v as u32;
    lemma_quotients(u);
    let d0 = v % 16;
    let d1 = (v / 0x10) % 16;
    let d2 = (v / 0x100) % 16;
    let d3 = (v / 0x1000) % 16;
    let d4 = (v / 0x10000) % 16;
    let d5 = (v / 0x100000) % 16;
    lemma_hex_digit(d0);
    lemma_hex_digit(d1);
    lemma_hex_digit(d2);
    lemma_hex_digit(d3);
    lemma_hex_digit(d4);
    lemma_hex_digit(d5);
    let low = seq![hex_digit(d3), hex_digit(d2), hex_digit(d1), hex_digit(d0)];
    lemma_four_digits(d3, d2, d1, d0);
    let q1 = v / 0x10;
    let q2 = v / 0x100;
    let q3 = v / 0x1000;
    let q4 = v / 0x10000;
    let q5 = v / 0x100000;
    assert(q2 == q1 / 16 && q3 == q2 / 16 && q4 == q3 / 16 && q5 == q4 / 16);
    assert(((d3 * 16 + d2) * 16 + d1) * 16 + d0 == v - q4 * 0x10000) by {
        assert(v == q1 * 16 + d0);
        assert(q1 == q2 * 16 + d1);
        assert(q2 == q3 * 16 + d2);
        assert(q3 == q4 * 16 + d3);
    }
    assert(weight(4) == 0x10000 && weight(5) == 0x100000) by {
        assert(weight(0) == 1);
        assert(weight(1) == 16);
        assert(weight(2) == 0x100);
        assert(weight(3) == 0x1000);
        assert(weight(4) == 0x10000);
    }
    assert(low.len() == 4);
    if v < 0x10000 {
        assert(q4 == 0);
        assert(hex_text(v) =~= low);
    } else if v < 0x100000 {
        lemma_hex_value_with_front(d4, low);
        assert(q4 == d4);
        assert(hex_text(v) =~= seq![hex_digit(d4)] + low);
    } else {
        lemma_hex_value_with_front(d4, low);
        let five = seq![hex_digit(d4)] + low;
        assert(five.len() == 5);
        lemma_hex_value_with_front(d5, five);
        assert(q4 == q5 * 16 + d4);
        assert(q5 == d5);
        assert(hex_text(v) =~= seq![hex_digit(d5)] + five);
        assert(seq![hex_digit(d5), hex_digit(d4)] + low =~= seq![hex_digit(d5)] + five);
    }
}

/// Sixteen to the power of the number of digits.
pub open spec fn weight(digits: nat) -> nat
    decreases digits,
{
    if digits == 0 {
        1
    } else {
        16 * weight((digits - 1) as nat)
    }
}

/// The value of digits with one more digit in front.
pub proof fn lemma_hex_value_with_front(d: nat, text: Seq<char>)
    requires
        d < 16,
        text.len() >= 1,
        hex_value(text) is Some,
    ensures
        hex_value(seq![hex_digit(d)] + text) == Some(d * weight(text.len()) + hex_value(text)->0),
    decreases text.len(),
{
    lemma_hex_digit(d);
    let c = hex_digit(d);
    let all = seq![c] + text;
    assert(all.last() == text.last());
    assert(all.drop_last() =~= seq![c] + text.drop_last());
    if text.len() == 1 {
        assert(text.drop_last() =~= Seq::<char>::empty());
        assert(seq![c] + text.drop_last() =~= seq![c]);
        assert(seq![c].drop_last() =~= Seq::<char>::empty());
        assert(hex_value(seq![c]) == Some(d));
        assert(weight(1) == 16) by {
            assert(weight(0) == 1);
        }
    } else {
        lemma_hex_value_with_front(d, text.drop_last());
        let w = weight((text.len() - 1) as nat);
        assert(weight(text.len()) == 16 * w);
        let upper = hex_value(text.drop_last())->0;
        let digit = hex_digit_value(text.last())->0;
        assert((d * w + upper) * 16 + digit == d * (16 * w) + (upper * 16 + digit)) by (nonlinear_arith);
    }
}

/// The text of the number of a character is read back as the character.
pub proof fn lemma_token_of_char(c: char)
    ensures
        token_char(hex_text((c as u32) as nat)) == Some(c),
{
    let v = (c as u32) as nat;
    vstd::utf8::char_is_scalar(c);
    assert(is_scalar_value(v)) by {
        assert(vstd::utf8::is_scalar(c as u32));
    }
    lemma_hex_text_value(v);
    assert((v as u32) as char == c);
}

/// A word without white space is scanned into the piece that has been
/// begun.
pub proof fn lemma_scan_word(word: Seq<char>, rest: Seq<char>, pending: Seq<char>)
    requires
        forall|i: int| 0 <= i < word.len() ==> !is_space(#[trigger] word[i]),
    ensures
        tokens_after(word + rest, pending) == tokens_after(rest, pending + word),
    decreases word.len(),
{
    if word.len() == 0 {
        assert(word + rest =~= rest);
        assert(pending + word =~= pending);
    } else {
        let text = word + rest;
        assert(text[0] == word[0]);
        assert(text.drop_first() =~= word.drop_first() + rest);
        lemma_scan_word(word.drop_first(), rest, pending.push(word[0]));
        assert(pending.push(word[0]) + word.drop_first() =~= pending + word);
    }
}

/// The texts of the numbers of characters.
pub open spec fn words_of(codepoints: Seq<char>) -> Seq<Seq<char>> {
    Seq::new(codepoints.len(), |i: int| hex_text((codepoints[i] as u32) as nat))
}

/// The text form of code points begins with the text of the first.
pub proof fn lemma_text_from_front(codepoints: Seq<char>)
    requires
        codepoints.len() >= 2,
    ensures
        text_of_codepoints(codepoints) == hex_text((codepoints[0] as u32) as nat) + seq![' ']
            + text_of_codepoints(codepoints.drop_first()),
    decreases codepoints.len(),
{
    let first = hex_text((codepoints[0] as u32) as nat);
    let last = hex_text((codepoints.last() as u32) as nat);
    let front = codepoints.drop_last();
    let back = codepoints.drop_first();
    assert(text_of_codepoints(codepoints) == text_of_codepoints(front) + seq![' '] + last);
    if codepoints.len() == 2 {
        assert(front.len() == 1);
        assert(back.len() == 1);
        assert(front[0] == codepoints[0]);
        assert(back[0] == codepoints.last());
        assert(text_of_codepoints(front) == first);
        assert(text_of_codepoints(back) == last);
    } else {
        lemma_text_from_front(front);
        assert(front.drop_first() =~= back.drop_last());
        assert(front[0] == codepoints[0]);
        assert(back.last() == codepoints.last());
        assert(text_of_codepoints(back) == text_of_codepoints(back.drop_last()) + seq![' '] + last);
        let middle = text_of_codepoints(codepoints.drop_first().drop_last());
        assert((first + seq![' '] + middle) + seq![' '] + last =~= first + seq![' '] + (middle + seq![' ']
            + last));
    }
}

/// The text form of code points falls into the texts of their numbers.
pub proof fn lemma_tokens_of_text(codepoints: Seq<char>)
    requires
        forall|i: int| 0 <= i < codepoints.len() ==> ((#[trigger] codepoints[i]) as u32) <= 0x10FFFF,
    ensures
        tokens(text_of_codepoints(codepoints)) == words_of(codepoints),
    decreases codepoints.len(),
{
    let empty = Seq::<char>::empty();
    if codepoints.len() == 0 {
        assert(tokens(text_of_codepoints(codepoints)) =~= words_of(codepoints));
    } else {
        let first = hex_text((codepoints[0] as u32) as nat);
        lemma_hex_text_value((codepoints[0] as u32) as nat);
        if codepoints.len() == 1 {
            lemma_scan_word(first, empty, empty);
            assert(first + empty =~= first);
            assert(empty + first =~= first);
            assert(tokens_after(empty, first) =~= seq![first]);
            assert(seq![first] =~= words_of(codepoints));
        } else {
            let rest = codepoints.drop_first();
            lemma_text_from_front(codepoints);
            assert forall|i: int| 0 <= i < rest.len() implies ((#[trigger] rest[i]) as u32) <= 0x10FFFF by {
                assert(rest[i] == codepoints[i + 1]);
            }
            lemma_tokens_of_text(rest);
            let tail = seq![' '] + text_of_codepoints(rest);
            assert(first + seq![' '] + text_of_codepoints(rest) =~= first + tail);
            lemma_scan_word(first, tail, empty);
            assert(empty + first =~= first);
            assert(tail[0] == ' ');
            assert(is_space(' '));
            assert(tail.drop_first() =~= text_of_codepoints(rest));
            assert(tokens_after(tail, first) == seq![first] + tokens_after(text_of_codepoints(rest), empty));
            assert(seq![first] + words_of(rest) =~= words_of(codepoints));
        }
    }
}

/// The texts of the numbers of characters are read back as the characters.
pub proof fn lemma_chars_of_words(codepoints: Seq<char>)
    requires
        codepoints.no_duplicates(),
    ensures
        chars_of_tokens(words_of(codepoints)) == Some(codepoints),
    decreases codepoints.len(),
{
    if codepoints.len() == 0 {
        assert(codepoints =~= Seq::<char>::empty());
    } else {
        let before = codepoints.drop_last();
        lemma_chars_of_words(before);
        assert(words_of(codepoints).drop_last() =~= words_of(before));
        lemma_token_of_char(codepoints.last());
        assert(!before.contains(codepoints.last())) by {
            if before.contains(codepoints.last()) {
                let i = choose|i: int| 0 <= i < before.len() && before[i] == codepoints.last();
                assert(codepoints[i] == codepoints[codepoints.len() - 1]);
            }
        }
        assert(before.push(codepoints.last()) =~= codepoints);
    }
}

/// Code points are read back from their text form: what
/// `format_codepoints` writes of code points of which none occurs twice,
/// `parse_codepoints` reads as these code points.
pub proof fn lemma_codepoints_round_trip(codepoints: Seq<char>)
    requires
        codepoints.no_duplicates(),
    ensures
        codepoints_of_text(text_of_codepoints(codepoints)) == Some(codepoints),
        codepoints.len() > 0 ==> text_of_codepoints(codepoints).len() > 0,
{
    assert forall|i: int| 0 <= i < codepoints.len() implies ((#[trigger] codepoints[i]) as u32)
        <= 0x10FFFF by {
        vstd::utf8::char_is_scalar(codepoints[i]);
    }
    lemma_tokens_of_text(codepoints);
    lemma_chars_of_words(codepoints);
    if codepoints.len() > 0 {
        lemma_hex_text_value((codepoints.last() as u32) as nat);
    }
}

/// Whether a record can be written as a row and read back: its production
/// name, where it has one, is not empty, and none of its code points occurs
/// twice.
pub open spec fn record_sound(record: GlyphRecordView) -> bool {
    &&& record.postscript_name matches Some(text) ==> text.len() > 0
    &&& record.codepoints.no_duplicates()
}

/// A record is read back from its row: the row that `write_row_to_csv`
/// writes of a sound record of a glyph with a valid name is without fault,
/// and `from_row` reads the glyph and the record from it.
pub proof fn lemma_record_round_trip(name: NameView, record: GlyphRecordView)
    requires
        valid_name(name),
        record_sound(record),
    ensures
        row_fault(record_row(name, record)) is None,
        record_row(name, record)[0] == name,
        row_record(record_row(name, record)) == record,
{
    let row = record_row(name, record);
    lemma_codepoints_round_trip(record.codepoints);
    lemma_category_name_round_trip(record.opentype_category);
    reveal_strlit("true");
    reveal_strlit("false");
    reveal_strlit("Unassigned");
    reveal_strlit("Base");
    reveal_strlit("Ligature");
    reveal_strlit("Mark");
    reveal_strlit("Component");
    assert("true"@.len() == 4);
    assert("false"@.len() == 5);
    assert(row_flag(row) == Some(record.export));
    assert(category_name(record.opentype_category).len() > 0);
    if record.codepoints.len() == 0 {
        assert(text_of_codepoints(record.codepoints).len() == 0);
    }
    assert(row_record(row).codepoints == record.codepoints);
    assert(row_record(row).postscript_name == record.postscript_name);
}

/// The rows of the first `upto` records give these records.
proof fn lemma_rows_so_far(keys: Seq<NameView>, records: Map<NameView, GlyphRecordView>, upto: int)
    requires
        0 <= upto <= keys.len(),
        forall|i: int| 0 <= i < keys.len() ==> records.contains_key(#[trigger] keys[i]),
        forall|name: NameView| #[trigger]
            records.contains_key(name) ==> valid_name(name) && record_sound(records[name]),
    ensures
        records_of_rows(Seq::new(upto as nat, |i: int| record_row(keys[i], records[keys[i]])))
            =~= records.restrict(keys.take(upto).to_set()),
    decreases upto,
{
    let rows = Seq::new(upto as nat, |i: int| record_row(keys[i], records[keys[i]]));
    if upto > 0 {
        lemma_rows_so_far(keys, records, upto - 1);
        let before = Seq::new((upto - 1) as nat, |i: int| record_row(keys[i], records[keys[i]]));
        assert(rows.drop_last() =~= before);
        lemma_record_round_trip(keys[upto - 1], records[keys[upto - 1]]);
        assert(keys.take(upto) =~= keys.take(upto - 1).push(keys[upto - 1]));
        lemma_to_set_push(keys.take(upto - 1), keys[upto - 1]);
    } else {
        assert(keys.take(0) =~= Seq::<NameView>::empty());
    }
}

/// Whether the names can be listed in ascending order. This holds of the
/// names of every map.
pub open spec fn in_order(names: Set<NameView>) -> bool {
    strictly_ascending(ascending_keys(names)) && ascending_keys(names).to_set() =~= names
}

/// A table of records is read back: the rows that `write_glyph_data`
/// writes of sound records of glyphs with valid names are without fault,
/// and `load_glyph_data` reads the records from them.
pub proof fn lemma_records_round_trip(records: Map<NameView, GlyphRecordView>)
    requires
        in_order(records.dom()),
        forall|name: NameView| #[trigger]
            records.contains_key(name) ==> valid_name(name) && record_sound(records[name]),
    ensures
        forall|i: int|
            0 <= i < record_rows(records).len() ==> row_fault(#[trigger] record_rows(records)[i]) is None,
        records_of_rows(record_rows(records)) == records,
{
    let keys = ascending_keys(records.dom());
    let rows = record_rows(records);
    assert forall|i: int| 0 <= i < keys.len() implies records.contains_key(#[trigger] keys[i]) by {
        assert(keys.to_set().contains(keys[i]));
    }
    assert forall|i: int| 0 <= i < rows.len() implies row_fault(#[trigger] rows[i]) is None by {
        assert(records.contains_key(keys[i]));
        lemma_record_round_trip(keys[i], records[keys[i]]);
    }
    lemma_rows_so_far(keys, records, keys.len() as int);
    assert(rows =~= Seq::new(keys.len(), |i: int| record_row(keys[i], records[keys[i]])));
    assert(keys.take(keys.len() as int) =~= keys);
    assert(records.restrict(keys.to_set()) =~= records);
}

/// The rows of the first `upto` color marks give these marks.
proof fn lemma_marks_so_far(keys: Seq<NameView>, marks: Map<NameView, Seq<char>>, upto: int)
    requires
        0 <= upto <= keys.len(),
        forall|i: int| 0 <= i < keys.len() ==> marks.contains_key(#[trigger] keys[i]),
        forall|name: NameView| #[trigger]
            marks.contains_key(name) ==> canonical_rgba(marks[name]) == Some(marks[name]),
    ensures
        marks_of_rows(Seq::new(upto as nat, |i: int| seq![keys[i], marks[keys[i]]])) =~= marks.restrict(
            keys.take(upto).to_set(),
        ),
    decreases upto,
{
    let rows = Seq::new(upto as nat, |i: int| seq![keys[i], marks[keys[i]]]);
    if upto > 0 {
        lemma_marks_so_far(keys, marks, upto - 1);
        let before = Seq::new((upto - 1) as nat, |i: int| seq![keys[i], marks[keys[i]]]);
        assert(rows.drop_last() =~= before);
        assert(keys.take(upto) =~= keys.take(upto - 1).push(keys[upto - 1]));
        lemma_to_set_push(keys.take(upto - 1), keys[upto - 1]);
    } else {
        assert(keys.take(0) =~= Seq::<NameView>::empty());
    }
}

/// A table of color marks is read back: the rows that `write_color_marks`
/// writes of colors in their canonical form for glyphs with valid names are
/// without fault, and `load_color_marks` reads the marks from them.
pub proof fn lemma_color_marks_round_trip(marks: Map<NameView, Seq<char>>)
    requires
        in_order(marks.dom()),
        forall|name: NameView| #[trigger]
            marks.contains_key(name) ==> valid_name(name) && canonical_rgba(marks[name]) == Some(
                marks[name],
            ),
    ensures
        forall|i: int| 0 <= i < color_rows(marks).len() ==> color_row_sound(#[trigger] color_rows(marks)[i]),
        marks_of_rows(color_rows(marks)) == marks,
{
    let keys = ascending_keys(marks.dom());
    let rows = color_rows(marks);
    assert forall|i: int| 0 <= i < keys.len() implies marks.contains_key(#[trigger] keys[i]) by {
        assert(keys.to_set().contains(keys[i]));
    }
    assert forall|i: int| 0 <= i < rows.len() implies color_row_sound(#[trigger] rows[i]) by {
        assert(marks.contains_key(keys[i]));
    }
    lemma_marks_so_far(keys, marks, keys.len() as int);
    assert(rows =~= Seq::new(keys.len(), |i: int| seq![keys[i], marks[keys[i]]]));
    assert(keys.take(keys.len() as int) =~= keys);
    assert(marks.restrict(keys.to_set()) =~= marks);
}

/// The files of the first `upto` glyphs give the drawings of these glyphs.
proof fn lemma_drawings_so_far(
    keys: Seq<NameView>,
    files: Seq<Seq<char>>,
    glyphs: Map<NameView, DrawingView>,
    upto: int,
)
    requires
        0 <= upto <= keys.len(),
        forall|i: int| 0 <= i < keys.len() ==> glyphs.contains_key(#[trigger] keys[i]),
        forall|name: NameView| #[trigger] glyphs.contains_key(name) ==> glyphs[name].name == name,
    ensures
        drawings_of(
            Seq::new(
                upto as nat,
                |i: int| StoredGlyphView { file_name: files[i], drawing: glyphs[keys[i]] },
            ),
        ) =~= glyphs.restrict(keys.take(upto).to_set()),
    decreases upto,
{
    let stored = Seq::new(
        upto as nat,
        |i: int| StoredGlyphView { file_name: files[i], drawing: glyphs[keys[i]] },
    );
    if upto > 0 {
        lemma_drawings_so_far(keys, files, glyphs, upto - 1);
        let before = Seq::new(
            (upto - 1) as nat,
            |i: int| StoredGlyphView { file_name: files[i], drawing: glyphs[keys[i]] },
        );
        assert(stored.drop_last() =~= before);
        assert(keys.take(upto) =~= keys.take(upto - 1).push(keys[upto - 1]));
        lemma_to_set_push(keys.take(upto - 1), keys[upto - 1]);
    } else {
        assert(keys.take(0) =~= Seq::<NameView>::empty());
    }
}

/// The glyphs of a layer are read back: the files that `Layer::save`
/// writes of the glyphs of a sound layer give, read by `Layer::from_path`,
/// the glyphs of the layer, whatever the files are named.
pub proof fn lemma_glyphs_round_trip(layer: LayerView)
    requires
        in_order(layer.glyphs.dom()),
        layer_sound(layer),
        saved_glyphs(layer) is Some,
    ensures
        drawings_of(saved_glyphs(layer)->0) == layer.glyphs,
{
    let keys = ascending_keys(layer.glyphs.dom());
    let files = crate::storage::glyph_file_names(keys)->0;
    assert forall|i: int| 0 <= i < keys.len() implies layer.glyphs.contains_key(#[trigger] keys[i]) by {
        assert(keys.to_set().contains(keys[i]));
    }
    lemma_drawings_so_far(keys, files, layer.glyphs, keys.len() as int);
    assert(saved_glyphs(layer)->0 =~= Seq::new(
        keys.len(),
        |i: int| StoredGlyphView { file_name: files[i], drawing: layer.glyphs[keys[i]] },
    ));
    assert(keys.take(keys.len() as int) =~= keys);
    assert(layer.glyphs.restrict(keys.to_set()) =~= layer.glyphs);
}

/// Whether a layer can be written and read back: its glyphs and color
/// marks can be listed, each drawing stands under the name of its glyph,
/// each color mark is a color in its canonical form and belongs to a glyph
/// with a valid name, and a file name is left for each glyph.
pub open spec fn layer_storable(layer: LayerView) -> bool {
    &&& in_order(layer.glyphs.dom())
    &&& in_order(layer.color_marks.dom())
    &&& layer_sound(layer)
    &&& forall|name: NameView| #[trigger]
        layer.color_marks.contains_key(name) ==> valid_name(name) && canonical_rgba(
            layer.color_marks[name],
        ) == Some(layer.color_marks[name])
    &&& saved_glyphs(layer) is Some
}

/// A layer is read back: the directory that `Layer::save` writes of a
/// layer gives, read by `Layer::from_path`, the name and the layer. The
/// layer is read as the default layer if the directory is named `glyphs`.
pub proof fn lemma_layer_round_trip(layer: LayerView, layer_name: NameView, dir_name: Seq<char>)
    requires
        layer_storable(layer),
        valid_name(layer_name),
    ensures
        saved_layer(layer, layer_name, dir_name) is Some,
        layer_readable(saved_layer(layer, layer_name, dir_name)->0),
        loaded_layer(saved_layer(layer, layer_name, dir_name)->0) == (LayerView {
            default: dir_name == "glyphs"@,
            ..layer
        }),
{
    lemma_glyphs_round_trip(layer);
    lemma_color_marks_round_trip(layer.color_marks);
}

/// The names of the directories of the first layers of a source are the
/// first of the names of the directories of its layers.
pub proof fn lemma_layer_dirs_so_far(source: SourceView, keys: Seq<NameView>, upto: int)
    requires
        0 <= upto <= keys.len(),
        layer_dir_names(source, keys) is Some,
    ensures
        layer_dir_names(source, keys.take(upto)) == Some(layer_dir_names(source, keys)->0.take(upto)),
        layer_dir_names(source, keys)->0.len() == keys.len(),
    decreases keys.len() - upto,
{
    let dirs = layer_dir_names(source, keys)->0;
    lemma_layer_dirs_count(source, keys);
    if upto == keys.len() {
        assert(keys.take(upto) =~= keys);
        assert(dirs.take(upto) =~= dirs);
    } else {
        lemma_layer_dirs_so_far(source, keys, upto + 1);
        assert(keys.take(upto + 1).drop_last() =~= keys.take(upto));
        assert(dirs.take(upto + 1).drop_last() =~= dirs.take(upto));
    }
}

/// There is one name of a directory for each layer.
pub proof fn lemma_layer_dirs_count(source: SourceView, keys: Seq<NameView>)
    requires
        layer_dir_names(source, keys) is Some,
    ensures
        layer_dir_names(source, keys)->0.len() == keys.len(),
    decreases keys.len(),
{
    if keys.len() > 0 {
        lemma_layer_dirs_count(source, keys.drop_last());
    }
}

/// Whether the names of the directories of the layers of a source tell
/// the layers: each begins with `glyphs.` or is `glyphs`, and it is
/// `glyphs` for the default layer only.
pub open spec fn dirs_tell_layers(source: SourceView) -> bool {
    let keys = ascending_keys(source.layers.dom());
    layer_dir_names(source, keys) matches Some(dirs) ==> forall|i: int|
        0 <= i < keys.len() ==> is_layer_dir(#[trigger] dirs[i]) && ((dirs[i] == "glyphs"@)
            == source.layers[keys[i]].default)
}

/// Whether a source can be written and read back: it has exactly one
/// default layer, its layers can be listed, have valid names and can be
/// written and read back, and the names of their directories tell them.
pub open spec fn source_storable(source: SourceView) -> bool {
    &&& in_order(source.layers.dom())
    &&& has_one_default(source)
    &&& forall|name: NameView| #[trigger]
        source.layers.contains_key(name) ==> valid_name(name) && layer_storable(source.layers[name])
    &&& dirs_tell_layers(source)
    &&& layer_dir_names(source, ascending_keys(source.layers.dom())) is Some
}

/// The directories of the first `upto` layers of a source give these
/// layers.
proof fn lemma_layers_so_far(source: SourceView, upto: int)
    requires
        source_storable(source),
        0 <= upto <= ascending_keys(source.layers.dom()).len(),
    ensures
        saved_layers(source, ascending_keys(source.layers.dom()).take(upto)) is Some,
        layers_readable(saved_layers(source, ascending_keys(source.layers.dom()).take(upto))->0),
        loaded_layers(saved_layers(source, ascending_keys(source.layers.dom()).take(upto))->0)
            =~= source.layers.restrict(ascending_keys(source.layers.dom()).take(upto).to_set()),
    decreases upto,
{
    let keys = ascending_keys(source.layers.dom());
    let dirs = layer_dir_names(source, keys)->0;
    if upto > 0 {
        let k = upto - 1;
        lemma_layers_so_far(source, k);
        lemma_layer_dirs_so_far(source, keys, upto);
        assert(keys.take(upto).drop_last() =~= keys.take(k));
        assert(keys.take(upto).last() == keys[k]);
        assert(dirs.take(upto).last() == dirs[k]);
        assert(keys.to_set().contains(keys[k]));
        assert(source.layers.contains_key(keys[k]));
        let layer = source.layers[keys[k]];
        lemma_layer_round_trip(layer, keys[k], dirs[k]);
        let before = saved_layers(source, keys.take(k))->0;
        let stored = saved_layer(layer, keys[k], dirs[k])->0;
        let now = before.push(stored);
        assert(saved_layers(source, keys.take(upto)) == Some(now));
        assert(is_layer_dir(dirs[k]) && ((dirs[k] == "glyphs"@) == layer.default));
        assert(loaded_layer(stored) == layer);
        assert(now.drop_last() =~= before);
        assert(now.last() == stored);
        assert forall|i: int| 0 <= i < now.len() && is_layer_dir((#[trigger] now[i]).dir_name) implies layer_readable(
            now[i],
        ) by {
            if i < before.len() {
                assert(now[i] == before[i]);
            }
        }
        assert(keys.take(upto) =~= keys.take(k).push(keys[k]));
        lemma_to_set_push(keys.take(k), keys[k]);
    } else {
        assert(keys.take(0) =~= Seq::<NameView>::empty());
    }
}

/// The text after a prefix is read back.
pub proof fn lemma_name_after(prefix: Seq<char>, name: Seq<char>)
    ensures
        name_after(prefix, prefix + name) == Some(name),
{
    assert((prefix + name).subrange(0, prefix.len() as int) =~= prefix);
    assert((prefix + name).skip(prefix.len() as int) =~= name);
}

/// A source is read back: the directory that `Source::save` writes of a
/// source gives, read by `Source::from_path`, the source.
pub proof fn lemma_source_round_trip(source: SourceView, name: NameView)
    requires
        source_storable(source),
    ensures
        saved_source(source, name) is Some,
        source_readable(saved_source(source, name)->0),
        loaded_source(saved_source(source, name)->0) == source,
        name_after("source."@, saved_source(source, name)->0.dir_name) == Some(name),
{
    let keys = ascending_keys(source.layers.dom());
    lemma_layers_so_far(source, keys.len() as int);
    assert(keys.take(keys.len() as int) =~= keys);
    assert(source.layers.restrict(keys.to_set()) =~= source.layers);
    lemma_name_after("source."@, name);
    let stored = saved_source(source, name)->0;
    assert(loaded_source(stored).layers =~= source.layers);
    assert(loaded_source(stored) == source);
}

/// Whether a set can be written and read back: its records and sources
/// can be listed, its records are sound and of glyphs with valid names, and
/// its sources have valid names and can be written and read back.
pub open spec fn set_storable(set: GlyphSetView) -> bool {
    &&& in_order(set.glyph_data.dom())
    &&& in_order(set.sources.dom())
    &&& forall|name: NameView| #[trigger]
        set.glyph_data.contains_key(name) ==> valid_name(name) && record_sound(set.glyph_data[name])
    &&& forall|name: NameView| #[trigger]
        set.sources.contains_key(name) ==> valid_name(name) && source_storable(set.sources[name])
}

/// The directories of the first `upto` sources of a set give these
/// sources.
proof fn lemma_sources_so_far(set: GlyphSetView, upto: int)
    requires
        set_storable(set),
        0 <= upto <= ascending_keys(set.sources.dom()).len(),
    ensures
        saved_sources(set, ascending_keys(set.sources.dom()).take(upto)) is Some,
        sources_readable(saved_sources(set, ascending_keys(set.sources.dom()).take(upto))->0),
        loaded_sources(saved_sources(set, ascending_keys(set.sources.dom()).take(upto))->0)
            =~= set.sources.restrict(ascending_keys(set.sources.dom()).take(upto).to_set()),
    decreases upto,
{
    let keys = ascending_keys(set.sources.dom());
    if upto > 0 {
        let k = upto - 1;
        lemma_sources_so_far(set, k);
        assert(keys.take(upto).drop_last() =~= keys.take(k));
        assert(keys.take(upto).last() == keys[k]);
        assert(keys.to_set().contains(keys[k]));
        assert(set.sources.contains_key(keys[k]));
        lemma_source_round_trip(set.sources[keys[k]], keys[k]);
        let before = saved_sources(set, keys.take(k))->0;
        let stored = saved_source(set.sources[keys[k]], keys[k])->0;
        let now = before.push(stored);
        assert(saved_sources(set, keys.take(upto)) == Some(now));
        assert(now.drop_last() =~= before);
        assert(now.last() == stored);
        assert forall|i: int|
            0 <= i < now.len() && name_after("source."@, (#[trigger] now[i]).dir_name) is Some implies valid_name(
            name_after("source."@, now[i].dir_name)->0,
        ) && source_readable(now[i]) by {
            if i < before.len() {
                assert(now[i] == before[i]);
            }
        }
        assert(keys.take(upto) =~= keys.take(k).push(keys[k]));
        lemma_to_set_push(keys.take(k), keys[k]);
    } else {
        assert(keys.take(0) =~= Seq::<NameView>::empty());
    }
}

/// A set is read back: the directory that `GlyphSet::save` writes of a set
/// gives, read by `GlyphSet::from_path`, the set.
pub proof fn lemma_set_round_trip(set: GlyphSetView, name: NameView)
    requires
        set_storable(set),
    ensures
        saved_set(set, name) is Some,
        set_readable(saved_set(set, name)->0),
        loaded_set(saved_set(set, name)->0) == set,
        name_after("set."@, saved_set(set, name)->0.dir_name) == Some(name),
{
    let keys = ascending_keys(set.sources.dom());
    lemma_sources_so_far(set, keys.len() as int);
    assert(keys.take(keys.len() as int) =~= keys);
    assert(set.sources.restrict(keys.to_set()) =~= set.sources);
    lemma_records_round_trip(set.glyph_data);
    lemma_name_after("set."@, name);
    let stored = saved_set(set, name)->0;
    assert(loaded_set(stored).sources =~= set.sources);
    assert(loaded_set(stored) == set);
}

/// Whether a repository can be written and read back: its sets can be
/// listed, have valid names and can be written and read back, and no glyph
/// is covered by two of them.
pub open spec fn storable(garden: FontgardenView) -> bool {
    &&& in_order(garden.sets.dom())
    &&& forall|name: NameView| #[trigger]
        garden.sets.contains_key(name) ==> valid_name(name) && set_storable(garden.sets[name])
    &&& coverage_disjoint(garden)
}

/// The directories of the first `upto` sets of a repository give these
/// sets.
proof fn lemma_sets_so_far(garden: FontgardenView, upto: int)
    requires
        storable(garden),
        0 <= upto <= ascending_keys(garden.sets.dom()).len(),
    ensures
        saved_sets(garden, ascending_keys(garden.sets.dom()).take(upto)) is Some,
        saved_sets(garden, ascending_keys(garden.sets.dom()).take(upto))->0.len() == upto,
        readable(saved_sets(garden, ascending_keys(garden.sets.dom()).take(upto))->0),
        loaded_sets(saved_sets(garden, ascending_keys(garden.sets.dom()).take(upto))->0)
            =~= garden.sets.restrict(ascending_keys(garden.sets.dom()).take(upto).to_set()),
        forall|glyph: NameView|
            covered(saved_sets(garden, ascending_keys(garden.sets.dom()).take(upto))->0).contains(glyph)
                ==> exists|j: int|
                0 <= j < upto && coverage(
                    garden.sets[#[trigger] ascending_keys(garden.sets.dom())[j]],
                ).contains(glyph),
    decreases upto,
{
    let keys = ascending_keys(garden.sets.dom());
    if upto > 0 {
        let k = upto - 1;
        lemma_sets_so_far(garden, k);
        assert(keys.take(upto).drop_last() =~= keys.take(k));
        assert(keys.take(upto).last() == keys[k]);
        assert(keys.to_set().contains(keys[k]));
        assert(garden.sets.contains_key(keys[k]));
        lemma_set_round_trip(garden.sets[keys[k]], keys[k]);
        let before = saved_sets(garden, keys.take(k))->0;
        let stored = saved_set(garden.sets[keys[k]], keys[k])->0;
        let now = before.push(stored);
        assert(saved_sets(garden, keys.take(upto)) == Some(now));
        assert(now.drop_last() =~= before);
        assert(now.last() == stored);
        assert(now.take(k) =~= before);
        assert forall|glyph: NameView| covered(now).contains(glyph) implies exists|j: int|
            0 <= j < upto && coverage(garden.sets[#[trigger] keys[j]]).contains(glyph) by {
            if covered(before).contains(glyph) {
                let j = choose|j: int|
                    0 <= j < k && coverage(garden.sets[#[trigger] keys[j]]).contains(glyph);
                assert(coverage(garden.sets[keys[j]]).contains(glyph));
            } else {
                assert(coverage(garden.sets[keys[k]]).contains(glyph));
            }
        }
        assert forall|i: int| 0 <= i < now.len() implies set_fits(now, i) by {
            if i < k {
                assert(set_fits(before, i));
                assert(now[i] == before[i]);
                assert(now.take(i) =~= before.take(i));
            } else {
                assert forall|glyph: NameView|
                    !(coverage(loaded_set(now[i])).contains(glyph) && covered(now.take(i)).contains(
                        glyph,
                    )) by {
                    if coverage(garden.sets[keys[k]]).contains(glyph) && covered(before).contains(glyph) {
                        let j = choose|j: int|
                            0 <= j < k && coverage(garden.sets[#[trigger] keys[j]]).contains(glyph);
                        assert(keys.to_set().contains(keys[j]));
                        assert(garden.sets.contains_key(keys[j]));
                        if keys[j] == keys[k] {
                            crate::name_map::lemma_ascending_unique(keys, j, k);
                        }
                        assert(coverage(garden.sets[keys[j]]).disjoint(coverage(garden.sets[keys[k]])));
                    }
                }
            }
        }
        assert(keys.take(upto) =~= keys.take(k).push(keys[k]));
        lemma_to_set_push(keys.take(k), keys[k]);
    } else {
        assert(keys.take(0) =~= Seq::<NameView>::empty());
    }
}

/// A repository is read back: the directories that `Fontgarden::save`
/// writes of a repository give, read by `Fontgarden::from_path`, the
/// repository.
pub proof fn lemma_repository_round_trip(garden: FontgardenView)
    requires
        storable(garden),
    ensures
        saved(garden) is Some,
        readable(saved(garden)->0),
        loaded_sets(saved(garden)->0) == garden.sets,
{
    let keys = ascending_keys(garden.sets.dom());
    lemma_sets_so_far(garden, keys.len() as int);
    assert(keys.take(keys.len() as int) =~= keys);
    assert(garden.sets.restrict(keys.to_set()) =~= garden.sets);
}

} // verus!
