//! What is known of a glyph apart from its drawings, and the text form of
//! its code points.

use vstd::prelude::*;
use crate::glyph::clone_chars;
use crate::name_map::Duplicate;
use crate::names::same_name;
use crate::text::{from_chars, to_chars};

verus! {

/// The OpenType category of a glyph.
#[derive(Clone, Copy, Debug, PartialEq, Eq, Structural)]
pub enum OpenTypeCategory {
    Unassigned,
    Base,
    Ligature,
    Mark,
    Component,
}

/// The category that a text names, if it names one.
pub open spec fn category_named(text: Seq<char>) -> Option<OpenTypeCategory> {
    if text == "Unassigned"@ {
        Some(OpenTypeCategory::Unassigned)
    } else if text == "Base"@ {
        Some(OpenTypeCategory::Base)
    } else if text == "Ligature"@ {
        Some(OpenTypeCategory::Ligature)
    } else if text == "Mark"@ {
        Some(OpenTypeCategory::Mark)
    } else if text == "Component"@ {
        Some(OpenTypeCategory::Component)
    } else {
        None
    }
}

/// The text that names a category.
pub open spec fn category_name(category: OpenTypeCategory) -> Seq<char> {
    match category {
        OpenTypeCategory::Unassigned => "Unassigned"@,
        OpenTypeCategory::Base => "Base"@,
        OpenTypeCategory::Ligature => "Ligature"@,
        OpenTypeCategory::Mark => "Mark"@,
        OpenTypeCategory::Component => "Component"@,
    }
}

/// The name of a category names that category.
pub proof fn lemma_category_name_round_trip(category: OpenTypeCategory)
    ensures
        category_named(category_name(category)) == Some(category),
{
    reveal_strlit("Unassigned");
    reveal_strlit("Base");
    reveal_strlit("Ligature");
    reveal_strlit("Mark");
    reveal_strlit("Component");
    assert("Unassigned"@.len() == 10);
    assert("Base"@.len() == 4);
    assert("Ligature"@.len() == 8);
    assert("Mark"@[0] == 'M');
    assert("Base"@[0] == 'B');
    assert("Component"@.len() == 9);
}

impl OpenTypeCategory {
    /// The category that `s` names.
    pub fn from_str(s: &str) -> (r: Result<OpenTypeCategory, &'static str>)
        ensures
            r is Ok <==> category_named(s@) is Some,
            r matches Ok(category) ==> category_named(s@) == Some(category),
    {
        if same_name(s, "Unassigned") {
            Ok(OpenTypeCategory::Unassigned)
        } else if same_name(s, "Base") {
            Ok(OpenTypeCategory::Base)
        } else if same_name(s, "Ligature") {
            Ok(OpenTypeCategory::Ligature)
        } else if same_name(s, "Mark") {
            Ok(OpenTypeCategory::Mark)
        } else if same_name(s, "Component") {
            Ok(OpenTypeCategory::Component)
        } else {
            Err("Category must be Unassigned, Base, Ligature, Mark or Component")
        }
    }

    /// The text that names the category.
    pub fn name(&self) -> (r: &'static str)
        ensures
            r@ == category_name(*self),
    {
        match self {
            OpenTypeCategory::Unassigned => "Unassigned",
            OpenTypeCategory::Base => "Base",
            OpenTypeCategory::Ligature => "Ligature",
            OpenTypeCategory::Mark => "Mark",
            OpenTypeCategory::Component => "Component",
        }
    }
}

impl Default for OpenTypeCategory {
    fn default() -> (r: OpenTypeCategory)
        ensures
            r == OpenTypeCategory::Unassigned,
    {
        OpenTypeCategory::Unassigned
    }
}

/// What is known of a glyph apart from its drawings.
#[derive(Debug, PartialEq, Eq)]
pub struct GlyphRecord {
    /// The name of the glyph in production.
    pub postscript_name: Option<String>,
    /// The code points of the glyph, none of them twice.
    pub codepoints: Vec<char>,
    pub opentype_category: OpenTypeCategory,
    /// Whether the glyph goes into exported fonts.
    pub export: bool,
}

/// A record as contracts see it.
pub struct GlyphRecordView {
    pub postscript_name: Option<Seq<char>>,
    pub codepoints: Seq<char>,
    pub opentype_category: OpenTypeCategory,
    pub export: bool,
}

impl View for GlyphRecord {
    type V = GlyphRecordView;

    open spec fn view(&self) -> GlyphRecordView {
        GlyphRecordView {
            postscript_name: self.postscript_name.deep_view(),
            codepoints: self.codepoints@,
            opentype_category: self.opentype_category,
            export: self.export,
        }
    }
}

/// The record of a glyph of which nothing is known: no production name, no
/// code points, no category, and it is exported.
pub open spec fn default_record() -> GlyphRecordView {
    GlyphRecordView {
        postscript_name: None,
        codepoints: Seq::empty(),
        opentype_category: OpenTypeCategory::Unassigned,
        export: true,
    }
}

impl GlyphRecord {
    /// The record of a glyph of which nothing is known.
    pub fn new() -> (r: GlyphRecord)
        ensures
            r@ == default_record(),
    {
        GlyphRecord {
            postscript_name: None,
            codepoints: Vec::new(),
            opentype_category: OpenTypeCategory::Unassigned,
            export: true,
        }
    }
}

impl Default for GlyphRecord {
    fn default() -> (r: GlyphRecord)
        ensures
            r@ == default_record(),
    {
        GlyphRecord::new()
    }
}

impl Duplicate for GlyphRecord {
    fn duplicate(&self) -> (copy: GlyphRecord) {
        let postscript_name = match &self.postscript_name {
            Some(name) => Some(name.clone()),
            None => None,
        };
        GlyphRecord {
            postscript_name,
            codepoints: clone_chars(&self.codepoints),
            opentype_category: self.opentype_category,
            export: self.export,
        }
    }
}

/// White space between code points: the characters with the Unicode
/// property `White_Space`.
pub open spec fn is_space(c: char) -> bool {
    let u = c as u32;
    (0x09 <= u <= 0x0D) || u == 0x20 || u == 0x85 || u == 0xA0 || u == 0x1680 || (0x2000 <= u
        <= 0x200A) || u == 0x2028 || u == 0x2029 || u == 0x202F || u == 0x205F || u == 0x3000
}

/// The value of a hexadecimal digit, in either case of letters.
pub open spec fn hex_digit_value(c: char) -> Option<nat> {
    let u = c as u32;
    if 0x30 <= u <= 0x39 {
        Some((u - 0x30) as nat)
    } else if 0x41 <= u <= 0x46 {
        Some((u - 0x41 + 10) as nat)
    } else if 0x61 <= u <= 0x66 {
        Some((u - 0x61 + 10) as nat)
    } else {
        None
    }
}

/// The number that a text of hexadecimal digits stands for; `None` where
/// the text is empty or holds anything else.
pub open spec fn hex_value(text: Seq<char>) -> Option<nat>
    decreases text.len(),
{
    if text.len() == 0 {
        None
    } else {
        match hex_digit_value(text.last()) {
            None => None,
            Some(digit) => if text.len() == 1 {
                Some(digit)
            } else {
                match hex_value(text.drop_last()) {
                    None => None,
                    Some(upper) => Some(upper * 16 + digit),
                }
            },
        }
    }
}

/// Whether a number is a Unicode scalar value: a code point that is no
/// surrogate.
pub open spec fn is_scalar_value(v: nat) -> bool {
    v <= 0x10FFFF && !(0xD800 <= v <= 0xDFFF)
}

/// The character that a text of hexadecimal digits stands for.
pub open spec fn token_char(text: Seq<char>) -> Option<char> {
    match hex_value(text) {
        Some(v) => if is_scalar_value(v) {
            Some((v as u32) as char)
        } else {
            None
        },
        None => None,
    }
}

/// The pieces of `text` between white space, after `pending`, the piece
/// that has been begun.
pub open spec fn tokens_after(text: Seq<char>, pending: Seq<char>) -> Seq<Seq<char>>
    decreases text.len(),
{
    if text.len() == 0 {
        if pending.len() == 0 {
            Seq::empty()
        } else {
            seq![pending]
        }
    } else if is_space(text[0]) {
        if pending.len() == 0 {
            tokens_after(text.drop_first(), Seq::empty())
        } else {
            seq![pending] + tokens_after(text.drop_first(), Seq::empty())
        }
    } else {
        tokens_after(text.drop_first(), pending.push(text[0]))
    }
}

/// The pieces of `text` between white space.
pub open spec fn tokens(text: Seq<char>) -> Seq<Seq<char>> {
    tokens_after(text, Seq::empty())
}

/// The characters that the tokens stand for, each once, in the order in
/// which they first occur; `None` where a token stands for no character.
pub open spec fn chars_of_tokens(tokens: Seq<Seq<char>>) -> Option<Seq<char>>
    decreases tokens.len(),
{
    if tokens.len() == 0 {
        Some(Seq::empty())
    } else {
        match (chars_of_tokens(tokens.drop_last()), token_char(tokens.last())) {
            (Some(before), Some(c)) => if before.contains(c) {
                Some(before)
            } else {
                Some(before.push(c))
            },
            _ => None,
        }
    }
}

/// The code points that a text lists.
pub open spec fn codepoints_of_text(text: Seq<char>) -> Option<Seq<char>> {
    chars_of_tokens(tokens(text))
}

/// Calls `char::from_u32`. Trusted: the result is the character of the
/// scalar value `v`, and `None` where `v` is a surrogate or above the last
/// code point.
#[verifier::external_body]
fn char_of(v: u32) -> (r: Option<char>)
    ensures
        r == if is_scalar_value(v as nat) {
            Some(v as char)
        } else {
            None::<char>
        },
{
    char::from_u32(v)
}

/// Whether `c` is white space.
pub fn is_space_char(c: char) -> (r: bool)
    ensures
        r == is_space(c),
{
    let u = c as u32;
    (0x09 <= u && u <= 0x0D) || u == 0x20 || u == 0x85 || u == 0xA0 || u == 0x1680 || (0x2000 <= u
        && u <= 0x200A) || u == 0x2028 || u == 0x2029 || u == 0x202F || u == 0x205F || u == 0x3000
}

/// The pieces of `text` between white space.
fn split_tokens(text: &Vec<char>) -> (pieces: Vec<Vec<char>>)
    ensures
        pieces.deep_view() == tokens(text@),
{
    let mut pieces: Vec<Vec<char>> = Vec::new();
    let mut pending: Vec<char> = Vec::new();
    let mut i: usize = 0;
    proof {
        assert(text@.skip(0) =~= text@);
        assert(pieces.deep_view() + tokens_after(text@.skip(0), pending@) =~= tokens(text@));
    }
    while i < text.len()
        invariant
            i <= text.len(),
            tokens(text@) == pieces.deep_view() + tokens_after(text@.skip(i as int), pending@),
        decreases text.len() - i,
    {
        let c = text[i];
        let ghost rest = text@.skip(i as int);
        let ghost done = pieces.deep_view();
        let ghost begun = pending@;
        proof {
            assert(pending.deep_view() =~= pending@);
            assert(rest[0] == c);
            assert(rest.drop_first() =~= text@.skip(i as int + 1));
        }
        if is_space_char(c) {
            if pending.len() > 0 {
                pieces.push(pending);
                pending = Vec::new();
                proof {
                    assert(pieces.deep_view() =~= done.push(begun));
                    assert(done + (seq![begun] + tokens_after(rest.drop_first(), Seq::empty()))
                        =~= done.push(begun) + tokens_after(rest.drop_first(), Seq::empty()));
                }
            }
            proof {
                assert(pending@ =~= Seq::<char>::empty());
            }
        } else {
            pending.push(c);
        }
        i += 1;
    }
    proof {
        assert(text@.skip(i as int).len() == 0);
    }
    let ghost done = pieces.deep_view();
    let ghost begun = pending@;
    proof {
        assert(pending.deep_view() =~= pending@);
    }
    if pending.len() > 0 {
        pieces.push(pending);
        proof {
            assert(pieces.deep_view() =~= done.push(begun));
            assert(done + seq![begun] =~= done.push(begun));
        }
    } else {
        proof {
            assert(done + Seq::<Seq<char>>::empty() =~= done);
        }
    }
    pieces
}

/// The character that a token stands for.
fn parse_token(token: &Vec<char>) -> (r: Option<char>)
    ensures
        r == token_char(token@),
{
    if token.len() == 0 {
        return None;
    }
    let mut value: u32 = 0;
    let mut i: usize = 0;
    proof {
        assert(token@.take(0) =~= Seq::<char>::empty());
    }
    while i < token.len()
        invariant
            i <= token.len(),
            token.len() > 0,
            value <= 0x110000,
            i > 0 ==> hex_value(token@.take(i as int)) is Some,
            i > 0 ==> value == if hex_value(token@.take(i as int))->0 <= 0x110000 {
                hex_value(token@.take(i as int))->0
            } else {
                0x110000
            },
            i == 0 ==> value == 0,
        decreases token.len() - i,
    {
        let u = token[i] as u32;
        let digit: u32 = if 0x30 <= u && u <= 0x39 {
            u - 0x30
        } else if 0x41 <= u && u <= 0x46 {
            u - 0x41 + 10
        } else if 0x61 <= u && u <= 0x66 {
            u - 0x61 + 10
        } else {
            proof {
                lemma_hex_value_needs_digits(token@, i as int);
            }
            return None;
        };
        proof {
            let upto = token@.take(i as int + 1);
            assert(upto.last() == token@[i as int]);
            assert(upto.drop_last() =~= token@.take(i as int));
        }
        let next = value * 16 + digit;
        value = if next > 0x110000 {
            0x110000
        } else {
            next
        };
        i += 1;
    }
    proof {
        assert(token@.take(i as int) =~= token@);
    }
    char_of(value)
}

/// A text has a value only if each of its characters is a hexadecimal
/// digit.
pub proof fn lemma_hex_value_needs_digits(text: Seq<char>, i: int)
    requires
        0 <= i < text.len(),
        hex_digit_value(text[i]) is None,
    ensures
        hex_value(text) is None,
    decreases text.len(),
{
    if i < text.len() - 1 {
        lemma_hex_value_needs_digits(text.drop_last(), i);
    }
}

/// Whether `c` is among `chars`.
fn has_char(chars: &Vec<char>, c: char) -> (r: bool)
    ensures
        r == chars@.contains(c),
{
    let mut i: usize = 0;
    while i < chars.len()
        invariant
            i <= chars.len(),
            forall|j: int| 0 <= j < i ==> chars@[j] != c,
        decreases chars.len() - i,
    {
        if chars[i] == c {
            return true;
        }
        i += 1;
    }
    false
}

/// What the text form of code points could not be read as: the piece that
/// stands for no character.
#[derive(Debug, PartialEq, Eq)]
pub struct CodepointError {
    pub token: String,
}

/// Whether `token` is the first of the tokens that stands for no
/// character.
pub open spec fn is_first_bad_token(tokens: Seq<Seq<char>>, token: Seq<char>) -> bool {
    exists|i: int|
        0 <= i < tokens.len() && #[trigger] tokens[i] == token && token_char(token) is None && forall|
            j: int,
        | 0 <= j < i ==> token_char(#[trigger] tokens[j]) is Some
}

/// Reads code points from text: hexadecimal numbers between white space.
/// A code point that is listed twice is kept once, at its first place.
///
/// Fails at the first piece that stands for no character, and returns it.
pub fn parse_codepoints(v: &str) -> (r: Result<Vec<char>, CodepointError>)
    ensures
        r is Ok <==> codepoints_of_text(v@) is Some,
        r matches Ok(codepoints) ==> codepoints_of_text(v@) == Some(codepoints@)
            && codepoints@.no_duplicates(),
        r matches Err(e) ==> is_first_bad_token(tokens(v@), e.token@),
{
    let text = to_chars(v);
    let pieces = split_tokens(&text);
    let mut codepoints: Vec<char> = Vec::new();
    let mut i: usize = 0;
    proof {
        assert(pieces.deep_view().take(0) =~= Seq::<Seq<char>>::empty());
    }
    while i < pieces.len()
        invariant
            i <= pieces.len(),
            pieces.deep_view() == tokens(v@),
            chars_of_tokens(pieces.deep_view().take(i as int)) == Some(codepoints@),
            codepoints@.no_duplicates(),
            forall|j: int| 0 <= j < i ==> token_char(#[trigger] pieces.deep_view()[j]) is Some,
        decreases pieces.len() - i,
    {
        let ghost upto = pieces.deep_view().take(i as int + 1);
        proof {
            assert(pieces[i as int].deep_view() =~= pieces[i as int]@);
            assert(upto.last() == pieces[i as int]@);
            assert(upto.drop_last() =~= pieces.deep_view().take(i as int));
        }
        match parse_token(&pieces[i]) {
            Some(c) => {
                if !has_char(&codepoints, c) {
                    codepoints.push(c);
                }
            },
            None => {
                let token = from_chars(&pieces[i]);
                proof {
                    assert(pieces.deep_view()[i as int] == pieces[i as int]@);
                    lemma_bad_token_spoils(pieces.deep_view(), i as int);
                    assert(pieces.deep_view()[i as int] == token@);
                }
                return Err(CodepointError { token });
            },
        }
        i += 1;
    }
    proof {
        assert(pieces.deep_view().take(i as int) =~= pieces.deep_view());
    }
    Ok(codepoints)
}

/// Tokens of which one stands for no character give no code points.
pub proof fn lemma_bad_token_spoils(tokens: Seq<Seq<char>>, i: int)
    requires
        0 <= i < tokens.len(),
        token_char(tokens[i]) is None,
    ensures
        chars_of_tokens(tokens) is None,
    decreases tokens.len(),
{
    if i < tokens.len() - 1 {
        lemma_bad_token_spoils(tokens.drop_last(), i);
    }
}

/// The characters of `chars`, each once, in the order in which they first
/// occur.
pub open spec fn without_repeats(chars: Seq<char>) -> Seq<char>
    decreases chars.len(),
{
    if chars.len() == 0 {
        Seq::empty()
    } else {
        let before = without_repeats(chars.drop_last());
        if before.contains(chars.last()) {
            before
        } else {
            before.push(chars.last())
        }
    }
}

/// The characters of `chars`, each once, in the order in which they first
/// occur.
pub fn dedup_chars(chars: &Vec<char>) -> (r: Vec<char>)
    ensures
        r@ == without_repeats(chars@),
        r@.no_duplicates(),
{
    let mut r: Vec<char> = Vec::new();
    let mut i: usize = 0;
    proof {
        assert(chars@.take(0) =~= Seq::<char>::empty());
    }
    while i < chars.len()
        invariant
            i <= chars.len(),
            r@ == without_repeats(chars@.take(i as int)),
            r@.no_duplicates(),
        decreases chars.len() - i,
    {
        proof {
            let upto = chars@.take(i as int + 1);
            assert(upto.last() == chars@[i as int]);
            assert(upto.drop_last() =~= chars@.take(i as int));
        }
        if !has_char(&r, chars[i]) {
            r.push(chars[i]);
        }
        i += 1;
    }
    proof {
        assert(chars@.take(i as int) =~= chars@);
    }
    r
}

/// The hexadecimal digit of value `d`, a capital where it is a letter.
pub open spec fn hex_digit(d: nat) -> char {
    if d < 10 {
        ((48 + d) as u8) as char
    } else {
        ((55 + d) as u8) as char
    }
}

/// The number `v` in capital hexadecimal digits: four of them, and more
/// where the number needs more.
pub open spec fn hex_text(v: nat) -> Seq<char> {
    let low = seq![
        hex_digit((v / 0x1000) % 16),
        hex_digit((v / 0x100) % 16),
        hex_digit((v / 0x10) % 16),
        hex_digit(v % 16),
    ];
    if v < 0x10000 {
        low
    } else if v < 0x100000 {
        seq![hex_digit((v / 0x10000) % 16)] + low
    } else {
        seq![hex_digit((v / 0x100000) % 16), hex_digit((v / 0x10000) % 16)] + low
    }
}

/// The text form of code points: the number of each in hexadecimal, with
/// one space between them.
pub open spec fn text_of_codepoints(codepoints: Seq<char>) -> Seq<char>
    decreases codepoints.len(),
{
    if codepoints.len() == 0 {
        Seq::empty()
    } else if codepoints.len() == 1 {
        hex_text((codepoints[0] as u32) as nat)
    } else {
        text_of_codepoints(codepoints.drop_last()) + seq![' '] + hex_text((codepoints.last() as u32) as nat)
    }
}

/// The hexadecimal digit of value `d`.
fn hex_digit_char(d: u32) -> (c: char)
    requires
        d < 16,
    ensures
        c == hex_digit(d as nat),
{
    if d < 10 {
        ((48 + d) as u8) as char
    } else {
        ((55 + d) as u8) as char
    }
}

/// Writes code points as text.
pub fn format_codepoints(codepoints: &Vec<char>) -> (text: String)
    ensures
        text@ == text_of_codepoints(codepoints@),
{
    let mut out: Vec<char> = Vec::new();
    let mut i: usize = 0;
    proof {
        assert(codepoints@.take(0) =~= Seq::<char>::empty());
    }
    while i < codepoints.len()
        invariant
            i <= codepoints.len(),
            out@ == text_of_codepoints(codepoints@.take(i as int)),
        decreases codepoints.len() - i,
    {
        let ghost before = out@;
        let v = codepoints[i] as u32;
        let ghost upto = codepoints@.take(i as int + 1);
        proof {
            assert(upto.last() == codepoints@[i as int]);
            assert(upto.drop_last() =~= codepoints@.take(i as int));
            assert(upto[0] == codepoints@[0]);
        }
        if i > 0 {
            out.push(' ');
        }
        let ghost spaced = out@;
        if v >= 0x100000 {
            out.push(hex_digit_char((v / 0x100000) % 16));
        }
        if v >= 0x10000 {
            out.push(hex_digit_char((v / 0x10000) % 16));
        }
        out.push(hex_digit_char((v / 0x1000) % 16));
        out.push(hex_digit_char((v / 0x100) % 16));
        out.push(hex_digit_char((v / 0x10) % 16));
        out.push(hex_digit_char(v % 16));
        proof {
            assert(out@ =~= spaced + hex_text(v as nat));
            assert(v == codepoints@[i as int] as u32);
            if i > 0 {
                assert(spaced =~= before + seq![' ']);
                assert(upto.len() > 1);
            } else {
                assert(spaced =~= Seq::<char>::empty());
                assert(upto.len() == 1);
            }
            assert(out@ =~= text_of_codepoints(upto));
        }
        i += 1;
    }
    proof {
        assert(codepoints@.take(i as int) =~= codepoints@);
    }
    from_chars(&out)
}

} // verus!
