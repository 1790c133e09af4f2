//! File names for glyphs and layers.
//!
//! A name is turned into a file name that is safe on case-insensitive file
//! systems and does not clash with the names already taken in its
//! directory.

use vstd::prelude::*;
use crate::name_set::NameSet;
use crate::names::{same_name, NameView};
use crate::text::{append_chars, from_chars, is_uppercase, lowercase, to_chars, to_lowercase, uppercase};

verus! {

/// The longest file name, in bytes of UTF-8.
pub const MAX_LEN: usize = 255;

/// The number of digits of the counter that tells clashing names apart.
pub const NUMBER_LEN: usize = 2;

/// Characters that may not stand in a file name.
pub open spec fn is_illegal(c: char) -> bool {
    c == ':' || c == '?' || c == '"' || c == '(' || c == ')' || c == '[' || c == ']' || c == '*'
        || c == '/' || c == '\\' || c == '+' || c == '<' || c == '>' || c == '|'
}

/// What one character of a name becomes. `initial` says that the character
/// is the first of a file name without prefix.
pub open spec fn transliterate_char(c: char, initial: bool) -> Seq<char> {
    if c == '.' && initial {
        seq!['_']
    } else if is_illegal(c) {
        seq!['_']
    } else if uppercase(c) {
        seq![c, '_']
    } else {
        seq![c]
    }
}

/// What a name becomes, character by character. `bare` says that the file
/// name has no prefix.
pub open spec fn transliterate(name: Seq<char>, bare: bool) -> Seq<char>
    decreases name.len(),
{
    if name.len() == 0 {
        Seq::empty()
    } else {
        transliterate(name.drop_last(), bare) + transliterate_char(
            name.last(),
            bare && name.len() == 1,
        )
    }
}

/// The part of `s` before its first period; all of `s` if it has none.
pub open spec fn first_part(s: Seq<char>) -> Seq<char>
    decreases s.len(),
{
    if s.len() == 0 || s[0] == '.' {
        Seq::empty()
    } else {
        seq![s[0]] + first_part(s.drop_first())
    }
}

/// The device names that some systems reserve.
pub open spec fn is_reserved(s: Seq<char>) -> bool {
    s == "con"@ || s == "prn"@ || s == "aux"@ || s == "nul"@ || s == "com1"@ || s == "com2"@ || s
        == "com3"@ || s == "com4"@ || s == "com5"@ || s == "com6"@ || s == "com7"@ || s == "com8"@
        || s == "com9"@ || s == "lpt1"@ || s == "lpt2"@ || s == "lpt3"@ || s == "lpt4"@ || s
        == "lpt5"@ || s == "lpt6"@ || s == "lpt7"@ || s == "lpt8"@ || s == "lpt9"@
}

/// The number of bytes that a character takes in UTF-8.
pub open spec fn utf8_len(c: char) -> nat {
    if (c as u32) < 0x80 {
        1
    } else if (c as u32) < 0x800 {
        2
    } else if (c as u32) < 0x10000 {
        3
    } else {
        4
    }
}

/// The number of bytes that a string takes in UTF-8.
pub open spec fn utf8_size(s: Seq<char>) -> nat
    decreases s.len(),
{
    if s.len() == 0 {
        0
    } else {
        utf8_len(s[0]) + utf8_size(s.drop_first())
    }
}

/// The longest beginning of `s` that takes at most `limit` bytes.
pub open spec fn clip(s: Seq<char>, limit: nat) -> Seq<char>
    decreases s.len(),
{
    if s.len() == 0 || utf8_len(s[0]) > limit {
        Seq::empty()
    } else {
        seq![s[0]] + clip(s.drop_first(), (limit - utf8_len(s[0])) as nat)
    }
}

/// `s` with the periods and spaces at its end replaced by underscores.
pub open spec fn seal_tail(s: Seq<char>) -> Seq<char>
    decreases s.len(),
{
    if s.len() > 0 && (s.last() == '.' || s.last() == ' ') {
        seal_tail(s.drop_last()).push('_')
    } else {
        s
    }
}

/// `a - b`, and 0 where that would be negative.
pub open spec fn minus(a: nat, b: nat) -> nat {
    if a >= b {
        (a - b) as nat
    } else {
        0
    }
}

/// The decimal digit `d` as a character.
pub open spec fn digit(d: int) -> char {
    (48 + d) as u8 as char
}

/// The counter `k` in two digits.
pub open spec fn two_digits(k: int) -> Seq<char> {
    seq![digit(k / 10), digit(k % 10)]
}

/// The file name with counter `k`.
pub open spec fn numbered(base: Seq<char>, k: int, suffix: Seq<char>) -> Seq<char> {
    base + two_digits(k) + suffix
}

/// The first file name with a counter from `k` to 99 whose lowercase form
/// is not taken.
pub open spec fn first_free(
    base: Seq<char>,
    suffix: Seq<char>,
    existing: Set<NameView>,
    k: int,
) -> Option<Seq<char>>
    decreases 100 - k,
{
    if k >= 100 {
        None
    } else if !existing.contains(lowercase(numbered(base, k, suffix))) {
        Some(numbered(base, k, suffix))
    } else {
        first_free(base, suffix, existing, k + 1)
    }
}

/// The prefix and the transliterated name, with an underscore in front
/// where the part before the first period is a reserved name in any case of
/// letters.
pub open spec fn guarded_stem(name: Seq<char>, prefix: Seq<char>) -> Seq<char> {
    let stem = prefix + transliterate(name, prefix.len() == 0);
    if is_reserved(lowercase(first_part(stem))) {
        seq!['_'] + stem
    } else {
        stem
    }
}

/// The file name before its suffix: clipped so that the name with the
/// suffix takes at most [`MAX_LEN`] bytes and, where there is no suffix,
/// without periods or spaces at its end.
pub open spec fn finished_stem(name: Seq<char>, prefix: Seq<char>, suffix: Seq<char>) -> Seq<char> {
    let clipped = clip(guarded_stem(name, prefix), minus(MAX_LEN as nat, utf8_size(suffix)));
    if suffix.len() == 0 {
        seal_tail(clipped)
    } else {
        clipped
    }
}

/// The stem that the counter is appended to.
pub open spec fn counter_base(stem: Seq<char>, suffix: Seq<char>) -> Seq<char> {
    if utf8_size(stem) + NUMBER_LEN > MAX_LEN {
        clip(stem, minus(minus(MAX_LEN as nat, utf8_size(suffix)), NUMBER_LEN as nat))
    } else {
        stem
    }
}

/// The file name for `name`, or `None` where the plain name and all 99
/// numbered names are taken. `existing` holds the lowercase forms of the
/// names that are taken.
pub open spec fn file_name(
    name: Seq<char>,
    prefix: Seq<char>,
    suffix: Seq<char>,
    existing: Set<NameView>,
) -> Option<Seq<char>> {
    let stem = finished_stem(name, prefix, suffix);
    if !existing.contains(lowercase(stem + suffix)) {
        Some(stem + suffix)
    } else {
        first_free(counter_base(stem, suffix), suffix, existing, 1)
    }
}

/// A file name is told apart from the names that are taken: its lowercase
/// form is not among them.
pub proof fn lemma_file_name_is_free(
    name: Seq<char>,
    prefix: Seq<char>,
    suffix: Seq<char>,
    existing: Set<NameView>,
)
    ensures
        file_name(name, prefix, suffix, existing) matches Some(found) ==> !existing.contains(
            lowercase(found),
        ),
{
    let stem = finished_stem(name, prefix, suffix);
    if existing.contains(lowercase(stem + suffix)) {
        lemma_first_free_is_free(counter_base(stem, suffix), suffix, existing, 1);
    }
}

/// A numbered file name is told apart from the names that are taken.
pub proof fn lemma_first_free_is_free(base: Seq<char>, suffix: Seq<char>, existing: Set<NameView>, k: int)
    ensures
        first_free(base, suffix, existing, k) matches Some(found) ==> !existing.contains(
            lowercase(found),
        ),
    decreases 100 - k,
{
    if k < 100 && existing.contains(lowercase(numbered(base, k, suffix))) {
        lemma_first_free_is_free(base, suffix, existing, k + 1);
    }
}

/// A file name takes at most [`MAX_LEN`] bytes, unless it is numbered or
/// its suffix alone takes more.
pub proof fn lemma_file_name_fits(name: Seq<char>, prefix: Seq<char>, suffix: Seq<char>)
    requires
        utf8_size(suffix) <= MAX_LEN,
        suffix.len() > 0,
    ensures
        utf8_size(finished_stem(name, prefix, suffix) + suffix) <= MAX_LEN,
{
    let limit = minus(MAX_LEN as nat, utf8_size(suffix));
    lemma_clip_size(guarded_stem(name, prefix), limit);
    lemma_utf8_size_concat(finished_stem(name, prefix, suffix), suffix);
}

/// What is clipped to `limit` bytes takes at most `limit` bytes.
pub proof fn lemma_clip_size(s: Seq<char>, limit: nat)
    ensures
        utf8_size(clip(s, limit)) <= limit,
    decreases s.len(),
{
    if s.len() > 0 && utf8_len(s[0]) <= limit {
        let rest = clip(s.drop_first(), (limit - utf8_len(s[0])) as nat);
        lemma_clip_size(s.drop_first(), (limit - utf8_len(s[0])) as nat);
        assert((seq![s[0]] + rest).drop_first() =~= rest);
    } else {
        assert(clip(s, limit) =~= Seq::<char>::empty());
    }
}

/// Two strings one after the other take the bytes of both.
pub proof fn lemma_utf8_size_concat(a: Seq<char>, b: Seq<char>)
    ensures
        utf8_size(a + b) == utf8_size(a) + utf8_size(b),
    decreases b.len(),
{
    if b.len() == 0 {
        assert(a + b =~= a);
    } else {
        lemma_utf8_size_concat(a, b.drop_last());
        assert(a + b =~= (a + b.drop_last()).push(b.last()));
        lemma_utf8_size_push(a + b.drop_last(), b.last());
        assert(b =~= b.drop_last().push(b.last()));
        lemma_utf8_size_push(b.drop_last(), b.last());
    }
}

/// Whether `c` may not stand in a file name.
fn is_illegal_char(c: char) -> (r: bool)
    ensures
        r == is_illegal(c),
{
    c == ':' || c == '?' || c == '"' || c == '(' || c == ')' || c == '[' || c == ']' || c == '*'
        || c == '/' || c == '\\' || c == '+' || c == '<' || c == '>' || c == '|'
}

/// Whether `s` is one of the reserved device names.
fn is_reserved_name(s: &str) -> (r: bool)
    ensures
        r == is_reserved(s@),
{
    same_name(s, "con") || same_name(s, "prn") || same_name(s, "aux") || same_name(s, "nul") || same_name(s, "com1") || same_name(
        s,
        "com2",
    ) || same_name(s, "com3") || same_name(s, "com4") || same_name(s, "com5") || same_name(s, "com6") || same_name(s, "com7")
        || same_name(s, "com8") || same_name(s, "com9") || same_name(s, "lpt1") || same_name(s, "lpt2") || same_name(
        s,
        "lpt3",
    ) || same_name(s, "lpt4") || same_name(s, "lpt5") || same_name(s, "lpt6") || same_name(s, "lpt7") || same_name(s, "lpt8")
        || same_name(s, "lpt9")
}

/// The number of bytes that `c` takes in UTF-8.
fn char_len(c: char) -> (n: usize)
    ensures
        n == utf8_len(c),
        1 <= n <= 4,
{
    let u = c as u32;
    if u < 0x80 {
        1
    } else if u < 0x800 {
        2
    } else if u < 0x10000 {
        3
    } else {
        4
    }
}

pub proof fn lemma_utf8_size_push(s: Seq<char>, c: char)
    ensures
        utf8_size(s.push(c)) == utf8_size(s) + utf8_len(c),
    decreases s.len(),
{
    if s.len() == 0 {
        assert(s.push(c).drop_first() =~= Seq::<char>::empty());
        assert(s.push(c)[0] == c);
        assert(utf8_size(s.push(c).drop_first()) == 0);
    } else {
        assert(s.push(c)[0] == s[0]);
        assert(s.push(c).drop_first() =~= s.drop_first().push(c));
        lemma_utf8_size_push(s.drop_first(), c);
    }
}

/// Clips `v` to its longest beginning of at most `limit` bytes, and returns
/// the number of bytes that it then takes.
fn clip_to(v: &mut Vec<char>, limit: usize) -> (used: usize)
    ensures
        final(v)@ == clip(old(v)@, limit as nat),
        used == utf8_size(final(v)@),
        used <= limit,
{
    let mut used: usize = 0;
    let mut n: usize = 0;
    proof {
        assert(v@.skip(0) =~= v@);
        assert(v@.take(0) =~= Seq::<char>::empty());
    }
    while n < v.len() && char_len(v[n]) <= limit - used
        invariant
            n <= v.len(),
            used <= limit,
            v@ == old(v)@,
            used == utf8_size(v@.take(n as int)),
            clip(v@, limit as nat) == v@.take(n as int) + clip(
                v@.skip(n as int),
                (limit - used) as nat,
            ),
        decreases v.len() - n,
    {
        proof {
            let rest = v@.skip(n as int);
            assert(rest[0] == v@[n as int]);
            assert(rest.drop_first() =~= v@.skip(n as int + 1));
            assert(v@.take(n as int + 1) =~= v@.take(n as int).push(v@[n as int]));
            lemma_utf8_size_push(v@.take(n as int), v@[n as int]);
            assert(v@.take(n as int) + (seq![rest[0]] + clip(
                rest.drop_first(),
                (limit - used - utf8_len(rest[0])) as nat,
            )) =~= v@.take(n as int + 1) + clip(
                v@.skip(n as int + 1),
                (limit - used - utf8_len(rest[0])) as nat,
            ));
        }
        used = used + char_len(v[n]);
        n = n + 1;
    }
    proof {
        let rest = v@.skip(n as int);
        if n < v.len() {
            assert(rest[0] == v@[n as int]);
        }
        assert(clip(rest, (limit - used) as nat) =~= Seq::<char>::empty());
        assert(v@.take(n as int) + Seq::<char>::empty() =~= v@.take(n as int));
    }
    v.truncate(n);
    proof {
        assert(v@ =~= old(v)@.take(n as int));
    }
    used
}

/// The number of bytes that `v` takes in UTF-8, or `cap` if that is less.
fn size_up_to(v: &Vec<char>, cap: usize) -> (n: usize)
    ensures
        n == if utf8_size(v@) <= cap { utf8_size(v@) } else { cap as nat },
{
    let mut used: usize = 0;
    let mut i: usize = 0;
    proof {
        assert(v@.take(0) =~= Seq::<char>::empty());
    }
    while i < v.len()
        invariant
            i <= v.len(),
            used <= cap,
            used == utf8_size(v@.take(i as int)),
        decreases v.len() - i,
    {
        proof {
            assert(v@.take(i as int + 1) =~= v@.take(i as int).push(v@[i as int]));
            lemma_utf8_size_push(v@.take(i as int), v@[i as int]);
            lemma_utf8_size_grows(v@, i as int + 1);
        }
        let w = char_len(v[i]);
        if w > cap - used {
            return cap;
        }
        used = used + w;
        i = i + 1;
    }
    proof {
        assert(v@.take(v.len() as int) =~= v@);
    }
    used
}

/// A beginning of a string takes no more bytes than the string.
pub proof fn lemma_utf8_size_grows(s: Seq<char>, n: int)
    requires
        0 <= n <= s.len(),
    ensures
        utf8_size(s.take(n)) <= utf8_size(s),
    decreases s.len() - n,
{
    if n < s.len() {
        lemma_utf8_size_grows(s, n + 1);
        assert(s.take(n + 1) =~= s.take(n).push(s[n]));
        lemma_utf8_size_push(s.take(n), s[n]);
    } else {
        assert(s.take(n) =~= s);
    }
}

/// The prefix followed by the transliterated name.
fn transliterated(name: &Vec<char>, prefix: &Vec<char>) -> (stem: Vec<char>)
    ensures
        stem@ == prefix@ + transliterate(name@, prefix@.len() == 0),
{
    let bare = prefix.len() == 0;
    let mut stem: Vec<char> = Vec::new();
    append_chars(&mut stem, prefix);
    let mut i: usize = 0;
    proof {
        assert(name@.take(0) =~= Seq::<char>::empty());
        assert(stem@ =~= prefix@ + transliterate(name@.take(0), bare));
    }
    while i < name.len()
        invariant
            i <= name.len(),
            bare == (prefix@.len() == 0),
            stem@ == prefix@ + transliterate(name@.take(i as int), bare),
        decreases name.len() - i,
    {
        let c = name[i];
        let ghost before = stem@;
        proof {
            let upto = name@.take(i as int + 1);
            assert(upto.drop_last() =~= name@.take(i as int));
            assert(upto.last() == c);
        }
        if c == '.' && bare && i == 0 {
            stem.push('_');
        } else if is_illegal_char(c) {
            stem.push('_');
        } else if is_uppercase(c) {
            stem.push(c);
            stem.push('_');
        } else {
            stem.push(c);
        }
        proof {
            assert(stem@ =~= before + transliterate_char(c, bare && i == 0));
            assert(stem@ =~= prefix@ + transliterate(name@.take(i as int + 1), bare));
        }
        i += 1;
    }
    proof {
        assert(name@.take(name.len() as int) =~= name@);
    }
    stem
}

/// The part of `stem` before its first period.
fn leading_part(stem: &Vec<char>) -> (part: Vec<char>)
    ensures
        part@ == first_part(stem@),
{
    let mut part: Vec<char> = Vec::new();
    let mut i: usize = 0;
    proof {
        assert(stem@.skip(0) =~= stem@);
        assert(part@ + first_part(stem@.skip(0)) =~= first_part(stem@));
    }
    while i < stem.len() && stem[i] != '.'
        invariant
            i <= stem.len(),
            first_part(stem@) == part@ + first_part(stem@.skip(i as int)),
        decreases stem.len() - i,
    {
        let ghost before = part@;
        proof {
            let rest = stem@.skip(i as int);
            assert(rest[0] == stem@[i as int]);
            assert(rest.drop_first() =~= stem@.skip(i as int + 1));
            assert(before + (seq![rest[0]] + first_part(rest.drop_first())) =~= before.push(rest[0])
                + first_part(stem@.skip(i as int + 1)));
        }
        part.push(stem[i]);
        i += 1;
    }
    proof {
        let rest = stem@.skip(i as int);
        if i < stem.len() {
            assert(rest[0] == stem@[i as int]);
        }
        assert(first_part(rest) =~= Seq::<char>::empty());
        assert(part@ + Seq::<char>::empty() =~= part@);
    }
    part
}

/// Replaces the periods and spaces at the end of `v` by underscores.
fn seal(v: &mut Vec<char>)
    ensures
        final(v)@ == seal_tail(old(v)@),
{
    let mut k: usize = v.len();
    proof {
        assert(v@.take(k as int) =~= v@);
        assert(seal_tail(v@.take(k as int)) + v@.skip(k as int) =~= seal_tail(v@));
    }
    while k > 0 && (v[k - 1] == '.' || v[k - 1] == ' ')
        invariant
            k <= v.len(),
            v.len() == old(v).len(),
            v@.take(k as int) == old(v)@.take(k as int),
            seal_tail(old(v)@) == seal_tail(v@.take(k as int)) + v@.skip(k as int),
        decreases k,
    {
        let ghost before = v@;
        proof {
            let head = before.take(k as int);
            assert(head.last() == before[k - 1]);
            assert(head.drop_last() =~= before.take(k - 1));
        }
        v.set(k - 1, '_');
        proof {
            assert(v@.take(k - 1) =~= before.take(k - 1));
            assert(v@.skip(k - 1) =~= seq!['_'] + before.skip(k as int));
            assert(seal_tail(before.take(k - 1)).push('_') + before.skip(k as int) =~= seal_tail(
                v@.take(k - 1),
            ) + v@.skip(k - 1));
        }
        k = k - 1;
    }
    proof {
        let head = v@.take(k as int);
        if k > 0 {
            assert(head.last() == v@[k - 1]);
        }
        assert(seal_tail(head) == head);
        assert(head + v@.skip(k as int) =~= v@);
    }
}

/// The decimal digit `d` as a character.
fn digit_char(d: u8) -> (c: char)
    requires
        d < 10,
    ensures
        c == digit(d as int),
{
    (48u8 + d) as char
}

/// The file name with counter `k`.
fn numbered_name(base: &Vec<char>, k: u8, suffix: &Vec<char>) -> (s: String)
    requires
        k < 100,
    ensures
        s@ == numbered(base@, k as int, suffix@),
{
    let mut v: Vec<char> = Vec::new();
    append_chars(&mut v, base);
    v.push(digit_char(k / 10));
    v.push(digit_char(k % 10));
    let ghost middle = v@;
    append_chars(&mut v, suffix);
    proof {
        assert(middle =~= base@ + two_digits(k as int));
    }
    from_chars(&v)
}

/// The file name for `name` between `prefix` and `suffix`, told apart from
/// the names in `existing`, which holds lowercase forms. `None` where the
/// plain name and all 99 numbered names are taken.
pub fn user_name_to_file_name(name: &str, prefix: &str, suffix: &str, existing: &NameSet) -> (r:
    Option<String>)
    ensures
        r.deep_view() == file_name(name@, prefix@, suffix@, existing@),
{
    let name_chars = to_chars(name);
    let prefix_chars = to_chars(prefix);
    let suffix_chars = to_chars(suffix);
    let mut stem = transliterated(&name_chars, &prefix_chars);
    let part = leading_part(&stem);
    let lowered = to_lowercase(from_chars(&part).as_str());
    if is_reserved_name(lowered.as_str()) {
        let ghost before = stem@;
        stem.insert(0, '_');
        proof {
            assert(stem@ =~= seq!['_'] + before);
        }
    }
    assert(stem@ == guarded_stem(name@, prefix@));
    let suffix_size = size_up_to(&suffix_chars, MAX_LEN);
    let mut used = clip_to(&mut stem, MAX_LEN - suffix_size);
    if suffix_chars.len() == 0 {
        seal(&mut stem);
        used = size_up_to(&stem, MAX_LEN);
        proof {
            lemma_seal_keeps_size(clip(guarded_stem(name@, prefix@), MAX_LEN as nat));
        }
    }
    assert(stem@ == finished_stem(name@, prefix@, suffix@));
    assert(used == utf8_size(stem@));
    let ghost finished = stem@;
    let mut plain: Vec<char> = Vec::new();
    append_chars(&mut plain, &stem);
    append_chars(&mut plain, &suffix_chars);
    let candidate = from_chars(&plain);
    if !existing.contains(to_lowercase(candidate.as_str()).as_str()) {
        return Some(candidate);
    }
    if used + NUMBER_LEN > MAX_LEN {
        let limit = MAX_LEN - suffix_size;
        let room = if limit >= NUMBER_LEN {
            limit - NUMBER_LEN
        } else {
            0
        };
        clip_to(&mut stem, room);
    }
    assert(stem@ == counter_base(finished, suffix@));
    let mut k: u8 = 1;
    while k < 100
        invariant
            1 <= k <= 100,
            suffix_chars@ == suffix@,
            file_name(name@, prefix@, suffix@, existing@) == first_free(
                stem@,
                suffix@,
                existing@,
                1,
            ),
            first_free(stem@, suffix@, existing@, 1) == first_free(
                stem@,
                suffix@,
                existing@,
                k as int,
            ),
        decreases 100 - k,
    {
        let candidate = numbered_name(&stem, k, &suffix_chars);
        let taken = existing.contains(to_lowercase(candidate.as_str()).as_str());
        assert(taken == existing@.contains(lowercase(numbered(stem@, k as int, suffix@))));
        if !taken {
            return Some(candidate);
        }
        k = k + 1;
    }
    None
}

/// Replacing periods and spaces by underscores keeps the size in bytes.
pub proof fn lemma_seal_keeps_size(s: Seq<char>)
    ensures
        utf8_size(seal_tail(s)) == utf8_size(s),
    decreases s.len(),
{
    if s.len() > 0 && (s.last() == '.' || s.last() == ' ') {
        lemma_seal_keeps_size(s.drop_last());
        lemma_utf8_size_push(seal_tail(s.drop_last()), '_');
        lemma_utf8_size_push(s.drop_last(), s.last());
        assert(s.drop_last().push(s.last()) =~= s);
    }
}

/// The file name of the glyph `name` in a layer directory.
pub fn default_file_name_for_glyph_name(name: &str, existing: &NameSet) -> (r: Option<String>)
    ensures
        r.deep_view() == file_name(name@, ""@, ".glif"@, existing@),
{
    user_name_to_file_name(name, "", ".glif", existing)
}

/// The name of the directory of the layer `name`.
pub fn default_file_name_for_layer_name(name: &str, existing: &NameSet) -> (r: Option<String>)
    ensures
        r.deep_view() == file_name(name@, "glyphs."@, ""@, existing@),
{
    user_name_to_file_name(name, "glyphs.", "", existing)
}

} // verus!
