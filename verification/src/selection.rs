//! What to import and what to export: lists of glyph names as text, and
//! the glyphs and sources that the names of sets stand for.

use vstd::prelude::*;
use crate::metadata::{is_space, is_space_char};
use crate::model::{coverage, Fontgarden, FontgardenView};
use crate::name_set::NameSet;
use crate::names::NameView;
use crate::text::{from_chars, to_chars};
use crate::ufo::{is_valid_name, valid_name};

verus! {

/// `line` without the white space at its beginning.
pub open spec fn trim_start(line: Seq<char>) -> Seq<char>
    decreases line.len(),
{
    if line.len() > 0 && is_space(line[0]) {
        trim_start(line.drop_first())
    } else {
        line
    }
}

/// `line` without the white space at its end.
pub open spec fn trim_end(line: Seq<char>) -> Seq<char>
    decreases line.len(),
{
    if line.len() > 0 && is_space(line.last()) {
        trim_end(line.drop_last())
    } else {
        line
    }
}

/// `line` without the white space at its beginning and end.
pub open spec fn trimmed(line: Seq<char>) -> Seq<char> {
    trim_end(trim_start(line))
}

/// The lines of `text` after `pending`, the line that has been begun. A
/// line ends at a line feed.
pub open spec fn lines_after(text: Seq<char>, pending: Seq<char>) -> Seq<Seq<char>>
    decreases text.len(),
{
    if text.len() == 0 {
        seq![pending]
    } else if text[0] == '\n' {
        seq![pending] + lines_after(text.drop_first(), Seq::empty())
    } else {
        lines_after(text.drop_first(), pending.push(text[0]))
    }
}

/// The names that the lines give: each line without the white space
/// around it, where something is left of it.
pub open spec fn listed_names(lines: Seq<Seq<char>>) -> Set<NameView> {
    Set::new(
        |name: NameView|
            name.len() > 0 && exists|i: int| 0 <= i < lines.len() && trimmed(#[trigger] lines[i]) == name,
    )
}

/// The names that a list of glyphs gives: one on each line, without the
/// white space around it. Empty lines give none.
pub open spec fn glyph_list(text: Seq<char>) -> Set<NameView> {
    listed_names(lines_after(text, Seq::empty()))
}

/// The characters of `line` without the white space around them.
fn trim(line: &Vec<char>) -> (r: Vec<char>)
    ensures
        r@ == trimmed(line@),
{
    let mut start: usize = 0;
    proof {
        assert(line@.skip(0) =~= line@);
    }
    while start < line.len() && is_space_char(line[start])
        invariant
            start <= line.len(),
            trim_start(line@) == trim_start(line@.skip(start as int)),
        decreases line.len() - start,
    {
        proof {
            let rest = line@.skip(start as int);
            assert(rest[0] == line@[start as int]);
            assert(rest.drop_first() =~= line@.skip(start as int + 1));
        }
        start += 1;
    }
    proof {
        let rest = line@.skip(start as int);
        if start < line.len() {
            assert(rest[0] == line@[start as int]);
        }
        assert(trim_start(rest) == rest);
    }
    let ghost kept = line@.skip(start as int);
    let mut end: usize = line.len();
    proof {
        assert(line@.subrange(start as int, end as int) =~= kept);
    }
    while end > start && is_space_char(line[end - 1])
        invariant
            start <= end <= line.len(),
            kept == line@.skip(start as int),
            trim_end(kept) == trim_end(line@.subrange(start as int, end as int)),
        decreases end,
    {
        proof {
            let part = line@.subrange(start as int, end as int);
            assert(part.last() == line@[end - 1]);
            assert(part.drop_last() =~= line@.subrange(start as int, end - 1));
        }
        end -= 1;
    }
    proof {
        let part = line@.subrange(start as int, end as int);
        if end > start {
            assert(part.last() == line@[end - 1]);
        }
        assert(trim_end(part) == part);
    }
    let mut r: Vec<char> = Vec::new();
    let mut i: usize = start;
    while i < end
        invariant
            start <= i <= end <= line.len(),
            r@ =~= line@.subrange(start as int, i as int),
        decreases end - i,
    {
        r.push(line[i]);
        i += 1;
    }
    r
}

/// Adds the name that a line gives to `names`. Returns the name where it
/// is not valid.
fn take_line(names: &mut NameSet, line: &Vec<char>) -> (bad: Option<String>)
    ensures
        match bad {
            Some(name) => name@ == trimmed(line@) && name@.len() > 0 && !valid_name(name@)
                && final(names)@ == old(names)@,
            None => (trimmed(line@).len() == 0 || valid_name(trimmed(line@))) && final(names)@
                == if trimmed(line@).len() > 0 {
                old(names)@.insert(trimmed(line@))
            } else {
                old(names)@
            },
        },
{
    let name = trim(line);
    if name.len() == 0 {
        return None;
    }
    let text = from_chars(&name);
    if !is_valid_name(text.as_str()) {
        return Some(text);
    }
    names.insert(text);
    None
}

/// Whether `name` is what the first of the lines gives that gives no valid
/// name.
pub open spec fn is_first_bad_line(lines: Seq<Seq<char>>, name: NameView) -> bool {
    exists|i: int|
        0 <= i < lines.len() && trimmed(#[trigger] lines[i]) == name && name.len() > 0 && !valid_name(
            name,
        ) && forall|j: int|
            0 <= j < i ==> trimmed(#[trigger] lines[j]).len() == 0 || valid_name(trimmed(lines[j]))
}

/// Reads a list of glyphs: one name on each line. White space around a
/// name is dropped, and so are empty lines.
///
/// Fails at the first line that gives no valid name, and returns what the
/// line gives.
pub fn load_glyph_list(text: &str) -> (r: Result<NameSet, String>)
    ensures
        r is Ok <==> forall|name: NameView| #[trigger] glyph_list(text@).contains(name) ==> valid_name(name),
        r matches Ok(names) ==> names@ == glyph_list(text@),
        r matches Err(name) ==> is_first_bad_line(lines_after(text@, Seq::empty()), name@),
{
    let chars = to_chars(text);
    let mut names = NameSet::new();
    let mut pending: Vec<char> = Vec::new();
    let ghost mut done: Seq<Seq<char>> = Seq::empty();
    let ghost all = lines_after(text@, Seq::empty());
    let mut i: usize = 0;
    proof {
        assert(chars@.skip(0) =~= chars@);
        assert(done + lines_after(chars@.skip(0), pending@) =~= all);
        assert(names@ =~= listed_names(done));
    }
    while i < chars.len()
        invariant
            i <= chars.len(),
            chars@ == text@,
            all == lines_after(text@, Seq::empty()),
            all == done + lines_after(chars@.skip(i as int), pending@),
            names@ == listed_names(done),
            forall|name: NameView| #[trigger] listed_names(done).contains(name) ==> valid_name(name),
            forall|j: int|
                0 <= j < done.len() ==> trimmed(#[trigger] done[j]).len() == 0 || valid_name(
                    trimmed(done[j]),
                ),
        decreases chars.len() - i,
    {
        let c = chars[i];
        let ghost rest = chars@.skip(i as int);
        proof {
            assert(rest[0] == c);
            assert(rest.drop_first() =~= chars@.skip(i as int + 1));
        }
        if c == '\n' {
            let ghost line = pending@;
            let ghost before = done;
            proof {
                done = done.push(line);
                assert(before + (seq![line] + lines_after(rest.drop_first(), Seq::empty())) =~= done
                    + lines_after(rest.drop_first(), Seq::empty()));
                lemma_listed_push(before, line);
            }
            match take_line(&mut names, &pending) {
                Some(bad) => {
                    proof {
                        assert(all[before.len() as int] == line);
                        assert(listed_names(all).contains(trimmed(all[before.len() as int])));
                        assert(glyph_list(text@) == listed_names(all));
                        assert forall|j: int| 0 <= j < before.len() implies trimmed(#[trigger] all[j]).len()
                            == 0 || valid_name(trimmed(all[j])) by {
                            assert(all[j] == before[j]);
                        }
                    }
                    return Err(bad);
                },
                None => {},
            }
            proof {
                assert(names@ =~= listed_names(done));
                assert forall|name: NameView| #[trigger] listed_names(done).contains(name) implies valid_name(
                    name,
                ) by {
                    if name != trimmed(line) {
                        assert(listed_names(before).contains(name));
                    }
                }
                assert forall|j: int| 0 <= j < done.len() implies trimmed(#[trigger] done[j]).len() == 0
                    || valid_name(trimmed(done[j])) by {
                    if j < before.len() {
                        assert(done[j] == before[j]);
                    }
                }
            }
            pending = Vec::new();
        } else {
            pending.push(c);
        }
        i += 1;
    }
    let ghost line = pending@;
    let ghost before = done;
    proof {
        assert(chars@.skip(i as int).len() == 0);
        done = done.push(line);
        assert(before + seq![line] =~= done);
        lemma_listed_push(before, line);
    }
    proof {
        assert(lines_after(chars@.skip(i as int), line) =~= seq![line]);
        assert(all =~= done);
        assert(glyph_list(text@) == listed_names(all));
    }
    match take_line(&mut names, &pending) {
        Some(bad) => {
            proof {
                assert(all[before.len() as int] == line);
                assert(listed_names(all).contains(trimmed(all[before.len() as int])));
                assert forall|j: int| 0 <= j < before.len() implies trimmed(#[trigger] all[j]).len() == 0
                    || valid_name(trimmed(all[j])) by {
                    assert(all[j] == before[j]);
                }
            }
            Err(bad)
        },
        None => {
            proof {
                assert(names@ =~= listed_names(done));
                assert forall|name: NameView| #[trigger] listed_names(done).contains(name) implies valid_name(
                    name,
                ) by {
                    if name != trimmed(line) {
                        assert(listed_names(before).contains(name));
                    }
                }
            }
            Ok(names)
        },
    }
}

/// The names that lines with one more line give are those that the lines
/// give and that of the one.
pub proof fn lemma_listed_push(lines: Seq<Seq<char>>, line: Seq<char>)
    ensures
        listed_names(lines.push(line)) =~= if trimmed(line).len() > 0 {
            listed_names(lines).insert(trimmed(line))
        } else {
            listed_names(lines)
        },
{
    let more = lines.push(line);
    let goal = if trimmed(line).len() > 0 {
        listed_names(lines).insert(trimmed(line))
    } else {
        listed_names(lines)
    };
    assert forall|name: NameView| listed_names(more).contains(name) <==> goal.contains(name) by {
        if listed_names(more).contains(name) {
            let i = choose|i: int| 0 <= i < more.len() && trimmed(#[trigger] more[i]) == name;
            if i < lines.len() {
                assert(lines[i] == more[i]);
            }
        }
        if listed_names(lines).contains(name) {
            let i = choose|i: int| 0 <= i < lines.len() && trimmed(#[trigger] lines[i]) == name;
            assert(more[i] == lines[i]);
        }
        if name == trimmed(line) && name.len() > 0 {
            assert(trimmed(more[lines.len() as int]) == name);
        }
    }
}

/// The glyphs that the sets named in `sets` cover; those that all sets
/// cover where `sets` is empty. `None` where a name is that of no set.
pub open spec fn glyphs_of_sets(garden: FontgardenView, sets: Seq<NameView>) -> Option<Set<NameView>> {
    if sets.len() == 0 {
        Some(
            Set::new(
                |glyph: NameView|
                    exists|set: NameView| #[trigger]
                        garden.sets.contains_key(set) && coverage(garden.sets[set]).contains(glyph),
            ),
        )
    } else if forall|i: int| 0 <= i < sets.len() ==> garden.sets.contains_key(#[trigger] sets[i]) {
        Some(
            Set::new(
                |glyph: NameView|
                    exists|i: int|
                        0 <= i < sets.len() && coverage(garden.sets[#[trigger] sets[i]]).contains(glyph),
            ),
        )
    } else {
        None
    }
}

/// The names of the sources of all sets.
pub open spec fn all_sources(garden: FontgardenView) -> Set<NameView> {
    Set::new(
        |source: NameView|
            exists|set: NameView| #[trigger]
                garden.sets.contains_key(set) && garden.sets[set].sources.contains_key(source),
    )
}

/// The names of the list that is there, if one is.
pub open spec fn list_view(list: Option<NameSet>) -> Option<Set<NameView>> {
    match list {
        Some(names) => Some(names@),
        None => None,
    }
}

/// A set to import into, and the glyphs to import into it.
#[derive(Debug, PartialEq, Eq)]
pub struct SetMembers {
    pub set: String,
    pub glyphs: NameSet,
}

/// Why there is nothing to import.
#[derive(Debug, PartialEq, Eq)]
pub enum SelectionError {
    /// There are lists of glyphs, and not as many as sets.
    Mismatch,
    /// There are no lists of glyphs, and this is the name of no set.
    UnknownSet(String),
}

/// What is to be imported into the set at index `i`: the list at that
/// index where there are lists, and else what the set covers.
pub open spec fn members_at(
    garden: FontgardenView,
    sets: Seq<NameView>,
    lists: Seq<Set<NameView>>,
    i: int,
) -> Set<NameView> {
    if lists.len() > 0 {
        lists[i]
    } else {
        coverage(garden.sets[sets[i]])
    }
}

/// What to export: the glyphs, and the sources to export them for.
#[derive(Debug, PartialEq, Eq)]
pub struct ExportRequest {
    pub glyph_names: NameSet,
    pub source_names: NameSet,
}

/// The glyphs to export: those of the list where there is one, and else
/// those that the sets cover.
pub open spec fn requested_glyphs(
    garden: FontgardenView,
    list: Option<Set<NameView>>,
    sets: Seq<NameView>,
) -> Option<Set<NameView>> {
    match list {
        Some(glyphs) => Some(glyphs),
        None => glyphs_of_sets(garden, sets),
    }
}

/// The sources to export for: those that are named, and all where none is.
pub open spec fn requested_sources(garden: FontgardenView, sources: Seq<NameView>) -> Set<NameView> {
    if sources.len() == 0 {
        all_sources(garden)
    } else {
        sources.to_set()
    }
}

impl Fontgarden {
    /// What to export. The glyphs are those of `list` where there is one,
    /// and else those that the sets named in `sets` cover, or all sets where
    /// none is named. The sources are those named in `sources`, and all
    /// where none is named.
    ///
    /// Fails where there is no list, at the first name in `sets` that is
    /// that of no set, and returns it.
    pub fn export_request(&self, list: Option<NameSet>, sets: &Vec<String>, sources: &Vec<String>) -> (r:
        Result<ExportRequest, String>)
        ensures
            r is Ok <==> requested_glyphs(self@, list_view(list), sets.deep_view()) is Some,
            r matches Ok(request) ==> Some(request.glyph_names@) == requested_glyphs(
                self@,
                list_view(list),
                sets.deep_view(),
            ) && request.source_names@ == requested_sources(self@, sources.deep_view()),
            r matches Err(name) ==> list is None && sets.deep_view().contains(name@)
                && !self@.sets.contains_key(name@),
    {
        let glyph_names = match list {
            Some(glyphs) => glyphs,
            None => match self.glyphs_of_sets(sets) {
                Ok(glyphs) => glyphs,
                Err(name) => {
                    return Err(name);
                },
            },
        };
        let source_names = if sources.len() == 0 {
            self.source_names()
        } else {
            NameSet::from_names(sources)
        };
        Ok(ExportRequest { glyph_names, source_names })
    }

    /// What is to be imported into each of the sets named in `sets`. Where
    /// there are lists of glyphs, each set gets the list at its index, and a
    /// set may be new. Where there are none, each set gets the glyphs that
    /// it covers, to be imported again.
    ///
    /// Fails where there are lists, and not as many as sets; and where
    /// there are none, at the first name that is that of no set.
    pub fn import_members(&self, sets: &Vec<String>, lists: &Vec<NameSet>) -> (r: Result<
        Vec<SetMembers>,
        SelectionError,
    >)
        ensures
            r matches Err(SelectionError::Mismatch) <==> lists.len() > 0 && lists.len() != sets.len(),
            r matches Err(SelectionError::UnknownSet(name)) ==> lists.len() == 0 && exists|i: int|
                0 <= i < sets.len() && #[trigger] sets[i]@ == name@ && !self@.sets.contains_key(name@)
                    && forall|j: int| 0 <= j < i ==> self@.sets.contains_key(#[trigger] sets[j]@),
            r is Ok <==> (lists.len() == sets.len() && lists.len() > 0) || (lists.len() == 0 && forall|
                i: int,
            | 0 <= i < sets.len() ==> self@.sets.contains_key(#[trigger] sets[i]@)),
            r matches Ok(members) ==> members.len() == sets.len() && forall|i: int|
                0 <= i < sets.len() ==> (#[trigger] members[i]).set@ == sets[i]@ && members[i].glyphs@
                    == members_at(
                    self@,
                    sets.deep_view(),
                    Seq::new(lists.len() as nat, |k: int| lists[k]@),
                    i,
                ),
    {
        if lists.len() > 0 && lists.len() != sets.len() {
            return Err(SelectionError::Mismatch);
        }
        let mut members: Vec<SetMembers> = Vec::new();
        let mut i: usize = 0;
        while i < sets.len()
            invariant
                i <= sets.len(),
                lists.len() == 0 || lists.len() == sets.len(),
                members.len() == i,
                forall|j: int| 0 <= j < i && lists.len() == 0 ==> self@.sets.contains_key(#[trigger] sets[j]@),
                forall|j: int|
                    0 <= j < i ==> (#[trigger] members[j]).set@ == sets[j]@ && members[j].glyphs@
                        == members_at(
                        self@,
                        sets.deep_view(),
                        Seq::new(lists.len() as nat, |k: int| lists[k]@),
                        j,
                    ),
            decreases sets.len() - i,
        {
            proof {
                assert(sets.deep_view()[i as int] == sets[i as int]@);
            }
            let glyphs = if lists.len() > 0 {
                lists[i].duplicate()
            } else {
                match self.sets.get(sets[i].as_str()) {
                    Some(set) => set.glyph_coverage(),
                    None => {
                        return Err(SelectionError::UnknownSet(sets[i].clone()));
                    },
                }
            };
            members.push(SetMembers { set: sets[i].clone(), glyphs });
            i += 1;
        }
        Ok(members)
    }

    /// The glyphs that the sets named in `sets` cover; those that all sets
    /// cover where `sets` is empty.
    ///
    /// Fails at the first name that is that of no set, and returns it.
    pub fn glyphs_of_sets(&self, sets: &Vec<String>) -> (r: Result<NameSet, String>)
        ensures
            r is Ok <==> glyphs_of_sets(self@, sets.deep_view()) is Some,
            r matches Ok(glyphs) ==> Some(glyphs@) == glyphs_of_sets(self@, sets.deep_view()),
            r matches Err(name) ==> sets.deep_view().contains(name@) && !self@.sets.contains_key(name@),
    {
        let mut glyphs = NameSet::new();
        let ghost wanted = sets.deep_view();
        if sets.len() == 0 {
            let n = self.sets.len();
            let mut i: usize = 0;
            while i < n
                invariant
                    i <= n,
                    n == self.sets.keys().len(),
                    self.sets.wf(),
                    forall|glyph: NameView|
                        glyphs@.contains(glyph) <==> exists|j: int|
                            0 <= j < i && coverage((#[trigger] self.sets.values()[j])@).contains(glyph),
                decreases n - i,
            {
                let ghost before = glyphs@;
                let covers = self.sets.value_at(i).glyph_coverage();
                glyphs.extend(&covers);
                proof {
                    assert forall|glyph: NameView|
                        glyphs@.contains(glyph) <==> exists|j: int|
                            0 <= j < i + 1 && coverage((#[trigger] self.sets.values()[j])@).contains(
                                glyph,
                            ) by {
                        if before.contains(glyph) {
                            let j = choose|j: int|
                                0 <= j < i && coverage((#[trigger] self.sets.values()[j])@).contains(glyph);
                            assert(coverage(self.sets.values()[j]@).contains(glyph));
                        }
                        if covers@.contains(glyph) {
                            assert(coverage(self.sets.values()[i as int]@).contains(glyph));
                        }
                    }
                }
                i += 1;
            }
            proof {
                let goal = glyphs_of_sets(self@, wanted)->0;
                assert forall|glyph: NameView| glyphs@.contains(glyph) <==> goal.contains(glyph) by {
                    if glyphs@.contains(glyph) {
                        let j = choose|j: int|
                            0 <= j < n && coverage((#[trigger] self.sets.values()[j])@).contains(glyph);
                        let set = self.sets.keys()[j];
                        assert(self@.sets.contains_key(set));
                        assert(self@.sets[set] == self.sets.values()[j]@);
                    }
                    if goal.contains(glyph) {
                        let set = choose|set: NameView| #[trigger]
                            self@.sets.contains_key(set) && coverage(self@.sets[set]).contains(glyph);
                        assert(self.sets.keys().to_set().contains(set));
                        let j = choose|j: int| 0 <= j < self.sets.keys().len() && self.sets.keys()[j] == set;
                        assert(self@.sets[self.sets.keys()[j]] == self.sets.values()[j]@);
                        assert(coverage(self.sets.values()[j]@).contains(glyph));
                    }
                }
                assert(glyphs@ =~= goal);
            }
            return Ok(glyphs);
        }
        let mut i: usize = 0;
        while i < sets.len()
            invariant
                i <= sets.len(),
                sets.len() > 0,
                wanted == sets.deep_view(),
                forall|j: int| 0 <= j < i ==> self@.sets.contains_key(#[trigger] wanted[j]),
                forall|glyph: NameView|
                    glyphs@.contains(glyph) <==> exists|j: int|
                        0 <= j < i && coverage(self@.sets[#[trigger] wanted[j]]).contains(glyph),
            decreases sets.len() - i,
        {
            let ghost before = glyphs@;
            proof {
                assert(wanted[i as int] == sets[i as int]@);
            }
            match self.sets.get(sets[i].as_str()) {
                Some(set) => {
                    let covers = set.glyph_coverage();
                    glyphs.extend(&covers);
                    proof {
                        assert forall|glyph: NameView|
                            glyphs@.contains(glyph) <==> exists|j: int|
                                0 <= j < i + 1 && coverage(self@.sets[#[trigger] wanted[j]]).contains(
                                    glyph,
                                ) by {
                            if before.contains(glyph) {
                                let j = choose|j: int|
                                    0 <= j < i && coverage(self@.sets[#[trigger] wanted[j]]).contains(glyph);
                                assert(coverage(self@.sets[wanted[j]]).contains(glyph));
                            }
                            if covers@.contains(glyph) {
                                assert(coverage(self@.sets[wanted[i as int]]).contains(glyph));
                            }
                        }
                    }
                },
                None => {
                    proof {
                        assert(!self@.sets.contains_key(wanted[i as int]));
                    }
                    return Err(sets[i].clone());
                },
            }
            i += 1;
        }
        proof {
            assert(glyphs@ =~= glyphs_of_sets(self@, wanted)->0);
        }
        Ok(glyphs)
    }

    /// The names of the sources of all sets.
    pub fn source_names(&self) -> (names: NameSet)
        ensures
            names@ == all_sources(self@),
    {
        let mut names = NameSet::new();
        let n = self.sets.len();
        let mut i: usize = 0;
        while i < n
            invariant
                i <= n,
                n == self.sets.keys().len(),
                self.sets.wf(),
                forall|source: NameView|
                    names@.contains(source) <==> exists|j: int|
                        0 <= j < i && (#[trigger] self.sets.values()[j])@.sources.contains_key(source),
            decreases n - i,
        {
            let ghost before = names@;
            let found = self.sets.value_at(i).sources.key_set();
            names.extend(&found);
            proof {
                assert forall|source: NameView|
                    names@.contains(source) <==> exists|j: int|
                        0 <= j < i + 1 && (#[trigger] self.sets.values()[j])@.sources.contains_key(
                            source,
                        ) by {
                    if before.contains(source) {
                        let j = choose|j: int|
                            0 <= j < i && (#[trigger] self.sets.values()[j])@.sources.contains_key(source);
                        assert(self.sets.values()[j]@.sources.contains_key(source));
                    }
                    if found@.contains(source) {
                        assert(self.sets.values()[i as int]@.sources.contains_key(source));
                    }
                }
            }
            i += 1;
        }
        proof {
            let goal = all_sources(self@);
            assert forall|source: NameView| names@.contains(source) <==> goal.contains(source) by {
                if names@.contains(source) {
                    let j = choose|j: int|
                        0 <= j < n && (#[trigger] self.sets.values()[j])@.sources.contains_key(source);
                    let set = self.sets.keys()[j];
                    assert(self@.sets.contains_key(set));
                    assert(self@.sets[set] == self.sets.values()[j]@);
                }
                if goal.contains(source) {
                    let set = choose|set: NameView| #[trigger]
                        self@.sets.contains_key(set) && self@.sets[set].sources.contains_key(source);
                    assert(self.sets.keys().to_set().contains(set));
                    let j = choose|j: int| 0 <= j < self.sets.keys().len() && self.sets.keys()[j] == set;
                    assert(self@.sets[self.sets.keys()[j]] == self.sets.values()[j]@);
                    assert(self.sets.values()[j]@.sources.contains_key(source));
                }
            }
            assert(names@ =~= goal);
        }
        names
    }
}

} // verus!
