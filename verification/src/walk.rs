//! The decisions taken while walking a build tree on disk: counting source
//! and object files (a fallback measure of progress), and looking for the
//! file that tells which build system the package uses. Both walks give up
//! after a bounded number of entries. The caller reads the directories and
//! hands each entry to these state machines, which say what to do next.

use vstd::prelude::*;
use crate::model::BuildSystem;
use crate::text::chars_of;
use crate::pattern::literal_at;

verus! {

broadcast use vstd::string::group_string_axioms;

/// `char::to_ascii_lowercase`.
pub open spec fn ascii_lower(c: char) -> char {
    if 'A' <= c && c <= 'Z' {
        ((c as u32) + 32) as char
    } else {
        c
    }
}

/// `str::eq_ignore_ascii_case`: equal but for the case of ASCII letters.
pub open spec fn eq_ignore_ascii_case(a: Seq<char>, b: Seq<char>) -> bool {
    a.len() == b.len() && forall|k: int| 0 <= k < a.len() ==> ascii_lower(#[trigger] a[k]) == ascii_lower(b[k])
}

fn lower(c: char) -> (r: char)
    ensures
        r == ascii_lower(c),
{
    if 'A' <= c && c <= 'Z' {
        ((c as u32) + 32) as u8 as char
    } else {
        c
    }
}

fn eq_ignore_ascii_case_exec(a: &Vec<char>, b: &Vec<char>) -> (r: bool)
    ensures
        r == eq_ignore_ascii_case(a@, b@),
{
    if a.len() != b.len() {
        return false;
    }
    let mut k: usize = 0;
    while k < a.len()
        invariant
            k <= a@.len() == b@.len(),
            forall|m: int| 0 <= m < k ==> ascii_lower(#[trigger] a@[m]) == ascii_lower(b@[m]),
        decreases a@.len() - k,
    {
        if lower(a[k]) != lower(b[k]) {
            return false;
        }
        k = k + 1;
    }
    true
}

/// The two lists of file extensions that are counted.
#[derive(Debug, Clone, Copy, PartialEq, Eq, Structural)]
pub enum ExtSet {
    /// Extensions of source files.
    Sources,
    /// Extensions of object files and other compiler output.
    Objects,
}

pub open spec fn ext_list(set: ExtSet) -> Seq<Seq<char>> {
    match set {
        ExtSet::Sources => seq![
            seq!['c'],
            seq!['c', 'c'],
            seq!['c', 'p', 'p'],
            seq!['c', 'x', 'x'],
            seq!['m'],
            seq!['m', 'm'],
            seq!['r', 's'],
            seq!['g', 'o'],
            seq!['f', '9', '0'],
            seq!['f'],
            seq!['j', 'a', 'v', 'a'],
            seq!['s', 'w', 'i', 'f', 't'],
            seq!['d'],
        ],
        ExtSet::Objects => seq![
            seq!['o'],
            seq!['o', 'b', 'j'],
            seq!['l', 'o'],
            seq!['r', 'l', 'i', 'b'],
            seq!['r', 'm', 'e', 't', 'a'],
            seq!['c', 'l', 'a', 's', 's'],
        ],
    }
}

/// `ext` is one of the set's extensions, ignoring the case of ASCII letters.
pub open spec fn ext_in(set: ExtSet, ext: Seq<char>) -> bool {
    exists|i: int| 0 <= i < ext_list(set).len() && eq_ignore_ascii_case(#[trigger] ext_list(set)[i], ext)
}

/// Whether an extension counts never depends on the case of its ASCII
/// letters: `CPP` and `Cpp` count as `cpp` does.
pub proof fn lemma_ext_case_blind(set: ExtSet, a: Seq<char>, b: Seq<char>)
    requires
        eq_ignore_ascii_case(a, b),
    ensures
        ext_in(set, a) == ext_in(set, b),
{
    if ext_in(set, a) {
        let i = choose|i: int| 0 <= i < ext_list(set).len() && eq_ignore_ascii_case(#[trigger] ext_list(set)[i], a);
        assert(eq_ignore_ascii_case(ext_list(set)[i], b));
    }
    if ext_in(set, b) {
        let i = choose|i: int| 0 <= i < ext_list(set).len() && eq_ignore_ascii_case(#[trigger] ext_list(set)[i], b);
        assert(eq_ignore_ascii_case(ext_list(set)[i], a));
    }
}

/// The source files counted are exactly those with the extensions `c`,
/// `cc`, `cpp`, `cxx`, `m`, `mm`, `rs`, `go`, `f90`, `f`, `java`, `swift` and
/// `d`; the object files those with `o`, `obj`, `lo`, `rlib`, `rmeta` and
/// `class`; in any case of their letters.
pub proof fn lemma_counted_extensions(ext: Seq<char>)
    ensures
        ext_in(ExtSet::Sources, ext) <==> {
            ||| eq_ignore_ascii_case(seq!['c'], ext)
            ||| eq_ignore_ascii_case(seq!['c', 'c'], ext)
            ||| eq_ignore_ascii_case(seq!['c', 'p', 'p'], ext)
            ||| eq_ignore_ascii_case(seq!['c', 'x', 'x'], ext)
            ||| eq_ignore_ascii_case(seq!['m'], ext)
            ||| eq_ignore_ascii_case(seq!['m', 'm'], ext)
            ||| eq_ignore_ascii_case(seq!['r', 's'], ext)
            ||| eq_ignore_ascii_case(seq!['g', 'o'], ext)
            ||| eq_ignore_ascii_case(seq!['f', '9', '0'], ext)
            ||| eq_ignore_ascii_case(seq!['f'], ext)
            ||| eq_ignore_ascii_case(seq!['j', 'a', 'v', 'a'], ext)
            ||| eq_ignore_ascii_case(seq!['s', 'w', 'i', 'f', 't'], ext)
            ||| eq_ignore_ascii_case(seq!['d'], ext)
        },
        ext_in(ExtSet::Objects, ext) <==> {
            ||| eq_ignore_ascii_case(seq!['o'], ext)
            ||| eq_ignore_ascii_case(seq!['o', 'b', 'j'], ext)
            ||| eq_ignore_ascii_case(seq!['l', 'o'], ext)
            ||| eq_ignore_ascii_case(seq!['r', 'l', 'i', 'b'], ext)
            ||| eq_ignore_ascii_case(seq!['r', 'm', 'e', 't', 'a'], ext)
            ||| eq_ignore_ascii_case(seq!['c', 'l', 'a', 's', 's'], ext)
        },
{
        assert(ext_list(ExtSet::Sources)[0] == seq!['c']);
        assert(ext_list(ExtSet::Sources)[1] == seq!['c', 'c']);
        assert(ext_list(ExtSet::Sources)[2] == seq!['c', 'p', 'p']);
        assert(ext_list(ExtSet::Sources)[3] == seq!['c', 'x', 'x']);
        assert(ext_list(ExtSet::Sources)[4] == seq!['m']);
        assert(ext_list(ExtSet::Sources)[5] == seq!['m', 'm']);
        assert(ext_list(ExtSet::Sources)[6] == seq!['r', 's']);
        assert(ext_list(ExtSet::Sources)[7] == seq!['g', 'o']);
        assert(ext_list(ExtSet::Sources)[8] == seq!['f', '9', '0']);
        assert(ext_list(ExtSet::Sources)[9] == seq!['f']);
        assert(ext_list(ExtSet::Sources)[10] == seq!['j', 'a', 'v', 'a']);
        assert(ext_list(ExtSet::Sources)[11] == seq!['s', 'w', 'i', 'f', 't']);
        assert(ext_list(ExtSet::Sources)[12] == seq!['d']);
        assert(ext_list(ExtSet::Objects)[0] == seq!['o']);
        assert(ext_list(ExtSet::Objects)[1] == seq!['o', 'b', 'j']);
        assert(ext_list(ExtSet::Objects)[2] == seq!['l', 'o']);
        assert(ext_list(ExtSet::Objects)[3] == seq!['r', 'l', 'i', 'b']);
        assert(ext_list(ExtSet::Objects)[4] == seq!['r', 'm', 'e', 't', 'a']);
        assert(ext_list(ExtSet::Objects)[5] == seq!['c', 'l', 'a', 's', 's']);
}

fn ext_list_exec(set: ExtSet) -> (r: Vec<Vec<char>>)
    ensures
        r@.len() == ext_list(set).len(),
        forall|i: int| 0 <= i < r@.len() ==> (#[trigger] r@[i])@ == ext_list(set)[i],
{
    let r = match set {
        ExtSet::Sources => vec![
            vec!['c'],
            vec!['c', 'c'],
            vec!['c', 'p', 'p'],
            vec!['c', 'x', 'x'],
            vec!['m'],
            vec!['m', 'm'],
            vec!['r', 's'],
            vec!['g', 'o'],
            vec!['f', '9', '0'],
            vec!['f'],
            vec!['j', 'a', 'v', 'a'],
            vec!['s', 'w', 'i', 'f', 't'],
            vec!['d'],
        ],
        ExtSet::Objects => vec![
            vec!['o'],
            vec!['o', 'b', 'j'],
            vec!['l', 'o'],
            vec!['r', 'l', 'i', 'b'],
            vec!['r', 'm', 'e', 't', 'a'],
            vec!['c', 'l', 'a', 's', 's'],
        ],
    };
    assert forall|i: int| 0 <= i < r@.len() implies (#[trigger] r@[i])@ == ext_list(set)[i] by {
        assert(r@[i]@ =~= ext_list(set)[i]);
    }
    r
}

/// Whether `ext` is one of the set's extensions (see [`ext_in`]).
pub fn ext_matches(set: ExtSet, ext: &str) -> (r: bool)
    ensures
        r == ext_in(set, ext@),
{
    let list = ext_list_exec(set);
    let e = chars_of(ext);
    let mut i: usize = 0;
    while i < list.len()
        invariant
            i <= list@.len() == ext_list(set).len(),
            e@ == ext@,
            forall|m: int| 0 <= m < list@.len() ==> (#[trigger] list@[m])@ == ext_list(set)[m],
            forall|m: int| 0 <= m < i ==> !eq_ignore_ascii_case(#[trigger] ext_list(set)[m], ext@),
        decreases list@.len() - i,
    {
        if eq_ignore_ascii_case_exec(&list[i], &e) {
            assert(list@[i as int]@ == ext_list(set)[i as int]);
            return true;
        }
        i = i + 1;
    }
    false
}

/// What a directory entry is.
#[derive(Debug, Clone, Copy, PartialEq, Eq, Structural)]
pub enum EntryKind {
    /// Its file type could not be read.
    Unreadable,
    Symlink,
    Dir,
    /// Any other file.
    File,
}

/// What the walk does after an entry.
#[derive(Debug, Clone, Copy, PartialEq, Eq, Structural)]
pub enum Walk {
    /// Give up: the entry budget is spent.
    Stop,
    /// Go on with the next entry.
    Skip,
    /// Walk into this directory later.
    Descend,
}

/// Counts the files of one extension set in a tree, visiting at most `cap`
/// entries.
pub struct FileCount {
    pub set: ExtSet,
    pub count: usize,
    pub visited: usize,
    pub cap: usize,
}

/// The entry is a file within the budget whose extension is in the set.
pub open spec fn counts_file(c: &FileCount, kind: EntryKind, ext: Option<&str>) -> bool {
    &&& c.visited + 1 <= c.cap
    &&& kind == EntryKind::File
    &&& ext is Some
    &&& ext_in(c.set, ext->0@)
}

impl FileCount {
    /// The walk may go on: fewer than `cap` entries have been taken, and no
    /// more files counted than entries visited.
    pub open spec fn wf(&self) -> bool {
        self.count <= self.visited <= self.cap < usize::MAX
    }

    pub fn new(set: ExtSet, cap: usize) -> (r: Self)
        requires
            cap < usize::MAX,
        ensures
            r.wf(),
            r.set == set,
            r.count == 0,
            r.visited == 0,
            r.cap == cap,
    {
        FileCount { set, count: 0, visited: 0, cap }
    }

    /// Takes one entry: once more than `cap` entries have been seen the walk
    /// stops; symlinks and unreadable entries are passed over; directories
    /// are walked into; a file whose extension is in the set is counted.
    pub fn visit(&mut self, kind: EntryKind, ext: Option<&str>) -> (w: Walk)
        requires
            old(self).wf(),
        ensures
            final(self).visited == old(self).visited + 1,
            final(self).set == old(self).set,
            final(self).cap == old(self).cap,
            w == Walk::Stop <==> old(self).visited + 1 > old(self).cap,
            w != Walk::Stop ==> final(self).wf(),
            w == Walk::Descend <==> (old(self).visited + 1 <= old(self).cap && kind == EntryKind::Dir),
            final(self).count == old(self).count + if counts_file(old(self), kind, ext) {
                1int
            } else {
                0int
            },
    {
        self.visited = self.visited + 1;
        if self.visited > self.cap {
            return Walk::Stop;
        }
        match kind {
            EntryKind::Unreadable | EntryKind::Symlink => Walk::Skip,
            EntryKind::Dir => Walk::Descend,
            EntryKind::File => {
                if let Some(e) = ext {
                    if ext_matches(self.set, e) {
                        self.count = self.count + 1;
                    }
                }
                Walk::Skip
            },
        }
    }
}

// ---------------------------------------------------------------------------
// The build-system marker
// ---------------------------------------------------------------------------

/// The build system that a file of this name marks: `Cargo.toml`,
/// `build.ninja`, `Makefile` or `GNUmakefile`.
pub open spec fn marker_system(name: Seq<char>) -> Option<BuildSystem> {
    if name == seq!['C', 'a', 'r', 'g', 'o', '.', 't', 'o', 'm', 'l'] {
        Some(BuildSystem::Cargo)
    } else if name == seq!['b', 'u', 'i', 'l', 'd', '.', 'n', 'i', 'n', 'j', 'a'] {
        Some(BuildSystem::Ninja)
    } else if name == seq!['M', 'a', 'k', 'e', 'f', 'i', 'l', 'e'] {
        Some(BuildSystem::Make)
    } else if name == seq!['G', 'N', 'U', 'm', 'a', 'k', 'e', 'f', 'i', 'l', 'e'] {
        Some(BuildSystem::Make)
    } else {
        None
    }
}

/// Exactly four file names mark a build system, each the one its name
/// tells: `Cargo.toml` cargo, `build.ninja` ninja, `Makefile` and
/// `GNUmakefile` make. Any other name, such as `CMakeLists.txt` or
/// `meson.build`, marks none, and the search goes on past it.
pub proof fn lemma_only_marker_files(name: Seq<char>)
    ensures
        name == seq!['C', 'a', 'r', 'g', 'o', '.', 't', 'o', 'm', 'l'] ==> marker_system(name)
            == Some(BuildSystem::Cargo),
        name == seq!['b', 'u', 'i', 'l', 'd', '.', 'n', 'i', 'n', 'j', 'a'] ==> marker_system(name)
            == Some(BuildSystem::Ninja),
        name == seq!['M', 'a', 'k', 'e', 'f', 'i', 'l', 'e'] ==> marker_system(name) == Some(
            BuildSystem::Make,
        ),
        name == seq!['G', 'N', 'U', 'm', 'a', 'k', 'e', 'f', 'i', 'l', 'e'] ==> marker_system(name)
            == Some(BuildSystem::Make),
        marker_system(name) is Some ==> {
            ||| name == seq!['C', 'a', 'r', 'g', 'o', '.', 't', 'o', 'm', 'l']
            ||| name == seq!['b', 'u', 'i', 'l', 'd', '.', 'n', 'i', 'n', 'j', 'a']
            ||| name == seq!['M', 'a', 'k', 'e', 'f', 'i', 'l', 'e']
            ||| name == seq!['G', 'N', 'U', 'm', 'a', 'k', 'e', 'f', 'i', 'l', 'e']
        },
{
}

fn is_word(v: &Vec<char>, word: &[char]) -> (r: bool)
    ensures
        r == (v@ == word@),
{
    if v.len() != word.len() {
        return false;
    }
    let r = literal_at(v, 0, word);
    assert(v@.subrange(0, word@.len() as int) =~= v@);
    r
}

/// The build system that a file of this name marks (see [`marker_system`]).
pub fn build_system_marker(name: &str) -> (r: Option<BuildSystem>)
    ensures
        r == marker_system(name@),
{
    let v = chars_of(name);
    let cargo = ['C', 'a', 'r', 'g', 'o', '.', 't', 'o', 'm', 'l'];
    let ninja = ['b', 'u', 'i', 'l', 'd', '.', 'n', 'i', 'n', 'j', 'a'];
    let make = ['M', 'a', 'k', 'e', 'f', 'i', 'l', 'e'];
    let gnu = ['G', 'N', 'U', 'm', 'a', 'k', 'e', 'f', 'i', 'l', 'e'];
    assert(cargo@ =~= seq!['C', 'a', 'r', 'g', 'o', '.', 't', 'o', 'm', 'l']);
    assert(ninja@ =~= seq!['b', 'u', 'i', 'l', 'd', '.', 'n', 'i', 'n', 'j', 'a']);
    assert(make@ =~= seq!['M', 'a', 'k', 'e', 'f', 'i', 'l', 'e']);
    assert(gnu@ =~= seq!['G', 'N', 'U', 'm', 'a', 'k', 'e', 'f', 'i', 'l', 'e']);
    if is_word(&v, &cargo) {
        Some(BuildSystem::Cargo)
    } else if is_word(&v, &ninja) {
        Some(BuildSystem::Ninja)
    } else if is_word(&v, &make) {
        Some(BuildSystem::Make)
    } else if is_word(&v, &gnu) {
        Some(BuildSystem::Make)
    } else {
        None
    }
}

/// What the marker search does after an entry.
#[derive(Debug, Clone, Copy, PartialEq, Eq, Structural)]
pub enum MarkerStep {
    /// The search is over, with the build system found, if any.
    Stop(Option<BuildSystem>),
    Skip,
    Descend,
}

/// Looks for a build-system marker in a tree, visiting at most `cap` entries.
pub struct MarkerSearch {
    pub visited: usize,
    pub cap: usize,
}

pub open spec fn is_temp(name: Seq<char>) -> bool {
    name == seq!['t', 'e', 'm', 'p']
}

impl MarkerSearch {
    pub open spec fn wf(&self) -> bool {
        self.visited <= self.cap < usize::MAX
    }

    pub fn new(cap: usize) -> (r: Self)
        requires
            cap < usize::MAX,
        ensures
            r.wf(),
            r.visited == 0,
            r.cap == cap,
    {
        MarkerSearch { visited: 0, cap }
    }

    /// Takes one entry named `name` (`None` when the name is not UTF-8): once
    /// more than `cap` entries have been seen the search fails; symlinks,
    /// unreadable entries and entries without a UTF-8 name are passed over;
    /// directories other than `temp` are walked into; a marker file ends the
    /// search with its build system.
    pub fn visit(&mut self, kind: EntryKind, name: Option<&str>) -> (s: MarkerStep)
        requires
            old(self).wf(),
        ensures
            final(self).visited == old(self).visited + 1,
            final(self).cap == old(self).cap,
            !(s is Stop) ==> final(self).wf(),
            s == if old(self).visited + 1 > old(self).cap {
                MarkerStep::Stop(None)
            } else if kind == EntryKind::Unreadable || kind == EntryKind::Symlink || name is None {
                MarkerStep::Skip
            } else if kind == EntryKind::Dir {
                if is_temp(name->0@) {
                    MarkerStep::Skip
                } else {
                    MarkerStep::Descend
                }
            } else {
                match marker_system(name->0@) {
                    Some(b) => MarkerStep::Stop(Some(b)),
                    None => MarkerStep::Skip,
                }
            },
    {
        self.visited = self.visited + 1;
        if self.visited > self.cap {
            return MarkerStep::Stop(None);
        }
        if kind == EntryKind::Unreadable || kind == EntryKind::Symlink {
            return MarkerStep::Skip;
        }
        let n = match name {
            Some(n) => n,
            None => {
                return MarkerStep::Skip;
            },
        };
        if kind == EntryKind::Dir {
            let v = chars_of(n);
            let temp = ['t', 'e', 'm', 'p'];
            assert(temp@ =~= seq!['t', 'e', 'm', 'p']);
            if is_word(&v, &temp) {
                return MarkerStep::Skip;
            }
            return MarkerStep::Descend;
        }
        match build_system_marker(n) {
            Some(b) => MarkerStep::Stop(Some(b)),
            None => MarkerStep::Skip,
        }
    }
}

/// The build system a build tree suggests when its log shows none: the
/// marker found, or unknown.
pub fn detect_build_system_hint(found: Option<BuildSystem>) -> (r: BuildSystem)
    ensures
        r == match found {
            Some(b) => b,
            None => BuildSystem::Unknown,
        },
{
    match found {
        Some(b) => b,
        None => BuildSystem::Unknown,
    }
}

} // verus!
