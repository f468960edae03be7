//! The projects that were opened last.

use crate::text;
use crate::text::same_text;
use crate::model::time_laws;
use vstd::prelude::*;

verus! {

/// How many projects are kept.
pub const MAX_RECENT: usize = 8;

/// The projects that were opened last, the latest first.
#[derive(Debug)]
pub struct RecentFiles {
    pub paths: Vec<String>,
}

/// The texts of strings.
pub open spec fn texts(v: Seq<String>) -> Seq<Seq<char>> {
    v.map_values(|s: String| s@)
}

/// The entries whose file is not `file`, where `files` are those that the
/// entries lead to.
pub open spec fn others(entries: Seq<Seq<char>>, files: Seq<Seq<char>>, file: Seq<char>) -> Seq<Seq<char>>
    decreases entries.len(),
{
    if entries.len() == 0 {
        Seq::empty()
    } else {
        let front = others(entries.drop_last(), files, file);
        if files[entries.len() - 1] != file {
            front.push(entries.last())
        } else {
            front
        }
    }
}

/// At most the first `n` entries.
pub open spec fn first_of(entries: Seq<Seq<char>>, n: int) -> Seq<Seq<char>> {
    if entries.len() > n {
        entries.take(n)
    } else {
        entries
    }
}

impl Default for RecentFiles {
    fn default() -> (r: RecentFiles)
        ensures
            r.paths@.len() == 0,
    {
        RecentFiles { paths: Vec::new() }
    }
}

impl RecentFiles {
    /// Puts `path` first and drops what leads to the same file, so that no file
    /// is there twice; what is too many falls off the end. `file` is the file
    /// that the path leads to, `files` are those that the entries lead to: the
    /// caller asks the file system.
    pub fn push(&mut self, path: String, file: &str, files: &Vec<String>)
        requires
            files@.len() == old(self).paths@.len(),
        ensures
            texts(final(self).paths@) == first_of(
                seq![path@] + others(texts(old(self).paths@), texts(files@), file@),
                MAX_RECENT as int,
            ),
    {
        let ghost entries = texts(self.paths@);
        let ghost led = texts(files@);
        let mut kept: Vec<String> = Vec::new();
        let ghost name = path@;
        kept.push(path);
        let mut i: usize = 0;
        assert(texts(kept@) =~= seq![name] + others(entries.take(0), led, file@));
        while i < self.paths.len()
            invariant
                entries == texts(self.paths@),
                led == texts(files@),
                files@.len() == self.paths@.len(),
                i <= self.paths@.len(),
                texts(kept@) == seq![name] + others(entries.take(i as int), led, file@),
            decreases self.paths@.len() - i,
        {
            proof {
                assert(entries.take(i + 1).drop_last() =~= entries.take(i as int));
                assert(entries.take(i + 1).last() == self.paths@[i as int]@);
                assert(led[i as int] == files@[i as int]@);
            }
            let ghost before = kept@;
            if !same_text(files[i].as_str(), file) {
                kept.push(self.paths[i].clone());
                assert(texts(kept@) =~= texts(before).push(self.paths@[i as int]@));
            }
            assert(texts(kept@) =~= seq![name] + others(entries.take(i + 1), led, file@));
            i += 1;
        }
        assert(entries.take(i as int) =~= entries);
        let ghost all = texts(kept@);
        if kept.len() > MAX_RECENT {
            kept.truncate(MAX_RECENT);
            assert(texts(kept@) =~= all.take(MAX_RECENT as int));
        }
        self.paths = kept;
    }
}

/// Whether a stored list says nothing: then no project was opened yet.
pub fn is_blank(stored: &str) -> (r: bool)
    ensures
        r == forall|i: int| 0 <= i < stored@.len() ==> text::is_space(#[trigger] stored@[i]),
{
    let all = text::chars_of(stored);
    let mut i: usize = 0;
    while i < all.len()
        invariant
            all@ == stored@,
            i <= all@.len(),
            forall|k: int| 0 <= k < i ==> text::is_space(#[trigger] stored@[k]),
        decreases all@.len() - i,
    {
        if !text::is_separator(all[i]) {
            return false;
        }
        i += 1;
    }
    true
}

/// The files of the entries that are kept: those that are not `file`.
pub open spec fn files_kept(files: Seq<Seq<char>>, file: Seq<char>) -> Seq<Seq<char>> {
    files.filter(|f: Seq<char>| f != file)
}

/// What is kept are entries with their files: of each kept entry the file is the kept
/// file at its place.
proof fn lemma_kept(entries: Seq<Seq<char>>, files: Seq<Seq<char>>, file: Seq<char>)
    requires
        entries.len() == files.len(),
    ensures
        others(entries, files, file).len() == files_kept(files, file).len(),
        forall|k: int|
            0 <= k < files_kept(files, file).len() ==> is_entry(
                entries,
                files,
                others(entries, files, file)[k],
                #[trigger] files_kept(files, file)[k],
            ),
    decreases entries.len(),
{
    let p = |f: Seq<char>| f != file;
    reveal(Seq::filter);
    if entries.len() > 0 {
        let last = entries.len() - 1;
        let front = entries.drop_last();
        let front_files = files.drop_last();
        lemma_kept(front, front_files, file);
        lemma_others_prefix(front, files, front_files, file);
        assert forall|k: int| 0 <= k < files_kept(files, file).len() implies is_entry(
            entries,
            files,
            others(entries, files, file)[k],
            #[trigger] files_kept(files, file)[k],
        ) by {
            if k < files_kept(front_files, file).len() {
                assert(files_kept(files, file)[k] == files_kept(front_files, file)[k]);
                let i = choose|i: int|
                    0 <= i < front.len() && #[trigger] front[i] == others(front, front_files, file)[k] && front_files[i]
                        == files_kept(front_files, file)[k];
                assert(entries[i] == front[i] && files[i] == front_files[i]);
            } else {
                assert(entries[last] == others(entries, files, file)[k] && files[last] == files_kept(files, file)[k]);
            }
        }
    }
}

proof fn lemma_others_prefix(entries: Seq<Seq<char>>, a: Seq<Seq<char>>, b: Seq<Seq<char>>, file: Seq<char>)
    requires
        entries.len() <= a.len(),
        entries.len() <= b.len(),
        forall|i: int| 0 <= i < entries.len() ==> a[i] == b[i],
    ensures
        others(entries, a, file) == others(entries, b, file),
    decreases entries.len(),
{
    if entries.len() > 0 {
        lemma_others_prefix(entries.drop_last(), a, b, file);
    }
}

/// Whether an entry is there, and leads to a file.
pub open spec fn is_entry(entries: Seq<Seq<char>>, files: Seq<Seq<char>>, entry: Seq<char>, file: Seq<char>) -> bool {
    exists|i: int| 0 <= i < entries.len() && #[trigger] entries[i] == entry && files[i] == file
}

proof fn lemma_files_apart(files: Seq<Seq<char>>, file: Seq<char>)
    requires
        files.no_duplicates(),
    ensures
        files_kept(files, file).no_duplicates(),
        !files_kept(files, file).contains(file),
        forall|e: Seq<char>| #[trigger] files_kept(files, file).contains(e) ==> files.contains(e),
    decreases files.len(),
{
    reveal(Seq::filter);
    if files.len() > 0 {
        let front = files.drop_last();
        let last = files.len() - 1;
        assert(front.no_duplicates());
        lemma_files_apart(front, file);
        let a = files_kept(front, file);
        let b = files_kept(files, file);
        assert forall|e: Seq<char>| #[trigger] b.contains(e) implies files.contains(e) && e != file by {
            let k = choose|k: int| 0 <= k < b.len() && b[k] == e;
            if k < a.len() {
                assert(a.contains(e));
                let j = choose|j: int| 0 <= j < front.len() && front[j] == e;
                assert(files[j] == e);
            } else {
                assert(files[last] == e);
            }
        }
        assert forall|i: int, j: int| 0 <= i < b.len() && 0 <= j < b.len() && i != j implies b[i] != b[j] by {
            if i < a.len() && j < a.len() {
            } else {
                let k = if i < a.len() {
                    i
                } else {
                    j
                };
                assert(a.contains(a[k]));
                let m = choose|m: int| 0 <= m < front.len() && front[m] == a[k];
                assert(files[m] == a[k]);
            }
        }
    }
}

/// No file is there twice, however it is spelled: where the entries lead to different
/// files, so do those that are left with a path put first. The entries that are left
/// come in their order, each with the file that it led to.
pub proof fn law_no_file_is_there_twice(
    entries: Seq<Seq<char>>,
    files: Seq<Seq<char>>,
    path: Seq<char>,
    file: Seq<char>,
)
    requires
        entries.len() == files.len(),
        files.no_duplicates(),
    ensures
        ({
            let now = first_of(seq![path] + others(entries, files, file), MAX_RECENT as int);
            let led = first_of(seq![file] + files_kept(files, file), MAX_RECENT as int);
            &&& now.len() == led.len() <= MAX_RECENT
            &&& now[0] == path && led[0] == file
            &&& led.no_duplicates()
            &&& forall|k: int| 0 < k < now.len() ==> is_entry(entries, files, #[trigger] now[k], led[k])
        }),
{
    lemma_kept(entries, files, file);
    lemma_files_apart(files, file);
    let rest = files_kept(files, file);
    let all = seq![file] + rest;
    let now = first_of(seq![path] + others(entries, files, file), MAX_RECENT as int);
    let led = first_of(all, MAX_RECENT as int);
    assert forall|i: int, j: int| 0 <= i < all.len() && 0 <= j < all.len() && i != j implies all[i] != all[j] by {
        if i == 0 {
            assert(rest.contains(rest[j - 1]));
        } else if j == 0 {
            assert(rest.contains(rest[i - 1]));
        } else {
            assert(rest[i - 1] != rest[j - 1]);
        }
    }
    assert forall|k: int| 0 < k < now.len() implies is_entry(entries, files, #[trigger] now[k], led[k]) by {
        assert(now[k] == others(entries, files, file)[k - 1]);
        assert(led[k] == rest[k - 1]);
    }
}

/// Whether the entries of other files are left, in order. `at` is where each of them was.
pub open spec fn are_others(
    now: Seq<Seq<char>>,
    entries: Seq<Seq<char>>,
    files: Seq<Seq<char>>,
    file: Seq<char>,
    at: Seq<int>,
) -> bool {
    &&& at.len() == now.len()
    &&& time_laws::are_ordered(at, entries.len())
    &&& forall|i: int| 0 <= i < entries.len() ==> (#[trigger] at.contains(i) <==> files[i] != file)
    &&& forall|k: int| 0 <= k < now.len() ==> now[k] == entries[#[trigger] at[k]]
}

proof fn lemma_others(entries: Seq<Seq<char>>, files: Seq<Seq<char>>, file: Seq<char>) -> (at: Seq<int>)
    ensures
        are_others(others(entries, files, file), entries, files, file, at),
    decreases entries.len(),
{
    if entries.len() == 0 {
        Seq::empty()
    } else {
        let front = entries.drop_last();
        let n = entries.len() - 1;
        let before = lemma_others(front, files, file);
        let kept = others(front, files, file);
        let now = others(entries, files, file);
        time_laws::lemma_grown(before, n);
        let at = if files[n] != file {
            before.push(n)
        } else {
            before
        };
        assert forall|i: int| 0 <= i < entries.len() implies (#[trigger] at.contains(i) <==> files[i] != file) by {
            assert(before.push(n).contains(i) <==> before.contains(i) || i == n);
            if i < n {
                assert(before.contains(i) <==> files[i] != file);
            }
        }
        assert forall|k: int| 0 <= k < now.len() implies now[k] == entries[#[trigger] at[k]] by {
            if k < kept.len() {
                assert(now[k] == kept[k]);
                assert(before[k] < n);
            }
        }
        at
    }
}

/// The entries of other files stay, in order, and those of the file go.
pub proof fn law_other_files_stay(entries: Seq<Seq<char>>, files: Seq<Seq<char>>, file: Seq<char>)
    ensures
        exists|at: Seq<int>| #[trigger] are_others(others(entries, files, file), entries, files, file, at),
{
    let at = lemma_others(entries, files, file);
}

} // verus!
