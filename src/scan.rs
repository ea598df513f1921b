//! Turning directory listings into the flat list of entries a project holds.
//!
//! The walk itself reads the disk, so it is driven from outside: a [`Scan`]
//! hands out the next directory to read (`next_dir`) and takes its listing
//! back (`add_listing`), deciding what is kept and how it is named.
use vstd::prelude::*;
use vstd::string::*;
use crate::classify::{binary_by_extension, is_binary_file};
use crate::text::{has_prefix, normalize_separators, normalized, starts_with};

verus! {

/// One entry of a directory as read from disk.
#[derive(Clone, Debug)]
pub struct RawEntry {
    pub name: String,
    pub is_dir: bool,
    pub is_file: bool,
    pub size: u64,
    pub modified: i64,
}

/// An entry of a project directory found by a scan.
///
/// `relative_path` is `/`-separated and relative to the project directory;
/// `parent_path` is that of the directory holding it, empty at the top.
#[derive(Clone, Debug)]
pub struct ScanEntry {
    pub relative_path: String,
    pub parent_path: String,
    pub name: String,
    pub is_folder: bool,
    pub size: u64,
    pub modified: i64,
    pub is_binary: bool,
}

/// Names starting with `.` or `__` are hidden or reserved and never scanned.
pub open spec fn is_excluded_name(name: Seq<char>) -> bool {
    has_prefix(name, "."@) || has_prefix(name, "__"@)
}

/// A raw entry is taken into the scan: a visible directory or regular file.
pub open spec fn is_kept(raw: RawEntry) -> bool {
    !is_excluded_name(raw.name@) && (raw.is_dir || raw.is_file)
}

/// The relative path of `name` inside the directory at relative path `dir`.
pub open spec fn child_path(dir: Seq<char>, name: Seq<char>) -> Seq<char> {
    if dir.len() == 0 {
        normalized(name)
    } else {
        dir + seq!['/'] + normalized(name)
    }
}

/// `e` is what the scan makes of `raw` found in the directory `dir`.
pub open spec fn describes(e: ScanEntry, dir: Seq<char>, raw: RawEntry) -> bool {
    &&& e.relative_path@ == child_path(dir, raw.name@)
    &&& e.parent_path@ == dir
    &&& e.name@ == raw.name@
    &&& e.is_folder == raw.is_dir
    &&& e.size == raw.size
    &&& e.modified == raw.modified
    &&& e.is_binary == (!raw.is_dir && binary_by_extension(raw.name@))
}

/// The raw entries of a listing that the scan keeps, in order.
pub open spec fn kept_entries(raws: Seq<RawEntry>) -> Seq<RawEntry> {
    raws.filter(|r: RawEntry| is_kept(r))
}

/// `dir` is the top directory or the path of a folder among `entries`.
pub open spec fn is_known_dir(entries: Seq<ScanEntry>, dir: Seq<char>) -> bool {
    dir.len() == 0 || exists|j: int|
        0 <= j < entries.len() && entries[j].is_folder && entries[j].relative_path@ == dir
}

/// Every entry comes after the folder that holds it.
pub open spec fn parents_first(entries: Seq<ScanEntry>) -> bool {
    forall|i: int|
        0 <= i < entries.len() ==> (#[trigger] entries[i]).parent_path@.len() == 0 || exists|j: int|
            0 <= j < i && entries[j].is_folder && entries[j].relative_path@
                == entries[i].parent_path@
}

/// No entry carries an excluded name.
pub open spec fn names_visible(entries: Seq<ScanEntry>) -> bool {
    forall|i: int| 0 <= i < entries.len() ==> !is_excluded_name(#[trigger] entries[i].name@)
}

/// The relative paths of the folders among `entries`, in order.
pub open spec fn subdir_paths(entries: Seq<ScanEntry>) -> Seq<Seq<char>>
    decreases entries.len(),
{
    if entries.len() == 0 {
        Seq::empty()
    } else if entries.last().is_folder {
        subdir_paths(entries.drop_last()).push(entries.last().relative_path@)
    } else {
        subdir_paths(entries.drop_last())
    }
}

/// The views of a sequence of strings.
pub open spec fn views(v: Seq<String>) -> Seq<Seq<char>> {
    v.map_values(|s: String| s@)
}

/// Whether a name is hidden or reserved.
pub fn is_excluded(name: &str) -> (r: bool)
    ensures
        r == is_excluded_name(name@),
{
    starts_with(name, ".") || starts_with(name, "__")
}

/// The relative path of `name` inside the directory at relative path `dir`.
pub fn join_child(dir: &str, name: &str) -> (r: String)
    ensures
        r@ == child_path(dir@, name@),
{
    let norm = normalize_separators(name);
    if dir.unicode_len() == 0 {
        norm
    } else {
        proof {
            reveal_strlit("/");
        }
        let mut out = String::from_str(dir);
        out.append("/");
        out.append(norm.as_str());
        out
    }
}

/// The entries that the directory `dir` contributes to a scan: its visible
/// subdirectories and regular files, in listing order, each with its relative
/// path and, for files, the verdict of the extension check.
pub fn scan_listing(dir: &str, raws: &Vec<RawEntry>) -> (r: Vec<ScanEntry>)
    ensures
        r@.len() == kept_entries(raws@).len(),
        forall|k: int| 0 <= k < r@.len() ==> describes(#[trigger] r@[k], dir@, kept_entries(raws@)[k]),
{
    let mut out: Vec<ScanEntry> = Vec::new();
    let mut i: usize = 0;
    while i < raws.len()
        invariant
            i <= raws@.len(),
            out@.len() == kept_entries(raws@.take(i as int)).len(),
            forall|k: int|
                0 <= k < out@.len() ==> describes(
                    #[trigger] out@[k],
                    dir@,
                    kept_entries(raws@.take(i as int))[k],
                ),
        decreases raws.len() - i,
    {
        let raw = &raws[i];
        proof {
            reveal(Seq::filter);
            assert(raws@.take(i as int + 1).drop_last() =~= raws@.take(i as int));
            assert(raws@.take(i as int + 1).last() == raws@[i as int]);
        }
        if !is_excluded(raw.name.as_str()) && (raw.is_dir || raw.is_file) {
            let is_binary = if raw.is_dir {
                false
            } else {
                is_binary_file(raw.name.as_str())
            };
            let e = ScanEntry {
                relative_path: join_child(dir, raw.name.as_str()),
                parent_path: String::from_str(dir),
                name: raw.name.clone(),
                is_folder: raw.is_dir,
                size: raw.size,
                modified: raw.modified,
                is_binary,
            };
            out.push(e);
        }
        i += 1;
    }
    assert(raws@.take(raws@.len() as int) =~= raws@);
    out
}

/// A scan in progress: the entries found so far and the directories still to read.
pub struct Scan {
    pub entries: Vec<ScanEntry>,
    pub pending: Vec<String>,
    pub current: String,
}

impl Scan {
    /// The scan's bookkeeping is consistent: each entry comes after its
    /// folder, no entry carries an excluded name, and the directory being read
    /// and those waiting are the top or found folders.
    pub open spec fn wf(&self) -> bool {
        &&& parents_first(self.entries@)
        &&& names_visible(self.entries@)
        &&& is_known_dir(self.entries@, self.current@)
        &&& forall|i: int|
            0 <= i < self.pending@.len() ==> is_known_dir(
                self.entries@,
                (#[trigger] self.pending@[i])@,
            )
    }

    /// A scan that has read nothing; the project directory itself is next.
    pub fn new() -> (r: Scan)
        ensures
            r.wf(),
            r.entries@.len() == 0,
            r.pending@.len() == 1,
            r.pending@[0]@.len() == 0,
            r.current@.len() == 0,
    {
        let mut pending: Vec<String> = Vec::new();
        pending.push(String::new());
        Scan { entries: Vec::new(), pending, current: String::new() }
    }

    /// The relative path of the next directory to read, if any is left; it
    /// becomes the directory that the next listing belongs to.
    pub fn next_dir(&mut self) -> (r: Option<String>)
        requires
            old(self).wf(),
        ensures
            final(self).wf(),
            final(self).entries == old(self).entries,
            old(self).pending@.len() == 0 ==> r is None && final(self).pending@ == old(
                self,
            ).pending@,
            old(self).pending@.len() > 0 ==> r is Some && r->Some_0 == old(self).pending@.last()
                && final(self).current == old(self).pending@.last() && final(self).pending@
                == old(self).pending@.drop_last(),
    {
        let ghost before = self.pending@;
        let popped = self.pending.pop();
        proof {
            if before.len() > 0 {
                assert(self.pending@ =~= before.drop_last());
                assert forall|i: int| 0 <= i < self.pending@.len() implies self.pending@[i] == before[i] by {}
            }
        }
        match popped {
            Some(d) => {
                self.current = d.clone();
                Some(d)
            },
            None => None,
        }
    }

    /// Takes the listing of the current directory: its kept entries are
    /// appended, and the paths of its kept subdirectories are queued after
    /// those already waiting.
    pub fn add_listing(&mut self, raws: &Vec<RawEntry>)
        requires
            old(self).wf(),
        ensures
            final(self).wf(),
            final(self).current == old(self).current,
            final(self).entries@.len() == old(self).entries@.len() + kept_entries(raws@).len(),
            final(self).entries@.take(old(self).entries@.len() as int) == old(self).entries@,
            forall|k: int|
                0 <= k < kept_entries(raws@).len() ==> describes(
                    #[trigger] final(self).entries@[old(self).entries@.len() + k],
                    old(self).current@,
                    kept_entries(raws@)[k],
                ),
            views(final(self).pending@) == views(old(self).pending@) + subdir_paths(
                final(self).entries@.subrange(
                    old(self).entries@.len() as int,
                    final(self).entries@.len() as int,
                ),
            ),
    {
        let found = scan_listing(self.current.as_str(), raws);
        let ghost old_pending = views(self.pending@);
        let ghost old_entries = self.entries@;
        let ghost dir = self.current@;
        let ghost old_current = self.current;
        let mut i: usize = 0;
        while i < found.len()
            invariant
                0 <= i <= found@.len(),
                found@.len() == kept_entries(raws@).len(),
                forall|k: int|
                    0 <= k < found@.len() ==> describes(
                        #[trigger] found@[k],
                        dir,
                        kept_entries(raws@)[k],
                    ),
                self.current@ == dir,
                self.current == old_current,
                self.entries@.len() == old_entries.len() + i,
                self.entries@.take(old_entries.len() as int) == old_entries,
                forall|k: int|
                    0 <= k < i ==> self.entries@[old_entries.len() + k] == #[trigger] found@[k],
                self.wf(),
                views(self.pending@) == old_pending + subdir_paths(
                    self.entries@.subrange(old_entries.len() as int, self.entries@.len() as int),
                ),
            decreases found.len() - i,
        {
            let e = found[i].clone_entry();
            let ghost before = self.entries@;
            proof {
                reveal(Seq::filter);
                raws@.lemma_filter_pred(|r: RawEntry| is_kept(r), i as int);
                assert(is_kept(kept_entries(raws@)[i as int]));
            }
            let is_folder = e.is_folder;
            let path = e.relative_path.clone();
            let ghost pend_before = views(self.pending@);
            self.entries.push(e);
            proof {
                let added = self.entries@.subrange(
                    old_entries.len() as int,
                    self.entries@.len() as int,
                );
                assert(added.drop_last() =~= before.subrange(
                    old_entries.len() as int,
                    before.len() as int,
                ));
                assert(added.last() == found@[i as int]);
            }
            proof {
                let len = before.len() as int;
                assert(self.entries@.take(old_entries.len() as int) =~= old_entries) by {
                    assert(before.take(old_entries.len() as int) =~= old_entries);
                }
                assert forall|j: int| 0 <= j < before.len() implies self.entries@[j] == before[j] by {}
                assert(self.entries@[len] == found@[i as int]);
                assert(is_known_dir(before, dir));
                assert forall|q: int|
                    0 <= q < self.entries@.len() implies (#[trigger] self.entries@[q]).parent_path@.len()
                    == 0 || exists|j: int|
                    0 <= j < q && self.entries@[j].is_folder && self.entries@[j].relative_path@
                        == self.entries@[q].parent_path@ by {
                    if q < len {
                        assert(self.entries@[q] == before[q]);
                        if before[q].parent_path@.len() != 0 {
                            let j = choose|j: int|
                                0 <= j < q && before[j].is_folder && before[j].relative_path@
                                    == before[q].parent_path@;
                            assert(self.entries@[j] == before[j]);
                        }
                    } else {
                        if dir.len() != 0 {
                            let j = choose|j: int|
                                0 <= j < before.len() && before[j].is_folder
                                    && before[j].relative_path@ == dir;
                            assert(self.entries@[j] == before[j]);
                        }
                    }
                }
                assert forall|q: int| 0 <= q < self.entries@.len() implies !is_excluded_name(
                    #[trigger] self.entries@[q].name@,
                ) by {
                    if q < len {
                        assert(self.entries@[q] == before[q]);
                    }
                }
                assert forall|d: Seq<char>| is_known_dir(before, d) implies is_known_dir(
                    self.entries@,
                    d,
                ) by {
                    if d.len() != 0 {
                        let j = choose|j: int|
                            0 <= j < before.len() && before[j].is_folder && before[j].relative_path@
                                == d;
                        assert(self.entries@[j] == before[j]);
                    }
                }
                assert(is_known_dir(self.entries@, self.current@));
                assert forall|p: int| 0 <= p < self.pending@.len() implies is_known_dir(
                    self.entries@,
                    (#[trigger] self.pending@[p])@,
                ) by {
                    assert(is_known_dir(before, self.pending@[p]@));
                }
                assert(self.entries@[len].relative_path@ == path@);
            }
            if is_folder {
                let ghost mid = self.pending@;
                self.pending.push(path);
                proof {
                    assert(views(self.pending@) =~= pend_before.push(path@));
                    let len = before.len() as int;
                    assert(self.entries@[len].is_folder);
                    assert(is_known_dir(self.entries@, path@));
                    assert forall|p: int| 0 <= p < self.pending@.len() implies is_known_dir(
                        self.entries@,
                        (#[trigger] self.pending@[p])@,
                    ) by {
                        if p < mid.len() {
                            assert(self.pending@[p] == mid[p]);
                        }
                    }
                }
            }
            i += 1;
        }
        assert forall|k: int| 0 <= k < kept_entries(raws@).len() implies describes(
            #[trigger] self.entries@[old_entries.len() + k],
            dir,
            kept_entries(raws@)[k],
        ) by {
            assert(self.entries@[old_entries.len() + k] == found@[k]);
        }
    }
}

impl ScanEntry {
    /// A field-for-field copy.
    pub fn clone_entry(&self) -> (r: ScanEntry)
        ensures
            r == *self,
    {
        ScanEntry {
            relative_path: self.relative_path.clone(),
            parent_path: self.parent_path.clone(),
            name: self.name.clone(),
            is_folder: self.is_folder,
            size: self.size,
            modified: self.modified,
            is_binary: self.is_binary,
        }
    }
}

} // verus!
