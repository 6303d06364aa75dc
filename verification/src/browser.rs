//! The directory browser: which files of a directory the viewer shows, in
//! which order, and which one is current.

use vstd::prelude::*;
use crate::sorting::{SortMode, FileEntry, stable_sort, is_stable_sort};
use crate::paths::{is_supported_name, is_supported as name_is_supported};
use crate::text::{str_eq, push_decimal, push_char, decimal};

verus! {

/// A directory as the application read it: its path and its entries, in
/// the order the file system listed them.
pub struct DirListing {
    pub dir: String,
    pub entries: Vec<FileEntry>,
}

/// What `Browser::open_path` is asked to open.
pub enum OpenRequest {
    /// A directory, with its listing.
    Directory(DirListing),
    /// A file: the listing of its parent directory and the file's path.
    File(DirListing, String),
    /// A path that is neither a directory nor a file.
    Neither,
}

/// The files of one directory that the viewer can open, and the current one.
pub struct Browser {
    pub files: Vec<FileEntry>,
    pub index: usize,
    pub directory: Option<String>,
    pub sort_mode: SortMode,
}

/// Entries the browser keeps from a listing: regular files of a supported
/// format, in listing order.
pub open spec fn kept(entries: Seq<FileEntry>) -> Seq<FileEntry> {
    entries.filter(|e: FileEntry| e.is_file && is_supported_name(e.name@))
}

/// `k` is the first index of `files` whose path is `path`.
pub open spec fn first_with_path(files: Seq<FileEntry>, path: Seq<char>, k: int) -> bool {
    &&& 0 <= k < files.len()
    &&& files[k].path@ == path
    &&& forall|t: int| 0 <= t < k ==> (#[trigger] files[t]).path@ != path
}

/// Some entry of `files` has path `path`.
pub open spec fn has_path(files: Seq<FileEntry>, path: Seq<char>) -> bool {
    exists|k: int| 0 <= k < files.len() && (#[trigger] files[k]).path@ == path
}

/// The text `"{i}/{n}"`.
pub open spec fn fraction_text(i: nat, n: nat) -> Seq<char> {
    decimal(i) + seq!['/'] + decimal(n)
}

/// The index after moving forward among `n` files, from the last back to
/// the first.
pub open spec fn next_index(i: int, n: int) -> int {
    if i + 1 < n {
        i + 1
    } else if n > 0 {
        0
    } else {
        i
    }
}

/// The index after moving back among `n` files, from the first round to
/// the last.
pub open spec fn prev_index(i: int, n: int) -> int {
    if i > 0 {
        i - 1
    } else if n > 0 {
        n - 1
    } else {
        i
    }
}

/// Moving back undoes moving forward, and the other way round.
pub proof fn law_prev_undoes_next(i: int, n: int)
    requires
        0 <= i < n,
    ensures
        prev_index(next_index(i, n), n) == i,
        next_index(prev_index(i, n), n) == i,
        0 <= next_index(i, n) < n,
        0 <= prev_index(i, n) < n,
{
}

/// Moving forward as many times as there are files comes back to the same
/// file.
pub proof fn law_next_cycles(i: int, n: int)
    requires
        0 <= i < n,
    ensures
        steps_forward(i, n, n as nat) == i,
{
    lemma_steps_forward(i, n, (n - i) as nat);
    lemma_steps_split(i, n, (n - i) as nat, i as nat);
    lemma_steps_forward(0, n, i as nat);
}

/// The index after `k` moves forward among `n` files.
pub open spec fn steps_forward(i: int, n: int, k: nat) -> int
    decreases k,
{
    if k == 0 {
        i
    } else {
        next_index(steps_forward(i, n, (k - 1) as nat), n)
    }
}

proof fn lemma_steps_forward(i: int, n: int, k: nat)
    requires
        0 <= i < n,
        i + k <= n,
    ensures
        steps_forward(i, n, k) == if i + k == n { 0 } else { i + k },
    decreases k,
{
    if k > 0 {
        lemma_steps_forward(i, n, (k - 1) as nat);
    }
}

proof fn lemma_steps_split(i: int, n: int, a: nat, b: nat)
    ensures
        steps_forward(i, n, a + b) == steps_forward(steps_forward(i, n, a), n, b),
    decreases b,
{
    if b > 0 {
        lemma_steps_split(i, n, a, (b - 1) as nat);
        assert((a + b - 1) as nat == a + (b - 1) as nat);
    }
}

/// Index of the first entry of `files` whose path is `path`.
pub fn position_of_path(files: &Vec<FileEntry>, path: &str) -> (r: Option<usize>)
    ensures
        match r {
            Some(k) => first_with_path(files@, path@, k as int),
            None => !has_path(files@, path@),
        },
{
    let mut k: usize = 0;
    while k < files.len()
        invariant
            k <= files.len(),
            forall|t: int| 0 <= t < k ==> (#[trigger] files@[t]).path@ != path@,
        decreases files.len() - k,
    {
        if str_eq(files[k].path.as_str(), path) {
            return Some(k);
        }
        k = k + 1;
    }
    None
}

impl Browser {
    /// The index is that of a file, or 0 when there are no files.
    pub open spec fn wf(&self) -> bool {
        self.index < self.files.len() || (self.files.len() == 0 && self.index == 0)
    }

    /// `self` holds the listing of directory `dir`, freshly scanned.
    pub open spec fn scanned_from(&self, dir: Seq<char>, entries: Seq<FileEntry>) -> bool {
        &&& self.directory matches Some(d) && d@ == dir
        &&& is_stable_sort(self.sort_mode, kept(entries), self.files@)
    }

    /// An empty browser, sorting by name.
    pub fn new() -> (b: Self)
        ensures
            b.files@.len() == 0,
            b.index == 0,
            b.directory.is_none(),
            b.sort_mode == SortMode::Name,
            b.wf(),
    {
        Browser { files: Vec::new(), index: 0, directory: None, sort_mode: SortMode::Name }
    }

    /// Opens a directory (all its viewable files, the first current) or a
    /// file (the viewable files of its directory, that file current).
    pub fn open_path(&mut self, request: OpenRequest)
        ensures
            match request {
                OpenRequest::Directory(l) => {
                    &&& final(self).scanned_from(l.dir@, l.entries@)
                    &&& final(self).index == 0
                    &&& final(self).sort_mode == old(self).sort_mode
                },
                OpenRequest::File(l, target) => {
                    &&& final(self).scanned_from(l.dir@, l.entries@)
                    &&& final(self).sort_mode == old(self).sort_mode
                    &&& if has_path(final(self).files@, target@) {
                        first_with_path(final(self).files@, target@, final(self).index as int)
                    } else {
                        final(self).index == 0
                    }
                },
                OpenRequest::Neither => *final(self) == *old(self),
            },
            final(self).wf() || (request is Neither && old(self).wf() == final(self).wf()),
    {
        match request {
            OpenRequest::Directory(l) => {
                self.scan_directory(l);
            },
            OpenRequest::File(l, target) => {
                self.scan_directory(l);
                if let Some(pos) = position_of_path(&self.files, target.as_str()) {
                    self.index = pos;
                } else {
                    proof {
                        if has_path(self.files@, target@) {
                            let k = choose|k: int| 0 <= k < self.files@.len() && (#[trigger] self.files@[k]).path@ == target@;
                            assert(self.files@[k].path@ == target@);
                        }
                    }
                }
            },
            OpenRequest::Neither => {},
        }
    }

    fn scan_directory(&mut self, listing: DirListing)
        ensures
            final(self).scanned_from(listing.dir@, listing.entries@),
            final(self).index == 0,
            final(self).sort_mode == old(self).sort_mode,
            final(self).wf(),
    {
        let DirListing { dir, entries } = listing;
        let ghost all = entries@;
        self.directory = Some(dir);
        self.index = 0;
        let mut chosen: Vec<FileEntry> = Vec::new();
        let mut rest = entries;
        let n = rest.len();
        let mut i: usize = 0;
        proof {
            assert(all.take(0) =~= Seq::<FileEntry>::empty());
            reveal_with_fuel(Seq::<_>::filter, 1);
        }
        while i < n
            invariant
                n == all.len(),
                i <= n,
                rest@ == all.skip(i as int),
                chosen@ == kept(all.take(i as int)),
            decreases n - i,
        {
            assert(rest@[0] == all[i as int]);
            let e = rest.remove(0);
            assert(rest@ =~= all.skip(i + 1));
            let keep = e.is_file && Self::is_supported(e.name.as_str());
            proof {
                assert(all.take(i + 1).drop_last() =~= all.take(i as int));
                reveal_with_fuel(Seq::<_>::filter, 1);
            }
            if keep {
                chosen.push(e);
            }
            i = i + 1;
        }
        assert(all.take(n as int) =~= all);
        self.files = stable_sort(chosen, self.sort_mode);
    }

    /// Whether the viewer opens a file of this name (by its extension).
    pub fn is_supported(name: &str) -> (r: bool)
        ensures
            r == is_supported_name(name@),
    {
        name_is_supported(name)
    }

    /// The path of the current file, if the index points at one.
    pub fn current(&self) -> (r: Option<&String>)
        ensures
            match r {
                Some(p) => self.index < self.files@.len() && p@ == self.files@[self.index as int].path@,
                None => self.index >= self.files@.len(),
            },
    {
        if self.index < self.files.len() {
            Some(&self.files[self.index].path)
        } else {
            None
        }
    }

    /// Moves to the next file, wrapping around to the first; `false` when
    /// there are no files.
    pub fn next(&mut self) -> (moved: bool)
        ensures
            final(self).files@ == old(self).files@,
            final(self).directory == old(self).directory,
            final(self).sort_mode == old(self).sort_mode,
            moved == (old(self).files@.len() > 0),
            final(self).index == next_index(old(self).index as int, old(self).files@.len() as int),
            old(self).wf() ==> final(self).wf(),
    {
        if self.files.len() == 0 {
            false
        } else if self.index < self.files.len() - 1 {
            self.index = self.index + 1;
            true
        } else {
            self.index = 0;
            true
        }
    }

    /// Moves to the previous file, wrapping around to the last; `false`
    /// when there are no files.
    pub fn prev(&mut self) -> (moved: bool)
        ensures
            final(self).files@ == old(self).files@,
            final(self).directory == old(self).directory,
            final(self).sort_mode == old(self).sort_mode,
            moved == (old(self).index > 0 || old(self).files@.len() > 0),
            final(self).index == prev_index(old(self).index as int, old(self).files@.len() as int),
            old(self).wf() ==> final(self).wf(),
    {
        if self.index > 0 {
            self.index = self.index - 1;
            true
        } else if self.files.len() > 0 {
            self.index = self.files.len() - 1;
            true
        } else {
            false
        }
    }

    /// Moves to the first file; `false` when already there or there are none.
    pub fn first(&mut self) -> (moved: bool)
        ensures
            final(self).files@ == old(self).files@,
            final(self).directory == old(self).directory,
            final(self).sort_mode == old(self).sort_mode,
            moved == (old(self).files@.len() > 0 && old(self).index != 0),
            final(self).index == if moved { 0 } else { old(self).index },
            old(self).wf() ==> final(self).wf(),
    {
        if self.files.len() > 0 && self.index != 0 {
            self.index = 0;
            true
        } else {
            false
        }
    }

    /// Moves to the last file; `false` when already there or there are none.
    pub fn last(&mut self) -> (moved: bool)
        ensures
            final(self).files@ == old(self).files@,
            final(self).directory == old(self).directory,
            final(self).sort_mode == old(self).sort_mode,
            moved == (old(self).files@.len() > 0 && old(self).index != old(self).files@.len() - 1),
            final(self).index == if moved { (old(self).files@.len() - 1) as usize } else { old(self).index },
            old(self).wf() ==> final(self).wf(),
    {
        if self.files.len() > 0 {
            let last = self.files.len() - 1;
            if self.index != last {
                self.index = last;
                return true;
            }
        }
        false
    }

    /// `"{index + 1}/{count}"`, or the empty text when there are no files.
    pub fn position_label(&self) -> (s: String)
        requires
            self.files@.len() > 0 ==> self.index < usize::MAX,
        ensures
            s@ == if self.files@.len() == 0 {
                Seq::<char>::empty()
            } else {
                fraction_text((self.index + 1) as nat, self.files@.len())
            },
    {
        let mut s = String::new();
        if self.files.len() > 0 {
            push_decimal(&mut s, (self.index + 1) as u64);
            push_char(&mut s, '/');
            push_decimal(&mut s, self.files.len() as u64);
        }
        s
    }

    /// Re-sorts the files by `mode`; the current file stays current.
    pub fn sort_by(&mut self, mode: SortMode)
        ensures
            final(self).sort_mode == mode,
            final(self).directory == old(self).directory,
            is_stable_sort(mode, old(self).files@, final(self).files@),
            old(self).index < old(self).files@.len() ==> first_with_path(
                final(self).files@,
                old(self).files@[old(self).index as int].path@,
                final(self).index as int,
            ),
            old(self).index >= old(self).files@.len() ==> final(self).index == old(self).index,
            old(self).wf() ==> final(self).wf(),
    {
        let current_file: Option<String> = match self.current() {
            Some(p) => Some(p.clone()),
            None => None,
        };
        self.sort_mode = mode;
        self.apply_sort();
        if let Some(cf) = current_file {
            if let Some(pos) = position_of_path(&self.files, cf.as_str()) {
                self.index = pos;
            } else {
                proof {
                    let old_files = old(self).files@;
                    let k0 = old(self).index as int;
                    let p = choose|p: Seq<int>| crate::sorting::sort_witness(mode, old_files, self.files@, p);
                    crate::sorting::lemma_witness_finds(mode, old_files, self.files@, p, k0);
                }
            }
        }
    }

    fn apply_sort(&mut self)
        ensures
            final(self).sort_mode == old(self).sort_mode,
            final(self).directory == old(self).directory,
            final(self).index == old(self).index,
            is_stable_sort(old(self).sort_mode, old(self).files@, final(self).files@),
            final(self).files@.len() == old(self).files@.len(),
    {
        let mut files: Vec<FileEntry> = Vec::new();
        std::mem::swap(&mut files, &mut self.files);
        self.files = stable_sort(files, self.sort_mode);
        proof {
            let p = choose|p: Seq<int>| crate::sorting::sort_witness(self.sort_mode, old(self).files@, self.files@, p);
            crate::sorting::lemma_witness_len(self.sort_mode, old(self).files@, self.files@, p);
        }
    }

    /// Drops the current file from the list; the index stays, or moves to
    /// the new last file when it fell off the end.
    pub fn remove_current(&mut self)
        requires
            old(self).files@.len() > 0 ==> old(self).index < old(self).files@.len(),
        ensures
            final(self).directory == old(self).directory,
            final(self).sort_mode == old(self).sort_mode,
            old(self).files@.len() == 0 ==> final(self).files@ == old(self).files@ && final(self).index == old(self).index,
            old(self).files@.len() > 0 ==> {
                &&& final(self).files@ == old(self).files@.remove(old(self).index as int)
                &&& final(self).index == if old(self).index >= final(self).files@.len() && final(self).files@.len() > 0 {
                    (final(self).files@.len() - 1) as usize
                } else {
                    old(self).index
                }
            },
            old(self).wf() ==> final(self).wf(),
    {
        if self.files.len() == 0 {
            return;
        }
        self.files.remove(self.index);
        if self.index >= self.files.len() && self.files.len() > 0 {
            self.index = self.files.len() - 1;
        }
    }
}

} // verus!
