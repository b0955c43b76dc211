//! The engine's model of the filesystem: a flat table from path to entry.
//! The engine decides and journals against this model; the caller keeps it in
//! step with the world it mirrors and replays the journalled mutations there.

use vstd::prelude::*;

verus! {

/// What occupies a path: a directory, a plain file, or a symbolic link with
/// its target path.
#[derive(Debug, Clone, PartialEq, Eq)]
pub enum FsEntry {
    Dir,
    File,
    Symlink { target: String },
}

/// The mathematical shape of an entry, over character sequences.
pub enum Entry {
    Dir,
    File,
    Symlink { target: Seq<char> },
}

impl View for FsEntry {
    type V = Entry;

    open spec fn view(&self) -> Entry {
        match self {
            FsEntry::Dir => Entry::Dir,
            FsEntry::File => Entry::File,
            FsEntry::Symlink { target } => Entry::Symlink { target: target@ },
        }
    }
}

/// The map an association list denotes; later entries would win, though a
/// well-formed table has no repeated keys.
pub open spec fn assoc_fs(s: Seq<(String, FsEntry)>) -> Map<Seq<char>, Entry>
    decreases s.len(),
{
    if s.len() == 0 {
        Map::empty()
    } else {
        assoc_fs(s.drop_last()).insert(s.last().0@, s.last().1@)
    }
}

/// A key of `s` is exactly a key of the denoted map.
pub proof fn lemma_assoc_fs_contains(s: Seq<(String, FsEntry)>, k: Seq<char>)
    ensures
        assoc_fs(s).contains_key(k) <==> exists|i: int| 0 <= i < s.len() && s[i].0@ == k,
    decreases s.len(),
{
    if s.len() > 0 {
        lemma_assoc_fs_contains(s.drop_last(), k);
        if s.last().0@ != k && assoc_fs(s).contains_key(k) {
            let i = choose|i: int| 0 <= i < s.drop_last().len() && s.drop_last()[i].0@ == k;
            assert(s[i].0@ == k);
        }
        if exists|i: int| 0 <= i < s.len() && s[i].0@ == k {
            let i = choose|i: int| 0 <= i < s.len() && s[i].0@ == k;
            if i < s.len() - 1 {
                assert(s.drop_last()[i].0@ == k);
            }
        }
    }
}

/// With unique keys, the denoted map looks entries up by position.
pub proof fn lemma_assoc_fs_index(s: Seq<(String, FsEntry)>, i: int)
    requires
        0 <= i < s.len(),
        forall|p: int, q: int| 0 <= p < q < s.len() ==> s[p].0@ != s[q].0@,
    ensures
        assoc_fs(s).contains_key(s[i].0@),
        assoc_fs(s)[s[i].0@] == s[i].1@,
    decreases s.len(),
{
    if i == s.len() - 1 {
    } else {
        assert(s.drop_last()[i] == s[i]);
        lemma_assoc_fs_index(s.drop_last(), i);
    }
}

/// With unique keys, removing a row removes its key from the denoted map.
pub proof fn lemma_assoc_fs_remove(s: Seq<(String, FsEntry)>, i: int)
    requires
        0 <= i < s.len(),
        forall|p: int, q: int| 0 <= p < q < s.len() ==> s[p].0@ != s[q].0@,
    ensures
        assoc_fs(s.remove(i)) =~= assoc_fs(s).remove(s[i].0@),
    decreases s.len(),
{
    if i == s.len() - 1 {
        assert(s.remove(i) =~= s.drop_last());
        lemma_assoc_fs_contains(s.drop_last(), s[i].0@);
        assert(forall|j: int| 0 <= j < s.drop_last().len() ==> s.drop_last()[j] == s[j]);
        assert(!assoc_fs(s.drop_last()).contains_key(s[i].0@));
        assert(assoc_fs(s.drop_last()).insert(s.last().0@, s.last().1@).remove(s[i].0@) =~= assoc_fs(
            s.drop_last(),
        ));
    } else {
        assert(forall|j: int| 0 <= j < s.drop_last().len() ==> s.drop_last()[j] == s[j]);
        lemma_assoc_fs_remove(s.drop_last(), i);
        assert(s.remove(i).drop_last() =~= s.drop_last().remove(i));
        assert(s.remove(i).last() == s.last());
    }
}

/// The filesystem model: an association table with unique keys.
#[derive(Debug, Clone)]
pub struct FsState {
    entries: Vec<(String, FsEntry)>,
}

impl FsState {
    /// Unique keys.
    pub closed spec fn wf(self) -> bool {
        forall|p: int, q: int|
            0 <= p < q < self.entries@.len() ==> self.entries@[p].0@ != self.entries@[q].0@
    }

    pub closed spec fn view(self) -> Map<Seq<char>, Entry> {
        assoc_fs(self.entries@)
    }

    /// An empty model: no path exists.
    pub fn new() -> (r: FsState)
        ensures
            r.wf(),
            r@ == Map::<Seq<char>, Entry>::empty(),
    {
        FsState { entries: Vec::new() }
    }

    /// Position of `path` in the table, if present.
    fn position_of(&self, path: &String) -> (r: Option<usize>)
        ensures
            match r {
                Some(i) => i < self.entries@.len() && self.entries@[i as int].0@ == path@,
                None => forall|i: int| 0 <= i < self.entries@.len() ==> self.entries@[i].0@ != path@,
            },
    {
        let n = self.entries.len();
        let mut i: usize = 0;
        while i < n
            invariant
                i <= n,
                n == self.entries@.len(),
                forall|j: int| 0 <= j < i ==> self.entries@[j].0@ != path@,
            decreases n - i,
        {
            if self.entries[i].0.eq(path) {
                return Some(i);
            }
            i = i + 1;
        }
        None
    }

    /// Whether `path` exists in the model.
    pub fn exists_path(&self, path: &String) -> (r: bool)
        ensures
            r == self@.contains_key(path@),
    {
        proof {
            lemma_assoc_fs_contains(self.entries@, path@);
        }
        match self.position_of(path) {
            Some(_) => true,
            None => false,
        }
    }

    /// The entry at `path`, if any.
    pub fn entry_at(&self, path: &String) -> (r: Option<FsEntry>)
        requires
            self.wf(),
        ensures
            match r {
                Some(e) => self@.contains_key(path@) && self@[path@] == e@,
                None => !self@.contains_key(path@),
            },
    {
        proof {
            lemma_assoc_fs_contains(self.entries@, path@);
        }
        match self.position_of(path) {
            Some(i) => {
                proof {
                    lemma_assoc_fs_index(self.entries@, i as int);
                }
                match &self.entries[i].1 {
                    FsEntry::Dir => Some(FsEntry::Dir),
                    FsEntry::File => Some(FsEntry::File),
                    FsEntry::Symlink { target } => Some(
                        FsEntry::Symlink { target: target.clone() },
                    ),
                }
            },
            None => None,
        }
    }

    /// Whether `path` exists and is a symbolic link.
    pub fn is_symlink(&self, path: &String) -> (r: bool)
        requires
            self.wf(),
        ensures
            r == (self@.contains_key(path@) && self@[path@] is Symlink),
    {
        match self.entry_at(path) {
            Some(FsEntry::Symlink { .. }) => true,
            _ => false,
        }
    }

    /// Whether `path` exists and is a directory.
    pub fn is_dir(&self, path: &String) -> (r: bool)
        requires
            self.wf(),
        ensures
            r == (self@.contains_key(path@) && self@[path@] is Dir),
    {
        match self.entry_at(path) {
            Some(FsEntry::Dir) => true,
            _ => false,
        }
    }

    /// Whether `dst` is a symbolic link whose target is exactly `src`.
    pub fn is_symlink_for(&self, dst: &String, src: &String) -> (r: bool)
        requires
            self.wf(),
        ensures
            r == (self@.contains_key(dst@) && self@[dst@] == Entry::Symlink { target: src@ }),
    {
        match self.entry_at(dst) {
            Some(FsEntry::Symlink { target }) => target.eq(src),
            _ => false,
        }
    }

    /// Removes `path` from the model, if present.
    pub fn remove_path(&mut self, path: &String)
        requires
            old(self).wf(),
        ensures
            final(self).wf(),
            final(self)@ == old(self)@.remove(path@),
    {
        proof {
            lemma_assoc_fs_contains(self.entries@, path@);
        }
        match self.position_of(path) {
            Some(i) => {
                proof {
                    lemma_assoc_fs_remove(self.entries@, i as int);
                }
                self.entries.remove(i);
                proof {
                    assert(forall|p: int, q: int|
                        0 <= p < q < self.entries@.len() ==> self.entries@[p].0@
                            != self.entries@[q].0@);
                }
            },
            None => {
                proof {
                    assert(self@ =~= self@.remove(path@));
                }
            },
        }
    }

    /// Sets the entry at `path`, replacing whatever was there.
    pub fn set_entry(&mut self, path: &String, entry: FsEntry)
        requires
            old(self).wf(),
        ensures
            final(self).wf(),
            final(self)@ == old(self)@.insert(path@, entry@),
    {
        self.remove_path(path);
        proof {
            lemma_assoc_fs_contains(self.entries@, path@);
        }
        let ghost pre = self.entries@;
        self.entries.push((path.clone(), entry));
        proof {
            assert(self.entries@.drop_last() =~= pre);
            assert(self@ =~= old(self)@.insert(path@, entry@));
        }
    }
}

} // verus!
