//! The persisted state: which destination each source of a package was
//! linked to by the last successful load, and the whole per-package table.

use vstd::prelude::*;

verus! {

/// The map an association list of string pairs denotes.
pub open spec fn assoc_pairs(s: Seq<(Seq<char>, Seq<char>)>) -> Map<Seq<char>, Seq<char>>
    decreases s.len(),
{
    if s.len() == 0 {
        Map::empty()
    } else {
        assoc_pairs(s.drop_last()).insert(s.last().0, s.last().1)
    }
}

/// A key of `s` is exactly a key of the denoted map.
pub proof fn lemma_assoc_pairs_contains(s: Seq<(Seq<char>, Seq<char>)>, k: Seq<char>)
    ensures
        assoc_pairs(s).contains_key(k) <==> exists|i: int| 0 <= i < s.len() && s[i].0 == k,
    decreases s.len(),
{
    if s.len() > 0 {
        lemma_assoc_pairs_contains(s.drop_last(), k);
        if s.last().0 != k && assoc_pairs(s).contains_key(k) {
            let i = choose|i: int| 0 <= i < s.drop_last().len() && s.drop_last()[i].0 == k;
            assert(s[i].0 == k);
        }
        if exists|i: int| 0 <= i < s.len() && s[i].0 == k {
            let i = choose|i: int| 0 <= i < s.len() && s[i].0 == k;
            if i < s.len() - 1 {
                assert(s.drop_last()[i].0 == k);
            }
        }
    }
}

/// With unique keys, the denoted map looks pairs up by position.
pub proof fn lemma_assoc_pairs_index(s: Seq<(Seq<char>, Seq<char>)>, i: int)
    requires
        0 <= i < s.len(),
        forall|p: int, q: int| 0 <= p < q < s.len() ==> s[p].0 != s[q].0,
    ensures
        assoc_pairs(s).contains_key(s[i].0),
        assoc_pairs(s)[s[i].0] == s[i].1,
    decreases s.len(),
{
    if i == s.len() - 1 {
    } else {
        assert(s.drop_last()[i] == s[i]);
        lemma_assoc_pairs_index(s.drop_last(), i);
    }
}

/// The mathematical shape of one package's trace.
pub struct PkgTraceV {
    pub directory: Seq<char>,
    pub maps: Seq<(Seq<char>, Seq<char>)>,
}

/// What one package's last successful load realized on disk: its storage
/// directory and, in load order, each source with the destination linked to
/// it.
#[derive(Debug, Clone, PartialEq, Eq)]
pub struct PkgTrace {
    pub directory: String,
    pub maps: Vec<(String, String)>,
}

impl View for PkgTrace {
    type V = PkgTraceV;

    open spec fn view(&self) -> PkgTraceV {
        PkgTraceV {
            directory: self.directory@,
            maps: self.maps@.map_values(|p: (String, String)| (p.0@, p.1@)),
        }
    }
}

impl PkgTrace {
    /// Source keys are unique.
    pub open spec fn wf(self) -> bool {
        forall|p: int, q: int| 0 <= p < q < self@.maps.len() ==> self@.maps[p].0 != self@.maps[q].0
    }

    /// The source-to-destination map this trace records.
    pub open spec fn map(self) -> Map<Seq<char>, Seq<char>> {
        assoc_pairs(self@.maps)
    }

    /// An empty trace for the given storage directory.
    pub fn new(directory: String) -> (r: PkgTrace)
        ensures
            r@.directory == directory@,
            r@.maps == Seq::<(Seq<char>, Seq<char>)>::empty(),
            r.wf(),
    {
        let r = PkgTrace { directory, maps: Vec::new() };
        proof {
            assert(r@.maps =~= Seq::<(Seq<char>, Seq<char>)>::empty());
        }
        r
    }

    /// Position of `src` among the recorded sources, if present.
    fn position_of(&self, src: &String) -> (r: Option<usize>)
        ensures
            match r {
                Some(i) => i < self@.maps.len() && self@.maps[i as int].0 == src@,
                None => forall|i: int| 0 <= i < self@.maps.len() ==> self@.maps[i].0 != src@,
            },
    {
        let n = self.maps.len();
        let mut i: usize = 0;
        while i < n
            invariant
                i <= n,
                n == self@.maps.len(),
                forall|j: int| 0 <= j < i ==> self@.maps[j].0 != src@,
            decreases n - i,
        {
            if self.maps[i].0.eq(src) {
                return Some(i);
            }
            i = i + 1;
        }
        None
    }

    /// Whether `src` is recorded.
    pub fn contains_src(&self, src: &String) -> (r: bool)
        ensures
            r == self.map().contains_key(src@),
    {
        proof {
            lemma_assoc_pairs_contains(self@.maps, src@);
        }
        match self.position_of(src) {
            Some(_) => true,
            None => false,
        }
    }

    /// The destination recorded for `src`, if any.
    pub fn get(&self, src: &String) -> (r: Option<String>)
        requires
            self.wf(),
        ensures
            match r {
                Some(d) => self.map().contains_key(src@) && self.map()[src@] == d@,
                None => !self.map().contains_key(src@),
            },
    {
        proof {
            lemma_assoc_pairs_contains(self@.maps, src@);
        }
        match self.position_of(src) {
            Some(i) => {
                proof {
                    lemma_assoc_pairs_index(self@.maps, i as int);
                }
                Some(self.maps[i].1.clone())
            },
            None => None,
        }
    }

    /// Records that `src` was linked to `dst`; `src` must be new.
    pub fn insert(&mut self, src: String, dst: String)
        requires
            old(self).wf(),
            !old(self).map().contains_key(src@),
        ensures
            final(self).wf(),
            final(self)@.directory == old(self)@.directory,
            final(self)@.maps == old(self)@.maps.push((src@, dst@)),
    {
        proof {
            lemma_assoc_pairs_contains(self@.maps, src@);
        }
        self.maps.push((src, dst));
        proof {
            assert(self@.maps =~= old(self)@.maps.push(
                (self.maps@.last().0@, self.maps@.last().1@),
            ));
        }
    }

    /// The number of recorded pairs.
    pub fn len(&self) -> (r: usize)
        ensures
            r == self@.maps.len(),
    {
        self.maps.len()
    }
}

/// The whole persisted state: one trace per loaded package, keyed by package
/// name, in insertion order.
#[derive(Debug, Clone, PartialEq, Eq)]
pub struct Trace {
    pub packages: Vec<(String, PkgTrace)>,
}

/// The mathematical shape of the whole persisted state.
pub struct TraceV {
    pub packages: Seq<(Seq<char>, PkgTraceV)>,
}

impl View for Trace {
    type V = TraceV;

    open spec fn view(&self) -> TraceV {
        TraceV { packages: self.packages@.map_values(|p: (String, PkgTrace)| (p.0@, p.1@)) }
    }
}

impl Trace {
    /// Package names are unique and each package trace is well formed.
    pub open spec fn wf(self) -> bool {
        &&& forall|p: int, q: int|
            0 <= p < q < self@.packages.len() ==> self@.packages[p].0 != self@.packages[q].0
        &&& forall|i: int|
            0 <= i < self.packages@.len() ==> (#[trigger] self.packages@[i]).1.wf()
    }

    /// An empty state: nothing is loaded.
    pub fn new() -> (r: Trace)
        ensures
            r@.packages == Seq::<(Seq<char>, PkgTraceV)>::empty(),
            r.wf(),
    {
        let r = Trace { packages: Vec::new() };
        proof {
            assert(r@.packages =~= Seq::<(Seq<char>, PkgTraceV)>::empty());
        }
        r
    }

    /// Position of package `name`, if present.
    fn position_of(&self, name: &String) -> (r: Option<usize>)
        ensures
            match r {
                Some(i) => i < self@.packages.len() && self@.packages[i as int].0 == name@,
                None => forall|i: int| 0 <= i < self@.packages.len() ==> self@.packages[i].0 != name@,
            },
    {
        let n = self.packages.len();
        let mut i: usize = 0;
        while i < n
            invariant
                i <= n,
                n == self@.packages.len(),
                forall|j: int| 0 <= j < i ==> self@.packages[j].0 != name@,
            decreases n - i,
        {
            if self.packages[i].0.eq(name) {
                return Some(i);
            }
            i = i + 1;
        }
        None
    }

    /// The trace recorded for package `name`, if any.
    pub fn get_pkg(&self, name: &String) -> (r: Option<&PkgTrace>)
        ensures
            match r {
                Some(t) => exists|i: int|
                    0 <= i < self@.packages.len() && self@.packages[i].0 == name@
                        && self@.packages[i].1 == t@,
                None => forall|i: int| 0 <= i < self@.packages.len() ==> self@.packages[i].0 != name@,
            },
            r is Some && self.wf() ==> r.unwrap().wf(),
    {
        match self.position_of(name) {
            Some(i) => {
                let t = &self.packages[i].1;
                proof {
                    assert(self@.packages[i as int].1 == t@);
                }
                Some(t)
            },
            None => None,
        }
    }

    /// Replaces or adds the trace recorded for package `name`.
    pub fn set_pkg(&mut self, name: &String, t: PkgTrace)
        requires
            old(self).wf(),
            t.wf(),
        ensures
            final(self).wf(),
            forall|k: Seq<char>|
                k != name@ ==> (#[trigger] pkg_lookup(final(self)@, k)) == pkg_lookup(old(self)@, k),
            pkg_lookup(final(self)@, name@) == Some(t@),
    {
        self.remove_pkg(name);
        let ghost mid = *self;
        self.packages.push((name.clone(), t));
        proof {
            assert(self.packages@.drop_last() =~= mid.packages@);
            assert(self@.packages =~= mid@.packages.push((name@, t@)));
            assert(self@.packages.drop_last() =~= mid@.packages);
            assert(forall|j: int|
                0 <= j < mid.packages@.len() ==> #[trigger] self.packages@[j]
                    == mid.packages@[j]);
            assert(self@.packages.last() == (name@, t@));
            assert(pkg_lookup(self@, name@) == Some(t@));
            assert forall|k: Seq<char>| k != name@ implies (#[trigger] pkg_lookup(self@, k))
                == pkg_lookup(old(self)@, k) by {
                assert(pkg_lookup(self@, k) == pkg_lookup(
                    TraceV { packages: self@.packages.drop_last() },
                    k,
                ));
                assert(TraceV { packages: self@.packages.drop_last() } == mid@);
            }
        }
    }

    /// Forgets the trace recorded for package `name`, if any.
    pub fn remove_pkg(&mut self, name: &String)
        requires
            old(self).wf(),
        ensures
            final(self).wf(),
            forall|k: Seq<char>|
                k != name@ ==> (#[trigger] pkg_lookup(final(self)@, k)) == pkg_lookup(old(self)@, k),
            pkg_lookup(final(self)@, name@) is None,
            forall|j: int|
                0 <= j < final(self)@.packages.len() ==> (#[trigger] final(self)@.packages[j]).0
                    != name@,
    {
        proof {
            lemma_pkg_lookup_at(*old(self));
        }
        match self.position_of(name) {
            Some(i) => {
                let ghost oldexec = self.packages@;
                let ghost oldview = self@.packages;
                self.packages.remove(i);
                proof {
                    oldexec.remove_ensures(i as int);
                    assert(self@.packages =~= oldview.remove(i as int));
                    oldview.remove_ensures(i as int);
                    assert forall|j: int|
                        0 <= j < self@.packages.len() implies (#[trigger] self@.packages[j]).0
                        != name@ && exists|l: int|
                        0 <= l < oldview.len() && l != i && #[trigger] oldview[l]
                            == self@.packages[j] by {
                        if j < i {
                            assert(self@.packages[j] == oldview[j]);
                        } else {
                            assert(self@.packages[j] == oldview[j + 1]);
                        }
                    }
                    assert forall|p: int, q: int|
                        0 <= p < q < self@.packages.len() implies self@.packages[p].0
                        != self@.packages[q].0 by {
                        if q < i {
                            assert(self@.packages[p] == oldview[p]);
                            assert(self@.packages[q] == oldview[q]);
                        } else if p < i {
                            assert(self@.packages[p] == oldview[p]);
                            assert(self@.packages[q] == oldview[q + 1]);
                        } else {
                            assert(self@.packages[p] == oldview[p + 1]);
                            assert(self@.packages[q] == oldview[q + 1]);
                        }
                    }
                    assert forall|j: int|
                        0 <= j < self.packages@.len() implies (#[trigger] self.packages@[j]).1.wf()
                        by {
                        if j < i {
                            assert(self.packages@[j] == oldexec[j]);
                        } else {
                            assert(self.packages@[j] == oldexec[j + 1]);
                        }
                    }
                    lemma_pkg_lookup_at(*self);
                    lemma_pkg_lookup_none(self@, name@);
                    assert forall|k: Seq<char>| k != name@ implies (#[trigger] pkg_lookup(
                        self@,
                        k,
                    )) == pkg_lookup(old(self)@, k) by {
                        lemma_assoc_key_cases(oldview, k);
                        if exists|l: int| 0 <= l < oldview.len() && (#[trigger] oldview[l]).0 == k {
                            let l = choose|l: int|
                                0 <= l < oldview.len() && (#[trigger] oldview[l]).0 == k;
                            if l < i {
                                assert(self@.packages[l] == oldview[l]);
                                assert(pkg_lookup(self@, k) == Some(self@.packages[l].1));
                            } else {
                                assert(l != i);
                                assert(self@.packages[l - 1] == oldview[l]);
                                assert(pkg_lookup(self@, k) == Some(self@.packages[l - 1].1));
                            }
                        } else {
                            lemma_pkg_lookup_none(old(self)@, k);
                            lemma_pkg_lookup_none(self@, k);
                        }
                    }
                }
            },
            None => {
                proof {
                    lemma_pkg_lookup_none(self@, name@);
                }
            },
        }
    }
}

/// Lookup by package name in the ordered table.
pub open spec fn pkg_lookup(t: TraceV, name: Seq<char>) -> Option<PkgTraceV>
    decreases t.packages.len(),
{
    if t.packages.len() == 0 {
        None
    } else if t.packages.last().0 == name {
        Some(t.packages.last().1)
    } else {
        pkg_lookup(TraceV { packages: t.packages.drop_last() }, name)
    }
}

/// With unique names, `pkg_lookup` finds exactly the positioned entry.
pub proof fn lemma_pkg_lookup_at(t: Trace)
    requires
        forall|p: int, q: int|
            0 <= p < q < t@.packages.len() ==> t@.packages[p].0 != t@.packages[q].0,
    ensures
        forall|i: int|
            0 <= i < t@.packages.len() ==> pkg_lookup(t@, (#[trigger] t@.packages[i]).0) == Some(
                t@.packages[i].1,
            ),
        forall|k: Seq<char>|
            (forall|i: int| 0 <= i < t@.packages.len() ==> (#[trigger] t@.packages[i]).0 != k)
                ==> pkg_lookup(t@, k) is None,
{
    lemma_pkg_lookup_rec(t@);
    assert forall|k: Seq<char>|
        (forall|i: int| 0 <= i < t@.packages.len() ==> (#[trigger] t@.packages[i]).0
            != k) implies pkg_lookup(t@, k) is None by {
        lemma_pkg_lookup_none(t@, k);
    }
}

/// Lookup of a name that no entry bears finds nothing.
pub proof fn lemma_pkg_lookup_none(tv: TraceV, k: Seq<char>)
    requires
        forall|i: int| 0 <= i < tv.packages.len() ==> (#[trigger] tv.packages[i]).0 != k,
    ensures
        pkg_lookup(tv, k) is None,
    decreases tv.packages.len(),
{
    if tv.packages.len() > 0 {
        let prev = TraceV { packages: tv.packages.drop_last() };
        assert(tv.packages[tv.packages.len() - 1].0 != k);
        assert(forall|i: int|
            0 <= i < prev.packages.len() ==> (#[trigger] prev.packages[i]) == tv.packages[i]);
        lemma_pkg_lookup_none(prev, k);
    }
}

/// Either some position bears the key, or none does.
proof fn lemma_assoc_key_cases(s: Seq<(Seq<char>, PkgTraceV)>, k: Seq<char>)
    ensures
        (exists|l: int| 0 <= l < s.len() && (#[trigger] s[l]).0 == k) || (forall|l: int|
            0 <= l < s.len() ==> (#[trigger] s[l]).0 != k),
{
}

proof fn lemma_pkg_lookup_rec(tv: TraceV)
    requires
        forall|p: int, q: int|
            0 <= p < q < tv.packages.len() ==> tv.packages[p].0 != tv.packages[q].0,
    ensures
        forall|i: int|
            0 <= i < tv.packages.len() ==> pkg_lookup(tv, (#[trigger] tv.packages[i]).0) == Some(
                tv.packages[i].1,
            ),
    decreases tv.packages.len(),
{
    if tv.packages.len() > 0 {
        let prev = TraceV { packages: tv.packages.drop_last() };
        lemma_pkg_lookup_rec(prev);
        assert forall|i: int|
            0 <= i < tv.packages.len() implies pkg_lookup(tv, (#[trigger] tv.packages[i]).0)
            == Some(tv.packages[i].1) by {
            if i < tv.packages.len() - 1 {
                assert(prev.packages[i] == tv.packages[i]);
                assert(tv.packages.last().0 != tv.packages[i].0);
            }
        }
    }
}

} // verus!
