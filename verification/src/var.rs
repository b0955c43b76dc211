//! The variable table and the `${NAME}` substitution it performs on
//! destination templates.

use vstd::prelude::*;
use vstd::string::StrSliceExecFns;
use vstd::string::StringExecFns;

use crate::trace::assoc_pairs;
use crate::trace::lemma_assoc_pairs_contains;
use crate::trace::lemma_assoc_pairs_index;
use crate::config::pairs_view;

verus! {

/// A failure while substituting variables in one template; positions count
/// characters from the start of the template.
#[derive(Debug, Clone, PartialEq, Eq)]
pub enum VarsParseError {
    UnclosedBrace(usize),
    EmptyVarName(usize),
    UnknowndVar(String, usize),
}

/// The shape of a substitution failure.
pub enum VarsParseErrV {
    UnclosedBrace(int),
    EmptyVarName(int),
    UnknowndVar(Seq<char>, int),
}

impl View for VarsParseError {
    type V = VarsParseErrV;

    open spec fn view(&self) -> VarsParseErrV {
        match self {
            VarsParseError::UnclosedBrace(p) => VarsParseErrV::UnclosedBrace(*p as int),
            VarsParseError::EmptyVarName(p) => VarsParseErrV::EmptyVarName(*p as int),
            VarsParseError::UnknowndVar(n, p) => VarsParseErrV::UnknowndVar(n@, *p as int),
        }
    }
}

/// A failure while building the variable table: the variable being defined
/// and what went wrong with its value.
#[derive(Debug, Clone, PartialEq, Eq)]
pub struct VarsBuildError {
    pub var: String,
    pub kind: VarsParseError,
}

/// The shape of a table-building failure.
pub struct VarsBuildErrV {
    pub var: Seq<char>,
    pub kind: VarsParseErrV,
}

impl View for VarsBuildError {
    type V = VarsBuildErrV;

    open spec fn view(&self) -> VarsBuildErrV {
        VarsBuildErrV { var: self.var@, kind: self.kind@ }
    }
}

/// An opening `${` begins at `j`.
pub open spec fn open_at(s: Seq<char>, j: int) -> bool {
    0 <= j && j + 1 < s.len() && s[j] == '$' && s[j + 1] == '{'
}

/// Position of the first `${` in `s`, or -1.
pub open spec fn find_open(s: Seq<char>) -> int
    decreases s.len(),
{
    if s.len() < 2 {
        -1
    } else if s[0] == '$' && s[1] == '{' {
        0
    } else {
        let r = find_open(s.drop_first());
        if r == -1 {
            -1
        } else {
            r + 1
        }
    }
}

/// Position of the first `}` in `s`, or -1.
pub open spec fn find_close(s: Seq<char>) -> int
    decreases s.len(),
{
    if s.len() == 0 {
        -1
    } else if s[0] == '}' {
        0
    } else {
        let r = find_close(s.drop_first());
        if r == -1 {
            -1
        } else {
            r + 1
        }
    }
}

pub proof fn lemma_find_open_bounds(s: Seq<char>)
    ensures
        find_open(s) == -1 || (0 <= find_open(s) && find_open(s) + 1 < s.len()),
    decreases s.len(),
{
    if s.len() >= 2 && !(s[0] == '$' && s[1] == '{') {
        lemma_find_open_bounds(s.drop_first());
    }
}

pub proof fn lemma_find_close_bounds(s: Seq<char>)
    ensures
        find_close(s) == -1 || 0 <= find_close(s) < s.len(),
    decreases s.len(),
{
    if s.len() > 0 && s[0] != '}' {
        lemma_find_close_bounds(s.drop_first());
    }
}

proof fn lemma_find_open_at(s: Seq<char>, i: int)
    requires
        open_at(s, i),
        forall|j: int| 0 <= j < i ==> !open_at(s, j),
    ensures
        find_open(s) == i,
    decreases i,
{
    if i == 0 {
    } else {
        assert(!open_at(s, 0));
        assert(open_at(s.drop_first(), i - 1));
        assert forall|j: int| 0 <= j < i - 1 implies !open_at(s.drop_first(), j) by {
            assert(!open_at(s, j + 1));
        }
        lemma_find_open_at(s.drop_first(), i - 1);
    }
}

proof fn lemma_find_open_none(s: Seq<char>)
    requires
        forall|j: int| !open_at(s, j),
    ensures
        find_open(s) == -1,
    decreases s.len(),
{
    if s.len() >= 2 {
        assert(!open_at(s, 0));
        assert forall|j: int| !open_at(s.drop_first(), j) by {
            if 0 <= j {
                assert(!open_at(s, j + 1));
            }
        }
        lemma_find_open_none(s.drop_first());
    }
}

proof fn lemma_find_close_at(s: Seq<char>, i: int)
    requires
        0 <= i < s.len(),
        s[i] == '}',
        forall|j: int| 0 <= j < i ==> s[j] != '}',
    ensures
        find_close(s) == i,
    decreases i,
{
    if i > 0 {
        lemma_find_close_at(s.drop_first(), i - 1);
    }
}

proof fn lemma_find_close_none(s: Seq<char>)
    requires
        forall|j: int| 0 <= j < s.len() ==> s[j] != '}',
    ensures
        find_close(s) == -1,
    decreases s.len(),
{
    if s.len() > 0 {
        lemma_find_close_none(s.drop_first());
    }
}

/// The substituted text: each `${NAME}` replaced by the table's value for
/// NAME, or the first failure, with positions counted from `pos`.
pub open spec fn spec_subst(
    m: Map<Seq<char>, Seq<char>>,
    s: Seq<char>,
    pos: int,
) -> Result<Seq<char>, VarsParseErrV>
    decreases s.len(),
    via spec_subst_decreases
{
    let i = find_open(s);
    if i == -1 {
        Ok(s)
    } else {
        let after = s.skip(i + 2);
        let j = find_close(after);
        if j == -1 {
            Err(VarsParseErrV::UnclosedBrace(pos + i))
        } else if j == 0 {
            Err(VarsParseErrV::EmptyVarName(pos + i))
        } else {
            let name = after.take(j);
            if !m.contains_key(name) {
                Err(VarsParseErrV::UnknowndVar(name, pos + i))
            } else {
                match spec_subst(m, after.skip(j + 1), pos + i + 2 + j + 1) {
                    Ok(rest) => Ok(s.take(i) + m[name] + rest),
                    Err(e) => Err(e),
                }
            }
        }
    }
}

#[via_fn]
proof fn spec_subst_decreases(m: Map<Seq<char>, Seq<char>>, s: Seq<char>, pos: int) {
    lemma_find_open_bounds(s);
    if find_open(s) != -1 {
        lemma_find_close_bounds(s.skip(find_open(s) + 2));
    }
}

/// Builds the table from an ordered list of definitions: each value is
/// substituted against the table built so far, then bound to its name.
pub open spec fn build_vars(
    m: Map<Seq<char>, Seq<char>>,
    vars: Seq<(Seq<char>, Seq<char>)>,
) -> Result<Map<Seq<char>, Seq<char>>, VarsBuildErrV>
    decreases vars.len(),
{
    if vars.len() == 0 {
        Ok(m)
    } else {
        match spec_subst(m, vars[0].1, 0) {
            Err(e) => Err(VarsBuildErrV { var: vars[0].0, kind: e }),
            Ok(v) => build_vars(m.insert(vars[0].0, v), vars.drop_first()),
        }
    }
}

/// The variable table: names bound to fully substituted values.
#[derive(Debug, Clone, PartialEq, Eq)]
pub struct VarMap {
    map: Vec<(String, String)>,
}

impl VarMap {
    /// Names are unique.
    pub closed spec fn wf(self) -> bool {
        forall|p: int, q: int|
            0 <= p < q < pairs_view(self.map@).len() ==> pairs_view(self.map@)[p].0 != pairs_view(
                self.map@,
            )[q].0
    }

    /// The binding this table denotes.
    pub closed spec fn map_spec(self) -> Map<Seq<char>, Seq<char>> {
        assoc_pairs(pairs_view(self.map@))
    }

    /// An empty table.
    pub fn empty() -> (r: VarMap)
        ensures
            r.wf(),
            r.map_spec() == Map::<Seq<char>, Seq<char>>::empty(),
    {
        let r = VarMap { map: Vec::new() };
        proof {
            assert(pairs_view(r.map@) =~= Seq::<(Seq<char>, Seq<char>)>::empty());
        }
        r
    }

    /// Builds a table from scratch.  The caller supplies every definition,
    /// any ambient defaults included.
    pub fn try_new(vars: &Vec<(String, String)>) -> (r: Result<VarMap, VarsBuildError>)
        ensures
            match r {
                Ok(v) => v.wf() && build_vars(Map::empty(), pairs_view(vars@)) == Ok::<
                    _,
                    VarsBuildErrV,
                >(v.map_spec()),
                Err(e) => build_vars(Map::empty(), pairs_view(vars@)) == Err::<
                    Map<Seq<char>, Seq<char>>,
                    _,
                >(e@),
            },
    {
        let mut ret = VarMap::empty();
        match ret.extends(vars) {
            Ok(()) => Ok(ret),
            Err(e) => Err(e),
        }
    }

    /// Adds every definition of `vars`, in order, to this table.  On
    /// failure the definitions before the failing one are retained: the
    /// table equals the build of that prefix, against which the failing
    /// value did not substitute.
    pub fn extends(&mut self, vars: &Vec<(String, String)>) -> (r: Result<(), VarsBuildError>)
        requires
            old(self).wf(),
        ensures
            final(self).wf(),
            match r {
                Ok(()) => build_vars(old(self).map_spec(), pairs_view(vars@)) == Ok::<
                    _,
                    VarsBuildErrV,
                >(final(self).map_spec()),
                Err(e) => {
                    &&& build_vars(old(self).map_spec(), pairs_view(vars@)) == Err::<
                        Map<Seq<char>, Seq<char>>,
                        _,
                    >(e@)
                    &&& exists|i: int|
                        {
                            &&& 0 <= i < pairs_view(vars@).len()
                            &&& (#[trigger] pairs_view(vars@)[i]).0 == e@.var
                            &&& build_vars(old(self).map_spec(), pairs_view(vars@).take(i))
                                == Ok::<_, VarsBuildErrV>(final(self).map_spec())
                            &&& spec_subst(final(self).map_spec(), pairs_view(vars@)[i].1, 0)
                                == Err::<Seq<char>, _>(e@.kind)
                        }
                },
            },
    {
        let n = vars.len();
        let mut i: usize = 0;
        proof {
            lemma_build_vars_split(old(self).map_spec(), pairs_view(vars@), 0);
        }
        while i < n
            invariant
                i <= n,
                n == vars@.len(),
                self.wf(),
                build_vars(old(self).map_spec(), pairs_view(vars@).take(i as int)) == Ok::<
                    _,
                    VarsBuildErrV,
                >(self.map_spec()),
            decreases n - i,
        {
            proof {
                lemma_build_vars_split(old(self).map_spec(), pairs_view(vars@), i as int);
            }
            match self.add_var(&vars[i].0, &vars[i].1) {
                Ok(()) => {
                },
                Err(e) => {
                    proof {
                        assert(pairs_view(vars@).skip(i as int)[0] == (vars@[i as int].0@, vars@[
                            i as int].1@));
                        assert((i as int) < pairs_view(vars@).len() && pairs_view(vars@)[i as int].0
                            == e@.var && build_vars(
                            old(self).map_spec(),
                            pairs_view(vars@).take(i as int),
                        ) == Ok::<_, VarsBuildErrV>(self.map_spec()) && spec_subst(
                            self.map_spec(),
                            pairs_view(vars@)[i as int].1,
                            0,
                        ) == Err::<Seq<char>, _>(e@.kind));
                    }
                    return Err(e);
                },
            }
            proof {
                assert(pairs_view(vars@).skip(i as int)[0] == (vars@[i as int].0@, vars@[
                    i as int].1@));
                assert(pairs_view(vars@).take(i + 1) =~= pairs_view(vars@).take(i as int).push(
                    (vars@[i as int].0@, vars@[i as int].1@),
                ));
                lemma_build_vars_snoc(old(self).map_spec(), pairs_view(vars@).take(i as int), (
                    vars@[i as int].0@,
                    vars@[i as int].1@,
                ));
            }
            i = i + 1;
        }
        proof {
            assert(pairs_view(vars@).take(n as int) =~= pairs_view(vars@));
        }
        Ok(())
    }

    /// Substitutes `value` against the table so far, then binds `var` to the
    /// result.
    fn add_var(&mut self, var: &String, value: &String) -> (r: Result<(), VarsBuildError>)
        requires
            old(self).wf(),
        ensures
            final(self).wf(),
            match r {
                Ok(()) => spec_subst(old(self).map_spec(), value@, 0) matches Ok(v)
                    && final(self).map_spec() == old(self).map_spec().insert(var@, v),
                Err(e) => {
                    &&& e@.var == var@
                    &&& spec_subst(old(self).map_spec(), value@, 0) == Err::<Seq<char>, _>(e@.kind)
                    &&& *final(self) == *old(self)
                },
            },
    {
        let parsed = match self.parse(value) {
            Ok(v) => v,
            Err(kind) => {
                return Err(VarsBuildError { var: var.clone(), kind });
            },
        };
        self.insert_binding(var, &parsed);
        Ok(())
    }

    /// Binds `var` to `value`, replacing any earlier binding.
    fn insert_binding(&mut self, var: &String, value: &String)
        requires
            old(self).wf(),
        ensures
            final(self).wf(),
            final(self).map_spec() == old(self).map_spec().insert(var@, value@),
    {
        let n = self.map.len();
        let mut i: usize = 0;
        while i < n
            invariant
                i <= n,
                n == self.map@.len(),
                *self == *old(self),
                old(self).wf(),
                forall|j: int| 0 <= j < i ==> pairs_view(self.map@)[j].0 != var@,
            decreases n - i,
        {
            if self.map[i].0.eq(var) {
                let ghost oldpairs = pairs_view(self.map@);
                proof {
                    assert(oldpairs == pairs_view(old(self).map@));
                    assert forall|p: int, q: int|
                        0 <= p < q < oldpairs.len() implies oldpairs[p].0 != oldpairs[q].0 by {
                        assert(pairs_view(old(self).map@)[p] == oldpairs[p]);
                        assert(pairs_view(old(self).map@)[q] == oldpairs[q]);
                    }
                    assert(oldpairs[i as int].0 == var@);
                }
                self.map.remove(i);
                self.map.insert(i, (var.clone(), value.clone()));
                proof {
                    assert(pairs_view(self.map@) =~= oldpairs.update(i as int, (var@, value@)));
                    assert(pairs_view(self.map@) =~= oldpairs.update(
                        i as int,
                        (oldpairs[i as int].0, value@),
                    ));
                    lemma_assoc_update(oldpairs, i as int, value@);
                    assert forall|p: int, q: int|
                        0 <= p < q < pairs_view(self.map@).len() implies pairs_view(
                        self.map@,
                    )[p].0 != pairs_view(self.map@)[q].0 by {
                        assert(pairs_view(self.map@)[p].0 == oldpairs[p].0);
                        assert(pairs_view(self.map@)[q].0 == oldpairs[q].0);
                    }
                }
                return ;
            }
            i = i + 1;
        }
        let ghost oldpairs = pairs_view(self.map@);
        self.map.push((var.clone(), value.clone()));
        proof {
            assert(pairs_view(self.map@) =~= oldpairs.push((var@, value@)));
            assert(pairs_view(self.map@).drop_last() =~= oldpairs);
            assert(pairs_view(self.map@).last() == (var@, value@));
            lemma_assoc_pairs_contains(oldpairs, var@);
            assert(forall|j: int| 0 <= j < oldpairs.len() ==> #[trigger] oldpairs[j].0 != var@);
            assert forall|p: int, q: int|
                0 <= p < q < pairs_view(self.map@).len() implies pairs_view(self.map@)[p].0
                != pairs_view(self.map@)[q].0 by {
                if q < oldpairs.len() {
                    assert(pairs_view(self.map@)[p].0 == oldpairs[p].0);
                    assert(pairs_view(self.map@)[q].0 == oldpairs[q].0);
                } else {
                    assert(pairs_view(self.map@)[p].0 == oldpairs[p].0);
                    assert(pairs_view(self.map@)[q].0 == var@);
                }
            }
        }
    }

    /// The bindings, name-value pairs in table order.
    pub fn map(&self) -> (r: &Vec<(String, String)>)
        ensures
            assoc_pairs(pairs_view(r@)) == self.map_spec(),
    {
        &self.map
    }

    /// The value bound to `name`, if any.
    fn get(&self, name: &String) -> (r: Option<String>)
        requires
            self.wf(),
        ensures
            match r {
                Some(v) => self.map_spec().contains_key(name@) && self.map_spec()[name@] == v@,
                None => !self.map_spec().contains_key(name@),
            },
    {
        proof {
            lemma_assoc_pairs_contains(pairs_view(self.map@), name@);
        }
        let n = self.map.len();
        let mut i: usize = 0;
        while i < n
            invariant
                i <= n,
                n == self.map@.len(),
                self.wf(),
                forall|j: int| 0 <= j < i ==> pairs_view(self.map@)[j].0 != name@,
            decreases n - i,
        {
            if self.map[i].0.eq(name) {
                proof {
                    assert(pairs_view(self.map@)[i as int].0 == name@);
                    lemma_assoc_pairs_index(pairs_view(self.map@), i as int);
                }
                return Some(self.map[i].1.clone());
            }
            i = i + 1;
        }
        None
    }

    /// Substitutes every `${NAME}` in `input` against this table.
    pub fn parse(&self, input: &String) -> (r: Result<String, VarsParseError>)
        requires
            self.wf(),
        ensures
            match r {
                Ok(s) => spec_subst(self.map_spec(), input@, 0) == Ok::<_, VarsParseErrV>(s@),
                Err(e) => spec_subst(self.map_spec(), input@, 0) == Err::<Seq<char>, _>(e@),
            },
    {
        let n = input.as_str().unicode_len();
        self.subst_rec(input.as_str(), 0)
    }

    /// One recursion step of the substitution, `pos` characters already
    /// consumed.
    fn subst_rec(&self, s: &str, pos: usize) -> (r: Result<String, VarsParseError>)
        requires
            self.wf(),
            pos + s@.len() <= usize::MAX,
        ensures
            match r {
                Ok(t) => spec_subst(self.map_spec(), s@, pos as int) == Ok::<_, VarsParseErrV>(t@),
                Err(e) => spec_subst(self.map_spec(), s@, pos as int) == Err::<Seq<char>, _>(e@),
            },
        decreases s@.len(),
    {
        let n = s.unicode_len();
        let i = match find_open_exec(s, n) {
            None => {
                return Ok(String::from_str(s));
            },
            Some(i) => i,
        };
        let after_start = i + 2;
        let k = match find_close_exec(s, n, after_start) {
            None => {
                return Err(VarsParseError::UnclosedBrace(pos + i));
            },
            Some(k) => k,
        };
        if k == after_start {
            return Err(VarsParseError::EmptyVarName(pos + i));
        }
        let name = String::from_str(s.substring_char(after_start, k));
        proof {
            assert(name@ =~= s@.skip(i + 2).take(k - i - 2));
        }
        let value = match self.get(&name) {
            None => {
                return Err(VarsParseError::UnknowndVar(name, pos + i));
            },
            Some(v) => v,
        };
        proof {
            let ghost after = s@.skip(i + 2);
            assert(after.skip(k - i - 2 + 1) =~= s@.skip(k + 1));
            assert(pos + i + 2 + (k - i - 2) + 1 == pos + k + 1);
        }
        let rest = match self.subst_rec(s.substring_char(k + 1, n), pos + k + 1) {
            Ok(t) => t,
            Err(e) => {
                return Err(e);
            },
        };
        let out = String::from_str(s.substring_char(0, i)).concat(value.as_str()).concat(
            rest.as_str(),
        );
        proof {
            assert(out@ == s@.take(i as int) + self.map_spec()[name@] + rest@);
        }
        Ok(out)
    }
}

/// Finds the first `${` in `s`; `n` is the character length of `s`.
fn find_open_exec(s: &str, n: usize) -> (r: Option<usize>)
    requires
        n == s@.len(),
    ensures
        match r {
            Some(i) => find_open(s@) == i && i + 1 < s@.len(),
            None => find_open(s@) == -1,
        },
{
    if n < 2 {
        proof {
            lemma_find_open_none(s@);
        }
        return None;
    }
    let mut i: usize = 0;
    while i + 1 < n
        invariant
            n == s@.len(),
            i < n,
            forall|j: int| 0 <= j < i ==> !open_at(s@, j),
        decreases n - i,
    {
        if s.get_char(i) == '$' && s.get_char(i + 1) == '{' {
            proof {
                lemma_find_open_at(s@, i as int);
            }
            return Some(i);
        }
        i = i + 1;
    }
    proof {
        assert forall|j: int| !open_at(s@, j) by {
            if 0 <= j && j + 1 < s@.len() {
                assert(j < i);
            }
        }
        lemma_find_open_none(s@);
    }
    None
}

/// Finds the first `}` at or after `from`; the result is an absolute
/// position; the specification speaks of the suffix.
fn find_close_exec(s: &str, n: usize, from: usize) -> (r: Option<usize>)
    requires
        n == s@.len(),
        from <= n,
    ensures
        match r {
            Some(k) => from <= k < s@.len() && find_close(s@.skip(from as int)) == k - from,
            None => find_close(s@.skip(from as int)) == -1,
        },
{
    let ghost t = s@.skip(from as int);
    let mut k = from;
    while k < n
        invariant
            n == s@.len(),
            from <= k <= n,
            t == s@.skip(from as int),
            forall|l: int| 0 <= l < k - from ==> t[l] != '}',
        decreases n - k,
    {
        if s.get_char(k) == '}' {
            proof {
                assert(t[k - from] == s@[k as int]);
                lemma_find_close_at(t, k - from);
            }
            return Some(k);
        }
        proof {
            assert(t[k - from] == s@[k as int]);
        }
        k = k + 1;
    }
    proof {
        lemma_find_close_none(t);
    }
    None
}

/// With unique keys, updating the pair at a key's position updates the
/// denoted map at that key.
proof fn lemma_assoc_update(s: Seq<(Seq<char>, Seq<char>)>, i: int, v: Seq<char>)
    requires
        0 <= i < s.len(),
        forall|p: int, q: int| 0 <= p < q < s.len() ==> s[p].0 != s[q].0,
    ensures
        assoc_pairs(s.update(i, (s[i].0, v))) =~= assoc_pairs(s).insert(s[i].0, v),
    decreases s.len(),
{
    let t = s.update(i, (s[i].0, v));
    if i == s.len() - 1 {
        assert(t.drop_last() =~= s.drop_last());
        assert(t.last() == (s[i].0, v));
    } else {
        assert(t.last() == s.last());
        assert(t.drop_last() =~= s.drop_last().update(i, (s[i].0, v)));
        assert(s.drop_last()[i] == s[i]);
        lemma_assoc_update(s.drop_last(), i, v);
        assert(s.last().0 != s[i].0);
    }
}

/// `build_vars` over a prefix then the remainder equals `build_vars` whole.
pub proof fn lemma_build_vars_split(
    m: Map<Seq<char>, Seq<char>>,
    vars: Seq<(Seq<char>, Seq<char>)>,
    i: int,
)
    requires
        0 <= i <= vars.len(),
    ensures
        build_vars(m, vars) == ({
            match build_vars(m, vars.take(i)) {
                Err(e) => Err::<Map<Seq<char>, Seq<char>>, VarsBuildErrV>(e),
                Ok(m1) => build_vars(m1, vars.skip(i)),
            }
        }),
    decreases i,
{
    if i == 0 {
        assert(vars.take(0) =~= Seq::<(Seq<char>, Seq<char>)>::empty());
        assert(vars.skip(0) =~= vars);
    } else {
        assert(vars.take(i)[0] == vars[0]);
        assert(vars.len() > 0);
        match spec_subst(m, vars[0].1, 0) {
            Err(e) => {
                assert(build_vars(m, vars.take(i)) == Err::<Map<Seq<char>, Seq<char>>,
                    VarsBuildErrV,
                >(VarsBuildErrV { var: vars[0].0, kind: e }));
            },
            Ok(v) => {
                let m0 = m.insert(vars[0].0, v);
                assert(vars.take(i).drop_first() =~= vars.drop_first().take(i - 1));
                assert(vars.skip(i) =~= vars.drop_first().skip(i - 1));
                lemma_build_vars_split(m0, vars.drop_first(), i - 1);
            },
        }
    }
}

/// One more definition extends the built table by one step.
pub proof fn lemma_build_vars_snoc(
    m: Map<Seq<char>, Seq<char>>,
    vars: Seq<(Seq<char>, Seq<char>)>,
    p: (Seq<char>, Seq<char>),
)
    ensures
        build_vars(m, vars.push(p)) == ({
            match build_vars(m, vars) {
                Err(e) => Err::<Map<Seq<char>, Seq<char>>, VarsBuildErrV>(e),
                Ok(m1) => match spec_subst(m1, p.1, 0) {
                    Err(e) => Err(VarsBuildErrV { var: p.0, kind: e }),
                    Ok(v) => Ok(m1.insert(p.0, v)),
                },
            }
        }),
{
    lemma_build_vars_split(m, vars.push(p), vars.len() as int);
    assert(vars.push(p).take(vars.len() as int) =~= vars);
    let rest = vars.push(p).skip(vars.len() as int);
    assert(rest =~= seq![p]);
    match build_vars(m, vars) {
        Err(e) => {
        },
        Ok(m1) => {
            assert(rest[0] == p);
            assert(rest.drop_first() =~= Seq::<(Seq<char>, Seq<char>)>::empty());
            match spec_subst(m1, p.1, 0) {
                Err(e) => {
                },
                Ok(v) => {
                    assert(build_vars(m1.insert(p.0, v), rest.drop_first()) == Ok::<
                        _,
                        VarsBuildErrV,
                    >(m1.insert(p.0, v)));
                },
            }
        },
    }
}

} // verus!
