//! Selecting the modules an invocation targets: explicit names, each of
//! which must be available, or all of them.

use vstd::prelude::*;

verus! {

/// A failure in resolving the targeted modules.
#[derive(Debug, PartialEq, Eq)]
pub enum CliError {
    ModuleNotFound(String),
}

/// The view of a list of strings.
pub open spec fn strs_view(v: Seq<String>) -> Seq<Seq<char>> {
    v.map_values(|s: String| s@)
}

/// The targeted modules: explicit names, or every available one.
#[derive(Debug, Clone, PartialEq, Eq)]
pub struct Modules {
    pub modules: Vec<String>,
    pub all: bool,
}

/// Whether `name` occurs in `avail`.
pub open spec fn in_list(avail: Seq<Seq<char>>, name: Seq<char>) -> bool {
    exists|i: int| 0 <= i < avail.len() && avail[i] == name
}

/// A faithful copy of a list of strings.
fn clone_strings(v: &Vec<String>) -> (r: Vec<String>)
    ensures
        strs_view(r@) == strs_view(v@),
{
    let mut r: Vec<String> = Vec::new();
    let n = v.len();
    let mut i: usize = 0;
    while i < n
        invariant
            i <= n,
            n == v@.len(),
            r@.len() == i,
            forall|j: int| 0 <= j < i ==> r@[j]@ == v@[j]@,
        decreases n - i,
    {
        r.push(v[i].clone());
        i = i + 1;
    }
    proof {
        assert(strs_view(r@) =~= strs_view(v@));
    }
    r
}

/// Whether `name` occurs in `avail`.
fn contains_string(avail: &Vec<String>, name: &String) -> (r: bool)
    ensures
        r == in_list(strs_view(avail@), name@),
{
    let n = avail.len();
    let mut i: usize = 0;
    while i < n
        invariant
            i <= n,
            n == avail@.len(),
            forall|j: int| 0 <= j < i ==> strs_view(avail@)[j] != name@,
        decreases n - i,
    {
        if avail[i].eq(name) {
            proof {
                assert(strs_view(avail@)[i as int] == name@);
            }
            return true;
        }
        i = i + 1;
    }
    false
}

impl Modules {
    /// Resolves the selection against the available module names: all of
    /// them under the all flag, otherwise the explicit names, each of
    /// which must be available; the first unavailable one is reported.
    pub fn get(&self, available: &Vec<String>) -> (r: Result<Vec<String>, CliError>)
        ensures
            match r {
                Ok(v) => if self.all {
                    strs_view(v@) == strs_view(available@)
                } else {
                    strs_view(v@) == strs_view(self.modules@) && forall|i: int|
                        0 <= i < self.modules@.len() ==> in_list(
                            strs_view(available@),
                            #[trigger] strs_view(self.modules@)[i],
                        )
                },
                Err(e) => {
                    &&& !self.all
                    &&& e matches CliError::ModuleNotFound(m)
                    &&& exists|i: int|
                        0 <= i < self.modules@.len() && #[trigger] strs_view(self.modules@)[i]
                            == m@ && !in_list(strs_view(available@), m@) && forall|j: int|
                            0 <= j < i ==> in_list(
                            strs_view(available@),
                            #[trigger] strs_view(self.modules@)[j],
                        )
                },
            },
    {
        if self.all {
            return Ok(clone_strings(available));
        }
        let n = self.modules.len();
        let mut i: usize = 0;
        while i < n
            invariant
                i <= n,
                n == self.modules@.len(),
                !self.all,
                forall|j: int|
                    0 <= j < i ==> in_list(
                        strs_view(available@),
                        #[trigger] strs_view(self.modules@)[j],
                    ),
            decreases n - i,
        {
            if !contains_string(available, &self.modules[i]) {
                let m = self.modules[i].clone();
                proof {
                    assert(strs_view(self.modules@)[i as int] == m@);
                    assert(!in_list(strs_view(available@), m@));
                    assert((i as int) < self.modules@.len() && strs_view(self.modules@)[i as int]
                        == m@ && !in_list(strs_view(available@), m@) && forall|j: int|
                        0 <= j < i as int ==> in_list(
                            strs_view(available@),
                            #[trigger] strs_view(self.modules@)[j],
                        ));
                }
                return Err(CliError::ModuleNotFound(m));
            }
            proof {
                assert(strs_view(self.modules@)[i as int] == self.modules@[i as int]@);
            }
            i = i + 1;
        }
        Ok(clone_strings(&self.modules))
    }
}

} // verus!
