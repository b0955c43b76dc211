//! The runner: one engine instance owning the working directory, the
//! filesystem model, and the journal, with the operations the caller
//! drives: load a package, unload one, roll the last operation back, and
//! keep the working subdirectory in order.

use vstd::prelude::*;

use crate::config::NamedPackage;
use crate::engine;
use crate::engine::load_spec;
use crate::engine::prior_view;
use crate::engine::unload_steps;
use crate::errors::IoError;
use crate::errors::RunnerErrV;
use crate::errors::RunnerError;
use crate::fs_state::FsEntry;
use crate::fs_state::FsState;
use crate::logger::Logger;
use crate::logger::LoggerOutput;
use crate::message::Action;
use crate::message::LogMessage;
use crate::meta::pkgs_dir_name;
use crate::meta::spec_pkgs_dir_name;
use crate::ops;
use crate::path::join_path;
use crate::path::is_absolute;
use crate::path::spec_is_absolute;
use crate::path::spec_join;
use crate::semantics::FsMap;
use crate::semantics::last_run_start;
use crate::semantics::lemma_last_run_start_props;
use crate::semantics::lemma_last_run_skip_mutations;
use crate::trace::PkgTrace;

verus! {

/// What undoing one journalled mutation does: the inverse primitive's
/// checks, its journal entry, and its effect on the model.
pub open spec fn undo_one(fs: FsMap, a: Action) -> (Result<(), ()>, Seq<Action>, FsMap) {
    match a {
        Action::CreateDir(p) => if fs.contains_key(p) && fs[p] is Dir {
            (Ok(()), seq![Action::RemoveDir(p)], fs.remove(p))
        } else {
            (Err(()), Seq::empty(), fs)
        },
        Action::CreateSymlink { src, dst } => if fs.contains_key(dst) && !(fs[dst] is Dir) {
            (Ok(()), seq![Action::RemoveSymlink { src, dst }], fs.remove(dst))
        } else {
            (Err(()), Seq::empty(), fs)
        },
        Action::RemoveDir(p) => if !fs.contains_key(p) {
            (Ok(()), seq![Action::CreateDir(p)], fs.insert(p, crate::fs_state::Entry::Dir))
        } else if fs[p] is Dir {
            (Ok(()), Seq::empty(), fs)
        } else {
            (Err(()), Seq::empty(), fs)
        },
        Action::RemoveSymlink { src, dst } => if fs.contains_key(src) && !fs.contains_key(dst) {
            (
                Ok(()),
                seq![Action::CreateSymlink { src, dst }],
                fs.insert(dst, crate::fs_state::Entry::Symlink { target: src }),
            )
        } else {
            (Err(()), Seq::empty(), fs)
        },
        _ => (Err(()), Seq::empty(), fs),
    }
}

/// Undoing a run's entries in reverse order, stopping at the first refused
/// inverse.
pub open spec fn undo_steps(fs: FsMap, tail: Seq<Action>) -> (Result<(), ()>, Seq<Action>, FsMap)
    decreases tail.len(),
{
    if tail.len() == 0 {
        (Ok(()), Seq::empty(), fs)
    } else {
        let rest = undo_steps(fs, tail.drop_first());
        if rest.0 is Err {
            rest
        } else {
            let one = undo_one(rest.2, tail[0]);
            (one.0, rest.1 + one.1, one.2)
        }
    }
}

/// The marker that a rollback writes for the operation it undoes.
pub open spec fn rollback_marker(a: Action) -> Action {
    match a {
        Action::LoadModule(m) => Action::RollbackLoadModule(m),
        Action::UnloadModule(m) => Action::RollbackUnloadModule(m),
        _ => a,
    }
}

/// Once an inverse is refused, undoing the earlier entries changes nothing
/// more.
pub proof fn lemma_undo_steps_err_persists(fs: FsMap, tail: Seq<Action>, k: int)
    requires
        0 <= k <= tail.len(),
        undo_steps(fs, tail.skip(k)).0 is Err,
    ensures
        undo_steps(fs, tail) == undo_steps(fs, tail.skip(k)),
    decreases k,
{
    if k > 0 {
        assert(tail.skip(k - 1).drop_first() =~= tail.skip(k));
        lemma_undo_steps_err_persists(fs, tail, k - 1);
    } else {
        assert(tail.skip(0) =~= tail);
    }
}

/// A faithful copy of one journal entry.
fn clone_message(m: &LogMessage) -> (r: LogMessage)
    ensures
        r@ == m@,
{
    match m {
        LogMessage::LoadModule(s) => LogMessage::LoadModule(s.clone()),
        LogMessage::UnloadModule(s) => LogMessage::UnloadModule(s.clone()),
        LogMessage::RollbackLoadModule(s) => LogMessage::RollbackLoadModule(s.clone()),
        LogMessage::RollbackUnloadModule(s) => LogMessage::RollbackUnloadModule(s.clone()),
        LogMessage::CreateDir(p) => LogMessage::CreateDir(p.clone()),
        LogMessage::CreateSymlink { src, dst } => LogMessage::CreateSymlink {
            src: src.clone(),
            dst: dst.clone(),
        },
        LogMessage::RemoveDir(p) => LogMessage::RemoveDir(p.clone()),
        LogMessage::RemoveSymlink { src, dst } => LogMessage::RemoveSymlink {
            src: src.clone(),
            dst: dst.clone(),
        },
    }
}

/// The start of the most recent eligible run among the journalled
/// messages: the last load or unload marker, unless a rollback marker comes
/// later or no marker exists.
fn find_marker(msgs: &Vec<LogMessage>) -> (r: Option<usize>)
    ensures
        ({
            let jv = msgs@.map_values(|m: LogMessage| m@);
            match r {
                Some(i) => i < msgs@.len() && last_run_start(jv) == Some(i as int),
                None => last_run_start(jv) is None,
            }
        }),
{
    let ghost jv = msgs@.map_values(|m: LogMessage| m@);
    let n = msgs.len();
    let mut idx = n;
    while idx > 0
        invariant
            idx <= n,
            n == msgs@.len(),
            jv == msgs@.map_values(|m: LogMessage| m@),
            forall|j: int| idx <= j < n ==> (#[trigger] jv[j]).is_mutation(),
        decreases idx,
    {
        idx = idx - 1;
        match &msgs[idx] {
            LogMessage::LoadModule(_) => {
                proof {
                    lemma_last_run_skip_mutations(jv, idx as int + 1);
                    assert(jv.take(idx as int + 1).last() == jv[idx as int]);
                }
                return Some(idx);
            },
            LogMessage::UnloadModule(_) => {
                proof {
                    lemma_last_run_skip_mutations(jv, idx as int + 1);
                    assert(jv.take(idx as int + 1).last() == jv[idx as int]);
                }
                return Some(idx);
            },
            LogMessage::RollbackLoadModule(_) => {
                proof {
                    lemma_last_run_skip_mutations(jv, idx as int + 1);
                    assert(jv.take(idx as int + 1).last() == jv[idx as int]);
                }
                return None;
            },
            LogMessage::RollbackUnloadModule(_) => {
                proof {
                    lemma_last_run_skip_mutations(jv, idx as int + 1);
                    assert(jv.take(idx as int + 1).last() == jv[idx as int]);
                }
                return None;
            },
            _ => {
                proof {
                    assert(jv[idx as int] == msgs@[idx as int]@);
                }
            },
        }
    }
    proof {
        lemma_last_run_skip_mutations(jv, 0);
        assert(jv.take(0) =~= Seq::<Action>::empty());
    }
    None
}

/// The reconciliation engine's working state: an absolute working
/// directory, the filesystem model, and the journal.
pub struct Runner<O: LoggerOutput> {
    cwd: String,
    fs: FsState,
    logger: Logger<O>,
}

impl<O: LoggerOutput> Runner<O> {
    /// The filesystem model.
    pub closed spec fn fs_map(self) -> FsMap {
        self.fs@
    }

    /// The journal so far.
    pub closed spec fn journal(self) -> Seq<Action> {
        self.logger@
    }

    /// The working directory.
    pub closed spec fn cwd_spec(self) -> Seq<char> {
        self.cwd@
    }

    pub closed spec fn wf(self) -> bool {
        self.fs.wf()
    }

    /// A fresh runner over an absolute working directory and a filesystem
    /// model the caller has prepared.
    pub fn new(cwd: String, fs: FsState, output: O) -> (r: Runner<O>)
        requires
            spec_is_absolute(cwd@),
            fs.wf(),
        ensures
            r.wf(),
            r.cwd_spec() == cwd@,
            r.fs_map() == fs@,
            r.journal() == Seq::<Action>::empty(),
    {
        Runner { cwd, fs, logger: Logger::new(output) }
    }

    /// The journal's entries, oldest first.
    pub fn messages(&self) -> (r: &Vec<LogMessage>)
        ensures
            r@.len() == self.journal().len(),
            forall|i: int| 0 <= i < r@.len() ==> r@[i]@ == self.journal()[i],
    {
        self.logger.messages()
    }

    /// The filesystem model as the runner sees it.
    pub fn fs_state(&self) -> (r: &FsState)
        ensures
            r@ == self.fs_map(),
    {
        &self.fs
    }

    /// Notes that `path` now holds `entry`: the caller keeps the model in
    /// step with the world outside.
    pub fn note_entry(&mut self, path: &String, entry: FsEntry)
        requires
            old(self).wf(),
        ensures
            final(self).wf(),
            final(self).fs_map() == old(self).fs_map().insert(path@, entry@),
            final(self).journal() == old(self).journal(),
            final(self).cwd_spec() == old(self).cwd_spec(),
    {
        self.fs.set_entry(path, entry);
    }

    /// Notes that nothing exists at `path` any more.
    pub fn note_absent(&mut self, path: &String)
        requires
            old(self).wf(),
        ensures
            final(self).wf(),
            final(self).fs_map() == old(self).fs_map().remove(path@),
            final(self).journal() == old(self).journal(),
            final(self).cwd_spec() == old(self).cwd_spec(),
    {
        self.fs.remove_path(path);
    }

    /// `path` itself when absolute, otherwise `path` under the working
    /// directory.
    pub fn absolute_path_from(&self, path: &String) -> (r: String)
        ensures
            r@ == if spec_is_absolute(path@) {
                path@
            } else {
                spec_join(self.cwd_spec(), path@)
            },
    {
        if is_absolute(path) {
            path.clone()
        } else {
            join_path(&self.cwd, path)
        }
    }

    /// Creates directory `path` in the model and journals it; see the
    /// primitive's conditions.
    pub fn create_dir(&mut self, path: &String) -> (r: Result<(), IoError>)
        requires
            old(self).wf(),
        ensures
            final(self).wf(),
            final(self).cwd_spec() == old(self).cwd_spec(),
            match r {
                Ok(()) => if !old(self).fs_map().contains_key(path@) {
                    final(self).fs_map() == old(self).fs_map().insert(
                        path@,
                        crate::fs_state::Entry::Dir,
                    ) && final(self).journal() == old(self).journal().push(
                        Action::CreateDir(path@),
                    )
                } else {
                    old(self).fs_map()[path@] is Dir && final(self).fs_map() == old(self).fs_map()
                        && final(self).journal() == old(self).journal()
                },
                Err(_) => {
                    &&& old(self).fs_map().contains_key(path@)
                    &&& !(old(self).fs_map()[path@] is Dir)
                    &&& final(self).fs_map() == old(self).fs_map()
                    &&& final(self).journal() == old(self).journal()
                },
            },
    {
        ops::create_dir(&mut self.fs, &mut self.logger, path)
    }

    /// Creates a symbolic link in the model and journals it.
    pub fn create_symlink(&mut self, src: &String, dst: &String) -> (r: Result<(), IoError>)
        requires
            old(self).wf(),
        ensures
            final(self).wf(),
            final(self).cwd_spec() == old(self).cwd_spec(),
            match r {
                Ok(()) => {
                    &&& old(self).fs_map().contains_key(src@)
                    &&& !old(self).fs_map().contains_key(dst@)
                    &&& final(self).fs_map() == old(self).fs_map().insert(
                        dst@,
                        crate::fs_state::Entry::Symlink { target: src@ },
                    )
                    &&& final(self).journal() == old(self).journal().push(
                        Action::CreateSymlink { src: src@, dst: dst@ },
                    )
                },
                Err(_) => {
                    &&& (!old(self).fs_map().contains_key(src@) || old(
                        self,
                    ).fs_map().contains_key(dst@))
                    &&& final(self).fs_map() == old(self).fs_map()
                    &&& final(self).journal() == old(self).journal()
                },
            },
    {
        ops::create_symlink(&mut self.fs, &mut self.logger, src, dst)
    }

    /// Removes a symbolic link in the model and journals it.
    pub fn remove_symlink(&mut self, src: &String, dst: &String) -> (r: Result<(), IoError>)
        requires
            old(self).wf(),
        ensures
            final(self).wf(),
            final(self).cwd_spec() == old(self).cwd_spec(),
            match r {
                Ok(()) => {
                    &&& old(self).fs_map().contains_key(dst@)
                    &&& !(old(self).fs_map()[dst@] is Dir)
                    &&& final(self).fs_map() == old(self).fs_map().remove(dst@)
                    &&& final(self).journal() == old(self).journal().push(
                        Action::RemoveSymlink { src: src@, dst: dst@ },
                    )
                },
                Err(_) => {
                    &&& (!old(self).fs_map().contains_key(dst@) || old(self).fs_map()[dst@] is Dir)
                    &&& final(self).fs_map() == old(self).fs_map()
                    &&& final(self).journal() == old(self).journal()
                },
            },
    {
        ops::remove_symlink(&mut self.fs, &mut self.logger, src, dst)
    }

    /// Loads `package` against its optional prior trace: a load marker and
    /// then exactly the run `load_spec` describes.
    pub fn load_module(&mut self, package: &NamedPackage, trace: Option<&PkgTrace>) -> (r: Result<
        PkgTrace,
        RunnerError,
    >)
        requires
            old(self).wf(),
            package.wf(),
            trace matches Some(t) ==> t.wf(),
        ensures
            final(self).wf(),
            final(self).cwd_spec() == old(self).cwd_spec(),
            ({
                let spec = load_spec(
                    old(self).fs_map(),
                    old(self).cwd_spec(),
                    *package,
                    prior_view(trace),
                );
                &&& final(self).fs_map() == spec.2
                &&& final(self).journal() == old(self).journal().push(
                    Action::LoadModule(package.name_spec()),
                ) + spec.1
                &&& match r {
                    Ok(t) => {
                        &&& spec.0 is Ok
                        &&& t@.directory == package.dir_spec()
                        &&& t@.maps == package.maps_pairs()
                        &&& t.wf()
                    },
                    Err(e) => {
                        &&& spec.0 is Err
                        &&& e@ matches RunnerErrV::LoadModuleError { source, module }
                        &&& Err::<(), _>(source) == spec.0
                        &&& module == package.name_spec()
                    },
                }
            }),
    {
        match engine::load(&mut self.fs, &self.cwd, package, trace, &mut self.logger) {
            Ok(t) => Ok(t),
            Err(e) => Err(
                RunnerError::LoadModuleError { source: e, module: package.name().clone() },
            ),
        }
    }

    /// Unloads the package `name` using only its trace: an unload marker
    /// and then exactly the run `unload_steps` describes.
    pub fn unload_module(&mut self, name: &String, trace: &PkgTrace) -> (r: Result<
        (),
        RunnerError,
    >)
        requires
            old(self).wf(),
            trace.wf(),
        ensures
            final(self).wf(),
            final(self).cwd_spec() == old(self).cwd_spec(),
            ({
                let spec = unload_steps(
                    old(self).fs_map(),
                    spec_join(old(self).cwd_spec(), trace@.directory),
                    trace@.maps,
                );
                &&& final(self).fs_map() == spec.2
                &&& final(self).journal() == old(self).journal().push(
                    Action::UnloadModule(name@),
                ) + spec.1
                &&& match r {
                    Ok(()) => spec.0 is Ok,
                    Err(e) => {
                        &&& spec.0 is Err
                        &&& e@ matches RunnerErrV::UnloadModuleError { source, module }
                        &&& Err::<(), _>(source) == spec.0
                        &&& module == name@
                    },
                }
            }),
    {
        self.logger.unload_module(name);
        match engine::unload(&mut self.fs, &self.cwd, trace, &mut self.logger) {
            Ok(()) => Ok(()),
            Err(e) => Err(RunnerError::UnloadModuleError { source: e, module: name.clone() }),
        }
    }

    /// Undoes the most recent load or unload: finds its marker, writes the
    /// matching rollback marker, then undoes the run's entries in reverse
    /// order, journalling each inverse.  With no eligible run — no marker,
    /// or the last operation already rolled back — nothing changes.
    #[verifier::rlimit(100)]
    pub fn rollback(&mut self) -> (r: Result<(), RunnerError>)
        requires
            old(self).wf(),
        ensures
            final(self).wf(),
            final(self).cwd_spec() == old(self).cwd_spec(),
            match last_run_start(old(self).journal()) {
                None => {
                    &&& final(self).fs_map() == old(self).fs_map()
                    &&& final(self).journal() == old(self).journal()
                    &&& r matches Err(e) && e@ == RunnerErrV::NoActionToRollback
                },
                Some(i) => {
                    let u = undo_steps(old(self).fs_map(), old(self).journal().skip(i + 1));
                    &&& final(self).fs_map() == u.2
                    &&& final(self).journal() == old(self).journal().push(
                        rollback_marker(old(self).journal()[i]),
                    ) + u.1
                    &&& match r {
                        Ok(()) => u.0 is Ok,
                        Err(e) => u.0 is Err && e@ == RunnerErrV::Io,
                    }
                },
            },
    {
        proof {
            lemma_last_run_start_props(self.journal());
        }
        let msgs = self.logger.messages();
        proof {
            assert(msgs@.map_values(|m: LogMessage| m@) =~= self.journal());
        }
        let start = match find_marker(msgs) {
            None => {
                return Err(RunnerError::NoActionToRollback);
            },
            Some(i) => i,
        };
        let ghost jv = old(self).journal();
        let ghost tailv = jv.skip(start as int + 1);
        let n = self.logger.messages().len();
        let mut actions: Vec<LogMessage> = Vec::new();
        let mut k = start + 1;
        while k < n
            invariant
                start < k <= n,
                *self == *old(self),
                n == old(self).journal().len(),
                tailv == old(self).journal().skip(start as int + 1),
                actions@.len() == k - start - 1,
                forall|l: int| 0 <= l < actions@.len() ==> actions@[l]@ == tailv[l],
            decreases n - k,
        {
            actions.push(clone_message(&self.logger.messages()[k]));
            k = k + 1;
        }
        let mb = &self.logger.messages()[start];
        let pair = match mb {
            LogMessage::LoadModule(m) => (m.clone(), true),
            LogMessage::UnloadModule(m) => (m.clone(), false),
            _ => {
                // ruled out: the scan stopped on a load or unload marker
                proof {
                    assert(false);
                }
                (String::new(), true)
            },
        };
        let name = pair.0;
        if pair.1 {
            self.logger.rollback_load_module(&name);
        } else {
            self.logger.rollback_unload_module(&name);
        }
        let ghost log1 = self.logger@;
        let ghost fs0 = self.fs@;
        proof {
            assert(log1 == jv.push(rollback_marker(jv[start as int])));
            assert(tailv.skip(actions@.len() as int) =~= Seq::<Action>::empty());
            assert(log1 + Seq::<Action>::empty() =~= log1);
        }
        let mut k = actions.len();
        while k > 0
            invariant
                k <= actions@.len(),
                actions@.len() == tailv.len(),
                forall|l: int| 0 <= l < actions@.len() ==> actions@[l]@ == tailv[l],
                forall|l: int| 0 <= l < tailv.len() ==> (#[trigger] tailv[l]).is_mutation(),
                self.fs.wf(),
                self.cwd@ == old(self).cwd@,
                fs0 == old(self).fs_map(),
                tailv == old(self).journal().skip(start as int + 1),
                start < old(self).journal().len(),
                last_run_start(old(self).journal()) == Some(start as int),
                log1 == old(self).journal().push(
                    rollback_marker(old(self).journal()[start as int]),
                ),
                ({
                    let u = undo_steps(fs0, tailv.skip(k as int));
                    &&& u.0 is Ok
                    &&& u.2 == self.fs@
                    &&& self.logger@ == log1 + u.1
                }),
            decreases k,
        {
            k = k - 1;
            let ghost u_pre = undo_steps(fs0, tailv.skip(k as int + 1));
            proof {
                assert(tailv.skip(k as int).drop_first() =~= tailv.skip(k as int + 1));
                assert(tailv.skip(k as int)[0] == tailv[k as int]);
            }
            let ghost fs_iter = self.fs@;
            let ghost log_iter = self.logger@;
            let step_result = match &actions[k] {
                LogMessage::CreateDir(p) => ops::remove_dir(&mut self.fs, &mut self.logger, p),
                LogMessage::CreateSymlink { src, dst } => ops::remove_symlink(
                    &mut self.fs,
                    &mut self.logger,
                    src,
                    dst,
                ),
                LogMessage::RemoveDir(p) => ops::create_dir(&mut self.fs, &mut self.logger, p),
                LogMessage::RemoveSymlink { src, dst } => ops::create_symlink(
                    &mut self.fs,
                    &mut self.logger,
                    src,
                    dst,
                ),
                _ => {
                    // ruled out: everything after the marker is a mutation
                    proof {
                        assert(tailv[k as int].is_mutation());
                        assert(false);
                    }
                    Ok(())
                },
            };
            let ghost one = undo_one(u_pre.2, tailv[k as int]);
            match step_result {
                Ok(()) => {
                    proof {
                        assert(one.0 is Ok && one.2 == self.fs@);
                        assert(log_iter + one.1 =~= self.logger@);
                        let u1 = undo_steps(fs0, tailv.skip(k as int));
                        assert(u1 == (one.0, u_pre.1 + one.1, one.2));
                        assert(log1 + (u_pre.1 + one.1) =~= (log1 + u_pre.1) + one.1);
                        assert(self.logger@ == log1 + u1.1);
                    }
                },
                Err(e) => {
                    proof {
                        assert(one.0 is Err && one.2 == self.fs@ && one.1 == Seq::<
                            Action,
                        >::empty());
                        let u1 = undo_steps(fs0, tailv.skip(k as int));
                        assert(u1 == (one.0, u_pre.1 + one.1, one.2));
                        lemma_undo_steps_err_persists(fs0, tailv, k as int);
                        assert(u_pre.1 + Seq::<Action>::empty() =~= u_pre.1);
                        assert(self.logger@ == log1 + u1.1);
                    }
                    return Err(RunnerError::Io(e));
                },
            }
        }
        proof {
            assert(tailv.skip(0) =~= tailv);
        }
        Ok(())
    }

    /// The working subdirectory's path, created in the model when missing;
    /// an entry of another kind there is refused.
    pub fn create_pkgs_dir(&mut self) -> (r: Result<String, RunnerError>)
        requires
            old(self).wf(),
        ensures
            final(self).wf(),
            final(self).cwd_spec() == old(self).cwd_spec(),
            ({
                let p = spec_join(old(self).cwd_spec(), spec_pkgs_dir_name());
                match r {
                    Ok(d) => {
                        &&& d@ == p
                        &&& if !old(self).fs_map().contains_key(p) {
                            final(self).fs_map() == old(self).fs_map().insert(
                                p,
                                crate::fs_state::Entry::Dir,
                            ) && final(self).journal() == old(self).journal().push(
                                Action::CreateDir(p),
                            )
                        } else {
                            old(self).fs_map()[p] is Dir && final(self).fs_map() == old(
                                self,
                            ).fs_map() && final(self).journal() == old(self).journal()
                        }
                    },
                    Err(e) => {
                        &&& e@ == RunnerErrV::PkgsDirNotADir
                        &&& old(self).fs_map().contains_key(p)
                        &&& !(old(self).fs_map()[p] is Dir)
                        &&& final(self).fs_map() == old(self).fs_map()
                        &&& final(self).journal() == old(self).journal()
                    },
                }
            }),
    {
        let name = pkgs_dir_name();
        let pkgs_dir = join_path(&self.cwd, &name);
        match ops::create_dir(&mut self.fs, &mut self.logger, &pkgs_dir) {
            Ok(()) => Ok(pkgs_dir),
            Err(_) => Err(RunnerError::PkgsDirNotADir),
        }
    }

    /// The working subdirectory's path; it must exist as a directory.
    pub fn get_pkgs_dir(&self) -> (r: Result<String, RunnerError>)
        requires
            self.wf(),
        ensures
            ({
                let p = spec_join(self.cwd_spec(), spec_pkgs_dir_name());
                match r {
                    Ok(d) => d@ == p && self.fs_map().contains_key(p) && self.fs_map()[p] is Dir,
                    Err(e) => if !self.fs_map().contains_key(p) {
                        e@ == RunnerErrV::PkgsDirNotFound
                    } else {
                        e@ == RunnerErrV::PkgsDirNotADir && !(self.fs_map()[p] is Dir)
                    },
                }
            }),
    {
        let name = pkgs_dir_name();
        let pkgs_dir = join_path(&self.cwd, &name);
        if !self.fs.exists_path(&pkgs_dir) {
            return Err(RunnerError::PkgsDirNotFound);
        }
        if !self.fs.is_dir(&pkgs_dir) {
            return Err(RunnerError::PkgsDirNotADir);
        }
        Ok(pkgs_dir)
    }
}

} // verus!
