//! The reconciliation engine: loading a package against its prior trace and
//! unloading a traced package, with the exact meaning of each as recursive
//! functions over the declared mappings.

use vstd::prelude::*;

use crate::config::NamedPackage;
use crate::config::pairs_view;
use crate::errors::LoadErrV;
use crate::errors::LoadError;
use crate::errors::UnloadErrV;
use crate::errors::UnloadError;
use crate::fs_state::Entry;
use crate::fs_state::FsState;
use crate::logger::Logger;
use crate::logger::LoggerOutput;
use crate::message::Action;
use crate::ops;
use crate::path::join_path;
use crate::path::parent_of;
use crate::path::spec_join;
use crate::path::spec_parent;
use crate::semantics::FsMap;
use crate::trace::PkgTrace;
use crate::trace::PkgTraceV;
use crate::trace::assoc_pairs;
use crate::trace::lemma_assoc_pairs_contains;

verus! {

/// The keys of an ordered mapping.
pub open spec fn keys_of(maps: Seq<(Seq<char>, Seq<char>)>) -> Set<Seq<char>> {
    Set::new(|k: Seq<char>| exists|i: int| 0 <= i < maps.len() && maps[i].0 == k)
}

/// One load step for the pair `(src, dst)`: what the engine checks, which
/// mutations it performs, and how the model changes.
pub open spec fn load_step(
    fs: FsMap,
    pkg_dir: Seq<char>,
    src: Seq<char>,
    dst: Seq<char>,
    old_map: Map<Seq<char>, Seq<char>>,
) -> (Result<(), LoadErrV>, Seq<Action>, FsMap) {
    let src_path = spec_join(pkg_dir, src);
    if !fs.contains_key(src_path) {
        (Err(LoadErrV::SrcNotExists(src)), Seq::empty(), fs)
    } else if old_map.contains_key(src) && fs.contains_key(old_map[src]) && !(fs[old_map[src]]
        is Symlink) {
        (Err(LoadErrV::DstNotSymlink { src, dst: old_map[src] }), Seq::empty(), fs)
    } else if old_map.contains_key(src) && fs.contains_key(old_map[src]) && old_map[src] == dst {
        (Ok(()), Seq::empty(), fs)
    } else {
        let removed = old_map.contains_key(src) && fs.contains_key(old_map[src]);
        let acts1: Seq<Action> = if removed {
            seq![Action::RemoveSymlink { src: src_path, dst: old_map[src] }]
        } else {
            Seq::empty()
        };
        let fs1 = if removed {
            fs.remove(old_map[src])
        } else {
            fs
        };
        if fs1.contains_key(dst) {
            (Err(LoadErrV::DstAlreadyExists { src, dst }), acts1, fs1)
        } else if (match spec_parent(dst) {
            Some(par) => fs1.contains_key(par) && !(fs1[par] is Dir),
            None => false,
        }) {
            // something other than a directory occupies the destination's
            // parent, so neither it nor the link can be created there
            (
                Err(LoadErrV::ParentNotADir { src, parent: spec_parent(dst).unwrap() }),
                acts1,
                fs1,
            )
        } else {
            let step2 = match spec_parent(dst) {
                Some(par) => if !fs1.contains_key(par) {
                    (acts1.push(Action::CreateDir(par)), fs1.insert(par, Entry::Dir))
                } else {
                    (acts1, fs1)
                },
                None => (acts1, fs1),
            };
            let acts2 = step2.0;
            let fs2 = step2.1;
            if !fs2.contains_key(src_path) || fs2.contains_key(dst) {
                (Err(LoadErrV::Io), acts2, fs2)
            } else {
                (
                    Ok(()),
                    acts2.push(Action::CreateSymlink { src: src_path, dst }),
                    fs2.insert(dst, Entry::Symlink { target: src_path }),
                )
            }
        }
    }
}

/// The load steps for a whole mapping, in order, stopping at the first
/// failure.
pub open spec fn load_steps(
    fs: FsMap,
    pkg_dir: Seq<char>,
    maps: Seq<(Seq<char>, Seq<char>)>,
    old_map: Map<Seq<char>, Seq<char>>,
) -> (Result<(), LoadErrV>, Seq<Action>, FsMap)
    decreases maps.len(),
{
    if maps.len() == 0 {
        (Ok(()), Seq::empty(), fs)
    } else {
        let step = load_step(fs, pkg_dir, maps[0].0, maps[0].1, old_map);
        if step.0 is Err {
            step
        } else {
            let rest = load_steps(step.2, pkg_dir, maps.drop_first(), old_map);
            (rest.0, step.1 + rest.1, rest.2)
        }
    }
}

/// One cleanup step for a prior pair `(src, odst)`: a destination still on
/// disk whose source the new mapping no longer wants must be a symbolic
/// link and is removed.
pub open spec fn cleanup_step(
    fs: FsMap,
    pkg_dir: Seq<char>,
    src: Seq<char>,
    odst: Seq<char>,
    keep: Set<Seq<char>>,
) -> (Result<(), LoadErrV>, Seq<Action>, FsMap) {
    if fs.contains_key(odst) && !keep.contains(src) {
        if !(fs[odst] is Symlink) {
            (Err(LoadErrV::DstNotSymlink { src, dst: odst }), Seq::empty(), fs)
        } else {
            (
                Ok(()),
                seq![Action::RemoveSymlink { src: spec_join(pkg_dir, src), dst: odst }],
                fs.remove(odst),
            )
        }
    } else {
        (Ok(()), Seq::empty(), fs)
    }
}

/// The cleanup steps over the whole prior trace, in order.
pub open spec fn cleanup_steps(
    fs: FsMap,
    pkg_dir: Seq<char>,
    old_maps: Seq<(Seq<char>, Seq<char>)>,
    keep: Set<Seq<char>>,
) -> (Result<(), LoadErrV>, Seq<Action>, FsMap)
    decreases old_maps.len(),
{
    if old_maps.len() == 0 {
        (Ok(()), Seq::empty(), fs)
    } else {
        let step = cleanup_step(fs, pkg_dir, old_maps[0].0, old_maps[0].1, keep);
        if step.0 is Err {
            step
        } else {
            let rest = cleanup_steps(step.2, pkg_dir, old_maps.drop_first(), keep);
            (rest.0, step.1 + rest.1, rest.2)
        }
    }
}

/// A whole load: everything after the leading marker.  Checks the storage
/// directory, walks the desired mapping, then cleans up prior pairs the new
/// mapping dropped.
pub open spec fn load_full(
    fs: FsMap,
    root: Seq<char>,
    name: Seq<char>,
    directory: Seq<char>,
    maps: Seq<(Seq<char>, Seq<char>)>,
    prior: Option<PkgTraceV>,
) -> (Result<(), LoadErrV>, Seq<Action>, FsMap) {
    if prior matches Some(t) && t.directory != directory {
        (Err(LoadErrV::DirectoryChanged), Seq::empty(), fs)
    } else {
        let pkg_dir = spec_join(root, directory);
        if !fs.contains_key(pkg_dir) {
            (Err(LoadErrV::PkgDirNotFound(name)), Seq::empty(), fs)
        } else {
            let old_map = match prior {
                Some(t) => assoc_pairs(t.maps),
                None => Map::empty(),
            };
            let old_seq = match prior {
                Some(t) => t.maps,
                None => Seq::empty(),
            };
            let first = load_steps(fs, pkg_dir, maps, old_map);
            if first.0 is Err {
                first
            } else {
                let second = cleanup_steps(first.2, pkg_dir, old_seq, keys_of(maps));
                (second.0, first.1 + second.1, second.2)
            }
        }
    }
}

/// One unload step: the traced destination must exist, must be a symbolic
/// link, and is removed.
pub open spec fn unload_step(fs: FsMap, pkg_dir: Seq<char>, src: Seq<char>, dst: Seq<char>) -> (
    Result<(), UnloadErrV>,
    Seq<Action>,
    FsMap,
) {
    if !fs.contains_key(dst) {
        (Err(UnloadErrV::DstNotFound { src, dst }), Seq::empty(), fs)
    } else if !(fs[dst] is Symlink) {
        (Err(UnloadErrV::DstNotSymlink { src, dst }), Seq::empty(), fs)
    } else {
        (
            Ok(()),
            seq![Action::RemoveSymlink { src: spec_join(pkg_dir, src), dst }],
            fs.remove(dst),
        )
    }
}

/// The unload steps over a whole trace, in order.
pub open spec fn unload_steps(
    fs: FsMap,
    pkg_dir: Seq<char>,
    maps: Seq<(Seq<char>, Seq<char>)>,
) -> (Result<(), UnloadErrV>, Seq<Action>, FsMap)
    decreases maps.len(),
{
    if maps.len() == 0 {
        (Ok(()), Seq::empty(), fs)
    } else {
        let step = unload_step(fs, pkg_dir, maps[0].0, maps[0].1);
        if step.0 is Err {
            step
        } else {
            let rest = unload_steps(step.2, pkg_dir, maps.drop_first(), );
            (rest.0, step.1 + rest.1, rest.2)
        }
    }
}

/// The view of an optional prior trace.
pub open spec fn prior_view(prior: Option<&PkgTrace>) -> Option<PkgTraceV> {
    match prior {
        Some(t) => Some(t@),
        None => None,
    }
}

/// What `load` does after its leading marker, on the given model.
pub open spec fn load_spec(
    fs: FsMap,
    root: Seq<char>,
    package: NamedPackage,
    prior: Option<PkgTraceV>,
) -> (Result<(), LoadErrV>, Seq<Action>, FsMap) {
    load_full(fs, root, package.name_spec(), package.dir_spec(), package.maps_pairs(), prior)
}

/// Loads `package` under `root`: reconciles its mapping against the prior
/// trace, mutating and journalling as `load_full` describes, and returns
/// the new trace, whose pairs are exactly the package's mapping.
#[verifier::rlimit(100)]
pub fn load<O: LoggerOutput>(
    fs: &mut FsState,
    root: &String,
    package: &NamedPackage,
    prior: Option<&PkgTrace>,
    logger: &mut Logger<O>,
) -> (r: Result<PkgTrace, LoadError>)
    requires
        old(fs).wf(),
        package.wf(),
        prior matches Some(t) ==> t.wf(),
    ensures
        final(fs).wf(),
        ({
            let spec = load_spec(old(fs)@, root@, *package, prior_view(prior));
            &&& final(fs)@ == spec.2
            &&& final(logger)@ == old(logger)@.push(Action::LoadModule(package.name_spec()))
                + spec.1
            &&& match r {
                Ok(t) => {
                    &&& spec.0 is Ok
                    &&& t@.directory == package.dir_spec()
                    &&& t@.maps == package.maps_pairs()
                    &&& t.wf()
                },
                Err(e) => spec.0 matches Err(ev) && e@ == ev,
            }
        }),
{
    logger.load_module(package.name());
    let ghost log0 = logger@;
    let ghost msp = package.maps_pairs();
    let ghost old_mapv = (match prior {
        Some(t) => t.map(),
        None => Map::<Seq<char>, Seq<char>>::empty(),
    });

    let directory = package.get_directory();
    if let Some(t) = prior {
        if !directory.eq(&t.directory) {
            proof {
                assert(log0 + Seq::<Action>::empty() =~= log0);
            }
            return Err(
                LoadError::DirectoryChanged {
                    old_directory: t.directory.clone(),
                    new_directory: directory,
                },
            );
        }
    }
    let pkg_dir = join_path(root, &directory);
    if !fs.exists_path(&pkg_dir) {
        proof {
            assert(log0 + Seq::<Action>::empty() =~= log0);
        }
        return Err(LoadError::PkgDirNotFound(package.name().clone()));
    }

    let mut new_trace = PkgTrace::new(directory);
    let maps = package.maps();
    let n = maps.len();
    let mut i: usize = 0;
    proof {
        assert(msp.take(0) =~= Seq::<(Seq<char>, Seq<char>)>::empty());
        assert(load_steps(old(fs)@, pkg_dir@, msp.take(0), old_mapv) == (
            Ok::<(), LoadErrV>(()),
            Seq::<Action>::empty(),
            old(fs)@,
        ));
        assert(log0 + Seq::<Action>::empty() =~= log0);
    }
    while i < n
        invariant
            i <= n,
            n == msp.len(),
            msp == package.maps_pairs(),
            pairs_view(maps@) == msp,
            package.wf(),
            prior matches Some(t) ==> t.wf() && t@.directory == package.dir_spec(),
            old_mapv == (match prior {
                Some(t) => t.map(),
                None => Map::<Seq<char>, Seq<char>>::empty(),
            }),
            fs.wf(),
            pkg_dir@ == spec_join(root@, package.dir_spec()),
            old(fs)@.contains_key(spec_join(root@, package.dir_spec())),
            log0 == old(logger)@.push(Action::LoadModule(package.name_spec())),
            ({
                let s = load_steps(old(fs)@, pkg_dir@, msp.take(i as int), old_mapv);
                &&& s.0 is Ok
                &&& s.2 == fs@
                &&& logger@ == log0 + s.1
            }),
            new_trace@.maps == msp.take(i as int),
            new_trace@.directory == package.dir_spec(),
            new_trace.wf(),
        decreases n - i,
    {
        let ghost fs_iter = fs@;
        let ghost log_iter = logger@;
        let ghost prefix = load_steps(old(fs)@, pkg_dir@, msp.take(i as int), old_mapv);
        let src = &maps[i].0;
        let dst = &maps[i].1;
        proof {
            assert(msp[i as int] == (src@, dst@));
            lemma_load_steps_split(old(fs)@, pkg_dir@, msp, old_mapv, i as int);
            assert(msp.skip(i as int)[0] == msp[i as int]);
            assert(msp.take(i + 1).take(i as int) =~= msp.take(i as int));
            assert(msp.take(i + 1).skip(i as int) =~= seq![msp[i as int]]);
            lemma_load_steps_split(old(fs)@, pkg_dir@, msp.take(i + 1), old_mapv, i as int);
            assert(seq![msp[i as int]].drop_first() =~= Seq::<(Seq<char>, Seq<char>)>::empty());
        }
        let ghost step = load_step(fs_iter, pkg_dir@, src@, dst@, old_mapv);
        let src_path = join_path(&pkg_dir, src);
        if !fs.exists_path(&src_path) {
            proof {
                assert(step == (Err::<(), LoadErrV>(LoadErrV::SrcNotExists(src@)), Seq::<
                    Action,
                >::empty(), fs_iter));
                assert(prefix.1 + Seq::<Action>::empty() =~= prefix.1);
            }
            return Err(LoadError::SrcNotExists(src.clone()));
        }
        let mut keep = false;
        if let Some(t) = prior {
            match t.get(src) {
                Some(old_dst) => {
                    if fs.exists_path(&old_dst) {
                        if !fs.is_symlink(&old_dst) {
                            proof {
                                assert(step == (
                                    Err::<(), LoadErrV>(
                                        LoadErrV::DstNotSymlink { src: src@, dst: old_dst@ },
                                    ),
                                    Seq::<Action>::empty(),
                                    fs_iter,
                                ));
                                assert(prefix.1 + Seq::<Action>::empty() =~= prefix.1);
                            }
                            return Err(
                                LoadError::DstNotSymlink { src: src.clone(), dst: old_dst },
                            );
                        }
                        if old_dst.eq(dst) {
                            keep = true;
                        } else {
                            match ops::remove_symlink(fs, logger, &src_path, &old_dst) {
                                Ok(()) => {
                                },
                                Err(e) => {
                                    // ruled out: the entry was just seen as a symbolic link
                                    proof {
                                        assert(false);
                                    }
                                    return Err(LoadError::Io(e));
                                },
                            }
                        }
                    }
                },
                None => {
                },
            }
        }
        if keep {
            proof {
                assert(step == (Ok::<(), LoadErrV>(()), Seq::<Action>::empty(), fs_iter));
                lemma_assoc_pairs_contains(new_trace@.maps, src@);
                assert forall|l: int| 0 <= l < i implies (#[trigger] new_trace@.maps[l]).0
                    != src@ by {
                    assert(new_trace@.maps[l] == msp[l]);
                    assert(package.maps_pairs()[l].0 != package.maps_pairs()[i as int].0);
                }
            }
            new_trace.insert(src.clone(), dst.clone());
            proof {
                assert(new_trace@.maps =~= msp.take(i + 1));
                assert(prefix.1 + Seq::<Action>::empty() =~= prefix.1);
                assert(log_iter + step.1 =~= log_iter);
            }
        } else {
            let ghost removed = old_mapv.contains_key(src@) && fs_iter.contains_key(
                old_mapv[src@],
            );
            let ghost acts1 = step.1;
            proof {
                if removed {
                    assert(fs@ == fs_iter.remove(old_mapv[src@]));
                    assert(logger@ == log_iter.push(
                        Action::RemoveSymlink { src: src_path@, dst: old_mapv[src@] },
                    ));
                } else {
                    assert(fs@ == fs_iter);
                    assert(logger@ == log_iter);
                }
            }
            let ghost fs1 = fs@;
            if fs.exists_path(dst) {
                proof {
                    assert(step.0 == Err::<(), LoadErrV>(
                        LoadErrV::DstAlreadyExists { src: src@, dst: dst@ },
                    ));
                    if removed {
                        assert(log_iter + step.1 =~= logger@);
                        assert(prefix.1 + step.1 =~= load_steps(
                            old(fs)@,
                            pkg_dir@,
                            msp,
                            old_mapv,
                        ).1);
                    } else {
                        assert(prefix.1 + step.1 =~= prefix.1);
                    }
                }
                return Err(LoadError::DstAlreadyExists { src: src.clone(), dst: dst.clone() });
            }
            match parent_of(dst) {
                Some(par) => {
                    if !fs.exists_path(&par) {
                        match ops::create_dir(fs, logger, &par) {
                            Ok(()) => {
                            },
                            Err(e) => {
                                // ruled out: the parent was just seen to be missing
                                proof {
                                    assert(false);
                                }
                                return Err(LoadError::Io(e));
                            },
                        }
                    } else if !fs.is_dir(&par) {
                        proof {
                            assert(step.0 == Err::<(), LoadErrV>(
                                LoadErrV::ParentNotADir { src: src@, parent: par@ },
                            ));
                            if removed {
                                assert(log_iter + step.1 =~= logger@);
                                assert(prefix.1 + step.1 =~= load_steps(
                                    old(fs)@,
                                    pkg_dir@,
                                    msp,
                                    old_mapv,
                                ).1);
                            } else {
                                assert(prefix.1 + step.1 =~= prefix.1);
                            }
                        }
                        return Err(LoadError::ParentNotADir { src: src.clone(), parent: par });
                    }
                },
                None => {
                },
            }
            let ghost fs2 = fs@;
            match ops::create_symlink(fs, logger, &src_path, dst) {
                Ok(()) => {
                },
                Err(e) => {
                    proof {
                        assert(step.0 == Err::<(), LoadErrV>(LoadErrV::Io));
                        assert(step.2 == fs2);
                        assert(log_iter + step.1 =~= logger@);
                        assert(prefix.1 + step.1 =~= load_steps(old(fs)@, pkg_dir@, msp, old_mapv).1);
                    }
                    return Err(LoadError::Io(e));
                },
            }
            proof {
                assert(step.0 is Ok);
                assert(step.2 == fs@);
                assert(log_iter + step.1 =~= logger@);
                lemma_assoc_pairs_contains(new_trace@.maps, src@);
                assert forall|l: int| 0 <= l < i implies (#[trigger] new_trace@.maps[l]).0
                    != src@ by {
                    assert(new_trace@.maps[l] == msp[l]);
                    assert(package.maps_pairs()[l].0 != package.maps_pairs()[i as int].0);
                }
            }
            new_trace.insert(src.clone(), dst.clone());
            proof {
                assert(new_trace@.maps =~= msp.take(i + 1));
            }
        }
        proof {
            assert(step.1 + Seq::<Action>::empty() =~= step.1);
            assert(load_steps(step.2, pkg_dir@, Seq::<(Seq<char>, Seq<char>)>::empty(), old_mapv)
                == (Ok::<(), LoadErrV>(()), Seq::<Action>::empty(), step.2));
            assert(seq![msp[i as int]][0] == msp[i as int]);
            assert(load_steps(fs_iter, pkg_dir@, seq![msp[i as int]], old_mapv) == (
                step.0,
                step.1 + Seq::<Action>::empty(),
                step.2,
            ));
            let s1 = load_steps(old(fs)@, pkg_dir@, msp.take(i + 1), old_mapv);
            assert(s1.0 is Ok && s1.2 == fs@);
            assert(log0 + (prefix.1 + step.1) =~= (log0 + prefix.1) + step.1);
            assert(logger@ == log0 + s1.1);
        }
        i = i + 1;
    }
    proof {
        assert(msp.take(n as int) =~= msp);
    }

    let ghost first = load_steps(old(fs)@, pkg_dir@, msp, old_mapv);
    let ghost fs_mid = fs@;
    let ghost log_mid = logger@;
    if let Some(t) = prior {
        let om = &t.maps;
        let m = om.len();
        let mut j: usize = 0;
        proof {
            assert(t@.maps.take(0) =~= Seq::<(Seq<char>, Seq<char>)>::empty());
            assert(log_mid + Seq::<Action>::empty() =~= log_mid);
        }
        while j < m
            invariant
                j <= m,
                m == t@.maps.len(),
                pairs_view(om@) == t@.maps,
                t.wf(),
                fs.wf(),
                new_trace@.maps == msp,
                new_trace@.directory == package.dir_spec(),
                new_trace.wf(),
                pkg_dir@ == spec_join(root@, package.dir_spec()),
                msp == package.maps_pairs(),
                package.wf(),
                prior == Some(t),
                t@.directory == package.dir_spec(),
                old(fs)@.contains_key(spec_join(root@, package.dir_spec())),
                log0 == old(logger)@.push(Action::LoadModule(package.name_spec())),
                old_mapv == t.map(),
                first == load_steps(old(fs)@, pkg_dir@, msp, old_mapv),
                first.0 is Ok,
                fs_mid == first.2,
                log_mid == log0 + first.1,
                ({
                    let c = cleanup_steps(fs_mid, pkg_dir@, t@.maps.take(j as int), keys_of(msp));
                    &&& c.0 is Ok
                    &&& c.2 == fs@
                    &&& logger@ == log_mid + c.1
                }),
            decreases m - j,
        {
            let ghost fs_iter = fs@;
            let ghost log_iter = logger@;
            let ghost cprefix = cleanup_steps(fs_mid, pkg_dir@, t@.maps.take(j as int), keys_of(msp));
            let osrc = &om[j].0;
            let odst = &om[j].1;
            proof {
                assert(t@.maps[j as int] == (osrc@, odst@));
                lemma_cleanup_steps_split(fs_mid, pkg_dir@, t@.maps, keys_of(msp), j as int);
                assert(t@.maps.skip(j as int)[0] == t@.maps[j as int]);
                assert(t@.maps.take(j + 1).take(j as int) =~= t@.maps.take(j as int));
                assert(t@.maps.take(j + 1).skip(j as int) =~= seq![t@.maps[j as int]]);
                lemma_cleanup_steps_split(fs_mid, pkg_dir@, t@.maps.take(j + 1), keys_of(msp), j as int);
                assert(seq![t@.maps[j as int]].drop_first() =~= Seq::<
                    (Seq<char>, Seq<char>),
                >::empty());
                lemma_assoc_pairs_contains(msp, osrc@);
                assert(new_trace.map() == assoc_pairs(msp));
                assert(keys_of(msp).contains(osrc@) == assoc_pairs(msp).contains_key(osrc@));
            }
            let ghost cstep = cleanup_step(fs_iter, pkg_dir@, osrc@, odst@, keys_of(msp));
            if fs.exists_path(odst) && !new_trace.contains_src(osrc) {
                if !fs.is_symlink(odst) {
                    proof {
                        assert(cstep == (
                            Err::<(), LoadErrV>(
                                LoadErrV::DstNotSymlink { src: osrc@, dst: odst@ },
                            ),
                            Seq::<Action>::empty(),
                            fs_iter,
                        ));
                        assert(cprefix.1 + Seq::<Action>::empty() =~= cprefix.1);
                        assert(first.1 + (cprefix.1 + cstep.1) =~= (first.1 + cprefix.1)
                            + cstep.1);
                    }
                    return Err(LoadError::DstNotSymlink { src: osrc.clone(), dst: odst.clone() });
                }
                let sp = join_path(&pkg_dir, osrc);
                match ops::remove_symlink(fs, logger, &sp, odst) {
                    Ok(()) => {
                    },
                    Err(e) => {
                        // ruled out: the destination was just seen as a symbolic link
                        proof {
                            assert(false);
                        }
                        return Err(LoadError::Io(e));
                    },
                }
                proof {
                    assert(cstep.0 is Ok);
                    assert(cstep.2 == fs@);
                    assert(log_iter + cstep.1 =~= logger@);
                }
            } else {
                proof {
                    assert(cstep == (Ok::<(), LoadErrV>(()), Seq::<Action>::empty(), fs_iter));
                    assert(log_iter + cstep.1 =~= log_iter);
                }
            }
            proof {
                assert(cstep.1 + Seq::<Action>::empty() =~= cstep.1);
                assert(cleanup_steps(
                    cstep.2,
                    pkg_dir@,
                    Seq::<(Seq<char>, Seq<char>)>::empty(),
                    keys_of(msp),
                ) == (Ok::<(), LoadErrV>(()), Seq::<Action>::empty(), cstep.2));
                assert(seq![t@.maps[j as int]][0] == t@.maps[j as int]);
                assert(cleanup_steps(fs_iter, pkg_dir@, seq![t@.maps[j as int]], keys_of(msp)) == (
                    cstep.0,
                    cstep.1 + Seq::<Action>::empty(),
                    cstep.2,
                ));
                let c1 = cleanup_steps(fs_mid, pkg_dir@, t@.maps.take(j + 1), keys_of(msp));
                assert(c1.0 is Ok && c1.2 == fs@);
                assert(log_mid + (cprefix.1 + cstep.1) =~= (log_mid + cprefix.1) + cstep.1);
                assert(logger@ == log_mid + c1.1);
            }
            j = j + 1;
        }
        proof {
            assert(t@.maps.take(m as int) =~= t@.maps);
            let second = cleanup_steps(fs_mid, pkg_dir@, t@.maps, keys_of(msp));
            assert(log0 + (first.1 + second.1) =~= (log0 + first.1) + second.1);
        }
    } else {
        proof {
            let second = cleanup_steps(fs_mid, pkg_dir@, Seq::<(Seq<char>, Seq<char>)>::empty(), keys_of(msp));
            assert(second == (Ok::<(), LoadErrV>(()), Seq::<Action>::empty(), fs_mid));
            assert(first.1 + Seq::<Action>::empty() =~= first.1);
        }
    }
    Ok(new_trace)
}

/// Unloads a traced package: removes, in trace order, every destination the
/// trace records, each of which must still exist and be a symbolic link.
/// No marker is emitted here; the runner emits it.
pub fn unload<O: LoggerOutput>(
    fs: &mut FsState,
    root: &String,
    trace: &PkgTrace,
    logger: &mut Logger<O>,
) -> (r: Result<(), UnloadError>)
    requires
        old(fs).wf(),
        trace.wf(),
    ensures
        final(fs).wf(),
        ({
            let spec = unload_steps(old(fs)@, spec_join(root@, trace@.directory), trace@.maps);
            &&& final(fs)@ == spec.2
            &&& final(logger)@ == old(logger)@ + spec.1
            &&& match r {
                Ok(()) => spec.0 is Ok,
                Err(e) => spec.0 matches Err(ev) && e@ == ev,
            }
        }),
{
    let ghost log0 = logger@;
    let pkg_dir = join_path(root, &trace.directory);
    let om = &trace.maps;
    let m = om.len();
    let mut j: usize = 0;
    proof {
        assert(trace@.maps.take(0) =~= Seq::<(Seq<char>, Seq<char>)>::empty());
        assert(log0 + Seq::<Action>::empty() =~= log0);
    }
    while j < m
        invariant
            j <= m,
            m == trace@.maps.len(),
            pairs_view(om@) == trace@.maps,
            trace.wf(),
            fs.wf(),
            pkg_dir@ == spec_join(root@, trace@.directory),
            log0 == old(logger)@,
            ({
                let c = unload_steps(old(fs)@, pkg_dir@, trace@.maps.take(j as int));
                &&& c.0 is Ok
                &&& c.2 == fs@
                &&& logger@ == log0 + c.1
            }),
        decreases m - j,
    {
        let ghost fs_iter = fs@;
        let ghost log_iter = logger@;
        let ghost cprefix = unload_steps(old(fs)@, pkg_dir@, trace@.maps.take(j as int));
        let osrc = &om[j].0;
        let odst = &om[j].1;
        proof {
            assert(trace@.maps[j as int] == (osrc@, odst@));
            lemma_unload_steps_split(old(fs)@, pkg_dir@, trace@.maps, j as int);
            assert(trace@.maps.skip(j as int)[0] == trace@.maps[j as int]);
            assert(trace@.maps.take(j + 1).take(j as int) =~= trace@.maps.take(j as int));
            assert(trace@.maps.take(j + 1).skip(j as int) =~= seq![trace@.maps[j as int]]);
            lemma_unload_steps_split(old(fs)@, pkg_dir@, trace@.maps.take(j + 1), j as int);
            assert(seq![trace@.maps[j as int]].drop_first() =~= Seq::<
                (Seq<char>, Seq<char>),
            >::empty());
        }
        let ghost cstep = unload_step(fs_iter, pkg_dir@, osrc@, odst@);
        if !fs.exists_path(odst) {
            proof {
                assert(cprefix.1 + Seq::<Action>::empty() =~= cprefix.1);
            }
            return Err(UnloadError::DstNotFound { src: osrc.clone(), dst: odst.clone() });
        }
        if !fs.is_symlink(odst) {
            proof {
                assert(cprefix.1 + Seq::<Action>::empty() =~= cprefix.1);
            }
            return Err(UnloadError::DstNotSymlink { src: osrc.clone(), dst: odst.clone() });
        }
        let sp = join_path(&pkg_dir, osrc);
        match ops::remove_symlink(fs, logger, &sp, odst) {
            Ok(()) => {
            },
            Err(e) => {
                // ruled out: the destination was just seen as a symbolic link
                proof {
                    assert(false);
                }
                return Err(UnloadError::Io(e));
            },
        }
        proof {
            assert(cstep.0 is Ok);
            assert(cstep.2 == fs@);
            assert(log_iter + cstep.1 =~= logger@);
            assert(cstep.1 + Seq::<Action>::empty() =~= cstep.1);
            assert(unload_steps(cstep.2, pkg_dir@, Seq::<(Seq<char>, Seq<char>)>::empty()) == (
                Ok::<(), UnloadErrV>(()),
                Seq::<Action>::empty(),
                cstep.2,
            ));
            assert(seq![trace@.maps[j as int]][0] == trace@.maps[j as int]);
            assert(unload_steps(fs_iter, pkg_dir@, seq![trace@.maps[j as int]]) == (
                cstep.0,
                cstep.1 + Seq::<Action>::empty(),
                cstep.2,
            ));
            let c1 = unload_steps(old(fs)@, pkg_dir@, trace@.maps.take(j + 1));
            assert(c1.0 is Ok && c1.2 == fs@);
            assert(log0 + (cprefix.1 + cstep.1) =~= (log0 + cprefix.1) + cstep.1);
            assert(logger@ == log0 + c1.1);
        }
        j = j + 1;
    }
    proof {
        assert(trace@.maps.take(m as int) =~= trace@.maps);
    }
    Ok(())
}

/// Splitting the mapping splits the load steps.
pub proof fn lemma_load_steps_split(
    fs: FsMap,
    pkg_dir: Seq<char>,
    maps: Seq<(Seq<char>, Seq<char>)>,
    old_map: Map<Seq<char>, Seq<char>>,
    i: int,
)
    requires
        0 <= i <= maps.len(),
        load_steps(fs, pkg_dir, maps.take(i), old_map).0 is Ok,
    ensures
        load_steps(fs, pkg_dir, maps, old_map) == ({
            let first = load_steps(fs, pkg_dir, maps.take(i), old_map);
            let rest = load_steps(first.2, pkg_dir, maps.skip(i), old_map);
            (rest.0, first.1 + rest.1, rest.2)
        }),
    decreases i,
{
    if i == 0 {
        assert(maps.take(0) =~= Seq::<(Seq<char>, Seq<char>)>::empty());
        assert(maps.skip(0) =~= maps);
        assert(load_steps(fs, pkg_dir, maps.take(0), old_map).1 + load_steps(
            fs,
            pkg_dir,
            maps,
            old_map,
        ).1 =~= load_steps(fs, pkg_dir, maps, old_map).1);
    } else {
        assert(maps.len() > 0);
        assert(maps.take(i)[0] == maps[0]);
        let step = load_step(fs, pkg_dir, maps[0].0, maps[0].1, old_map);
        assert(maps.take(i).drop_first() =~= maps.drop_first().take(i - 1));
        assert(step.0 is Ok) by {
            if step.0 is Err {
                assert(load_steps(fs, pkg_dir, maps.take(i), old_map).0 is Err);
            }
        }
        assert(maps.skip(i) =~= maps.drop_first().skip(i - 1));
        lemma_load_steps_split(step.2, pkg_dir, maps.drop_first(), old_map, i - 1);
        let firstp = load_steps(step.2, pkg_dir, maps.drop_first().take(i - 1), old_map);
        let restp = load_steps(firstp.2, pkg_dir, maps.drop_first().skip(i - 1), old_map);
        assert(step.1 + (firstp.1 + restp.1) =~= (step.1 + firstp.1) + restp.1);
    }
}

/// Splitting the prior trace splits the cleanup steps.
pub proof fn lemma_cleanup_steps_split(
    fs: FsMap,
    pkg_dir: Seq<char>,
    old_maps: Seq<(Seq<char>, Seq<char>)>,
    keep: Set<Seq<char>>,
    i: int,
)
    requires
        0 <= i <= old_maps.len(),
        cleanup_steps(fs, pkg_dir, old_maps.take(i), keep).0 is Ok,
    ensures
        cleanup_steps(fs, pkg_dir, old_maps, keep) == ({
            let first = cleanup_steps(fs, pkg_dir, old_maps.take(i), keep);
            let rest = cleanup_steps(first.2, pkg_dir, old_maps.skip(i), keep);
            (rest.0, first.1 + rest.1, rest.2)
        }),
    decreases i,
{
    if i == 0 {
        assert(old_maps.take(0) =~= Seq::<(Seq<char>, Seq<char>)>::empty());
        assert(old_maps.skip(0) =~= old_maps);
        assert(cleanup_steps(fs, pkg_dir, old_maps.take(0), keep).1 + cleanup_steps(
            fs,
            pkg_dir,
            old_maps,
            keep,
        ).1 =~= cleanup_steps(fs, pkg_dir, old_maps, keep).1);
    } else {
        assert(old_maps.len() > 0);
        assert(old_maps.take(i)[0] == old_maps[0]);
        let step = cleanup_step(fs, pkg_dir, old_maps[0].0, old_maps[0].1, keep);
        assert(old_maps.take(i).drop_first() =~= old_maps.drop_first().take(i - 1));
        assert(step.0 is Ok) by {
            if step.0 is Err {
                assert(cleanup_steps(fs, pkg_dir, old_maps.take(i), keep).0 is Err);
            }
        }
        assert(old_maps.skip(i) =~= old_maps.drop_first().skip(i - 1));
        lemma_cleanup_steps_split(step.2, pkg_dir, old_maps.drop_first(), keep, i - 1);
        let firstp = cleanup_steps(step.2, pkg_dir, old_maps.drop_first().take(i - 1), keep);
        let restp = cleanup_steps(firstp.2, pkg_dir, old_maps.drop_first().skip(i - 1), keep);
        assert(step.1 + (firstp.1 + restp.1) =~= (step.1 + firstp.1) + restp.1);
    }
}

/// Splitting the trace splits the unload steps.
pub proof fn lemma_unload_steps_split(
    fs: FsMap,
    pkg_dir: Seq<char>,
    maps: Seq<(Seq<char>, Seq<char>)>,
    i: int,
)
    requires
        0 <= i <= maps.len(),
        unload_steps(fs, pkg_dir, maps.take(i)).0 is Ok,
    ensures
        unload_steps(fs, pkg_dir, maps) == ({
            let first = unload_steps(fs, pkg_dir, maps.take(i));
            let rest = unload_steps(first.2, pkg_dir, maps.skip(i));
            (rest.0, first.1 + rest.1, rest.2)
        }),
    decreases i,
{
    if i == 0 {
        assert(maps.take(0) =~= Seq::<(Seq<char>, Seq<char>)>::empty());
        assert(maps.skip(0) =~= maps);
        assert(unload_steps(fs, pkg_dir, maps.take(0)).1 + unload_steps(fs, pkg_dir, maps).1
            =~= unload_steps(fs, pkg_dir, maps).1);
    } else {
        assert(maps.len() > 0);
        assert(maps.take(i)[0] == maps[0]);
        let step = unload_step(fs, pkg_dir, maps[0].0, maps[0].1);
        assert(maps.take(i).drop_first() =~= maps.drop_first().take(i - 1));
        assert(step.0 is Ok) by {
            if step.0 is Err {
                assert(unload_steps(fs, pkg_dir, maps.take(i)).0 is Err);
            }
        }
        assert(maps.skip(i) =~= maps.drop_first().skip(i - 1));
        lemma_unload_steps_split(step.2, pkg_dir, maps.drop_first(), i - 1);
        let firstp = unload_steps(step.2, pkg_dir, maps.drop_first().take(i - 1));
        let restp = unload_steps(firstp.2, pkg_dir, maps.drop_first().skip(i - 1));
        assert(step.1 + (firstp.1 + restp.1) =~= (step.1 + firstp.1) + restp.1);
    }
}

} // verus!
