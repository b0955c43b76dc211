//! The engine's laws: every load run is a valid, replayable run of
//! primitive mutations; a first load's run can be rolled back exactly; an
//! unchanged mapping reloads with no mutation; and a single change reloads
//! with exactly the mutations it needs.

use vstd::prelude::*;

use crate::engine::cleanup_step;
use crate::engine::cleanup_steps;
use crate::engine::keys_of;
use crate::engine::load_full;
use crate::engine::load_step;
use crate::engine::load_steps;
use crate::engine::lemma_load_steps_split;
use crate::engine::lemma_cleanup_steps_split;
use crate::engine::unload_steps;
use crate::errors::LoadErrV;
use crate::fs_state::Entry;
use crate::message::Action;
use crate::path::spec_join;
use crate::path::spec_parent;
use crate::runner::rollback_marker;
use crate::runner::undo_steps;
use crate::semantics::FsMap;
use crate::semantics::apply_run;
use crate::semantics::can_apply;
use crate::semantics::invert;
use crate::semantics::invert_run;
use crate::semantics::last_run_start;
use crate::semantics::lemma_apply_run_concat;
use crate::semantics::lemma_last_run_start_props;
use crate::semantics::lemma_no_run_after_rollback;
use crate::semantics::lemma_same_shape_refl;
use crate::semantics::lemma_undo_run;
use crate::semantics::lemma_valid_run_concat;
use crate::semantics::same_shape;
use crate::semantics::undo_ok;
use crate::semantics::valid_run;
use crate::trace::PkgTraceV;
use crate::trace::assoc_pairs;
use crate::trace::lemma_assoc_pairs_contains;
use crate::trace::lemma_assoc_pairs_index;

verus! {

/// A single action, as a run.
proof fn lemma_single_valid(fs: FsMap, a: Action)
    requires
        can_apply(fs, a),
    ensures
        valid_run(fs, seq![a]),
        apply_run(fs, seq![a]) == crate::semantics::apply(fs, a),
{
    assert(seq![a].drop_first() =~= Seq::<Action>::empty());
    assert(seq![a][0] == a);
    assert(valid_run(crate::semantics::apply(fs, a), Seq::<Action>::empty()));
    assert(apply_run(crate::semantics::apply(fs, a), Seq::<Action>::empty())
        == crate::semantics::apply(fs, a));
}

/// One load step performs a valid run leading to its resulting model.
proof fn lemma_load_step_valid(
    fs: FsMap,
    pkg_dir: Seq<char>,
    src: Seq<char>,
    dst: Seq<char>,
    old_map: Map<Seq<char>, Seq<char>>,
)
    ensures
        ({
            let s = load_step(fs, pkg_dir, src, dst, old_map);
            valid_run(fs, s.1) && apply_run(fs, s.1) == s.2
        }),
{
    let s = load_step(fs, pkg_dir, src, dst, old_map);
    let src_path = spec_join(pkg_dir, src);
    if fs.contains_key(src_path) && !(old_map.contains_key(src) && fs.contains_key(old_map[src])
        && !(fs[old_map[src]] is Symlink)) && !(old_map.contains_key(src) && fs.contains_key(
        old_map[src],
    ) && old_map[src] == dst) {
        let removed = old_map.contains_key(src) && fs.contains_key(old_map[src]);
        let a_rm = Action::RemoveSymlink { src: src_path, dst: old_map[src] };
        let acts1: Seq<Action> = if removed {
            seq![a_rm]
        } else {
            Seq::empty()
        };
        let fs1 = if removed {
            fs.remove(old_map[src])
        } else {
            fs
        };
        assert(valid_run(fs, acts1) && apply_run(fs, acts1) == fs1) by {
            if removed {
                lemma_single_valid(fs, a_rm);
            }
        }
        let parent_blocked = match spec_parent(dst) {
            Some(par) => fs1.contains_key(par) && !(fs1[par] is Dir),
            None => false,
        };
        if !fs1.contains_key(dst) && !parent_blocked {
            let mkdir = spec_parent(dst) matches Some(par) && !fs1.contains_key(par);
            let acts2 = if mkdir {
                acts1.push(Action::CreateDir(spec_parent(dst).unwrap()))
            } else {
                acts1
            };
            let fs2 = if mkdir {
                fs1.insert(spec_parent(dst).unwrap(), Entry::Dir)
            } else {
                fs1
            };
            assert(valid_run(fs, acts2) && apply_run(fs, acts2) == fs2) by {
                if mkdir {
                    let a_cd = Action::CreateDir(spec_parent(dst).unwrap());
                    lemma_single_valid(fs1, a_cd);
                    lemma_valid_run_concat(fs, acts1, seq![a_cd]);
                    lemma_apply_run_concat(fs, acts1, seq![a_cd]);
                    assert(acts2 =~= acts1 + seq![a_cd]);
                }
            }
            if fs2.contains_key(src_path) && !fs2.contains_key(dst) {
                let a_cs = Action::CreateSymlink { src: src_path, dst };
                lemma_single_valid(fs2, a_cs);
                lemma_valid_run_concat(fs, acts2, seq![a_cs]);
                lemma_apply_run_concat(fs, acts2, seq![a_cs]);
                assert(s.1 =~= acts2 + seq![a_cs]);
            }
        }
    }
}

/// A whole load walk performs a valid run leading to its resulting model.
pub proof fn lemma_load_steps_valid(
    fs: FsMap,
    pkg_dir: Seq<char>,
    maps: Seq<(Seq<char>, Seq<char>)>,
    old_map: Map<Seq<char>, Seq<char>>,
)
    ensures
        ({
            let s = load_steps(fs, pkg_dir, maps, old_map);
            valid_run(fs, s.1) && apply_run(fs, s.1) == s.2
        }),
    decreases maps.len(),
{
    if maps.len() > 0 {
        let step = load_step(fs, pkg_dir, maps[0].0, maps[0].1, old_map);
        lemma_load_step_valid(fs, pkg_dir, maps[0].0, maps[0].1, old_map);
        if step.0 is Ok {
            lemma_load_steps_valid(step.2, pkg_dir, maps.drop_first(), old_map);
            let rest = load_steps(step.2, pkg_dir, maps.drop_first(), old_map);
            lemma_valid_run_concat(fs, step.1, rest.1);
            lemma_apply_run_concat(fs, step.1, rest.1);
        }
    }
}

/// One cleanup step performs a valid run leading to its resulting model.
proof fn lemma_cleanup_step_valid(
    fs: FsMap,
    pkg_dir: Seq<char>,
    src: Seq<char>,
    odst: Seq<char>,
    keep: Set<Seq<char>>,
)
    ensures
        ({
            let s = cleanup_step(fs, pkg_dir, src, odst, keep);
            valid_run(fs, s.1) && apply_run(fs, s.1) == s.2
        }),
{
    let s = cleanup_step(fs, pkg_dir, src, odst, keep);
    if fs.contains_key(odst) && !keep.contains(src) && fs[odst] is Symlink {
        lemma_single_valid(fs, Action::RemoveSymlink { src: spec_join(pkg_dir, src), dst: odst });
    }
}

/// A whole cleanup walk performs a valid run leading to its resulting
/// model.
pub proof fn lemma_cleanup_steps_valid(
    fs: FsMap,
    pkg_dir: Seq<char>,
    old_maps: Seq<(Seq<char>, Seq<char>)>,
    keep: Set<Seq<char>>,
)
    ensures
        ({
            let s = cleanup_steps(fs, pkg_dir, old_maps, keep);
            valid_run(fs, s.1) && apply_run(fs, s.1) == s.2
        }),
    decreases old_maps.len(),
{
    if old_maps.len() > 0 {
        let step = cleanup_step(fs, pkg_dir, old_maps[0].0, old_maps[0].1, keep);
        lemma_cleanup_step_valid(fs, pkg_dir, old_maps[0].0, old_maps[0].1, keep);
        if step.0 is Ok {
            lemma_cleanup_steps_valid(step.2, pkg_dir, old_maps.drop_first(), keep);
            let rest = cleanup_steps(step.2, pkg_dir, old_maps.drop_first(), keep);
            lemma_valid_run_concat(fs, step.1, rest.1);
            lemma_apply_run_concat(fs, step.1, rest.1);
        }
    }
}

/// Law: whatever a load journals after its marker is a valid run of
/// primitive mutations, and the model ends exactly where replaying that
/// run leads.
pub proof fn lemma_load_full_valid(
    fs: FsMap,
    root: Seq<char>,
    name: Seq<char>,
    directory: Seq<char>,
    maps: Seq<(Seq<char>, Seq<char>)>,
    prior: Option<PkgTraceV>,
)
    ensures
        ({
            let s = load_full(fs, root, name, directory, maps, prior);
            valid_run(fs, s.1) && apply_run(fs, s.1) == s.2
        }),
{
    if !(prior matches Some(t) && t.directory != directory) {
        let pkg_dir = spec_join(root, directory);
        if fs.contains_key(pkg_dir) {
            let old_map = match prior {
                Some(t) => assoc_pairs(t.maps),
                None => Map::<Seq<char>, Seq<char>>::empty(),
            };
            let old_seq = match prior {
                Some(t) => t.maps,
                None => Seq::<(Seq<char>, Seq<char>)>::empty(),
            };
            let first = load_steps(fs, pkg_dir, maps, old_map);
            lemma_load_steps_valid(fs, pkg_dir, maps, old_map);
            if first.0 is Ok {
                lemma_cleanup_steps_valid(first.2, pkg_dir, old_seq, keys_of(maps));
                let second = cleanup_steps(first.2, pkg_dir, old_seq, keys_of(maps));
                lemma_valid_run_concat(fs, first.1, second.1);
                lemma_apply_run_concat(fs, first.1, second.1);
            }
        }
    }
}

/// Law: whatever an unload journals after its marker is a valid run, and
/// the model ends where replaying it leads.
pub proof fn lemma_unload_steps_valid(
    fs: FsMap,
    pkg_dir: Seq<char>,
    maps: Seq<(Seq<char>, Seq<char>)>,
)
    ensures
        ({
            let s = unload_steps(fs, pkg_dir, maps);
            valid_run(fs, s.1) && apply_run(fs, s.1) == s.2
        }),
    decreases maps.len(),
{
    if maps.len() > 0 {
        let step = crate::engine::unload_step(fs, pkg_dir, maps[0].0, maps[0].1);
        if step.0 is Ok {
            lemma_single_valid(
                fs,
                Action::RemoveSymlink { src: spec_join(pkg_dir, maps[0].0), dst: maps[0].1 },
            );
            lemma_unload_steps_valid(step.2, pkg_dir, maps.drop_first());
            let rest = unload_steps(step.2, pkg_dir, maps.drop_first());
            lemma_valid_run_concat(fs, step.1, rest.1);
            lemma_apply_run_concat(fs, step.1, rest.1);
        }
    }
}

/// No entry of the run removes a symbolic link.
pub open spec fn no_symlink_removal(run: Seq<Action>) -> bool {
    forall|i: int| 0 <= i < run.len() ==> !((#[trigger] run[i]) is RemoveSymlink)
}

/// A run without link removals is always undoable in the side-condition
/// sense.
proof fn lemma_no_removal_undo_ok(fs: FsMap, run: Seq<Action>)
    requires
        no_symlink_removal(run),
    ensures
        undo_ok(fs, run),
    decreases run.len(),
{
    if run.len() > 0 {
        assert(forall|i: int|
            0 <= i < run.drop_first().len() ==> (#[trigger] run.drop_first()[i]) == run[i + 1]);
        lemma_no_removal_undo_ok(crate::semantics::apply(fs, run[0]), run.drop_first());
    }
}

/// A first load — no prior trace — journals no link removal.
proof fn lemma_first_load_no_removal(
    fs: FsMap,
    pkg_dir: Seq<char>,
    maps: Seq<(Seq<char>, Seq<char>)>,
)
    ensures
        no_symlink_removal(load_steps(fs, pkg_dir, maps, Map::empty()).1),
    decreases maps.len(),
{
    if maps.len() > 0 {
        let step = load_step(fs, pkg_dir, maps[0].0, maps[0].1, Map::empty());
        if step.0 is Ok {
            lemma_first_load_no_removal(step.2, pkg_dir, maps.drop_first());
            let rest = load_steps(step.2, pkg_dir, maps.drop_first(), Map::empty());
            assert(forall|i: int|
                0 <= i < (step.1 + rest.1).len() ==> (#[trigger] (step.1 + rest.1)[i]) == (if i
                    < step.1.len() {
                    step.1[i]
                } else {
                    rest.1[i - step.1.len()]
                }));
        }
    }
}

/// Law (rollback exactness): a valid run whose removed links keep their
/// sources can be rolled back: every inverse is accepted, the rollback
/// journals exactly the reversed inverses, and the same paths exist
/// afterwards as before the run.
pub proof fn lemma_rollback_restores_paths(fs: FsMap, run: Seq<Action>)
    requires
        valid_run(fs, run),
        undo_ok(fs, run),
    ensures
        ({
            let u = undo_steps(apply_run(fs, run), run);
            &&& u.0 is Ok
            &&& u.1 == invert_run(run)
            &&& u.2.dom() == fs.dom()
        }),
{
    let fs1 = apply_run(fs, run);
    lemma_same_shape_refl(fs1);
    lemma_undo_run(fs, run, fs1);
    lemma_undo_steps_of_valid(fs1, run);
    assert(same_shape(apply_run(fs1, invert_run(run)), fs));
    assert(apply_run(fs1, invert_run(run)).dom() =~= fs.dom());
}

/// When every reversed inverse of a run is accepted in turn, undoing the
/// run performs exactly those inverses.
proof fn lemma_undo_steps_of_valid(fs1: FsMap, run: Seq<Action>)
    requires
        valid_run(fs1, invert_run(run)),
    ensures
        undo_steps(fs1, run) == (
            Ok::<(), ()>(()),
            invert_run(run),
            apply_run(fs1, invert_run(run)),
        ),
    decreases run.len(),
{
    if run.len() > 0 {
        let ir0 = invert_run(run.drop_first());
        let ia = seq![invert(run[0])];
        assert(invert_run(run) =~= ir0 + ia);
        lemma_valid_run_concat(fs1, ir0, ia);
        lemma_apply_run_concat(fs1, ir0, ia);
        assert(ia.drop_first() =~= Seq::<Action>::empty());
        lemma_undo_steps_of_valid(fs1, run.drop_first());
        let mid = apply_run(fs1, ir0);
        assert(can_apply(mid, invert(run[0])));
        assert(apply_run(
            crate::semantics::apply(mid, invert(run[0])),
            Seq::<Action>::empty(),
        ) == crate::semantics::apply(mid, invert(run[0])));
        assert(apply_run(mid, ia) == crate::semantics::apply(mid, invert(run[0])));
        assert(undo_steps(fs1, run).1 =~= ir0 + ia);
    }
}

/// Every pair of the mapping is realized in the model: the source exists
/// under the package directory and the destination is a symbolic link to
/// it.
pub open spec fn linked(fs: FsMap, pkg_dir: Seq<char>, maps: Seq<(Seq<char>, Seq<char>)>) -> bool {
    forall|i: int|
        0 <= i < maps.len() ==> {
            &&& fs.contains_key(spec_join(pkg_dir, (#[trigger] maps[i]).0))
            &&& fs.contains_key(maps[i].1)
            &&& fs[maps[i].1] == Entry::Symlink { target: spec_join(pkg_dir, maps[i].0) }
        }
}

/// The mapping's source keys are pairwise distinct.
pub open spec fn unique_keys(maps: Seq<(Seq<char>, Seq<char>)>) -> bool {
    forall|p: int, q: int|
        0 <= p < q < maps.len() ==> (#[trigger] maps[p]).0 != (#[trigger] maps[q]).0
}

/// The mapping's destinations are pairwise distinct.
pub open spec fn distinct_dsts(maps: Seq<(Seq<char>, Seq<char>)>) -> bool {
    forall|p: int, q: int|
        0 <= p < q < maps.len() ==> (#[trigger] maps[p]).1 != (#[trigger] maps[q]).1
}

/// Walking pairs that are all linked, with the prior trace agreeing on each
/// of them, checks and changes nothing.
proof fn lemma_keep_steps(
    fs: FsMap,
    pkg_dir: Seq<char>,
    sub: Seq<(Seq<char>, Seq<char>)>,
    old_map: Map<Seq<char>, Seq<char>>,
)
    requires
        linked(fs, pkg_dir, sub),
        forall|i: int|
            0 <= i < sub.len() ==> old_map.contains_key((#[trigger] sub[i]).0) && old_map[sub[i].0]
                == sub[i].1,
    ensures
        load_steps(fs, pkg_dir, sub, old_map) == (
            Ok::<(), LoadErrV>(()),
            Seq::<Action>::empty(),
            fs,
        ),
    decreases sub.len(),
{
    if sub.len() > 0 {
        assert(load_step(fs, pkg_dir, sub[0].0, sub[0].1, old_map) == (
            Ok::<(), LoadErrV>(()),
            Seq::<Action>::empty(),
            fs,
        ));
        assert(forall|i: int|
            0 <= i < sub.drop_first().len() ==> (#[trigger] sub.drop_first()[i]) == sub[i + 1]);
        lemma_keep_steps(fs, pkg_dir, sub.drop_first(), old_map);
        assert(Seq::<Action>::empty() + Seq::<Action>::empty() =~= Seq::<Action>::empty());
    }
}

/// Cleaning up prior pairs whose sources the new mapping still wants
/// changes nothing.
proof fn lemma_cleanup_none(
    fs: FsMap,
    pkg_dir: Seq<char>,
    old_seq: Seq<(Seq<char>, Seq<char>)>,
    keep: Set<Seq<char>>,
)
    requires
        forall|i: int| 0 <= i < old_seq.len() ==> keep.contains((#[trigger] old_seq[i]).0),
    ensures
        cleanup_steps(fs, pkg_dir, old_seq, keep) == (
            Ok::<(), LoadErrV>(()),
            Seq::<Action>::empty(),
            fs,
        ),
    decreases old_seq.len(),
{
    if old_seq.len() > 0 {
        assert(cleanup_step(fs, pkg_dir, old_seq[0].0, old_seq[0].1, keep) == (
            Ok::<(), LoadErrV>(()),
            Seq::<Action>::empty(),
            fs,
        ));
        assert(forall|i: int|
            0 <= i < old_seq.drop_first().len() ==> (#[trigger] old_seq.drop_first()[i])
                == old_seq[i + 1]);
        lemma_cleanup_none(fs, pkg_dir, old_seq.drop_first(), keep);
        assert(Seq::<Action>::empty() + Seq::<Action>::empty() =~= Seq::<Action>::empty());
    }
}

/// Law (idempotence): loading again with an unchanged mapping, its prior
/// trace equal to that mapping and every link still in place, succeeds,
/// journals nothing beyond the marker, and leaves the model untouched.
pub proof fn lemma_load_idempotent(
    fs: FsMap,
    root: Seq<char>,
    name: Seq<char>,
    directory: Seq<char>,
    maps: Seq<(Seq<char>, Seq<char>)>,
)
    requires
        unique_keys(maps),
        linked(fs, spec_join(root, directory), maps),
        fs.contains_key(spec_join(root, directory)),
    ensures
        load_full(fs, root, name, directory, maps, Some(PkgTraceV { directory, maps })) == (
            Ok::<(), LoadErrV>(()),
            Seq::<Action>::empty(),
            fs,
        ),
{
    let pkg_dir = spec_join(root, directory);
    let old_map = assoc_pairs(maps);
    assert forall|i: int|
        0 <= i < maps.len() implies old_map.contains_key((#[trigger] maps[i]).0)
        && old_map[maps[i].0] == maps[i].1 by {
        lemma_assoc_pairs_index(maps, i);
    }
    lemma_keep_steps(fs, pkg_dir, maps, old_map);
    assert forall|i: int| 0 <= i < maps.len() implies keys_of(maps).contains(
        (#[trigger] maps[i]).0,
    ) by {
        assert(exists|l: int| 0 <= l < maps.len() && maps[l].0 == maps[i].0);
    }
    lemma_cleanup_none(fs, pkg_dir, maps, keys_of(maps));
    assert(Seq::<Action>::empty() + Seq::<Action>::empty() =~= Seq::<Action>::empty());
}

/// Law (a first load converges): after a successful load with no prior
/// trace, every pair of the mapping is linked in place, and every path
/// that existed before still exists unchanged.
pub proof fn lemma_first_load_links(
    fs: FsMap,
    root: Seq<char>,
    name: Seq<char>,
    directory: Seq<char>,
    maps: Seq<(Seq<char>, Seq<char>)>,
)
    requires
        load_full(fs, root, name, directory, maps, None).0 is Ok,
    ensures
        ({
            let fs2 = load_full(fs, root, name, directory, maps, None).2;
            &&& linked(fs2, spec_join(root, directory), maps)
            &&& distinct_dsts(maps)
            &&& forall|i: int| 0 <= i < maps.len() ==> !fs.contains_key((#[trigger] maps[i]).1)
            &&& forall|p: Seq<char>|
                #[trigger] fs.contains_key(p) ==> fs2.contains_key(p) && fs2[p] == fs[p]
        }),
{
    let pkg_dir = spec_join(root, directory);
    lemma_steps_links(fs, pkg_dir, maps);
    let first = load_steps(fs, pkg_dir, maps, Map::empty());
    assert(load_full(fs, root, name, directory, maps, None).2 == first.2);
}

/// A first load's walk links each pair and preserves every existing entry;
/// each destination was free beforehand, so they are pairwise distinct.
proof fn lemma_steps_links(fs: FsMap, pkg_dir: Seq<char>, maps: Seq<(Seq<char>, Seq<char>)>)
    requires
        load_steps(fs, pkg_dir, maps, Map::empty()).0 is Ok,
    ensures
        ({
            let fs2 = load_steps(fs, pkg_dir, maps, Map::empty()).2;
            &&& linked(fs2, pkg_dir, maps)
            &&& distinct_dsts(maps)
            &&& forall|i: int| 0 <= i < maps.len() ==> !fs.contains_key((#[trigger] maps[i]).1)
            &&& forall|p: Seq<char>|
                #[trigger] fs.contains_key(p) ==> fs2.contains_key(p) && fs2[p] == fs[p]
        }),
    decreases maps.len(),
{
    if maps.len() > 0 {
        let old_map = Map::<Seq<char>, Seq<char>>::empty();
        let step = load_step(fs, pkg_dir, maps[0].0, maps[0].1, old_map);
        assert(step.0 is Ok);
        let src_path = spec_join(pkg_dir, maps[0].0);
        let fs0 = step.2;
        assert(fs0.contains_key(maps[0].1) && fs0[maps[0].1] == Entry::Symlink {
            target: src_path,
        });
        assert(forall|p: Seq<char>| fs.contains_key(p) ==> fs0.contains_key(p) && fs0[p] == fs[p]);
        lemma_steps_links(fs0, pkg_dir, maps.drop_first());
        let fs2 = load_steps(fs0, pkg_dir, maps.drop_first(), old_map).2;
        assert(forall|i: int|
            0 <= i < maps.drop_first().len() ==> (#[trigger] maps.drop_first()[i]) == maps[i + 1]);
        assert forall|p: Seq<char>| #[trigger] fs.contains_key(p) implies fs2.contains_key(p)
            && fs2[p] == fs[p] by {
            assert(fs0.contains_key(p) && fs0[p] == fs[p]);
            assert(fs2.contains_key(p) && fs2[p] == fs0[p]);
        }
        assert forall|i: int|
            0 <= i < maps.len() implies {
            &&& fs2.contains_key(spec_join(pkg_dir, (#[trigger] maps[i]).0))
            &&& fs2.contains_key(maps[i].1)
            &&& fs2[maps[i].1] == Entry::Symlink { target: spec_join(pkg_dir, maps[i].0) }
        } by {
            if i == 0 {
                assert(fs0.contains_key(src_path));
                assert(fs0.contains_key(maps[0].1));
                assert(fs2.contains_key(maps[0].1) && fs2[maps[0].1] == fs0[maps[0].1]);
                assert(fs2.contains_key(src_path));
            } else {
                assert(maps.drop_first()[i - 1] == maps[i]);
                assert(fs2.contains_key(spec_join(pkg_dir, maps.drop_first()[i - 1].0)));
                assert(fs2.contains_key(maps.drop_first()[i - 1].1));
            }
        }
        assert forall|i: int| 0 <= i < maps.len() implies !fs.contains_key(
            (#[trigger] maps[i]).1,
        ) by {
            if i > 0 {
                assert(maps.drop_first()[i - 1] == maps[i]);
                assert(!fs0.contains_key(maps.drop_first()[i - 1].1));
                if fs.contains_key(maps[i].1) {
                    assert(fs0.contains_key(maps[i].1));
                }
            }
        }
        assert forall|p: int, q: int|
            0 <= p < q < maps.len() implies (#[trigger] maps[p]).1 != (#[trigger] maps[q]).1 by {
            assert(maps.drop_first()[q - 1] == maps[q]);
            assert(!fs0.contains_key(maps.drop_first()[q - 1].1));
            if p == 0 {
                assert(fs0.contains_key(maps[0].1));
            } else {
                assert(maps.drop_first()[p - 1] == maps[p]);
            }
        }
    }
}

/// Law (rollback exactness, end to end): after a load with no prior trace
/// — succeeded or failed partway — the journal's last eligible run is the
/// load's own; rolling it back succeeds, restores exactly the set of paths
/// that existed before the load, and leaves a journal with nothing
/// eligible for a second rollback.
pub proof fn lemma_load_then_rollback(
    msgs: Seq<Action>,
    fs: FsMap,
    root: Seq<char>,
    name: Seq<char>,
    directory: Seq<char>,
    maps: Seq<(Seq<char>, Seq<char>)>,
)
    ensures
        ({
            let s = load_full(fs, root, name, directory, maps, None);
            let whole = msgs.push(Action::LoadModule(name)) + s.1;
            let u = undo_steps(s.2, whole.skip(msgs.len() as int + 1));
            &&& last_run_start(whole) == Some(msgs.len() as int)
            &&& u.0 is Ok
            &&& u.2.dom() == fs.dom()
            &&& last_run_start(
                whole + seq![rollback_marker(whole[msgs.len() as int])] + u.1,
            ) is None
        }),
{
    let s = load_full(fs, root, name, directory, maps, None);
    lemma_load_full_valid(fs, root, name, directory, maps, None);
    crate::semantics::lemma_valid_run_mutations(fs, s.1);
    crate::semantics::lemma_run_found_after_op(msgs, Action::LoadModule(name), s.1);
    let whole = msgs.push(Action::LoadModule(name)) + s.1;
    assert(whole.skip(msgs.len() as int + 1) == s.1);
    lemma_first_load_rollback(fs, root, name, directory, maps);
    lemma_no_second_rollback(whole, s.2, msgs.len() as int);
}

/// Whatever undoing a run journals is primitive mutations only.
proof fn lemma_undo_steps_mutations(fs: FsMap, tail: Seq<Action>)
    ensures
        ({
            let u = undo_steps(fs, tail);
            forall|i: int| 0 <= i < u.1.len() ==> (#[trigger] u.1[i]).is_mutation()
        }),
    decreases tail.len(),
{
    if tail.len() > 0 {
        let rest = undo_steps(fs, tail.drop_first());
        lemma_undo_steps_mutations(fs, tail.drop_first());
        if rest.0 is Ok {
            let one = crate::runner::undo_one(rest.2, tail[0]);
            assert(forall|i: int|
                0 <= i < (rest.1 + one.1).len() ==> (#[trigger] (rest.1 + one.1)[i]) == (if i
                    < rest.1.len() {
                    rest.1[i]
                } else {
                    one.1[i - rest.1.len()]
                }));
        }
    }
}

/// Law (no double undo): the journal a rollback leaves behind — the
/// rollback marker followed by the undone mutations — holds no eligible
/// run, so a second rollback finds nothing to undo.
pub proof fn lemma_no_second_rollback(msgs: Seq<Action>, fs: FsMap, i: int)
    requires
        last_run_start(msgs) == Some(i),
    ensures
        ({
            let u = undo_steps(fs, msgs.skip(i + 1));
            last_run_start(msgs + seq![rollback_marker(msgs[i])] + u.1) is None
        }),
{
    lemma_last_run_start_props(msgs);
    let u = undo_steps(fs, msgs.skip(i + 1));
    lemma_undo_steps_mutations(fs, msgs.skip(i + 1));
    let added = seq![rollback_marker(msgs[i])] + u.1;
    assert(added[0] == rollback_marker(msgs[i]));
    assert(added[0] is RollbackLoadModule || added[0] is RollbackUnloadModule);
    assert(forall|j: int| 1 <= j < added.len() ==> (#[trigger] added[j]) == u.1[j - 1]);
    assert(forall|j: int| 1 <= j < added.len() ==> (#[trigger] added[j]).is_mutation());
    lemma_no_run_after_rollback(msgs, added);
    assert(msgs + seq![rollback_marker(msgs[i])] + u.1 =~= msgs + added);
}

/// Law (diff minimality): when exactly one mapping's destination changes,
/// and no other pair, parent, or source stands in the way, reloading
/// performs exactly one link removal and one link creation, both for that
/// source, and touches nothing else.
pub proof fn lemma_reload_one_change(
    fs: FsMap,
    root: Seq<char>,
    name: Seq<char>,
    directory: Seq<char>,
    maps1: Seq<(Seq<char>, Seq<char>)>,
    k: int,
    d2: Seq<char>,
)
    requires
        unique_keys(maps1),
        distinct_dsts(maps1),
        linked(fs, spec_join(root, directory), maps1),
        fs.contains_key(spec_join(root, directory)),
        0 <= k < maps1.len(),
        d2 != maps1[k].1,
        !fs.contains_key(d2),
        spec_parent(d2) matches Some(par) ==> fs.contains_key(par) && fs[par] is Dir && par
            != maps1[k].1,
        forall|i: int|
            0 <= i < maps1.len() ==> spec_join(spec_join(root, directory), (#[trigger] maps1[i]).0)
                != maps1[k].1,
    ensures
        ({
            let pd = spec_join(root, directory);
            let sp = spec_join(pd, maps1[k].0);
            let maps2 = maps1.update(k, (maps1[k].0, d2));
            load_full(fs, root, name, directory, maps2, Some(PkgTraceV { directory, maps: maps1 }))
                == (
                Ok::<(), LoadErrV>(()),
                seq![
                    Action::RemoveSymlink { src: sp, dst: maps1[k].1 },
                    Action::CreateSymlink { src: sp, dst: d2 },
                ],
                fs.remove(maps1[k].1).insert(d2, Entry::Symlink { target: sp }),
            )
        }),
{
    let pd = spec_join(root, directory);
    let sp = spec_join(pd, maps1[k].0);
    let d1 = maps1[k].1;
    let maps2 = maps1.update(k, (maps1[k].0, d2));
    let old_map = assoc_pairs(maps1);
    assert forall|i: int|
        0 <= i < maps1.len() implies old_map.contains_key((#[trigger] maps1[i]).0)
        && old_map[maps1[i].0] == maps1[i].1 by {
        lemma_assoc_pairs_index(maps1, i);
    }
    // the unchanged prefix is kept as it is
    assert(maps2.take(k) =~= maps1.take(k));
    assert(forall|i: int| 0 <= i < k ==> (#[trigger] maps1.take(k)[i]) == maps1[i]);
    lemma_keep_steps(fs, pd, maps1.take(k), old_map);
    lemma_load_steps_split(fs, pd, maps2, old_map, k);
    // the changed pair: remove the old link, create the new one
    let step = load_step(fs, pd, maps1[k].0, d2, old_map);
    let fsk = fs.remove(d1).insert(d2, Entry::Symlink { target: sp });
    assert(step == (
        Ok::<(), LoadErrV>(()),
        seq![
            Action::RemoveSymlink { src: sp, dst: d1 },
            Action::CreateSymlink { src: sp, dst: d2 },
        ],
        fsk,
    )) by {
        assert(fs[d1] == Entry::Symlink { target: sp });
        assert(sp != d1);
        assert(seq![Action::RemoveSymlink { src: sp, dst: d1 }].push(
            Action::CreateSymlink { src: sp, dst: d2 },
        ) =~= seq![
            Action::RemoveSymlink { src: sp, dst: d1 },
            Action::CreateSymlink { src: sp, dst: d2 },
        ]);
    }
    // the unchanged suffix is kept as it is, in the adjusted model
    assert(maps2.skip(k)[0] == (maps1[k].0, d2));
    assert(maps2.skip(k).drop_first() =~= maps1.skip(k + 1));
    assert(forall|i: int|
        0 <= i < maps1.skip(k + 1).len() ==> (#[trigger] maps1.skip(k + 1)[i]) == maps1[i + k
            + 1]);
    assert forall|i: int|
        0 <= i < maps1.skip(k + 1).len() implies {
        &&& fsk.contains_key(spec_join(pd, (#[trigger] maps1.skip(k + 1)[i]).0))
        &&& fsk.contains_key(maps1.skip(k + 1)[i].1)
        &&& fsk[maps1.skip(k + 1)[i].1] == Entry::Symlink {
            target: spec_join(pd, maps1.skip(k + 1)[i].0),
        }
    } by {
        let j = i + k + 1;
        assert(maps1.skip(k + 1)[i] == maps1[j]);
        assert(maps1[j].1 != d1);
        assert(spec_join(pd, maps1[j].0) != d1);
        assert(fs.contains_key(maps1[j].1));
        assert(maps1[j].1 != d2);
        assert(spec_join(pd, maps1[j].0) != d2);
    }
    lemma_keep_steps(fsk, pd, maps1.skip(k + 1), old_map);
    let stepacts = seq![
        Action::RemoveSymlink { src: sp, dst: d1 },
        Action::CreateSymlink { src: sp, dst: d2 },
    ];
    assert(load_steps(fs, pd, maps2, old_map) == (Ok::<(), LoadErrV>(()), stepacts, fsk)) by {
        assert(stepacts + Seq::<Action>::empty() =~= stepacts);
        assert(Seq::<Action>::empty() + stepacts =~= stepacts);
    }
    // no prior pair is dropped, so the cleanup does nothing
    assert forall|i: int| 0 <= i < maps1.len() implies keys_of(maps2).contains(
        (#[trigger] maps1[i]).0,
    ) by {
        assert(maps2[i].0 == maps1[i].0);
    }
    lemma_cleanup_none(fsk, pd, maps1, keys_of(maps2));
    assert(stepacts + Seq::<Action>::empty() =~= stepacts);
}

/// Law (addition): declaring one new pair, its source in place and its
/// destination free with its parent present, reloads with exactly one new
/// link created and nothing else touched.
pub proof fn lemma_reload_addition(
    fs: FsMap,
    root: Seq<char>,
    name: Seq<char>,
    directory: Seq<char>,
    maps1: Seq<(Seq<char>, Seq<char>)>,
    pos: int,
    s2: Seq<char>,
    d2: Seq<char>,
)
    requires
        unique_keys(maps1),
        linked(fs, spec_join(root, directory), maps1),
        fs.contains_key(spec_join(root, directory)),
        0 <= pos <= maps1.len(),
        forall|i: int| 0 <= i < maps1.len() ==> (#[trigger] maps1[i]).0 != s2,
        !fs.contains_key(d2),
        fs.contains_key(spec_join(spec_join(root, directory), s2)),
        spec_parent(d2) matches Some(par) ==> fs.contains_key(par) && fs[par] is Dir,
    ensures
        ({
            let pd = spec_join(root, directory);
            let sp = spec_join(pd, s2);
            let maps2 = maps1.insert(pos, (s2, d2));
            load_full(fs, root, name, directory, maps2, Some(PkgTraceV { directory, maps: maps1 }))
                == (
                Ok::<(), LoadErrV>(()),
                seq![Action::CreateSymlink { src: sp, dst: d2 }],
                fs.insert(d2, Entry::Symlink { target: sp }),
            )
        }),
{
    let pd = spec_join(root, directory);
    let sp = spec_join(pd, s2);
    let maps2 = maps1.insert(pos, (s2, d2));
    let old_map = assoc_pairs(maps1);
    maps1.insert_ensures(pos, (s2, d2));
    assert forall|i: int|
        0 <= i < maps1.len() implies old_map.contains_key((#[trigger] maps1[i]).0)
        && old_map[maps1[i].0] == maps1[i].1 by {
        lemma_assoc_pairs_index(maps1, i);
    }
    // prefix kept
    assert(maps2.take(pos) =~= maps1.take(pos));
    assert(forall|i: int| 0 <= i < pos ==> (#[trigger] maps1.take(pos)[i]) == maps1[i]);
    lemma_keep_steps(fs, pd, maps1.take(pos), old_map);
    lemma_load_steps_split(fs, pd, maps2, old_map, pos);
    // the new pair creates its link
    let step = load_step(fs, pd, s2, d2, old_map);
    let fsk = fs.insert(d2, Entry::Symlink { target: sp });
    assert(step == (
        Ok::<(), LoadErrV>(()),
        seq![Action::CreateSymlink { src: sp, dst: d2 }],
        fsk,
    )) by {
        lemma_assoc_pairs_contains(maps1, s2);
        assert(!old_map.contains_key(s2));
        assert(Seq::<Action>::empty().push(Action::CreateSymlink { src: sp, dst: d2 })
            =~= seq![Action::CreateSymlink { src: sp, dst: d2 }]);
    }
    // suffix kept in the grown model
    assert(maps2.skip(pos)[0] == (s2, d2));
    assert(maps2.skip(pos).drop_first() =~= maps1.skip(pos));
    assert(forall|i: int|
        0 <= i < maps1.skip(pos).len() ==> (#[trigger] maps1.skip(pos)[i]) == maps1[i + pos]);
    assert forall|i: int|
        0 <= i < maps1.skip(pos).len() implies {
        &&& fsk.contains_key(spec_join(pd, (#[trigger] maps1.skip(pos)[i]).0))
        &&& fsk.contains_key(maps1.skip(pos)[i].1)
        &&& fsk[maps1.skip(pos)[i].1] == Entry::Symlink {
            target: spec_join(pd, maps1.skip(pos)[i].0),
        }
    } by {
        let j = i + pos;
        assert(maps1.skip(pos)[i] == maps1[j]);
        assert(fs.contains_key(maps1[j].1));
        assert(maps1[j].1 != d2);
    }
    lemma_keep_steps(fsk, pd, maps1.skip(pos), old_map);
    let stepacts = seq![Action::CreateSymlink { src: sp, dst: d2 }];
    assert(load_steps(fs, pd, maps2, old_map) == (Ok::<(), LoadErrV>(()), stepacts, fsk)) by {
        assert(stepacts + Seq::<Action>::empty() =~= stepacts);
        assert(Seq::<Action>::empty() + stepacts =~= stepacts);
    }
    // no prior pair is dropped
    assert forall|i: int| 0 <= i < maps1.len() implies keys_of(maps2).contains(
        (#[trigger] maps1[i]).0,
    ) by {
        if i < pos {
            assert(maps2[i].0 == maps1[i].0);
        } else {
            assert(maps2[i + 1].0 == maps1[i].0);
        }
    }
    lemma_cleanup_none(fsk, pd, maps1, keys_of(maps2));
    assert(stepacts + Seq::<Action>::empty() =~= stepacts);
}

/// Law (addition under a missing parent): declaring one new pair whose
/// destination's parent is absent reloads with exactly one directory
/// creation followed by one link creation, and nothing else touched.
pub proof fn lemma_reload_addition_new_parent(
    fs: FsMap,
    root: Seq<char>,
    name: Seq<char>,
    directory: Seq<char>,
    maps1: Seq<(Seq<char>, Seq<char>)>,
    pos: int,
    s2: Seq<char>,
    d2: Seq<char>,
)
    requires
        unique_keys(maps1),
        linked(fs, spec_join(root, directory), maps1),
        fs.contains_key(spec_join(root, directory)),
        0 <= pos <= maps1.len(),
        forall|i: int| 0 <= i < maps1.len() ==> (#[trigger] maps1[i]).0 != s2,
        !fs.contains_key(d2),
        fs.contains_key(spec_join(spec_join(root, directory), s2)),
        spec_parent(d2) matches Some(par) && !fs.contains_key(par) && (forall|j: int|
            0 <= j < maps1.len() ==> par != (#[trigger] maps1[j]).1),
    ensures
        ({
            let pd = spec_join(root, directory);
            let sp = spec_join(pd, s2);
            let par = spec_parent(d2).unwrap();
            let maps2 = maps1.insert(pos, (s2, d2));
            load_full(fs, root, name, directory, maps2, Some(PkgTraceV { directory, maps: maps1 }))
                == (
                Ok::<(), LoadErrV>(()),
                seq![Action::CreateDir(par), Action::CreateSymlink { src: sp, dst: d2 }],
                fs.insert(par, Entry::Dir).insert(d2, Entry::Symlink { target: sp }),
            )
        }),
{
    let pd = spec_join(root, directory);
    let sp = spec_join(pd, s2);
    let par = spec_parent(d2).unwrap();
    let maps2 = maps1.insert(pos, (s2, d2));
    let old_map = assoc_pairs(maps1);
    maps1.insert_ensures(pos, (s2, d2));
    crate::path::lemma_spec_parent_shorter(d2);
    assert(par != d2);
    assert forall|i: int|
        0 <= i < maps1.len() implies old_map.contains_key((#[trigger] maps1[i]).0)
        && old_map[maps1[i].0] == maps1[i].1 by {
        lemma_assoc_pairs_index(maps1, i);
    }
    // prefix kept
    assert(maps2.take(pos) =~= maps1.take(pos));
    assert(forall|i: int| 0 <= i < pos ==> (#[trigger] maps1.take(pos)[i]) == maps1[i]);
    lemma_keep_steps(fs, pd, maps1.take(pos), old_map);
    lemma_load_steps_split(fs, pd, maps2, old_map, pos);
    // the new pair creates the parent directory, then its link
    let step = load_step(fs, pd, s2, d2, old_map);
    let fsk = fs.insert(par, Entry::Dir).insert(d2, Entry::Symlink { target: sp });
    let stepacts = seq![Action::CreateDir(par), Action::CreateSymlink { src: sp, dst: d2 }];
    assert(step == (Ok::<(), LoadErrV>(()), stepacts, fsk)) by {
        lemma_assoc_pairs_contains(maps1, s2);
        assert(!old_map.contains_key(s2));
        assert(Seq::<Action>::empty().push(Action::CreateDir(par)).push(
            Action::CreateSymlink { src: sp, dst: d2 },
        ) =~= stepacts);
    }
    // suffix kept in the grown model
    assert(maps2.skip(pos)[0] == (s2, d2));
    assert(maps2.skip(pos).drop_first() =~= maps1.skip(pos));
    assert(forall|i: int|
        0 <= i < maps1.skip(pos).len() ==> (#[trigger] maps1.skip(pos)[i]) == maps1[i + pos]);
    assert forall|i: int|
        0 <= i < maps1.skip(pos).len() implies {
        &&& fsk.contains_key(spec_join(pd, (#[trigger] maps1.skip(pos)[i]).0))
        &&& fsk.contains_key(maps1.skip(pos)[i].1)
        &&& fsk[maps1.skip(pos)[i].1] == Entry::Symlink {
            target: spec_join(pd, maps1.skip(pos)[i].0),
        }
    } by {
        let j = i + pos;
        assert(maps1.skip(pos)[i] == maps1[j]);
        assert(fs.contains_key(maps1[j].1));
        assert(maps1[j].1 != d2);
        assert(maps1[j].1 != par);
    }
    lemma_keep_steps(fsk, pd, maps1.skip(pos), old_map);
    assert(load_steps(fs, pd, maps2, old_map) == (Ok::<(), LoadErrV>(()), stepacts, fsk)) by {
        assert(stepacts + Seq::<Action>::empty() =~= stepacts);
        assert(Seq::<Action>::empty() + stepacts =~= stepacts);
    }
    // no prior pair is dropped
    assert forall|i: int| 0 <= i < maps1.len() implies keys_of(maps2).contains(
        (#[trigger] maps1[i]).0,
    ) by {
        if i < pos {
            assert(maps2[i].0 == maps1[i].0);
        } else {
            assert(maps2[i + 1].0 == maps1[i].0);
        }
    }
    lemma_cleanup_none(fsk, pd, maps1, keys_of(maps2));
    assert(stepacts + Seq::<Action>::empty() =~= stepacts);
}

/// Law (removal): dropping one pair from the declaration reloads with
/// exactly that pair's link removed and nothing else touched.
pub proof fn lemma_reload_removal(
    fs: FsMap,
    root: Seq<char>,
    name: Seq<char>,
    directory: Seq<char>,
    maps1: Seq<(Seq<char>, Seq<char>)>,
    k: int,
)
    requires
        unique_keys(maps1),
        linked(fs, spec_join(root, directory), maps1),
        fs.contains_key(spec_join(root, directory)),
        0 <= k < maps1.len(),
    ensures
        ({
            let pd = spec_join(root, directory);
            let sp = spec_join(pd, maps1[k].0);
            let maps2 = maps1.remove(k);
            load_full(fs, root, name, directory, maps2, Some(PkgTraceV { directory, maps: maps1 }))
                == (
                Ok::<(), LoadErrV>(()),
                seq![Action::RemoveSymlink { src: sp, dst: maps1[k].1 }],
                fs.remove(maps1[k].1),
            )
        }),
{
    let pd = spec_join(root, directory);
    let sp = spec_join(pd, maps1[k].0);
    let d1 = maps1[k].1;
    let maps2 = maps1.remove(k);
    let old_map = assoc_pairs(maps1);
    maps1.remove_ensures(k);
    assert forall|i: int|
        0 <= i < maps1.len() implies old_map.contains_key((#[trigger] maps1[i]).0)
        && old_map[maps1[i].0] == maps1[i].1 by {
        lemma_assoc_pairs_index(maps1, i);
    }
    // every remaining pair is kept as it is
    assert forall|i: int|
        0 <= i < maps2.len() implies {
        &&& fs.contains_key(spec_join(pd, (#[trigger] maps2[i]).0))
        &&& fs.contains_key(maps2[i].1)
        &&& fs[maps2[i].1] == Entry::Symlink { target: spec_join(pd, maps2[i].0) }
        &&& old_map.contains_key(maps2[i].0)
        &&& old_map[maps2[i].0] == maps2[i].1
    } by {
        if i < k {
            assert(maps2[i] == maps1[i]);
        } else {
            assert(maps2[i] == maps1[i + 1]);
        }
    }
    lemma_keep_steps(fs, pd, maps2, old_map);
    // the cleanup drops exactly the removed pair's link
    assert(maps1.take(k) =~= maps1.take(k));
    assert forall|i: int| 0 <= i < k implies keys_of(maps2).contains(
        (#[trigger] maps1.take(k)[i]).0,
    ) by {
        assert(maps1.take(k)[i] == maps1[i]);
        assert(maps2[i].0 == maps1[i].0);
    }
    lemma_cleanup_none(fs, pd, maps1.take(k), keys_of(maps2));
    lemma_cleanup_steps_split(fs, pd, maps1, keys_of(maps2), k);
    let cstep = cleanup_step(fs, pd, maps1[k].0, d1, keys_of(maps2));
    assert(cstep == (
        Ok::<(), LoadErrV>(()),
        seq![Action::RemoveSymlink { src: sp, dst: d1 }],
        fs.remove(d1),
    )) by {
        assert forall|l: int| 0 <= l < maps2.len() implies (#[trigger] maps2[l]).0
            != maps1[k].0 by {
            if l < k {
                assert(maps2[l] == maps1[l]);
            } else {
                assert(maps2[l] == maps1[l + 1]);
            }
        }
        assert(!keys_of(maps2).contains(maps1[k].0));
        assert(fs[d1] is Symlink);
    }
    // later prior pairs are skipped: their sources are still wanted
    assert(maps1.skip(k)[0] == maps1[k]);
    assert(maps1.skip(k).drop_first() =~= maps1.skip(k + 1));
    assert forall|i: int| 0 <= i < maps1.skip(k + 1).len() implies keys_of(maps2).contains(
        (#[trigger] maps1.skip(k + 1)[i]).0,
    ) by {
        assert(maps1.skip(k + 1)[i] == maps1[i + k + 1]);
        assert(maps2[i + k].0 == maps1[i + k + 1].0);
    }
    lemma_cleanup_none(fs.remove(d1), pd, maps1.skip(k + 1), keys_of(maps2));
    let cacts = seq![Action::RemoveSymlink { src: sp, dst: d1 }];
    assert(cleanup_steps(fs, pd, maps1, keys_of(maps2)) == (
        Ok::<(), LoadErrV>(()),
        cacts,
        fs.remove(d1),
    )) by {
        assert(cacts + Seq::<Action>::empty() =~= cacts);
        assert(Seq::<Action>::empty() + cacts =~= cacts);
    }
    assert(Seq::<Action>::empty() + cacts =~= cacts);
}

/// Law (foreign-object guard): when any one traced destination has been
/// replaced by something that is not a symbolic link, reloading the
/// unchanged mapping fails naming that pair, performs no mutation, and
/// journals nothing — the foreign entry is left exactly as found.
pub proof fn lemma_foreign_destination_fails(
    fs: FsMap,
    root: Seq<char>,
    name: Seq<char>,
    directory: Seq<char>,
    maps: Seq<(Seq<char>, Seq<char>)>,
    k: int,
)
    requires
        unique_keys(maps),
        fs.contains_key(spec_join(root, directory)),
        0 <= k < maps.len(),
        forall|i: int|
            0 <= i < maps.len() && i != k ==> {
                &&& fs.contains_key(spec_join(spec_join(root, directory), (#[trigger] maps[i]).0))
                &&& fs.contains_key(maps[i].1)
                &&& fs[maps[i].1] == Entry::Symlink {
                    target: spec_join(spec_join(root, directory), maps[i].0),
                }
            },
        fs.contains_key(spec_join(spec_join(root, directory), maps[k].0)),
        fs.contains_key(maps[k].1),
        !(fs[maps[k].1] is Symlink),
    ensures
        load_full(fs, root, name, directory, maps, Some(PkgTraceV { directory, maps })) == (
            Err::<(), LoadErrV>(LoadErrV::DstNotSymlink { src: maps[k].0, dst: maps[k].1 }),
            Seq::<Action>::empty(),
            fs,
        ),
{
    let pd = spec_join(root, directory);
    let old_map = assoc_pairs(maps);
    assert forall|i: int|
        0 <= i < maps.len() implies old_map.contains_key((#[trigger] maps[i]).0)
        && old_map[maps[i].0] == maps[i].1 by {
        lemma_assoc_pairs_index(maps, i);
    }
    assert(forall|i: int| 0 <= i < k ==> (#[trigger] maps.take(k)[i]) == maps[i]);
    lemma_keep_steps(fs, pd, maps.take(k), old_map);
    lemma_load_steps_split(fs, pd, maps, old_map, k);
    let step = load_step(fs, pd, maps[k].0, maps[k].1, old_map);
    assert(step == (
        Err::<(), LoadErrV>(LoadErrV::DstNotSymlink { src: maps[k].0, dst: maps[k].1 }),
        Seq::<Action>::empty(),
        fs,
    ));
    assert(maps.skip(k)[0] == maps[k]);
    assert(Seq::<Action>::empty() + Seq::<Action>::empty() =~= Seq::<Action>::empty());
}

/// Law (unload-then-missing): when the traced destination at position `k`
/// has been deleted by hand while every earlier pair's destination is
/// still a symbolic link (those destinations pairwise distinct), the
/// unload walk fails naming that pair; exactly the earlier pairs'
/// removals stand, in trace order, and nothing else changes: a path
/// exists afterwards exactly when it existed before and is none of the
/// earlier destinations, unchanged in value.
pub proof fn lemma_unload_missing_destination(
    fs: FsMap,
    pkg_dir: Seq<char>,
    maps: Seq<(Seq<char>, Seq<char>)>,
    k: int,
)
    requires
        0 <= k < maps.len(),
        forall|i: int|
            0 <= i < k ==> fs.contains_key((#[trigger] maps[i]).1) && fs[maps[i].1] is Symlink,
        !fs.contains_key(maps[k].1),
        forall|p: int, q: int| 0 <= p < q < k ==> (#[trigger] maps[p]).1 != (#[trigger] maps[q]).1,
    ensures
        ({
            let u = unload_steps(fs, pkg_dir, maps);
            &&& u.0 == Err::<(), crate::errors::UnloadErrV>(
                crate::errors::UnloadErrV::DstNotFound { src: maps[k].0, dst: maps[k].1 },
            )
            &&& u.1.len() == k
            &&& forall|i: int|
                0 <= i < k ==> u.1[i] == Action::RemoveSymlink {
                    src: spec_join(pkg_dir, (#[trigger] maps[i]).0),
                    dst: maps[i].1,
                }
            &&& forall|p: Seq<char>| #[trigger]
                u.2.contains_key(p) <==> (fs.contains_key(p) && (forall|i: int|
                    0 <= i < k ==> p != (#[trigger] maps[i]).1))
            &&& forall|p: Seq<char>| #[trigger] u.2.contains_key(p) ==> u.2[p] == fs[p]
        }),
    decreases k,
{
    let u = unload_steps(fs, pkg_dir, maps);
    if k == 0 {
        assert(u == (
            Err::<(), crate::errors::UnloadErrV>(
                crate::errors::UnloadErrV::DstNotFound { src: maps[0].0, dst: maps[0].1 },
            ),
            Seq::<Action>::empty(),
            fs,
        ));
    } else {
        let step = crate::engine::unload_step(fs, pkg_dir, maps[0].0, maps[0].1);
        let d0 = maps[0].1;
        assert(step == (
            Ok::<(), crate::errors::UnloadErrV>(()),
            seq![Action::RemoveSymlink { src: spec_join(pkg_dir, maps[0].0), dst: d0 }],
            fs.remove(d0),
        ));
        let rest0 = maps.drop_first();
        assert(forall|i: int| 0 <= i < rest0.len() ==> (#[trigger] rest0[i]) == maps[i + 1]);
        assert forall|i: int|
            0 <= i < k - 1 implies fs.remove(d0).contains_key((#[trigger] rest0[i]).1)
            && fs.remove(d0)[rest0[i].1] is Symlink by {
            assert(rest0[i] == maps[i + 1]);
            assert(maps[i + 1].1 != d0);
        }
        lemma_unload_missing_destination(fs.remove(d0), pkg_dir, rest0, k - 1);
        let rest = unload_steps(fs.remove(d0), pkg_dir, rest0);
        assert(rest0[k - 1] == maps[k]);
        assert(u == (rest.0, step.1 + rest.1, rest.2));
        assert forall|i: int|
            0 <= i < k implies u.1[i] == Action::RemoveSymlink {
            src: spec_join(pkg_dir, (#[trigger] maps[i]).0),
            dst: maps[i].1,
        } by {
            if i > 0 {
                assert(u.1[i] == rest.1[i - 1]);
                assert(rest0[i - 1] == maps[i]);
            }
        }
        assert forall|p: Seq<char>| #[trigger]
            u.2.contains_key(p) <==> (fs.contains_key(p) && (forall|i: int|
                0 <= i < k ==> p != (#[trigger] maps[i]).1)) by {
            if u.2.contains_key(p) {
                assert(fs.remove(d0).contains_key(p));
                assert forall|i: int| 0 <= i < k implies p != (#[trigger] maps[i]).1 by {
                    if i > 0 {
                        assert(rest0[i - 1] == maps[i]);
                        assert(p != rest0[i - 1].1);
                    }
                }
            }
            if fs.contains_key(p) && (forall|i: int| 0 <= i < k ==> p != (#[trigger] maps[i]).1) {
                assert(p != maps[0].1);
                assert(fs.remove(d0).contains_key(p));
                assert forall|i: int| 0 <= i < k - 1 implies p != (#[trigger] rest0[i]).1 by {
                    assert(rest0[i] == maps[i + 1]);
                }
            }
        }
    }
}

/// Law (rollback exactness for a first load): after a load with no prior
/// trace — whether it succeeded or failed partway — undoing the journalled
/// run succeeds and the set of existing paths is exactly what it was
/// before the load.
pub proof fn lemma_first_load_rollback(
    fs: FsMap,
    root: Seq<char>,
    name: Seq<char>,
    directory: Seq<char>,
    maps: Seq<(Seq<char>, Seq<char>)>,
)
    ensures
        ({
            let s = load_full(fs, root, name, directory, maps, None);
            let u = undo_steps(s.2, s.1);
            &&& u.0 is Ok
            &&& u.1 == invert_run(s.1)
            &&& u.2.dom() == fs.dom()
        }),
{
    let s = load_full(fs, root, name, directory, maps, None);
    let pkg_dir = spec_join(root, directory);
    lemma_load_full_valid(fs, root, name, directory, maps, None);
    if fs.contains_key(pkg_dir) {
        let first = load_steps(fs, pkg_dir, maps, Map::empty());
        lemma_first_load_no_removal(fs, pkg_dir, maps);
        if first.0 is Ok {
            assert(s.1 == first.1 + cleanup_steps(
                first.2,
                pkg_dir,
                Seq::<(Seq<char>, Seq<char>)>::empty(),
                keys_of(maps),
            ).1);
            assert(s.1 =~= first.1);
        } else {
            assert(s.1 == first.1);
        }
    } else {
        assert(no_symlink_removal(s.1));
    }
    lemma_no_removal_undo_ok(fs, s.1);
    lemma_rollback_restores_paths(fs, s.1);
}

} // verus!
