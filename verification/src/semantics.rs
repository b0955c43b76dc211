//! The meaning of a journal run: how each primitive mutation transforms the
//! filesystem model, when it is accepted, and why replaying a run's inverses
//! in reverse order restores the set of existing paths.

use vstd::prelude::*;

use crate::fs_state::Entry;
use crate::message::Action;

verus! {

/// The filesystem model as contracts speak of it.
pub type FsMap = Map<Seq<char>, Entry>;

/// The inverse of a primitive mutation; markers are their own inverse.
pub open spec fn invert(a: Action) -> Action {
    match a {
        Action::CreateDir(p) => Action::RemoveDir(p),
        Action::RemoveDir(p) => Action::CreateDir(p),
        Action::CreateSymlink { src, dst } => Action::RemoveSymlink { src, dst },
        Action::RemoveSymlink { src, dst } => Action::CreateSymlink { src, dst },
        _ => a,
    }
}

/// The conditions under which the engine performs and journals `a`.
pub open spec fn can_apply(fs: FsMap, a: Action) -> bool {
    match a {
        Action::CreateDir(p) => !fs.contains_key(p),
        Action::CreateSymlink { src, dst } => fs.contains_key(src) && !fs.contains_key(dst),
        Action::RemoveDir(p) => fs.contains_key(p) && fs[p] is Dir,
        Action::RemoveSymlink { src: _, dst } => fs.contains_key(dst) && fs[dst] is Symlink,
        _ => false,
    }
}

/// How `a` transforms the model.
pub open spec fn apply(fs: FsMap, a: Action) -> FsMap {
    match a {
        Action::CreateDir(p) => fs.insert(p, Entry::Dir),
        Action::CreateSymlink { src, dst } => fs.insert(dst, Entry::Symlink { target: src }),
        Action::RemoveDir(p) => fs.remove(p),
        Action::RemoveSymlink { src: _, dst } => fs.remove(dst),
        _ => fs,
    }
}

/// The model after the whole run, first entry first.
pub open spec fn apply_run(fs: FsMap, run: Seq<Action>) -> FsMap
    decreases run.len(),
{
    if run.len() == 0 {
        fs
    } else {
        apply_run(apply(fs, run[0]), run.drop_first())
    }
}

/// Every entry of the run was accepted in the state it found.
pub open spec fn valid_run(fs: FsMap, run: Seq<Action>) -> bool
    decreases run.len(),
{
    run.len() == 0 || (can_apply(fs, run[0]) && valid_run(apply(fs, run[0]), run.drop_first()))
}

/// Beyond validity: each removed link's source is still present right after
/// the removal, so that the inverse creation can find it.
pub open spec fn undo_ok(fs: FsMap, run: Seq<Action>) -> bool
    decreases run.len(),
{
    run.len() == 0 || ({
        &&& (run[0] matches Action::RemoveSymlink { src, dst: _ } ==> apply(
            fs,
            run[0],
        ).contains_key(src))
        &&& undo_ok(apply(fs, run[0]), run.drop_first())
    })
}

/// The run's inverses, in reverse order.
pub open spec fn invert_run(run: Seq<Action>) -> Seq<Action>
    decreases run.len(),
{
    if run.len() == 0 {
        Seq::empty()
    } else {
        invert_run(run.drop_first()).push(invert(run[0]))
    }
}

/// Two entries occupy a path in the same way, whatever a link's target.
pub open spec fn kind_eq(x: Entry, y: Entry) -> bool {
    &&& (x is Dir <==> y is Dir)
    &&& (x is File <==> y is File)
    &&& (x is Symlink <==> y is Symlink)
}

/// The same paths exist, each occupied in the same way.
pub open spec fn same_shape(a: FsMap, b: FsMap) -> bool {
    a.dom() == b.dom() && forall|p: Seq<char>| #[trigger]
        a.dom().contains(p) ==> kind_eq(a[p], b[p])
}

pub proof fn lemma_same_shape_refl(a: FsMap)
    ensures
        same_shape(a, a),
{
}

/// Splitting a run splits its effect.
pub proof fn lemma_apply_run_concat(fs: FsMap, r1: Seq<Action>, r2: Seq<Action>)
    ensures
        apply_run(fs, r1 + r2) == apply_run(apply_run(fs, r1), r2),
    decreases r1.len(),
{
    if r1.len() == 0 {
        assert(r1 + r2 =~= r2);
    } else {
        assert((r1 + r2).drop_first() =~= r1.drop_first() + r2);
        assert((r1 + r2)[0] == r1[0]);
        lemma_apply_run_concat(apply(fs, r1[0]), r1.drop_first(), r2);
    }
}

/// A concatenation is valid exactly when its halves are, in sequence.
pub proof fn lemma_valid_run_concat(fs: FsMap, r1: Seq<Action>, r2: Seq<Action>)
    ensures
        valid_run(fs, r1 + r2) <==> (valid_run(fs, r1) && valid_run(apply_run(fs, r1), r2)),
    decreases r1.len(),
{
    if r1.len() == 0 {
        assert(r1 + r2 =~= r2);
    } else {
        assert((r1 + r2).drop_first() =~= r1.drop_first() + r2);
        assert((r1 + r2)[0] == r1[0]);
        lemma_valid_run_concat(apply(fs, r1[0]), r1.drop_first(), r2);
    }
}

/// As `lemma_valid_run_concat`, for the undo side condition.
pub proof fn lemma_undo_ok_concat(fs: FsMap, r1: Seq<Action>, r2: Seq<Action>)
    ensures
        undo_ok(fs, r1 + r2) <==> (undo_ok(fs, r1) && undo_ok(apply_run(fs, r1), r2)),
    decreases r1.len(),
{
    if r1.len() == 0 {
        assert(r1 + r2 =~= r2);
    } else {
        assert((r1 + r2).drop_first() =~= r1.drop_first() + r2);
        assert((r1 + r2)[0] == r1[0]);
        lemma_undo_ok_concat(apply(fs, r1[0]), r1.drop_first(), r2);
    }
}

/// Shape-equal states accept the same mutations, with shape-equal results.
proof fn lemma_shape_can_apply(s1: FsMap, s2: FsMap, a: Action)
    requires
        same_shape(s1, s2),
    ensures
        can_apply(s1, a) == can_apply(s2, a),
        can_apply(s1, a) ==> same_shape(apply(s1, a), apply(s2, a)),
{
    if can_apply(s1, a) || can_apply(s2, a) {
        match a {
            Action::CreateDir(p) => {
                assert(apply(s1, a).dom() =~= apply(s2, a).dom());
            },
            Action::CreateSymlink { src, dst } => {
                assert(apply(s1, a).dom() =~= apply(s2, a).dom());
            },
            Action::RemoveDir(p) => {
                assert(apply(s1, a).dom() =~= apply(s2, a).dom());
            },
            Action::RemoveSymlink { src, dst } => {
                assert(apply(s1, a).dom() =~= apply(s2, a).dom());
            },
            _ => {
            },
        }
    }
}

/// Undoing one accepted mutation brings the state back to the same shape.
proof fn lemma_undo_step(s: FsMap, a: Action)
    requires
        can_apply(s, a),
        a matches Action::RemoveSymlink { src, dst: _ } ==> apply(s, a).contains_key(src),
    ensures
        can_apply(apply(s, a), invert(a)),
        same_shape(apply(apply(s, a), invert(a)), s),
{
    match a {
        Action::CreateDir(p) => {
            assert(apply(apply(s, a), invert(a)).dom() =~= s.dom());
        },
        Action::CreateSymlink { src, dst } => {
            assert(apply(apply(s, a), invert(a)).dom() =~= s.dom());
        },
        Action::RemoveDir(p) => {
            assert(apply(apply(s, a), invert(a)).dom() =~= s.dom());
        },
        Action::RemoveSymlink { src, dst } => {
            assert(apply(apply(s, a), invert(a)).dom() =~= s.dom());
        },
        _ => {
        },
    }
}

/// Undoing a whole run: from any state of the run's final shape, the
/// reversed inverses are all accepted and lead back to the run's initial
/// shape.  In particular the same paths exist afterwards as before the run.
pub proof fn lemma_undo_run(fs: FsMap, run: Seq<Action>, gs: FsMap)
    requires
        valid_run(fs, run),
        undo_ok(fs, run),
        same_shape(gs, apply_run(fs, run)),
    ensures
        valid_run(gs, invert_run(run)),
        same_shape(apply_run(gs, invert_run(run)), fs),
    decreases run.len(),
{
    if run.len() == 0 {
        assert(same_shape(apply_run(gs, invert_run(run)), fs));
    } else {
        let a = run[0];
        let s1 = apply(fs, a);
        let rest = run.drop_first();
        lemma_undo_run(s1, rest, gs);
        let g1 = apply_run(gs, invert_run(rest));
        lemma_undo_step(fs, a);
        lemma_shape_can_apply(s1, g1, invert(a));
        assert(can_apply(g1, invert(a)));
        let ia = seq![invert(a)];
        assert(invert_run(run) =~= invert_run(rest) + ia);
        lemma_valid_run_concat(gs, invert_run(rest), ia);
        assert(ia.drop_first() =~= Seq::<Action>::empty());
        assert(ia[0] == invert(a));
        assert(valid_run(apply(g1, invert(a)), ia.drop_first()));
        assert(valid_run(g1, ia));
        lemma_apply_run_concat(gs, invert_run(rest), ia);
        assert(apply_run(apply(g1, invert(a)), ia.drop_first()) == apply(g1, invert(a)));
        assert(apply_run(g1, ia) == apply(g1, invert(a)));
        // shape of the final state: transfer the single-step result
        assert(same_shape(apply(s1, invert(a)), apply(g1, invert(a))));
        assert(same_shape(apply(s1, invert(a)), fs));
        assert(apply_run(gs, invert_run(run)).dom() =~= fs.dom());
        assert forall|p: Seq<char>| #[trigger]
            apply_run(gs, invert_run(run)).dom().contains(p) implies kind_eq(
            apply_run(gs, invert_run(run))[p],
            fs[p],
        ) by {
            assert(kind_eq(apply(g1, invert(a))[p], apply(s1, invert(a))[p]));
            assert(kind_eq(apply(s1, invert(a))[p], fs[p]));
        }
    }
}

/// Where the run of the most recent top-level operation starts: the index of
/// the last load or unload marker, unless a rollback marker comes later (the
/// last operation was already undone) or no marker exists.
pub open spec fn last_run_start(msgs: Seq<Action>) -> Option<int>
    decreases msgs.len(),
{
    if msgs.len() == 0 {
        None
    } else {
        match msgs.last() {
            Action::LoadModule(_) => Some(msgs.len() - 1),
            Action::UnloadModule(_) => Some(msgs.len() - 1),
            Action::RollbackLoadModule(_) => None,
            Action::RollbackUnloadModule(_) => None,
            _ => last_run_start(msgs.drop_last()),
        }
    }
}

/// What the scan guarantees: the marker found is a load or unload marker and
/// only primitive mutations follow it.
pub proof fn lemma_last_run_start_props(msgs: Seq<Action>)
    ensures
        match last_run_start(msgs) {
            Some(i) => {
                &&& 0 <= i < msgs.len()
                &&& (msgs[i] is LoadModule || msgs[i] is UnloadModule)
                &&& forall|j: int| i < j < msgs.len() ==> (#[trigger] msgs[j]).is_mutation()
            },
            None => true,
        },
    decreases msgs.len(),
{
    if msgs.len() > 0 {
        match msgs.last() {
            Action::LoadModule(_) => {
            },
            Action::UnloadModule(_) => {
            },
            Action::RollbackLoadModule(_) => {
            },
            Action::RollbackUnloadModule(_) => {
            },
            _ => {
                lemma_last_run_start_props(msgs.drop_last());
                if last_run_start(msgs.drop_last()) is Some {
                    let i = last_run_start(msgs.drop_last()).unwrap();
                    assert(forall|j: int|
                        i < j < msgs.len() - 1 ==> (#[trigger] msgs[j]) == msgs.drop_last()[j]);
                }
            },
        }
    }
}

/// Trailing primitive mutations do not move the start of the last run.
pub proof fn lemma_last_run_skip_mutations(msgs: Seq<Action>, i: int)
    requires
        0 <= i <= msgs.len(),
        forall|j: int| i <= j < msgs.len() ==> (#[trigger] msgs[j]).is_mutation(),
    ensures
        last_run_start(msgs) == last_run_start(msgs.take(i)),
    decreases msgs.len() - i,
{
    if i < msgs.len() {
        assert(msgs[msgs.len() - 1].is_mutation());
        assert(msgs.drop_last().take(i) =~= msgs.take(i));
        assert(forall|j: int|
            i <= j < msgs.drop_last().len() ==> (#[trigger] msgs.drop_last()[j]) == msgs[j]);
        lemma_last_run_skip_mutations(msgs.drop_last(), i);
    } else {
        assert(msgs.take(i) =~= msgs);
    }
}

/// A valid run holds primitive mutations only: no marker is ever accepted.
pub proof fn lemma_valid_run_mutations(fs: FsMap, run: Seq<Action>)
    requires
        valid_run(fs, run),
    ensures
        forall|i: int| 0 <= i < run.len() ==> (#[trigger] run[i]).is_mutation(),
    decreases run.len(),
{
    if run.len() > 0 {
        lemma_valid_run_mutations(apply(fs, run[0]), run.drop_first());
        assert(forall|i: int|
            0 <= i < run.drop_first().len() ==> (#[trigger] run.drop_first()[i]) == run[i + 1]);
        assert forall|i: int| 0 <= i < run.len() implies (#[trigger] run[i]).is_mutation() by {
            if i > 0 {
                assert(run.drop_first()[i - 1] == run[i]);
            }
        }
    }
}

/// Law: right after an operation writes its marker and its run of
/// mutations, the journal's last eligible run is exactly that one.
pub proof fn lemma_run_found_after_op(msgs: Seq<Action>, marker: Action, acts: Seq<Action>)
    requires
        marker is LoadModule || marker is UnloadModule,
        forall|i: int| 0 <= i < acts.len() ==> (#[trigger] acts[i]).is_mutation(),
    ensures
        last_run_start(msgs.push(marker) + acts) == Some(msgs.len() as int),
        (msgs.push(marker) + acts).skip(msgs.len() as int + 1) == acts,
        (msgs.push(marker) + acts)[msgs.len() as int] == marker,
{
    let whole = msgs.push(marker) + acts;
    assert(forall|i: int|
        0 <= i < acts.len() ==> (#[trigger] whole[msgs.len() + 1 + i]) == acts[i]);
    assert forall|j: int|
        msgs.len() + 1 <= j < whole.len() implies (#[trigger] whole[j]).is_mutation() by {
        assert(whole[j] == acts[j - msgs.len() - 1]);
    }
    lemma_last_run_skip_mutations(whole, msgs.len() as int + 1);
    assert(whole.take(msgs.len() as int + 1) =~= msgs.push(marker));
    assert(msgs.push(marker).last() == marker);
    assert(whole.skip(msgs.len() as int + 1) =~= acts);
}

/// Appending entries that hold no load or unload marker cannot create an
/// eligible run: after a rollback marker and its mutations, nothing is left
/// to roll back.
pub proof fn lemma_no_run_after_rollback(msgs: Seq<Action>, added: Seq<Action>)
    requires
        added.len() > 0,
        added[0] is RollbackLoadModule || added[0] is RollbackUnloadModule,
        forall|j: int| 1 <= j < added.len() ==> (#[trigger] added[j]).is_mutation(),
    ensures
        last_run_start(msgs + added) is None,
    decreases added.len(),
{
    let whole = msgs + added;
    if added.len() == 1 {
        assert(whole.last() == added[0]);
    } else {
        assert(whole.last() == added.last());
        assert(whole.drop_last() =~= msgs + added.drop_last());
        assert(forall|j: int| 1 <= j < added.len() - 1 ==> added.drop_last()[j] == added[j]);
        lemma_no_run_after_rollback(msgs, added.drop_last());
        assert(whole.last().is_mutation());
    }
}

} // verus!
