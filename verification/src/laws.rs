use vstd::prelude::*;

use crate::engine::{
    eq_except_shape, spec_current_turn, spec_door_deleted, spec_door_demoted,
    spec_fully_special_door, spec_member_mask, spec_move_commit, spec_move_ok, spec_move_valid,
    spec_redo_model, spec_repartitioned, spec_undo_model, StateModel,
};
use crate::object::Object;

verus! {

/// Moving a selected shape onto a cell occupied by a different shape can
/// never commit: some member's destination is taken, so the move is not
/// valid, and by [`crate::engine::State::move_shape`]'s contract an invalid
/// move returns `None`, changes no state and pushes no history entry.
pub proof fn law_move_onto_occupied_rejected(
    m: StateModel,
    shape: i32,
    dx: int,
    dy: int,
    bounds: (u16, u16),
    i: int,
    j: int,
)
    requires
        0 <= i < m.objects.len(),
        0 <= j < m.objects.len(),
        m.objects[i].shape == shape,
        m.objects[j].shape != shape,
        m.objects[j].pos.0 == m.objects[i].pos.0 + dx,
        m.objects[j].pos.1 == m.objects[i].pos.1 + dy,
    ensures
        !spec_move_valid(m, shape, dx, dy, bounds),
{
    assert(!spec_move_ok(m.objects, shape, dx, dy, bounds));
}

/// A door of the completed shape whose ends are all special leaves the
/// board when the door opens: no segment with its id survives into the
/// re-partitioned collection.
pub proof fn law_satisfied_door_removed(g: Seq<Object>, shape: i32, fo: Seq<Object>, d: int)
    requires
        forall|a: int, b: int| 0 <= a < b < g.len() ==> g[a].id < g[b].id,
        spec_repartitioned(spec_door_demoted(spec_door_deleted(g, shape), shape), shape, fo),
        0 <= d < g.len(),
        g[d].shape == shape,
        spec_fully_special_door(g[d]),
    ensures
        forall|x: int| 0 <= x < fo.len() ==> (#[trigger] fo[x]).id != g[d].id,
{
    let pred = |o: Object| !(o.shape == shape && spec_fully_special_door(o));
    let del = g.filter(pred);
    let dem = spec_door_demoted(del, shape);
    assert forall|x: int| 0 <= x < fo.len() implies (#[trigger] fo[x]).id != g[d].id by {
        assert(eq_except_shape(fo[x], dem[x]));
        assert(dem[x].id == del[x].id);
        if del[x].id == g[d].id {
            assert(del.contains(del[x]));
            g.lemma_filter_contains_rev(pred, del[x]);
            let src = choose|w: int| 0 <= w < g.len() && g[w] == del[x];
            crate::engine::lemma_id_unique(g, src, d);
            g.lemma_filter_pred(pred, x);
            assert(pred(g[d]));
            assert(false);
        }
    }
}

/// If opening a door disconnects the remainder of the shape, the parts are
/// reported as independent shapes: members left mutually unreachable carry
/// different group ids.
pub proof fn law_door_split(dem: Seq<Object>, shape: i32, fo: Seq<Object>, i: int, j: int)
    requires
        spec_repartitioned(dem, shape, fo),
        0 <= i < dem.len(),
        0 <= j < dem.len(),
        dem[i].shape == shape,
        dem[j].shape == shape,
        !crate::shapes::reachable(dem, spec_member_mask(dem, shape), i, j),
    ensures
        fo[i].shape != fo[j].shape,
{
}

/// A committed move from `m` to `f`: the witnesses are the reported cells.
pub open spec fn spec_some_move(m: StateModel, f: StateModel) -> bool {
    exists|
        shape: i32,
        dx: int,
        dy: int,
        there: (u16, u16),
        hs: Seq<Object>,
        ts: Seq<Object>,
        sel: Option<i32>,
    | #[trigger] spec_move_commit(m, f, shape, dx, dy, there, hs, ts, sel)
}

/// A chain of states, each reached from the one before by a committed move
/// that evicted no undo entry, with turn counters inside the machine range.
pub open spec fn spec_move_chain(chain: Seq<StateModel>) -> bool {
    &&& forall|k: int| 0 <= k < chain.len() - 1 ==> spec_some_move(#[trigger] chain[k], chain[k + 1])
    &&& forall|k: int|
        0 <= k < chain.len() - 1 ==> ((#[trigger] chain[k]).undo.len() == 0 || chain[k].undo[0].0
            > spec_current_turn(chain[k]) - chain[k].undo_cap)
    &&& forall|k: int|
        0 <= k < chain.len() ==> 0 <= spec_current_turn(#[trigger] chain[k]) < i32::MAX
    &&& forall|k: int| 0 <= k < chain.len() ==> (#[trigger] chain[k]).undo_cap >= 1
}

/// `n` undos in a row.
pub open spec fn spec_undo_n(m: StateModel, n: nat) -> StateModel
    decreases n,
{
    if n == 0 {
        m
    } else {
        spec_undo_model(spec_undo_n(m, (n - 1) as nat))
    }
}

/// `n` redos in a row.
pub open spec fn spec_redo_n(m: StateModel, n: nat) -> StateModel
    decreases n,
{
    if n == 0 {
        m
    } else {
        spec_redo_model(spec_redo_n(m, (n - 1) as nat))
    }
}

/// The redo stack after undoing the last `i` moves of a chain: newest
/// (smallest-numbered) on top, each entry holding the collection its undo
/// displaced.
pub open spec fn spec_unwound_redo(chain: Seq<StateModel>, i: int) -> Seq<(i32, Seq<Object>)> {
    Seq::new(
        i as nat,
        |t: int|
            (
                (spec_current_turn(chain[chain.len() - 2 - t]) + 1) as i32,
                chain[chain.len() - 1 - t].objects,
            ),
    )
}

/// Undoing `i` of the `n` moves of a chain lands on the `n - i`-th state's
/// collection and undo stack, with the displaced collections stacked on
/// redo.
pub proof fn law_n_undos(chain: Seq<StateModel>, i: int)
    requires
        chain.len() >= 1,
        chain[0].redo.len() == 0,
        spec_move_chain(chain),
        0 <= i <= chain.len() - 1,
    ensures
        spec_undo_n(chain.last(), i as nat).objects == chain[chain.len() - 1 - i].objects,
        spec_undo_n(chain.last(), i as nat).undo == chain[chain.len() - 1 - i].undo,
        spec_undo_n(chain.last(), i as nat).redo == spec_unwound_redo(chain, i),
    decreases i,
{
    if i == 0 {
        assert(chain.last().redo =~= spec_unwound_redo(chain, 0)) by {
            if chain.len() >= 2 {
                let k = chain.len() - 2;
                let (shape, dx, dy, there, hs, ts, sel) = choose|
                    shape: i32,
                    dx: int,
                    dy: int,
                    there: (u16, u16),
                    hs: Seq<Object>,
                    ts: Seq<Object>,
                    sel: Option<i32>,
                | #[trigger] spec_move_commit(
                    chain[k],
                    chain[k + 1],
                    shape,
                    dx,
                    dy,
                    there,
                    hs,
                    ts,
                    sel,
                );
            }
        }
    } else {
        law_n_undos(chain, i - 1);
        let x = spec_undo_n(chain.last(), (i - 1) as nat);
        let k = chain.len() - 1 - i;
        let (shape, dx, dy, there, hs, ts, sel) = choose|
            shape: i32,
            dx: int,
            dy: int,
            there: (u16, u16),
            hs: Seq<Object>,
            ts: Seq<Object>,
            sel: Option<i32>,
        | #[trigger] spec_move_commit(
            chain[k],
            chain[k + 1],
            shape,
            dx,
            dy,
            there,
            hs,
            ts,
            sel,
        );
        let pushed = chain[k].undo.push((spec_current_turn(chain[k]) as i32, chain[k].objects));
        assert(chain[k + 1].undo == crate::engine::spec_drop_old(
            pushed,
            spec_current_turn(chain[k]) - chain[k].undo_cap,
        ));
        assert(pushed.first().0 > spec_current_turn(chain[k]) - chain[k].undo_cap) by {
            if chain[k].undo.len() > 0 {
                assert(pushed.first() == chain[k].undo[0]);
            }
        }
        assert(chain[k + 1].undo == pushed);
        assert(x.undo == pushed && x.objects == chain[k + 1].objects);
        assert(x.undo.last() == (spec_current_turn(chain[k]) as i32, chain[k].objects));
        let y = spec_undo_model(x);
        assert(y.objects == chain[k].objects);
        assert(y.undo =~= chain[k].undo);
        assert(y.redo =~= spec_unwound_redo(chain, i)) by {
            assert(y.redo == x.redo.push(
                ((spec_current_turn(chain[k]) + 1) as i32, x.objects),
            ));
        }
    }
}

/// Redoing `i` moves from the fully unwound state walks the collection
/// forward to the `i`-th state again.
pub proof fn law_n_redos(chain: Seq<StateModel>, i: int)
    requires
        chain.len() >= 1,
        chain[0].redo.len() == 0,
        spec_move_chain(chain),
        0 <= i <= chain.len() - 1,
    ensures
        spec_redo_n(
            spec_undo_n(chain.last(), (chain.len() - 1) as nat),
            i as nat,
        ).objects == chain[i].objects,
        spec_redo_n(
            spec_undo_n(chain.last(), (chain.len() - 1) as nat),
            i as nat,
        ).redo == spec_unwound_redo(chain, chain.len() - 1 - i),
    decreases i,
{
    let n = chain.len() - 1;
    law_n_undos(chain, n);
    if i == 0 {
    } else {
        law_n_redos(chain, i - 1);
        let x = spec_redo_n(spec_undo_n(chain.last(), n as nat), (i - 1) as nat);
        assert(x.redo == spec_unwound_redo(chain, n - i + 1));
        assert(x.redo.len() == n - i + 1);
        let t = n - i;
        assert(x.redo.last() == (
            (spec_current_turn(chain[chain.len() - 2 - t]) + 1) as i32,
            chain[chain.len() - 1 - t].objects,
        ));
        let y = spec_redo_model(x);
        assert(y.objects == chain[i].objects);
        assert(y.redo =~= spec_unwound_redo(chain, n - i));
    }
}

/// After N committed moves, N undos restore the exact first collection and
/// leave N redo entries; N redos then restore the final collection.  (That
/// any move performed after an undo clears redo is itself part of every
/// committed move's contract.)
pub proof fn law_undo_redo_round_trip(chain: Seq<StateModel>)
    requires
        chain.len() >= 1,
        chain[0].redo.len() == 0,
        spec_move_chain(chain),
    ensures
        spec_undo_n(chain.last(), (chain.len() - 1) as nat).objects == chain[0].objects,
        spec_undo_n(chain.last(), (chain.len() - 1) as nat).redo.len() == chain.len() - 1,
        spec_redo_n(
            spec_undo_n(chain.last(), (chain.len() - 1) as nat),
            (chain.len() - 1) as nat,
        ).objects == chain.last().objects,
{
    law_n_undos(chain, chain.len() - 1);
    law_n_redos(chain, chain.len() - 1);
}

/// One undo right after one committed move restores the exact pre-move
/// collection and pre-move undo stack, and leaves the displaced post-move
/// collection as the single redo entry.
pub proof fn law_undo_restores_move(
    m: StateModel,
    f: StateModel,
    shape: i32,
    dx: int,
    dy: int,
    there: (u16, u16),
    hs: Seq<Object>,
    ts: Seq<Object>,
    sel: Option<i32>,
)
    requires
        spec_move_commit(m, f, shape, dx, dy, there, hs, ts, sel),
        m.undo.len() == 0 || m.undo[0].0 > spec_current_turn(m) - m.undo_cap,
        0 <= spec_current_turn(m) < i32::MAX,
        m.undo_cap >= 1,
    ensures
        spec_undo_model(f).objects == m.objects,
        spec_undo_model(f).undo == m.undo,
        spec_undo_model(f).redo.len() == 1,
        spec_undo_model(f).redo[0] == ((spec_current_turn(m) + 1) as i32, f.objects),
{
    let pushed = m.undo.push((spec_current_turn(m) as i32, m.objects));
    assert(pushed.first().0 > spec_current_turn(m) - m.undo_cap) by {
        if m.undo.len() > 0 {
            assert(pushed.first() == m.undo[0]);
        }
    }
    assert(f.undo == pushed);
    assert(f.undo.last() == (spec_current_turn(m) as i32, m.objects));
    assert(spec_undo_model(f).undo =~= m.undo);
    assert(spec_undo_model(f).redo =~= f.redo.push(
        ((spec_current_turn(m) + 1) as i32, f.objects),
    ));
}

/// Undo then redo is the identity on the collection and on both history
/// stacks (the selection clears, as both operations promise).
pub proof fn law_redo_after_undo(x: StateModel)
    requires
        x.undo.len() > 0,
        0 <= x.undo.last().0 < i32::MAX,
    ensures
        spec_redo_model(spec_undo_model(x)).objects == x.objects,
        spec_redo_model(spec_undo_model(x)).undo == x.undo,
        spec_redo_model(spec_undo_model(x)).redo == x.redo,
{
    let u = spec_undo_model(x);
    assert(u.redo.last() == ((x.undo.last().0 + 1) as i32, x.objects));
    let r = spec_redo_model(u);
    assert(r.objects == x.objects);
    assert(r.undo =~= x.undo.drop_last().push(
        (((x.undo.last().0 + 1) - 1) as i32, x.undo.last().1),
    ));
    assert(x.undo.drop_last().push((x.undo.last().0, x.undo.last().1)) =~= x.undo);
    assert(r.undo =~= x.undo);
    assert(r.redo =~= u.redo.drop_last());
    assert(u.redo.drop_last() =~= x.redo);
}

} // verus!
