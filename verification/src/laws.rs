//! Laws of the store's lifecycle, stated over the mathematical views of
//! [`crate::state`] and proved for every store value: what a write, a
//! freeze, a fork and a squash each leave visible.

use vstd::prelude::*;

use crate::state::{
    apply_overlays, current_slot_of, frozen_prefix, head_frozen, lemma_apply_split,
    lemma_frozen_prefix, spec_fork, spec_freeze, spec_set_account, spec_squash, squash_ok,
    view_wf, visible, OverlayView, StateView,
};
use crate::types::{AccountStateView, Address, Slot};

verus! {

/// A write changes the visible state at the written address alone, and
/// moves no slot.
pub proof fn lemma_set_account_visible(v: StateView, a: Address, x: AccountStateView)
    requires
        view_wf(v),
    ensures
        view_wf(spec_set_account(v, a, x)),
        visible(spec_set_account(v, a, x)) == visible(v).insert(a, x),
        current_slot_of(spec_set_account(v, a, x)) == current_slot_of(v),
        spec_set_account(v, a, x).root_slot == v.root_slot,
{
    let os = v.overlays;
    let h = os.last();
    let v2 = spec_set_account(v, a, x);
    assert(v2.overlays.drop_last() =~= os.drop_last());
    assert(v2.overlays.last() == OverlayView {
        slot: h.slot,
        frozen: h.frozen,
        writes: h.writes.insert(a, x),
    });
    assert(visible(v2) == apply_overlays(v.durable, os.drop_last()).union_prefer_right(
        h.writes.insert(a, x),
    ));
    assert(apply_overlays(v.durable, os.drop_last()).union_prefer_right(h.writes.insert(a, x))
        =~= apply_overlays(v.durable, os.drop_last()).union_prefer_right(h.writes).insert(a, x));
}

/// Sealing a slot changes nothing a reader can observe.
pub proof fn lemma_freeze_visible(v: StateView)
    requires
        view_wf(v),
    ensures
        view_wf(spec_freeze(v)),
        visible(spec_freeze(v)) == visible(v),
        current_slot_of(spec_freeze(v)) == current_slot_of(v),
        spec_freeze(v).root_slot == v.root_slot,
{
    let os = v.overlays;
    let v2 = spec_freeze(v);
    assert(v2.overlays.drop_last() =~= os.drop_last());
    assert(v2.overlays.last().writes == os.last().writes);
}

/// A fresh fork reads exactly what its source read: every address falls
/// back to the source's visible state until the child writes it.
pub proof fn lemma_fork_visible(v: StateView, s: Slot)
    requires
        view_wf(v),
        s > current_slot_of(v),
    ensures
        view_wf(spec_fork(v, s)),
        visible(spec_fork(v, s)) == visible(v),
        current_slot_of(spec_fork(v, s)) == s,
        !head_frozen(spec_fork(v, s)),
        spec_fork(v, s).root_slot == v.root_slot,
{
    let os = v.overlays;
    let v2 = spec_fork(v, s);
    assert(v2.overlays.drop_last() =~= os);
    assert(visible(v2) == visible(v).union_prefer_right(Map::<Address, AccountStateView>::empty()));
    assert(visible(v).union_prefer_right(Map::<Address, AccountStateView>::empty()) =~= visible(
        v,
    ));
}

/// A squash never changes what the head slot reads: it only shortens the
/// path that a read walks.
pub proof fn lemma_squash_visible(v: StateView)
    requires
        view_wf(v),
        squash_ok(v),
    ensures
        view_wf(spec_squash(v)),
        visible(spec_squash(v)) == visible(v),
        current_slot_of(spec_squash(v)) == current_slot_of(v),
{
    let os = v.overlays;
    let j = frozen_prefix(os);
    lemma_frozen_prefix(os);
    lemma_apply_split(v.durable, os, j);
    let v2 = spec_squash(v);
    if j == os.len() {
        assert(os.take(j) =~= os);
        assert(v2.overlays.len() == 1);
        assert(v2.overlays.drop_last() =~= Seq::<OverlayView>::empty());
        assert(apply_overlays(v2.durable, Seq::<OverlayView>::empty()) == v2.durable);
        assert(visible(v2) == apply_overlays(
            v2.durable,
            v2.overlays.drop_last(),
        ).union_prefer_right(v2.overlays.last().writes));
        assert(v2.overlays.last().writes =~= Map::<Address, AccountStateView>::empty());
        assert(v2.durable.union_prefer_right(Map::<Address, AccountStateView>::empty())
            =~= v2.durable);
        assert(os[j - 1] == os.last());
    } else {
        assert(v2.overlays == os.skip(j));
        assert(os.skip(j).last() == os.last());
    }
}

/// Squashing is idempotent: a second squash with no newly frozen ancestor
/// is defined and changes nothing at all.
pub proof fn lemma_squash_idempotent(v: StateView)
    requires
        view_wf(v),
        squash_ok(v),
    ensures
        squash_ok(spec_squash(v)),
        spec_squash(spec_squash(v)) == spec_squash(v),
{
    let os = v.overlays;
    let j = frozen_prefix(os);
    lemma_frozen_prefix(os);
    let v2 = spec_squash(v);
    if j == os.len() {
        assert(!v2.overlays[0].frozen);
        assert(frozen_prefix(v2.overlays) == 0);
    } else {
        assert(v2.overlays[0] == os[j]);
        assert(!v2.overlays[0].frozen);
        assert(frozen_prefix(v2.overlays) == 0);
        assert(forall|i: int|
            0 <= i < v2.overlays.len() ==> (#[trigger] v2.overlays[i]) == os[j + i]);
    }
    let v3 = spec_squash(v2);
    assert(v2.overlays.take(0) =~= Seq::<OverlayView>::empty());
    assert(v3.overlays =~= v2.overlays.skip(0));
    assert(v3.overlays =~~= v2.overlays);
    assert(v3 =~~= v2);
}

/// After a squash of a fully frozen path, the durable image alone carries
/// the whole visible state.
pub proof fn lemma_squash_full(v: StateView)
    requires
        view_wf(v),
        forall|i: int| 0 <= i < v.overlays.len() ==> (#[trigger] v.overlays[i]).frozen,
    ensures
        squash_ok(v),
        spec_squash(v).durable == visible(v),
        visible(spec_squash(v)) == spec_squash(v).durable,
        spec_squash(v).root_slot == current_slot_of(v),
{
    let os = v.overlays;
    lemma_frozen_prefix(os);
    let j = frozen_prefix(os);
    assert(j == os.len());
    assert(os.take(j) =~= os);
    lemma_squash_visible(v);
    assert(os[j - 1] == os.last());
}

/// The result of a whole run of writes: the store reads back exactly the
/// last write per address, and every untouched address still falls back
/// to what was visible before.
pub open spec fn spec_set_many(v: StateView, ws: Seq<(Address, AccountStateView)>) -> StateView
    decreases ws.len(),
{
    if ws.len() == 0 {
        v
    } else {
        spec_set_account(spec_set_many(v, ws.drop_last()), ws.last().0, ws.last().1)
    }
}

/// The mapping a run of writes denotes: the last write at each address.
pub open spec fn last_writes(ws: Seq<(Address, AccountStateView)>) -> Map<
    Address,
    AccountStateView,
>
    decreases ws.len(),
{
    if ws.len() == 0 {
        Map::empty()
    } else {
        last_writes(ws.drop_last()).insert(ws.last().0, ws.last().1)
    }
}

/// Any run of writes on the working head, then a freeze, leaves visible
/// exactly the last write per address over the prior visible state; the
/// slots do not move.
pub proof fn lemma_set_many_visible(v: StateView, ws: Seq<(Address, AccountStateView)>)
    requires
        view_wf(v),
    ensures
        view_wf(spec_set_many(v, ws)),
        visible(spec_set_many(v, ws)) == visible(v).union_prefer_right(last_writes(ws)),
        visible(spec_freeze(spec_set_many(v, ws))) == visible(v).union_prefer_right(
            last_writes(ws),
        ),
        current_slot_of(spec_set_many(v, ws)) == current_slot_of(v),
    decreases ws.len(),
{
    if ws.len() == 0 {
        assert(visible(v).union_prefer_right(Map::<Address, AccountStateView>::empty())
            =~= visible(v));
    } else {
        lemma_set_many_visible(v, ws.drop_last());
        let v2 = spec_set_many(v, ws.drop_last());
        lemma_set_account_visible(v2, ws.last().0, ws.last().1);
        assert(visible(v).union_prefer_right(last_writes(ws.drop_last())).insert(
            ws.last().0,
            ws.last().1,
        ) =~= visible(v).union_prefer_right(last_writes(ws)));
    }
    lemma_freeze_visible(spec_set_many(v, ws));
}

/// A child fork's write is invisible at every other address: the child
/// still reads its parent's state there, and the parent value itself is
/// untouched by construction.
pub proof fn lemma_child_write_falls_back(
    v: StateView,
    s: Slot,
    written: Address,
    x: AccountStateView,
    other: Address,
)
    requires
        view_wf(v),
        s > current_slot_of(v),
        other != written,
    ensures
        visible(spec_set_account(spec_fork(v, s), written, x)).contains_key(other) <==> visible(
            v,
        ).contains_key(other),
        visible(v).contains_key(other) ==> visible(spec_set_account(spec_fork(v, s), written, x))[
            other] == visible(v)[other],
{
    lemma_fork_visible(v, s);
    lemma_set_account_visible(spec_fork(v, s), written, x);
}

} // verus!
