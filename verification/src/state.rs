//! The versioned store itself: a flat durable image at the root, a chain of
//! copy-on-write slot overlays above it, and the big-object store beside
//! them.
//!
//! A store value materializes one path of the fork tree: the durable root
//! and the ancestors of its own head slot, oldest first. `try_fork` hands
//! back a new store for the child slot and leaves the source untouched, so
//! sibling branches live in sibling store values; `squash` folds the frozen
//! ancestors into the durable image and discards them, which is the only
//! reclamation the store performs.

use vstd::prelude::*;

use crate::accounts::AccountMap;
use crate::bigtx::{BigBufView, BigStore};
use crate::types::{AccountState, AccountStateView, Address, Error, Slot, H256};

verus! {

/// The working set of one slot: its own account writes, deferring to the
/// overlays and durable image below it for every other address.
#[derive(Debug)]
pub struct Overlay {
    pub slot: Slot,
    pub frozen: bool,
    pub writes: AccountMap,
}

/// The mathematical content of an [`Overlay`].
#[verifier::ext_equal]
pub ghost struct OverlayView {
    pub slot: Slot,
    pub frozen: bool,
    pub writes: Map<Address, AccountStateView>,
}

impl View for Overlay {
    type V = OverlayView;

    open spec fn view(&self) -> OverlayView {
        OverlayView { slot: self.slot, frozen: self.frozen, writes: self.writes@ }
    }
}

impl Overlay {
    /// An exact copy of the overlay.
    pub fn duplicate(&self) -> (r: Overlay)
        ensures
            r@ == self@,
            self.writes.wf() ==> r.writes.wf(),
    {
        Overlay { slot: self.slot, frozen: self.frozen, writes: self.writes.duplicate() }
    }
}

/// The mathematical content of an [`EvmState`].
#[verifier::ext_equal]
pub ghost struct StateView {
    pub durable: Map<Address, AccountStateView>,
    pub root_slot: Slot,
    pub overlays: Seq<OverlayView>,
    pub big: Map<H256, BigBufView>,
}

/// `base` with each overlay's writes laid over it in order: the overlay
/// closest to the head wins at every address.
pub open spec fn apply_overlays(
    base: Map<Address, AccountStateView>,
    os: Seq<OverlayView>,
) -> Map<Address, AccountStateView>
    decreases os.len(),
{
    if os.len() == 0 {
        base
    } else {
        apply_overlays(base, os.drop_last()).union_prefer_right(os.last().writes)
    }
}

/// The account state a reader of the head slot observes: the nearest write
/// on the path from the head down to the durable root wins.
pub open spec fn visible(v: StateView) -> Map<Address, AccountStateView> {
    apply_overlays(v.durable, v.overlays)
}

/// The slot of the store's head overlay.
pub open spec fn current_slot_of(v: StateView) -> Slot {
    v.overlays.last().slot
}

/// Whether the head slot has been sealed against further account writes.
pub open spec fn head_frozen(v: StateView) -> bool {
    v.overlays.last().frozen
}

/// Shape of a well-formed store view: at least the head overlay, the first
/// overlay at or above the durable root's slot, and slots strictly
/// increasing along the chain.
pub open spec fn view_wf(v: StateView) -> bool {
    &&& v.overlays.len() >= 1
    &&& v.root_slot <= v.overlays[0].slot
    &&& forall|i: int|
        1 <= i < v.overlays.len() ==> (#[trigger] v.overlays[i]).slot > v.overlays[i - 1].slot
}

/// The store as it is first created: an empty durable image at slot zero
/// under one empty working overlay.
pub open spec fn initial_view() -> StateView {
    StateView {
        durable: Map::empty(),
        root_slot: 0,
        overlays: seq![
            OverlayView { slot: 0, frozen: false, writes: Map::empty() },
        ],
        big: Map::empty(),
    }
}

/// The store after a write of `account` to `address`: the head overlay
/// alone records it.
pub open spec fn spec_set_account(
    v: StateView,
    address: Address,
    account: AccountStateView,
) -> StateView {
    let h = v.overlays.last();
    StateView {
        durable: v.durable,
        root_slot: v.root_slot,
        overlays: v.overlays.update(
            v.overlays.len() - 1,
            OverlayView { slot: h.slot, frozen: h.frozen, writes: h.writes.insert(address, account) },
        ),
        big: v.big,
    }
}

/// The store after its head slot is sealed.
pub open spec fn spec_freeze(v: StateView) -> StateView {
    let h = v.overlays.last();
    StateView {
        durable: v.durable,
        root_slot: v.root_slot,
        overlays: v.overlays.update(
            v.overlays.len() - 1,
            OverlayView { slot: h.slot, frozen: true, writes: h.writes },
        ),
        big: v.big,
    }
}

/// The child store that a fork to `new_slot` produces: the same view with
/// a fresh empty working overlay on top.
pub open spec fn spec_fork(v: StateView, new_slot: Slot) -> StateView {
    StateView {
        durable: v.durable,
        root_slot: v.root_slot,
        overlays: v.overlays.push(
            OverlayView { slot: new_slot, frozen: false, writes: Map::empty() },
        ),
        big: v.big,
    }
}

/// How many overlays, counted from the durable root upward, are frozen
/// before the first still-working one.
pub open spec fn frozen_prefix(os: Seq<OverlayView>) -> int
    decreases os.len(),
{
    if os.len() == 0 {
        0
    } else if !os[0].frozen {
        0
    } else {
        1 + frozen_prefix(os.skip(1))
    }
}

/// The frozen prefix is a prefix: everything below it frozen, the overlay
/// right above it (if any) working.
pub proof fn lemma_frozen_prefix(os: Seq<OverlayView>)
    ensures
        0 <= frozen_prefix(os) <= os.len(),
        forall|i: int| 0 <= i < frozen_prefix(os) ==> (#[trigger] os[i]).frozen,
        frozen_prefix(os) < os.len() ==> !os[frozen_prefix(os)].frozen,
    decreases os.len(),
{
    if os.len() > 0 && os[0].frozen {
        lemma_frozen_prefix(os.skip(1));
        assert(forall|i: int|
            1 <= i < frozen_prefix(os) ==> (#[trigger] os[i]) == os.skip(1)[i - 1]);
        if frozen_prefix(os) < os.len() {
            assert(os[frozen_prefix(os)] == os.skip(1)[frozen_prefix(os) - 1]);
        }
    }
}

/// A store may be squashed when no frozen overlay sits above a working
/// one: the frozen ancestors form a contiguous stretch at the bottom.
pub open spec fn squash_ok(v: StateView) -> bool {
    forall|i: int|
        frozen_prefix(v.overlays) <= i < v.overlays.len() ==> !(#[trigger] v.overlays[i]).frozen
}

/// The store after a squash: every frozen ancestor is folded into the
/// durable image (the overlay closest to the head winning at each
/// address), the durable root moves to the last folded slot, and the
/// folded overlays are discarded. When everything was folded, a fresh
/// empty working overlay reopens the root slot.
pub open spec fn spec_squash(v: StateView) -> StateView {
    let j = frozen_prefix(v.overlays);
    let durable = apply_overlays(v.durable, v.overlays.take(j));
    let root_slot = if j > 0 {
        v.overlays[j - 1].slot
    } else {
        v.root_slot
    };
    let overlays = if j == v.overlays.len() {
        seq![OverlayView { slot: root_slot, frozen: false, writes: Map::empty() }]
    } else {
        v.overlays.skip(j)
    };
    StateView { durable, root_slot, overlays, big: v.big }
}

/// Laying overlays over a base in one pass equals folding a bottom part
/// into the base first and laying the rest over the result.
pub proof fn lemma_apply_split(
    base: Map<Address, AccountStateView>,
    os: Seq<OverlayView>,
    j: int,
)
    requires
        0 <= j <= os.len(),
    ensures
        apply_overlays(base, os) == apply_overlays(
            apply_overlays(base, os.take(j)),
            os.skip(j),
        ),
    decreases os.len(),
{
    if j == os.len() {
        assert(os.take(j) =~= os);
        assert(os.skip(j) =~= Seq::<OverlayView>::empty());
    } else {
        let dl = os.drop_last();
        lemma_apply_split(base, dl, j);
        assert(dl.take(j) =~= os.take(j));
        assert(os.skip(j).drop_last() =~= dl.skip(j));
        assert(os.skip(j).last() == os.last());
    }
}

/// The versioned account store: the unit a caller forks, freezes, squashes
/// and backs up.
#[derive(Debug)]
pub struct EvmState {
    pub durable: AccountMap,
    pub root_slot: Slot,
    pub overlays: Vec<Overlay>,
    pub big: BigStore,
}

impl View for EvmState {
    type V = StateView;

    open spec fn view(&self) -> StateView {
        StateView {
            durable: self.durable@,
            root_slot: self.root_slot,
            overlays: self.overlays@.map_values(|o: Overlay| o@),
            big: self.big@,
        }
    }
}

impl EvmState {
    /// Every component mapping is well formed and the view has the chain
    /// shape of [`view_wf`].
    pub open spec fn wf(self) -> bool {
        &&& self.durable.wf()
        &&& self.big.wf()
        &&& forall|i: int|
            0 <= i < self.overlays@.len() ==> (#[trigger] self.overlays@[i]).writes.wf()
        &&& view_wf(self@)
    }

    /// The slot whose overlay currently accepts (or, once frozen, last
    /// accepted) account writes.
    pub fn current_slot(&self) -> (r: Slot)
        requires
            self.wf(),
        ensures
            r == current_slot_of(self@),
    {
        let n = self.overlays.len();
        self.overlays[n - 1].slot
    }

    /// The nearest record for `address` on the path from the head slot
    /// down to the durable root, or `None` when no slot on the path ever
    /// set it.
    pub fn get_account(&self, address: Address) -> (r: Option<AccountState>)
        requires
            self.wf(),
        ensures
            match r {
                Some(v) => visible(self@).contains_key(address) && v@ == visible(self@)[address],
                None => !visible(self@).contains_key(address),
            },
    {
        let ghost ovs = self@.overlays;
        let mut i: usize = self.overlays.len();
        proof {
            assert(ovs.take(i as int) =~= ovs);
        }
        while i > 0
            invariant
                self.wf(),
                i <= self.overlays@.len(),
                ovs == self@.overlays,
                visible(self@).contains_key(address) <==> apply_overlays(
                    self@.durable,
                    ovs.take(i as int),
                ).contains_key(address),
                visible(self@).contains_key(address) ==> visible(self@)[address]
                    == apply_overlays(self@.durable, ovs.take(i as int))[address],
            decreases i,
        {
            i = i - 1;
            proof {
                assert(ovs.take(i as int + 1).drop_last() =~= ovs.take(i as int));
                assert(ovs.take(i as int + 1).last() == ovs[i as int]);
            }
            match self.overlays[i].writes.get(address) {
                Some(v) => {
                    return Some(v.duplicate());
                },
                None => {
                },
            }
        }
        proof {
            assert(ovs.take(0) =~= Seq::<OverlayView>::empty());
        }
        match self.durable.get(address) {
            Some(v) => Some(v.duplicate()),
            None => None,
        }
    }

    /// Record `account` for `address` in the head overlay. Fails, changing
    /// nothing, when the head slot is frozen: a sealed slot never accepts
    /// another write.
    pub fn set_account(&mut self, address: Address, account: AccountState) -> (r: Result<
        (),
        Error,
    >)
        requires
            old(self).wf(),
        ensures
            final(self).wf(),
            match r {
                Ok(()) => !head_frozen(old(self)@) && final(self)@ == spec_set_account(
                    old(self)@,
                    address,
                    account@,
                ),
                Err(e) => e == Error::FrozenSlot && head_frozen(old(self)@) && *final(self)
                    == *old(self),
            },
    {
        let n = self.overlays.len();
        if self.overlays[n - 1].frozen {
            return Err(Error::FrozenSlot);
        }
        let mut head = self.overlays.pop().unwrap();
        head.writes.insert(address, account);
        self.overlays.push(head);
        proof {
            assert(final(self)@.overlays =~~= spec_set_account(old(self)@, address, account@)
                .overlays);
            assert(final(self)@ =~~= spec_set_account(old(self)@, address, account@));
        }
        Ok(())
    }

    /// Seal the head slot: its overlay becomes read-only, though it may
    /// still be forked from and squashed. Sealing a slot twice changes
    /// nothing.
    pub fn freeze(&mut self)
        requires
            old(self).wf(),
        ensures
            final(self).wf(),
            final(self)@ == spec_freeze(old(self)@),
            head_frozen(final(self)@),
    {
        let mut head = self.overlays.pop().unwrap();
        head.frozen = true;
        self.overlays.push(head);
        proof {
            assert(final(self)@.overlays =~~= spec_freeze(old(self)@).overlays);
            assert(final(self)@ =~~= spec_freeze(old(self)@));
        }
    }

    /// A new store for child slot `new_slot`, whose reads fall back to
    /// this store's visible state until the child writes. Fails when
    /// `new_slot` does not strictly exceed the head slot; the source store
    /// is never changed.
    pub fn try_fork(&self, new_slot: Slot) -> (r: Result<EvmState, Error>)
        requires
            self.wf(),
        ensures
            match r {
                Ok(st) => new_slot > current_slot_of(self@) && st.wf() && st@ == spec_fork(
                    self@,
                    new_slot,
                ),
                Err(e) => e == Error::SlotNotGreater && new_slot <= current_slot_of(self@),
            },
    {
        let n = self.overlays.len();
        if new_slot <= self.overlays[n - 1].slot {
            return Err(Error::SlotNotGreater);
        }
        let mut overlays: Vec<Overlay> = Vec::new();
        let mut i: usize = 0;
        while i < n
            invariant
                self.wf(),
                n == self.overlays@.len(),
                i <= n,
                overlays@.len() == i,
                forall|j: int|
                    0 <= j < i ==> (#[trigger] overlays@[j])@ == self.overlays@[j]@
                        && overlays@[j].writes.wf(),
            decreases n - i,
        {
            overlays.push(self.overlays[i].duplicate());
            i = i + 1;
        }
        overlays.push(Overlay { slot: new_slot, frozen: false, writes: AccountMap::new() });
        let st = EvmState {
            durable: self.durable.duplicate(),
            root_slot: self.root_slot,
            overlays,
            big: self.big.duplicate(),
        };
        proof {
            assert(st@.overlays =~~= spec_fork(self@, new_slot).overlays);
            assert(st@ =~~= spec_fork(self@, new_slot));
        }
        Ok(st)
    }
}

impl EvmState {
    /// Fold the frozen ancestors of the head into the durable image and
    /// discard them, moving the durable root to the last folded slot. The
    /// head's reads are unchanged; only the path below it shortens. With
    /// no frozen ancestor at the bottom the call changes nothing, so
    /// squashing twice in a row equals squashing once. Fails, changing
    /// nothing, when a frozen slot sits above a still-working one on the
    /// path.
    pub fn squash(&mut self) -> (r: Result<(), Error>)
        requires
            old(self).wf(),
        ensures
            final(self).wf(),
            match r {
                Ok(()) => squash_ok(old(self)@) && final(self)@ == spec_squash(old(self)@),
                Err(e) => e == Error::SquashThroughWorking && !squash_ok(old(self)@) && *final(
                    self
                ) == *old(self),
            },
    {
        let ghost v0 = self@;
        let n = self.overlays.len();
        let mut j: usize = 0;
        while j < n && self.overlays[j].frozen
            invariant
                self.wf(),
                *self == *old(self),
                n == self.overlays@.len(),
                j <= n,
                forall|k: int| 0 <= k < j ==> (#[trigger] v0.overlays[k]).frozen,
                v0 == self@,
            decreases n - j,
        {
            j = j + 1;
        }
        proof {
            lemma_frozen_prefix(v0.overlays);
            let fp = frozen_prefix(v0.overlays);
            if fp < j {
                assert(v0.overlays[fp].frozen);
            }
            if fp > j {
                assert(v0.overlays[j as int].frozen);
            }
            assert(fp == j);
        }
        let mut k: usize = j;
        while k < n
            invariant
                self.wf(),
                *self == *old(self),
                n == self.overlays@.len(),
                j <= k <= n,
                j == frozen_prefix(v0.overlays),
                forall|m: int| j <= m < k ==> !(#[trigger] v0.overlays[m]).frozen,
                v0 == self@,
            decreases n - k,
        {
            if self.overlays[k].frozen {
                proof {
                    assert(v0.overlays[k as int].frozen);
                }
                return Err(Error::SquashThroughWorking);
            }
            k = k + 1;
        }
        proof {
            assert(squash_ok(v0));
            assert(v0.overlays.take(0) =~= Seq::<OverlayView>::empty());
            assert(v0.overlays.skip(0) =~= v0.overlays);
        }
        let mut m: usize = 0;
        while m < j
            invariant
                m <= j,
                j <= v0.overlays.len(),
                self.durable.wf(),
                self.big.wf(),
                forall|i: int|
                    0 <= i < self.overlays@.len() ==> (#[trigger] self.overlays@[i]).writes.wf(),
                self.overlays@.len() == v0.overlays.len() - m,
                forall|i: int|
                    0 <= i < self.overlays@.len() ==> (#[trigger] self.overlays@[i])@
                        == v0.overlays[m + i],
                self@.durable == apply_overlays(v0.durable, v0.overlays.take(m as int)),
                self.root_slot == (if m > 0 {
                    v0.overlays[m as int - 1].slot
                } else {
                    v0.root_slot
                }),
                self@.big == v0.big,
            decreases j - m,
        {
            let ghost pre = self.overlays@;
            let ov = self.overlays.remove(0);
            self.root_slot = ov.slot;
            proof {
                assert(ov == pre[0]);
                assert(ov@ == v0.overlays[m as int]);
                assert(forall|i: int|
                    0 <= i < self.overlays@.len() ==> (#[trigger] self.overlays@[i]) == pre[i
                        + 1]);
            }
            self.durable.absorb(&ov.writes);
            m = m + 1;
            proof {
                let t = v0.overlays.take(m as int);
                assert(t.drop_last() =~= v0.overlays.take(m as int - 1));
                assert(t.last() == v0.overlays[m as int - 1]);
                assert(self@.durable =~= apply_overlays(v0.durable, t));
            }
        }
        proof {
            assert(self@.overlays =~~= v0.overlays.skip(j as int));
        }
        if self.overlays.len() == 0 {
            self.overlays.push(
                Overlay { slot: self.root_slot, frozen: false, writes: AccountMap::new() },
            );
            proof {
                assert(self@.overlays =~~= spec_squash(v0).overlays);
            }
        }
        proof {
            assert(final(self)@ =~~= spec_squash(v0));
        }
        Ok(())
    }
}

impl Default for EvmState {
    /// A fresh store: empty durable image, one empty working overlay at
    /// slot zero, no open big-object buffer.
    fn default() -> (r: EvmState)
        ensures
            r.wf(),
            r@ == initial_view(),
    {
        let mut overlays: Vec<Overlay> = Vec::new();
        overlays.push(Overlay { slot: 0, frozen: false, writes: AccountMap::new() });
        let r = EvmState {
            durable: AccountMap::new(),
            root_slot: 0,
            overlays,
            big: BigStore::new(),
        };
        proof {
            assert(r@.overlays =~~= initial_view().overlays);
            assert(r@ =~~= initial_view());
        }
        r
    }
}

} // verus!
