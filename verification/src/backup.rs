//! The backup image: the durable (squashed) portion of a store as a plain
//! value, extracted for persistence and reloaded by slot. The byte
//! encoding of an image on disk is the host program's concern; the store's
//! contract is that extracting and reloading round-trips the visible
//! state.

use vstd::prelude::*;

use crate::accounts::AccountMap;
use crate::bigtx::{BigBufView, BigStore};
use crate::state::{
    current_slot_of, spec_squash, view_wf, visible, EvmState, Overlay, OverlayView, StateView,
};
use crate::types::{AccountStateView, Address, Error, Slot, H256};

verus! {

/// A self-contained snapshot of the durable portion of a store: the
/// accounts below the root and the slot the image reflects.
#[derive(Debug)]
pub struct BackupImage {
    pub slot: Slot,
    pub accounts: AccountMap,
}

/// The store a reload of an image produces: the image as durable root,
/// one empty working overlay reopening the root slot, no open big-object
/// buffer.
pub open spec fn spec_reload(durable: Map<Address, AccountStateView>, slot: Slot) -> StateView {
    StateView {
        durable,
        root_slot: slot,
        overlays: seq![OverlayView { slot, frozen: false, writes: Map::empty() }],
        big: Map::empty(),
    }
}

impl EvmState {
    /// The durable portion of the store, as of the root slot. Reads only
    /// the root: the working overlays above it are not part of a backup.
    pub fn durable_image(&self) -> (r: BackupImage)
        requires
            self.wf(),
        ensures
            r.accounts.wf(),
            r.slot == self@.root_slot,
            r.accounts@ == self@.durable,
    {
        BackupImage { slot: self.root_slot, accounts: self.durable.duplicate() }
    }

    /// A store whose root reflects `image` as of `slot`. Fails when the
    /// image does not carry that slot.
    pub fn load_from_image(image: BackupImage, slot: Slot) -> (r: Result<EvmState, Error>)
        requires
            image.accounts.wf(),
        ensures
            match r {
                Ok(st) => slot == image.slot && st.wf() && st@ == spec_reload(
                    image.accounts@,
                    slot,
                ) && visible(st@) == image.accounts@ && current_slot_of(st@) == slot,
                Err(e) => e == Error::NoSuchImage && slot != image.slot,
            },
    {
        if slot != image.slot {
            return Err(Error::NoSuchImage);
        }
        let mut overlays: Vec<Overlay> = Vec::new();
        overlays.push(Overlay { slot, frozen: false, writes: AccountMap::new() });
        let st = EvmState {
            durable: image.accounts,
            root_slot: slot,
            overlays,
            big: BigStore::new(),
        };
        proof {
            assert(st@.overlays =~~= spec_reload(image.accounts@, slot).overlays);
            assert(st@ =~~= spec_reload(image.accounts@, slot));
            lemma_reload_visible(image.accounts@, slot);
        }
        Ok(st)
    }
}

/// Reloading an image makes exactly the image visible.
pub proof fn lemma_reload_visible(durable: Map<Address, AccountStateView>, slot: Slot)
    ensures
        view_wf(spec_reload(durable, slot)),
        visible(spec_reload(durable, slot)) == durable,
        current_slot_of(spec_reload(durable, slot)) == slot,
{
    let v = spec_reload(durable, slot);
    assert(v.overlays.drop_last() =~= Seq::<OverlayView>::empty());
    assert(visible(v) == crate::state::apply_overlays(
        durable,
        v.overlays.drop_last(),
    ).union_prefer_right(v.overlays.last().writes));
    assert(durable.union_prefer_right(Map::<Address, AccountStateView>::empty()) =~= durable);
}

/// Backing up after a full squash and reloading the image yields a store
/// that reads exactly what the pre-backup store read, at every address.
pub proof fn lemma_backup_round_trip(v: StateView)
    requires
        view_wf(v),
        forall|i: int| 0 <= i < v.overlays.len() ==> (#[trigger] v.overlays[i]).frozen,
    ensures
        visible(spec_reload(spec_squash(v).durable, spec_squash(v).root_slot)) == visible(v),
        current_slot_of(spec_reload(spec_squash(v).durable, spec_squash(v).root_slot))
            == current_slot_of(v),
{
    crate::laws::lemma_squash_full(v);
    lemma_reload_visible(spec_squash(v).durable, spec_squash(v).root_slot);
}

} // verus!
