//! The big-object store: chunked-upload buffers for payloads too large for
//! a single mutation, keyed by a caller-chosen 256-bit seed. A buffer is
//! reserved with a declared length, filled by offset writes, and released
//! when the assembled bytes are executed.

use vstd::prelude::*;

use crate::state::{head_frozen, spec_set_account, visible, EvmState, StateView};
use crate::types::{dup_vec, AccountState, AccountStateView, Address, Error, H256, U256};

verus! {

/// One open upload buffer: the bytes written so far and, per byte, whether
/// any write has covered it.
#[derive(Debug)]
pub struct BigBuf {
    pub seed: H256,
    pub data: Vec<u8>,
    pub written: Vec<bool>,
}

/// The mathematical content of a [`BigBuf`].
#[verifier::ext_equal]
pub ghost struct BigBufView {
    pub data: Seq<u8>,
    pub written: Seq<bool>,
}

impl View for BigBuf {
    type V = BigBufView;

    open spec fn view(&self) -> BigBufView {
        BigBufView { data: self.data@, written: self.written@ }
    }
}

impl BigBuf {
    /// One coverage flag per byte.
    pub open spec fn wf(self) -> bool {
        self.data@.len() == self.written@.len()
    }
}

/// A buffer is complete when every byte offset has been covered by a write.
pub open spec fn buf_complete(b: BigBufView) -> bool {
    forall|i: int| 0 <= i < b.written.len() ==> b.written[i]
}

/// The buffer after bytes are written at `offset`: the addressed range is
/// overwritten and marked covered; all other offsets keep their state.
pub open spec fn spec_buf_write(b: BigBufView, offset: int, bytes: Seq<u8>) -> BigBufView {
    BigBufView {
        data: Seq::new(
            b.data.len(),
            |i: int|
                if offset <= i < offset + bytes.len() {
                    bytes[i - offset]
                } else {
                    b.data[i]
                },
        ),
        written: Seq::new(
            b.written.len(),
            |i: int|
                if offset <= i < offset + bytes.len() {
                    true
                } else {
                    b.written[i]
                },
        ),
    }
}

/// The mapping that a sequence of buffers denotes, later entries
/// overriding earlier ones at the same seed.
pub open spec fn map_of_bufs(s: Seq<BigBuf>) -> Map<H256, BigBufView>
    decreases s.len(),
{
    if s.len() == 0 {
        Map::empty()
    } else {
        map_of_bufs(s.drop_last()).insert(s.last().seed, s.last()@)
    }
}

/// A seed is in `map_of_bufs(s)` exactly when some buffer carries it.
pub proof fn lemma_bufs_contains(s: Seq<BigBuf>, seed: H256)
    ensures
        map_of_bufs(s).contains_key(seed) <==> exists|i: int| 0 <= i < s.len() && s[i].seed
            == seed,
    decreases s.len(),
{
    if s.len() > 0 {
        lemma_bufs_contains(s.drop_last(), seed);
        if map_of_bufs(s).contains_key(seed) && s.last().seed != seed {
            let i = choose|i: int|
                0 <= i < s.drop_last().len() && s.drop_last()[i].seed == seed;
            assert(s[i].seed == seed);
        }
        if exists|i: int| 0 <= i < s.len() && s[i].seed == seed {
            let i = choose|i: int| 0 <= i < s.len() && s[i].seed == seed;
            if i < s.len() - 1 {
                assert(s.drop_last()[i].seed == seed);
            }
        }
    }
}

/// With unique seeds, the buffer that carries a seed gives its value.
pub proof fn lemma_bufs_index(s: Seq<BigBuf>, i: int)
    requires
        0 <= i < s.len(),
        forall|j: int, k: int|
            0 <= j < k < s.len() ==> (#[trigger] s[j]).seed != (#[trigger] s[k]).seed,
    ensures
        map_of_bufs(s).contains_key(s[i].seed),
        map_of_bufs(s)[s[i].seed] == s[i]@,
    decreases s.len(),
{
    if i < s.len() - 1 {
        assert(s.drop_last()[i] == s[i]);
        lemma_bufs_index(s.drop_last(), i);
        assert(s.last().seed != s[i].seed);
    }
}

/// Replacing the buffer that holds a seed updates the mapping at that seed
/// alone.
pub proof fn lemma_bufs_update(s: Seq<BigBuf>, i: int, b: BigBuf)
    requires
        0 <= i < s.len(),
        b.seed == s[i].seed,
        forall|j: int, k: int|
            0 <= j < k < s.len() ==> (#[trigger] s[j]).seed != (#[trigger] s[k]).seed,
    ensures
        map_of_bufs(s.update(i, b)) =~= map_of_bufs(s).insert(s[i].seed, b@),
    decreases s.len(),
{
    let t = s.update(i, b);
    if i == s.len() - 1 {
        assert(t.drop_last() =~= s.drop_last());
    } else {
        lemma_bufs_update(s.drop_last(), i, b);
        assert(t.drop_last() =~= s.drop_last().update(i, b));
        assert(t.last() == s.last());
        assert(s.last().seed != s[i].seed);
    }
}

/// Removing the buffer that holds a seed removes that seed alone.
pub proof fn lemma_bufs_remove(s: Seq<BigBuf>, i: int)
    requires
        0 <= i < s.len(),
        forall|j: int, k: int|
            0 <= j < k < s.len() ==> (#[trigger] s[j]).seed != (#[trigger] s[k]).seed,
    ensures
        map_of_bufs(s.remove(i)) =~= map_of_bufs(s).remove(s[i].seed),
    decreases s.len(),
{
    if i == s.len() - 1 {
        assert(s.remove(i) =~= s.drop_last());
        lemma_bufs_contains(s.drop_last(), s[i].seed);
        assert(forall|j: int|
            0 <= j < s.drop_last().len() ==> (#[trigger] s.drop_last()[j]).seed != s[i].seed);
        assert(map_of_bufs(s.drop_last()) =~= map_of_bufs(s.drop_last()).remove(s[i].seed));
    } else {
        lemma_bufs_remove(s.drop_last(), i);
        assert(s.remove(i).drop_last() =~= s.drop_last().remove(i));
        assert(s.remove(i).last() == s.last());
        assert(s.last().seed != s[i].seed);
    }
}

/// All open buffers, keyed by seed. Buffers with distinct seeds are
/// independent of each other.
#[derive(Debug)]
pub struct BigStore {
    pub bufs: Vec<BigBuf>,
}

impl View for BigStore {
    type V = Map<H256, BigBufView>;

    open spec fn view(&self) -> Map<H256, BigBufView> {
        map_of_bufs(self.bufs@)
    }
}

impl BigStore {
    /// Seeds are pairwise distinct and every buffer is well formed.
    pub open spec fn wf(self) -> bool {
        &&& forall|j: int, k: int|
            0 <= j < k < self.bufs@.len() ==> (#[trigger] self.bufs@[j]).seed != (
            #[trigger] self.bufs@[k]).seed
        &&& forall|i: int| 0 <= i < self.bufs@.len() ==> (#[trigger] self.bufs@[i]).wf()
    }

    /// A store with no open buffer.
    pub fn new() -> (r: BigStore)
        ensures
            r.wf(),
            r@ == Map::<H256, BigBufView>::empty(),
    {
        let r = BigStore { bufs: Vec::new() };
        proof {
            assert(r.bufs@.len() == 0);
        }
        r
    }

    /// The position of the buffer for `seed`, if one is open.
    fn find(&self, seed: H256) -> (r: Option<usize>)
        requires
            self.wf(),
        ensures
            match r {
                Some(i) => i < self.bufs@.len() && self.bufs@[i as int].seed == seed
                    && self@.contains_key(seed) && self@[seed] == self.bufs@[i as int]@,
                None => !self@.contains_key(seed),
            },
    {
        let n = self.bufs.len();
        let mut i: usize = 0;
        while i < n
            invariant
                self.wf(),
                n == self.bufs@.len(),
                i <= n,
                forall|j: int| 0 <= j < i ==> (#[trigger] self.bufs@[j]).seed != seed,
            decreases n - i,
        {
            if self.bufs[i].seed == seed {
                proof {
                    lemma_bufs_index(self.bufs@, i as int);
                }
                return Some(i);
            }
            i = i + 1;
        }
        proof {
            lemma_bufs_contains(self.bufs@, seed);
        }
        None
    }

    /// Reserve a zero-initialized, uncovered buffer of `len` bytes for
    /// `seed`. Fails when `seed` already has an open buffer.
    pub fn allocate(&mut self, seed: H256, len: usize) -> (r: Result<(), Error>)
        requires
            old(self).wf(),
        ensures
            final(self).wf(),
            match r {
                Ok(()) => !old(self)@.contains_key(seed) && final(self)@ == old(self)@.insert(
                    seed,
                    BigBufView {
                        data: Seq::new(len as nat, |i: int| 0u8),
                        written: Seq::new(len as nat, |i: int| false),
                    },
                ),
                Err(e) => e == Error::AlreadyAllocated && old(self)@.contains_key(seed)
                    && final(self)@ == old(self)@,
            },
    {
        match self.find(seed) {
            Some(_) => Err(Error::AlreadyAllocated),
            None => {
                let mut data: Vec<u8> = Vec::new();
                let mut written: Vec<bool> = Vec::new();
                let mut i: usize = 0;
                while i < len
                    invariant
                        i <= len,
                        data@ =~= Seq::new(i as nat, |j: int| 0u8),
                        written@ =~= Seq::new(i as nat, |j: int| false),
                    decreases len - i,
                {
                    data.push(0u8);
                    written.push(false);
                    i = i + 1;
                    proof {
                        assert(data@ =~= Seq::new(i as nat, |j: int| 0u8));
                        assert(written@ =~= Seq::new(i as nat, |j: int| false));
                    }
                }
                let buf = BigBuf { seed, data, written };
                proof {
                    lemma_bufs_contains(self.bufs@, seed);
                }
                self.bufs.push(buf);
                proof {
                    assert(self.bufs@.drop_last() =~= old(self).bufs@);
                    assert(final(self)@ =~= old(self)@.insert(
                        seed,
                        BigBufView {
                            data: Seq::new(len as nat, |i: int| 0u8),
                            written: Seq::new(len as nat, |i: int| false),
                        },
                    ));
                }
                Ok(())
            },
        }
    }

    /// Overwrite `bytes.len()` bytes at `offset` of the buffer for `seed`
    /// and mark them covered; the last write at an offset wins. Fails when
    /// no buffer is open for `seed` or the range leaves the reserved
    /// length.
    pub fn write(&mut self, seed: H256, offset: u64, bytes: &Vec<u8>) -> (r: Result<(), Error>)
        requires
            old(self).wf(),
        ensures
            final(self).wf(),
            match r {
                Ok(()) => old(self)@.contains_key(seed) && offset + bytes@.len() <= old(
                    self
                )@[seed].data.len() && final(self)@ == old(self)@.insert(
                    seed,
                    spec_buf_write(old(self)@[seed], offset as int, bytes@),
                ),
                Err(e) => final(self)@ == old(self)@ && ((e == Error::NotAllocated && !old(
                    self
                )@.contains_key(seed)) || (e == Error::OutOfBounds && old(self)@.contains_key(
                    seed,
                ) && offset + bytes@.len() > old(self)@[seed].data.len())),
            },
    {
        let i = match self.find(seed) {
            Some(i) => i,
            None => {
                return Err(Error::NotAllocated);
            },
        };
        let total = self.bufs[i].data.len();
        if bytes.len() > total || offset > (total - bytes.len()) as u64 {
            return Err(Error::OutOfBounds);
        }
        let off = offset as usize;
        let old_buf = self.bufs.remove(i);
        let n = old_buf.data.len();
        let mut data: Vec<u8> = Vec::new();
        let mut written: Vec<bool> = Vec::new();
        let mut j: usize = 0;
        while j < n
            invariant
                n == old_buf.data@.len(),
                n == old_buf.written@.len(),
                off + bytes@.len() <= n,
                j <= n,
                data@.len() == j,
                written@.len() == j,
                forall|k: int|
                    0 <= k < j ==> data@[k] == (if off <= k < off + bytes@.len() {
                        bytes@[k - off]
                    } else {
                        old_buf.data@[k]
                    }),
                forall|k: int|
                    0 <= k < j ==> written@[k] == (if off <= k < off + bytes@.len() {
                        true
                    } else {
                        old_buf.written@[k]
                    }),
            decreases n - j,
        {
            if j >= off && j < off + bytes.len() {
                data.push(bytes[j - off]);
                written.push(true);
            } else {
                data.push(old_buf.data[j]);
                written.push(old_buf.written[j]);
            }
            j = j + 1;
        }
        let new_buf = BigBuf { seed, data, written };
        proof {
            assert(new_buf@ =~= spec_buf_write(old_buf@, offset as int, bytes@));
            lemma_bufs_update(old(self).bufs@, i as int, new_buf);
        }
        self.bufs.insert(i, new_buf);
        proof {
            assert(self.bufs@ =~= old(self).bufs@.update(i as int, new_buf));
        }
        Ok(())
    }

    /// The open buffer for `seed`, if any.
    pub fn get(&self, seed: H256) -> (r: Option<&BigBuf>)
        requires
            self.wf(),
        ensures
            match r {
                Some(b) => self@.contains_key(seed) && b@ == self@[seed] && b.wf(),
                None => !self@.contains_key(seed),
            },
    {
        match self.find(seed) {
            Some(i) => Some(&self.bufs[i]),
            None => None,
        }
    }

    /// Release and return the buffer for `seed`. Fails when none is open.
    pub fn take(&mut self, seed: H256) -> (r: Result<BigBuf, Error>)
        requires
            old(self).wf(),
        ensures
            final(self).wf(),
            match r {
                Ok(b) => old(self)@.contains_key(seed) && b@ == old(self)@[seed] && b.seed
                    == seed && b.wf() && final(self)@ == old(self)@.remove(seed),
                Err(e) => e == Error::NotAllocated && !old(self)@.contains_key(seed) && final(
                    self
                )@ == old(self)@,
            },
    {
        match self.find(seed) {
            Some(i) => {
                proof {
                    lemma_bufs_remove(self.bufs@, i as int);
                }
                let b = self.bufs.remove(i);
                Ok(b)
            },
            None => Err(Error::NotAllocated),
        }
    }
}

impl BigBuf {
    /// An exact copy of the buffer.
    pub fn duplicate(&self) -> (r: BigBuf)
        ensures
            r@ == self@,
            r.seed == self.seed,
            self.wf() ==> r.wf(),
    {
        BigBuf { seed: self.seed, data: dup_vec(&self.data), written: dup_vec(&self.written) }
    }
}

impl BigStore {
    /// An exact copy of the store.
    pub fn duplicate(&self) -> (r: BigStore)
        requires
            self.wf(),
        ensures
            r.wf(),
            r@ == self@,
    {
        let n = self.bufs.len();
        let mut bufs: Vec<BigBuf> = Vec::new();
        let mut i: usize = 0;
        while i < n
            invariant
                self.wf(),
                n == self.bufs@.len(),
                i <= n,
                bufs@.len() == i,
                forall|j: int|
                    0 <= j < i ==> (#[trigger] bufs@[j]).seed == self.bufs@[j].seed
                        && bufs@[j]@ == self.bufs@[j]@ && bufs@[j].wf(),
            decreases n - i,
        {
            bufs.push(self.bufs[i].duplicate());
            i = i + 1;
        }
        let r = BigStore { bufs };
        proof {
            lemma_bufs_pointwise(r.bufs@, self.bufs@);
        }
        r
    }
}

/// Two buffer sequences whose seeds and views agree pointwise denote the
/// same mapping.
pub proof fn lemma_bufs_pointwise(s: Seq<BigBuf>, t: Seq<BigBuf>)
    requires
        s.len() == t.len(),
        forall|i: int|
            0 <= i < s.len() ==> (#[trigger] s[i]).seed == (#[trigger] t[i]).seed && s[i]@
                == t[i]@,
    ensures
        map_of_bufs(s) =~= map_of_bufs(t),
    decreases s.len(),
{
    if s.len() > 0 {
        assert(forall|i: int|
            0 <= i < s.drop_last().len() ==> (#[trigger] s.drop_last()[i]).seed == (
            #[trigger] t.drop_last()[i]).seed && s.drop_last()[i]@ == t.drop_last()[i]@);
        lemma_bufs_pointwise(s.drop_last(), t.drop_last());
    }
}

/// A freshly reserved buffer: `len` zero bytes, none of them covered yet.
pub open spec fn fresh_buf(len: nat) -> BigBufView {
    BigBufView { data: Seq::new(len, |i: int| 0u8), written: Seq::new(len, |i: int| false) }
}

/// The account identifier a big-object effect lands on: the most
/// significant 20 bytes of the seed.
pub open spec fn spec_seed_address(seed: H256) -> Address {
    Address { hi: seed.w3, mid: seed.w2, lo: (seed.w1 >> 32) as u32 }
}

/// Computes [`spec_seed_address`].
pub fn seed_address(seed: H256) -> (r: Address)
    ensures
        r == spec_seed_address(seed),
{
    proof {
        let w = seed.w1;
        assert(w >> 32 < 0x1_0000_0000) by (bit_vector);
    }
    Address { hi: seed.w3, mid: seed.w2, lo: (seed.w1 >> 32) as u32 }
}

/// The record a finished buffer installs: the assembled bytes as code,
/// over the balance, nonce and storage the address already had (zero and
/// empty when it had none).
pub open spec fn spec_deployed_record(
    prior: Option<AccountStateView>,
    code: Seq<u8>,
) -> AccountStateView {
    match prior {
        Some(p) => AccountStateView { balance: p.balance, nonce: p.nonce, code, storage: p.storage },
        None => AccountStateView {
            balance: U256 { w3: 0, w2: 0, w1: 0, w0: 0 },
            nonce: U256 { w3: 0, w2: 0, w1: 0, w0: 0 },
            code,
            storage: Seq::empty(),
        },
    }
}

/// What the head slot reads at `a`, as an option.
pub open spec fn visible_opt(v: StateView, a: Address) -> Option<AccountStateView> {
    if visible(v).contains_key(a) {
        Some(visible(v)[a])
    } else {
        None
    }
}

impl EvmState {
    /// Reserve a zero-initialized big-object buffer of `len` bytes for
    /// `seed`. Fails, changing nothing, when `seed` already has an open
    /// buffer; no slot or account is touched either way.
    pub fn allocate(&mut self, seed: H256, len: u64) -> (r: Result<(), Error>)
        requires
            old(self).wf(),
            len as nat <= usize::MAX as nat,
        ensures
            final(self).wf(),
            final(self)@.durable == old(self)@.durable,
            final(self)@.root_slot == old(self)@.root_slot,
            final(self)@.overlays == old(self)@.overlays,
            match r {
                Ok(()) => !old(self)@.big.contains_key(seed) && final(self)@.big == old(
                    self
                )@.big.insert(seed, fresh_buf(len as nat)),
                Err(e) => e == Error::AlreadyAllocated && old(self)@.big.contains_key(seed)
                    && final(self)@.big == old(self)@.big,
            },
    {
        let r = self.big.allocate(seed, len as usize);
        proof {
            if r is Ok {
                assert(fresh_buf(len as nat).data =~= Seq::new(len as nat, |i: int| 0u8));
                assert(final(self)@.big =~~= old(self)@.big.insert(seed, fresh_buf(len as nat)));
            }
        }
        r
    }

    /// Overwrite part of the open buffer for `seed`: `bytes` land at
    /// `offset` and are marked covered, the last write at an offset
    /// winning. Fails, changing nothing, when no buffer is open for
    /// `seed` or the range leaves the reserved length.
    pub fn write(&mut self, seed: H256, offset: u64, bytes: &Vec<u8>) -> (r: Result<(), Error>)
        requires
            old(self).wf(),
        ensures
            final(self).wf(),
            final(self)@.durable == old(self)@.durable,
            final(self)@.root_slot == old(self)@.root_slot,
            final(self)@.overlays == old(self)@.overlays,
            match r {
                Ok(()) => old(self)@.big.contains_key(seed) && offset + bytes@.len() <= old(
                    self
                )@.big[seed].data.len() && final(self)@.big == old(self)@.big.insert(
                    seed,
                    spec_buf_write(old(self)@.big[seed], offset as int, bytes@),
                ),
                Err(e) => final(self)@.big == old(self)@.big && ((e == Error::NotAllocated
                    && !old(self)@.big.contains_key(seed)) || (e == Error::OutOfBounds && old(
                    self
                )@.big.contains_key(seed) && offset + bytes@.len() > old(
                    self
                )@.big[seed].data.len())),
            },
    {
        self.big.write(seed, offset, bytes)
    }

    /// Execute the big object for `seed`: once every byte of the buffer
    /// has been covered, release the buffer and atomically install the
    /// assembled bytes as the code of the seed's account in the working
    /// head slot, keeping the balance, nonce and storage the address
    /// already had. The assembled bytes are returned. Fails, changing
    /// nothing, when no buffer is open or when any byte is still
    /// uncovered. On a frozen head the materialization fails too, but the
    /// buffer is still released: execution consumes a fully covered
    /// buffer whether or not the account-level effect lands.
    #[verifier::rlimit(50)]
    pub fn execute(&mut self, seed: H256) -> (r: Result<Vec<u8>, Error>)
        requires
            old(self).wf(),
        ensures
            final(self).wf(),
            match r {
                Ok(bytes) => {
                    &&& old(self)@.big.contains_key(seed)
                    &&& buf_complete(old(self)@.big[seed])
                    &&& !head_frozen(old(self)@)
                    &&& bytes@ == old(self)@.big[seed].data
                    &&& final(self)@ == spec_set_account(
                        StateView {
                            durable: old(self)@.durable,
                            root_slot: old(self)@.root_slot,
                            overlays: old(self)@.overlays,
                            big: old(self)@.big.remove(seed),
                        },
                        spec_seed_address(seed),
                        spec_deployed_record(
                            visible_opt(old(self)@, spec_seed_address(seed)),
                            old(self)@.big[seed].data,
                        ),
                    )
                },
                Err(e) => ((e == Error::NotAllocated && !old(self)@.big.contains_key(seed)
                    && *final(self) == *old(self)) || (e == Error::IncompleteBuffer && old(
                    self
                )@.big.contains_key(seed) && !buf_complete(old(self)@.big[seed]) && *final(
                    self
                ) == *old(self)) || (e == Error::FrozenSlot && old(self)@.big.contains_key(
                    seed,
                ) && buf_complete(old(self)@.big[seed]) && head_frozen(old(self)@) && final(
                    self
                )@ == StateView {
                    durable: old(self)@.durable,
                    root_slot: old(self)@.root_slot,
                    overlays: old(self)@.overlays,
                    big: old(self)@.big.remove(seed),
                })),
            },
    {
        let mut complete = true;
        match self.big.get(seed) {
            None => {
                return Err(Error::NotAllocated);
            },
            Some(b) => {
                let ghost x = b@;
                let n = b.written.len();
                let mut i: usize = 0;
                while i < n
                    invariant
                        x == b@,
                        x == old(self)@.big[seed],
                        n == b.written@.len(),
                        i <= n,
                        complete <==> (forall|k: int| 0 <= k < i ==> x.written[k]),
                    decreases n - i,
                {
                    proof {
                        assert(x.written[i as int] == b.written@[i as int]);
                    }
                    if !b.written[i] {
                        complete = false;
                    }
                    i = i + 1;
                }
                proof {
                    assert(complete <==> buf_complete(x));
                    assert(complete <==> buf_complete(old(self)@.big[seed]));
                }
            },
        }
        if !complete {
            return Err(Error::IncompleteBuffer);
        }
        let buf = match self.big.take(seed) {
            Ok(b) => b,
            Err(_) => {
                proof {
                    assert(false);
                }
                return Err(Error::NotAllocated);
            },
        };
        let n_ov = self.overlays.len();
        if self.overlays[n_ov - 1].frozen {
            return Err(Error::FrozenSlot);
        }
        let bytes = dup_vec(&buf.data);
        let addr = seed_address(seed);
        let record = match self.get_account(addr) {
            Some(acc) => AccountState {
                balance: acc.balance,
                nonce: acc.nonce,
                code: buf.data,
                storage: acc.storage,
            },
            None => AccountState {
                balance: U256::zero(),
                nonce: U256::zero(),
                code: buf.data,
                storage: Vec::new(),
            },
        };
        match self.set_account(addr, record) {
            Ok(()) => {
            },
            Err(_) => {
                proof {
                    assert(false);
                }
                return Err(Error::FrozenSlot);
            },
        }
        Ok(bytes)
    }
}

/// Writes to ranges that do not overlap land in the same buffer whatever
/// their order.
pub proof fn lemma_big_write_commutes(b: BigBufView, o1: int, b1: Seq<u8>, o2: int, b2: Seq<u8>)
    requires
        0 <= o1,
        0 <= o2,
        o1 + b1.len() <= o2 || o2 + b2.len() <= o1,
    ensures
        spec_buf_write(spec_buf_write(b, o1, b1), o2, b2) =~= spec_buf_write(
            spec_buf_write(b, o2, b2),
            o1,
            b1,
        ),
{
}

} // verus!
