//! The byte format of a backup image, verified: words are little-endian,
//! accounts carry their address, balance, nonce, length-prefixed code and
//! length-prefixed storage, and the whole image is magic, slot, count and
//! the account records. Decoding an encoded image provably yields the
//! image back; the host program only moves these bytes to and from disk.

use vstd::prelude::*;

use crate::accounts::{map_of, AccountMap};
use crate::backup::BackupImage;
use crate::types::{
    AccountState, AccountStateView, Address, Error, Slot, StorageEntry, H256, U256,
};

verus! {

/// The eight little-endian bytes of a 64-bit word.
#[verifier::opaque]
pub open spec fn enc_u64(v: u64) -> Seq<u8> {
    seq![
        (v % 0x100) as u8,
        ((v / 0x100) % 0x100) as u8,
        ((v / 0x1_0000) % 0x100) as u8,
        ((v / 0x100_0000) % 0x100) as u8,
        ((v / 0x1_0000_0000) % 0x100) as u8,
        ((v / 0x100_0000_0000) % 0x100) as u8,
        ((v / 0x1_0000_0000_0000) % 0x100) as u8,
        ((v / 0x100_0000_0000_0000) % 0x100) as u8,
    ]
}

/// The four little-endian bytes of a 32-bit word.
#[verifier::opaque]
pub open spec fn enc_u32(v: u32) -> Seq<u8> {
    seq![
        (v % 0x100) as u8,
        ((v / 0x100) % 0x100) as u8,
        ((v / 0x1_0000) % 0x100) as u8,
        ((v / 0x100_0000) % 0x100) as u8,
    ]
}

/// The value of the eight little-endian bytes at `p`.
#[verifier::opaque]
pub open spec fn le64_at(b: Seq<u8>, p: int) -> int {
    b[p] + 0x100 * (b[p + 1] + 0x100 * (b[p + 2] + 0x100 * (b[p + 3] + 0x100 * (b[p + 4]
        + 0x100 * (b[p + 5] + 0x100 * (b[p + 6] + 0x100 * b[p + 7]))))))
}

/// The value of the four little-endian bytes at `p`.
#[verifier::opaque]
pub open spec fn le32_at(b: Seq<u8>, p: int) -> int {
    b[p] + 0x100 * (b[p + 1] + 0x100 * (b[p + 2] + 0x100 * b[p + 3]))
}

/// A word's bytes read back as the word.
pub proof fn lemma_le64_roundtrip(v: u64)
    ensures
        le64_at(enc_u64(v), 0) == v,
{
    reveal(enc_u64);
    reveal(le64_at);
    assert(v == (v % 0x100) + 0x100 * ((v / 0x100) % 0x100) + 0x1_0000 * ((v / 0x1_0000)
        % 0x100) + 0x100_0000 * ((v / 0x100_0000) % 0x100) + 0x1_0000_0000 * ((v
        / 0x1_0000_0000) % 0x100) + 0x100_0000_0000 * ((v / 0x100_0000_0000) % 0x100)
        + 0x1_0000_0000_0000 * ((v / 0x1_0000_0000_0000) % 0x100) + 0x100_0000_0000_0000 * ((v
        / 0x100_0000_0000_0000) % 0x100)) by (bit_vector);
}

/// A 32-bit word's bytes read back as the word.
pub proof fn lemma_le32_roundtrip(v: u32)
    ensures
        le32_at(enc_u32(v), 0) == v,
{
    reveal(enc_u32);
    reveal(le32_at);
    assert(v == (v % 0x100) + 0x100 * ((v / 0x100) % 0x100) + 0x1_0000 * ((v / 0x1_0000)
        % 0x100) + 0x100_0000 * ((v / 0x100_0000) % 0x100)) by (bit_vector);
}

/// Every encoded 64-bit word is eight bytes, every 32-bit word four.
pub proof fn lemma_word_lens()
    ensures
        forall|v: u64| (#[trigger] enc_u64(v)).len() == 8,
        forall|v: u32| (#[trigger] enc_u32(v)).len() == 4,
{
    reveal(enc_u64);
    reveal(enc_u32);
}

/// Wherever a word's bytes sit inside a larger string, they read back as
/// the word.
pub proof fn lemma_word_on(b: Seq<u8>, p: int, v: u64)
    requires
        0 <= p,
        p + 8 <= b.len(),
        b.subrange(p, p + 8) == enc_u64(v),
    ensures
        le64_at(b, p) == v,
{
    reveal(enc_u64);
    reveal(le64_at);
    lemma_word_lens();
    assert(forall|i: int| 0 <= i < 8 ==> b[p + i] == #[trigger] enc_u64(v)[i]) by {
        assert(forall|i: int|
            0 <= i < 8 ==> b[p + i] == #[trigger] b.subrange(p, p + 8)[i]);
    }
    lemma_le64_roundtrip(v);
}

/// As [`lemma_word_on`], for 32-bit words.
pub proof fn lemma_word32_on(b: Seq<u8>, p: int, v: u32)
    requires
        0 <= p,
        p + 4 <= b.len(),
        b.subrange(p, p + 4) == enc_u32(v),
    ensures
        le32_at(b, p) == v,
{
    reveal(enc_u32);
    reveal(le32_at);
    lemma_word_lens();
    assert(forall|i: int| 0 <= i < 4 ==> b[p + i] == #[trigger] enc_u32(v)[i]) by {
        assert(forall|i: int|
            0 <= i < 4 ==> b[p + i] == #[trigger] b.subrange(p, p + 4)[i]);
    }
    lemma_le32_roundtrip(v);
}

/// The 32 bytes of a 256-bit value, most significant limb first.
pub open spec fn enc_u256(v: U256) -> Seq<u8> {
    enc_u64(v.w3) + enc_u64(v.w2) + enc_u64(v.w1) + enc_u64(v.w0)
}

/// The 32 bytes of a hash, most significant limb first.
pub open spec fn enc_h256(v: H256) -> Seq<u8> {
    enc_u64(v.w3) + enc_u64(v.w2) + enc_u64(v.w1) + enc_u64(v.w0)
}

/// The 20 bytes of an address.
pub open spec fn enc_address(a: Address) -> Seq<u8> {
    enc_u64(a.hi) + enc_u64(a.mid) + enc_u32(a.lo)
}

/// The storage entries, 64 bytes each, in order.
pub open spec fn enc_storage(s: Seq<StorageEntry>) -> Seq<u8>
    decreases s.len(),
{
    if s.len() == 0 {
        Seq::empty()
    } else {
        enc_h256(s[0].key) + enc_h256(s[0].value) + enc_storage(s.skip(1))
    }
}

/// One account record: address, balance, nonce, length-prefixed code,
/// length-prefixed storage.
pub open spec fn enc_account(a: Address, st: AccountStateView) -> Seq<u8> {
    enc_address(a) + enc_u256(st.balance) + enc_u256(st.nonce) + enc_u64(st.code.len() as u64)
        + st.code + enc_u64(st.storage.len() as u64) + enc_storage(st.storage)
}

/// The account records of an image, in entry order.
pub open spec fn enc_entries(s: Seq<(Address, AccountState)>) -> Seq<u8>
    decreases s.len(),
{
    if s.len() == 0 {
        Seq::empty()
    } else {
        enc_account(s[0].0, s[0].1@) + enc_entries(s.skip(1))
    }
}

/// The fixed eight bytes every image opens with.
pub open spec fn magic() -> Seq<u8> {
    seq![0x45u8, 0x56u8, 0x4du8, 0x49u8, 0x4du8, 0x47u8, 0x30u8, 0x31u8]
}

/// The whole image: magic, slot, account count, account records.
pub open spec fn spec_encode_image(slot: Slot, entries: Seq<(Address, AccountState)>) -> Seq<
    u8,
> {
    magic() + enc_u64(slot) + enc_u64(entries.len() as u64) + enc_entries(entries)
}

/// The 256-bit value whose 32 bytes sit at `p`.
pub open spec fn sd_u256_at(b: Seq<u8>, p: int) -> U256 {
    U256 {
        w3: le64_at(b, p) as u64,
        w2: le64_at(b, p + 8) as u64,
        w1: le64_at(b, p + 16) as u64,
        w0: le64_at(b, p + 24) as u64,
    }
}

/// The hash whose 32 bytes sit at `p`.
pub open spec fn sd_h256_at(b: Seq<u8>, p: int) -> H256 {
    H256 {
        w3: le64_at(b, p) as u64,
        w2: le64_at(b, p + 8) as u64,
        w1: le64_at(b, p + 16) as u64,
        w0: le64_at(b, p + 24) as u64,
    }
}

/// The address whose 20 bytes sit at `p`.
pub open spec fn sd_address_at(b: Seq<u8>, p: int) -> Address {
    Address {
        hi: le64_at(b, p) as u64,
        mid: le64_at(b, p + 8) as u64,
        lo: le32_at(b, p + 16) as u32,
    }
}

/// Parse `k` storage entries from `p` onto `acc`: the entries in order
/// and the position after them, or nothing when the bytes run out.
pub open spec fn sd_storage(b: Seq<u8>, p: int, k: nat, acc: Seq<StorageEntry>) -> Option<
    (Seq<StorageEntry>, int),
>
    decreases k,
{
    if k == 0 {
        Some((acc, p))
    } else if 0 <= p && p + 64 <= b.len() {
        sd_storage(
            b,
            p + 64,
            (k - 1) as nat,
            acc.push(StorageEntry { key: sd_h256_at(b, p), value: sd_h256_at(b, p + 32) }),
        )
    } else {
        None
    }
}

/// Parse one account record at `p`: the address, the record and the
/// position after it, or nothing when the bytes do not form one.
pub open spec fn sd_account(b: Seq<u8>, p: int) -> Option<((Address, AccountStateView), int)> {
    if 0 <= p && p + 92 <= b.len() {
        let a = sd_address_at(b, p);
        let balance = sd_u256_at(b, p + 20);
        let nonce = sd_u256_at(b, p + 52);
        let clen = le64_at(b, p + 84);
        if p + 92 + clen + 8 <= b.len() {
            let code = b.subrange(p + 92, p + 92 + clen);
            let p2 = p + 92 + clen;
            let slen = le64_at(b, p2);
            match sd_storage(b, p2 + 8, slen as nat, Seq::empty()) {
                Some((storage, q)) => Some(
                    ((a, AccountStateView { balance, nonce, code, storage }), q),
                ),
                None => None,
            }
        } else {
            None
        }
    } else {
        None
    }
}

/// Parse `k` account records from `p` onto `acc`: each parsed record
/// overrides `acc` at its address, the later record winning.
pub open spec fn sd_accounts(
    b: Seq<u8>,
    p: int,
    k: nat,
    acc: Map<Address, AccountStateView>,
) -> Option<(Map<Address, AccountStateView>, int)>
    decreases k,
{
    if k == 0 {
        Some((acc, p))
    } else {
        match sd_account(b, p) {
            Some(((a, st), q)) => sd_accounts(b, q, (k - 1) as nat, acc.insert(a, st)),
            None => None,
        }
    }
}

/// What a byte string decodes to: the slot and account mapping of a
/// well-formed image, or nothing.
pub open spec fn spec_decode_image(b: Seq<u8>) -> Option<
    (Slot, Map<Address, AccountStateView>),
> {
    if b.len() >= 24 && b.subrange(0, 8) == magic() {
        match sd_accounts(b, 24, le64_at(b, 16) as nat, Map::empty()) {
            Some((m, q)) => if q == b.len() {
                Some((le64_at(b, 8) as u64, m))
            } else {
                None
            },
            None => None,
        }
    } else {
        None
    }
}

/// An encoded 256-bit value at `p` reads back as itself.
pub proof fn lemma_u256_on(b: Seq<u8>, p: int, v: U256)
    requires
        0 <= p,
        p + 32 <= b.len(),
        b.subrange(p, p + 32) == enc_u256(v),
    ensures
        sd_u256_at(b, p) == v,
{
    lemma_word_lens();
    assert(b.subrange(p, p + 8) =~= enc_u256(v).subrange(0, 8));
    assert(enc_u256(v).subrange(0, 8) =~= enc_u64(v.w3));
    assert(b.subrange(p + 8, p + 16) =~= enc_u256(v).subrange(8, 16));
    assert(enc_u256(v).subrange(8, 16) =~= enc_u64(v.w2));
    assert(b.subrange(p + 16, p + 24) =~= enc_u256(v).subrange(16, 24));
    assert(enc_u256(v).subrange(16, 24) =~= enc_u64(v.w1));
    assert(b.subrange(p + 24, p + 32) =~= enc_u256(v).subrange(24, 32));
    assert(enc_u256(v).subrange(24, 32) =~= enc_u64(v.w0));
    lemma_word_on(b, p, v.w3);
    lemma_word_on(b, p + 8, v.w2);
    lemma_word_on(b, p + 16, v.w1);
    lemma_word_on(b, p + 24, v.w0);
}

/// An encoded hash at `p` reads back as itself.
pub proof fn lemma_h256_on(b: Seq<u8>, p: int, v: H256)
    requires
        0 <= p,
        p + 32 <= b.len(),
        b.subrange(p, p + 32) == enc_h256(v),
    ensures
        sd_h256_at(b, p) == v,
{
    lemma_word_lens();
    assert(b.subrange(p, p + 8) =~= enc_h256(v).subrange(0, 8));
    assert(enc_h256(v).subrange(0, 8) =~= enc_u64(v.w3));
    assert(b.subrange(p + 8, p + 16) =~= enc_h256(v).subrange(8, 16));
    assert(enc_h256(v).subrange(8, 16) =~= enc_u64(v.w2));
    assert(b.subrange(p + 16, p + 24) =~= enc_h256(v).subrange(16, 24));
    assert(enc_h256(v).subrange(16, 24) =~= enc_u64(v.w1));
    assert(b.subrange(p + 24, p + 32) =~= enc_h256(v).subrange(24, 32));
    assert(enc_h256(v).subrange(24, 32) =~= enc_u64(v.w0));
    lemma_word_on(b, p, v.w3);
    lemma_word_on(b, p + 8, v.w2);
    lemma_word_on(b, p + 16, v.w1);
    lemma_word_on(b, p + 24, v.w0);
}

/// An encoded address at `p` reads back as itself.
pub proof fn lemma_address_on(b: Seq<u8>, p: int, a: Address)
    requires
        0 <= p,
        p + 20 <= b.len(),
        b.subrange(p, p + 20) == enc_address(a),
    ensures
        sd_address_at(b, p) == a,
{
    lemma_word_lens();
    assert(b.subrange(p, p + 8) =~= enc_address(a).subrange(0, 8));
    assert(enc_address(a).subrange(0, 8) =~= enc_u64(a.hi));
    assert(b.subrange(p + 8, p + 16) =~= enc_address(a).subrange(8, 16));
    assert(enc_address(a).subrange(8, 16) =~= enc_u64(a.mid));
    assert(b.subrange(p + 16, p + 20) =~= enc_address(a).subrange(16, 20));
    assert(enc_address(a).subrange(16, 20) =~= enc_u32(a.lo));
    lemma_word_on(b, p, a.hi);
    lemma_word_on(b, p + 8, a.mid);
    lemma_word32_on(b, p + 16, a.lo);
}

/// Encoded storage takes 64 bytes per entry.
#[verifier::rlimit(100)]
pub proof fn lemma_enc_storage_len(s: Seq<StorageEntry>)
    ensures
        enc_storage(s).len() == 64 * s.len(),
    decreases s.len(),
{
    lemma_word_lens();
    if s.len() > 0 {
        lemma_enc_storage_len(s.skip(1));
    }
}

/// Encoded storage entries at `p` parse back as themselves, appended to
/// whatever was already parsed.
#[verifier::rlimit(100)]
pub proof fn lemma_storage_on(b: Seq<u8>, p: int, s: Seq<StorageEntry>, acc: Seq<StorageEntry>)
    requires
        0 <= p,
        p + 64 * s.len() as int <= b.len(),
        b.subrange(p, p + 64 * s.len() as int) == enc_storage(s),
    ensures
        sd_storage(b, p, s.len() as nat, acc) == Some((acc + s, p + 64 * s.len() as int)),
    decreases s.len(),
{
    lemma_word_lens();
    lemma_enc_storage_len(s);
    if s.len() == 0 {
        assert(acc + s =~= acc);
    } else {
        let e = s[0];
        lemma_enc_storage_len(s.skip(1));
        assert(b.subrange(p, p + 32) =~= enc_storage(s).subrange(0, 32));
        assert(enc_storage(s).subrange(0, 32) =~= enc_h256(e.key));
        assert(b.subrange(p + 32, p + 64) =~= enc_storage(s).subrange(32, 64));
        assert(enc_storage(s).subrange(32, 64) =~= enc_h256(e.value));
        lemma_h256_on(b, p, e.key);
        lemma_h256_on(b, p + 32, e.value);
        let rl = 64 * s.skip(1).len() as int;
        assert(b.subrange(p + 64, p + 64 + rl) =~= enc_storage(s).subrange(64, 64 + rl));
        assert(enc_storage(s).subrange(64, 64 + rl) =~= enc_storage(s.skip(1)));
        lemma_storage_on(b, p + 64, s.skip(1), acc.push(e));
        assert(acc.push(e) + s.skip(1) =~= acc + s);
    }
}

/// The byte length of one encoded account record.
pub open spec fn enc_account_len(st: AccountStateView) -> int {
    100 + st.code.len() as int + 64 * st.storage.len() as int
}

/// An encoded account record at `p` parses back as itself.
#[verifier::rlimit(100)]
pub proof fn lemma_account_on(b: Seq<u8>, p: int, a: Address, st: AccountStateView)
    requires
        0 <= p,
        st.code.len() <= u64::MAX,
        st.storage.len() <= u64::MAX,
        p + enc_account_len(st) <= b.len(),
        b.subrange(p, p + enc_account_len(st)) == enc_account(a, st),
    ensures
        enc_account(a, st).len() == enc_account_len(st),
        sd_account(b, p) == Some(((a, st), p + enc_account_len(st))),
{
    lemma_word_lens();
    lemma_enc_storage_len(st.storage);
    let e = enc_account(a, st);
    let cl = st.code.len() as int;
    let sl = st.storage.len() as int;
    assert(e.len() == enc_account_len(st));
    assert(b.subrange(p, p + 20) =~= e.subrange(0, 20));
    assert(e.subrange(0, 20) =~= enc_address(a));
    lemma_address_on(b, p, a);
    assert(b.subrange(p + 20, p + 52) =~= e.subrange(20, 52));
    assert(e.subrange(20, 52) =~= enc_u256(st.balance));
    lemma_u256_on(b, p + 20, st.balance);
    assert(b.subrange(p + 52, p + 84) =~= e.subrange(52, 84));
    assert(e.subrange(52, 84) =~= enc_u256(st.nonce));
    lemma_u256_on(b, p + 52, st.nonce);
    assert(b.subrange(p + 84, p + 92) =~= e.subrange(84, 92));
    assert(e.subrange(84, 92) =~= enc_u64(st.code.len() as u64));
    lemma_word_on(b, p + 84, st.code.len() as u64);
    assert(le64_at(b, p + 84) == cl);
    assert(b.subrange(p + 92, p + 92 + cl) =~= e.subrange(92, 92 + cl));
    assert(e.subrange(92, 92 + cl) =~= st.code);
    let p2 = p + 92 + cl;
    assert(b.subrange(p2, p2 + 8) =~= e.subrange(92 + cl, 100 + cl));
    assert(e.subrange(92 + cl, 100 + cl) =~= enc_u64(st.storage.len() as u64));
    lemma_word_on(b, p2, st.storage.len() as u64);
    assert(le64_at(b, p2) == sl);
    assert(b.subrange(p2 + 8, p2 + 8 + 64 * sl) =~= e.subrange(100 + cl, 100 + cl + 64 * sl));
    assert(e.subrange(100 + cl, 100 + cl + 64 * sl) =~= enc_storage(st.storage));
    lemma_storage_on(b, p2 + 8, st.storage, Seq::empty());
    assert(Seq::<StorageEntry>::empty() + st.storage =~= st.storage);
}

/// Later records override earlier ones: folding the parsed records onto
/// an accumulator.
pub open spec fn fold_ins(
    acc: Map<Address, AccountStateView>,
    s: Seq<(Address, AccountState)>,
) -> Map<Address, AccountStateView>
    decreases s.len(),
{
    if s.len() == 0 {
        acc
    } else {
        fold_ins(acc.insert(s[0].0, s[0].1@), s.skip(1))
    }
}

/// Folding one more record onto the end inserts it last.
pub proof fn lemma_fold_ins_push(
    acc: Map<Address, AccountStateView>,
    s: Seq<(Address, AccountState)>,
    e: (Address, AccountState),
)
    ensures
        fold_ins(acc, s.push(e)) == fold_ins(acc, s).insert(e.0, e.1@),
    decreases s.len(),
{
    if s.len() == 0 {
        assert(s.push(e)[0] == e);
        assert(s.push(e).skip(1) =~= Seq::<(Address, AccountState)>::empty());
        assert(fold_ins(acc.insert(e.0, e.1@), Seq::<(Address, AccountState)>::empty())
            == acc.insert(e.0, e.1@));
        assert(fold_ins(acc, s) == acc);
    } else {
        assert(s.push(e)[0] == s[0]);
        assert(s.push(e).skip(1) =~= s.skip(1).push(e));
        lemma_fold_ins_push(acc.insert(s[0].0, s[0].1@), s.skip(1), e);
    }
}

/// The fold of all records from an empty base is exactly the mapping the
/// entries denote.
pub proof fn lemma_fold_ins_map_of(s: Seq<(Address, AccountState)>)
    ensures
        fold_ins(Map::empty(), s) == map_of(s),
    decreases s.len(),
{
    if s.len() > 0 {
        lemma_fold_ins_map_of(s.drop_last());
        assert(s.drop_last().push(s.last()) =~= s);
        lemma_fold_ins_push(Map::empty(), s.drop_last(), s.last());
    }
}

/// Per-entry size bounds every in-memory image satisfies.
pub open spec fn entries_bounded(s: Seq<(Address, AccountState)>) -> bool {
    forall|i: int|
        0 <= i < s.len() ==> (#[trigger] s[i]).1@.code.len() <= u64::MAX && s[i].1@.storage.len()
            <= u64::MAX
}

/// Encoded records at `p` parse back as themselves, folded onto whatever
/// was parsed before.
#[verifier::rlimit(100)]
pub proof fn lemma_entries_on(
    b: Seq<u8>,
    p: int,
    s: Seq<(Address, AccountState)>,
    acc: Map<Address, AccountStateView>,
)
    requires
        0 <= p,
        entries_bounded(s),
        p + enc_entries(s).len() as int <= b.len(),
        b.subrange(p, p + enc_entries(s).len() as int) == enc_entries(s),
    ensures
        sd_accounts(b, p, s.len() as nat, acc) == Some((fold_ins(acc, s), p + enc_entries(
            s,
        ).len() as int)),
    decreases s.len(),
{
    lemma_word_lens();
    if s.len() > 0 {
        let a = s[0].0;
        let st = s[0].1@;
        let el = enc_account(a, st).len() as int;
        lemma_enc_storage_len(st.storage);
        assert(el == enc_account_len(st));
        assert(b.subrange(p, p + el) =~= enc_entries(s).subrange(0, el));
        assert(enc_entries(s).subrange(0, el) =~= enc_account(a, st));
        lemma_account_on(b, p, a, st);
        let rl = enc_entries(s.skip(1)).len() as int;
        assert(b.subrange(p + el, p + el + rl) =~= enc_entries(s).subrange(el, el + rl));
        assert(enc_entries(s).subrange(el, el + rl) =~= enc_entries(s.skip(1)));
        assert(entries_bounded(s.skip(1))) by {
            assert(forall|i: int|
                0 <= i < s.skip(1).len() ==> (#[trigger] s.skip(1)[i]) == s[i + 1]);
        }
        lemma_entries_on(b, p + el, s.skip(1), acc.insert(a, st));
    }
}

/// Decoding an encoded image yields exactly the image: the slot and the
/// mapping its entries denote.
pub proof fn lemma_decode_encode(slot: Slot, entries: Seq<(Address, AccountState)>)
    requires
        entries.len() <= u64::MAX,
        entries_bounded(entries),
    ensures
        spec_decode_image(spec_encode_image(slot, entries)) == Some((slot, map_of(entries))),
{
    lemma_word_lens();
    let b = spec_encode_image(slot, entries);
    assert(b.len() == 24 + enc_entries(entries).len() as int);
    assert(b.subrange(0, 8) =~= magic());
    assert(b.subrange(8, 16) =~= enc_u64(slot));
    lemma_word_on(b, 8, slot);
    assert(b.subrange(16, 24) =~= enc_u64(entries.len() as u64));
    lemma_word_on(b, 16, entries.len() as u64);
    assert(b.subrange(24, 24 + enc_entries(entries).len() as int) =~= enc_entries(entries));
    lemma_entries_on(b, 24, entries, Map::empty());
    lemma_fold_ins_map_of(entries);
}

} // verus!
