//! Hashing shared by all filters.

use std::hash::Hash;
use std::hash::Hasher;
use vstd::prelude::*;

verus! {

/// The multiplier of [`FxHasher`].
pub const SEED: u64 = 0x517c_c1b7_2722_0a95;

/// `x` rotated left by five bits.
pub open spec fn rotate5(x: u64) -> u64 {
    (x << 5) | (x >> 59)
}

/// The state of an [`FxHasher`] in state `state` after it absorbed `word`.
pub open spec fn fx_add(state: u64, word: u64) -> u64 {
    (rotate5(state) ^ word).wrapping_mul(SEED)
}

/// The number whose little-endian digits in base 256 are `bytes`.
pub open spec fn le_value(bytes: Seq<u8>) -> nat
    decreases bytes.len(),
{
    if bytes.len() == 0 {
        0
    } else {
        bytes[0] as nat + 256 * le_value(bytes.drop_first())
    }
}

/// The length of the next word that is read from `len` bytes: eight, or less
/// at the end.
pub open spec fn word_len(len: nat) -> int {
    if len < 8 {
        len as int
    } else {
        8
    }
}

/// The state of an [`FxHasher`] in state `state` after it absorbed `bytes`,
/// eight bytes to a little-endian word, the last word padded with zeros.
pub open spec fn fx_write(state: u64, bytes: Seq<u8>) -> u64
    decreases bytes.len(),
{
    if bytes.len() == 0 {
        state
    } else {
        let n = word_len(bytes.len());
        fx_write(fx_add(state, le_value(bytes.take(n)) as u64), bytes.skip(n))
    }
}

/// Multiplicative hasher in the style of FxHash: one rotation, one exclusive
/// or and one multiplication for each word.
pub struct FxHasher {
    hash: u64,
}

impl View for FxHasher {
    type V = u64;

    closed spec fn view(&self) -> u64 {
        self.hash
    }
}

impl Default for FxHasher {
    fn default() -> (hasher: Self)
        ensures
            hasher@ == 0,
    {
        FxHasher { hash: 0 }
    }
}

/// A number of up to `n` base-256 digits lies below `256^n`; stated for the
/// lengths that fit in a word.
pub proof fn lemma_le_value_bound(bytes: Seq<u8>)
    requires
        bytes.len() <= 8,
    ensures
        le_value(bytes) <= u64::MAX,
        bytes.len() <= 7 ==> le_value(bytes) <= 0x00ff_ffff_ffff_ffff,
{
    reveal_with_fuel(le_value, 9);
}

impl FxHasher {
    /// Absorbs one word.
    fn add(&mut self, word: u64)
        ensures
            final(self)@ == fx_add(old(self)@, word),
    {
        let rotated: u64 = (self.hash << 5) | (self.hash >> 59);
        self.hash = (rotated ^ word).wrapping_mul(SEED);
    }
}

/// The little-endian number in `bytes[start..end]`.
fn read_word(bytes: &[u8], start: usize, end: usize) -> (word: u64)
    requires
        start <= end <= bytes@.len(),
        end - start <= 8,
    ensures
        word == le_value(bytes@.subrange(start as int, end as int)),
{
    let mut word: u64 = 0;
    let mut i: usize = end;
    while start < i
        invariant
            start <= i <= end <= bytes@.len(),
            end - start <= 8,
            word == le_value(bytes@.subrange(i as int, end as int)),
        decreases i,
    {
        i = i - 1;
        let ghost rest = bytes@.subrange(i as int, end as int);
        proof {
            assert(rest.drop_first() =~= bytes@.subrange(i + 1, end as int));
            lemma_le_value_bound(rest.drop_first());
        }
        word = word * 256 + bytes[i] as u64;
    }
    word
}

impl Hasher for FxHasher {
    fn finish(&self) -> (digest: u64)
        ensures
            digest == self@,
    {
        self.hash
    }

    fn write(&mut self, bytes: &[u8])
        ensures
            final(self)@ == fx_write(old(self)@, bytes@),
    {
        let mut i: usize = 0;
        assert(bytes@.skip(0) =~= bytes@);
        while i < bytes.len()
            invariant
                i <= bytes@.len(),
                fx_write(self@, bytes@.skip(i as int)) == fx_write(old(self)@, bytes@),
            decreases bytes@.len() - i,
        {
            let left: usize = bytes.len() - i;
            let n: usize = if left < 8 { left } else { 8 };
            let ghost rest = bytes@.skip(i as int);
            assert(rest.take(n as int) =~= bytes@.subrange(i as int, i + n));
            assert(rest.skip(n as int) =~= bytes@.skip(i + n));
            let word: u64 = read_word(bytes, i, i + n);
            self.add(word);
            i = i + n;
        }
    }

    fn write_u8(&mut self, n: u8)
        ensures
            final(self)@ == fx_add(old(self)@, n as u64),
    {
        self.add(n as u64);
    }

    fn write_u32(&mut self, n: u32)
        ensures
            final(self)@ == fx_add(old(self)@, n as u64),
    {
        self.add(n as u64);
    }

    fn write_u64(&mut self, n: u64)
        ensures
            final(self)@ == fx_add(old(self)@, n),
    {
        self.add(n);
    }

    fn write_usize(&mut self, n: usize)
        ensures
            final(self)@ == fx_add(old(self)@, n as u64),
    {
        self.add(n as u64);
    }
}

/// A 64-bit word with its high bits folded into its low bits by
/// `x ^ (x >> shift)`.
pub open spec fn fold_high(x: u64, shift: u64) -> u64 {
    x ^ (x >> shift)
}

/// The value of [`splitmix_finalize`].
pub open spec fn splitmix(x: u64) -> u64 {
    let a = fold_high(x, 30).wrapping_mul(0xbf58_476d_1ce4_e5b9);
    let b = fold_high(a, 27).wrapping_mul(0x94d0_49bb_1331_11eb);
    fold_high(b, 31)
}

/// Fx mixing alone leaves the high bits weak, and both the fingerprint and the
/// bucket index are carved out of the same 64-bit value: this spreads every
/// bit over the whole word.
pub fn splitmix_finalize(x: u64) -> (y: u64)
    ensures
        y == splitmix(x),
{
    let mut x: u64 = x;
    x = x ^ (x >> 30);
    x = x.wrapping_mul(0xbf58_476d_1ce4_e5b9);
    x = x ^ (x >> 27);
    x = x.wrapping_mul(0x94d0_49bb_1331_11eb);
    x ^ (x >> 31)
}

/// A value that can be looked up in a filter: it feeds itself to an
/// [`FxHasher`] as its `std::hash::Hash` does, and what that does to the
/// hasher's state is known, whatever the machine's byte order.
///
/// The 16-bit and 128-bit integers are no keys: their `Hash` writes bytes in
/// the machine's own order, so their hash depends on it. They have one by
/// [`hash_of_any`].
pub trait HashKey {
    /// The state of a hasher in state `state` after this key was fed to it.
    spec fn fed(&self, state: u64) -> u64;

    /// Feeds this key to `hasher`.
    fn feed(&self, hasher: &mut FxHasher)
        ensures
            final(hasher)@ == self.fed(old(hasher)@),
    ;
}

impl HashKey for u8 {
    open spec fn fed(&self, state: u64) -> u64 {
        fx_add(state, *self as u64)
    }

    fn feed(&self, hasher: &mut FxHasher) {
        hasher.write_u8(*self);
    }
}

impl HashKey for u32 {
    open spec fn fed(&self, state: u64) -> u64 {
        fx_add(state, *self as u64)
    }

    fn feed(&self, hasher: &mut FxHasher) {
        hasher.write_u32(*self);
    }
}

impl HashKey for u64 {
    open spec fn fed(&self, state: u64) -> u64 {
        fx_add(state, *self)
    }

    fn feed(&self, hasher: &mut FxHasher) {
        hasher.write_u64(*self);
    }
}

impl HashKey for usize {
    open spec fn fed(&self, state: u64) -> u64 {
        fx_add(state, *self as u64)
    }

    fn feed(&self, hasher: &mut FxHasher) {
        hasher.write_usize(*self);
    }
}

/// Signed integers are fed as the unsigned integers of the same bits.
impl HashKey for i8 {
    open spec fn fed(&self, state: u64) -> u64 {
        (*self as u8).fed(state)
    }

    fn feed(&self, hasher: &mut FxHasher) {
        (*self as u8).feed(hasher);
    }
}

impl HashKey for i32 {
    open spec fn fed(&self, state: u64) -> u64 {
        (*self as u32).fed(state)
    }

    fn feed(&self, hasher: &mut FxHasher) {
        (*self as u32).feed(hasher);
    }
}

impl HashKey for i64 {
    open spec fn fed(&self, state: u64) -> u64 {
        (*self as u64).fed(state)
    }

    fn feed(&self, hasher: &mut FxHasher) {
        (*self as u64).feed(hasher);
    }
}

impl HashKey for isize {
    open spec fn fed(&self, state: u64) -> u64 {
        (*self as usize).fed(state)
    }

    fn feed(&self, hasher: &mut FxHasher) {
        (*self as usize).feed(hasher);
    }
}

impl HashKey for bool {
    open spec fn fed(&self, state: u64) -> u64 {
        fx_add(state, if *self { 1 } else { 0 })
    }

    fn feed(&self, hasher: &mut FxHasher) {
        hasher.write_u8(if *self { 1 } else { 0 });
    }
}

impl HashKey for char {
    open spec fn fed(&self, state: u64) -> u64 {
        (*self as u32).fed(state)
    }

    fn feed(&self, hasher: &mut FxHasher) {
        hasher.write_u32(*self as u32);
    }
}

/// A byte slice is fed behind its length.
impl HashKey for [u8] {
    open spec fn fed(&self, state: u64) -> u64 {
        fx_write(fx_add(state, self@.len() as u64), self@)
    }

    fn feed(&self, hasher: &mut FxHasher) {
        hasher.write_usize(self.len());
        hasher.write(self);
    }
}

impl HashKey for Vec<u8> {
    open spec fn fed(&self, state: u64) -> u64 {
        fx_write(fx_add(state, self@.len() as u64), self@)
    }

    fn feed(&self, hasher: &mut FxHasher) {
        self.as_slice().feed(hasher);
    }
}

/// A string is fed as its UTF-8 bytes and a closing `0xff`, which no string
/// holds.
impl HashKey for str {
    open spec fn fed(&self, state: u64) -> u64 {
        fx_add(fx_write(state, vstd::utf8::encode_utf8(self@)), 0xff)
    }

    fn feed(&self, hasher: &mut FxHasher) {
        hasher.write(self.as_bytes());
        hasher.write_u8(0xff);
    }
}

impl HashKey for String {
    open spec fn fed(&self, state: u64) -> u64 {
        fx_add(fx_write(state, vstd::utf8::encode_utf8(self@)), 0xff)
    }

    fn feed(&self, hasher: &mut FxHasher) {
        self.as_str().feed(hasher);
    }
}

/// A reference is fed as what it refers to.
impl<K: HashKey + ?Sized> HashKey for &K {
    open spec fn fed(&self, state: u64) -> u64 {
        (**self).fed(state)
    }

    fn feed(&self, hasher: &mut FxHasher) {
        (**self).feed(hasher);
    }
}

/// A box is fed as what it holds.
impl<K: HashKey + ?Sized> HashKey for Box<K> {
    open spec fn fed(&self, state: u64) -> u64 {
        (**self).fed(state)
    }

    fn feed(&self, hasher: &mut FxHasher) {
        (**self).feed(hasher);
    }
}

/// A pair is fed as its first half and then its second.
impl<A: HashKey, B: HashKey> HashKey for (A, B) {
    open spec fn fed(&self, state: u64) -> u64 {
        self.1.fed(self.0.fed(state))
    }

    fn feed(&self, hasher: &mut FxHasher) {
        self.0.feed(hasher);
        self.1.feed(hasher);
    }
}

/// An option is fed as 0 where it is empty, else as 1 and what it holds.
impl<K: HashKey> HashKey for Option<K> {
    open spec fn fed(&self, state: u64) -> u64 {
        match self {
            Some(key) => key.fed(fx_add(state, 1)),
            None => fx_add(state, 0),
        }
    }

    fn feed(&self, hasher: &mut FxHasher) {
        match self {
            Some(key) => {
                hasher.write_usize(1);
                key.feed(hasher);
            },
            None => {
                hasher.write_usize(0);
            },
        }
    }
}

/// The hash of what `hasher` has absorbed.
pub fn finish_hash(hasher: &FxHasher) -> (hash: u64)
    ensures
        hash == splitmix(hasher@),
{
    splitmix_finalize(hasher.finish())
}

/// The value of [`hash_of`].
pub open spec fn hash_of_spec<K: HashKey + ?Sized>(item: &K) -> u64 {
    splitmix(item.fed(0))
}

/// The 64-bit hash of `item`.
pub fn hash_of<K: HashKey + ?Sized>(item: &K) -> (hash: u64)
    ensures
        hash == hash_of_spec(item),
{
    let mut hasher = FxHasher::default();
    item.feed(&mut hasher);
    finish_hash(&hasher)
}

/// Feeds `item` to `hasher` by a call of `std::hash::Hash::hash` and hands the
/// hasher back. What a type writes to a hasher is up to its own implementation
/// of `Hash`, which may write anything, and differently on each call: nothing
/// is claimed of the state that it leaves. A panic of that implementation
/// passes through.
#[verifier::external_body]
fn feed_any<T: Hash + ?Sized>(item: &T, hasher: FxHasher) -> (fed: FxHasher) {
    let mut hasher = hasher;
    item.hash(&mut hasher);
    hasher
}

/// Whether `state` is one in which the `Hash` of `item` may leave a fresh
/// hasher.
pub closed spec fn leaves<T: Hash + ?Sized>(item: &T, state: u64) -> bool {
    exists|fresh: FxHasher, fed: FxHasher|
        fresh@ == 0 && fed@ == state && #[trigger] call_ensures(
            feed_any::<T>,
            (item, fresh),
            fed,
        )
}

/// A state is one that the `Hash` of `item` leaves only where feeding `item`
/// to a fresh hasher can end in it.
proof fn law_left_states_are_fed<T: Hash + ?Sized>(item: &T, state: u64)
    requires
        leaves(item, state),
    ensures
        exists|fresh: FxHasher, fed: FxHasher|
            fresh@ == 0 && fed@ == state && #[trigger] call_ensures(
                feed_any::<T>,
                (item, fresh),
                fed,
            ),
{
}

/// The 64-bit hash of a value of any hashable type, for types that are no
/// [`HashKey`]: the finalized state in which the value's own `Hash` leaves a
/// fresh hasher. The filters take it where they take a hash.
pub fn hash_of_any<T: Hash + ?Sized>(item: &T) -> (hash: u64)
    ensures
        exists|state: u64| #[trigger] leaves(item, state) && hash == splitmix(state),
{
    let hasher = FxHasher::default();
    let feed = feed_any::<T>;
    let fed = feed(item, hasher);
    assert(leaves(item, fed@));
    finish_hash(&fed)
}

/// The number in the eight bits of `hash` above the low word, with 1 in place
/// of 0.
pub open spec fn fingerprint_spec(hash: u64) -> u8 {
    let bits = (hash / 0x1_0000_0000) % 0x100;
    if bits == 0 {
        1
    } else {
        bits as u8
    }
}

/// 8-bit fingerprint; 0 is reserved as the empty-slot sentinel.
pub fn fingerprint(hash: u64) -> (fp: u8)
    ensures
        fp == fingerprint_spec(hash),
        fp != 0,
{
    let fp: u8 = (hash >> 32) as u8;
    assert((hash >> 32) as u8 == (hash / 0x1_0000_0000) % 0x100) by (bit_vector);
    if fp == 0 {
        1
    } else {
        fp
    }
}

/// The number in the sixteen bits of `hash` above the low word, with 1 in
/// place of 0.
pub open spec fn fingerprint_u16_spec(hash: u64) -> u16 {
    let bits = (hash / 0x1_0000_0000) % 0x1_0000;
    if bits == 0 {
        1
    } else {
        bits as u16
    }
}

/// 16-bit fingerprint; 0 is reserved as the empty-slot sentinel.
pub fn fingerprint_u16(hash: u64) -> (fp: u16)
    ensures
        fp == fingerprint_u16_spec(hash),
        fp != 0,
{
    let fp: u16 = (hash >> 32) as u16;
    assert((hash >> 32) as u16 == (hash / 0x1_0000_0000) % 0x1_0000) by (bit_vector);
    if fp == 0 {
        1
    } else {
        fp
    }
}

/// The value of [`alt_index`].
pub open spec fn alt_index_spec(index: usize, fp: usize, bucket_mask: usize) -> usize {
    index ^ (fp.wrapping_mul(0x5bd1_e995) & bucket_mask)
}

/// Partial-key cuckoo hashing: the alternate bucket is derived from the
/// current bucket and the fingerprint only, so eviction never needs the key.
pub fn alt_index(index: usize, fp: usize, bucket_mask: usize) -> (alt: usize)
    ensures
        alt == alt_index_spec(index, fp, bucket_mask),
{
    index ^ (fp.wrapping_mul(0x5bd1_e995) & bucket_mask)
}

/// The successor of `x` in the stream of [`xorshift`].
pub open spec fn xorshift_spec(x: u64) -> u64 {
    let a = x ^ (x << 13);
    let b = a ^ (a >> 7);
    b ^ (b << 17)
}

/// Deterministic stream of pseudo-random numbers (used for eviction choices
/// and key generation).
pub fn xorshift(state: &mut u64) -> (x: u64)
    ensures
        x == xorshift_spec(*old(state)),
        *final(state) == x,
{
    let mut x: u64 = *state;
    x = x ^ (x << 13);
    x = x ^ (x >> 7);
    x = x ^ (x << 17);
    *state = x;
    x
}

/// The alternate of the alternate bucket is the bucket itself, whatever the
/// fingerprint and the mask.
pub proof fn law_alt_index_is_involution(index: usize, fp: usize, bucket_mask: usize)
    ensures
        alt_index_spec(alt_index_spec(index, fp, bucket_mask), fp, bucket_mask) == index,
{
    let step = fp.wrapping_mul(0x5bd1_e995) & bucket_mask;
    assert((index ^ step) ^ step == index) by (bit_vector);
}

/// The stream of [`xorshift`] never falls from a nonzero state into zero,
/// where it would stay.
pub proof fn law_xorshift_stays_nonzero(x: u64)
    ensures
        x != 0 ==> xorshift_spec(x) != 0,
{
    assert(x != 0 ==> ({
        let a = x ^ (x << 13);
        let b = a ^ (a >> 7);
        b ^ (b << 17)
    }) != 0) by (bit_vector);
}

} // verus!
