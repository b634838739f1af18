use bit_vec::BitVec;
use core::hash::Hash;
use core::hash::Hasher;
use core::marker::PhantomData;
use siphasher::sip::SipHasher13;
use vstd::prelude::*;

verus! {

/// `bit_vec::BitVec`, a vector of bits kept in blocks of the type `B`.
#[verifier::external_type_specification]
#[verifier::external_body]
#[verifier::reject_recursive_types(B)]
pub struct ExBitVec<B>(BitVec<B>);

/// `siphasher::sip::SipHasher13`, a hasher of SipHash 1-3.
#[verifier::external_type_specification]
#[verifier::external_body]
pub struct ExSipHasher13(SipHasher13);

/// The bits that a bit vector holds, the first first.
pub uninterp spec fn bits_of(b: BitVec<u32>) -> Seq<bool>;

/// Bit `t` of the byte `x`, the most significant being bit 0.
pub open spec fn byte_bit(x: u8, t: int) -> bool {
    (x >> ((7 - t) as u8)) & 1 == 1
}

/// Calls `BitVec::from_elem`, which gives a bit vector of `len` bits that
/// are all `bit`.
#[verifier::external_body]
fn bits_from_elem(len: usize, bit: bool) -> (r: BitVec<u32>)
    ensures
        bits_of(r) == Seq::new(len as nat, |i: int| bit),
{
    BitVec::from_elem(len, bit)
}

/// Calls `BitVec::from_bytes`, which makes eight bits of each byte, the most
/// significant first. It panics where the number of bits does not fit the
/// machine's word.
#[verifier::external_body]
fn bits_from_bytes(bytes: &[u8]) -> (r: BitVec<u32>)
    requires
        bytes@.len() * 8 <= usize::MAX,
    ensures
        bits_of(r).len() == bytes@.len() * 8,
        forall|i: int| 0 <= i < bits_of(r).len() ==> bits_of(r)[i] == byte_bit(bytes@[i / 8], i % 8),
{
    BitVec::from_bytes(bytes)
}

/// Calls `BitVec::to_bytes`, which makes a byte of every eight bits, the
/// first bit the most significant, and fills the last byte up with zeros.
#[verifier::external_body]
fn bits_to_bytes(b: &BitVec<u32>) -> (r: Vec<u8>)
    ensures
        r@.len() == (bits_of(*b).len() + 7) / 8,
        forall|j: int, t: int|
            0 <= j < r@.len() && 0 <= t < 8 ==> #[trigger] byte_bit(r@[j], t) == (8 * j + t
                < bits_of(*b).len() && bits_of(*b)[8 * j + t]),
{
    b.to_bytes()
}

/// Calls `BitVec::get`, which gives bit `i`, or nothing where there are not
/// so many bits.
#[verifier::external_body]
fn bit_at(b: &BitVec<u32>, i: usize) -> (r: Option<bool>)
    ensures
        r == if i < bits_of(*b).len() {
            Some(bits_of(*b)[i as int])
        } else {
            None
        },
{
    b.get(i)
}

/// Calls `BitVec::set`, which makes bit `i` be `x`. It panics where there
/// are not so many bits.
#[verifier::external_body]
fn set_bit(b: &mut BitVec<u32>, i: usize, x: bool)
    requires
        i < bits_of(*old(b)).len(),
    ensures
        bits_of(*final(b)) == bits_of(*old(b)).update(i as int, x),
{
    b.set(i, x)
}

/// Calls `BitVec::fill`, which makes every bit be `bit`.
#[verifier::external_body]
fn fill_bits(b: &mut BitVec<u32>, bit: bool)
    ensures
        bits_of(*final(b)) == Seq::new(bits_of(*old(b)).len(), |i: int| bit),
{
    b.fill(bit)
}

/// Calls `SipHasher13::new_with_keys`, which gives a hasher of SipHash 1-3
/// for the key `(k0, k1)`.
#[verifier::external_body]
fn new_hasher(k0: u64, k1: u64) -> SipHasher13 {
    SipHasher13::new_with_keys(k0, k1)
}

/// Calls `Hash::hash` of `item` on the hasher. What the hasher takes in
/// depends on how `T` hashes itself, so nothing is said of it.
#[verifier::external_body]
fn feed<T: Hash>(sip: &mut SipHasher13, item: &T) {
    item.hash(sip)
}

/// Calls `finish` of the hasher, which gives the hash of what it has taken
/// in.
#[verifier::external_body]
fn finish(sip: &SipHasher13) -> u64 {
    sip.finish()
}

/// Calls `rand::random`, which gives a random number.
#[verifier::external_body]
fn random_key() -> u64 {
    rand::random::<u64>()
}

/// Place `i` of the places in a bitmap of `bits` bits that belong to an item
/// with the two hashes `h0` and `h1`: the first two are the hashes
/// themselves, the others are made up of both.
pub open spec fn place(h0: u64, h1: u64, i: u32, bits: u64) -> int
    recommends
        bits > 0,
{
    if i == 0 {
        (h0 % bits) as int
    } else if i == 1 {
        (h1 % bits) as int
    } else {
        (vstd::wrapping::u64_specs::wrapping_add(
            h0,
            (vstd::wrapping::u64_specs::wrapping_mul(i as u64, h1) % 0xffffffffffffffc5) as u64,
        ) % bits) as int
    }
}

/// `j` is one of the `k` places of an item with the hashes `h0` and `h1`.
pub open spec fn is_place(h0: u64, h1: u64, k: u32, bits: u64, j: int) -> bool {
    exists|i: u32| i < k && #[trigger] place(h0, h1, i, bits) == j
}

/// The bits after an item with the hashes `h0` and `h1` was set: those that
/// were set and those at the places of the item.
pub open spec fn with_item(s: Seq<bool>, h0: u64, h1: u64, k: u32, bits: u64) -> Seq<bool> {
    Seq::new(s.len(), |j: int| s[j] || is_place(h0, h1, k, bits, j))
}

/// All the bits at the places of an item with the hashes `h0` and `h1` are
/// set.
pub open spec fn holds_item(s: Seq<bool>, h0: u64, h1: u64, k: u32, bits: u64) -> bool {
    forall|i: u32| i < k ==> s[#[trigger] place(h0, h1, i, bits)]
}

/// An item that was set is held.
pub proof fn lemma_set_then_held(s: Seq<bool>, h0: u64, h1: u64, k: u32, bits: u64)
    requires
        0 < bits <= s.len(),
    ensures
        holds_item(with_item(s, h0, h1, k, bits), h0, h1, k, bits),
{
    assert forall|i: u32| i < k implies with_item(s, h0, h1, k, bits)[#[trigger] place(
        h0,
        h1,
        i,
        bits,
    )] by {
        lemma_place(h0, h1, i, bits);
        assert(is_place(h0, h1, k, bits, place(h0, h1, i, bits)));
    }
}

/// An item that is held stays held when another is set: there are no false
/// negatives.
pub proof fn lemma_held_stays(
    s: Seq<bool>,
    h0: u64,
    h1: u64,
    g0: u64,
    g1: u64,
    k: u32,
    bits: u64,
)
    requires
        0 < bits <= s.len(),
        holds_item(s, h0, h1, k, bits),
    ensures
        holds_item(with_item(s, g0, g1, k, bits), h0, h1, k, bits),
{
    assert forall|i: u32| i < k implies with_item(s, g0, g1, k, bits)[#[trigger] place(
        h0,
        h1,
        i,
        bits,
    )] by {
        lemma_place(h0, h1, i, bits);
    }
}

/// A place is a place of the bitmap.
pub proof fn lemma_place(h0: u64, h1: u64, i: u32, bits: u64)
    requires
        bits > 0,
    ensures
        0 <= place(h0, h1, i, bits) < bits,
{
}

/// A Bloom filter: a bitmap in which every item that was set has its `k`
/// places, found by hashing it, set. An item of which a place is not set was
/// never set; one of which all are set was set, or other items have set its
/// places.
pub struct BloomFilter<T> {
    bitmap: BitVec<u32>,
    bits: u64,
    k: u32,
    sip_keys: [(u64, u64); 2],
    _phantom: PhantomData<T>,
}

impl<T> View for BloomFilter<T> {
    type V = Seq<bool>;

    /// The bits of the bitmap.
    closed spec fn view(&self) -> Seq<bool> {
        bits_of(self.bitmap)
    }
}

impl<T> BloomFilter<T> {
    /// The number of bits among which the places of the items lie.
    pub closed spec fn spec_bits(self) -> u64 {
        self.bits
    }

    /// The number of places of an item.
    pub closed spec fn spec_hashes(self) -> u32 {
        self.k
    }

    pub closed spec fn spec_keys(self) -> [(u64, u64); 2] {
        self.sip_keys
    }

    /// The places of the items lie in the bitmap, which has a bit at least
    /// and no more bits than the machine's word can count.
    pub open spec fn wf(self) -> bool {
        0 < self.spec_bits() <= self@.len() <= usize::MAX
    }

    /// An empty filter with a bitmap of `bitmap_cap` bytes, `k` places for
    /// an item, and keys for the two hashes that are drawn at random.
    pub fn with_hashes(bitmap_cap: usize, k: u32) -> (r: Self)
        requires
            bitmap_cap > 0,
            bitmap_cap * 8 <= usize::MAX,
        ensures
            r.wf(),
            r.spec_bits() == bitmap_cap * 8,
            r.spec_hashes() == k,
            r@ == Seq::new((bitmap_cap * 8) as nat, |i: int| false),
    {
        let bits = (bitmap_cap as u64) * 8u64;
        let bitmap = bits_from_elem(bits as usize, false);
        let sip_keys = [(random_key(), random_key()), (random_key(), random_key())];
        BloomFilter { bitmap, bits, k, sip_keys, _phantom: PhantomData }
    }

    /// A filter in the state that another was in: `bitmap`, `bits`, `k` and
    /// `sip_keys` are what `bitmap`, `number_of_bits`, `number_of_hashes` and
    /// `sip_keys` gave of that one.
    pub fn from_existing(bitmap: &[u8], bits: u64, k: u32, sip_keys: [(u64, u64); 2]) -> (r: Self)
        requires
            0 < bits <= bitmap@.len() * 8,
            bitmap@.len() * 8 <= usize::MAX,
        ensures
            r.wf(),
            r.spec_bits() == bits,
            r.spec_hashes() == k,
            r.spec_keys() == sip_keys,
            r@.len() == bitmap@.len() * 8,
            forall|i: int| 0 <= i < r@.len() ==> r@[i] == byte_bit(bitmap@[i / 8], i % 8),
    {
        BloomFilter { bitmap: bits_from_bytes(bitmap), bits, k, sip_keys, _phantom: PhantomData }
    }

    /// The bitmap as bytes, the first bit of each the most significant.
    pub fn bitmap(&self) -> (r: Vec<u8>)
        ensures
            r@.len() == (self@.len() + 7) / 8,
            forall|j: int, t: int|
                0 <= j < r@.len() && 0 <= t < 8 ==> #[trigger] byte_bit(r@[j], t) == (8 * j + t
                    < self@.len() && self@[8 * j + t]),
    {
        bits_to_bytes(&self.bitmap)
    }

    pub fn number_of_bits(&self) -> (r: u64)
        ensures
            r == self.spec_bits(),
    {
        self.bits
    }

    /// The number of places of an item, each found by a hash.
    pub fn number_of_hashes(&self) -> (r: u32)
        ensures
            r == self.spec_hashes(),
    {
        self.k
    }

    /// The keys of the two hashes.
    pub fn sip_keys(&self) -> (r: [(u64, u64); 2])
        ensures
            r == self.spec_keys(),
    {
        self.sip_keys
    }

    /// Clears all the bits: no item is held any more.
    pub fn clear(&mut self)
        ensures
            final(self)@ == Seq::new(old(self)@.len(), |i: int| false),
            final(self).spec_bits() == old(self).spec_bits(),
            final(self).spec_hashes() == old(self).spec_hashes(),
            final(self).spec_keys() == old(self).spec_keys(),
    {
        fill_bits(&mut self.bitmap, false)
    }

    /// Place `i` of an item with the hashes `h0` and `h1`.
    fn offset(&self, h0: u64, h1: u64, i: u32) -> (r: usize)
        requires
            self.wf(),
        ensures
            r == place(h0, h1, i, self.bits),
            r < self@.len(),
    {
        let hash = if i == 0 {
            h0
        } else if i == 1 {
            h1
        } else {
            h0.wrapping_add((i as u64).wrapping_mul(h1) % 0xffffffffffffffc5)
        };
        (hash % self.bits) as usize
    }

    /// Sets an item with the hashes `h0` and `h1`.
    pub fn set_hashed(&mut self, h0: u64, h1: u64)
        requires
            old(self).wf(),
        ensures
            final(self).wf(),
            final(self)@ == with_item(
                old(self)@,
                h0,
                h1,
                old(self).spec_hashes(),
                old(self).spec_bits(),
            ),
            final(self).spec_bits() == old(self).spec_bits(),
            final(self).spec_hashes() == old(self).spec_hashes(),
            final(self).spec_keys() == old(self).spec_keys(),
    {
        let mut i: u32 = 0;
        while i < self.k
            invariant
                self.wf(),
                i <= self.k,
                self.bits == old(self).bits,
                self.k == old(self).k,
                self.sip_keys == old(self).sip_keys,
                self@ == with_item(old(self)@, h0, h1, i, self.bits),
            decreases self.k - i,
        {
            let offset = self.offset(h0, h1, i);
            let ghost before = self@;
            set_bit(&mut self.bitmap, offset, true);
            proof {
                assert forall|j: int| 0 <= j < self@.len() implies self@[j] == (old(self)@[j]
                    || is_place(h0, h1, (i + 1) as u32, self.bits, j)) by {
                    if is_place(h0, h1, i, self.bits, j) {
                        let w = choose|w: u32| w < i && #[trigger] place(h0, h1, w, self.bits) == j;
                        assert(w < i + 1);
                    }
                    if j == offset {
                        assert(place(h0, h1, i, self.bits) == j);
                    }
                    if is_place(h0, h1, (i + 1) as u32, self.bits, j) {
                        let w = choose|w: u32|
                            w < i + 1 && #[trigger] place(h0, h1, w, self.bits) == j;
                        if w < i {
                            assert(is_place(h0, h1, i, self.bits, j));
                        }
                    }
                }
                assert(self@ =~= with_item(old(self)@, h0, h1, (i + 1) as u32, self.bits));
            }
            i += 1;
        }
    }

    /// Whether an item with the hashes `h0` and `h1` is held.
    pub fn check_hashed(&self, h0: u64, h1: u64) -> (r: bool)
        requires
            self.wf(),
        ensures
            r == holds_item(self@, h0, h1, self.spec_hashes(), self.spec_bits()),
    {
        let mut i: u32 = 0;
        while i < self.k
            invariant
                self.wf(),
                i <= self.k,
                holds_item(self@, h0, h1, i, self.bits),
            decreases self.k - i,
        {
            let offset = self.offset(h0, h1, i);
            if !bit_at(&self.bitmap, offset).unwrap() {
                return false;
            }
            i += 1;
        }
        true
    }

    /// Sets an item with the hashes `h0` and `h1`, and says whether it was
    /// held before.
    pub fn check_and_set_hashed(&mut self, h0: u64, h1: u64) -> (r: bool)
        requires
            old(self).wf(),
        ensures
            final(self).wf(),
            r == holds_item(old(self)@, h0, h1, old(self).spec_hashes(), old(self).spec_bits()),
            final(self)@ == with_item(
                old(self)@,
                h0,
                h1,
                old(self).spec_hashes(),
                old(self).spec_bits(),
            ),
            final(self).spec_bits() == old(self).spec_bits(),
            final(self).spec_hashes() == old(self).spec_hashes(),
            final(self).spec_keys() == old(self).spec_keys(),
    {
        let found = self.check_hashed(h0, h1);
        self.set_hashed(h0, h1);
        found
    }
}

impl<T: Hash> BloomFilter<T> {
    /// The hash of `item` under key `which` of the two.
    fn bloom_hash(&self, item: &T, which: usize) -> u64
        requires
            which < 2,
    {
        let mut sip = new_hasher(self.sip_keys[which].0, self.sip_keys[which].1);
        feed(&mut sip, item);
        finish(&sip)
    }

    /// The two hashes of `item`, of which the second is 0 where an item has
    /// one place only, and both where it has none: a hash that gives no place
    /// is not computed. What the hashes are otherwise depends on how `T`
    /// hashes itself.
    fn hashes(&self, item: &T) -> (r: (u64, u64))
        ensures
            self.k == 0 ==> r.0 == 0,
            self.k <= 1 ==> r.1 == 0,
    {
        let h0 = if self.k > 0 {
            self.bloom_hash(item, 0)
        } else {
            0
        };
        let h1 = if self.k > 1 {
            self.bloom_hash(item, 1)
        } else {
            0
        };
        (h0, h1)
    }

    /// Sets `item`: hashes it and sets the places that the hashes give.
    pub fn set(&mut self, item: &T)
        requires
            old(self).wf(),
        ensures
            final(self).wf(),
            exists|h0: u64, h1: u64| #[trigger]
                with_item(old(self)@, h0, h1, old(self).spec_hashes(), old(self).spec_bits())
                    == final(self)@,
            final(self).spec_bits() == old(self).spec_bits(),
            final(self).spec_hashes() == old(self).spec_hashes(),
            final(self).spec_keys() == old(self).spec_keys(),
    {
        let (h0, h1) = self.hashes(item);
        self.set_hashed(h0, h1)
    }

    /// Whether `item` is held: hashes it and looks whether the places that
    /// the hashes give are all set. An item that was never set may be held as
    /// well, where other items have set its places.
    pub fn check(&self, item: &T) -> (r: bool)
        requires
            self.wf(),
        ensures
            exists|h0: u64, h1: u64|
                r == #[trigger] holds_item(self@, h0, h1, self.spec_hashes(), self.spec_bits()),
    {
        let (h0, h1) = self.hashes(item);
        self.check_hashed(h0, h1)
    }

    /// Sets `item`, and says whether it was held before.
    pub fn check_and_set(&mut self, item: &T) -> (r: bool)
        requires
            old(self).wf(),
        ensures
            final(self).wf(),
            exists|h0: u64, h1: u64|
                {
                    &&& r == holds_item(
                        old(self)@,
                        h0,
                        h1,
                        old(self).spec_hashes(),
                        old(self).spec_bits(),
                    )
                    &&& #[trigger] with_item(
                        old(self)@,
                        h0,
                        h1,
                        old(self).spec_hashes(),
                        old(self).spec_bits(),
                    ) == final(self)@
                },
            final(self).spec_bits() == old(self).spec_bits(),
            final(self).spec_hashes() == old(self).spec_hashes(),
            final(self).spec_keys() == old(self).spec_keys(),
    {
        let (h0, h1) = self.hashes(item);
        self.check_and_set_hashed(h0, h1)
    }
}

} // verus!
