use vstd::prelude::*;

verus! {

/// Starting value of the DJB2 accumulator.
pub const DJB2_SEED: u64 = 5381;

/// One DJB2 round: `acc * 33 + byte`, modulo 2^64.
pub open spec fn djb2_step(acc: u64, byte: u8) -> u64 {
    ((acc as int * 33 + byte as int) % 0x1_0000_0000_0000_0000int) as u64
}

/// The accumulator after folding `bytes`, left to right, into `acc`.
pub open spec fn djb2_extend(acc: u64, bytes: Seq<u8>) -> u64
    decreases bytes.len(),
{
    if bytes.len() == 0 {
        acc
    } else {
        djb2_step(djb2_extend(acc, bytes.drop_last()), bytes.last())
    }
}

/// The DJB2 hash of a byte sequence.
pub open spec fn djb2(bytes: Seq<u8>) -> u64 {
    djb2_extend(DJB2_SEED, bytes)
}

/// The `w` low-order bytes of `n`, least significant first.
pub open spec fn le_bytes(n: nat, w: nat) -> Seq<u8>
    decreases w,
{
    if w == 0 {
        Seq::empty()
    } else {
        seq![(n % 256) as u8] + le_bytes(n / 256, (w - 1) as nat)
    }
}

fn step(acc: u64, byte: u8) -> (r: u64)
    ensures
        r == djb2_step(acc, byte),
{
    ((acc as u128 * 33 + byte as u128) % 0x1_0000_0000_0000_0000u128) as u64
}

proof fn lemma_extend_concat(acc: u64, a: Seq<u8>, b: Seq<u8>)
    ensures
        djb2_extend(acc, a + b) == djb2_extend(djb2_extend(acc, a), b),
    decreases b.len(),
{
    if b.len() == 0 {
        assert(a + b =~= a);
    } else {
        assert((a + b).drop_last() =~= a + b.drop_last());
        assert((a + b).last() == b.last());
        lemma_extend_concat(acc, a, b.drop_last());
    }
}

/// D. J. Bernstein's multiplicative byte-stream hash.
pub struct HasherDJB2 {
    hash: u64,
}

impl HasherDJB2 {
    /// The value accumulated so far.
    pub closed spec fn state(&self) -> u64 {
        self.hash
    }

    pub fn new() -> (r: HasherDJB2)
        ensures
            r.state() == DJB2_SEED,
    {
        HasherDJB2 { hash: DJB2_SEED }
    }

    /// Folds every byte of `bytes` into the accumulator.
    pub fn write(&mut self, bytes: &[u8])
        ensures
            final(self).state() == djb2_extend(old(self).state(), bytes@),
    {
        let ghost start = self.hash;
        let mut i: usize = 0;
        while i < bytes.len()
            invariant
                i <= bytes@.len(),
                self.hash == djb2_extend(start, bytes@.subrange(0, i as int)),
            decreases bytes@.len() - i,
        {
            let b = bytes[i];
            self.hash = step(self.hash, b);
            assert(bytes@.subrange(0, i + 1).drop_last() =~= bytes@.subrange(0, i as int));
            i = i + 1;
        }
        assert(bytes@.subrange(0, i as int) =~= bytes@);
    }

    /// Folds the `w` low-order bytes of `n`, least significant first.
    pub fn write_le(&mut self, n: u64, w: usize)
        ensures
            final(self).state() == djb2_extend(old(self).state(), le_bytes(n as nat, w as nat)),
    {
        let ghost start = self.hash;
        let mut x: u64 = n;
        let mut i: usize = 0;
        while i < w
            invariant
                i <= w,
                djb2_extend(self.hash, le_bytes(x as nat, (w - i) as nat)) == djb2_extend(
                    start,
                    le_bytes(n as nat, w as nat),
                ),
            decreases w - i,
        {
            let b = (x % 256) as u8;
            proof {
                let rest = le_bytes((x / 256) as nat, (w - i - 1) as nat);
                assert(le_bytes(x as nat, (w - i) as nat) == seq![b] + rest);
                lemma_extend_concat(self.hash, seq![b], rest);
                assert(seq![b].drop_last() =~= Seq::<u8>::empty());
                assert(djb2_extend(self.hash, Seq::<u8>::empty()) == self.hash);
                assert(seq![b].last() == b);
                assert(djb2_extend(self.hash, seq![b]) == djb2_step(self.hash, b));
            }
            self.hash = step(self.hash, b);
            x = x / 256;
            i = i + 1;
        }
    }

    pub fn finish(&self) -> (r: u64)
        ensures
            r == self.state(),
    {
        self.hash
    }
}

impl Default for HasherDJB2 {
    fn default() -> (r: HasherDJB2)
        ensures
            r.state() == DJB2_SEED,
    {
        HasherDJB2::new()
    }
}

impl std::hash::Hasher for HasherDJB2 {
    fn write(&mut self, bytes: &[u8]) {
        HasherDJB2::write(self, bytes)
    }

    fn finish(&self) -> u64 {
        self.hash
    }
}

/// A key that a [`crate::hashtable::HashTable`] can store: it is written to a
/// hasher as a byte sequence determined by its view, and two keys are the same
/// key exactly when their views are equal.
pub trait TableKey: View + Sized {
    /// The bytes that the key feeds to a hasher.
    spec fn key_bytes(k: Self::V) -> Seq<u8>;

    fn write_key(&self, h: &mut HasherDJB2)
        ensures
            final(h).state() == djb2_extend(old(h).state(), Self::key_bytes(self@)),
    ;

    fn same_key(&self, other: &Self) -> (r: bool)
        ensures
            r == (self@ == other@),
    ;
}

impl TableKey for u64 {
    open spec fn key_bytes(k: u64) -> Seq<u8> {
        le_bytes(k as nat, 8)
    }

    fn write_key(&self, h: &mut HasherDJB2) {
        h.write_le(*self, 8);
    }

    fn same_key(&self, other: &Self) -> (r: bool) {
        *self == *other
    }
}

impl TableKey for usize {
    open spec fn key_bytes(k: usize) -> Seq<u8> {
        le_bytes(k as nat, 8)
    }

    fn write_key(&self, h: &mut HasherDJB2) {
        h.write_le(*self as u64, 8);
    }

    fn same_key(&self, other: &Self) -> (r: bool) {
        *self == *other
    }
}

impl TableKey for u32 {
    open spec fn key_bytes(k: u32) -> Seq<u8> {
        le_bytes(k as nat, 4)
    }

    fn write_key(&self, h: &mut HasherDJB2) {
        h.write_le(*self as u64, 4);
    }

    fn same_key(&self, other: &Self) -> (r: bool) {
        *self == *other
    }
}

/// The two's-complement bit pattern of a 32-bit signed integer.
pub open spec fn i32_bits(k: i32) -> nat {
    if k < 0 {
        (k + 0x1_0000_0000int) as nat
    } else {
        k as nat
    }
}

impl TableKey for i32 {
    open spec fn key_bytes(k: i32) -> Seq<u8> {
        le_bytes(i32_bits(k), 4)
    }

    fn write_key(&self, h: &mut HasherDJB2) {
        let bits: u64 = if *self < 0 {
            (*self as i64 + 0x1_0000_0000i64) as u64
        } else {
            *self as u64
        };
        h.write_le(bits, 4);
    }

    fn same_key(&self, other: &Self) -> (r: bool) {
        *self == *other
    }
}

impl TableKey for String {
    open spec fn key_bytes(k: Seq<char>) -> Seq<u8> {
        vstd::utf8::encode_utf8(k)
    }

    fn write_key(&self, h: &mut HasherDJB2) {
        h.write(self.as_str().as_bytes());
    }

    fn same_key(&self, other: &Self) -> (r: bool) {
        self.eq(other)
    }
}

impl<'a> TableKey for &'a str {
    open spec fn key_bytes(k: Seq<char>) -> Seq<u8> {
        vstd::utf8::encode_utf8(k)
    }

    fn write_key(&self, h: &mut HasherDJB2) {
        h.write((*self).as_bytes());
    }

    fn same_key(&self, other: &Self) -> (r: bool) {
        let a = (*self).to_owned();
        let b = (*other).to_owned();
        a.eq(&b)
    }
}

} // verus!
