//! The bit counter: population counts of bytes and of byte sequences.

use vstd::prelude::*;
use crate::{run_of, BitCounts};

verus! {

/// The number of one digits in the binary representation of `n`.
pub open spec fn ones_of(n: nat) -> nat
    decreases n,
{
    if n == 0 {
        0
    } else {
        n % 2 + ones_of(n / 2)
    }
}

/// The number of one bits in `data`.
pub open spec fn count_ones(data: Seq<u8>) -> nat
    decreases data.len(),
{
    if data.len() == 0 {
        0
    } else {
        count_ones(data.drop_last()) + ones_of(data.last() as nat)
    }
}

/// Whether `table` maps every byte to the number of its set bits.
pub open spec fn is_ones_table(table: [u8; 256]) -> bool {
    forall|b: int| 0 <= b < 256 ==> #[trigger] table[b] as nat == ones_of(b as nat)
}

impl BitCounts {
    /// Whether these are the counts of the bits of `data`: `cnt1` of them are
    /// one, and the others, `cnt0`, are zero.
    pub open spec fn is_counts_of(self, data: Seq<u8>) -> bool {
        &&& self.cnt1 == count_ones(data)
        &&& self.cnt0 == 8 * data.len() - count_ones(data)
    }
}

/// There is one table of population counts: any two are equal.
pub proof fn lemma_ones_table_unique(a: [u8; 256], b: [u8; 256])
    requires
        is_ones_table(a),
        is_ones_table(b),
    ensures
        a == b,
{
    assert forall|i: int| 0 <= i < 256 implies a[i] == b[i] by {
        assert(a[i] as nat == ones_of(i as nat));
        assert(b[i] as nat == ones_of(i as nat));
    }
    assert(a =~= b);
}

/// A byte has at most eight set bits.
pub proof fn lemma_ones_of_byte(b: u8)
    ensures
        ones_of(b as nat) <= 8,
{
    let n = b as nat;
    reveal_with_fuel(ones_of, 9);
    assert(n / 2 / 2 / 2 / 2 / 2 / 2 / 2 / 2 == 0);
}

/// A sequence of bytes has at most eight one bits for each byte.
pub proof fn lemma_count_ones_bound(data: Seq<u8>)
    ensures
        count_ones(data) <= 8 * data.len(),
    decreases data.len(),
{
    if data.len() > 0 {
        lemma_count_ones_bound(data.drop_last());
        lemma_ones_of_byte(data.last());
    }
}

/// The one bits of two sequences in a row are those of the first and those
/// of the second.
pub proof fn lemma_count_ones_concat(a: Seq<u8>, b: Seq<u8>)
    ensures
        count_ones(a + b) == count_ones(a) + count_ones(b),
    decreases b.len(),
{
    if b.len() == 0 {
        assert(a + b =~= a);
    } else {
        lemma_count_ones_concat(a, b.drop_last());
        assert((a + b).drop_last() =~= a + b.drop_last());
        assert((a + b).last() == b.last());
    }
}

/// The one bits of `n` bytes that all equal `b` are `n` times the set bits of `b`.
pub proof fn lemma_count_same_octets(b: u8, n: nat)
    ensures
        count_ones(run_of(b, n)) == ones_of(b as nat) * n,
    decreases n,
{
    if n > 0 {
        lemma_count_same_octets(b, (n - 1) as nat);
        assert(run_of(b, n).drop_last() =~= run_of(b, (n - 1) as nat));
        assert(ones_of(b as nat) * n == ones_of(b as nat) * (n - 1) + ones_of(b as nat))
            by (nonlinear_arith);
    } else {
        assert(ones_of(b as nat) * n == 0) by (nonlinear_arith)
            requires
                n == 0,
        ;
    }
}

/// The counts of `n` bytes that all equal `b`: the one bits are `n` times the
/// table's entry for `b`, and the zero bits are the rest of the `8 * n` bits.
pub proof fn lemma_counts_of_same_octets(counts: BitCounts, table: [u8; 256], b: u8, n: nat)
    requires
        is_ones_table(table),
        counts.is_counts_of(run_of(b, n)),
    ensures
        counts.cnt1 == table[b as int] * n,
        counts.cnt0 == 8 * n - counts.cnt1,
{
    lemma_count_same_octets(b, n);
}

/// The table of population counts: entry `b` is the number of set bits of the byte `b`.
pub fn get_ones_table() -> (table: [u8; 256])
    ensures
        is_ones_table(table),
{
    let mut ones = [0u8; 256];
    let mut b: usize = 0;
    while b < 256
        invariant
            b <= 256,
            forall|k: int| 0 <= k < b ==> #[trigger] ones[k] as nat == ones_of(k as nat),
        decreases 256 - b,
    {
        let mut cnt: u8 = 0;
        let mut s: u32 = 0;
        assert(b >> 0u32 == b) by (bit_vector);
        while s < 8
            invariant
                s <= 8,
                b < 256,
                cnt <= s,
                cnt as nat + ones_of((b >> s) as nat) == ones_of(b as nat),
            decreases 8 - s,
        {
            assert((b >> (s + 1) as u32) == (b >> s) / 2) by (bit_vector)
                requires
                    s < 8,
            ;
            if (b >> s) % 2 == 1 {
                cnt += 1;
            }
            s += 1;
        }
        assert(b >> 8u32 == 0) by (bit_vector)
            requires
                b < 256,
        ;
        ones[b] = cnt;
        b += 1;
    }
    ones
}

/// A counter that is fed a stream chunk by chunk and holds the counts of the
/// bits seen so far. Its view is the sequence of all bytes fed to it.
pub struct BitCounter {
    table: [u8; 256],
    size: u64,
    cnt1: u64,
    seen: Ghost<Seq<u8>>,
}

impl View for BitCounter {
    type V = Seq<u8>;

    closed spec fn view(&self) -> Seq<u8> {
        self.seen@
    }
}

impl BitCounter {
    #[verifier::type_invariant]
    spec fn inv(self) -> bool {
        &&& is_ones_table(self.table)
        &&& self.size == 8 * self.seen@.len()
        &&& self.cnt1 == count_ones(self.seen@)
    }

    /// A counter that has seen nothing yet.
    pub fn new() -> (counter: Self)
        ensures
            counter@ == Seq::<u8>::empty(),
    {
        BitCounter { table: get_ones_table(), size: 0, cnt1: 0, seen: Ghost(Seq::empty()) }
    }

    /// How many more bytes the counter can take before the number of bits
    /// no longer fits.
    pub fn room(&self) -> (n: u64)
        ensures
            n == u64::MAX / 8 - self@.len(),
    {
        proof {
            use_type_invariant(self);
        }
        (u64::MAX - self.size) / 8
    }

    /// Counts the bits of `chunk`, which follows what was fed before.
    pub fn feed(&mut self, chunk: &[u8])
        requires
            old(self)@.len() + chunk@.len() <= u64::MAX / 8,
        ensures
            final(self)@ == old(self)@ + chunk@,
    {
        proof {
            use_type_invariant(&*self);
        }
        let mut size = self.size;
        let mut cnt1 = self.cnt1;
        let mut i: usize = 0;
        assert(chunk@.take(0) =~= Seq::<u8>::empty());
        assert(self.seen@ + chunk@.take(0) =~= self.seen@);
        while i < chunk.len()
            invariant
                i <= chunk@.len(),
                is_ones_table(self.table),
                self.seen@.len() + chunk@.len() <= u64::MAX / 8,
                size == 8 * (self.seen@.len() + i),
                cnt1 == count_ones(self.seen@ + chunk@.take(i as int)),
            decreases chunk@.len() - i,
        {
            let b = chunk[i];
            proof {
                let before = self.seen@ + chunk@.take(i as int);
                let after = self.seen@ + chunk@.take(i + 1);
                assert(after.drop_last() =~= before);
                assert(after.last() == b);
                lemma_count_ones_bound(after);
            }
            size += 8;
            cnt1 += self.table[b as usize] as u64;
            i += 1;
        }
        assert(chunk@.take(i as int) =~= chunk@);
        *self = BitCounter {
            table: self.table,
            size,
            cnt1,
            seen: Ghost(self.seen@ + chunk@),
        };
    }

    /// The counts of the bits of everything fed so far.
    pub fn counts(&self) -> (counts: BitCounts)
        ensures
            counts.is_counts_of(self@),
    {
        proof {
            use_type_invariant(self);
            lemma_count_ones_bound(self.seen@);
        }
        BitCounts { cnt0: self.size - self.cnt1, cnt1: self.cnt1 }
    }
}

/// Counts the zero bits and the one bits of `data`.
pub fn upload(data: &[u8]) -> (counts: BitCounts)
    requires
        data@.len() <= u64::MAX / 8,
    ensures
        counts.is_counts_of(data@),
{
    let mut counter = BitCounter::new();
    counter.feed(data);
    assert(Seq::<u8>::empty() + data@ =~= data@);
    counter.counts()
}

} // verus!
