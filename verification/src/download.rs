//! The stream reconstructor: from bit counts back to a stream of bytes.

use vstd::prelude::*;
use vstd::slice::slice_subrange;
use crate::upload::{count_ones, lemma_count_ones_concat, lemma_count_same_octets, ones_of};
use crate::{run_of, BitCounts};

verus! {

/// The size of a page, in bytes.
pub const PAGESZ: usize = 1024;

/// `page` written `n` times in a row.
pub open spec fn repeated(page: Seq<u8>, n: nat) -> Seq<u8>
    decreases n,
{
    if n == 0 {
        Seq::empty()
    } else {
        repeated(page, (n - 1) as nat) + page
    }
}

/// The byte in which the zero bits end and the one bits begin: its `extra0`
/// high bits are zero and its other bits are one.
pub open spec fn boundary_byte(extra0: u64) -> u8 {
    0xFFu8 >> extra0
}

/// Whether the stream of `counts` holds a boundary byte.
pub open spec fn has_boundary(counts: BitCounts) -> bool {
    counts.cnt0 % 8 + counts.cnt1 % 8 > 0
}

/// The stream that stands for `counts`: the full zero bytes, the boundary
/// byte where bits are left over, and the full one bytes. Where the counts
/// fill whole bytes, the bits left over on both sides fill the boundary byte
/// and the stream has exactly these counts; where they do not, the boundary
/// byte still stands for eight bits.
pub open spec fn stream_of(counts: BitCounts) -> Seq<u8> {
    run_of(0x00, counts.cnt0 as nat / 8) + (if has_boundary(counts) {
        seq![boundary_byte(counts.cnt0 % 8)]
    } else {
        Seq::empty()
    }) + run_of(0xFF, counts.cnt1 as nat / 8)
}

/// Repeating a run of one byte gives a longer run of that byte.
pub proof fn lemma_repeated_run(b: u8, k: nat, n: nat)
    ensures
        repeated(run_of(b, k), n) =~= run_of(b, k * n),
    decreases n,
{
    if n > 0 {
        lemma_repeated_run(b, k, (n - 1) as nat);
        assert(k * n == k * (n - 1) + k) by (nonlinear_arith);
    } else {
        assert(k * n == 0) by (nonlinear_arith)
            requires
                n == 0,
        ;
    }
}

/// Bit `i` of `stream`, where each byte is read from its highest bit down.
pub open spec fn bit_at(stream: Seq<u8>, i: int) -> bool {
    (stream[i / 8] >> ((7 - i % 8) as u8)) & 1 == 1
}

/// Counts that fill whole bytes give a stream of that many bytes.
pub proof fn lemma_stream_len(counts: BitCounts)
    requires
        counts.is_aligned(),
    ensures
        stream_of(counts).len() == (counts.cnt0 + counts.cnt1) / 8,
{
}

/// Read as bits, the stream of counts that fill whole bytes is `cnt0` zero
/// bits followed by `cnt1` one bits.
pub proof fn lemma_stream_bits(counts: BitCounts)
    requires
        counts.is_aligned(),
    ensures
        forall|i: int| 0 <= i < counts.cnt0 ==> !#[trigger] bit_at(stream_of(counts), i),
        forall|i: int|
            counts.cnt0 <= i < counts.cnt0 + counts.cnt1 ==> #[trigger] bit_at(
                stream_of(counts),
                i,
            ),
{
    let s = stream_of(counts);
    let bytes0 = counts.cnt0 as int / 8;
    let extra0 = counts.cnt0 % 8;
    assert forall|i: int| 0 <= i < counts.cnt0 + counts.cnt1 implies (bit_at(s, i) <==> i
        >= counts.cnt0) by {
        let k = i / 8;
        let j = (7 - i % 8) as u8;
        if k < bytes0 {
            assert(s[k] == 0x00);
            assert((0x00u8 >> j) & 1 == 0) by (bit_vector);
        } else if k == bytes0 && has_boundary(counts) {
            assert(s[k] == boundary_byte(extra0));
            assert(((0xFFu8 >> extra0) >> j) & 1 == 1 <==> 7 - j >= extra0) by (bit_vector)
                requires
                    j < 8,
                    extra0 < 8,
            ;
        } else {
            assert(s[k] == 0xFF);
            assert((0xFFu8 >> j) & 1 == 1) by (bit_vector)
                requires
                    j < 8,
            ;
        }
    }
}

/// The boundary byte after `extra0` zero bits has `8 - extra0` set bits.
proof fn lemma_boundary_ones(extra0: u64)
    requires
        extra0 < 8,
    ensures
        ones_of(boundary_byte(extra0) as nat) == 8 - extra0,
{
    let b = 0xFFu8 >> extra0;
    assert(extra0 == 0 ==> b == 255) by (bit_vector)
        requires
            b == 0xFFu8 >> extra0,
    ;
    assert(extra0 == 1 ==> b == 127) by (bit_vector)
        requires
            b == 0xFFu8 >> extra0,
    ;
    assert(extra0 == 2 ==> b == 63) by (bit_vector)
        requires
            b == 0xFFu8 >> extra0,
    ;
    assert(extra0 == 3 ==> b == 31) by (bit_vector)
        requires
            b == 0xFFu8 >> extra0,
    ;
    assert(extra0 == 4 ==> b == 15) by (bit_vector)
        requires
            b == 0xFFu8 >> extra0,
    ;
    assert(extra0 == 5 ==> b == 7) by (bit_vector)
        requires
            b == 0xFFu8 >> extra0,
    ;
    assert(extra0 == 6 ==> b == 3) by (bit_vector)
        requires
            b == 0xFFu8 >> extra0,
    ;
    assert(extra0 == 7 ==> b == 1) by (bit_vector)
        requires
            b == 0xFFu8 >> extra0,
    ;
    reveal_with_fuel(ones_of, 9);
}

/// Counting the bits of the stream of counts that fill whole bytes gives
/// those counts back.
pub proof fn lemma_count_of_stream(counts: BitCounts)
    requires
        counts.is_aligned(),
    ensures
        counts.is_counts_of(stream_of(counts)),
{
    let zeros = run_of(0x00, counts.cnt0 as nat / 8);
    let ones = run_of(0xFF, counts.cnt1 as nat / 8);
    let middle = if has_boundary(counts) {
        seq![boundary_byte(counts.cnt0 % 8)]
    } else {
        Seq::empty()
    };
    lemma_count_same_octets(0x00, counts.cnt0 as nat / 8);
    lemma_count_same_octets(0xFF, counts.cnt1 as nat / 8);
    lemma_count_ones_concat(zeros, middle);
    lemma_count_ones_concat(zeros + middle, ones);
    reveal_with_fuel(ones_of, 9);
    assert(ones_of(0) == 0);
    assert(ones_of(255) == 8);
    if has_boundary(counts) {
        lemma_boundary_ones(counts.cnt0 % 8);
        assert(middle.drop_last() =~= Seq::<u8>::empty());
        assert(count_ones(Seq::<u8>::empty()) == 0);
        assert(count_ones(middle) == ones_of(middle.last() as nat));
    }
}

/// Appends `page` to `w`, `n` times.
pub fn write_pages(w: &mut Vec<u8>, page: &[u8], n: usize)
    requires
        old(w)@.len() + page@.len() * n <= usize::MAX,
    ensures
        final(w)@ == old(w)@ + repeated(page@, n as nat),
{
    let mut i: usize = 0;
    assert(w@ =~= old(w)@ + repeated(page@, 0));
    while i < n
        invariant
            i <= n,
            w@ == old(w)@ + repeated(page@, i as nat),
        decreases n - i,
    {
        w.extend_from_slice(page);
        i += 1;
        assert(w@ =~= old(w)@ + repeated(page@, i as nat));
    }
}

/// Appends to `w` the stream that stands for `counts`, which must fit in
/// `w`.
pub fn download(w: &mut Vec<u8>, counts: &BitCounts)
    requires
        old(w)@.len() + stream_of(*counts).len() <= usize::MAX,
    ensures
        final(w)@ == old(w)@ + stream_of(*counts),
{
    let buf0 = [0x00u8; PAGESZ];
    let buf1 = [0xFFu8; PAGESZ];
    let bytes0 = (counts.cnt0 / 8) as usize;
    let bytes1 = (counts.cnt1 / 8) as usize;
    let middle0 = counts.cnt0 % 8;
    let middle1 = counts.cnt1 % 8;
    let pages0 = bytes0 / PAGESZ;
    let pages1 = bytes1 / PAGESZ;
    let rest0 = bytes0 - pages0 * PAGESZ;
    let rest1 = bytes1 - pages1 * PAGESZ;
    let part0 = slice_subrange(buf0.as_slice(), 0, rest0);
    let part1 = slice_subrange(buf1.as_slice(), 0, rest1);
    proof {
        assert(buf0@ =~= run_of(0x00, PAGESZ as nat));
        assert(buf1@ =~= run_of(0xFF, PAGESZ as nat));
        assert(part0@ =~= run_of(0x00, rest0 as nat));
        assert(part1@ =~= run_of(0xFF, rest1 as nat));
        lemma_repeated_run(0x00, PAGESZ as nat, pages0 as nat);
        lemma_repeated_run(0xFF, PAGESZ as nat, pages1 as nat);
        lemma_repeated_run(0x00, rest0 as nat, 1);
        lemma_repeated_run(0xFF, rest1 as nat, 1);
        assert(run_of(0x00, (PAGESZ * pages0) as nat) + run_of(0x00, rest0 as nat) =~= run_of(
            0x00,
            bytes0 as nat,
        ));
        assert(run_of(0xFF, rest1 as nat) + run_of(0xFF, (PAGESZ * pages1) as nat) =~= run_of(
            0xFF,
            bytes1 as nat,
        ));
    }

    write_pages(w, buf0.as_slice(), pages0);
    write_pages(w, part0, 1);
    assert(w@ =~= old(w)@ + run_of(0x00, bytes0 as nat));
    if middle0 + middle1 > 0 {
        let b = [0xFFu8 >> middle0];
        write_pages(w, b.as_slice(), 1);
        proof {
            assert(repeated(b@, 1) =~= repeated(b@, 0) + b@);
            assert(b@ =~= seq![boundary_byte(middle0)]);
        }
    }
    let ghost head = w@;
    write_pages(w, part1, 1);
    write_pages(w, buf1.as_slice(), pages1);
    assert(w@ =~= head + run_of(0xFF, bytes1 as nat));
}

/// The number of bytes of the stream that stands for `counts`.
pub fn stream_len(counts: &BitCounts) -> (len: u64)
    ensures
        len == stream_of(*counts).len(),
{
    let bytes0 = counts.cnt0 / 8;
    let bytes1 = counts.cnt1 / 8;
    if counts.cnt0 % 8 + counts.cnt1 % 8 > 0 {
        bytes0 + 1 + bytes1
    } else {
        bytes0 + bytes1
    }
}

/// The length of the next page of a run of `run` bytes: a whole page, or
/// the whole run where it is shorter than a page.
pub open spec fn page_len(run: nat) -> nat {
    if run < PAGESZ {
        run
    } else {
        PAGESZ as nat
    }
}

/// Hands out the stream that stands for some counts page by page, so that
/// the whole stream is never held at once. Its view is the part of the
/// stream that has not been handed out yet: zero bytes, then the boundary
/// byte if there is one, then one bytes.
pub struct Reconstructor {
    zeros: u64,
    middle: bool,
    ones: u64,
    page0: [u8; PAGESZ],
    page1: [u8; PAGESZ],
    page_middle: [u8; 1],
}

impl View for Reconstructor {
    type V = Seq<u8>;

    open spec fn view(&self) -> Seq<u8> {
        run_of(0x00, self.zeros_left()) + (match self.boundary() {
            Some(b) => seq![b],
            None => Seq::empty(),
        }) + run_of(0xFF, self.ones_left())
    }
}

impl Reconstructor {
    #[verifier::type_invariant]
    spec fn inv(self) -> bool {
        &&& self.page0@ == run_of(0x00, PAGESZ as nat)
        &&& self.page1@ == run_of(0xFF, PAGESZ as nat)
    }

    /// The number of zero bytes that have not been handed out yet.
    pub closed spec fn zeros_left(&self) -> nat {
        self.zeros as nat
    }

    /// The boundary byte, until it has been handed out.
    pub closed spec fn boundary(&self) -> Option<u8> {
        if self.middle {
            Some(self.page_middle[0])
        } else {
            None
        }
    }

    /// The number of one bytes that have not been handed out yet.
    pub closed spec fn ones_left(&self) -> nat {
        self.ones as nat
    }

    /// A reconstructor that has the whole stream of `counts` before it.
    pub fn new(counts: &BitCounts) -> (r: Self)
        ensures
            r.zeros_left() == counts.cnt0 as nat / 8,
            r.boundary() == if has_boundary(*counts) {
                Some(boundary_byte(counts.cnt0 % 8))
            } else {
                None
            },
            r.ones_left() == counts.cnt1 as nat / 8,
            r@ == stream_of(*counts),
    {
        let page0 = [0x00u8; PAGESZ];
        let page1 = [0xFFu8; PAGESZ];
        assert(page0@ =~= run_of(0x00, PAGESZ as nat));
        assert(page1@ =~= run_of(0xFF, PAGESZ as nat));
        let extra0 = counts.cnt0 % 8;
        Reconstructor {
            zeros: counts.cnt0 / 8,
            middle: extra0 + counts.cnt1 % 8 > 0,
            ones: counts.cnt1 / 8,
            page0,
            page1,
            page_middle: [0xFFu8 >> extra0],
        }
    }

    /// The next page of the stream, or `None` when the stream has ended.
    /// While zero bytes are left the page is made of them, then comes the
    /// boundary byte as a page of its own, then pages of one bytes. A page
    /// of zero bytes or of one bytes is `PAGESZ` long unless fewer are left.
    pub fn next_page(&mut self) -> (page: Option<&[u8]>)
        ensures
            match page {
                Some(p) => {
                    &&& old(self)@ == p@ + final(self)@
                    &&& 0 < p@.len() <= PAGESZ
                    &&& if old(self).zeros_left() > 0 {
                        &&& p@ == run_of(0x00, page_len(old(self).zeros_left()))
                        &&& final(self).zeros_left() == old(self).zeros_left() - p@.len()
                        &&& final(self).boundary() == old(self).boundary()
                        &&& final(self).ones_left() == old(self).ones_left()
                    } else if old(self).boundary() is Some {
                        &&& p@ == seq![old(self).boundary().unwrap()]
                        &&& final(self).zeros_left() == 0
                        &&& final(self).boundary() is None
                        &&& final(self).ones_left() == old(self).ones_left()
                    } else {
                        &&& p@ == run_of(0xFF, page_len(old(self).ones_left()))
                        &&& final(self).zeros_left() == 0
                        &&& final(self).boundary() is None
                        &&& final(self).ones_left() == old(self).ones_left() - p@.len()
                    }
                },
                None => old(self)@.len() == 0 && *final(self) == *old(self),
            },
    {
        proof {
            use_type_invariant(&*self);
        }
        if self.zeros > 0 {
            let n = if self.zeros < PAGESZ as u64 {
                self.zeros as usize
            } else {
                PAGESZ
            };
            self.zeros = self.zeros - n as u64;
            let p = slice_subrange(self.page0.as_slice(), 0, n);
            assert(p@ =~= run_of(0x00, n as nat));
            assert(old(self)@ =~= p@ + self@);
            Some(p)
        } else if self.middle {
            self.middle = false;
            let p = self.page_middle.as_slice();
            assert(p@ =~= seq![old(self).boundary().unwrap()]);
            assert(old(self)@ =~= p@ + self@);
            Some(p)
        } else if self.ones > 0 {
            let n = if self.ones < PAGESZ as u64 {
                self.ones as usize
            } else {
                PAGESZ
            };
            self.ones = self.ones - n as u64;
            let p = slice_subrange(self.page1.as_slice(), 0, n);
            assert(p@ =~= run_of(0xFF, n as nat));
            assert(old(self)@ =~= p@ + self@);
            Some(p)
        } else {
            assert(self@ =~= Seq::<u8>::empty());
            None
        }
    }
}

} // verus!
