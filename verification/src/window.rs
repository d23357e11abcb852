//! The sliding output window: a bounded circular buffer holding the most
//! recent decompressed bytes, serving back-reference copies.

use vstd::prelude::*;
use vstd::arithmetic::power2::pow2;
use vstd::bits::lemma_usize_shl_is_mul;
use vstd::arithmetic::div_mod::{lemma_fundamental_div_mod, lemma_fundamental_div_mod_converse_mod,
    lemma_small_mod, lemma_mod_multiples_basic};

verus! {

/// Largest supported window: twenty-four bits.
pub const MAX_WINDOW_BITS: u32 = 24;

/// A generous cap on the total bytes a window will ever account, far below
/// any overflow.
pub const MAX_TOTAL_BYTES: u64 = 0x0FFF_FFFF_FFFF_FFFF;

/// The last `size` bytes of a byte history, or all of it when shorter.
pub open spec fn window_suffix(s: Seq<u8>, size: int) -> Seq<u8> {
    if s.len() <= size {
        s
    } else {
        s.skip(s.len() - size)
    }
}

/// The bytes emitted by a back-reference copy of `n` bytes at distance `d`:
/// each byte is read `d` positions back in the history as extended by the
/// bytes already copied, so a distance shorter than the length repeats.
pub open spec fn copied_bytes(hist: Seq<u8>, d: int, n: nat) -> Seq<u8>
    decreases n,
{
    if n == 0 {
        Seq::empty()
    } else {
        let prev = copied_bytes(hist, d, (n - 1) as nat);
        prev.push((hist + prev)[hist.len() - d + (n - 1)])
    }
}

/// A copy that stays within already-produced history reads exactly the
/// byte range starting `d` bytes back.
pub proof fn lemma_copy_within_history(hist: Seq<u8>, d: int, n: nat)
    requires
        1 <= d <= hist.len(),
        n <= d,
    ensures
        copied_bytes(hist, d, n) == hist.subrange(hist.len() - d, hist.len() - d + n),
    decreases n,
{
    if n == 0 {
        assert(copied_bytes(hist, d, n) =~= hist.subrange(hist.len() - d, hist.len() - d));
    } else {
        lemma_copy_within_history(hist, d, (n - 1) as nat);
        let prev = copied_bytes(hist, d, (n - 1) as nat);
        assert((hist + prev)[hist.len() - d + (n - 1)] == hist[hist.len() - d + (n - 1)]);
        assert(copied_bytes(hist, d, n) =~= hist.subrange(hist.len() - d, hist.len() - d + n));
    }
}

/// A bounded circular buffer of the last `size` decompressed bytes, where
/// `size` is the negotiated window size.
pub struct OutputWindow {
    buf: Vec<u8>,

    /// Total bytes produced over the window's lifetime.
    total: u64,
}

impl View for OutputWindow {
    type V = Seq<u8>;

    /// The retained history: the most recent bytes, oldest first.
    closed spec fn view(&self) -> Seq<u8> {
        let size = self.buf@.len() as int;
        let t = self.total as int;
        if t <= size {
            self.buf@.take(t)
        } else {
            let p = t % size;
            self.buf@.skip(p) + self.buf@.take(p)
        }
    }
}

impl OutputWindow {
    /// The window capacity.
    pub closed spec fn spec_size(&self) -> int {
        self.buf@.len() as int
    }

    /// Total bytes produced so far.
    pub closed spec fn produced(&self) -> int {
        self.total as int
    }

    pub closed spec fn wf(&self) -> bool {
        &&& 2 <= self.buf@.len() <= 0x100_0000
        &&& self.total <= MAX_TOTAL_BYTES
    }

    /// The retained history is the produced bytes, capped at the capacity.
    pub proof fn wf_facts(&self)
        requires
            self.wf(),
        ensures
            self@.len() == if self.produced() <= self.spec_size() {
                self.produced()
            } else {
                self.spec_size()
            },
            2 <= self.spec_size(),
            0 <= self.produced() <= MAX_TOTAL_BYTES,
    {
        let size = self.buf@.len() as int;
        let t = self.total as int;
        if t > size {
            vstd::arithmetic::div_mod::lemma_mod_division_less_than_divisor(t, size);
            vstd::arithmetic::div_mod::lemma_mod_bound(t, size);
        }
    }

    /// An empty window of `2^window_bits` bytes.
    pub fn new(window_bits: u32) -> (w: OutputWindow)
        requires
            1 <= window_bits <= MAX_WINDOW_BITS,
        ensures
            w.wf(),
            w@ == Seq::<u8>::empty(),
            w.spec_size() == pow2(window_bits as nat),
            w.produced() == 0,
    {
        proof {
            vstd::arithmetic::power2::lemma2_to64();
            if window_bits < 24 {
                vstd::arithmetic::power2::lemma_pow2_strictly_increases(
                    window_bits as nat,
                    24,
                );
            }
            if 1 < window_bits {
                vstd::arithmetic::power2::lemma_pow2_strictly_increases(1, window_bits as nat);
            }
        }
        let size: usize = 1usize << window_bits;
        proof {
            lemma_usize_shl_is_mul(1usize, window_bits as usize);
        }
        let mut buf: Vec<u8> = Vec::new();
        let mut k: usize = 0;
        while k < size
            invariant
                k <= size,
                buf@.len() == k,
            decreases size - k,
        {
            buf.push(0);
            k = k + 1;
        }
        let w = OutputWindow { buf, total: 0 };
        proof {
            assert(w@ =~= Seq::<u8>::empty());
        }
        w
    }

    /// Appends one byte, dropping the oldest byte once the window is full.
    pub fn push_byte(&mut self, b: u8)
        requires
            old(self).wf(),
            old(self).produced() < MAX_TOTAL_BYTES,
        ensures
            final(self).wf(),
            final(self).spec_size() == old(self).spec_size(),
            final(self).produced() == old(self).produced() + 1,
            final(self)@ == if old(self)@.len() < old(self).spec_size() {
                old(self)@.push(b)
            } else {
                old(self)@.skip(1).push(b)
            },
    {
        proof {
            self.wf_facts();
        }
        let size: usize = self.buf.len();
        let pos: usize = (self.total % (size as u64)) as usize;
        proof {
            let t = self.total as int;
            let s = size as int;
            vstd::arithmetic::div_mod::lemma_mod_division_less_than_divisor(t, s);
            vstd::arithmetic::div_mod::lemma_mod_bound(t, s);
            if t < s {
                lemma_small_mod(t as nat, s as nat);
            }
        }
        self.buf[pos] = b;
        self.total = self.total + 1;
        proof {
            let old_buf = old(self).buf@;
            let t = old(self).total as int;
            let s = size as int;
            let p = t % s;
            lemma_fundamental_div_mod(t, s);
            let q = t / s;
            assert(s * q == q * s) by (nonlinear_arith);
            assert((t + 1) % s == if p + 1 < s {
                p + 1
            } else {
                0int
            }) by {
                if p + 1 < s {
                    lemma_fundamental_div_mod_converse_mod(t + 1, s, q, p + 1);
                } else {
                    assert((q + 1) * s == q * s + s) by (nonlinear_arith);
                    lemma_fundamental_div_mod_converse_mod(t + 1, s, q + 1, 0);
                }
            }
            if t < s {
                assert(self@ =~= old(self)@.push(b));
            } else {
                assert(old(self)@.len() == s) by {
                    old(self).wf_facts();
                }
                if t == s {
                    assert(p == 0) by {
                        lemma_mod_multiples_basic(1, s);
                    }
                    assert(old(self)@ =~= old_buf);
                    assert((t + 1) % s == 1) by {
                        lemma_fundamental_div_mod_converse_mod(t + 1, s, 1, 1);
                    }
                    assert(self@ =~= old(self)@.skip(1).push(b));
                } else {
                    if p + 1 < s {
                        assert(self@ =~= old(self)@.skip(1).push(b));
                    } else {
                        assert(self@ =~= old(self)@.skip(1).push(b));
                    }
                }
            }
        }
    }

    /// Reads the byte `distance` positions back in the retained history.
    pub fn read_back(&self, distance: usize) -> (b: u8)
        requires
            self.wf(),
            1 <= distance <= self@.len(),
        ensures
            b == self@[self@.len() - distance],
    {
        proof {
            self.wf_facts();
        }
        let size: usize = self.buf.len();
        let idx: usize = ((self.total - (distance as u64)) % (size as u64)) as usize;
        proof {
            let t = self.total as int;
            let s = size as int;
            let d = distance as int;
            vstd::arithmetic::div_mod::lemma_mod_division_less_than_divisor(t - d, s);
            vstd::arithmetic::div_mod::lemma_mod_bound(t - d, s);
            if t <= s {
                lemma_small_mod((t - d) as nat, s as nat);
            } else {
                let p = t % s;
                lemma_fundamental_div_mod(t, s);
                let q = t / s;
                assert(s * q == q * s) by (nonlinear_arith);
                if d <= p {
                    lemma_fundamental_div_mod_converse_mod(t - d, s, q, p - d);
                } else {
                    assert((q - 1) * s == q * s - s) by (nonlinear_arith);
                    lemma_fundamental_div_mod_converse_mod(t - d, s, q - 1, p - d + s);
                }
            }
        }
        self.buf[idx]
    }

    /// Copies `length` bytes from `distance` back, byte by byte, so a
    /// distance shorter than the length repeats the copied bytes. Returns
    /// the emitted bytes.
    pub fn copy_from_distance(&mut self, distance: usize, length: usize) -> (copied: Vec<u8>)
        requires
            old(self).wf(),
            1 <= distance <= old(self)@.len(),
            old(self).produced() + length <= MAX_TOTAL_BYTES,
        ensures
            final(self).wf(),
            final(self).spec_size() == old(self).spec_size(),
            final(self).produced() == old(self).produced() + length,
            copied@ == copied_bytes(old(self)@, distance as int, length as nat),
            final(self)@ == window_suffix(
                old(self)@ + copied_bytes(old(self)@, distance as int, length as nat),
                old(self).spec_size(),
            ),
    {
        let ghost h0 = self@;
        let ghost d = distance as int;
        let ghost size = self.spec_size();
        let mut copied: Vec<u8> = Vec::new();
        let mut k: usize = 0;
        proof {
            self.wf_facts();
            assert(h0 + copied_bytes(h0, d, 0) =~= h0);
        }
        while k < length
            invariant
                k <= length,
                d == distance as int,
                self.wf(),
                self.spec_size() == size,
                1 <= d <= h0.len(),
                h0.len() <= size,
                h0.len() <= old(self).produced(),
                old(self).produced() + length <= MAX_TOTAL_BYTES,
                self.produced() == old(self).produced() + k,
                old(self)@ == h0,
                copied@ == copied_bytes(h0, d, k as nat),
                copied@.len() == k,
                self@ == window_suffix(h0 + copied_bytes(h0, d, k as nat), size),
            decreases length - k,
        {
            let ghost full = h0 + copied_bytes(h0, d, k as nat);
            proof {
                self.wf_facts();
                assert(full.len() == h0.len() + k);
                assert(self@.len() == if self.produced() <= size {
                    self.produced()
                } else {
                    size
                });
                assert(d <= self@.len());
                if full.len() <= size {
                    assert(self@ == full);
                } else {
                    assert(self@ == full.skip(full.len() - size));
                }
                assert(self@[self@.len() - d] == full[full.len() - d]);
            }
            let b = self.read_back(distance);
            self.push_byte(b);
            copied.push(b);
            k = k + 1;
            proof {
                let full1 = h0 + copied_bytes(h0, d, k as nat);
                assert(copied_bytes(h0, d, k as nat) == copied_bytes(h0, d, (k - 1) as nat).push(
                    (h0 + copied_bytes(h0, d, (k - 1) as nat))[h0.len() - d + (k - 1)],
                ));
                assert(copied@ =~= copied_bytes(h0, d, k as nat));
                assert(full1 =~= full.push(b));
                self.wf_facts();
                if full.len() < size {
                    assert(self@ =~= window_suffix(full1, size));
                } else {
                    assert(self@ =~= window_suffix(full1, size));
                }
            }
        }
        copied
    }
}

} // verus!
