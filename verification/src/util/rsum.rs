use vstd::prelude::*;
use vstd::arithmetic::div_mod::{
    lemma_add_mod_noop, lemma_mod_add_multiples_vanish, lemma_mod_bound, lemma_mul_mod_noop_left,
    lemma_sub_mod_noop,
};

verus! {

/// Sum of the bytes of a window, as an unbounded integer.
pub open spec fn wsum_a(w: Seq<u8>) -> int
    decreases w.len(),
{
    if w.len() == 0 {
        0
    } else {
        wsum_a(w.drop_last()) + w.last()
    }
}

/// Weighted sum of the bytes of a window: the byte at position `i` from the
/// window end contributes `(i + 1) * byte`.
pub open spec fn wsum_b(w: Seq<u8>) -> int
    decreases w.len(),
{
    if w.len() == 0 {
        0
    } else {
        wsum_b(w.drop_last()) + wsum_a(w)
    }
}

/// The 32-bit rolling checksum of a window: the low half is the plain sum,
/// the high half the weighted sum, each taken modulo 2^16.
pub open spec fn rsum_value(w: Seq<u8>) -> u32 {
    ((wsum_a(w) % 0x10000) + 0x10000 * (wsum_b(w) % 0x10000)) as u32
}

pub proof fn lemma_wsum_a_concat(s: Seq<u8>, t: Seq<u8>)
    ensures
        wsum_a(s + t) == wsum_a(s) + wsum_a(t),
    decreases t.len(),
{
    if t.len() == 0 {
        assert(s + t =~= s);
    } else {
        lemma_wsum_a_concat(s, t.drop_last());
        assert((s + t).drop_last() =~= s + t.drop_last());
        assert((s + t).last() == t.last());
    }
}

pub proof fn lemma_wsum_a_drop_first(w: Seq<u8>)
    requires
        w.len() >= 1,
    ensures
        wsum_a(w.drop_first()) == wsum_a(w) - w[0],
{
    let s = seq![w[0]];
    assert(wsum_a(s) == wsum_a(s.drop_last()) + s.last());
    assert(s.drop_last() =~= Seq::<u8>::empty());
    lemma_wsum_a_concat(s, w.drop_first());
    assert(s + w.drop_first() =~= w);
}

pub proof fn lemma_wsum_b_drop_first(w: Seq<u8>)
    requires
        w.len() >= 1,
    ensures
        wsum_b(w.drop_first()) == wsum_b(w) - w.len() * w[0],
    decreases w.len(),
{
    if w.len() == 1 {
        assert(w.drop_first() =~= Seq::<u8>::empty());
        assert(w.drop_last() =~= Seq::<u8>::empty());
        assert(wsum_b(w) == wsum_b(w.drop_last()) + wsum_a(w));
        assert(wsum_a(w) == wsum_a(w.drop_last()) + w.last());
        assert(w.last() == w[0]);
    } else {
        let u = w.drop_last();
        lemma_wsum_b_drop_first(u);
        lemma_wsum_a_drop_first(w);
        assert(w.drop_first().drop_last() =~= u.drop_first());
        assert(w.drop_first().last() == w.last());
        assert(wsum_b(w.drop_first()) == wsum_b(u.drop_first()) + wsum_a(w.drop_first()));
        assert(u[0] == w[0]);
        assert(wsum_b(u.drop_first()) == wsum_b(u) - u.len() * u[0]);
        assert(w.len() * w[0] == u.len() * w[0] + w[0]) by (nonlinear_arith)
            requires w.len() == u.len() + 1;
    }
}

/// Maintains the two 16-bit accumulators of the rolling checksum together
/// with the ring buffer that holds the current window.
pub struct Rsum {
    pub a: u16,
    pub b: u16,
    pub old_byte: usize,
    pub block_length: usize,
    pub buffer: Vec<u8>,
}

impl Rsum {
    /// The bytes of the current window, oldest first: the ring buffer read
    /// from the cursor on, wrapping around.
    pub open spec fn window_of(self) -> Seq<u8> {
        Seq::new(
            self.buffer@.len(),
            |j: int| self.buffer@[(self.old_byte + j) % (self.buffer@.len() as int)],
        )
    }

    pub open spec fn shape_wf(self) -> bool {
        &&& self.buffer@.len() == self.block_length
        &&& (self.block_length > 0 ==> self.old_byte < self.block_length)
        &&& (self.block_length == 0 ==> self.old_byte == 0)
    }

    /// The accumulators agree with the window contents.
    pub open spec fn sum_ok(self) -> bool {
        &&& self.a == wsum_a(self.window_of()) % 0x10000
        &&& self.b == wsum_b(self.window_of()) % 0x10000
    }

    pub open spec fn spec_block_length(self) -> nat {
        self.block_length as nat
    }

    pub fn new() -> (r: Rsum)
        ensures
            r.a == 0,
            r.b == 0,
            r.old_byte == 0,
            r.spec_block_length() == 0,
            r.window_of() =~= Seq::<u8>::empty(),
            r.shape_wf(),
            r.sum_ok(),
    {
        Rsum { a: 0, b: 0, old_byte: 0, block_length: 0, buffer: Vec::new() }
    }

    /// The 32-bit checksum: the `a` accumulator in the low half, `b` in the
    /// high half.
    pub fn get_value(&self) -> (r: u32)
        ensures
            r == self.a + 0x10000 * self.b,
            self.sum_ok() ==> r == rsum_value(self.window_of()),
    {
        proof {
            if self.sum_ok() {
                lemma_mod_bound(wsum_a(self.window_of()), 0x10000);
                lemma_mod_bound(wsum_b(self.window_of()), 0x10000);
            }
        }
        (self.a as u32) + 0x10000u32 * (self.b as u32)
    }

    pub fn reset(&mut self)
        ensures
            final(self).a == 0,
            final(self).b == 0,
            final(self).old_byte == 0,
            final(self).block_length == old(self).block_length,
            final(self).buffer@ == old(self).buffer@,
    {
        self.a = 0;
        self.b = 0;
        self.old_byte = 0;
    }

    /// One O(1) update of the sliding window: the byte the cursor designates
    /// leaves the window, `new_byte` enters, and both accumulators are updated
    /// with 16-bit wraparound arithmetic.
    pub fn roll(&mut self, new_byte: u8)
        requires
            old(self).shape_wf(),
            old(self).block_length >= 1,
    ensures
            final(self).shape_wf(),
            final(self).block_length == old(self).block_length,
            final(self).window_of() =~= old(self).window_of().drop_first() + seq![new_byte],
            final(self).a == ((old(self).a - old(self).window_of()[0] + new_byte) % 0x10000) as u16,
            final(self).b == ((old(self).b - old(self).block_length * old(self).window_of()[0]
                + final(self).a) % 0x10000) as u16,
            old(self).sum_ok() ==> final(self).sum_ok(),
    {
        let ghost w = old(self).window_of();
        let ghost bl = old(self).block_length as int;
        let old_b_byte = self.buffer[self.old_byte];
        proof {
            lemma_small_mod_int(old(self).old_byte as int, bl);
            assert(w[0] == old(self).buffer@[old(self).old_byte as int]);
        }
        let a1: u32 = ((self.a as u32) + 0x10000 - (old_b_byte as u32) + (new_byte as u32))
            % 0x10000;
        let blm: u64 = (self.block_length as u64) % 0x10000;
        proof {
            assert(blm * (old_b_byte as u64) < 0x100000000) by (nonlinear_arith)
                requires blm < 0x10000, old_b_byte < 0x100;
        }
        let t: u32 = ((blm * (old_b_byte as u64)) % 0x10000) as u32;
        let b1: u32 = (((self.b as u32) + 0x10000 - t) + a1) % 0x10000;
        proof {
            // a1 == (a - w0 + nb) % m
            lemma_mod_add_multiples_vanish(
                old(self).a - old_b_byte + new_byte,
                0x10000,
            );
            // t == (bl * w0) % m
            lemma_mul_mod_noop_left(bl, old_b_byte as int, 0x10000);
            // b1 == (b - bl * w0 + a1) % m
            assert((old(self).b + 0x10000 - t + a1) % 0x10000
                == (old(self).b - bl * old_b_byte + a1) % 0x10000) by {
                lemma_mod_add_multiples_vanish(old(self).b - t + a1, 0x10000);
                lemma_sub_mod_noop_right_u(
                    old(self).b + a1,
                    t as int,
                    bl * old_b_byte,
                    0x10000,
                );
            }
        }
        self.a = a1 as u16;
        self.b = b1 as u16;
        let cursor = self.old_byte;
        self.buffer.set(cursor, new_byte);
        self.old_byte = cursor + 1;
        if self.old_byte == self.block_length {
            self.old_byte = 0;
        }
        proof {
            let wn = self.window_of();
            let ob = old(self).old_byte as int;
            let nb_pos = self.old_byte as int;
            assert forall|j: int| 0 <= j < bl implies wn[j] == (w.drop_first()
                + seq![new_byte])[j] by {
                lemma_mod_in_range(nb_pos + j, bl);
                lemma_mod_in_range(ob + 1 + j, bl);
                let idx = (nb_pos + j) % bl;
                assert(wn[j] == self.buffer@[idx]);
                if j < bl - 1 {
                    if ob + 1 == bl {
                        lemma_small_mod_int(j, bl);
                        assert(idx == j);
                        assert((ob + 1 + j) % bl == j);
                    } else {
                        assert(nb_pos == ob + 1);
                        assert(idx == (ob + 1 + j) % bl);
                    }
                    assert(idx != ob);
                    assert(self.buffer@[idx] == old(self).buffer@[idx]);
                    assert(w[j + 1] == old(self).buffer@[(ob + j + 1) % bl]);
                    assert(wn[j] == w[j + 1]);
                } else {
                    assert(j == bl - 1);
                    if ob + 1 == bl {
                        assert(nb_pos == 0);
                        lemma_mod_in_range(bl - 1, bl);
                        assert(idx == bl - 1);
                    } else {
                        assert(idx == ob);
                    }
                    assert(idx == ob);
                    assert(wn[j] == new_byte);
                }
            }
            assert(wn =~= w.drop_first() + seq![new_byte]);
            if old(self).sum_ok() {
                lemma_roll_sums(w, new_byte, self.a as int, self.b as int,
                    old(self).a as int, old(self).b as int);
            }
        }
    }

    /// Computes both accumulators from scratch over
    /// `buf[offset .. offset + length]`, descending weight from `length` down
    /// to 1, without touching the ring buffer.
    pub fn check(&mut self, buf: &Vec<u8>, offset: usize, length: usize)
        requires
            offset + length <= buf@.len(),
        ensures
            final(self).a == wsum_a(buf@.subrange(offset as int, offset + length)) % 0x10000,
            final(self).b == wsum_b(buf@.subrange(offset as int, offset + length)) % 0x10000,
            final(self).old_byte == 0,
            final(self).block_length == old(self).block_length,
            final(self).buffer@ == old(self).buffer@,
    {
        self.reset();
        let ghost full = buf@.subrange(offset as int, offset + length);
        let n = buf.len();
        let mut a: u32 = 0;
        let mut b: u32 = 0;
        let mut j: usize = 0;
        while j < length
            invariant
                j <= length,
                n == buf@.len(),
                offset + length <= n,
                full == buf@.subrange(offset as int, offset + length),
                a == wsum_a(buf@.subrange(offset as int, offset + j)) % 0x10000,
                b == wsum_b(buf@.subrange(offset as int, offset + j)) % 0x10000,
                a < 0x10000,
                b < 0x10000,
            decreases length - j,
        {
            let ghost pre = buf@.subrange(offset as int, offset + j);
            let byte = buf[offset + j];
            proof {
                let post = buf@.subrange(offset as int, offset + j + 1);
                assert(post.drop_last() =~= pre);
                assert(post.last() == byte);
                lemma_add_mod_noop(wsum_a(pre), byte as int, 0x10000);
                lemma_mod_add_multiples_vanish(wsum_a(pre) % 0x10000 + byte, 0x10000);
                lemma_mod_bound(wsum_a(post), 0x10000);
                lemma_add_mod_noop(wsum_b(pre), wsum_a(post), 0x10000);
                lemma_mod_bound(wsum_b(post), 0x10000);
            }
            a = (a + byte as u32) % 0x10000;
            proof {
                let post = buf@.subrange(offset as int, offset + j + 1);
                assert(a == wsum_a(post) % 0x10000) by {
                    assert(post.drop_last() =~= pre);
                    lemma_add_mod_noop(wsum_a(pre), byte as int, 0x10000);
                }
                lemma_add_mod_noop(wsum_b(pre) % 0x10000, wsum_a(post) % 0x10000, 0x10000);
                lemma_add_mod_noop(wsum_b(pre), wsum_a(post), 0x10000);
            }
            b = (b + a) % 0x10000;
            j += 1;
        }
        assert(buf@.subrange(offset as int, offset + length) =~= full);
        self.a = a as u16;
        self.b = b as u16;
    }

    /// Computes both accumulators over `buf[offset .. offset + length]` and
    /// records `buf[0 .. length]` as the new ring buffer with the cursor at
    /// its start.
    pub fn first(&mut self, buf: &Vec<u8>, offset: usize, length: usize)
        requires
            offset + length <= buf@.len(),
        ensures
            final(self).a == wsum_a(buf@.subrange(offset as int, offset + length)) % 0x10000,
            final(self).b == wsum_b(buf@.subrange(offset as int, offset + length)) % 0x10000,
            final(self).old_byte == 0,
            final(self).block_length == length,
            final(self).buffer@ == buf@.subrange(0, length as int),
            final(self).shape_wf(),
            final(self).window_of() =~= buf@.subrange(0, length as int),
            offset == 0 ==> final(self).sum_ok(),
    {
        self.check(buf, offset, length);
        let mut nb: Vec<u8> = Vec::new();
        let mut k: usize = 0;
        while k < length
            invariant
                k <= length,
                length <= buf@.len(),
                nb@ == buf@.subrange(0, k as int),
            decreases length - k,
        {
            nb.push(buf[k]);
            assert(nb@ =~= buf@.subrange(0, k + 1));
            k += 1;
        }
        self.block_length = length;
        self.buffer = nb;
        proof {
            assert forall|j: int| 0 <= j < length implies self.window_of()[j]
                == self.buffer@[j] by {
                lemma_small_mod_int(j, length as int);
            }
            assert(self.window_of() =~= buf@.subrange(0, length as int));
            if offset == 0 {
                assert(buf@.subrange(0, length as int)
                    =~= buf@.subrange(offset as int, offset + length));
            }
        }
    }
}

proof fn lemma_small_mod_int(x: int, m: int)
    requires
        0 <= x < m,
    ensures
        x % m == x,
{
    vstd::arithmetic::div_mod::lemma_small_mod(x as nat, m as nat);
}

/// On `[0, 2m)` the remainder is the value itself or the value less `m`.
proof fn lemma_mod_in_range(x: int, m: int)
    requires
        m > 0,
        0 <= x < 2 * m,
    ensures
        x % m == if x < m {
            x
        } else {
            x - m
        },
{
    if x < m {
        lemma_small_mod_int(x, m);
    } else {
        lemma_mod_add_multiples_vanish(x - m, m);
        lemma_small_mod_int(x - m, m);
    }
}

proof fn lemma_sub_mod_noop_right_u(x: int, t: int, y: int, m: int)
    requires
        m > 0,
        t == y % m,
    ensures
        (x - t) % m == (x - y) % m,
{
    lemma_sub_mod_noop(x, y, m);
    lemma_sub_mod_noop(x, t, m);
    vstd::arithmetic::div_mod::lemma_mod_twice(y, m);
}

/// Rolling one byte keeps the accumulators in step with the window: the
/// wraparound updates of `roll` equal the from-scratch sums of the new window.
proof fn lemma_roll_sums(w: Seq<u8>, nb: u8, a1: int, b1: int, a0: int, b0: int)
    requires
        w.len() >= 1,
        a0 == wsum_a(w) % 0x10000,
        b0 == wsum_b(w) % 0x10000,
        a1 == (a0 - w[0] + nb) % 0x10000,
        b1 == (b0 - w.len() * w[0] + a1) % 0x10000,
    ensures
        a1 == wsum_a(w.drop_first() + seq![nb]) % 0x10000,
        b1 == wsum_b(w.drop_first() + seq![nb]) % 0x10000,
{
    let m = 0x10000;
    let wn = w.drop_first() + seq![nb];
    lemma_wsum_a_drop_first(w);
    lemma_wsum_a_concat(w.drop_first(), seq![nb]);
    assert(wsum_a(seq![nb]) == nb) by {
        reveal_with_fuel(wsum_a, 2);
        let s = seq![nb];
        assert(s.drop_last() =~= Seq::<u8>::empty());
        assert(wsum_a(s) == wsum_a(s.drop_last()) + s.last());
    }
    assert(wsum_a(wn) == wsum_a(w) - w[0] + nb);
    // a side
    lemma_sub_mod_noop(wsum_a(w), w[0] as int, m);
    vstd::arithmetic::div_mod::lemma_mod_twice(wsum_a(w), m);
    lemma_add_mod_noop(wsum_a(w) - w[0], nb as int, m);
    assert((a0 - w[0]) % m == (wsum_a(w) - w[0]) % m) by {
        lemma_sub_mod_noop(a0, w[0] as int, m);
        lemma_sub_mod_noop(wsum_a(w), w[0] as int, m);
        vstd::arithmetic::div_mod::lemma_mod_twice(a0, m);
        vstd::arithmetic::div_mod::lemma_mod_twice(wsum_a(w), m);
    }
    assert((a0 - w[0] + nb) % m == (wsum_a(w) - w[0] + nb) % m) by {
        lemma_add_mod_noop((a0 - w[0]), nb as int, m);
        lemma_add_mod_noop((wsum_a(w) - w[0]), nb as int, m);
    }
    assert(a1 == wsum_a(wn) % m);
    // b side
    lemma_wsum_b_drop_first(w);
    assert(wn.drop_last() =~= w.drop_first());
    assert(wsum_b(wn) == wsum_b(w.drop_first()) + wsum_a(wn));
    assert(wsum_b(wn) == wsum_b(w) - w.len() * w[0] + wsum_a(wn));
    assert((b0 - w.len() * w[0]) % m == (wsum_b(w) - w.len() * w[0]) % m) by {
        lemma_sub_mod_noop(b0, w.len() * w[0], m);
        lemma_sub_mod_noop(wsum_b(w), w.len() * w[0], m);
        vstd::arithmetic::div_mod::lemma_mod_twice(b0, m);
        vstd::arithmetic::div_mod::lemma_mod_twice(wsum_b(w), m);
    }
    assert((b0 - w.len() * w[0] + a1) % m == (wsum_b(w) - w.len() * w[0] + wsum_a(wn)) % m) by {
        lemma_add_mod_noop(b0 - w.len() * w[0], a1, m);
        lemma_add_mod_noop(wsum_b(w) - w.len() * w[0], wsum_a(wn), m);
        assert(a1 % m == wsum_a(wn) % m) by {
            vstd::arithmetic::div_mod::lemma_mod_twice(wsum_a(wn), m);
        }
    }
    assert(b1 == wsum_b(wn) % m);
}

} // verus!
