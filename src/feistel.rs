//! A Feistel network over an even block width, driven by a keyed hash oracle.
use crate::oracle::{HashOracle, WordHasher};
use vstd::arithmetic::div_mod::{lemma_basic_div, lemma_div_by_self, lemma_div_is_ordered};
use vstd::arithmetic::power2::{lemma2_to64, lemma2_to64_rest, lemma_pow2_pos, pow2};
use vstd::bits::lemma_u64_shr_is_div;
use vstd::prelude::*;

verus! {

/// The mask of the low `h` bits.
pub open spec fn half_mask(h: u64) -> u64 {
    ((1u64 << h) - 1) as u64
}

/// The round function: the oracle's digest of the key, then the half-block,
/// cut to the low `h` bits.
pub open spec fn round_value<B: HashOracle>(bob: B, h: u64, k: u64, v: u64) -> u64 {
    bob.digest(seq![k, v]) & half_mask(h)
}

/// The halves `(l, r)` after one round per key, in the order of `keys`: each
/// round xors the round function of `r` into `l`, then swaps the halves.
pub open spec fn feistel_rounds<B: HashOracle>(
    bob: B,
    h: u64,
    keys: Seq<u64>,
    l: u64,
    r: u64,
) -> (u64, u64)
    decreases keys.len(),
{
    if keys.len() == 0 {
        (l, r)
    } else {
        let (a, b) = feistel_rounds(bob, h, keys.drop_last(), l, r);
        (b, a ^ round_value(bob, h, keys.last(), b))
    }
}

/// The network on a block: split it into its high and low halves, run the
/// rounds, and put the halves back together in swapped order.
pub open spec fn feistel_apply<B: HashOracle>(bob: B, h: u64, keys: Seq<u64>, x: u64) -> u64 {
    let (l, r) = feistel_rounds(bob, h, keys, x >> h, x & half_mask(h));
    (r << h) | l
}

/// `x` is a block of `2 * h` bits.
pub open spec fn in_block(h: u64, x: u64) -> bool {
    (x >> h) >> h == 0
}

proof fn lemma_split_fits(h: u64, x: u64)
    by (bit_vector)
    requires
        h <= 32,
    ensures
        (x & (((1u64 << h) - 1) as u64)) >> h == 0,
{
}

proof fn lemma_xor_fits(h: u64, a: u64, b: u64)
    by (bit_vector)
    requires
        h <= 32,
        a >> h == 0,
        b >> h == 0,
    ensures
        (a ^ b) >> h == 0,
{
}

proof fn lemma_xor_cancel(a: u64, b: u64)
    by (bit_vector)
    ensures
        (a ^ b) ^ b == a,
{
}

proof fn lemma_combine_split(h: u64, x: u64)
    by (bit_vector)
    requires
        h <= 32,
    ensures
        ((x >> h) << h) | (x & (((1u64 << h) - 1) as u64)) == x,
{
}

proof fn lemma_split_combine(h: u64, a: u64, b: u64)
    by (bit_vector)
    requires
        h <= 32,
        a >> h == 0,
        b >> h == 0,
    ensures
        ((a << h) | b) >> h == a,
        ((a << h) | b) & (((1u64 << h) - 1) as u64) == b,
{
}

proof fn lemma_one_shl(h: u64)
    by (bit_vector)
    requires
        h <= 32,
    ensures
        (1u64 << h) >= 1,
{
}

proof fn lemma_rounds_fit<B: HashOracle>(bob: B, h: u64, keys: Seq<u64>, l: u64, r: u64)
    requires
        h <= 32,
        l >> h == 0,
        r >> h == 0,
    ensures
        feistel_rounds(bob, h, keys, l, r).0 >> h == 0,
        feistel_rounds(bob, h, keys, l, r).1 >> h == 0,
    decreases keys.len(),
{
    if keys.len() > 0 {
        lemma_rounds_fit(bob, h, keys.drop_last(), l, r);
        let p = feistel_rounds(bob, h, keys.drop_last(), l, r);
        lemma_split_fits(h, bob.digest(seq![keys.last(), p.1]));
        lemma_xor_fits(h, p.0, round_value(bob, h, keys.last(), p.1));
    }
}

proof fn lemma_rounds_concat<B: HashOracle>(
    bob: B,
    h: u64,
    a: Seq<u64>,
    b: Seq<u64>,
    l: u64,
    r: u64,
)
    ensures
        feistel_rounds(bob, h, a + b, l, r) == feistel_rounds(
            bob,
            h,
            b,
            feistel_rounds(bob, h, a, l, r).0,
            feistel_rounds(bob, h, a, l, r).1,
        ),
    decreases b.len(),
{
    if b.len() == 0 {
        assert(a + b =~= a);
    } else {
        assert((a + b).drop_last() =~= a + b.drop_last());
        assert((a + b).last() == b.last());
        lemma_rounds_concat(bob, h, a, b.drop_last(), l, r);
    }
}

/// Running the rounds over the reversed keys on the swapped output halves
/// gives back the swapped input halves.
proof fn lemma_rounds_undo<B: HashOracle>(bob: B, h: u64, keys: Seq<u64>, l: u64, r: u64)
    ensures
        feistel_rounds(
            bob,
            h,
            keys.reverse(),
            feistel_rounds(bob, h, keys, l, r).1,
            feistel_rounds(bob, h, keys, l, r).0,
        ) == (r, l),
    decreases keys.len(),
{
    if keys.len() > 0 {
        let ks = keys.drop_last();
        let k = keys.last();
        let p = feistel_rounds(bob, h, ks, l, r);
        let q = feistel_rounds(bob, h, keys, l, r);
        assert(keys.reverse() =~= seq![k] + ks.reverse());
        lemma_rounds_concat(bob, h, seq![k], ks.reverse(), q.1, q.0);
        assert(seq![k].drop_last() =~= Seq::<u64>::empty());
        assert(q == (p.1, p.0 ^ round_value(bob, h, k, p.1)));
        let one = feistel_rounds(bob, h, seq![k], q.1, q.0);
        assert(seq![k].len() == 1 && seq![k].last() == k);
        assert(feistel_rounds(bob, h, Seq::<u64>::empty(), q.1, q.0) == (q.1, q.0));
        assert(one == (q.0, q.1 ^ round_value(bob, h, k, q.0)));
        lemma_xor_cancel(p.0, round_value(bob, h, k, p.1));
        assert(one == (p.1, p.0));
        lemma_rounds_undo(bob, h, ks, l, r);
    }
}

/// The network with the reversed keys undoes the network, on every block.
pub proof fn lemma_apply_inverse<B: HashOracle>(bob: B, h: u64, keys: Seq<u64>, x: u64)
    requires
        h <= 32,
        in_block(h, x),
    ensures
        in_block(h, feistel_apply(bob, h, keys, x)),
        feistel_apply(bob, h, keys.reverse(), feistel_apply(bob, h, keys, x)) == x,
{
    let hi = x >> h;
    let lo = x & half_mask(h);
    lemma_split_fits(h, x);
    lemma_rounds_fit(bob, h, keys, hi, lo);
    let p = feistel_rounds(bob, h, keys, hi, lo);
    lemma_split_combine(h, p.1, p.0);
    lemma_rounds_undo(bob, h, keys, hi, lo);
    lemma_combine_split(h, x);
}

/// The network depends on the oracle only through the digests it gives.
pub proof fn lemma_apply_same_digests<B: HashOracle>(
    b1: B,
    b2: B,
    h: u64,
    keys: Seq<u64>,
    x: u64,
)
    requires
        forall|ws: Seq<u64>| #[trigger] b1.digest(ws) == b2.digest(ws),
    ensures
        feistel_apply(b1, h, keys, x) == feistel_apply(b2, h, keys, x),
{
    lemma_rounds_same_digests(b1, b2, h, keys, x >> h, x & half_mask(h));
}

proof fn lemma_rounds_same_digests<B: HashOracle>(
    b1: B,
    b2: B,
    h: u64,
    keys: Seq<u64>,
    l: u64,
    r: u64,
)
    requires
        forall|ws: Seq<u64>| #[trigger] b1.digest(ws) == b2.digest(ws),
    ensures
        feistel_rounds(b1, h, keys, l, r) == feistel_rounds(b2, h, keys, l, r),
    decreases keys.len(),
{
    if keys.len() > 0 {
        lemma_rounds_same_digests(b1, b2, h, keys.drop_last(), l, r);
        let p = feistel_rounds(b1, h, keys.drop_last(), l, r);
        assert(b1.digest(seq![keys.last(), p.1]) == b2.digest(seq![keys.last(), p.1]));
    }
}

/// A value is a block of `2 * h` bits exactly when it is below `2^(2 * h)`.
pub proof fn lemma_in_block_bound(h: u64, x: u64)
    requires
        h <= 32,
    ensures
        in_block(h, x) <==> (x as int) < pow2(2 * h as nat),
{
    lemma2_to64();
    lemma2_to64_rest();
    if h == 32 {
        assert((x >> 32u64) >> 32u64 == 0) by (bit_vector);
    } else {
        let d: u64 = (2 * h) as u64;
        assert((x >> h) >> h == x >> d) by (bit_vector)
            requires
                h < 32,
                d == 2 * h,
        ;
        lemma_u64_shr_is_div(x, d);
        let p = pow2(d as nat) as int;
        lemma_pow2_pos(d as nat);
        if (x as int) < p {
            lemma_basic_div(x as int, p);
        } else {
            lemma_div_is_ordered(p, x as int, p);
            lemma_div_by_self(p);
        }
    }
}

/// A Feistel network cipher on blocks of `bits` bits, `bits` even and at most 64.
pub struct Feistel<B: HashOracle> {
    bob: B,
    bits: usize,
    keys: Vec<u64>,
}

impl<B: HashOracle> Feistel<B> {
    /// The block width.
    pub closed spec fn bits(&self) -> nat {
        self.bits as nat
    }

    /// The round keys, in the order that encryption applies them.
    pub closed spec fn keys(&self) -> Seq<u64> {
        self.keys@
    }

    /// The hash oracle that drives the round function.
    pub closed spec fn oracle(&self) -> B {
        self.bob
    }

    /// The block width is even and at most 64.
    pub open spec fn wf(&self) -> bool {
        self.bits() % 2 == 0 && self.bits() <= 64
    }

    /// Half the block width.
    pub open spec fn half(&self) -> u64 {
        (self.bits() / 2) as u64
    }

    /// What `encrypt` gives: the network with the keys in order.
    pub open spec fn spec_encrypt(&self, x: u64) -> u64 {
        feistel_apply(self.oracle(), self.half(), self.keys(), x)
    }

    /// What `decrypt` gives: the network with the keys in reverse order.
    pub open spec fn spec_decrypt(&self, x: u64) -> u64 {
        feistel_apply(self.oracle(), self.half(), self.keys().reverse(), x)
    }

    /// Decryption undoes encryption and encryption undoes decryption, on every
    /// block of the cipher's width; both keep a block within the width.
    pub proof fn lemma_involution(&self, x: u64)
        requires
            self.wf(),
            (x as int) < pow2(self.bits()),
        ensures
            self.spec_decrypt(self.spec_encrypt(x)) == x,
            self.spec_encrypt(self.spec_decrypt(x)) == x,
            (self.spec_encrypt(x) as int) < pow2(self.bits()),
            (self.spec_decrypt(x) as int) < pow2(self.bits()),
    {
        let h = self.half();
        let keys = self.keys();
        lemma_in_block_bound(h, x);
        lemma_apply_inverse(self.oracle(), h, keys, x);
        lemma_apply_inverse(self.oracle(), h, keys.reverse(), x);
        assert(keys.reverse().reverse() =~= keys);
        lemma_in_block_bound(h, self.spec_encrypt(x));
        lemma_in_block_bound(h, self.spec_decrypt(x));
    }

    /// A cipher on blocks of `bits` bits with the given round keys.
    pub fn new(bob: B, bits: usize, keys: &[u64]) -> (r: Feistel<B>)
        requires
            bits % 2 == 0,
            bits <= 64,
        ensures
            r.wf(),
            r.bits() == bits,
            r.keys() == keys@,
            r.oracle() == bob,
    {
        Feistel { bob, bits, keys: vstd::slice::slice_to_vec(keys) }
    }

    /// Encrypts a block.
    pub fn encrypt(&self, x: u64) -> (y: u64)
        requires
            self.wf(),
        ensures
            y == self.spec_encrypt(x),
            (x as int) < pow2(self.bits()) ==> (y as int) < pow2(self.bits()),
    {
        let (mut l, mut r) = self.split(x);
        let mut i: usize = 0;
        while i < self.keys.len()
            invariant
                self.wf(),
                0 <= i <= self.keys@.len(),
                (l, r) == feistel_rounds(
                    self.bob,
                    self.half(),
                    self.keys@.subrange(0, i as int),
                    x >> self.half(),
                    x & half_mask(self.half()),
                ),
            decreases self.keys@.len() - i,
        {
            let k = self.keys[i];
            l ^= self.hash(k, r);
            let t = l;
            l = r;
            r = t;
            proof {
                let next = self.keys@.subrange(0, i + 1);
                assert(next.drop_last() =~= self.keys@.subrange(0, i as int));
                assert(next.last() == k);
            }
            i += 1;
        }
        proof {
            assert(self.keys@.subrange(0, self.keys@.len() as int) =~= self.keys@);
            if (x as int) < pow2(self.bits()) {
                self.lemma_involution(x);
            }
        }
        self.combine(r, l)
    }

    /// Decrypts a block.
    pub fn decrypt(&self, x: u64) -> (y: u64)
        requires
            self.wf(),
        ensures
            y == self.spec_decrypt(x),
            (x as int) < pow2(self.bits()) ==> (y as int) < pow2(self.bits()),
    {
        let (mut l, mut r) = self.split(x);
        let n = self.keys.len();
        let mut i: usize = 0;
        while i < n
            invariant
                self.wf(),
                n == self.keys@.len(),
                0 <= i <= n,
                (l, r) == feistel_rounds(
                    self.bob,
                    self.half(),
                    self.keys@.reverse().subrange(0, i as int),
                    x >> self.half(),
                    x & half_mask(self.half()),
                ),
            decreases n - i,
        {
            let k = self.keys[n - 1 - i];
            l ^= self.hash(k, r);
            let t = l;
            l = r;
            r = t;
            proof {
                let next = self.keys@.reverse().subrange(0, i + 1);
                assert(next.drop_last() =~= self.keys@.reverse().subrange(0, i as int));
                assert(next.last() == k);
            }
            i += 1;
        }
        proof {
            assert(self.keys@.reverse().subrange(0, n as int) =~= self.keys@.reverse());
            if (x as int) < pow2(self.bits()) {
                self.lemma_involution(x);
            }
        }
        self.combine(r, l)
    }

    fn split(&self, x: u64) -> (r: (u64, u64))
        requires
            self.wf(),
        ensures
            r.0 == x >> self.half(),
            r.1 == x & half_mask(self.half()),
    {
        let n: u64 = (self.bits / 2) as u64;
        proof {
            lemma_one_shl(n);
        }
        let m = (1u64 << n) - 1;
        let hi = x >> n;
        let lo = x & m;
        (hi, lo)
    }

    fn combine(&self, hi: u64, lo: u64) -> (r: u64)
        requires
            self.wf(),
        ensures
            r == (hi << self.half()) | lo,
    {
        let n: u64 = (self.bits / 2) as u64;
        (hi << n) | lo
    }

    fn hash(&self, k: u64, x: u64) -> (r: u64)
        requires
            self.wf(),
        ensures
            r == round_value(self.bob, self.half(), k, x),
    {
        let mut h = self.bob.build_hasher();
        h.write_u64(k);
        h.write_u64(x);
        let res = h.finish();
        proof {
            assert(h.written() =~= seq![k, x]);
        }
        let n: u64 = (self.bits / 2) as u64;
        proof {
            lemma_one_shl(n);
        }
        let m = (1u64 << n) - 1;
        res & m
    }
}

} // verus!
