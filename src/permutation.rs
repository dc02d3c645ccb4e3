//! Random-access permutations of `0..n` by cycle-walking a Feistel cipher.
use crate::feistel::Feistel;
use crate::oracle::{DefaultBuildHasher, HashOracle, WordHasher};
use vstd::arithmetic::power2::{lemma_pow2_strictly_increases, lemma_pow2_unfold, pow2};
use vstd::prelude::*;
use vstd::relations::injective_on;
use vstd::set_lib::{lemma_int_range, lemma_len_subset, lemma_map_size, lemma_subset_equality, set_int_range};
use vstd::std_specs::bits::u64_leading_zeros;

verus! {

/// The number of Feistel rounds, and so of round keys, of every permutation.
pub const ROUNDS: usize = 5;

/// The `i`th link of the key chain: the seed, then the oracle's digest of the
/// previous link, word by word.
pub open spec fn key_chain<B: HashOracle>(bob: B, seed: u64, i: nat) -> u64
    decreases i,
{
    if i == 0 {
        seed
    } else {
        bob.digest(seq![key_chain(bob, seed, (i - 1) as nat)])
    }
}

/// The round keys of a permutation: the links of the key chain after the seed.
pub open spec fn round_keys<B: HashOracle>(bob: B, seed: u64) -> Seq<u64> {
    Seq::new(ROUNDS as nat, |i: int| key_chain(bob, seed, (i + 1) as nat))
}

/// The number of binary digits of `n`, without leading zeros.
pub open spec fn bit_length(n: u64) -> nat
    decreases n,
{
    if n == 0 {
        0
    } else {
        1 + bit_length(n / 2)
    }
}

/// The block width of a permutation of `0..n`: the bit length of `n`, rounded
/// up to an even number.
pub open spec fn block_bits(n: u64) -> nat {
    bit_length(n) + bit_length(n) % 2
}

proof fn lemma_bit_length_bounds(n: u64)
    requires
        n >= 1,
    ensures
        1 <= bit_length(n) <= 64,
        pow2((bit_length(n) - 1) as nat) <= n,
        (n as int) < pow2(bit_length(n)),
    decreases n,
{
    let b = bit_length(n);
    if n == 1 {
        assert(bit_length(0) == 0);
        assert(pow2(0) == 1 && pow2(1) == 2) by {
            vstd::arithmetic::power2::lemma2_to64();
        }
    } else {
        lemma_bit_length_bounds(n / 2);
        lemma_pow2_unfold(b);
        lemma_pow2_unfold((b - 1) as nat);
        if b > 64 {
            if b - 1 > 64 {
                lemma_pow2_strictly_increases(64, (b - 1) as nat);
            }
            vstd::arithmetic::power2::lemma2_to64_rest();
        }
    }
}

proof fn lemma_leading_zeros(n: u64)
    ensures
        64 - u64_leading_zeros(n) == bit_length(n),
    decreases n,
{
    reveal(u64_leading_zeros);
    if n != 0 {
        lemma_leading_zeros(n / 2);
    }
}

/// The block width is even, at most 64, and the least even width whose blocks
/// exceed `n`.
pub proof fn lemma_block_bits(n: u64)
    requires
        n >= 1,
    ensures
        block_bits(n) % 2 == 0,
        2 <= block_bits(n) <= 64,
        (n as int) < pow2(block_bits(n)),
        pow2((block_bits(n) - 2) as nat) <= n,
{
    let b = bit_length(n);
    lemma_bit_length_bounds(n);
    if b % 2 == 1 {
        lemma_pow2_strictly_increases(b, b + 1);
    } else {
        lemma_pow2_strictly_increases((b - 2) as nat, (b - 1) as nat);
    }
}

proof fn lemma_key_chain_same_digests<B: HashOracle>(bob1: B, bob2: B, seed: u64, i: nat)
    requires
        forall|ws: Seq<u64>| #[trigger] bob1.digest(ws) == bob2.digest(ws),
    ensures
        key_chain(bob1, seed, i) == key_chain(bob2, seed, i),
    decreases i,
{
    if i > 0 {
        lemma_key_chain_same_digests(bob1, bob2, seed, (i - 1) as nat);
        let prev = key_chain(bob1, seed, (i - 1) as nat);
        assert(bob1.digest(seq![prev]) == bob2.digest(seq![prev]));
    }
}

/// One word's digest from a fresh accumulator of the oracle.
fn hash_one<B: HashOracle>(bob: &B, x: u64) -> (r: u64)
    ensures
        r == bob.digest(seq![x]),
{
    let mut h = bob.build_hasher();
    h.write_u64(x);
    let r = h.finish();
    proof {
        assert(h.written() =~= seq![x]);
    }
    r
}

/// A random-access permutation of `0..n`.
pub struct Permutation<B: HashOracle = DefaultBuildHasher> {
    n: u64,
    feistel: Feistel<B>,
}

impl<B: HashOracle> Permutation<B> {
    /// The size of the domain.
    pub closed spec fn n(&self) -> u64 {
        self.n
    }

    /// The cipher whose cycles the permutation walks.
    pub closed spec fn cipher(&self) -> Feistel<B> {
        self.feistel
    }

    /// The domain is not empty, the cipher is valid and its blocks cover the domain.
    pub open spec fn wf(&self) -> bool {
        &&& self.n() >= 1
        &&& self.cipher().wf()
        &&& (self.n() as int) <= pow2(self.cipher().bits())
    }

    /// The permutation was built from a domain size, a seed and an oracle.
    pub open spec fn built_from(&self, n: u64, seed: u64, bob: B) -> bool {
        &&& self.n() == n
        &&& self.cipher().bits() == block_bits(n)
        &&& self.cipher().keys() == round_keys(bob, seed)
        &&& self.cipher().oracle() == bob
    }

    /// `x` encrypted `k` times.
    pub open spec fn walk(&self, x: u64, k: nat) -> u64
        decreases k,
    {
        if k == 0 {
            x
        } else {
            self.cipher().spec_encrypt(self.walk(x, (k - 1) as nat))
        }
    }

    /// The `k`th encryption of `x` is the first one that falls in the domain.
    pub open spec fn exits_at(&self, x: u64, k: nat) -> bool {
        &&& k >= 1
        &&& self.walk(x, k) < self.n()
        &&& forall|j: nat| 1 <= j < k ==> #[trigger] self.walk(x, j) >= self.n()
    }

    /// The value of the permutation at `x`: the first encryption of `x`, `x`
    /// encrypted again and again, that falls in the domain.
    pub open spec fn spec_get(&self, x: u64) -> u64 {
        self.walk(x, choose|k: nat| self.exits_at(x, k))
    }

    /// The values of the permutation at `begin`, ..., `end - 1`.
    pub open spec fn outputs(&self, begin: u64, end: u64) -> Seq<u64> {
        Seq::new((end - begin) as nat, |i: int| self.spec_get((begin + i) as u64))
    }

    proof fn lemma_walk_in_block(&self, x: u64, k: nat)
        requires
            self.wf(),
            (x as int) < pow2(self.cipher().bits()),
        ensures
            (self.walk(x, k) as int) < pow2(self.cipher().bits()),
        decreases k,
    {
        if k > 0 {
            self.lemma_walk_in_block(x, (k - 1) as nat);
            self.cipher().lemma_involution(self.walk(x, (k - 1) as nat));
        }
    }

    /// Equal walks from two blocks cancel down to the shorter one.
    proof fn lemma_walk_cancel(&self, a: u64, b: u64, i: nat, j: nat)
        requires
            self.wf(),
            (a as int) < pow2(self.cipher().bits()),
            (b as int) < pow2(self.cipher().bits()),
            i <= j,
            self.walk(a, i) == self.walk(b, j),
        ensures
            a == self.walk(b, (j - i) as nat),
        decreases i,
    {
        if i > 0 {
            let pa = self.walk(a, (i - 1) as nat);
            let pb = self.walk(b, (j - 1) as nat);
            self.lemma_walk_in_block(a, (i - 1) as nat);
            self.lemma_walk_in_block(b, (j - 1) as nat);
            self.cipher().lemma_involution(pa);
            self.cipher().lemma_involution(pb);
            self.lemma_walk_cancel(a, b, (i - 1) as nat, (j - 1) as nat);
        }
    }

    /// Every block comes back to itself: the cipher permutes a finite set.
    proof fn lemma_walk_returns(&self, x: u64) -> (p: nat)
        requires
            self.wf(),
            (x as int) < pow2(self.cipher().bits()),
        ensures
            p >= 1,
            self.walk(x, p) == x,
    {
        let m = pow2(self.cipher().bits()) as int;
        let steps = set_int_range(0, m + 1);
        let blocks = set_int_range(0, m);
        let f = |i: int| self.walk(x, i as nat) as int;
        lemma_int_range(0, m + 1);
        lemma_int_range(0, m);
        assert(steps.map(f).subset_of(blocks)) by {
            assert forall|v: int| steps.map(f).contains(v) implies blocks.contains(v) by {
                let i = choose|i: int| steps.contains(i) && f(i) == v;
                self.lemma_walk_in_block(x, i as nat);
            }
        }
        if injective_on(f, steps) {
            lemma_map_size(steps, steps.map(f), f);
            lemma_len_subset(steps.map(f), blocks);
            assert(false);
        }
        let (i, j) = choose|i: int, j: int|
            steps.contains(i) && steps.contains(j) && #[trigger] f(i) == #[trigger] f(j) && i != j;
        if i < j {
            self.lemma_walk_cancel(x, x, i as nat, j as nat);
            (j - i) as nat
        } else {
            self.lemma_walk_cancel(x, x, j as nat, i as nat);
            (i - j) as nat
        }
    }

    proof fn lemma_first_exit(&self, x: u64, j: nat, p: nat) -> (k: nat)
        requires
            1 <= j <= p,
            self.walk(x, p) < self.n(),
            forall|i: nat| 1 <= i < j ==> #[trigger] self.walk(x, i) >= self.n(),
        ensures
            self.exits_at(x, k),
        decreases p - j,
    {
        if self.walk(x, j) < self.n() {
            j
        } else {
            assert forall|i: nat| 1 <= i < j + 1 implies #[trigger] self.walk(x, i) >= self.n() by {
                if i < j {
                }
            }
            self.lemma_first_exit(x, j + 1, p)
        }
    }

    proof fn lemma_exit_unique(&self, x: u64, k1: nat, k2: nat)
        requires
            self.exits_at(x, k1),
            self.exits_at(x, k2),
        ensures
            k1 == k2,
    {
        if k1 < k2 {
            assert(self.walk(x, k1) >= self.n());
        } else if k2 < k1 {
            assert(self.walk(x, k2) >= self.n());
        }
    }

    /// Each index of the domain has exactly one first exit, and `spec_get` is
    /// the walk up to it.
    pub proof fn lemma_get_exits(&self, x: u64) -> (k: nat)
        requires
            self.wf(),
            x < self.n(),
        ensures
            self.exits_at(x, k),
            self.spec_get(x) == self.walk(x, k),
            self.spec_get(x) < self.n(),
            forall|k2: nat| #[trigger] self.exits_at(x, k2) ==> k2 == k,
    {
        let p = self.lemma_walk_returns(x);
        let k = self.lemma_first_exit(x, 1, p);
        let c = choose|c: nat| self.exits_at(x, c);
        self.lemma_exit_unique(x, k, c);
        assert forall|k2: nat| #[trigger] self.exits_at(x, k2) implies k2 == k by {
            self.lemma_exit_unique(x, k, k2);
        }
        k
    }

    proof fn lemma_injective(&self, x1: u64, x2: u64)
        requires
            self.wf(),
            x1 < self.n(),
            x2 < self.n(),
            self.spec_get(x1) == self.spec_get(x2),
        ensures
            x1 == x2,
    {
        let k1 = self.lemma_get_exits(x1);
        let k2 = self.lemma_get_exits(x2);
        if k1 <= k2 {
            self.lemma_walk_cancel(x1, x2, k1, k2);
            if k1 < k2 {
                assert(self.walk(x2, (k2 - k1) as nat) >= self.n());
            }
        } else {
            self.lemma_walk_cancel(x2, x1, k2, k1);
            assert(self.walk(x1, (k1 - k2) as nat) >= self.n());
        }
    }

    /// The permutation maps `0..n` into `0..n`, one to one and onto: its
    /// values at `0, ..., n - 1` are `0, ..., n - 1`, each exactly once.
    pub proof fn lemma_bijection(&self)
        requires
            self.wf(),
        ensures
            forall|x: u64| x < self.n() ==> #[trigger] self.spec_get(x) < self.n(),
            forall|x1: u64, x2: u64|
                x1 < self.n() && x2 < self.n() && #[trigger] self.spec_get(x1)
                    == #[trigger] self.spec_get(x2) ==> x1 == x2,
            forall|y: u64| y < self.n() ==> #[trigger] self.outputs(0, self.n()).contains(y),
            self.outputs(0, self.n()).no_duplicates(),
    {
        assert forall|x: u64| x < self.n() implies #[trigger] self.spec_get(x) < self.n() by {
            self.lemma_get_exits(x);
        }
        assert forall|x1: u64, x2: u64|
            x1 < self.n() && x2 < self.n() && #[trigger] self.spec_get(x1)
                == #[trigger] self.spec_get(x2) implies x1 == x2 by {
            self.lemma_injective(x1, x2);
        }
        let dom = set_int_range(0, self.n() as int);
        let g = |i: int| self.spec_get(i as u64) as int;
        lemma_int_range(0, self.n() as int);
        assert(injective_on(g, dom)) by {
            assert forall|i1: int, i2: int| dom.contains(i1) && dom.contains(i2) && #[trigger] g(i1) == #[trigger] g(i2) implies i1 == i2 by {
                self.lemma_injective(i1 as u64, i2 as u64);
            }
        }
        assert(dom.map(g).subset_of(dom)) by {
            assert forall|v: int| dom.map(g).contains(v) implies dom.contains(v) by {
                let i = choose|i: int| dom.contains(i) && g(i) == v;
                self.lemma_get_exits(i as u64);
            }
        }
        lemma_map_size(dom, dom.map(g), g);
        lemma_subset_equality(dom.map(g), dom);
        let all = self.outputs(0, self.n());
        assert forall|y: u64| y < self.n() implies #[trigger] all.contains(y) by {
            assert(dom.map(g).contains(y as int));
            let i = choose|i: int| dom.contains(i) && g(i) == y as int;
            assert(all[i] == y);
        }
        assert forall|i: int, j: int| 0 <= i < all.len() && 0 <= j < all.len() && i != j implies all[i] != all[j] by {
            if all[i] == all[j] {
                self.lemma_injective(i as u64, j as u64);
            }
        }
    }

    /// Permutations built from the same domain size and seed, over oracles that
    /// give the same digest for every word sequence, agree at every index.
    pub proof fn lemma_deterministic(
        p: &Permutation<B>,
        q: &Permutation<B>,
        n: u64,
        seed: u64,
        bob1: B,
        bob2: B,
    )
        requires
            p.wf(),
            q.wf(),
            p.built_from(n, seed, bob1),
            q.built_from(n, seed, bob2),
            forall|ws: Seq<u64>| #[trigger] bob1.digest(ws) == bob2.digest(ws),
        ensures
            forall|x: u64| x < n ==> #[trigger] p.spec_get(x) == q.spec_get(x),
    {
        assert forall|i: nat| #[trigger] key_chain(bob1, seed, i) == key_chain(bob2, seed, i) by {
            lemma_key_chain_same_digests(bob1, bob2, seed, i);
        }
        assert(round_keys(bob1, seed) =~= round_keys(bob2, seed));
        assert forall|x: u64| x < n implies #[trigger] p.spec_get(x) == q.spec_get(x) by {
            assert forall|j: nat| #[trigger] p.walk(x, j) == q.walk(x, j) by {
                p.lemma_walks_agree(q, bob1, bob2, x, j);
            }
            let k = p.lemma_get_exits(x);
            assert forall|j: nat| 1 <= j < k implies #[trigger] q.walk(x, j) >= q.n() by {
                assert(p.walk(x, j) >= p.n());
            }
            assert(p.walk(x, k) == q.walk(x, k));
            assert(q.exits_at(x, k));
            q.lemma_get_exits(x);
        }
    }

    proof fn lemma_walks_agree(&self, q: &Permutation<B>, bob1: B, bob2: B, x: u64, j: nat)
        requires
            self.cipher().oracle() == bob1,
            q.cipher().oracle() == bob2,
            self.cipher().keys() == q.cipher().keys(),
            self.cipher().bits() == q.cipher().bits(),
            forall|ws: Seq<u64>| #[trigger] bob1.digest(ws) == bob2.digest(ws),
        ensures
            self.walk(x, j) == q.walk(x, j),
        decreases j,
    {
        if j > 0 {
            self.lemma_walks_agree(q, bob1, bob2, x, (j - 1) as nat);
            crate::feistel::lemma_apply_same_digests(
                bob1,
                bob2,
                self.cipher().half(),
                self.cipher().keys(),
                self.walk(x, (j - 1) as nat),
            );
        }
    }

    /// The values that a range yields are the values of the permutation at its
    /// indices, and the matching slice of the values over the whole domain.
    pub proof fn lemma_range_consistency(&self, begin: u64, end: u64)
        requires
            self.wf(),
            begin <= end <= self.n(),
        ensures
            self.outputs(begin, end) == self.outputs(0, self.n()).subrange(begin as int, end as int),
            self.outputs(begin, end).len() == end - begin,
            forall|i: int| 0 <= i < end - begin ==> #[trigger] self.outputs(begin, end)[i] == self.spec_get((begin + i) as u64),
    {
        assert(self.outputs(begin, end) =~= self.outputs(0, self.n()).subrange(begin as int, end as int));
    }

    /// The permutation of a one-element domain is the identity, and an empty
    /// range yields nothing.
    pub proof fn lemma_boundary(&self, k: u64)
        requires
            self.wf(),
            k <= self.n(),
        ensures
            self.n() == 1 ==> self.spec_get(0) == 0,
            self.outputs(k, k).len() == 0,
    {
        self.lemma_get_exits(0);
    }

    /// A permutation of `0..n`, from `n >= 1`, a seed and a hash oracle.
    pub fn new(n: u64, seed: u64, bob: B) -> (r: Permutation<B>)
        requires
            n >= 1,
        ensures
            r.wf(),
            r.built_from(n, seed, bob),
    {
        let mut keys: Vec<u64> = Vec::new();
        let mut k = seed;
        let mut i: usize = 0;
        while i < ROUNDS
            invariant
                i <= ROUNDS,
                keys@.len() == i,
                k == key_chain(bob, seed, i as nat),
                forall|j: int| 0 <= j < i ==> #[trigger] keys@[j] == key_chain(bob, seed, (j + 1) as nat),
            decreases ROUNDS - i,
        {
            k = hash_one(&bob, k);
            keys.push(k);
            i += 1;
        }
        let z = 64 - n.leading_zeros() as usize;
        proof {
            lemma_leading_zeros(n);
            lemma_block_bits(n);
            assert(z & 1 == z % 2) by (bit_vector);
            assert(keys@ =~= round_keys(bob, seed));
        }
        let bits = z + (z & 1);
        Permutation { n, feistel: Feistel::new(bob, bits, keys.as_slice()) }
    }

    /// The value of the permutation at `x`, which must lie in `0..n`.
    pub fn get(&self, x: u64) -> (r: u64)
        requires
            self.wf(),
            x < self.n(),
        ensures
            r == self.spec_get(x),
            r < self.n(),
    {
        let ghost p = self.lemma_walk_returns(x);
        let mut res = self.feistel.encrypt(x);
        let ghost mut k: nat = 1;
        assert(self.walk(x, 0) == x);
        while res >= self.n
            invariant
                self.wf(),
                x < self.n(),
                1 <= k <= p,
                self.walk(x, p) == x,
                res == self.walk(x, k),
                forall|j: nat| 1 <= j < k ==> #[trigger] self.walk(x, j) >= self.n(),
            decreases p - k,
        {
            res = self.feistel.encrypt(res);
            proof {
                assert forall|j: nat| 1 <= j < k + 1 implies #[trigger] self.walk(x, j) >= self.n() by {
                    if j < k {
                    }
                }
                k = k + 1;
            }
        }
        proof {
            self.lemma_get_exits(x);
        }
        res
    }

    /// An iterator over the whole permutation: its values at `0, ..., n - 1`.
    pub fn iter(&self) -> (r: PermutationIterator<'_, B>)
        requires
            self.wf(),
        ensures
            r.wf(),
            r.source() == *self,
            r@ == self.outputs(0, self.n()),
            r.bounds() == (0u64, self.n()),
    {
        PermutationIterator::new(self, 0, self.n)
    }

    /// An iterator over the values of the permutation at `begin, ..., end - 1`,
    /// where `begin <= end <= n`.
    pub fn range(&self, begin: u64, end: u64) -> (r: PermutationIterator<'_, B>)
        requires
            self.wf(),
            begin <= end <= self.n(),
        ensures
            r.wf(),
            r.source() == *self,
            r@ == self.outputs(begin, end),
            r.bounds() == (begin, end),
    {
        PermutationIterator::new(self, begin, end)
    }

    /// Turns the permutation into an iterator over its values at
    /// `begin, ..., end - 1`, where `begin <= end <= n`.
    pub fn into_range(self, begin: u64, end: u64) -> (r: OwnedPermutationIterator<B>)
        requires
            self.wf(),
            begin <= end <= self.n(),
        ensures
            r.wf(),
            r.source() == self,
            r@ == self.outputs(begin, end),
            r.bounds() == (begin, end),
    {
        OwnedPermutationIterator::new(self, begin, end)
    }

    /// Turns the permutation into an iterator over its values at `0, ..., n - 1`.
    pub fn into_iter(self) -> (r: OwnedPermutationIterator<B>)
        requires
            self.wf(),
        ensures
            r.wf(),
            r.source() == self,
            r@ == self.outputs(0, self.n()),
            r.bounds() == (0u64, self.n()),
    {
        let end = self.n;
        OwnedPermutationIterator::new(self, 0, end)
    }
}

/// An iterator over part of a borrowed [`Permutation`].
pub struct PermutationIterator<'a, B: HashOracle> {
    source: &'a Permutation<B>,
    curr: u64,
    end: u64,
}

impl<'a, B: HashOracle> PermutationIterator<'a, B> {
    /// The permutation iterated over.
    pub closed spec fn source(&self) -> Permutation<B> {
        *self.source
    }

    /// The next index and the end of the range.
    pub closed spec fn bounds(&self) -> (u64, u64) {
        (self.curr, self.end)
    }

    /// The permutation is valid and the cursor lies within its domain.
    pub open spec fn wf(&self) -> bool {
        &&& self.source().wf()
        &&& self.bounds().0 <= self.bounds().1 <= self.source().n()
    }

    fn new(source: &'a Permutation<B>, begin: u64, end: u64) -> (r: PermutationIterator<'a, B>)
        requires
            source.wf(),
            begin <= end <= source.n(),
        ensures
            r.wf(),
            r.source() == *source,
            r@ == source.outputs(begin, end),
            r.bounds() == (begin, end),
    {
        PermutationIterator { source, curr: begin, end }
    }

    /// The next value, or `None` once the range is exhausted.
    pub fn next(&mut self) -> (r: Option<u64>)
        requires
            old(self).wf(),
        ensures
            final(self).wf(),
            final(self).source() == old(self).source(),
            final(self).bounds().1 == old(self).bounds().1,
            final(self).bounds().0 == old(self).bounds().0 + (if r is Some { 1int } else { 0int }),
            old(self)@.len() == 0 ==> r is None && final(self)@ == old(self)@,
            old(self)@.len() > 0 ==> r == Some(old(self)@[0]) && final(self)@ == old(self)@.drop_first(),
    {
        if self.curr == self.end {
            None
        } else {
            let res = self.source.get(self.curr);
            self.curr += 1;
            proof {
                assert(self@ =~= old(self)@.drop_first());
            }
            Some(res)
        }
    }
}

impl<'a, B: HashOracle> View for PermutationIterator<'a, B> {
    type V = Seq<u64>;

    /// The values still to come.
    closed spec fn view(&self) -> Seq<u64> {
        self.source.outputs(self.curr, self.end)
    }
}

/// An iterator over part of a [`Permutation`] that it owns.
pub struct OwnedPermutationIterator<B: HashOracle> {
    source: Permutation<B>,
    curr: u64,
    end: u64,
}

impl<B: HashOracle> OwnedPermutationIterator<B> {
    /// The permutation iterated over.
    pub closed spec fn source(&self) -> Permutation<B> {
        self.source
    }

    /// The next index and the end of the range.
    pub closed spec fn bounds(&self) -> (u64, u64) {
        (self.curr, self.end)
    }

    /// The permutation is valid and the cursor lies within its domain.
    pub open spec fn wf(&self) -> bool {
        &&& self.source().wf()
        &&& self.bounds().0 <= self.bounds().1 <= self.source().n()
    }

    fn new(source: Permutation<B>, begin: u64, end: u64) -> (r: OwnedPermutationIterator<B>)
        requires
            source.wf(),
            begin <= end <= source.n(),
        ensures
            r.wf(),
            r.source() == source,
            r@ == source.outputs(begin, end),
            r.bounds() == (begin, end),
    {
        OwnedPermutationIterator { source, curr: begin, end }
    }

    /// The next value, or `None` once the range is exhausted.
    pub fn next(&mut self) -> (r: Option<u64>)
        requires
            old(self).wf(),
        ensures
            final(self).wf(),
            final(self).source() == old(self).source(),
            final(self).bounds().1 == old(self).bounds().1,
            final(self).bounds().0 == old(self).bounds().0 + (if r is Some { 1int } else { 0int }),
            old(self)@.len() == 0 ==> r is None && final(self)@ == old(self)@,
            old(self)@.len() > 0 ==> r == Some(old(self)@[0]) && final(self)@ == old(self)@.drop_first(),
    {
        if self.curr == self.end {
            None
        } else {
            let res = self.source.get(self.curr);
            self.curr += 1;
            proof {
                assert(self@ =~= old(self)@.drop_first());
            }
            Some(res)
        }
    }
}

impl<B: HashOracle> View for OwnedPermutationIterator<B> {
    type V = Seq<u64>;

    /// The values still to come.
    closed spec fn view(&self) -> Seq<u64> {
        self.source.outputs(self.curr, self.end)
    }
}

} // verus!
