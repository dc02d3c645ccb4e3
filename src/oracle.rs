//! The keyed hash oracle: a factory of independent word accumulators.
use std::collections::hash_map::DefaultHasher;
use std::hash::Hasher;
use vstd::prelude::*;
use vstd::std_specs::hash::DefaultHasherAdditionalSpecFns;

verus! {

/// An accumulator of 64-bit words that reduces what it was fed to a 64-bit digest.
pub trait WordHasher: Sized {
    /// The words written so far, oldest first.
    ///
    /// An implementation written outside verified code may leave this
    /// unspecified; it is then trusted, unchecked, to behave as if it were
    /// defined for its hasher so that the method contracts below hold.
    closed spec fn written(&self) -> Seq<u64> {
        arbitrary()
    }

    /// The digest that this accumulator gives for a sequence of writes.
    ///
    /// An implementation written outside verified code may leave this
    /// unspecified; it is then trusted, unchecked, to behave as if it were
    /// defined for its hasher so that the method contracts below hold.
    closed spec fn digest_of(&self, words: Seq<u64>) -> u64 {
        arbitrary()
    }

    /// Feeds one word; the digest function stays the same.
    fn write_u64(&mut self, word: u64)
        ensures
            final(self).written() == old(self).written().push(word),
            forall|ws: Seq<u64>| #[trigger] final(self).digest_of(ws) == old(self).digest_of(ws),
    ;

    /// The digest of the words written so far.
    fn finish(&self) -> (r: u64)
        ensures
            r == self.digest_of(self.written()),
    ;
}

/// A deterministic keyed hash: each accumulator it builds starts empty and
/// computes the oracle's own digest function.
pub trait HashOracle: Sized {
    type Hasher: WordHasher;

    /// The digest of a sequence of words: a pure function of the oracle and
    /// the words.
    ///
    /// An implementation written outside verified code may leave this
    /// unspecified; it is then trusted, unchecked, to behave as if it were
    /// defined for it so that `build_hasher`'s contract holds.
    closed spec fn digest(&self, words: Seq<u64>) -> u64 {
        arbitrary()
    }

    /// A fresh accumulator.
    fn build_hasher(&self) -> (h: Self::Hasher)
        ensures
            h.written() == Seq::<u64>::empty(),
            forall|ws: Seq<u64>| #[trigger] h.digest_of(ws) == self.digest(ws),
    ;
}

/// The eight bytes of a word, least significant first.
pub open spec fn le_bytes(w: u64) -> Seq<u8> {
    seq![
        w as u8,
        (w >> 8) as u8,
        (w >> 16) as u8,
        (w >> 24) as u8,
        (w >> 32) as u8,
        (w >> 40) as u8,
        (w >> 48) as u8,
        (w >> 56) as u8,
    ]
}

/// What std's `DefaultHasher` gives after each word was written as its
/// eight little-endian bytes.
pub open spec fn default_digest(words: Seq<u64>) -> u64 {
    DefaultHasher::spec_finish(words.map_values(|w: u64| le_bytes(w)))
}

/// A word accumulator over std's `DefaultHasher`.
///
/// Each word is fed as its eight little-endian bytes. std's own
/// `Hasher::write_u64` feeds native-endian bytes, so on a big-endian target the
/// digests differ from those of `DefaultHasher::write_u64`; on a little-endian
/// target they are the same.
pub struct DefaultWordHasher {
    inner: DefaultHasher,
    words: Ghost<Seq<u64>>,
}

impl DefaultWordHasher {
    #[verifier::type_invariant]
    spec fn inv(self) -> bool {
        self.inner@ == self.words@.map_values(|w: u64| le_bytes(w))
    }

    fn fresh() -> (h: Self)
        ensures
            h.written() == Seq::<u64>::empty(),
    {
        let inner = DefaultHasher::new();
        proof {
            assert(Seq::<u64>::empty().map_values(|w: u64| le_bytes(w)) =~= Seq::<Seq<u8>>::empty());
        }
        DefaultWordHasher { inner, words: Ghost(Seq::empty()) }
    }
}

impl WordHasher for DefaultWordHasher {
    closed spec fn written(&self) -> Seq<u64> {
        self.words@
    }

    open spec fn digest_of(&self, words: Seq<u64>) -> u64 {
        default_digest(words)
    }

    fn write_u64(&mut self, word: u64) {
        let mut held = DefaultWordHasher::fresh();
        std::mem::swap(self, &mut held);
        proof {
            use_type_invariant(&held);
        }
        let DefaultWordHasher { mut inner, words } = held;
        let bytes: [u8; 8] = [
            word as u8,
            (word >> 8) as u8,
            (word >> 16) as u8,
            (word >> 24) as u8,
            (word >> 32) as u8,
            (word >> 40) as u8,
            (word >> 48) as u8,
            (word >> 56) as u8,
        ];
        proof {
            assert(bytes@ =~= le_bytes(word));
        }
        inner.write(&bytes);
        let ghost pushed = words@.push(word);
        proof {
            assert(pushed.map_values(|w: u64| le_bytes(w)) =~= words@.map_values(
                |w: u64| le_bytes(w),
            ).push(le_bytes(word)));
        }
        *self = DefaultWordHasher { inner, words: Ghost(pushed) };
    }

    fn finish(&self) -> (r: u64) {
        proof {
            use_type_invariant(self);
        }
        self.inner.finish()
    }
}

/// The oracle over std's `DefaultHasher` with its fixed keys.
///
/// Words are fed as little-endian bytes (see [`DefaultWordHasher`]), so the
/// digests do not depend on the target's byte order.
pub struct DefaultBuildHasher {}

impl DefaultBuildHasher {
    /// A new oracle; all of them compute the same digest.
    pub fn new() -> (r: DefaultBuildHasher)
        ensures
            forall|ws: Seq<u64>| #[trigger] r.digest(ws) == default_digest(ws),
    {
        DefaultBuildHasher {}
    }
}

impl HashOracle for DefaultBuildHasher {
    type Hasher = DefaultWordHasher;

    open spec fn digest(&self, words: Seq<u64>) -> u64 {
        default_digest(words)
    }

    fn build_hasher(&self) -> (h: DefaultWordHasher) {
        DefaultWordHasher::fresh()
    }
}

} // verus!
