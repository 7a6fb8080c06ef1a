//! Checksums of bytes, files, directories and standard input, computed with a
//! pluggable hash algorithm.
//!
//! In-memory data is hashed in one update. Sources that must be read from
//! outside (files, directory trees, standard input) are walked by the
//! [`Traversal`] state machine: the caller performs the I/O it asks for and
//! hands back what happened, and the machine feeds the bytes into the hash in
//! a fixed order.

pub use chksum_hash_core as hash;

use vstd::prelude::*;
use vstd::string::StringSliceAdditionalSpecFns;

mod digest;
mod error;
mod md5;
mod order;
mod traversal;

pub use crate::digest::{hex_ascii, hex_digit, Digest};
pub use crate::error::{Error, Result};
pub use crate::md5::{md5_absorbed, md5_of, Md5, Md5Digest};
pub use crate::order::{arrange, is_sorted_order, lemma_listing_order_irrelevant, lex_le, sort_order};
pub use crate::traversal::{
    advanced, fed, feed_chunks, fits, lemma_chunking_irrelevant, lemma_empty_stream,
    lemma_inner_directory_first, lemma_terminal_rejected, listed_names, step_of, transition, valid, Action, Event, FrameView, Phase,
    Step, Traversal, TraversalView,
};

verus! {


/// A hash accumulator: it folds the bytes it is fed into a digest.
///
/// `input` is every byte passed to `update` since construction or the last
/// `reset`; the digest depends on it alone.
pub trait Hash: Sized {
    /// The type representing the digest produced by finalizing the hash.
    type Digest: Digest;

    /// The bytes fed since construction or the last reset.
    spec fn input(&self) -> Seq<u8>;

    /// The digest of the algorithm for `data`.
    spec fn digest_of(data: Seq<u8>) -> Seq<u8>;

    /// Creates a hash in its initial state.
    fn new() -> (r: Self)
        ensures
            r.input() == Seq::<u8>::empty(),
    ;

    /// Updates the hash state with an input data.
    fn update(&mut self, data: &[u8])
        ensures
            final(self).input() == old(self).input() + data@,
    ;

    /// Resets the hash state to its initial state.
    fn reset(&mut self)
        ensures
            final(self).input() == Seq::<u8>::empty(),
    ;

    /// Produces the hash digest; the state is left as it was.
    fn digest(&self) -> (r: Self::Digest)
        ensures
            r.bytes() == Self::digest_of(self.input()),
    ;

    /// Calculates the hash digest of an input data.
    fn hash(data: &[u8]) -> (r: Self::Digest)
        ensures
            r.bytes() == Self::digest_of(data@),
    {
        let mut h = Self::new();
        h.update(data);
        assert(Seq::<u8>::empty() + data@ =~= data@);
        h.digest()
    }
}

/// Bytes-like values that are entirely in memory: hashing them cannot fail.
pub trait Hashable {
    /// The bytes of the value.
    spec fn content(&self) -> Seq<u8>;

    /// The bytes of the value, as a slice.
    fn data(&self) -> (r: &[u8])
        ensures
            r@ == self.content(),
    ;

    /// Computes the hash digest.
    fn hash<H: Hash>(&self) -> (r: H::Digest)
        ensures
            r.bytes() == H::digest_of(self.content()),
    {
        let mut h = H::new();
        self.hash_with(&mut h);
        assert(Seq::<u8>::empty() + self.content() =~= self.content());
        h.digest()
    }

    /// Updates the given hash instance with the bytes of this value, in one update.
    fn hash_with<H: Hash>(&self, hash: &mut H)
        ensures
            final(hash).input() == old(hash).input() + self.content(),
    {
        hash.update(self.data());
    }
}

impl Hashable for Vec<u8> {
    open spec fn content(&self) -> Seq<u8> {
        self@
    }

    fn data(&self) -> (r: &[u8]) {
        self.as_slice()
    }
}

impl<'a> Hashable for &'a [u8] {
    open spec fn content(&self) -> Seq<u8> {
        (*self)@
    }

    fn data(&self) -> (r: &[u8]) {
        *self
    }
}

impl<const LENGTH: usize> Hashable for [u8; LENGTH] {
    open spec fn content(&self) -> Seq<u8> {
        self@
    }

    fn data(&self) -> (r: &[u8]) {
        self.as_slice()
    }
}

impl<'a> Hashable for &'a str {
    open spec fn content(&self) -> Seq<u8> {
        (*self).spec_bytes()
    }

    fn data(&self) -> (r: &[u8]) {
        (*self).as_bytes()
    }
}

impl Hashable for String {
    open spec fn content(&self) -> Seq<u8> {
        vstd::utf8::encode_utf8(self@)
    }

    fn data(&self) -> (r: &[u8]) {
        self.as_str().as_bytes()
    }
}

/// Sources whose bytes are fed into a hash chunk by chunk, which may fail.
pub trait Chksumable {
    /// Whether feeding this source always succeeds.
    spec fn infallible(&self) -> bool;

    /// The bytes this source feeds into a hash when it succeeds.
    spec fn content(&self) -> Seq<u8>;

    /// Updates the given hash instance with the data from the source.
    fn chksum_with<H: Hash>(&mut self, hash: &mut H) -> (r: Result<()>)
        ensures
            old(self).infallible() ==> r is Ok,
            r is Ok ==> final(hash).input() == old(hash).input() + old(self).content(),
    ;

    /// Calculates the checksum of the source with a fresh hash.
    fn chksum<H: Hash>(&mut self) -> (r: Result<H::Digest>)
        ensures
            old(self).infallible() ==> r is Ok,
            r matches Ok(d) ==> d.bytes() == H::digest_of(old(self).content()),
    {
        let mut h = H::new();
        match self.chksum_with(&mut h) {
            Ok(()) => {
                assert(Seq::<u8>::empty() + old(self).content() =~= old(self).content());
                Ok(h.digest())
            },
            Err(e) => Err(e),
        }
    }
}

impl<T: Hashable> Chksumable for T {
    open spec fn infallible(&self) -> bool {
        true
    }

    open spec fn content(&self) -> Seq<u8> {
        Hashable::content(self)
    }

    fn chksum_with<H: Hash>(&mut self, hash: &mut H) -> (r: Result<()>) {
        self.hash_with(hash);
        Ok(())
    }
}


/// Hashing is deterministic: equal buffers have equal digests, and the empty
/// buffer always has the algorithm's one digest of empty input.
pub proof fn lemma_hash_deterministic<H: Hash>(a: Seq<u8>, b: Seq<u8>)
    requires
        a == b,
    ensures
        H::digest_of(a) == H::digest_of(b),
        a.len() == 0 ==> H::digest_of(a) == H::digest_of(Seq::<u8>::empty()),
{
    if a.len() == 0 {
        assert(a =~= Seq::<u8>::empty());
    }
}

/// A reset leaves nothing behind: a hash reset after any earlier input and
/// then fed `b` has the digest of `b` alone.
pub proof fn lemma_reset_forgets<H: Hash>(reset: H, fed: H, b: Seq<u8>)
    requires
        reset.input() == Seq::<u8>::empty(),
        fed.input() == reset.input() + b,
    ensures
        H::digest_of(fed.input()) == H::digest_of(b),
{
    assert(fed.input() =~= b);
}

/// Creates a hash in its initial state.
pub fn default<H: crate::Hash>() -> (r: H)
    ensures
        r.input() == Seq::<u8>::empty(),
{
    H::new()
}

/// Computes the hash of the given input.
pub fn hash<H: crate::Hash, T: Hashable>(data: T) -> (r: H::Digest)
    ensures
        r.bytes() == H::digest_of(data.content()),
{
    data.hash::<H>()
}

/// Computes the checksum of the given input.
pub fn chksum<H: crate::Hash, T: Chksumable>(data: T) -> (r: Result<H::Digest>)
    ensures
        data.infallible() ==> r is Ok,
        r matches Ok(d) ==> d.bytes() == H::digest_of(data.content()),
{
    let mut data = data;
    data.chksum::<H>()
}

} // verus!
