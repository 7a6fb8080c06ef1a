use vstd::prelude::*;

use crate::digest::Digest;

verus! {

#[verifier::external_type_specification]
#[verifier::external_body]
pub struct ExMd5Update(chksum_hash_md5::Update);

/// The bytes an MD5 state has absorbed since it was created or last reset.
pub uninterp spec fn md5_absorbed(state: chksum_hash_md5::Update) -> Seq<u8>;

/// The MD5 digest of `data`.
pub uninterp spec fn md5_of(data: Seq<u8>) -> Seq<u8>;

/// Relies on `chksum_hash_md5::new`: a state that has absorbed nothing.
#[verifier::external_body]
fn md5_new() -> (r: chksum_hash_md5::Update)
    ensures
        md5_absorbed(r) == Seq::<u8>::empty(),
{
    chksum_hash_md5::new()
}

/// Relies on `chksum_hash_md5::Update::update`: the data is appended to what
/// the state has absorbed (whole blocks are compressed, the rest is buffered).
#[verifier::external_body]
fn md5_update(state: &mut chksum_hash_md5::Update, data: &[u8])
    ensures
        md5_absorbed(*final(state)) == md5_absorbed(*old(state)) + data@,
{
    state.update(data);
}

/// Relies on `chksum_hash_md5::Update::reset`: the state returns to the
/// initial one.
#[verifier::external_body]
fn md5_reset(state: &mut chksum_hash_md5::Update)
    ensures
        md5_absorbed(*final(state)) == Seq::<u8>::empty(),
{
    state.reset();
}

/// Relies on `chksum_hash_md5::Update::digest`: the 16-byte MD5 digest of the
/// absorbed bytes, computed on a copy of the state.
#[verifier::external_body]
fn md5_digest(state: &chksum_hash_md5::Update) -> (r: Vec<u8>)
    ensures
        r@ == md5_of(md5_absorbed(*state)),
        r@.len() == 16,
{
    state.digest().as_bytes().to_vec()
}

/// An MD5 hash accumulator.
pub struct Md5 {
    state: chksum_hash_md5::Update,
}

/// An MD5 digest: 16 bytes.
#[derive(Debug, PartialEq, Eq)]
pub struct Md5Digest {
    bytes: Vec<u8>,
}

impl Md5 {
    /// The bytes fed since creation or the last reset.
    pub closed spec fn absorbed(&self) -> Seq<u8> {
        md5_absorbed(self.state)
    }
}

impl Default for Md5 {
    /// A hash in its initial state.
    fn default() -> (r: Self)
        ensures
            r.absorbed() == Seq::<u8>::empty(),
    {
        Md5 { state: md5_new() }
    }
}

impl Md5Digest {
    /// The digest's bytes.
    pub closed spec fn view(&self) -> Seq<u8> {
        self.bytes@
    }

    /// The digest's bytes, copied out.
    pub fn to_vec(&self) -> (r: Vec<u8>)
        ensures
            r@ == self.view(),
    {
        self.bytes.clone()
    }
}

impl Digest for Md5Digest {
    open spec fn bytes(&self) -> Seq<u8> {
        self.view()
    }

    fn as_bytes(&self) -> (r: &[u8]) {
        self.bytes.as_slice()
    }
}

impl crate::Hash for Md5 {
    type Digest = Md5Digest;

    open spec fn input(&self) -> Seq<u8> {
        self.absorbed()
    }

    open spec fn digest_of(data: Seq<u8>) -> Seq<u8> {
        md5_of(data)
    }

    fn new() -> (r: Self) {
        let r = Md5 { state: md5_new() };
        assert(r.input() == Seq::<u8>::empty());
        r
    }

    fn update(&mut self, data: &[u8]) {
        md5_update(&mut self.state, data);
        assert(self.input() == old(self).input() + data@);
    }

    fn reset(&mut self) {
        md5_reset(&mut self.state);
    }

    fn digest(&self) -> (r: Md5Digest) {
        let r = Md5Digest { bytes: md5_digest(&self.state) };
        assert(r.bytes() == md5_of(self.input()));
        r
    }
}

} // verus!
