//! The content digest: MD5, written as lower-case hexadecimal text.

use vstd::prelude::*;
use crate::hexcode::{encode_hex, hex_lower};

verus! {

#[verifier::external_type_specification]
#[verifier::external_body]
pub struct ExContext(md5::Context);

/// The sixteen-byte MD5 digest of `data`.
pub uninterp spec fn md5_digest(data: Seq<u8>) -> Seq<u8>;

/// The bytes that a digest context has been fed since it was created, in
/// the order in which it got them.
pub uninterp spec fn consumed(context: md5::Context) -> Seq<u8>;

/// `md5::Context::new`. The contract claims that a fresh context has been
/// fed nothing.
#[verifier::external_body]
pub(crate) fn context_new() -> (context: md5::Context)
    ensures
        consumed(context) == Seq::<u8>::empty(),
{
    md5::Context::new()
}

/// `md5::Context::consume`. The contract claims that the context has then
/// been fed `data` after everything it had been fed before, however the
/// bytes were split over calls.
#[verifier::external_body]
pub(crate) fn context_consume(context: &mut md5::Context, data: &[u8])
    ensures
        consumed(*final(context)) == consumed(*old(context)) + data@,
{
    context.consume(data)
}

/// `md5::Context::compute` on a copy of the context, which stays usable. The
/// contract claims that the result is the MD5 digest of all the bytes that
/// the context has been fed.
#[verifier::external_body]
pub(crate) fn context_digest(context: &md5::Context) -> (digest: [u8; 16])
    ensures
        digest@ == md5_digest(consumed(*context)),
{
    context.clone().compute().0
}

/// The digest of `data` as it is written in target lists and file names.
pub open spec fn digest_text(data: Seq<u8>) -> Seq<char> {
    hex_lower(md5_digest(data))
}

/// A digest that grows with its input: after each byte the digest of
/// everything fed so far can be read off without hashing it again.
pub struct RunningDigest {
    context: md5::Context,
}

impl RunningDigest {
    /// The bytes fed so far.
    pub closed spec fn view(&self) -> Seq<u8> {
        consumed(self.context)
    }

    /// A running digest that has been fed nothing.
    pub fn new() -> (running: RunningDigest)
        ensures
            running@ == Seq::<u8>::empty(),
    {
        RunningDigest { context: context_new() }
    }

    /// Feeds `data` after what was fed before.
    pub fn update(&mut self, data: &[u8])
        ensures
            final(self)@ == old(self)@ + data@,
    {
        context_consume(&mut self.context, data);
    }

    /// The digest text of everything fed so far.
    pub fn hex(&self) -> (text: String)
        ensures
            text@ == digest_text(self@),
    {
        let digest = context_digest(&self.context);
        encode_hex(digest.as_slice())
    }
}

/// Computes the digest of `data` and writes it as lower-case hexadecimal.
pub fn digest_hex(data: &[u8]) -> (text: String)
    ensures
        text@ == digest_text(data@),
{
    let mut running = RunningDigest::new();
    running.update(data);
    assert(running@ =~= data@);
    running.hex()
}

} // verus!
