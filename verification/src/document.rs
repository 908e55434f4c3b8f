//! Documents: identity, revisions and the content digest.
//!
//! A document is an opaque contents blob under a header of
//! `(collection, id, revision)`.  The revision pairs a sequence number,
//! which grows by exactly one on every successful update, with a
//! digest of the contents; update and delete operations present the
//! revision they read so that concurrent modification is detected.

use vstd::prelude::*;

verus! {

use crate::names::CollectionName;

/// The modulus of the content digest, a prime just below `2^32`.
pub open spec fn digest_modulus() -> nat {
    0xfffffffb
}

/// The digest of a contents blob: a running product-and-add fold of
/// its bytes, reduced modulo a fixed prime.
pub open spec fn content_digest(s: Seq<u8>) -> nat
    decreases s.len(),
{
    if s.len() == 0 {
        0x811c9dc5 as nat
    } else {
        (content_digest(s.drop_last()) * 31 + (s.last() as nat)) % digest_modulus()
    }
}

/// The digest always lies below the modulus, so it fits its field.
pub proof fn lemma_content_digest_bound(s: Seq<u8>)
    ensures
        content_digest(s) < digest_modulus(),
    decreases s.len(),
{
    if s.len() == 0 {
    } else {
        let d = content_digest(s.drop_last()) * 31 + s.last();
        vstd::arithmetic::div_mod::lemma_mod_bound(d as int, digest_modulus() as int);
    }
}

/// Computes the content digest of a blob.
pub fn digest(contents: &[u8]) -> (r: u64)
    ensures
        r as nat == content_digest(contents@),
{
    let n = contents.len();
    let mut acc: u64 = 0x811c9dc5;
    for i in 0..n
        invariant
            n == contents@.len(),
            acc as nat == content_digest(contents@.take(i as int)),
            acc < 0xfffffffb,
    {
        proof {
            assert(contents@.take(i + 1).drop_last() =~= contents@.take(i as int));
            assert(contents@.take(i + 1).last() == contents@[i as int]);
            vstd::arithmetic::div_mod::lemma_mod_bound(
                (acc * 31 + contents@[i as int]) as int,
                0xfffffffb,
            );
        }
        acc = (acc * 31 + (contents[i] as u64)) % 0xfffffffb;
    }
    proof {
        assert(contents@.take(n as int) =~= contents@);
    }
    acc
}

/// A revision of a document: how many times it has been written, and
/// the digest of what was written.
#[derive(Debug, Clone, Copy, PartialEq, Eq, Structural)]
pub struct Revision {
    /// The number of writes this document has seen; the first write
    /// stores one.
    pub sequence: u32,
    /// The content digest of the contents stored by this revision.
    pub digest: u64,
}

impl Revision {
    /// The revision's digest is the digest of `contents`.
    pub open spec fn matches_contents(&self, contents: Seq<u8>) -> bool {
        self.digest as nat == content_digest(contents)
    }

    /// The revision a document is born with.
    pub fn first(contents: &[u8]) -> (r: Revision)
        ensures
            r.sequence == 1,
            r.matches_contents(contents@),
    {
        Revision { sequence: 1, digest: digest(contents) }
    }

    /// The revision that follows this one when the document is
    /// rewritten with `contents`.
    pub fn next(&self, contents: &[u8]) -> (r: Revision)
        requires
            self.sequence < u32::MAX,
        ensures
            r.sequence == self.sequence + 1,
            r.matches_contents(contents@),
    {
        Revision { sequence: self.sequence + 1, digest: digest(contents) }
    }
}

/// The identity of a stored document: its collection, its id within
/// the collection, and the revision it was last written at.
#[derive(Debug, Clone)]
pub struct Header {
    /// The collection holding the document.
    pub collection: CollectionName,
    /// The document's id, unique within the collection.
    pub id: u64,
    /// The revision of the stored contents.
    pub revision: Revision,
}

/// A stored document: its header plus its contents blob.
#[derive(Debug, Clone)]
pub struct Document {
    /// The document's identity.
    pub header: Header,
    /// The opaque stored bytes.
    pub contents: Vec<u8>,
}

impl Document {
    /// The digest recorded in the header is the digest of the stored
    /// contents, and the sequence shows at least the initial write.
    pub open spec fn wf(&self) -> bool {
        self.header.revision.matches_contents(self.contents@) && self.header.revision.sequence >= 1
    }

    /// Assembles a newly inserted document at its first revision.
    pub fn new(collection: CollectionName, id: u64, contents: Vec<u8>) -> (r: Document)
        ensures
            r.wf(),
            r.header.collection == collection,
            r.header.id == id,
            r.header.revision.sequence == 1,
            r.contents@ == contents@,
    {
        let revision = Revision::first(contents.as_slice());
        Document { header: Header { collection, id, revision }, contents }
    }
}

} // verus!
