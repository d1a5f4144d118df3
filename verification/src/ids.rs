//! Identifiers for commits and file contents.
//!
//! A `ContentId` is the hash git assigns to a blob: the SHA-1 of the bytes
//! prefixed by a `blob <len>\0` header. Computing it here, rather than asking
//! the version-control library, keeps the computation verified end to end.

use vstd::prelude::*;
use vstd::string::StringSliceAdditionalSpecFns;

use crate::hashing::spec_sha1;
use crate::hashing::Sha1Hash;

verus! {

/// The ID of a commit as identified by the version-control store.
#[derive(Clone, Copy, Debug, Hash, PartialEq, Eq, Structural)]
pub struct CommitId(pub Sha1Hash);

/// Either an actual commit or the working directory.
#[derive(Clone, Copy, Debug, Hash, PartialEq, Eq, Structural)]
pub enum PseudoCommitId {
    CommitId(CommitId),
    WorkDir,
}

impl PseudoCommitId {
    /// Whether this names the working directory rather than a commit.
    pub fn is_work_dir(&self) -> (r: bool)
        ensures
            r == (*self is WorkDir),
    {
        match self {
            PseudoCommitId::WorkDir => true,
            _ => false,
        }
    }

    /// The commit id, for values that name one.
    pub fn try_as_commit_id(&self) -> (r: Option<CommitId>)
        ensures
            r == (match *self {
                PseudoCommitId::CommitId(c) => Some(c),
                PseudoCommitId::WorkDir => None::<CommitId>,
            }),
    {
        match self {
            PseudoCommitId::CommitId(c) => Some(*c),
            PseudoCommitId::WorkDir => None,
        }
    }
}

/// The SHA-1 hash of the content of a file, exactly as the version-control
/// store identifies a blob.
#[derive(Clone, Copy, Debug, Hash, PartialEq, Eq, Structural)]
pub struct ContentId(pub Sha1Hash);

/// The ASCII bytes of `n` in decimal, most significant digit first.
pub open spec fn dec_bytes(n: nat) -> Seq<u8>
    decreases n,
{
    if n < 10 {
        seq![(0x30 + n) as u8]
    } else {
        dec_bytes(n / 10).push((0x30 + n % 10) as u8)
    }
}

/// The bytes `blob `, the header tag of a blob object.
pub open spec fn blob_tag() -> Seq<u8> {
    seq![0x62u8, 0x6cu8, 0x6fu8, 0x62u8, 0x20u8]
}

/// A blob object: header `blob <len>\0` followed by the content bytes.
pub open spec fn blob_bytes(content: Seq<u8>) -> Seq<u8> {
    blob_tag() + dec_bytes(content.len()) + seq![0u8] + content
}

/// The content id of a byte sequence: the SHA-1 of its blob object.
pub open spec fn content_id_of(content: Seq<u8>) -> ContentId {
    ContentId(spec_sha1(blob_bytes(content)))
}

/// Append the decimal rendering of `n`.
fn push_decimal(v: &mut Vec<u8>, n: usize)
    ensures
        final(v)@ == old(v)@ + dec_bytes(n as nat),
    decreases n,
{
    if n < 10 {
        v.push(0x30 + n as u8);
        proof {
            assert(v@ =~= old(v)@ + dec_bytes(n as nat));
        }
    } else {
        push_decimal(v, n / 10);
        v.push(0x30 + (n % 10) as u8);
        proof {
            assert(v@ =~= old(v)@ + dec_bytes(n as nat));
        }
    }
}

impl ContentId {
    /// The content id of a string, from its UTF-8 bytes.
    pub fn from_content(content: &str) -> (r: ContentId)
        ensures
            r == content_id_of(content.spec_bytes()),
    {
        Self::from_bytes(content.as_bytes())
    }

    /// The content id of raw bytes.
    pub fn from_bytes(bytes: &[u8]) -> (r: ContentId)
        ensures
            r == content_id_of(bytes@),
    {
        let mut obj: Vec<u8> = Vec::new();
        obj.push(0x62);  // 'b'
        obj.push(0x6c);  // 'l'
        obj.push(0x6f);  // 'o'
        obj.push(0x62);  // 'b'
        obj.push(0x20);  // ' '
        proof {
            assert(obj@ =~= blob_tag());
        }
        push_decimal(&mut obj, bytes.len());
        obj.push(0);
        let n = bytes.len();
        let mut i: usize = 0;
        let ghost head = obj@;
        while i < n
            invariant
                n == bytes@.len(),
                i <= n,
                obj@ == head + bytes@.take(i as int),
            decreases n - i,
        {
            obj.push(bytes[i]);
            proof {
                assert(head + bytes@.take(i as int) + seq![bytes@[i as int]] =~= head + bytes@.take(
                    i + 1,
                ));
            }
            i = i + 1;
        }
        proof {
            assert(bytes@.take(n as int) =~= bytes@);
            assert(head + bytes@ =~= blob_bytes(bytes@));
        }
        ContentId(Sha1Hash::hash(obj.as_slice()))
    }
}

} // verus!
