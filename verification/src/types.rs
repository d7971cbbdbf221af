//! Plain data carried through the replication logic: content digests,
//! peer addresses, machine identifiers and virtual paths.

use vstd::prelude::*;

verus! {

/// Number of bytes in a content digest (BLAKE2b with a 256-bit output).
pub const DIGEST_LEN: usize = 32;

/// A fixed-width content digest.  Both image identifiers (the digest of
/// an index blob) and block hashes (the digest of one block's bytes)
/// are values of this type.
pub struct Hash256 {
    pub bytes: Vec<u8>,
}

impl View for Hash256 {
    type V = Seq<u8>;

    open spec fn view(&self) -> Seq<u8> {
        self.bytes@
    }
}

impl Hash256 {
    /// A digest is well formed when it holds exactly `DIGEST_LEN` bytes.
    pub open spec fn wf(&self) -> bool {
        self.bytes@.len() == DIGEST_LEN
    }

    pub fn new(bytes: Vec<u8>) -> (r: Option<Hash256>)
        ensures
            bytes@.len() == DIGEST_LEN ==> (r matches Some(h) && h@ == bytes@ && h.wf()),
            bytes@.len() != DIGEST_LEN ==> r is None,
    {
        if bytes.len() == DIGEST_LEN {
            Some(Hash256 { bytes })
        } else {
            None
        }
    }

    pub fn clone_hash(&self) -> (r: Hash256)
        ensures
            r@ == self@,
            r.wf() == self.wf(),
    {
        let mut out: Vec<u8> = Vec::new();
        let mut i: usize = 0;
        while i < self.bytes.len()
            invariant
                i <= self.bytes@.len(),
                out@ == self.bytes@.subrange(0, i as int),
            decreases self.bytes@.len() - i,
        {
            out.push(self.bytes[i]);
            i = i + 1;
        }
        proof {
            assert(out@ =~= self.bytes@);
        }
        Hash256 { bytes: out }
    }

    /// Byte-for-byte equality of two digests.
    pub fn same(&self, other: &Hash256) -> (r: bool)
        ensures
            r == (self@ == other@),
    {
        if self.bytes.len() != other.bytes.len() {
            proof {
                assert(self@ != other@);
            }
            return false;
        }
        let mut i: usize = 0;
        while i < self.bytes.len()
            invariant
                i <= self.bytes@.len(),
                self.bytes@.len() == other.bytes@.len(),
                forall|j: int| 0 <= j < i ==> self.bytes@[j] == other.bytes@[j],
            decreases self.bytes@.len() - i,
        {
            if self.bytes[i] != other.bytes[i] {
                proof {
                    assert(self@[i as int] != other@[i as int]);
                }
                return false;
            }
            i = i + 1;
        }
        proof {
            assert(self@ =~= other@);
        }
        true
    }
}

/// A peer's socket address, held as plain numbers so that the logic can
/// compare and store it.  The surrounding program converts real socket
/// addresses to and from this form.
#[derive(Clone, Copy, PartialEq, Eq, Debug, Structural)]
pub struct PeerAddr {
    pub ip: u32,
    pub port: u16,
}

/// A daemon's stable machine identifier, reduced to the integer key the
/// logic needs for map lookups.
pub type MachineId = u64;

/// A virtual path: the cluster-wide, slash-separated name under which an
/// image is placed.  Held as bytes; the first byte must be a slash.
pub struct VPath {
    pub bytes: Vec<u8>,
}

impl View for VPath {
    type V = Seq<u8>;

    open spec fn view(&self) -> Seq<u8> {
        self.bytes@
    }
}

impl VPath {
    /// A virtual path is absolute: nonempty and starting with `/` (byte 47).
    pub open spec fn wf(&self) -> bool {
        self.bytes@.len() > 0 && self.bytes@[0] == 47u8
    }

    pub fn new(bytes: Vec<u8>) -> (r: Option<VPath>)
        ensures
            (bytes@.len() > 0 && bytes@[0] == 47u8) ==> (r matches Some(p) && p@ == bytes@
                && p.wf()),
            !(bytes@.len() > 0 && bytes@[0] == 47u8) ==> r is None,
    {
        if bytes.len() > 0 && bytes[0] == 47u8 {
            Some(VPath { bytes })
        } else {
            None
        }
    }

    pub fn clone_path(&self) -> (r: VPath)
        ensures
            r@ == self@,
            r.wf() == self.wf(),
    {
        let mut out: Vec<u8> = Vec::new();
        let mut i: usize = 0;
        while i < self.bytes.len()
            invariant
                i <= self.bytes@.len(),
                out@ == self.bytes@.subrange(0, i as int),
            decreases self.bytes@.len() - i,
        {
            out.push(self.bytes[i]);
            i = i + 1;
        }
        proof {
            assert(out@ =~= self.bytes@);
        }
        VPath { bytes: out }
    }

    /// Byte-for-byte equality of two virtual paths.
    pub fn same(&self, other: &VPath) -> (r: bool)
        ensures
            r == (self@ == other@),
    {
        if self.bytes.len() != other.bytes.len() {
            proof {
                assert(self@ != other@);
            }
            return false;
        }
        let mut i: usize = 0;
        while i < self.bytes.len()
            invariant
                i <= self.bytes@.len(),
                self.bytes@.len() == other.bytes@.len(),
                forall|j: int| 0 <= j < i ==> self.bytes@[j] == other.bytes@[j],
            decreases self.bytes@.len() - i,
        {
            if self.bytes[i] != other.bytes[i] {
                proof {
                    assert(self@[i as int] != other@[i as int]);
                }
                return false;
            }
            i = i + 1;
        }
        proof {
            assert(self@ =~= other@);
        }
        true
    }
}

/// Byte-for-byte equality of two byte vectors.
pub fn bytes_eq(a: &Vec<u8>, b: &Vec<u8>) -> (r: bool)
    ensures
        r == (a@ == b@),
{
    if a.len() != b.len() {
        proof {
            assert(a@ != b@);
        }
        return false;
    }
    let mut i: usize = 0;
    while i < a.len()
        invariant
            i <= a@.len(),
            a@.len() == b@.len(),
            forall|j: int| 0 <= j < i ==> a@[j] == b@[j],
        decreases a@.len() - i,
    {
        if a[i] != b[i] {
            proof {
                assert(a@[i as int] != b@[i as int]);
            }
            return false;
        }
        i = i + 1;
    }
    proof {
        assert(a@ =~= b@);
    }
    true
}

} // verus!
