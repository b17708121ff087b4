//! Fixed-width content identifiers.
//!
//! An [`Id`] is the eight-byte fingerprint of a byte string, computed with
//! the FNV-1a folding hash.  The hash is implemented here in verified code,
//! so the identifier of a byte string is a specification-level function of
//! the bytes alone: every path that fingerprints the same bytes — whether
//! it stores them or not — provably yields the same identifier.  The hash
//! is weak by design; callers needing collision resistance substitute a
//! store with a cryptographic fingerprint.

use vstd::prelude::*;

use crate::bytes::{le_bytes, le_vec, lemma_le_bytes_len};

verus! {

/// Width of an identifier in bytes.
pub const ID_WIDTH: usize = 8;

/// FNV-1a offset basis.
pub const FNV_OFFSET: u64 = 0xcbf29ce484222325;

/// FNV-1a prime.
pub const FNV_PRIME: u64 = 0x100000001b3;

/// One FNV-1a round: fold one byte into the running state.
pub open spec fn fnv_step(st: u64, b: u8) -> u64 {
    (((st ^ (b as u64)) as u128 * FNV_PRIME as u128) as u64)
}

/// FNV-1a state after folding a whole byte string into `st`.
pub open spec fn fnv_fold(st: u64, s: Seq<u8>) -> u64
    decreases s.len(),
{
    if s.len() == 0 {
        st
    } else {
        fnv_fold(fnv_step(st, s[0]), s.skip(1))
    }
}

/// The 64-bit fingerprint of a byte string.
pub open spec fn fnv64(s: Seq<u8>) -> u64 {
    fnv_fold(FNV_OFFSET, s)
}

/// The identifier bytes of a byte string: its fingerprint, little-endian.
pub open spec fn id_of(s: Seq<u8>) -> Seq<u8> {
    le_bytes(fnv64(s) as nat, ID_WIDTH as nat)
}

/// Folding is one byte at a time: appending a byte to the input applies
/// one more round to the folded state.
pub proof fn lemma_fnv_fold_push(st: u64, s: Seq<u8>, b: u8)
    ensures
        fnv_fold(st, s.push(b)) == fnv_step(fnv_fold(st, s), b),
    decreases s.len(),
{
    reveal_with_fuel(fnv_fold, 3);
    if s.len() == 0 {
        assert(s.push(b)[0] == b);
        assert(s.push(b).skip(1) =~= Seq::<u8>::empty());
    } else {
        assert(s.push(b)[0] == s[0]);
        assert(s.push(b).skip(1) =~= s.skip(1).push(b));
        lemma_fnv_fold_push(fnv_step(st, s[0]), s.skip(1), b);
    }
}

/// An eight-byte content identifier.
#[derive(Clone, Copy, PartialEq, Eq, Hash, Debug)]
pub struct Id {
    pub bytes: [u8; 8],
}

impl View for Id {
    type V = Seq<u8>;

    open spec fn view(&self) -> Seq<u8> {
        self.bytes@
    }
}

impl Id {
    /// Wraps a 64-bit fingerprint as an identifier.
    pub fn from_hash(h: u64) -> (id: Id)
        ensures
            id@ == le_bytes(h as nat, ID_WIDTH as nat),
    {
        let v = le_vec(h as u128, ID_WIDTH);
        proof {
            lemma_le_bytes_len(h as nat, ID_WIDTH as nat);
        }
        let id = Id { bytes: [v[0], v[1], v[2], v[3], v[4], v[5], v[6], v[7]] };
        proof {
            assert(id@ =~= v@);
        }
        id
    }

    /// The all-zero identifier.
    pub fn zero() -> (id: Id)
        ensures
            id@ == le_bytes(0, ID_WIDTH as nat),
    {
        Id::from_hash(0)
    }

    /// The identifier's bytes, low fingerprint byte first.
    pub fn as_bytes(&self) -> (out: &[u8])
        ensures
            out@ == self@,
    {
        self.bytes.as_slice()
    }

    /// Rebuilds an identifier from its eight bytes.
    pub fn from_bytes(b: &[u8]) -> (id: Id)
        requires
            b@.len() == 8,
        ensures
            id@ == b@,
    {
        let id = Id { bytes: [b[0], b[1], b[2], b[3], b[4], b[5], b[6], b[7]] };
        proof {
            assert(id@ =~= b@);
        }
        id
    }
}

/// Incremental fingerprinting: feed bytes in any number of slices, then
/// seal the builder into the identifier of their concatenation.
pub struct IdBuilder {
    state: u64,
    fed: Ghost<Seq<u8>>,
}

impl IdBuilder {
    /// The bytes folded in so far.
    pub closed spec fn fed(&self) -> Seq<u8> {
        self.fed@
    }

    /// The running state is the fold of everything fed so far.
    pub closed spec fn wf(&self) -> bool {
        self.state == fnv_fold(FNV_OFFSET, self.fed@)
    }

    /// A fresh builder that has seen no bytes.
    pub fn new() -> (b: IdBuilder)
        ensures
            b.wf(),
            b.fed() == Seq::<u8>::empty(),
    {
        IdBuilder { state: FNV_OFFSET, fed: Ghost(Seq::empty()) }
    }

    /// Folds `bytes` into the running state.
    pub fn update(&mut self, bytes: &[u8])
        requires
            old(self).wf(),
        ensures
            final(self).wf(),
            final(self).fed() == old(self).fed() + bytes@,
    {
        let n = bytes.len();
        let mut i: usize = 0;
        proof {
            assert(self.fed@ + bytes@.take(0) =~= self.fed@);
        }
        let ghost fed0 = self.fed@;
        while i < n
            invariant
                i <= n,
                n == bytes@.len(),
                self.fed@ == fed0 + bytes@.take(i as int),
                self.wf(),
            decreases n - i,
        {
            let ghost before = self.fed@;
            let b = bytes[i];
            let prod: u128 = ((self.state ^ (b as u64)) as u128) * (FNV_PRIME as u128);
            self.state = #[verifier::truncate] (prod as u64);
            proof {
                lemma_fnv_fold_push(FNV_OFFSET, before, b);
                assert(fed0 + bytes@.take(i + 1) =~= before.push(b));
            }
            self.fed = Ghost(before.push(b));
            i = i + 1;
        }
        proof {
            assert(fed0 + bytes@.take(n as int) =~= fed0 + bytes@);
        }
    }

    /// The 64-bit fingerprint of everything fed so far.
    pub fn fingerprint(&self) -> (h: u64)
        requires
            self.wf(),
        ensures
            h == fnv64(self.fed()),
    {
        self.state
    }

    /// Seals the builder: the identifier of everything fed.
    pub fn finalize(self) -> (id: Id)
        requires
            self.wf(),
        ensures
            id@ == id_of(self.fed()),
    {
        Id::from_hash(self.state)
    }
}

} // verus!
