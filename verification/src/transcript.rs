//! The Fiat-Shamir transcript.
//!
//! A [`Transcript`] is the running state that prover and verifier share. It
//! absorbs framed messages and gives out challenge scalars; each challenge is
//! a function of everything absorbed before it, in order. Its view is the
//! state as a byte string.
use vstd::prelude::*;
use crate::scalar::Scalar;
use crate::scalar::group_order;
use crate::scalar::le_value;

verus! {

/// The SHA-512 digest of `message` (64 bytes).
pub uninterp spec fn sha512_digest(message: Seq<u8>) -> Seq<u8>;

/// The first `count` bytes of the little-endian encoding of `n`.
pub open spec fn le_bytes(n: nat, count: nat) -> Seq<u8>
    decreases count,
{
    if count == 0 {
        Seq::empty()
    } else {
        seq![(n % 256) as u8] + le_bytes(n / 256, (count - 1) as nat)
    }
}

/// The state after `message` is absorbed: the message is appended behind its
/// length, written as eight little-endian bytes.
pub open spec fn absorb(state: Seq<u8>, message: Seq<u8>) -> Seq<u8> {
    state + le_bytes(message.len(), 8) + message
}

/// The challenge that a transcript in `state` gives out.
pub open spec fn challenge_of(state: Seq<u8>) -> nat {
    le_value(sha512_digest(state)) % group_order()
}

/// The state of a transcript after it has given out a challenge in `state`.
pub open spec fn state_after_challenge(state: Seq<u8>) -> Seq<u8> {
    sha512_digest(state)
}

/// The number of values that `count` bytes can encode: `256^count`.
pub open spec fn capacity(count: nat) -> nat
    decreases count,
{
    if count == 0 {
        1
    } else {
        256 * capacity((count - 1) as nat)
    }
}

/// The encoding of a length has as many bytes as asked for.
pub proof fn lemma_le_bytes_len(n: nat, count: nat)
    ensures
        le_bytes(n, count).len() == count,
    decreases count,
{
    if count > 0 {
        lemma_le_bytes_len(n / 256, (count - 1) as nat);
    }
}

/// Lengths that fit into `count` bytes are told apart by their encodings.
pub proof fn lemma_le_bytes_injective(n1: nat, n2: nat, count: nat)
    requires
        n1 < capacity(count),
        n2 < capacity(count),
        le_bytes(n1, count) == le_bytes(n2, count),
    ensures
        n1 == n2,
    decreases count,
{
    if count > 0 {
        let rest = (count - 1) as nat;
        let (e1, e2) = (le_bytes(n1, count), le_bytes(n2, count));
        assert(e1[0] == (n1 % 256) as u8);
        assert(e2[0] == (n2 % 256) as u8);
        assert(e1.drop_first() =~= le_bytes(n1 / 256, rest));
        assert(e2.drop_first() =~= le_bytes(n2 / 256, rest));
        lemma_le_bytes_injective(n1 / 256, n2 / 256, rest);
    }
}

/// The framing keeps messages apart: two pairs of messages that leave a
/// transcript in one state are the same pair. (So `"ab"` is not `"a"`, `"b"`.)
pub proof fn lemma_absorb_injective(
    state: Seq<u8>,
    a1: Seq<u8>,
    b1: Seq<u8>,
    a2: Seq<u8>,
    b2: Seq<u8>,
)
    requires
        a1.len() < capacity(8),
        a2.len() < capacity(8),
        b1.len() < capacity(8),
        b2.len() < capacity(8),
        absorb(absorb(state, a1), b1) == absorb(absorb(state, a2), b2),
    ensures
        a1 == a2,
        b1 == b2,
{
    let t1 = absorb(absorb(state, a1), b1);
    let t2 = absorb(absorb(state, a2), b2);
    let n = state.len() as int;
    lemma_le_bytes_len(a1.len(), 8);
    lemma_le_bytes_len(a2.len(), 8);
    lemma_le_bytes_len(b1.len(), 8);
    lemma_le_bytes_len(b2.len(), 8);
    assert(t1.subrange(n, n + 8) =~= le_bytes(a1.len(), 8));
    assert(t2.subrange(n, n + 8) =~= le_bytes(a2.len(), 8));
    lemma_le_bytes_injective(a1.len(), a2.len(), 8);
    let k = a1.len() as int;
    assert(t1.subrange(n + 8, n + 8 + k) =~= a1);
    assert(t2.subrange(n + 8, n + 8 + k) =~= a2);
    assert(t1.subrange(n + 8 + k, n + 16 + k) =~= le_bytes(b1.len(), 8));
    assert(t2.subrange(n + 8 + k, n + 16 + k) =~= le_bytes(b2.len(), 8));
    lemma_le_bytes_injective(b1.len(), b2.len(), 8);
    let j = b1.len() as int;
    assert(t1.subrange(n + 16 + k, n + 16 + k + j) =~= b1);
    assert(t2.subrange(n + 16 + k, n + 16 + k + j) =~= b2);
}

/// Hashes `message` with `sha2::Sha512` (`Digest::digest`) and returns the
/// 64-byte digest.
#[verifier::external_body]
fn sha512(message: &Vec<u8>) -> (digest: [u8; 64])
    ensures
        digest@ == sha512_digest(message@),
{
    <sha2::Sha512 as sha2::Digest>::digest(message).into()
}

/// An append-only Fiat-Shamir transcript.
#[derive(Clone, Debug)]
pub struct Transcript {
    state: Vec<u8>,
}

impl View for Transcript {
    type V = Seq<u8>;

    closed spec fn view(&self) -> Seq<u8> {
        self.state@
    }
}

impl Transcript {
    /// A transcript that has absorbed `label` and nothing else.
    pub fn new(label: &[u8]) -> (t: Transcript)
        ensures
            t@ == absorb(Seq::empty(), label@),
    {
        let mut t = Transcript { state: Vec::new() };
        t.commit(label);
        t
    }

    /// Absorbs `message`.
    pub fn commit(&mut self, message: &[u8])
        ensures
            final(self)@ == absorb(old(self)@, message@),
    {
        let mut len: u64 = message.len() as u64;
        let mut i: usize = 0;
        while i < 8
            invariant
                i <= 8,
                self.state@ + le_bytes(len as nat, (8 - i) as nat) == old(self).state@ + le_bytes(
                    message.len() as nat,
                    8,
                ),
            decreases 8 - i,
        {
            let ghost before = self.state@;
            self.state.push((len % 256) as u8);
            proof {
                assert(self.state@ + le_bytes((len / 256) as nat, (8 - i - 1) as nat) =~= before
                    + le_bytes(len as nat, (8 - i) as nat));
            }
            len = len / 256;
            i += 1;
        }
        let mut k: usize = 0;
        while k < message.len()
            invariant
                k <= message.len(),
                self.state@ == old(self).state@ + le_bytes(message.len() as nat, 8)
                    + message@.subrange(0, k as int),
            decreases message.len() - k,
        {
            self.state.push(message[k]);
            proof {
                assert(message@.subrange(0, k + 1) =~= message@.subrange(0, k as int).push(
                    message@[k as int],
                ));
            }
            k += 1;
        }
        proof {
            assert(message@.subrange(0, message.len() as int) =~= message@);
        }
    }

    /// Gives out the next challenge. The challenge depends on everything
    /// absorbed so far, and drawing it changes the state, so that a second
    /// draw gives another challenge.
    pub fn challenge_scalar(&mut self) -> (x: Scalar)
        ensures
            x@ == challenge_of(old(self)@),
            final(self)@ == state_after_challenge(old(self)@),
    {
        let digest = sha512(&self.state);
        let x = Scalar::from_bytes_mod_order_wide(&digest);
        let mut next: Vec<u8> = Vec::new();
        let mut i: usize = 0;
        while i < 64
            invariant
                i <= 64,
                next@ == digest@.subrange(0, i as int),
            decreases 64 - i,
        {
            next.push(digest[i]);
            proof {
                assert(digest@.subrange(0, i + 1) =~= digest@.subrange(0, i as int).push(
                    digest@[i as int],
                ));
            }
            i += 1;
        }
        proof {
            assert(digest@.subrange(0, 64) =~= digest@);
        }
        self.state = next;
        x
    }
}

} // verus!
