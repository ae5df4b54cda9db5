//! Peer identities.
//!
//! A peer is identified by the multihash bytes of its libp2p peer id. The
//! textual form used on the wire is libp2p's base58 encoding of those bytes.

use std::str::FromStr;
use vstd::prelude::*;
use vstd::std_specs::cmp::PartialEqSpecImpl;

verus! {

/// The base58 text libp2p prints for the peer id with the given multihash
/// bytes, or `None` where the bytes are not a peer id.
pub uninterp spec fn base58_of_bytes(bytes: Seq<u8>) -> Option<Seq<char>>;

/// The multihash bytes of the peer id libp2p parses from the given text, or
/// `None` where the text is not a peer id.
pub uninterp spec fn bytes_of_base58(text: Seq<char>) -> Option<Seq<u8>>;

/// Bytes that libp2p accepts as a peer id and whose text parses back to them.
pub open spec fn is_peer_bytes(bytes: Seq<u8>) -> bool {
    base58_of_bytes(bytes) matches Some(text) && bytes_of_base58(text) == Some(bytes)
}

/// The peer that a text names: the bytes libp2p parses from it, where they
/// are a peer's bytes.
pub open spec fn parsed_peer(text: Seq<char>) -> Option<Seq<u8>> {
    match bytes_of_base58(text) {
        Some(bytes) => if is_peer_bytes(bytes) {
            Some(bytes)
        } else {
            None
        },
        None => None,
    }
}

/// The text of a peer: libp2p's base58 encoding of its bytes.
pub open spec fn peer_text(peer: Seq<u8>) -> Seq<char>
    recommends
        is_peer_bytes(peer),
{
    base58_of_bytes(peer)->Some_0
}

/// A peer's text names the peer.
pub proof fn lemma_peer_text_parses(peer: Seq<u8>)
    requires
        is_peer_bytes(peer),
    ensures
        parsed_peer(peer_text(peer)) == Some(peer),
{
}

/// Calls `libp2p::PeerId::from_bytes` and, on success, `PeerId::to_base58`.
/// Trusted: the outcome is a function of the bytes alone, named
/// [`base58_of_bytes`].
#[verifier::external_body]
fn encode_base58(bytes: &[u8]) -> (text: Option<String>)
    ensures
        text matches Some(t) ==> base58_of_bytes(bytes@) == Some(t@),
        text is None ==> base58_of_bytes(bytes@) is None,
{
    libp2p::PeerId::from_bytes(bytes).ok().map(|id| id.to_base58())
}

/// Calls `libp2p::PeerId::from_str` and, on success, `PeerId::to_bytes`.
/// Trusted: the outcome is a function of the text alone, named
/// [`bytes_of_base58`].
#[verifier::external_body]
fn decode_base58(text: &str) -> (bytes: Option<Vec<u8>>)
    ensures
        bytes matches Some(b) ==> bytes_of_base58(text@) == Some(b@),
        bytes is None ==> bytes_of_base58(text@) is None,
{
    libp2p::PeerId::from_str(text).ok().map(|id| id.to_bytes())
}

/// Whether two byte strings hold the same bytes.
pub(crate) fn bytes_equal(a: &[u8], b: &[u8]) -> (same: bool)
    ensures
        same == (a@ == b@),
{
    if a.len() != b.len() {
        return false;
    }
    let mut i: usize = 0;
    while i < a.len()
        invariant
            a@.len() == b@.len(),
            i <= a@.len(),
            forall|j: int| 0 <= j < i ==> a@[j] == b@[j],
        decreases a@.len() - i,
    {
        if a[i] != b[i] {
            return false;
        }
        i += 1;
    }
    assert(a@ =~= b@);
    true
}

/// Identity of a node.
#[derive(Debug)]
pub struct PeerId {
    bytes: Vec<u8>,
}

impl View for PeerId {
    type V = Seq<u8>;

    closed spec fn view(&self) -> Seq<u8> {
        self.bytes@
    }
}

impl PeerId {
    #[verifier::type_invariant]
    spec fn valid(self) -> bool {
        is_peer_bytes(self.bytes@)
    }

    /// The peer with the given multihash bytes, where they are a peer id.
    pub fn from_bytes(bytes: Vec<u8>) -> (peer: Option<PeerId>)
        ensures
            peer is Some <==> is_peer_bytes(bytes@),
            peer matches Some(p) ==> p@ == bytes@,
    {
        match encode_base58(bytes.as_slice()) {
            None => None,
            Some(text) => match decode_base58(text.as_str()) {
                None => None,
                Some(back) => if bytes_equal(back.as_slice(), bytes.as_slice()) {
                    Some(PeerId { bytes })
                } else {
                    None
                },
            },
        }
    }

    /// The peer written as the given base58 text, where it is a peer id.
    pub fn from_base58(text: &str) -> (peer: Option<PeerId>)
        ensures
            peer is Some <==> parsed_peer(text@) is Some,
            peer matches Some(p) ==> parsed_peer(text@) == Some(p@),
    {
        match decode_base58(text) {
            None => None,
            Some(bytes) => PeerId::from_bytes(bytes),
        }
    }

    /// The peer's base58 text.
    pub fn to_base58(&self) -> (text: String)
        ensures
            is_peer_bytes(self@),
            text@ == peer_text(self@),
    {
        proof {
            use_type_invariant(self);
        }
        encode_base58(self.bytes.as_slice()).unwrap()
    }

    /// The peer's multihash bytes.
    pub fn as_bytes(&self) -> (bytes: &[u8])
        ensures
            bytes@ == self@,
            is_peer_bytes(self@),
    {
        proof {
            use_type_invariant(self);
        }
        self.bytes.as_slice()
    }

    /// Whether `self` and `other` are the same peer.
    pub fn same_as(&self, other: &PeerId) -> (same: bool)
        ensures
            same == (self@ == other@),
    {
        bytes_equal(self.bytes.as_slice(), other.bytes.as_slice())
    }
}

impl PartialEq for PeerId {
    fn eq(&self, other: &PeerId) -> (equal: bool) {
        self.same_as(other)
    }
}

impl PartialEqSpecImpl for PeerId {
    open spec fn obeys_eq_spec() -> bool {
        true
    }

    open spec fn eq_spec(&self, other: &PeerId) -> bool {
        self@ == other@
    }
}

impl Eq for PeerId {}

impl Clone for PeerId {
    fn clone(&self) -> (copy: PeerId)
        ensures
            copy@ == self@,
    {
        proof {
            use_type_invariant(self);
        }
        let bytes = self.bytes.clone();
        assert(bytes@ =~= self.bytes@);
        PeerId { bytes }
    }
}

} // verus!
