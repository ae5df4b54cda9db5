use relay_node::PeerId;
use std::str::FromStr;

fn peer(tag: u8) -> PeerId {
    PeerId::from_bytes(vec![0, 1, tag]).expect("an identity multihash of one byte")
}

#[test]
fn bytes_of_an_identity_multihash_are_a_peer() {
    let p = peer(b'A');
    assert_eq!(p.as_bytes(), &[0u8, 1, b'A'][..]);
}

#[test]
fn text_is_libp2p_base58() {
    let bytes = vec![0u8, 1, b'A'];
    let expected = libp2p::PeerId::from_bytes(&bytes).unwrap().to_base58();
    let p = PeerId::from_bytes(bytes.clone()).unwrap();
    assert_eq!(p.to_base58(), expected);
    assert_eq!(p.to_base58(), "16Y");
    assert_ne!(p.to_base58().as_bytes(), &bytes[..]);
}

#[test]
fn text_parses_to_libp2p_bytes() {
    let theirs = libp2p::PeerId::from_str("16Y").unwrap();
    let ours = PeerId::from_base58("16Y").unwrap();
    assert_eq!(ours.as_bytes(), &theirs.to_bytes()[..]);
    assert_eq!(ours.as_bytes(), &[0u8, 1, b'A'][..]);
    assert_ne!(ours.as_bytes(), "16Y".as_bytes());
}

#[test]
fn peer_of_a_generated_key_round_trips() {
    let theirs = libp2p::identity::Keypair::generate_ed25519().public().to_peer_id();
    let ours = PeerId::from_bytes(theirs.to_bytes()).unwrap();
    assert_eq!(ours.to_base58(), theirs.to_base58());
    let again = PeerId::from_base58(&ours.to_base58()).unwrap();
    assert!(again.same_as(&ours));
    assert_eq!(again.as_bytes(), &theirs.to_bytes()[..]);
}

#[test]
fn bytes_that_are_no_multihash_are_no_peer() {
    assert!(PeerId::from_bytes(vec![]).is_none());
    assert!(PeerId::from_bytes(vec![0, 5, 1]).is_none());
    assert!(PeerId::from_bytes(vec![0, 1, 1, 1]).is_none());
}

#[test]
fn a_multihash_with_an_unsupported_code_is_no_peer() {
    assert!(libp2p::PeerId::from_bytes(&[0x11, 1, 7]).is_err());
    assert!(PeerId::from_bytes(vec![0x11, 1, 7]).is_none());
}

#[test]
fn text_that_is_no_base58_is_no_peer() {
    assert!(PeerId::from_base58("").is_none());
    assert!(PeerId::from_base58("not a peer id").is_none());
    assert!(PeerId::from_base58("0OIl").is_none());
}

#[test]
fn same_as_compares_bytes() {
    assert!(peer(b'A').same_as(&peer(b'A')));
    assert!(!peer(b'A').same_as(&peer(b'B')));
    let longer = PeerId::from_bytes(vec![0, 2, b'A', b'A']).unwrap();
    assert!(!peer(b'A').same_as(&longer));
}

#[test]
fn clone_is_the_same_peer() {
    let p = peer(b'Z');
    let q = p.clone();
    assert!(p.same_as(&q));
    assert_eq!(q.to_base58(), p.to_base58());
}

#[test]
fn equality_is_that_of_the_bytes() {
    assert_eq!(peer(b'A'), peer(b'A'));
    assert_ne!(peer(b'A'), peer(b'B'));
    assert_eq!(PeerId::from_base58("16Y").unwrap(), peer(b'A'));
}
