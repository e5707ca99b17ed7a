use iroh_bitswap::ids::PeerId;
use iroh_bitswap::peer_set::PeerSet;

fn peer(n: u8) -> PeerId {
    PeerId::from_bytes(vec![0x00, 0x24, n, n.wrapping_mul(7)])
}

#[test]
fn peer_set_insert_remove_contains() {
    let mut s = PeerSet::new();
    assert!(s.is_empty());
    assert_eq!(s.len(), 0);
    assert!(s.insert(peer(1)));
    assert!(!s.insert(peer(1)));
    assert!(s.insert(peer(2)));
    assert_eq!(s.len(), 2);
    assert!(!s.is_empty());
    assert!(s.contains(&peer(1)));
    assert!(!s.contains(&peer(3)));
    assert!(s.remove(&peer(1)));
    assert!(!s.remove(&peer(1)));
    assert!(!s.contains(&peer(1)));
    assert_eq!(s.len(), 1);
}

#[test]
fn peer_set_to_vec_and_copy() {
    let peers = vec![peer(1), peer(2), peer(3), peer(2)];
    let s = PeerSet::from_peers(&peers);
    assert_eq!(s.len(), 3);
    let mut items = s.to_vec();
    items.sort_by(|a, b| a.bytes.cmp(&b.bytes));
    assert_eq!(items, vec![peer(1), peer(2), peer(3)]);
    let c = s.copy();
    assert_eq!(c.len(), 3);
    assert!(c.contains(&peer(3)));
    let mut u = PeerSet::new();
    u.insert(peer(9));
    u.extend(&s);
    assert_eq!(u.len(), 4);
}

#[test]
fn ids_compare_by_bytes() {
    assert!(peer(1).same(&peer(1)));
    assert!(!peer(1).same(&peer(2)));
    assert_eq!(peer(5).to_bytes(), vec![0x00, 0x24, 5, 35]);
    assert_eq!(peer(5).copy(), peer(5));
}
