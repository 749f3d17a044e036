use tt::net::{Addr, Net, ANNOUNCE_INTERVAL_NS, PEER_TIMEOUT_NS};

fn names(d: &Net) -> Vec<(u64, String)> {
    d.peer_list().into_iter().map(|(id, p)| (id, p.name)).collect()
}

#[test]
fn new_discovery_is_empty() {
    let d = Net::new("Ann".to_string(), 4000);
    assert_eq!(d.name, "Ann");
    assert_eq!(d.game_port, 4000);
    assert!(d.peers.is_empty());
    assert!(d.last_announce.is_none());
}

#[test]
fn announce_at_most_every_interval() {
    let mut d = Net::new("Ann".to_string(), 4000);
    let a = d.announce(10).expect("first announce is due");
    assert_eq!(a.name, "Ann");
    assert_eq!(a.id, d.session_id);
    assert_eq!(a.game_port, 4000);
    assert!(d.announce(10 + ANNOUNCE_INTERVAL_NS - 1).is_none());
    assert!(d.announce(10 + ANNOUNCE_INTERVAL_NS).is_some());
    assert_eq!(d.last_announce, Some(10 + ANNOUNCE_INTERVAL_NS));
    // A clock reading before the last announcement counts as no time passed.
    assert!(d.announce(0).is_none());
}

#[test]
fn own_announcements_ignored() {
    let mut d = Net::new("Ann".to_string(), 4000);
    let own = d.session_id;
    d.record_announce(own, "Ann".to_string(), 1, 2, 0);
    assert!(d.peers.is_empty());
}

#[test]
fn announced_peer_is_listed() {
    let mut d = Net::new("Ann".to_string(), 4000);
    let id = d.session_id.wrapping_add(1);
    d.record_announce(id, "Bob".to_string(), 0x0a00_0007, 5555, 7);
    let list = d.peer_list();
    assert_eq!(list.len(), 1);
    assert_eq!(list[0].0, id);
    assert_eq!(list[0].1.name, "Bob");
    assert_eq!(list[0].1.addr, Addr { ip: 0x0a00_0007, port: 5555 });
    assert_eq!(list[0].1.last_seen, 7);
}

#[test]
fn later_announce_replaces_earlier() {
    let mut d = Net::new("Ann".to_string(), 4000);
    let id = d.session_id.wrapping_add(1);
    d.record_announce(id, "Bob".to_string(), 1, 1, 1);
    d.record_announce(id, "Bobby".to_string(), 2, 2, 2);
    assert_eq!(names(&d), vec![(id, "Bobby".to_string())]);
}

#[test]
fn lobby_sorted_by_name_then_id() {
    let mut d = Net::new("Ann".to_string(), 4000);
    let base = d.session_id.wrapping_add(10);
    for (k, name) in [(3u64, "carol"), (1, "Bob"), (2, "alice"), (4, "Bob"), (0, "Zed")] {
        d.record_announce(base.wrapping_add(k), name.to_string(), 1, 1, 1);
    }
    let got: Vec<String> = names(&d).into_iter().map(|(_, n)| n).collect();
    assert_eq!(got, vec!["Bob", "Bob", "Zed", "alice", "carol"]);
    let ids: Vec<u64> = names(&d).into_iter().map(|(id, _)| id).collect();
    let (a, b) = (base.wrapping_add(1), base.wrapping_add(4));
    assert_eq!(&ids[0..2], &[a.min(b), a.max(b)]);
}

#[test]
fn stale_peers_pruned() {
    let mut d = Net::new("Ann".to_string(), 4000);
    let id1 = d.session_id.wrapping_add(1);
    let id2 = d.session_id.wrapping_add(2);
    d.record_announce(id1, "old".to_string(), 1, 1, 100);
    d.record_announce(id2, "new".to_string(), 1, 1, 100 + PEER_TIMEOUT_NS);
    d.prune(100 + PEER_TIMEOUT_NS);
    assert_eq!(names(&d), vec![(id2, "new".to_string())]);
    d.prune(99 + 2 * PEER_TIMEOUT_NS);
    assert_eq!(names(&d).len(), 1);
    d.prune(100 + 2 * PEER_TIMEOUT_NS);
    assert!(d.peers.is_empty());
}
