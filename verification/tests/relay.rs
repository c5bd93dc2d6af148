use udp_chat::relay::{plan_forward, Membership, PeerAddr};

#[test]
fn first_sender_gets_no_targets() {
    let mut table = Membership::new();
    let x = PeerAddr { ip: 10, port: 4000 };
    let targets = plan_forward(&mut table, x);
    assert_eq!(targets.len(), 0);
    assert_eq!(table.len(), 1);
}

#[test]
fn relay_scenario_two_senders() {
    let mut table = Membership::new();
    let x = PeerAddr { ip: 10, port: 4000 };
    let y = PeerAddr { ip: 11, port: 4001 };
    // "1:hi" arrives from x while nobody else is known: forwarded to nobody.
    let first = plan_forward(&mut table, x);
    assert_eq!(first, vec![]);
    // "2:yo" then arrives from the previously unknown y: forwarded to x only.
    let second = plan_forward(&mut table, y);
    assert_eq!(second, vec![x]);
}

#[test]
fn datagram_goes_to_all_other_members_never_back() {
    let mut table = Membership::new();
    let a = PeerAddr { ip: 1, port: 1 };
    let b = PeerAddr { ip: 2, port: 2 };
    let c = PeerAddr { ip: 3, port: 3 };
    plan_forward(&mut table, a);
    plan_forward(&mut table, b);
    plan_forward(&mut table, c);
    let targets = plan_forward(&mut table, a);
    assert_eq!(targets.len(), 2);
    assert!(targets.contains(&b));
    assert!(targets.contains(&c));
    assert!(!targets.contains(&a));
}

#[test]
fn membership_only_grows_and_never_duplicates() {
    let mut table = Membership::new();
    let a = PeerAddr { ip: 1, port: 1 };
    let b = PeerAddr { ip: 2, port: 2 };
    assert_eq!(table.len(), 0);
    table.observe(a);
    assert_eq!(table.len(), 1);
    table.observe(a);
    assert_eq!(table.len(), 1);
    table.observe(b);
    assert_eq!(table.len(), 2);
    let mut sizes = Vec::new();
    for addr in [a, b, a, b, a] {
        table.observe(addr);
        sizes.push(table.len());
    }
    for w in sizes.windows(2) {
        assert!(w[0] <= w[1]);
    }
    assert_eq!(table.len(), 2);
}

#[test]
fn observation_is_keyed_by_the_whole_address() {
    let mut table = Membership::new();
    table.observe(PeerAddr { ip: 1, port: 1 });
    table.observe(PeerAddr { ip: 1, port: 2 });
    table.observe(PeerAddr { ip: 2, port: 1 });
    assert_eq!(table.len(), 3);
    assert!(table.contains(PeerAddr { ip: 1, port: 1 }));
    assert!(!table.contains(PeerAddr { ip: 2, port: 2 }));
}

#[test]
fn snapshot_excludes_only_the_sender() {
    let mut table = Membership::new();
    let a = PeerAddr { ip: 1, port: 1 };
    let b = PeerAddr { ip: 2, port: 2 };
    table.observe(a);
    table.observe(b);
    let outsider = PeerAddr { ip: 9, port: 9 };
    let all = table.snapshot_except(outsider);
    assert_eq!(all.len(), 2);
    let others = table.snapshot_except(a);
    assert_eq!(others, vec![b]);
}
