use sailfish::ident::Address;
use sailfish::network::receiver::{Receiver, RunnerEvent, RunnerStep};
use sailfish::network::simple_sender::{
    Connection, ConnectionEvent, ConnectionStep, Enqueue, SendStep, SimpleSender,
};

fn address(port: u16) -> Address {
    Address::V4 { ip: 0x7f00_0001, port }
}

fn addresses(n: u16) -> Vec<Address> {
    (0..n).map(address).collect()
}

#[test]
fn a_first_message_opens_a_connection() {
    let mut s = SimpleSender::new();
    let task = s.send(address(1));
    assert_eq!((task.waits, task.step), (true, SendStep::Open));
    let task = s.on_opened(task, 7, Enqueue::Sent);
    assert_eq!(task.step, SendStep::Finished(true));
    assert_eq!(s.send(address(1)).step, SendStep::Existing(7));
    assert_eq!(s.send_best_effort(address(1)).step, SendStep::Existing(7));
    assert!(!s.send_best_effort(address(1)).waits);
    assert_eq!(s.send(address(2)).step, SendStep::Open);
}

#[test]
fn a_connection_that_takes_no_message_is_not_kept() {
    let mut s = SimpleSender::default();
    let task = s.send_best_effort(address(1));
    let task = s.on_opened(task, 7, Enqueue::Full);
    assert_eq!(task.step, SendStep::Finished(false));
    assert_eq!(s.connections.len(), 0);
    let task = s.send_best_effort(address(1));
    assert_eq!(s.on_opened(task, 8, Enqueue::Closed).step, SendStep::Finished(false));
    assert_eq!(s.connections.len(), 0);
}

#[test]
fn a_full_connection_drops_and_a_closed_one_is_opened_anew() {
    let mut s = SimpleSender::new();
    let task = s.send(address(1));
    s.on_opened(task, 7, Enqueue::Sent);
    let task = s.send_best_effort(address(1));
    assert_eq!(SimpleSender::on_existing(task, Enqueue::Sent).step, SendStep::Finished(true));
    assert_eq!(SimpleSender::on_existing(task, Enqueue::Full).step, SendStep::Finished(false));
    let task = SimpleSender::on_existing(task, Enqueue::Closed);
    assert_eq!((task.address, task.step), (address(1), SendStep::Open));
    s.on_opened(task, 9, Enqueue::Sent);
    assert_eq!(s.send(address(1)).step, SendStep::Existing(9));
    assert_eq!(s.connections.len(), 1);
}

#[test]
fn a_broadcast_counts_what_is_dropped() {
    let mut b = SimpleSender::broadcast_best_effort(addresses(3));
    assert!(!b.waits);
    assert_eq!(b.next_peer(), Some(address(0)));
    b.on_finished(true);
    assert_eq!(b.next_peer(), Some(address(1)));
    b.on_finished(false);
    b.on_finished(false);
    assert_eq!((b.next_peer(), b.dropped), (None, 2));
    assert!(SimpleSender::broadcast(addresses(1)).waits);
    assert_eq!(SimpleSender::broadcast(vec![]).next_peer(), None);
}

#[test]
fn lucky_peers_are_some_of_the_peers() {
    let mut s = SimpleSender::new();
    let b = s.lucky_broadcast(addresses(20), 5);
    assert_eq!(b.addresses.len(), 5);
    assert!(b.waits);
    for a in &b.addresses {
        assert!(addresses(20).contains(a));
        assert_eq!(b.addresses.iter().filter(|x| *x == a).count(), 1);
    }
    let b = s.lucky_broadcast_best_effort(addresses(4), 9);
    assert_eq!(b.addresses.len(), 4);
    assert!(!b.waits);
    assert_eq!(s.lucky_broadcast(addresses(4), 0).addresses.len(), 0);
}

#[test]
fn lucky_peers_are_picked_at_random() {
    // Fifty peers in their first order, twenty times over, would not be luck.
    let mut s = SimpleSender::new();
    let mut moved = false;
    for _ in 0..20 {
        moved = moved || s.lucky_broadcast(addresses(50), 50).addresses != addresses(50);
    }
    assert!(moved);
}

#[test]
fn a_connection_ends_when_something_fails() {
    assert_eq!(Connection::step(ConnectionEvent::Unreachable), ConnectionStep::End(false));
    assert_eq!(Connection::step(ConnectionEvent::Connected), ConnectionStep::GoOn);
    assert_eq!(Connection::step(ConnectionEvent::Written(true)), ConnectionStep::GoOn);
    assert_eq!(Connection::step(ConnectionEvent::Written(false)), ConnectionStep::End(true));
    assert_eq!(Connection::step(ConnectionEvent::Reply(true)), ConnectionStep::GoOn);
    assert_eq!(Connection::step(ConnectionEvent::Reply(false)), ConnectionStep::End(true));
}

#[test]
fn an_incoming_connection_is_read_until_something_fails() {
    let step = |received, failed, peer_left, goes_on| RunnerStep { received, failed, peer_left, goes_on };
    assert_eq!(Receiver::on_event(RunnerEvent::Message(true)), step(true, false, false, true));
    assert_eq!(Receiver::on_event(RunnerEvent::Message(false)), step(true, true, false, false));
    assert_eq!(Receiver::on_event(RunnerEvent::BadFrame), step(false, true, false, false));
    assert_eq!(Receiver::on_event(RunnerEvent::Closed), step(false, false, true, false));
}

#[test]
fn addresses_of_both_families_are_told_apart() {
    let mut s = SimpleSender::new();
    let v6 = |scope_id| Address::V6 { ip6: 1, port: 1, flowinfo: 0, scope_id };
    for (i, a) in [address(1), v6(0), v6(1), address(2)].iter().enumerate() {
        let task = s.send(*a);
        assert_eq!(task.step, SendStep::Open);
        s.on_opened(task, i as u64, Enqueue::Sent);
    }
    assert_eq!(s.send(v6(1)).step, SendStep::Existing(2));
    assert_eq!(s.connections.len(), 4);
}
