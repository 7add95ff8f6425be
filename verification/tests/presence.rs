use skyscreen::presence::{
    greeter_reaction, handle_event, presence_reaction, GreeterAction, LinkWatch, NetworkEvent,
    NetworkEventType, PresenceAction, PresenceWatch,
};

fn ip(a: u8, b: u8, c: u8, d: u8) -> u32 {
    u32::from_be_bytes([a, b, c, d])
}

fn conn(i: u32) -> NetworkEvent {
    NetworkEvent { ip: i, ev: NetworkEventType::Connected }
}

fn left(i: u32) -> NetworkEvent {
    NetworkEvent { ip: i, ev: NetworkEventType::Left }
}

#[test]
fn connect_adds_once() {
    let a = ip(192, 168, 178, 29);
    let mut ips = vec![];
    assert!(handle_event(&mut ips, &conn(a)));
    assert_eq!(ips, vec![a]);
    assert!(!handle_event(&mut ips, &conn(a)));
    assert_eq!(ips, vec![a]);
}

#[test]
fn leave_removes_known_address() {
    let (a, b, c) = (ip(10, 0, 0, 1), ip(10, 0, 0, 2), ip(10, 0, 0, 3));
    let mut ips = vec![a, b, c];
    assert!(handle_event(&mut ips, &left(b)));
    assert_eq!(ips, vec![a, c]);
}

#[test]
fn leave_of_unknown_address_changes_nothing() {
    let mut ips = vec![ip(10, 0, 0, 1)];
    assert!(!handle_event(&mut ips, &left(ip(10, 0, 0, 9))));
    assert_eq!(ips, vec![ip(10, 0, 0, 1)]);
}

#[test]
fn connect_then_leave_restores() {
    let start = vec![ip(1, 2, 3, 4), ip(5, 6, 7, 8)];
    let mut ips = start.clone();
    let x = ip(9, 9, 9, 9);
    assert!(handle_event(&mut ips, &conn(x)));
    assert!(handle_event(&mut ips, &left(x)));
    assert_eq!(ips, start);
}

#[test]
fn link_watch_publishes_first_result() {
    let mut w = LinkWatch::new();
    assert_eq!(w.observe(true), Some(NetworkEventType::Connected));
    let mut w = LinkWatch::new();
    assert_eq!(w.observe(false), Some(NetworkEventType::Left));
}

#[test]
fn link_watch_needs_six_contrary_results() {
    let mut w = LinkWatch::new();
    assert_eq!(w.observe(true), Some(NetworkEventType::Connected));
    for _ in 0..5 {
        assert_eq!(w.observe(false), None);
    }
    assert_eq!(w.observe(false), Some(NetworkEventType::Left));
    assert_eq!(w.observe(false), None);
}

#[test]
fn link_watch_agreeing_result_resets() {
    let mut w = LinkWatch::new();
    w.observe(true);
    for _ in 0..5 {
        assert_eq!(w.observe(false), None);
    }
    assert_eq!(w.observe(true), None);
    for _ in 0..5 {
        assert_eq!(w.observe(false), None);
    }
    assert_eq!(w.observe(false), Some(NetworkEventType::Left));
}

#[test]
fn presence_watch_counts_interrupted_results() {
    let mut w = PresenceWatch::new();
    assert_eq!(w.observe(false), Some(false));
    for _ in 0..5 {
        assert_eq!(w.observe(true), None);
        assert_eq!(w.observe(false), None);
    }
    assert_eq!(w.observe(true), Some(true));
}

#[test]
fn greeter_reactions() {
    assert_eq!(greeter_reaction(false, 0), GreeterAction::Nothing);
    assert_eq!(greeter_reaction(true, 0), GreeterAction::Clear);
    assert_eq!(greeter_reaction(true, 1), GreeterAction::Greet);
    assert_eq!(greeter_reaction(true, 2), GreeterAction::Nothing);
}

#[test]
fn presence_reactions() {
    let mut last = false;
    assert_eq!(presence_reaction(false, &mut last), PresenceAction::Wait);
    assert!(!last);
    assert_eq!(presence_reaction(true, &mut last), PresenceAction::Greet);
    assert!(last);
    assert_eq!(presence_reaction(true, &mut last), PresenceAction::Wait);
    assert_eq!(presence_reaction(false, &mut last), PresenceAction::Clear);
    assert!(!last);
}
