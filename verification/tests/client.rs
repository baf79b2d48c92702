use cord::message::Message;
use cord::pattern::Pattern;
use cord::receivers::Receivers;

#[test]
fn lib_test_subscribe() {
    let mut receivers = Receivers::new();
    receivers.add_receiver(Pattern::new("/a/b"), 1);
    assert!(receivers.contains_key(&Pattern::new("/a/b")));
}

#[test]
fn test_unsubscribe() {
    let mut receivers = Receivers::new();
    receivers.add_receiver(Pattern::new("/a/b"), 1);
    receivers.remove_namespace(&Pattern::new("/a/b"));
    assert_eq!(receivers.len(), 0);
}

#[test]
fn test_route() {
    let mut receivers = Receivers::new();
    receivers.add_receiver(Pattern::new("/a/b"), 10);
    let event_msg = Message::Event(Pattern::new("/a/b"), String::from("Moo!"));
    assert_eq!(receivers.targets(&event_msg), vec![10]);
    receivers.retain_delivered(&event_msg, &vec![true]);
    assert!(receivers.contains_key(&Pattern::new("/a/b")));
}

#[test]
fn test_route_norecv() {
    let mut receivers = Receivers::new();
    receivers.add_receiver(Pattern::new("/a/b"), 10);
    let event_msg = Message::Event(Pattern::new("/a/b"), String::from("Moo!"));
    let targets = receivers.targets(&event_msg);
    receivers.retain_delivered(&event_msg, &vec![false; targets.len()]);
    assert_eq!(receivers.len(), 0);
}

#[test]
fn route_reaches_containing_namespaces() {
    let mut receivers = Receivers::new();
    receivers.add_receiver(Pattern::new("/a"), 1);
    receivers.add_receiver(Pattern::new("/a/b"), 2);
    receivers.add_receiver(Pattern::new("/c"), 3);
    receivers.add_receiver(Pattern::new("/a"), 4);
    let m = Message::Event(Pattern::new("/a/b"), String::from("x"));
    assert_eq!(receivers.targets(&m), vec![1, 4, 2]);
    receivers.retain_delivered(&m, &vec![true, false, true]);
    assert_eq!(receivers.receivers_of(&Pattern::new("/a")), Some(vec![1]));
    assert_eq!(receivers.receivers_of(&Pattern::new("/a/b")), Some(vec![2]));
    assert_eq!(receivers.receivers_of(&Pattern::new("/c")), Some(vec![3]));
}
