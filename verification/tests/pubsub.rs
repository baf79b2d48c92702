use cord::broker::Broker;
use cord::message::Message;
use cord::pattern::Pattern;
use cord::subscriptions::{Subscriber, SubscriberId, SubscriptionTable};

fn p(s: &str) -> Pattern {
    Pattern::new(s)
}

fn ids_of(table: &SubscriptionTable, m: &Message) -> Vec<SubscriberId> {
    table.subscribers(m).unwrap().iter().map(|s| s.0).collect()
}

#[test]
fn test_on_link() {
    let mut broker = Broker::new();
    let h1 = broker.add_publisher();
    let h2 = broker.add_publisher();
    broker.on_link(h1, h2, (1, 2));
    let subs = broker.table(h1);
    assert_eq!(subs.subscribers(&Message::Provide(p("*"))).unwrap().len(), 1);
    assert_eq!(subs.subscribers(&Message::Revoke(p("*"))).unwrap().len(), 1);
}

#[test]
fn test_on_provide() {
    let mut broker = Broker::new();
    let h1 = broker.add_publisher();
    let h2 = broker.add_publisher();
    broker.on_provide(h1, &p("/a"), h2, (1, 2));
    let subs = broker.table(h1);
    assert_eq!(subs.subscribers(&Message::Subscribe(p("/a"))).unwrap().len(), 1);
    let subs = broker.table(h2);
    assert_eq!(subs.subscribers(&Message::Revoke(p("/a"))).unwrap().len(), 1);
}

#[test]
fn test_on_subscribe() {
    let mut broker = Broker::new();
    let h1 = broker.add_publisher();
    let h2 = broker.add_publisher();
    broker.on_subscribe(h1, &p("/a"), h2, (1, 2));
    let subs = broker.table(h2);
    assert_eq!(subs.subscribers(&Message::Unsubscribe(p("/a"))).unwrap().len(), 1);
    let subs = broker.table(h1);
    assert_eq!(subs.subscribers(&Message::Event(p("/a"), String::new())).unwrap().len(), 1);
}

#[test]
fn pubsub_test_subscribe() {
    let mut subs = SubscriptionTable::new();
    let message = Message::Provide(p("/a"));
    let id = subs.subscribe(message.clone(), Subscriber::RevokeChildren);
    assert!(ids_of(&subs, &message).contains(&id));
}

#[test]
fn test_unsubscribe_single() {
    let mut subs = SubscriptionTable::new();
    let message = Message::Provide(p("/a"));
    subs.subscribe_with_id(message.clone(), 7, Subscriber::RevokeChildren);
    subs.unsubscribe(&message, 7);
    assert!(!subs.contains_key(&message));
}

#[test]
fn test_unsubscribe_multiple() {
    let mut subs = SubscriptionTable::new();
    let message = Message::Provide(p("/a"));
    subs.subscribe_with_id(message.clone(), 1, Subscriber::RevokeChildren);
    subs.subscribe_with_id(message.clone(), 2, Subscriber::RevokeChildren);
    subs.unsubscribe(&message, 1);
    assert!(subs.contains_key(&message));
    assert!(!ids_of(&subs, &message).contains(&1));
    assert!(ids_of(&subs, &message).contains(&2));
}

#[test]
fn test_unsubscribe_children() {
    let mut subs = SubscriptionTable::new();
    let provide_a = Message::Provide(p("/a"));
    let provide_ab = Message::Provide(p("/a/b"));
    let provide_c = Message::Provide(p("/c"));
    let revoke_a = Message::Revoke(p("/a"));
    subs.subscribe_with_id(provide_a.clone(), 1, Subscriber::RevokeChildren);
    subs.subscribe_with_id(provide_ab.clone(), 2, Subscriber::RevokeChildren);
    subs.subscribe_with_id(provide_c.clone(), 3, Subscriber::RevokeChildren);
    subs.subscribe_with_id(revoke_a.clone(), 4, Subscriber::RevokeChildren);
    subs.unsubscribe_children(&Message::Provide(p("/a")));
    assert!(!subs.contains_key(&provide_a));
    assert!(!subs.contains_key(&provide_ab));
    assert!(subs.contains_key(&provide_c));
    assert!(subs.contains_key(&revoke_a));
}

#[test]
fn test_route_none() {
    let mut subs = SubscriptionTable::new();
    let message = Message::Subscribe(p("/a"));
    subs.subscribe_with_id(message.clone(), 5, Subscriber::DropSubscribe(0, 9));
    let told = subs.route(&Message::Provide(p("/b")), &vec![]);
    // The subscriber was not triggered
    assert!(told.is_empty());
    // The subscription is still there
    assert_eq!(subs.subscribers(&message).unwrap().len(), 1);
    assert!(ids_of(&subs, &message).contains(&5));
}

#[test]
fn test_route_retain() {
    let mut subs = SubscriptionTable::new();
    let message = Message::Subscribe(p("/a"));
    // This subscriber should remain after routing
    subs.subscribe_with_id(message.clone(), 1, Subscriber::ForwardSubscribe(0));
    // This one should be deleted during routing
    subs.subscribe_with_id(message.clone(), 2, Subscriber::DropSubscribe(0, 9));
    let told = subs.route(&message, &vec![]);
    // Both subscribers were triggered
    assert_eq!(told, vec![Subscriber::ForwardSubscribe(0), Subscriber::DropSubscribe(0, 9)]);
    // The one we expect to have retained is left
    assert_eq!(subs.subscribers(&message).unwrap().len(), 1);
    assert!(ids_of(&subs, &message).contains(&1));
}

#[test]
fn test_route_delete() {
    let mut subs = SubscriptionTable::new();
    let message = Message::Unsubscribe(p("/b"));
    subs.subscribe_with_id(message.clone(), 1, Subscriber::DropEvent(0, 9));
    let told = subs.route(&message, &vec![]);
    // The subscriber was triggered
    assert_eq!(told, vec![Subscriber::DropEvent(0, 9)]);
    // The table is empty
    assert_eq!(subs.len(), 0);
}

#[test]
fn test_subscriber_recv_consumer() {
    let mut broker = Broker::new();
    let me = broker.add_publisher();
    let client = broker.add_publisher();
    broker.on_subscribe(me, &p("/a"), client, (1, 2));
    let message = Message::Event(p("/a"), String::from("abc"));
    let to = broker.route(me, &message, &vec![true, true]);
    // The consumer receives the message and stays subscribed
    assert_eq!(to, vec![client]);
    let key = Message::Event(p("/a"), String::new());
    assert_eq!(broker.table(me).subscribers(&key).unwrap(), vec![(1, Subscriber::Consumer(client))]);
}

#[test]
fn test_subscriber_recv_task() {
    let mut subs = SubscriptionTable::new();
    let message = Message::Event(p("/a"), String::from("abc"));
    subs.subscribe_with_id(message.clone(), 3, Subscriber::RevokeChildren);
    let told = subs.route(&message, &vec![]);
    assert_eq!(told, vec![Subscriber::RevokeChildren]);
    assert!(subs.contains_key(&message));
}

#[test]
fn test_subscriber_recv_onetime_task() {
    let mut subs = SubscriptionTable::new();
    let message = Message::Event(p("/a"), String::from("abc"));
    subs.subscribe_with_id(message.clone(), 3, Subscriber::DropEvent(1, 4));
    let told = subs.route(&message, &vec![]);
    assert_eq!(told, vec![Subscriber::DropEvent(1, 4)]);
    assert!(!subs.contains_key(&message));
}

#[test]
fn closed_consumer_is_dropped() {
    let mut broker = Broker::new();
    let me = broker.add_publisher();
    let client = broker.add_publisher();
    broker.on_subscribe(me, &p("/a"), client, (1, 2));
    let message = Message::Event(p("/a/b"), String::from("x"));
    let to = broker.route(me, &message, &vec![true, false]);
    assert_eq!(to, vec![client]);
    assert_eq!(broker.table(me).len(), 0);
}

#[test]
fn linked_publishers_forward_events() {
    // Client 0 provides /users, client 1 subscribes to /users and then
    // receives client 0's events under it; once it unsubscribes it does not.
    let mut broker = Broker::new();
    let a = broker.add_publisher();
    let b = broker.add_publisher();
    broker.link(a, b);
    let open = vec![true, true];
    assert!(broker.route(a, &Message::Provide(p("/users")), &open).is_empty());
    assert!(broker.route(b, &Message::Subscribe(p("/users")), &open).is_empty());
    let ev = Message::Event(p("/users/add"), String::from("Mark has joined"));
    assert_eq!(broker.route(a, &ev, &open), vec![b]);
    assert!(broker.route(b, &Message::Unsubscribe(p("/users")), &open).is_empty());
    assert!(broker.route(a, &ev, &open).is_empty());
}

#[test]
fn revoke_ends_forwarding() {
    let mut broker = Broker::new();
    let a = broker.add_publisher();
    let b = broker.add_publisher();
    broker.link(a, b);
    let open = vec![true, true];
    broker.route(a, &Message::Provide(p("/g")), &open);
    broker.route(a, &Message::Revoke(p("/g")), &open);
    broker.route(b, &Message::Subscribe(p("/g")), &open);
    let ev = Message::Event(p("/g"), String::from("x"));
    assert!(broker.route(a, &ev, &open).is_empty());
}

#[test]
fn subscribe_with_same_id_replaces() {
    let mut subs = SubscriptionTable::new();
    let m = Message::Provide(p("/a"));
    subs.subscribe_with_id(m.clone(), 1, Subscriber::RevokeChildren);
    subs.subscribe_with_id(m.clone(), 1, Subscriber::ForwardProvide(3));
    assert_eq!(subs.subscribers(&m).unwrap(), vec![(1, Subscriber::ForwardProvide(3))]);
}

#[test]
fn subscribe_then_unsubscribe_leaves_no_trace() {
    let mut subs = SubscriptionTable::new();
    let a = Message::Provide(p("/a"));
    let b = Message::Revoke(p("/b"));
    subs.subscribe_with_id(a.clone(), 1, Subscriber::RevokeChildren);
    subs.subscribe_with_id(b.clone(), 2, Subscriber::Consumer(0));
    // a fresh id under an existing row, and under a new row
    subs.subscribe_with_id(a.clone(), 3, Subscriber::ForwardProvide(1));
    subs.unsubscribe(&a, 3);
    let c = Message::Subscribe(p("/c"));
    subs.subscribe_with_id(c.clone(), 4, Subscriber::ForwardSubscribe(1));
    subs.unsubscribe(&c, 4);
    assert_eq!(subs.len(), 2);
    assert_eq!(subs.subscribers(&a).unwrap(), vec![(1, Subscriber::RevokeChildren)]);
    assert_eq!(subs.subscribers(&b).unwrap(), vec![(2, Subscriber::Consumer(0))]);
    assert!(!subs.contains_key(&c));
}

#[test]
fn recipients_are_known_before_routing() {
    let mut broker = Broker::new();
    let me = broker.add_publisher();
    let c1 = broker.add_publisher();
    let c2 = broker.add_publisher();
    broker.on_subscribe(me, &p("/a"), c1, (1, 2));
    broker.on_subscribe(me, &p("/a/b"), c2, (3, 4));
    let message = Message::Event(p("/a/b"), String::from("x"));
    let other = Message::Event(p("/z"), String::from("x"));
    assert_eq!(broker.recipients(me, &message), vec![c1, c2]);
    assert!(broker.recipients(me, &other).is_empty());
    assert!(broker.recipients(7, &message).is_empty());
    // asking changes nothing; a consumer refusing the message is then
    // dropped by the routing that follows
    assert_eq!(broker.table(me).len(), 2);
    let to = broker.route(me, &message, &vec![true, true, false]);
    assert_eq!(to, vec![c1, c2]);
    assert_eq!(broker.table(me).len(), 1);
    assert_eq!(broker.recipients(me, &message), vec![c1]);
}

#[test]
fn told_lists_every_covering_row() {
    let mut subs = SubscriptionTable::new();
    subs.subscribe_with_id(Message::Event(p("/a"), String::new()), 1, Subscriber::Consumer(4));
    subs.subscribe_with_id(Message::Event(p("/a"), String::new()), 2, Subscriber::RevokeChildren);
    subs.subscribe_with_id(Message::Event(p("/b"), String::new()), 3, Subscriber::Consumer(5));
    let m = Message::Event(p("/a/x"), String::from("d"));
    assert_eq!(subs.told(&m), vec![Subscriber::Consumer(4), Subscriber::RevokeChildren]);
    assert_eq!(subs.len(), 2);
}
