use cord::generators::{ExecutorSettings, RunLimit, SimpleFactory, SimpleProducer};
use cord::message::Message;
use cord::pattern::Pattern;

fn is_generated(p: &Pattern) -> bool {
    let s = p.as_str();
    s.len() == 6 && s.starts_with('/') && s[1..].chars().all(|c| c.is_ascii_alphabetic())
}

#[test]
fn factory_defaults() {
    let f = SimpleFactory::default();
    assert_eq!(f.get_consumers_per_client(), 2);
    assert!(is_generated(&f.gen_namespace()));
}

#[test]
fn first_client_subscribes_to_fresh_namespaces() {
    let mut f = SimpleFactory::default();
    let plan = f.new_client();
    assert!(is_generated(&plan.provider.0));
    assert_eq!(plan.subscriptions.len(), 2);
    for (ns, _) in plan.subscriptions.iter() {
        assert!(is_generated(ns));
    }
    assert_eq!(plan.producer.namespace, plan.provider.0);
    assert_eq!(plan.producer.message, "message");
    // the fresh subscriptions wait for a provider: the next client provides one
    let next = f.new_client();
    assert_eq!(next.provider, plan.subscriptions[1]);
}

#[test]
fn plan_with_given_namespaces() {
    let mut f = SimpleFactory::default();
    f.set_consumers_per_client(1);
    assert_eq!(f.fresh_needed(), 2);
    let plan = f.plan_client(vec![Pattern::new("/p"), Pattern::new("/s")]);
    assert_eq!(plan.provider, (Pattern::new("/p"), 0));
    assert_eq!(plan.subscriptions, vec![(Pattern::new("/s"), 1)]);
    assert_eq!(f.fresh_needed(), 0);
    let plan2 = f.plan_client(vec![]);
    assert_eq!(plan2.provider, (Pattern::new("/s"), 1));
    assert_eq!(plan2.subscriptions, vec![(Pattern::new("/p"), 0)]);
}

#[test]
fn producer_repeats_its_event() {
    let prod = SimpleProducer::new(Pattern::new("/n"), "message", 3);
    let m = prod.next_message();
    assert_eq!(m, Message::Event(Pattern::new("/n"), String::from("message")));
    assert_eq!(prod.counter, 3);
}

#[test]
fn settings_keep_one_limit() {
    let mut s = ExecutorSettings::new();
    assert_eq!(s.num_clients(), 5);
    assert_eq!(s.frequency_ns(), Some(200_000_000));
    assert_eq!(s.limit(), RunLimit::Times(100));
    s.set_duration(1_500_000_001);
    assert_eq!(s.limit(), RunLimit::For(1_500_000_001));
    s.set_num_messages(7);
    assert_eq!(s.limit(), RunLimit::Times(7));
    s.set_frequency(None);
    s.set_num_clients(3);
    assert_eq!(s.frequency_ns(), None);
    assert_eq!(s.num_clients(), 3);
}

#[test]
fn remembered_subscriptions_stay_bounded() {
    let mut f = SimpleFactory::default();
    for _ in 0..6 {
        let plan = f.new_client();
        assert_eq!(plan.subscriptions.len(), 2);
    }
    f.set_consumers_per_client(3);
    let plan = f.new_client();
    assert_eq!(plan.subscriptions.len(), 3);
}

#[test]
fn no_plan_without_a_subscription_to_drop() {
    let mut f = SimpleFactory::default();
    f.set_consumers_per_client(0);
    assert!(f.try_new_client().is_none());
    assert_eq!(f.fresh_needed(), 1);
    f.set_consumers_per_client(1);
    let plan = f.try_new_client().unwrap();
    assert_eq!(plan.subscriptions.len(), 1);
    // a subscription is now remembered, so a client with no consumers can
    // be planned: it drops that subscription
    f.set_consumers_per_client(0);
    let plan = f.try_new_client().unwrap();
    assert_eq!(plan.subscriptions.len(), 1);
}
