use cord::message::Message;
use cord::pattern::Pattern;

#[test]
fn discriminants_round_trip() {
    let msgs = vec![
        Message::Provide(Pattern::new("/a")),
        Message::Revoke(Pattern::new("/a")),
        Message::Subscribe(Pattern::new("/a")),
        Message::Unsubscribe(Pattern::new("/a")),
        Message::Event(Pattern::new("/a"), String::from("data")),
    ];
    for (i, m) in msgs.iter().enumerate() {
        assert_eq!(m.poor_mans_discriminant() as usize, i);
        let data = if i == 4 { Some(String::from("data")) } else { None };
        let back = Message::from_poor_mans_discriminant(i as u8, Pattern::new("/a"), data);
        assert_eq!(&back, m);
        assert_eq!(back.namespace(), &Pattern::new("/a"));
    }
}

#[test]
fn event_equality_ignores_data() {
    assert_eq!(
        Message::Event(Pattern::new("/a"), String::from("x")),
        Message::Event(Pattern::new("/a"), String::from("y"))
    );
    assert_ne!(Message::Provide(Pattern::new("/a")), Message::Revoke(Pattern::new("/a")));
    assert_ne!(Message::Provide(Pattern::new("/a")), Message::Provide(Pattern::new("/b")));
}

#[test]
fn unwrap_gives_the_namespace() {
    assert_eq!(Message::Provide(Pattern::new("/p")).unwrap_provide(), Pattern::new("/p"));
    assert_eq!(Message::Revoke(Pattern::new("/r")).unwrap_revoke(), Pattern::new("/r"));
    assert_eq!(Message::Subscribe(Pattern::new("/s")).unwrap_subscribe(), Pattern::new("/s"));
    assert_eq!(Message::Unsubscribe(Pattern::new("/u")).unwrap_unsubscribe(), Pattern::new("/u"));
}

#[test]
fn message_contains_needs_same_kind() {
    let sub = Message::Provide(Pattern::new("/a"));
    assert!(sub.contains(&Message::Provide(Pattern::new("/a/b"))));
    assert!(!sub.contains(&Message::Revoke(Pattern::new("/a/b"))));
    assert!(!sub.contains(&Message::Provide(Pattern::new("/c"))));
}

#[test]
fn wildcard_covers_every_namespace() {
    let any = Message::Provide(Pattern::new("*"));
    assert!(any.contains(&Message::Provide(Pattern::new("/users"))));
    assert!(any.contains(&Message::Provide(Pattern::new("x"))));
    assert!(!any.contains(&Message::Subscribe(Pattern::new("/users"))));
}

#[test]
fn clone_keeps_the_data() {
    let m = Message::Event(Pattern::new("/a"), String::from("abc"));
    match m.clone() {
        Message::Event(p, d) => {
            assert_eq!(p, Pattern::new("/a"));
            assert_eq!(d, "abc");
        }
        _ => panic!("expected an event"),
    }
}
