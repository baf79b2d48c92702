//! The messages that clients and brokers exchange.
use vstd::prelude::*;
use vstd::utf8::*;
use crate::pattern::{Pattern, pattern_contains};

verus! {

broadcast use vstd::utf8::group_utf8_lib;

/// The discriminant that marks an `Event` on the wire.
pub const EVENT_DISCRIMINANT: u8 = 4;

/// A message between a client and a broker.
#[derive(Debug)]
pub enum Message {
    /// The sender will publish events under the namespace.
    Provide(Pattern),
    /// The sender stops publishing under the namespace.
    Revoke(Pattern),
    /// The sender wants the events under the namespace.
    Subscribe(Pattern),
    /// The sender no longer wants the events under the namespace.
    Unsubscribe(Pattern),
    /// An event under the namespace, with its data.
    Event(Pattern, String),
}

/// The mathematical value of a message: its kind, its namespace and, for
/// an event, its data.
pub enum MessageView {
    Provide(Seq<char>),
    Revoke(Seq<char>),
    Subscribe(Seq<char>),
    Unsubscribe(Seq<char>),
    Event(Seq<char>, Seq<char>),
}

impl MessageView {
    /// The number that stands for the message's kind.
    pub open spec fn kind(self) -> u8 {
        match self {
            MessageView::Provide(_) => 0,
            MessageView::Revoke(_) => 1,
            MessageView::Subscribe(_) => 2,
            MessageView::Unsubscribe(_) => 3,
            MessageView::Event(_, _) => 4,
        }
    }

    /// The message's namespace.
    pub open spec fn ns(self) -> Seq<char> {
        match self {
            MessageView::Provide(p) => p,
            MessageView::Revoke(p) => p,
            MessageView::Subscribe(p) => p,
            MessageView::Unsubscribe(p) => p,
            MessageView::Event(p, _) => p,
        }
    }

    /// The message's data: that of an event, empty for the other kinds.
    pub open spec fn data(self) -> Seq<char> {
        match self {
            MessageView::Event(_, d) => d,
            _ => Seq::empty(),
        }
    }
}

/// The message of the given kind, namespace and data (the data counts for
/// an event only).
pub open spec fn message_of(kind: u8, ns: Seq<char>, data: Seq<char>) -> MessageView {
    if kind == 0 {
        MessageView::Provide(ns)
    } else if kind == 1 {
        MessageView::Revoke(ns)
    } else if kind == 2 {
        MessageView::Subscribe(ns)
    } else if kind == 3 {
        MessageView::Unsubscribe(ns)
    } else {
        MessageView::Event(ns, data)
    }
}

/// Two messages are equal when they have the same kind and namespace; the
/// data of an event does not count.
pub open spec fn same_message(a: MessageView, b: MessageView) -> bool {
    a.kind() == b.kind() && a.ns() == b.ns()
}

/// The namespace `*` matches every namespace.
pub open spec fn is_wildcard(ns: Seq<char>) -> bool {
    encode_utf8(ns) == seq![42u8]
}

/// A subscription to `outer` covers the message `inner` when both have the
/// same kind and `outer`'s namespace is the wildcard or contains `inner`'s.
pub open spec fn message_contains(outer: MessageView, inner: MessageView) -> bool {
    &&& outer.kind() == inner.kind()
    &&& is_wildcard(outer.ns()) || pattern_contains(outer.ns(), inner.ns())
}

impl View for Message {
    type V = MessageView;

    open spec fn view(&self) -> MessageView {
        match self {
            Message::Provide(p) => MessageView::Provide(p@),
            Message::Revoke(p) => MessageView::Revoke(p@),
            Message::Subscribe(p) => MessageView::Subscribe(p@),
            Message::Unsubscribe(p) => MessageView::Unsubscribe(p@),
            Message::Event(p, d) => MessageView::Event(p@, d@),
        }
    }
}

impl Message {
    /// Builds a message from the number of its kind, its namespace and, for an
    /// event, its data.
    pub fn from_poor_mans_discriminant(discriminant: u8, namespace: Pattern, data: Option<String>) -> (m: Message)
        requires
            discriminant <= EVENT_DISCRIMINANT,
            discriminant == EVENT_DISCRIMINANT ==> data is Some,
        ensures
            m@ == message_of(discriminant, namespace@, match data { Some(d) => d@, None => Seq::empty() }),
    {
        match discriminant {
            0 => Message::Provide(namespace),
            1 => Message::Revoke(namespace),
            2 => Message::Subscribe(namespace),
            3 => Message::Unsubscribe(namespace),
            _ => match data {
                Some(d) => Message::Event(namespace, d),
                None => Message::Event(namespace, String::new()),
            },
        }
    }

    /// The namespace of a `Provide` message.
    pub fn unwrap_provide(self) -> (p: Pattern)
        requires
            self is Provide,
        ensures
            p@ == self@.ns(),
    {
        match self {
            Message::Provide(p) => p,
            Message::Revoke(p) => p,
            Message::Subscribe(p) => p,
            Message::Unsubscribe(p) => p,
            Message::Event(p, _) => p,
        }
    }

    /// The namespace of a `Revoke` message.
    pub fn unwrap_revoke(self) -> (p: Pattern)
        requires
            self is Revoke,
        ensures
            p@ == self@.ns(),
    {
        match self {
            Message::Revoke(p) => p,
            Message::Provide(p) => p,
            Message::Subscribe(p) => p,
            Message::Unsubscribe(p) => p,
            Message::Event(p, _) => p,
        }
    }

    /// The namespace of a `Subscribe` message.
    pub fn unwrap_subscribe(self) -> (p: Pattern)
        requires
            self is Subscribe,
        ensures
            p@ == self@.ns(),
    {
        match self {
            Message::Subscribe(p) => p,
            Message::Provide(p) => p,
            Message::Revoke(p) => p,
            Message::Unsubscribe(p) => p,
            Message::Event(p, _) => p,
        }
    }

    /// The namespace of an `Unsubscribe` message.
    pub fn unwrap_unsubscribe(self) -> (p: Pattern)
        requires
            self is Unsubscribe,
        ensures
            p@ == self@.ns(),
    {
        match self {
            Message::Unsubscribe(p) => p,
            Message::Provide(p) => p,
            Message::Revoke(p) => p,
            Message::Subscribe(p) => p,
            Message::Event(p, _) => p,
        }
    }

    /// The message's namespace.
    pub fn namespace(&self) -> (p: &Pattern)
        ensures
            p@ == self@.ns(),
    {
        match self {
            Message::Provide(p) => p,
            Message::Revoke(p) => p,
            Message::Subscribe(p) => p,
            Message::Unsubscribe(p) => p,
            Message::Event(p, _) => p,
        }
    }

    /// The number that stands for the message's kind on the wire.
    pub fn poor_mans_discriminant(&self) -> (d: u8)
        ensures
            d == self@.kind(),
    {
        match self {
            Message::Provide(_) => 0,
            Message::Revoke(_) => 1,
            Message::Subscribe(_) => 2,
            Message::Unsubscribe(_) => 3,
            Message::Event(_, _) => 4,
        }
    }

    /// Whether a subscription to this message covers `other`.
    pub fn contains(&self, other: &Message) -> (res: bool)
        ensures
            res == message_contains(self@, other@),
    {
        if self.poor_mans_discriminant() != other.poor_mans_discriminant() {
            return false;
        }
        let ns = self.namespace();
        let bytes = ns.as_str().as_bytes();
        if bytes.len() == 1 && bytes[0] == 42u8 {
            assert(bytes@ =~= seq![42u8]);
            return true;
        }
        assert(!is_wildcard(ns@)) by {
            if is_wildcard(ns@) {
                assert(bytes@.len() == 1);
            }
        }
        ns.contains(other.namespace())
    }
}

impl Clone for Message {
    fn clone(&self) -> (res: Self)
        ensures
            res@ == self@,
    {
        match self {
            Message::Provide(p) => Message::Provide(p.clone()),
            Message::Revoke(p) => Message::Revoke(p.clone()),
            Message::Subscribe(p) => Message::Subscribe(p.clone()),
            Message::Unsubscribe(p) => Message::Unsubscribe(p.clone()),
            Message::Event(p, d) => Message::Event(p.clone(), d.clone()),
        }
    }
}

impl PartialEq for Message {
    fn eq(&self, other: &Self) -> (res: bool) {
        self.poor_mans_discriminant() == other.poor_mans_discriminant() && *self.namespace()
            == *other.namespace()
    }
}

impl vstd::std_specs::cmp::PartialEqSpecImpl for Message {
    open spec fn obeys_eq_spec() -> bool {
        true
    }

    open spec fn eq_spec(&self, other: &Self) -> bool {
        same_message(self@, other@)
    }
}

impl Eq for Message {
}

} // verus!
