//! The broker: one subscription table per connected publisher, and the
//! routing that links publishers' clients to one another.
use vstd::prelude::*;
use crate::message::{Message, MessageView, is_wildcard, message_contains, same_message};
use crate::pattern::pattern_contains;
use crate::pattern::Pattern;
use crate::subscriptions::{
    Entry, has_key, new_subscriber_id, kept, retains, subscribers_of, Subscriber, SubscriberId, SubscriptionTable, route_view, subscribe_view, table_wf,
    unsubscribe_children_view, unsubscribe_view, unsubscribe_children_drops_only_covered, key_index,
};

verus! {

/// The broker as the subscription tables of its publishers, by index.
pub type BrokerView = Seq<Seq<Entry>>;

/// Every publisher's table is well formed.
pub open spec fn broker_wf(bv: BrokerView) -> bool {
    forall|i: int| 0 <= i < bv.len() ==> table_wf(#[trigger] bv[i])
}

/// The namespace `*`.
pub open spec fn wildcard() -> Seq<char> {
    seq!['*']
}

/// The broker after publisher `p`, where there is one, subscribes `sub` to `m` under `id`.
pub open spec fn subscribe_at(bv: BrokerView, p: int, m: MessageView, id: SubscriberId, sub: Subscriber) -> BrokerView {
    if 0 <= p < bv.len() {
        bv.update(p, subscribe_view(bv[p], m, id, sub))
    } else {
        bv
    }
}

/// The broker after publisher `p`, where there is one, ends its subscription `id` to `m`.
pub open spec fn unsubscribe_at(bv: BrokerView, p: int, m: MessageView, id: SubscriberId) -> BrokerView {
    if 0 <= p < bv.len() {
        bv.update(p, unsubscribe_view(bv[p], m, id))
    } else {
        bv
    }
}

/// The broker after publisher `p`, where there is one, drops the rows that `m` covers.
pub open spec fn unsubscribe_children_at(bv: BrokerView, p: int, m: MessageView) -> BrokerView {
    if 0 <= p < bv.len() {
        bv.update(p, unsubscribe_children_view(bv[p], m))
    } else {
        bv
    }
}

/// Publisher `me` follows what `other`'s client provides and revokes: it
/// subscribes to every `Provide` (to let `other` forward subscriptions to
/// it) and to every `Revoke` (to drop the event subscriptions it covers).
pub open spec fn on_link_view(bv: BrokerView, me: int, other: int, ids: (SubscriberId, SubscriberId)) -> BrokerView {
    let b1 = subscribe_at(bv, me, MessageView::Provide(wildcard()), ids.0, Subscriber::ForwardProvide(other as usize));
    subscribe_at(b1, me, MessageView::Revoke(wildcard()), ids.1, Subscriber::RevokeChildren)
}

/// Publisher `me`'s client provides `ns`: `me` forwards its client's
/// subscriptions under `ns` to `other`, until `other` sees `ns` revoked.
pub open spec fn on_provide_view(
    bv: BrokerView,
    me: int,
    ns: Seq<char>,
    other: int,
    ids: (SubscriberId, SubscriberId),
) -> BrokerView {
    let b1 = subscribe_at(bv, me, MessageView::Subscribe(ns), ids.0, Subscriber::ForwardSubscribe(other as usize));
    subscribe_at(b1, other, MessageView::Revoke(ns), ids.1, Subscriber::DropSubscribe(me as usize, ids.0))
}

/// `other`'s client subscribes to `ns`: `me` sends its events under `ns` to
/// that client, until `other` sees `ns` unsubscribed.
pub open spec fn on_subscribe_view(
    bv: BrokerView,
    me: int,
    ns: Seq<char>,
    other: int,
    ids: (SubscriberId, SubscriberId),
) -> BrokerView {
    let b1 = subscribe_at(bv, me, MessageView::Event(ns, Seq::empty()), ids.0, Subscriber::Consumer(other as usize));
    subscribe_at(b1, other, MessageView::Unsubscribe(ns), ids.1, Subscriber::DropEvent(me as usize, ids.0))
}

/// What telling subscriber `sub` of publisher `me` about `m` does to the
/// broker; `ids` are the ids of the subscriptions it makes, if any.
pub open spec fn tell_view(bv: BrokerView, me: int, sub: Subscriber, m: MessageView, ids: (SubscriberId, SubscriberId)) -> BrokerView {
    match sub {
        Subscriber::Consumer(_) => bv,
        Subscriber::ForwardProvide(other) => on_provide_view(bv, other as int, m.ns(), me, ids),
        Subscriber::RevokeChildren => unsubscribe_children_at(bv, me, MessageView::Event(m.ns(), Seq::empty())),
        Subscriber::ForwardSubscribe(other) => on_subscribe_view(bv, other as int, m.ns(), me, ids),
        Subscriber::DropSubscribe(t, id) => unsubscribe_at(bv, t as int, MessageView::Subscribe(m.ns()), id),
        Subscriber::DropEvent(t, id) => unsubscribe_at(bv, t as int, MessageView::Event(m.ns(), Seq::empty()), id),
    }
}

/// Telling the subscribers in `told`, in order; the `k`-th uses the ids at
/// `2k` and `2k + 1`.
pub open spec fn tell_all_view(bv: BrokerView, me: int, told: Seq<Subscriber>, m: MessageView, ids: Seq<SubscriberId>) -> BrokerView
    decreases told.len(),
{
    if told.len() == 0 {
        bv
    } else {
        let k = told.len() - 1;
        tell_view(
            tell_all_view(bv, me, told.drop_last(), m, ids),
            me,
            told[k],
            m,
            (ids[2 * k], ids[2 * k + 1]),
        )
    }
}

/// The publishers whose clients receive a message: one per consumer told,
/// in order.
pub open spec fn deliveries(told: Seq<Subscriber>) -> Seq<usize>
    decreases told.len(),
{
    if told.len() == 0 {
        Seq::empty()
    } else {
        match told.last() {
            Subscriber::Consumer(p) => deliveries(told.drop_last()).push(p),
            _ => deliveries(told.drop_last()),
        }
    }
}

/// The broker after publisher `me` routes `m`: its table routes the message
/// and then each subscriber told acts, in order.
pub open spec fn route_broker_view(bv: BrokerView, me: int, m: MessageView, consumer_open: Seq<bool>, ids: Seq<SubscriberId>) -> BrokerView {
    if 0 <= me < bv.len() {
        let (t, told) = route_view(bv[me], m, consumer_open);
        tell_all_view(bv.update(me, t), me, told, m, ids)
    } else {
        bv
    }
}

/// The subscribers that publisher `me` tells when it routes `m`.
pub open spec fn told_view(bv: BrokerView, me: int, m: MessageView, consumer_open: Seq<bool>) -> Seq<Subscriber> {
    if 0 <= me < bv.len() {
        route_view(bv[me], m, consumer_open).1
    } else {
        Seq::empty()
    }
}

/// The subscription tables of all the publishers connected to a broker.
pub struct Broker {
    publishers: Vec<SubscriptionTable>,
}

impl View for Broker {
    type V = BrokerView;

    closed spec fn view(&self) -> BrokerView {
        self.publishers@.map_values(|t: SubscriptionTable| t@)
    }
}

impl Broker {
    /// A broker with no publishers.
    pub fn new() -> (b: Broker)
        ensures
            b@ == Seq::<Seq<Entry>>::empty(),
            broker_wf(b@),
    {
        let b = Broker { publishers: Vec::new() };
        assert(b@ =~= Seq::<Seq<Entry>>::empty());
        b
    }

    /// The number of publishers.
    pub fn len(&self) -> (n: usize)
        ensures
            n == self@.len(),
    {
        self.publishers.len()
    }

    /// Connects a new publisher, with an empty table; returns its index.
    pub fn add_publisher(&mut self) -> (p: usize)
        requires
            broker_wf(old(self)@),
        ensures
            p == old(self)@.len(),
            final(self)@ == old(self)@.push(Seq::<Entry>::empty()),
            broker_wf(final(self)@),
    {
        let p = self.publishers.len();
        self.publishers.push(SubscriptionTable::new());
        assert(self@ =~= old(self)@.push(Seq::<Entry>::empty()));
        p
    }

    /// The table of publisher `p`.
    pub fn table(&self, p: usize) -> (t: &SubscriptionTable)
        requires
            p < self@.len(),
        ensures
            t@ == self@[p as int],
    {
        &self.publishers[p]
    }

    fn subscribe_at(&mut self, p: usize, m: Message, id: SubscriberId, sub: Subscriber)
        requires
            broker_wf(old(self)@),
        ensures
            final(self)@ == subscribe_at(old(self)@, p as int, m@, id, sub),
            broker_wf(final(self)@),
    {
        if p < self.publishers.len() {
            let ghost bv = self@;
            let mut t = self.publishers.remove(p);
            assert(t@ == bv[p as int]);
            t.subscribe_with_id(m, id, sub);
            self.publishers.insert(p, t);
            assert(self@ =~= bv.update(p as int, subscribe_view(bv[p as int], m@, id, sub)));
        }
    }

    fn unsubscribe_at(&mut self, p: usize, m: &Message, id: SubscriberId)
        requires
            broker_wf(old(self)@),
        ensures
            final(self)@ == unsubscribe_at(old(self)@, p as int, m@, id),
            broker_wf(final(self)@),
    {
        if p < self.publishers.len() {
            let ghost bv = self@;
            let mut t = self.publishers.remove(p);
            assert(t@ == bv[p as int]);
            t.unsubscribe(m, id);
            self.publishers.insert(p, t);
            assert(self@ =~= bv.update(p as int, unsubscribe_view(bv[p as int], m@, id)));
        }
    }

    fn unsubscribe_children_at(&mut self, p: usize, m: &Message)
        requires
            broker_wf(old(self)@),
        ensures
            final(self)@ == unsubscribe_children_at(old(self)@, p as int, m@),
            broker_wf(final(self)@),
    {
        if p < self.publishers.len() {
            let ghost bv = self@;
            let mut t = self.publishers.remove(p);
            assert(t@ == bv[p as int]);
            t.unsubscribe_children(m);
            self.publishers.insert(p, t);
            assert(self@ =~= bv.update(p as int, unsubscribe_children_view(bv[p as int], m@)));
        }
    }

    /// Publisher `me` follows what `other`'s client provides and revokes,
    /// under the given subscription ids.
    pub fn on_link(&mut self, me: usize, other: usize, ids: (SubscriberId, SubscriberId))
        requires
            broker_wf(old(self)@),
        ensures
            final(self)@ == on_link_view(old(self)@, me as int, other as int, ids),
            broker_wf(final(self)@),
    {
        let any = Pattern::new("*");
        proof {
            reveal_strlit("*");
        }
        assert(any@ == wildcard());
        self.subscribe_at(me, Message::Provide(any.clone()), ids.0, Subscriber::ForwardProvide(other));
        self.subscribe_at(me, Message::Revoke(any), ids.1, Subscriber::RevokeChildren);
    }

    /// Publisher `me`'s client provides `ns`: `me` forwards its client's
    /// subscriptions under `ns` to `other` until `other` sees `ns` revoked.
    pub fn on_provide(&mut self, me: usize, ns: &Pattern, other: usize, ids: (SubscriberId, SubscriberId))
        requires
            broker_wf(old(self)@),
        ensures
            final(self)@ == on_provide_view(old(self)@, me as int, ns@, other as int, ids),
            broker_wf(final(self)@),
    {
        self.subscribe_at(me, Message::Subscribe(ns.clone()), ids.0, Subscriber::ForwardSubscribe(other));
        self.subscribe_at(other, Message::Revoke(ns.clone()), ids.1, Subscriber::DropSubscribe(me, ids.0));
    }

    /// `other`'s client subscribes to `ns`: `me` sends its events under `ns`
    /// to that client until `other` sees `ns` unsubscribed.
    pub fn on_subscribe(&mut self, me: usize, ns: &Pattern, other: usize, ids: (SubscriberId, SubscriberId))
        requires
            broker_wf(old(self)@),
        ensures
            final(self)@ == on_subscribe_view(old(self)@, me as int, ns@, other as int, ids),
            broker_wf(final(self)@),
    {
        let event = Message::Event(ns.clone(), String::new());
        assert(event@ == MessageView::Event(ns@, Seq::empty()));
        self.subscribe_at(me, event, ids.0, Subscriber::Consumer(other));
        self.subscribe_at(other, Message::Unsubscribe(ns.clone()), ids.1, Subscriber::DropEvent(me, ids.0));
    }

    fn tell(&mut self, me: usize, sub: Subscriber, m: &Message, ids: (SubscriberId, SubscriberId))
        requires
            broker_wf(old(self)@),
        ensures
            final(self)@ == tell_view(old(self)@, me as int, sub, m@, ids),
            broker_wf(final(self)@),
    {
        match sub {
            Subscriber::Consumer(_) => {},
            Subscriber::ForwardProvide(other) => {
                self.on_provide(other, m.namespace(), me, ids);
            },
            Subscriber::RevokeChildren => {
                let event = Message::Event(m.namespace().clone(), String::new());
                assert(event@ == MessageView::Event(m@.ns(), Seq::empty()));
                self.unsubscribe_children_at(me, &event);
            },
            Subscriber::ForwardSubscribe(other) => {
                self.on_subscribe(other, m.namespace(), me, ids);
            },
            Subscriber::DropSubscribe(t, id) => {
                let key = Message::Subscribe(m.namespace().clone());
                self.unsubscribe_at(t, &key, id);
            },
            Subscriber::DropEvent(t, id) => {
                let key = Message::Event(m.namespace().clone(), String::new());
                assert(key@ == MessageView::Event(m@.ns(), Seq::empty()));
                self.unsubscribe_at(t, &key, id);
            },
        }
    }

    /// Tells the subscribers in `told`, in order, the `k`-th using the ids
    /// at `2k` and `2k + 1`; returns the publishers whose clients receive
    /// the message.
    pub fn tell_all(&mut self, me: usize, told: &Vec<Subscriber>, m: &Message, ids: &Vec<SubscriberId>) -> (to: Vec<usize>)
        requires
            broker_wf(old(self)@),
            ids@.len() >= 2 * told@.len(),
        ensures
            final(self)@ == tell_all_view(old(self)@, me as int, told@, m@, ids@),
            to@ == deliveries(told@),
            broker_wf(final(self)@),
    {
        let ghost bv = self@;
        let mut to: Vec<usize> = Vec::new();
        let mut k: usize = 0;
        let n = ids.len();
        assert(told@.take(0) =~= Seq::<Subscriber>::empty());
        while k < told.len()
            invariant
                k <= told@.len(),
                n == ids@.len(),
                ids@.len() >= 2 * told@.len(),
                self@ == tell_all_view(bv, me as int, told@.take(k as int), m@, ids@),
                to@ == deliveries(told@.take(k as int)),
                broker_wf(self@),
            decreases told@.len() - k,
        {
            let sub = told[k];
            let pair = (ids[2 * k], ids[2 * k + 1]);
            assert(told@.take(k + 1).drop_last() =~= told@.take(k as int));
            assert(told@.take(k + 1).last() == sub);
            self.tell(me, sub, m, pair);
            match sub {
                Subscriber::Consumer(p) => to.push(p),
                _ => {},
            }
            k = k + 1;
        }
        assert(told@.take(k as int) =~= told@);
        to
    }

    /// The publishers whose clients receive `m` when publisher `me` routes
    /// it, in order; which consumers' channels are open makes no
    /// difference to who is sent it. Nothing changes.
    pub fn recipients(&self, me: usize, m: &Message) -> (to: Vec<usize>)
        ensures
            forall|open: Seq<bool>| to@ == #[trigger] deliveries(told_view(self@, me as int, m@, open)),
    {
        if me >= self.publishers.len() {
            let to: Vec<usize> = Vec::new();
            assert(to@ == deliveries(Seq::empty()));
            return to;
        }
        assert(self.publishers@[me as int]@ == self@[me as int]);
        let told = self.publishers[me].told(m);
        let mut to: Vec<usize> = Vec::new();
        let mut k: usize = 0;
        assert(told@.take(0) =~= Seq::<Subscriber>::empty());
        while k < told.len()
            invariant
                k <= told@.len(),
                to@ == deliveries(told@.take(k as int)),
            decreases told@.len() - k,
        {
            let sub = told[k];
            assert(told@.take(k + 1).drop_last() =~= told@.take(k as int));
            assert(told@.take(k + 1).last() == sub);
            match sub {
                Subscriber::Consumer(p) => to.push(p),
                _ => {},
            }
            k = k + 1;
        }
        assert(told@.take(k as int) =~= told@);
        assert forall|open: Seq<bool>| to@ == #[trigger] deliveries(told_view(self@, me as int, m@, open)) by {
            assert(told@ == route_view(self@[me as int], m@, open).1);
        }
        to
    }

    /// Routes `m`, which the client of publisher `me` sent, using the given
    /// ids for the subscriptions that it makes; returns the publishers whose
    /// clients receive it.
    pub fn route_with_ids(&mut self, me: usize, m: &Message, consumer_open: &Vec<bool>, ids: &Vec<SubscriberId>) -> (to: Vec<usize>)
        requires
            broker_wf(old(self)@),
            ids@.len() >= 2 * told_view(old(self)@, me as int, m@, consumer_open@).len(),
        ensures
            final(self)@ == route_broker_view(old(self)@, me as int, m@, consumer_open@, ids@),
            to@ == deliveries(told_view(old(self)@, me as int, m@, consumer_open@)),
            broker_wf(final(self)@),
    {
        if me >= self.publishers.len() {
            return Vec::new();
        }
        let ghost bv = self@;
        let mut t = self.publishers.remove(me);
        assert(t@ == bv[me as int]);
        let told = t.route(m, consumer_open);
        self.publishers.insert(me, t);
        assert(self@ =~= bv.update(me as int, route_view(bv[me as int], m@, consumer_open@).0));
        self.tell_all(me, &told, m, ids)
    }

    /// Routes `m`, which the client of publisher `me` sent, making the
    /// subscriptions it calls for under fresh random ids; returns the
    /// publishers whose clients receive it.
    pub fn route(&mut self, me: usize, m: &Message, consumer_open: &Vec<bool>) -> (to: Vec<usize>)
        requires
            broker_wf(old(self)@),
        ensures
            exists|ids: Seq<SubscriberId>|
                final(self)@ == route_broker_view(old(self)@, me as int, m@, consumer_open@, ids),
            to@ == deliveries(told_view(old(self)@, me as int, m@, consumer_open@)),
            broker_wf(final(self)@),
    {
        let ghost bv = self@;
        if me >= self.publishers.len() {
            assert(self@ == route_broker_view(bv, me as int, m@, consumer_open@, Seq::empty()));
            return Vec::new();
        }
        let mut t = self.publishers.remove(me);
        assert(t@ == bv[me as int]);
        let told = t.route(m, consumer_open);
        self.publishers.insert(me, t);
        assert(self@ =~= bv.update(me as int, route_view(bv[me as int], m@, consumer_open@).0));
        let mut ids: Vec<SubscriberId> = Vec::new();
        let mut k: usize = 0;
        while k < told.len()
            invariant
                k <= told@.len(),
                ids@.len() == 2 * k,
            decreases told@.len() - k,
        {
            ids.push(new_subscriber_id());
            ids.push(new_subscriber_id());
            k = k + 1;
        }
        let to = self.tell_all(me, &told, m, &ids);
        assert(self@ == route_broker_view(bv, me as int, m@, consumer_open@, ids@));
        to
    }

    /// Links publishers `a` and `b` under the given ids: each follows what
    /// the other's client provides and revokes.
    pub fn link_with_ids(&mut self, a: usize, b: usize, ids: (SubscriberId, SubscriberId, SubscriberId, SubscriberId))
        requires
            broker_wf(old(self)@),
        ensures
            final(self)@ == on_link_view(
                on_link_view(old(self)@, a as int, b as int, (ids.0, ids.1)),
                b as int,
                a as int,
                (ids.2, ids.3),
            ),
            broker_wf(final(self)@),
    {
        self.on_link(a, b, (ids.0, ids.1));
        self.on_link(b, a, (ids.2, ids.3));
    }

    /// Links publishers `a` and `b` under fresh random ids, so that they
    /// can subscribe to each other's streams.
    pub fn link(&mut self, a: usize, b: usize)
        requires
            broker_wf(old(self)@),
        ensures
            exists|ids: (SubscriberId, SubscriberId, SubscriberId, SubscriberId)|
                final(self)@ == on_link_view(
                    on_link_view(old(self)@, a as int, b as int, (ids.0, ids.1)),
                    b as int,
                    a as int,
                    (ids.2, ids.3),
                ),
            broker_wf(final(self)@),
    {
        let ids = (new_subscriber_id(), new_subscriber_id(), new_subscriber_id(), new_subscriber_id());
        self.link_with_ids(a, b, ids);
    }
}

/// The namespace `*` is the wildcard.
proof fn lemma_wildcard_is_wildcard()
    ensures
        is_wildcard(wildcard()),
{
    let w = wildcard();
    reveal_with_fuel(vstd::utf8::encode_utf8, 2);
    assert(w[0] as u32 == 42);
    assert(w.drop_first() =~= Seq::<char>::empty());
    assert(42u32 & 0x7Fu32 == 42u32) by (bit_vector);
    assert(vstd::utf8::encode_scalar(42) =~= seq![42u8]);
    assert(vstd::utf8::encode_utf8(w) =~= seq![42u8]);
}

/// A table whose rows are all of other kinds than `m` has no row for `m`.
proof fn lemma_no_key_of_kind(es: Seq<Entry>, m: MessageView)
    requires
        forall|i: int| 0 <= i < es.len() ==> (#[trigger] es[i]).0.kind() != m.kind(),
    ensures
        !has_key(es, m),
{
    if has_key(es, m) {
        let i = choose|i: int| 0 <= i < es.len() && same_message(#[trigger] es[i].0, m);
        assert(es[i].0.kind() != m.kind());
    }
}

/// A row with one subscriber that the message covers is told and, for a
/// subscriber that stays, kept as it is.
proof fn lemma_route_one(l: Seq<(SubscriberId, Subscriber)>, open: Seq<bool>)
    requires
        l.len() == 1,
        retains(l[0].1, open),
    ensures
        kept(l, open) == l,
        subscribers_of(l) == seq![l[0].1],
{
    reveal_with_fuel(Seq::filter, 2);
    assert(l.drop_last() =~= Seq::<(SubscriberId, Subscriber)>::empty());
    assert(l.drop_last().push(l.last()) =~= l);
    assert(subscribers_of(l) =~= seq![l[0].1]);
}

/// The tables of two linked publishers after the first one's client
/// provided `provided` and the second one's client subscribed to `wanted`.
pub open spec fn subscribed_pair(
    link_ids: (SubscriberId, SubscriberId, SubscriberId, SubscriberId),
    provide_ids: Seq<SubscriberId>,
    subscribe_ids: Seq<SubscriberId>,
    provided: Seq<char>,
    wanted: Seq<char>,
) -> BrokerView {
    let pw = MessageView::Provide(wildcard());
    let rw = MessageView::Revoke(wildcard());
    seq![
        seq![
            (pw, seq![(link_ids.0, Subscriber::ForwardProvide(1))]),
            (rw, seq![(link_ids.1, Subscriber::RevokeChildren)]),
            (MessageView::Revoke(provided), seq![(provide_ids[1], Subscriber::DropSubscribe(1, provide_ids[0]))]),
            (MessageView::Event(wanted, Seq::empty()), seq![(subscribe_ids[0], Subscriber::Consumer(1))]),
        ],
        seq![
            (pw, seq![(link_ids.2, Subscriber::ForwardProvide(0))]),
            (rw, seq![(link_ids.3, Subscriber::RevokeChildren)]),
            (MessageView::Subscribe(provided), seq![(provide_ids[0], Subscriber::ForwardSubscribe(0))]),
            (MessageView::Unsubscribe(wanted), seq![(subscribe_ids[1], Subscriber::DropEvent(0, subscribe_ids[0]))]),
        ],
    ]
}

/// Linking two empty publishers, providing `provided` through the first and
/// subscribing to `wanted` through the second gives `subscribed_pair`.
proof fn lemma_subscribed_pair(
    link_ids: (SubscriberId, SubscriberId, SubscriberId, SubscriberId),
    provide_ids: Seq<SubscriberId>,
    subscribe_ids: Seq<SubscriberId>,
    consumer_open: Seq<bool>,
    provided: Seq<char>,
    wanted: Seq<char>,
)
    requires
        provided != wildcard(),
        pattern_contains(provided, wanted),
        provide_ids.len() >= 2,
        subscribe_ids.len() >= 2,
    ensures
        ({
            let b0 = seq![Seq::<Entry>::empty(), Seq::<Entry>::empty()];
            let b1 = on_link_view(
                on_link_view(b0, 0, 1, (link_ids.0, link_ids.1)),
                1,
                0,
                (link_ids.2, link_ids.3),
            );
            let b2 = route_broker_view(b1, 0, MessageView::Provide(provided), consumer_open, provide_ids);
            route_broker_view(b2, 1, MessageView::Subscribe(wanted), consumer_open, subscribe_ids)
                == subscribed_pair(link_ids, provide_ids, subscribe_ids, provided, wanted)
        }),
{
    lemma_wildcard_is_wildcard();
    reveal_with_fuel(route_view, 6);
    reveal_with_fuel(tell_all_view, 2);
    reveal_with_fuel(deliveries, 2);
    let empty = Seq::<Entry>::empty();
    let pw = MessageView::Provide(wildcard());
    let rw = MessageView::Revoke(wildcard());
    let b0 = seq![empty, empty];
    // linking
    lemma_no_key_of_kind(empty, pw);
    let t0a = empty.push((pw, seq![(link_ids.0, Subscriber::ForwardProvide(1))]));
    lemma_no_key_of_kind(t0a, rw);
    let t0 = t0a.push((rw, seq![(link_ids.1, Subscriber::RevokeChildren)]));
    let t1a = empty.push((pw, seq![(link_ids.2, Subscriber::ForwardProvide(0))]));
    lemma_no_key_of_kind(t1a, rw);
    let t1 = t1a.push((rw, seq![(link_ids.3, Subscriber::RevokeChildren)]));
    let b1 = seq![t0, t1];
    assert(on_link_view(on_link_view(b0, 0, 1, (link_ids.0, link_ids.1)), 1, 0, (link_ids.2, link_ids.3))
        =~= b1);
    // the first client provides
    let pm = MessageView::Provide(provided);
    assert(message_contains(pw, pm));
    assert(!message_contains(rw, pm));
    lemma_route_one(t0[0].1, consumer_open);
    assert(t0.drop_last() =~= t0a);
    assert(t0a.drop_last() =~= empty);
    assert(route_view(t0a, pm, consumer_open).0 =~= t0a);
    assert(route_view(t0, pm, consumer_open).0 =~= t0);
    assert(route_view(t0, pm, consumer_open).1 =~= seq![Subscriber::ForwardProvide(1)]);
    let sp = MessageView::Subscribe(provided);
    let rp = MessageView::Revoke(provided);
    let dsub = Subscriber::DropSubscribe(1, provide_ids[0]);
    lemma_no_key_of_kind(t1, sp);
    let t1b = t1.push((sp, seq![(provide_ids[0], Subscriber::ForwardSubscribe(0))]));
    assert forall|i: int| 0 <= i < t0.len() implies !same_message(#[trigger] t0[i].0, rp) by {
        if i == 1 {
            assert(t0[i].0.ns() == wildcard());
        }
    }
    let t0b = t0.push((rp, seq![(provide_ids[1], dsub)]));
    let b2 = seq![t0b, t1b];
    let told_p = seq![Subscriber::ForwardProvide(1)];
    assert(told_p.drop_last() =~= Seq::<Subscriber>::empty());
    assert(b1.update(0, t0) =~= b1);
    let b1s = subscribe_at(b1, 1, sp, provide_ids[0], Subscriber::ForwardSubscribe(0));
    assert(b1s =~= seq![t0, t1b]);
    assert(subscribe_at(b1s, 0, rp, provide_ids[1], dsub) =~= b2);
    assert(on_provide_view(b1, 1, provided, 0, (provide_ids[0], provide_ids[1])) =~= b2);
    assert(tell_all_view(b1, 0, told_p, pm, provide_ids) =~= b2);
    assert(route_broker_view(b1, 0, pm, consumer_open, provide_ids) =~= b2);
    // the second client subscribes
    let wm = MessageView::Subscribe(wanted);
    assert(!message_contains(t1b[0].0, wm));
    assert(!message_contains(t1b[1].0, wm));
    assert(message_contains(t1b[2].0, wm));
    lemma_route_one(t1b[2].1, consumer_open);
    assert(t1b.drop_last() =~= t1);
    assert(t1.drop_last() =~= t1a);
    assert(t1a.drop_last() =~= empty);
    assert(route_view(t1a, wm, consumer_open).0 =~= t1a);
    assert(route_view(t1, wm, consumer_open).0 =~= t1);
    assert(route_view(t1b, wm, consumer_open).0 =~= t1b);
    assert(route_view(t1b, wm, consumer_open).1 =~= seq![Subscriber::ForwardSubscribe(0)]);
    let ew = MessageView::Event(wanted, Seq::empty());
    let uw = MessageView::Unsubscribe(wanted);
    lemma_no_key_of_kind(t0b, ew);
    let t0c = t0b.push((ew, seq![(subscribe_ids[0], Subscriber::Consumer(1))]));
    lemma_no_key_of_kind(t1b, uw);
    let t1c = t1b.push((uw, seq![(subscribe_ids[1], Subscriber::DropEvent(0, subscribe_ids[0]))]));
    let b3 = seq![t0c, t1c];
    let told_s = seq![Subscriber::ForwardSubscribe(0)];
    assert(told_s.drop_last() =~= Seq::<Subscriber>::empty());
    assert(b2.update(1, t1b) =~= b2);
    let b2s = subscribe_at(b2, 0, ew, subscribe_ids[0], Subscriber::Consumer(1));
    assert(b2s =~= seq![t0c, t1b]);
    assert(subscribe_at(b2s, 1, uw, subscribe_ids[1], Subscriber::DropEvent(0, subscribe_ids[0])) =~= b3);
    assert(on_subscribe_view(b2, 0, wanted, 1, (subscribe_ids[0], subscribe_ids[1])) =~= b3);
    assert(tell_all_view(b2, 1, told_s, wm, subscribe_ids) =~= b3);
    assert(route_broker_view(b2, 1, wm, consumer_open, subscribe_ids) =~= b3);
    let sp2 = subscribed_pair(link_ids, provide_ids, subscribe_ids, provided, wanted);
    assert(t0c =~= sp2[0]);
    assert(t1c =~= sp2[1]);
    assert(b3 =~= sp2);
}

/// Publish/subscribe across publishers: two linked publishers start with
/// empty tables; the client of the first provides the namespace
/// `provided`, then the client of the second subscribes to `wanted`, which
/// `provided` contains. An event that the first client then publishes under
/// a namespace that `wanted` contains reaches the second client, and no
/// other, whatever ids the subscriptions got.
pub proof fn linked_subscription_delivers(
    link_ids: (SubscriberId, SubscriberId, SubscriberId, SubscriberId),
    provide_ids: Seq<SubscriberId>,
    subscribe_ids: Seq<SubscriberId>,
    consumer_open: Seq<bool>,
    provided: Seq<char>,
    wanted: Seq<char>,
    event_ns: Seq<char>,
    data: Seq<char>,
)
    requires
        provided != wildcard(),
        pattern_contains(provided, wanted),
        pattern_contains(wanted, event_ns),
        provide_ids.len() >= 2,
        subscribe_ids.len() >= 2,
    ensures
        ({
            let b0 = seq![Seq::<Entry>::empty(), Seq::<Entry>::empty()];
            let b1 = on_link_view(
                on_link_view(b0, 0, 1, (link_ids.0, link_ids.1)),
                1,
                0,
                (link_ids.2, link_ids.3),
            );
            let b2 = route_broker_view(b1, 0, MessageView::Provide(provided), consumer_open, provide_ids);
            let b3 = route_broker_view(b2, 1, MessageView::Subscribe(wanted), consumer_open, subscribe_ids);
            deliveries(told_view(b3, 0, MessageView::Event(event_ns, data), consumer_open)) == seq![1usize]
        }),
{
    lemma_subscribed_pair(link_ids, provide_ids, subscribe_ids, consumer_open, provided, wanted);
    lemma_wildcard_is_wildcard();
    reveal_with_fuel(route_view, 6);
    reveal_with_fuel(deliveries, 2);
    let b3 = subscribed_pair(link_ids, provide_ids, subscribe_ids, provided, wanted);
    let t0c = b3[0];
    let t0b = t0c.drop_last();
    let t0 = t0b.drop_last();
    // the first client publishes
    let em = MessageView::Event(event_ns, data);
    assert(!message_contains(t0c[0].0, em));
    assert(!message_contains(t0c[1].0, em));
    assert(!message_contains(t0c[2].0, em));
    assert(message_contains(t0c[3].0, em));
    assert(subscribers_of(t0c[3].1) =~= seq![Subscriber::Consumer(1)]);
    assert(t0c.drop_last() =~= t0b);
    assert(t0b.drop_last() =~= t0);
    assert(route_view(t0b, em, consumer_open).1 =~= Seq::<Subscriber>::empty());
    assert(route_view(t0c, em, consumer_open).1 =~= seq![Subscriber::Consumer(1)]);
    let told = seq![Subscriber::Consumer(1)];
    assert(told.drop_last() =~= Seq::<Subscriber>::empty());
    assert(deliveries(told) =~= seq![1usize]);
}

/// Unsubscribing ends the delivery: after the second client of
/// `linked_subscription_delivers` unsubscribes from `wanted`, the first
/// client's events reach no client.
pub proof fn unsubscribe_stops_delivery(
    link_ids: (SubscriberId, SubscriberId, SubscriberId, SubscriberId),
    provide_ids: Seq<SubscriberId>,
    subscribe_ids: Seq<SubscriberId>,
    unsubscribe_ids: Seq<SubscriberId>,
    consumer_open: Seq<bool>,
    provided: Seq<char>,
    wanted: Seq<char>,
    event_ns: Seq<char>,
    data: Seq<char>,
)
    requires
        provided != wildcard(),
        pattern_contains(provided, wanted),
        provide_ids.len() >= 2,
        subscribe_ids.len() >= 2,
        unsubscribe_ids.len() >= 2,
    ensures
        ({
            let b0 = seq![Seq::<Entry>::empty(), Seq::<Entry>::empty()];
            let b1 = on_link_view(
                on_link_view(b0, 0, 1, (link_ids.0, link_ids.1)),
                1,
                0,
                (link_ids.2, link_ids.3),
            );
            let b2 = route_broker_view(b1, 0, MessageView::Provide(provided), consumer_open, provide_ids);
            let b3 = route_broker_view(b2, 1, MessageView::Subscribe(wanted), consumer_open, subscribe_ids);
            let b4 = route_broker_view(b3, 1, MessageView::Unsubscribe(wanted), consumer_open, unsubscribe_ids);
            deliveries(told_view(b4, 0, MessageView::Event(event_ns, data), consumer_open)) == Seq::<usize>::empty()
        }),
{
    lemma_subscribed_pair(link_ids, provide_ids, subscribe_ids, consumer_open, provided, wanted);
    lemma_wildcard_is_wildcard();
    reveal_with_fuel(route_view, 6);
    reveal_with_fuel(tell_all_view, 2);
    reveal_with_fuel(deliveries, 2);
    reveal_with_fuel(Seq::filter, 2);
    let b3 = subscribed_pair(link_ids, provide_ids, subscribe_ids, provided, wanted);
    let t0c = b3[0];
    let t1c = b3[1];
    let t0b = t0c.drop_last();
    let t1b = t1c.drop_last();
    let um = MessageView::Unsubscribe(wanted);
    let dev = Subscriber::DropEvent(0, subscribe_ids[0]);
    // the second client's publisher tells the one-time subscriber and drops it
    assert(!message_contains(t1c[0].0, um));
    assert(!message_contains(t1c[1].0, um));
    assert(!message_contains(t1c[2].0, um));
    assert(message_contains(t1c[3].0, um));
    let l = t1c[3].1;
    assert(l.drop_last() =~= Seq::<(SubscriberId, Subscriber)>::empty());
    assert(kept(l, consumer_open) =~= Seq::<(SubscriberId, Subscriber)>::empty());
    assert(subscribers_of(l) =~= seq![dev]);
    assert(t1c.drop_last() =~= t1b);
    assert(t1b.drop_last().drop_last().drop_last() =~= Seq::<Entry>::empty());
    assert(route_view(t1b, um, consumer_open).0 =~= t1b);
    assert(route_view(t1b, um, consumer_open).1 =~= Seq::<Subscriber>::empty());
    assert(route_view(t1c, um, consumer_open).0 =~= t1b);
    assert(route_view(t1c, um, consumer_open).1 =~= seq![dev]);
    // which makes the first publisher drop the second client's subscription
    let ew = MessageView::Event(wanted, Seq::empty());
    assert(has_key(t0c, ew)) by {
        assert(same_message(t0c[3].0, ew));
    }
    let k = crate::subscriptions::key_index(t0c, ew);
    assert(k == 3) by {
        if k != 3 {
            assert(t0c[k].0.kind() != 4);
        }
    }
    let el = t0c[3].1;
    assert(crate::subscriptions::has_id(el, subscribe_ids[0])) by {
        assert(el[0].0 == subscribe_ids[0]);
    }
    assert(crate::subscriptions::id_index(el, subscribe_ids[0]) == 0);
    assert(el.remove(0).len() == 0);
    assert(unsubscribe_view(t0c, ew, subscribe_ids[0]) =~= t0b);
    let told_u = seq![dev];
    assert(told_u.drop_last() =~= Seq::<Subscriber>::empty());
    let b4 = seq![t0b, t1b];
    assert(b3.update(1, t1b) =~= seq![t0c, t1b]);
    assert(tell_all_view(seq![t0c, t1b], 1, told_u, um, unsubscribe_ids) =~= b4);
    assert(route_broker_view(b3, 1, um, consumer_open, unsubscribe_ids) =~= b4);
    // the first publisher has no event subscription left
    let em = MessageView::Event(event_ns, data);
    assert(!message_contains(t0b[0].0, em));
    assert(!message_contains(t0b[1].0, em));
    assert(!message_contains(t0b[2].0, em));
    assert(t0b.drop_last().drop_last().drop_last() =~= Seq::<Entry>::empty());
    assert(route_view(t0b, em, consumer_open).1 =~= Seq::<Subscriber>::empty());
}

/// No row of publisher `me`'s table is an event subscription that
/// `Event(ns)` covers.
pub open spec fn no_events_under(bv: BrokerView, me: int, ns: Seq<char>) -> bool {
    forall|k: int|
        0 <= k < bv[me].len() ==> !message_contains(MessageView::Event(ns, Seq::empty()), #[trigger] bv[me][k].0)
}

/// Telling a publisher's revoke task that the client it follows revoked
/// `ns` drops from that publisher's table every event subscription that
/// `ns` covers, and nothing else: every other row stays, and the other
/// publishers' tables are untouched.
pub proof fn revoke_task_drops_events_under_it(bv: BrokerView, me: int, ns: Seq<char>, ids: (SubscriberId, SubscriberId))
    requires
        0 <= me < bv.len(),
    ensures
        ({
            let after = tell_view(bv, me, Subscriber::RevokeChildren, MessageView::Revoke(ns), ids);
            &&& after.len() == bv.len()
            &&& forall|k: int|
                0 <= k < after[me].len() ==> !message_contains(
                    MessageView::Event(ns, Seq::empty()),
                    #[trigger] after[me][k].0,
                )
            &&& forall|i: int|
                0 <= i < bv[me].len() && !message_contains(MessageView::Event(ns, Seq::empty()), #[trigger] bv[me][i].0)
                    ==> after[me].contains(bv[me][i])
            &&& forall|p: int| 0 <= p < bv.len() && p != me ==> #[trigger] after[p] == bv[p]
        }),
{
    let ev = MessageView::Event(ns, Seq::empty());
    assert(MessageView::Revoke(ns).ns() == ns);
    unsubscribe_children_drops_only_covered(bv[me], ev);
}

/// Ending a subscription only drops a subscriber, and a row left empty:
/// every row left has the message of an old row.
proof fn lemma_unsubscribe_keeps_keys(es: Seq<Entry>, m: MessageView, id: SubscriberId, k: int)
    requires
        0 <= k < unsubscribe_view(es, m, id).len(),
    ensures
        exists|i: int| 0 <= i < es.len() && #[trigger] es[i].0 == unsubscribe_view(es, m, id)[k].0,
{
    let r = unsubscribe_view(es, m, id);
    if has_key(es, m) {
        let i = key_index(es, m);
        let l = crate::subscriptions::without_id(es[i].1, id);
        assert(0 <= i < es.len());
        if l.len() == 0 {
            let k1 = if k < i { k } else { k + 1 };
            assert(r == es.remove(i));
            assert(r[k] == es[k1]);
            assert(es[k1].0 == r[k].0);
        } else {
            assert(r[k].0 == es[k].0);
        }
    } else {
        assert(r[k] == es[k]);
        assert(es[k].0 == r[k].0);
    }
}

/// The revoke tasks and the tasks that end forwarded subscriptions, told in
/// any order, leave publisher `me` without event subscriptions under `ns`
/// once a revoke task has run, or when it had none to begin with.
proof fn lemma_revoke_tells(bv: BrokerView, me: int, told: Seq<Subscriber>, ns: Seq<char>, ids: Seq<SubscriberId>)
    requires
        0 <= me < bv.len(),
        forall|k: int|
            0 <= k < told.len() ==> (#[trigger] told[k] is RevokeChildren || told[k] is DropSubscribe),
    ensures
        tell_all_view(bv, me, told, MessageView::Revoke(ns), ids).len() == bv.len(),
        told.contains(Subscriber::RevokeChildren) || no_events_under(bv, me, ns) ==> no_events_under(
            tell_all_view(bv, me, told, MessageView::Revoke(ns), ids),
            me,
            ns,
        ),
    decreases told.len(),
{
    if told.len() > 0 {
        let m = MessageView::Revoke(ns);
        let k = told.len() - 1;
        let d = told.drop_last();
        assert forall|j: int| 0 <= j < d.len() implies (#[trigger] d[j] is RevokeChildren || d[j] is DropSubscribe) by {
            assert(d[j] == told[j]);
        }
        lemma_revoke_tells(bv, me, d, ns, ids);
        let mid = tell_all_view(bv, me, d, m, ids);
        let last = told[k];
        let pair = (ids[2 * k], ids[2 * k + 1]);
        let after = tell_view(mid, me, last, m, pair);
        assert(after == tell_all_view(bv, me, told, m, ids));
        if last is RevokeChildren {
            revoke_task_drops_events_under_it(mid, me, ns, pair);
        } else {
            assert(last is DropSubscribe);
            if told.contains(Subscriber::RevokeChildren) {
                let j = choose|j: int| 0 <= j < told.len() && told[j] == Subscriber::RevokeChildren;
                assert(j != k);
                assert(d[j] == told[j]);
                assert(d.contains(Subscriber::RevokeChildren));
            }
            if no_events_under(mid, me, ns) {
                let t = last->DropSubscribe_0 as int;
                let id = last->DropSubscribe_1;
                let sm = MessageView::Subscribe(m.ns());
                if t == me {
                    assert forall|x: int| 0 <= x < after[me].len() implies !message_contains(
                        MessageView::Event(ns, Seq::empty()),
                        #[trigger] after[me][x].0,
                    ) by {
                        lemma_unsubscribe_keeps_keys(mid[me], sm, id, x);
                        let i = choose|i: int| 0 <= i < mid[me].len() && #[trigger] mid[me][i].0 == after[me][x].0;
                    }
                } else {
                    assert(after[me] == mid[me]);
                }
            }
        }
    }
}

/// The subscribers told of `m` are those of the rows that cover it.
proof fn lemma_told_from_covering_rows(es: Seq<Entry>, m: MessageView, open: Seq<bool>, k: int)
    requires
        0 <= k < route_view(es, m, open).1.len(),
    ensures
        exists|i: int, j: int|
            0 <= i < es.len() && 0 <= j < es[i].1.len() && message_contains(es[i].0, m) && #[trigger] es[i].1[j].1
                == route_view(es, m, open).1[k],
    decreases es.len(),
{
    let prev = es.drop_last();
    let tp = route_view(prev, m, open).1;
    let t = route_view(es, m, open).1;
    let e = es.last();
    if k < tp.len() {
        lemma_told_from_covering_rows(prev, m, open, k);
        let (i, j) = choose|i: int, j: int|
            0 <= i < prev.len() && 0 <= j < prev[i].1.len() && message_contains(prev[i].0, m) && #[trigger] prev[i].1[j].1
                == tp[k];
        assert(prev[i] == es[i]);
        assert(t[k] == tp[k]);
    } else {
        let i = es.len() - 1;
        let j = k - tp.len();
        assert(es[i] == e);
        assert(t[k] == subscribers_of(e.1)[j]);
    }
}

/// Every subscriber of a row that covers `m` is told of it.
proof fn lemma_covering_row_told(es: Seq<Entry>, m: MessageView, open: Seq<bool>, i: int, j: int)
    requires
        0 <= i < es.len(),
        0 <= j < es[i].1.len(),
        message_contains(es[i].0, m),
    ensures
        route_view(es, m, open).1.contains(es[i].1[j].1),
    decreases es.len(),
{
    let prev = es.drop_last();
    let tp = route_view(prev, m, open).1;
    let t = route_view(es, m, open).1;
    if i == es.len() - 1 {
        assert(t[tp.len() + j] == es[i].1[j].1);
    } else {
        assert(prev[i] == es[i]);
        lemma_covering_row_told(prev, m, open, i, j);
        let x = choose|x: int| 0 <= x < tp.len() && tp[x] == es[i].1[j].1;
        assert(t[x] == tp[x]);
    }
}

/// A revoke ends the event subscriptions under it: when the client of
/// publisher `me` revokes `ns`, and `me` follows that client's revokes (a
/// revoke task among the subscribers of its rows that cover the revoke,
/// which otherwise hold only revoke tasks and tasks that end forwarded
/// subscriptions, as linking and providing make them), routing the revoke
/// leaves `me`'s table without any event subscription that `ns` covers, so
/// no client receives `me`'s events under `ns` any more.
pub proof fn revoke_ends_event_subscriptions_under_it(
    bv: BrokerView,
    me: int,
    ns: Seq<char>,
    open: Seq<bool>,
    ids: Seq<SubscriberId>,
)
    requires
        0 <= me < bv.len(),
        forall|i: int, j: int|
            0 <= i < bv[me].len() && 0 <= j < bv[me][i].1.len() && message_contains(
                bv[me][i].0,
                MessageView::Revoke(ns),
            ) ==> (#[trigger] bv[me][i].1[j].1 is RevokeChildren || bv[me][i].1[j].1 is DropSubscribe),
        exists|i: int, j: int|
            0 <= i < bv[me].len() && 0 <= j < bv[me][i].1.len() && message_contains(
                bv[me][i].0,
                MessageView::Revoke(ns),
            ) && #[trigger] bv[me][i].1[j].1 == Subscriber::RevokeChildren,
    ensures
        forall|k: int|
            0 <= k < route_broker_view(bv, me, MessageView::Revoke(ns), open, ids)[me].len() ==> !message_contains(
                MessageView::Event(ns, Seq::empty()),
                #[trigger] route_broker_view(bv, me, MessageView::Revoke(ns), open, ids)[me][k].0,
            ),
{
    let m = MessageView::Revoke(ns);
    let es = bv[me];
    let (t, told) = route_view(es, m, open);
    assert forall|k: int| 0 <= k < told.len() implies (#[trigger] told[k] is RevokeChildren || told[k] is DropSubscribe) by {
        lemma_told_from_covering_rows(es, m, open, k);
    }
    let (i, j) = choose|i: int, j: int|
        0 <= i < es.len() && 0 <= j < es[i].1.len() && message_contains(es[i].0, m) && #[trigger] es[i].1[j].1
            == Subscriber::RevokeChildren;
    lemma_covering_row_told(es, m, open, i, j);
    let b1 = bv.update(me, t);
    lemma_revoke_tells(b1, me, told, ns, ids);
    assert(no_events_under(route_broker_view(bv, me, m, open, ids), me, ns));
}

} // verus!
