//! A publisher's subscription table: for each subscribed message, the
//! subscribers to tell when a matching message arrives.
use vstd::prelude::*;
use crate::message::{Message, MessageView, message_contains, same_message};

verus! {

/// The identity of one subscription, taken from a random (version 4) UUID.
pub type SubscriberId = u128;

/// What a subscription does when a matching message arrives. Publishers are
/// named by their index in the broker.
#[derive(Clone, Copy, Debug, PartialEq, Eq, Structural)]
pub enum Subscriber {
    /// Sends the message to the client of the given publisher; it stays
    /// subscribed while that client's channel is open.
    Consumer(usize),
    /// When this publisher's client provides a namespace, the given
    /// publisher starts forwarding its client's subscriptions to it here.
    ForwardProvide(usize),
    /// When this publisher's client revokes a namespace, this publisher
    /// drops the event subscriptions that the namespace covers.
    RevokeChildren,
    /// When this publisher's client subscribes to a namespace, the given
    /// publisher starts sending its events under it to that client.
    ForwardSubscribe(usize),
    /// Once: the given publisher drops its subscription with the given id
    /// to the `Subscribe` message of the namespace.
    DropSubscribe(usize, SubscriberId),
    /// Once: the given publisher drops its subscription with the given id
    /// to the `Event` message of the namespace.
    DropEvent(usize, SubscriberId),
}

/// Whether a subscriber stays subscribed after being told of a message,
/// given which publishers' client channels are open.
pub open spec fn retains(sub: Subscriber, consumer_open: Seq<bool>) -> bool {
    match sub {
        Subscriber::Consumer(p) => p < consumer_open.len() && consumer_open[p as int],
        Subscriber::DropSubscribe(_, _) => false,
        Subscriber::DropEvent(_, _) => false,
        _ => true,
    }
}

/// The subscribers of one message, in the order they subscribed.
pub type SubscriberList = Seq<(SubscriberId, Subscriber)>;

/// One row of the table: a subscribed message and its subscribers.
pub type Entry = (MessageView, SubscriberList);

/// No two rows are for the same message.
pub open spec fn keys_unique(es: Seq<Entry>) -> bool {
    forall|i: int, j: int| 0 <= i < j < es.len() ==> !same_message(#[trigger] es[i].0, #[trigger] es[j].0)
}

/// No id occurs twice among a message's subscribers.
pub open spec fn ids_unique(l: SubscriberList) -> bool {
    forall|i: int, j: int| 0 <= i < j < l.len() ==> #[trigger] l[i].0 != #[trigger] l[j].0
}

/// Rows are unique, each row has at least one subscriber, and ids are
/// unique within a row.
pub open spec fn table_wf(es: Seq<Entry>) -> bool {
    &&& keys_unique(es)
    &&& forall|i: int| 0 <= i < es.len() ==> #[trigger] es[i].1.len() > 0 && ids_unique(es[i].1)
}

/// The table has a row for `m`.
pub open spec fn has_key(es: Seq<Entry>, m: MessageView) -> bool {
    exists|i: int| 0 <= i < es.len() && same_message(#[trigger] es[i].0, m)
}

/// The row for `m`, where there is one.
pub open spec fn key_index(es: Seq<Entry>, m: MessageView) -> int {
    choose|i: int| 0 <= i < es.len() && same_message(#[trigger] es[i].0, m)
}

/// The list has a subscriber with the id.
pub open spec fn has_id(l: SubscriberList, id: SubscriberId) -> bool {
    exists|j: int| 0 <= j < l.len() && #[trigger] l[j].0 == id
}

/// The position of the subscriber with the id, where there is one.
pub open spec fn id_index(l: SubscriberList, id: SubscriberId) -> int {
    choose|j: int| 0 <= j < l.len() && #[trigger] l[j].0 == id
}

/// The list with `sub` under `id`: in place of the subscriber with that id,
/// or added at the end.
pub open spec fn upsert(l: SubscriberList, id: SubscriberId, sub: Subscriber) -> SubscriberList {
    if has_id(l, id) {
        l.update(id_index(l, id), (id, sub))
    } else {
        l.push((id, sub))
    }
}

/// The table after `sub` subscribes to `m` under `id`.
pub open spec fn subscribe_view(es: Seq<Entry>, m: MessageView, id: SubscriberId, sub: Subscriber) -> Seq<Entry> {
    if has_key(es, m) {
        let i = key_index(es, m);
        es.update(i, (es[i].0, upsert(es[i].1, id, sub)))
    } else {
        es.push((m, seq![(id, sub)]))
    }
}

/// The subscribers other than the one with the id.
pub open spec fn without_id(l: SubscriberList, id: SubscriberId) -> SubscriberList {
    if has_id(l, id) {
        l.remove(id_index(l, id))
    } else {
        l
    }
}

/// The table after the subscription `id` to `m` ends; a row left without
/// subscribers goes.
pub open spec fn unsubscribe_view(es: Seq<Entry>, m: MessageView, id: SubscriberId) -> Seq<Entry> {
    if has_key(es, m) {
        let i = key_index(es, m);
        let l = without_id(es[i].1, id);
        if l.len() == 0 {
            es.remove(i)
        } else {
            es.update(i, (es[i].0, l))
        }
    } else {
        es
    }
}

/// The table without the rows whose message `m` covers.
pub open spec fn unsubscribe_children_view(es: Seq<Entry>, m: MessageView) -> Seq<Entry> {
    es.filter(|e: Entry| !message_contains(m, e.0))
}

/// The subscribers that stay after being told of a message.
pub open spec fn kept(l: SubscriberList, consumer_open: Seq<bool>) -> SubscriberList {
    l.filter(|p: (SubscriberId, Subscriber)| retains(p.1, consumer_open))
}

/// The subscribers of a list, in order.
pub open spec fn subscribers_of(l: SubscriberList) -> Seq<Subscriber> {
    l.map_values(|p: (SubscriberId, Subscriber)| p.1)
}

/// Routing `m` through the rows: every row whose message covers `m` tells
/// all of its subscribers, in order, keeps those that stay, and goes if
/// none stays; other rows are untouched. The result is the new rows and
/// the subscribers told, in order.
pub open spec fn route_view(es: Seq<Entry>, m: MessageView, consumer_open: Seq<bool>) -> (Seq<Entry>, Seq<Subscriber>)
    decreases es.len(),
{
    if es.len() == 0 {
        (Seq::empty(), Seq::empty())
    } else {
        let (rows, told) = route_view(es.drop_last(), m, consumer_open);
        let e = es.last();
        if message_contains(e.0, m) {
            let k = kept(e.1, consumer_open);
            (if k.len() > 0 { rows.push((e.0, k)) } else { rows }, told + subscribers_of(e.1))
        } else {
            (rows.push(e), told)
        }
    }
}

/// A subscribed message and its subscribers.
pub struct Subscription {
    pub message: Message,
    pub subscribers: Vec<(SubscriberId, Subscriber)>,
}

impl View for Subscription {
    type V = Entry;

    open spec fn view(&self) -> Entry {
        (self.message@, self.subscribers@)
    }
}

/// The subscriptions that one publisher holds.
pub struct SubscriptionTable {
    entries: Vec<Subscription>,
}

impl View for SubscriptionTable {
    type V = Seq<Entry>;

    closed spec fn view(&self) -> Seq<Entry> {
        self.entries@.map_values(|s: Subscription| s@)
    }
}

/// `Uuid::new_v4().as_u128()`: a fresh random id; nothing is promised of
/// its value.
#[verifier::external_body]
pub(crate) fn new_subscriber_id() -> (id: SubscriberId) {
    uuid::Uuid::new_v4().as_u128()
}

impl SubscriptionTable {
    /// An empty table.
    pub fn new() -> (t: SubscriptionTable)
        ensures
            t@ == Seq::<Entry>::empty(),
            table_wf(t@),
    {
        let t = SubscriptionTable { entries: Vec::new() };
        assert(t@ =~= Seq::<Entry>::empty());
        t
    }

    /// The number of subscribed messages.
    pub fn len(&self) -> (n: usize)
        ensures
            n == self@.len(),
    {
        self.entries.len()
    }

    /// Whether some subscriber is subscribed to `m`.
    pub fn contains_key(&self, m: &Message) -> (b: bool)
        requires
            table_wf(self@),
        ensures
            b == has_key(self@, m@),
    {
        self.find(m).is_some()
    }

    /// The subscribers of `m`, with their ids, if it has a row.
    pub fn subscribers(&self, m: &Message) -> (r: Option<Vec<(SubscriberId, Subscriber)>>)
        requires
            table_wf(self@),
        ensures
            r is Some <==> has_key(self@, m@),
            r matches Some(v) ==> v@ == self@[key_index(self@, m@)].1,
    {
        match self.find(m) {
            Some(i) => {
                let subs = &self.entries[i].subscribers;
                let mut v: Vec<(SubscriberId, Subscriber)> = Vec::new();
                let mut j: usize = 0;
                while j < subs.len()
                    invariant
                        j <= subs@.len(),
                        v@ == subs@.take(j as int),
                    decreases subs@.len() - j,
                {
                    v.push(subs[j]);
                    assert(subs@.take(j + 1) =~= subs@.take(j as int).push(subs@[j as int]));
                    j = j + 1;
                }
                assert(subs@.take(j as int) =~= subs@);
                assert(self@[i as int] == self.entries@[i as int]@);
                Some(v)
            },
            None => None,
        }
    }

    /// The row for `m`, if any.
    pub fn find(&self, m: &Message) -> (r: Option<usize>)
        requires
            table_wf(self@),
        ensures
            r is Some <==> has_key(self@, m@),
            r matches Some(i) ==> i == key_index(self@, m@) && i < self@.len(),
    {
        let mut i: usize = 0;
        while i < self.entries.len()
            invariant
                i <= self.entries@.len(),
                self@.len() == self.entries@.len(),
                table_wf(self@),
                forall|j: int| 0 <= j < i ==> !same_message(#[trigger] self@[j].0, m@),
            decreases self.entries@.len() - i,
        {
            assert(self@[i as int] == self.entries@[i as int]@);
            if self.entries[i].message == *m {
                assert(same_message(self@[i as int].0, m@));
                proof {
                    let k = key_index(self@, m@);
                    assert(0 <= k < self@.len() && same_message(self@[k].0, m@));
                    if k != i {
                        if k < i {
                            assert(!same_message(self@[k].0, m@));
                        } else {
                            assert(!same_message(self@[i as int].0, self@[k].0));
                        }
                    }
                }
                return Some(i);
            }
            i = i + 1;
        }
        None
    }

    /// `sub` subscribes to `m` under `id`, replacing any subscriber that the
    /// id already names there.
    pub fn subscribe_with_id(&mut self, m: Message, id: SubscriberId, sub: Subscriber)
        requires
            table_wf(old(self)@),
        ensures
            final(self)@ == subscribe_view(old(self)@, m@, id, sub),
            table_wf(final(self)@),
    {
        let ghost es = self@;
        match self.find(&m) {
            Some(i) => {
                let mut e = self.entries.remove(i);
                assert(e@ == es[i as int]);
                assert(es[i as int].1.len() > 0);
                let ghost l = e.subscribers@;
                assert(ids_unique(l));
                match find_id(&e.subscribers, id) {
                    Some(j) => {
                        e.subscribers.set(j, (id, sub));
                    },
                    None => {
                        e.subscribers.push((id, sub));
                    },
                }
                assert(e.subscribers@ == upsert(l, id, sub));
                self.entries.insert(i, e);
                assert(self@ =~= es.update(i as int, (es[i as int].0, upsert(l, id, sub))));
                proof {
                    let nl = upsert(l, id, sub);
                    assert forall|a: int, b: int| 0 <= a < b < nl.len() implies #[trigger] nl[a].0
                        != #[trigger] nl[b].0 by {
                        if has_id(l, id) {
                            let k = id_index(l, id);
                            if a != k && b != k {
                                assert(l[a].0 != l[b].0);
                            } else if a == k {
                                assert(l[k].0 != l[b].0);
                            } else {
                                assert(l[a].0 != l[k].0);
                            }
                        } else if b < l.len() {
                            assert(l[a].0 != l[b].0);
                        }
                    }
                    let ns = self@;
                    assert forall|x: int| 0 <= x < ns.len() implies #[trigger] ns[x].1.len() > 0
                        && ids_unique(ns[x].1) by {
                        if x != i {
                            assert(ns[x] == es[x]);
                        }
                    }
                    assert forall|a: int, b: int| 0 <= a < b < ns.len() implies !same_message(
                        #[trigger] ns[a].0,
                        #[trigger] ns[b].0,
                    ) by {
                        assert(ns[a].0 == es[a].0);
                        assert(ns[b].0 == es[b].0);
                    }
                }
            },
            None => {
                let mut subs = Vec::new();
                subs.push((id, sub));
                self.entries.push(Subscription { message: m, subscribers: subs });
                assert(subs@ =~= seq![(id, sub)]);
                assert(self@ =~= es.push((m@, seq![(id, sub)])));
                proof {
                    let ns = self@;
                    assert forall|a: int, b: int| 0 <= a < b < ns.len() implies !same_message(
                        #[trigger] ns[a].0,
                        #[trigger] ns[b].0,
                    ) by {
                        if b == es.len() {
                            assert(!same_message(es[a].0, m@));
                        }
                    }
                    assert forall|x: int| 0 <= x < ns.len() implies #[trigger] ns[x].1.len() > 0
                        && ids_unique(ns[x].1) by {
                        if x < es.len() {
                            assert(ns[x] == es[x]);
                        }
                    }
                }
            },
        }
    }

    /// `sub` subscribes to `m` under a fresh random id, which is returned.
    pub fn subscribe(&mut self, m: Message, sub: Subscriber) -> (id: SubscriberId)
        requires
            table_wf(old(self)@),
        ensures
            final(self)@ == subscribe_view(old(self)@, m@, id, sub),
            table_wf(final(self)@),
    {
        let id = new_subscriber_id();
        self.subscribe_with_id(m, id, sub);
        id
    }

    /// Ends the subscription `id` to `m`; the row for `m` goes when no
    /// subscriber is left in it.
    pub fn unsubscribe(&mut self, m: &Message, id: SubscriberId)
        requires
            table_wf(old(self)@),
        ensures
            final(self)@ == unsubscribe_view(old(self)@, m@, id),
            table_wf(final(self)@),
            !(has_key(final(self)@, m@) && has_id(final(self)@[key_index(final(self)@, m@)].1, id)),
    {
        let ghost es = self@;
        match self.find(m) {
            None => {
                assert(!has_key(self@, m@));
            },
            Some(i) => {
                let mut e = self.entries.remove(i);
                assert(e@ == es[i as int]);
                assert(es[i as int].1.len() > 0);
                let ghost l = e.subscribers@;
                assert(ids_unique(l));
                match find_id(&e.subscribers, id) {
                    Some(j) => {
                        e.subscribers.remove(j);
                    },
                    None => {},
                }
                assert(e.subscribers@ == without_id(l, id));
                proof {
                    let ns = es.remove(i as int);
                    es.remove_ensures(i as int);
                    assert(self@ =~= ns);
                }
                if e.subscribers.len() > 0 {
                    self.entries.insert(i, e);
                    assert(self@ =~= es.update(i as int, (es[i as int].0, without_id(l, id))));
                }
                proof {
                    let nl = without_id(l, id);
                    if has_id(l, id) {
                        l.remove_ensures(id_index(l, id));
                    }
                    assert(ids_unique(nl)) by {
                        if has_id(l, id) {
                            let k = id_index(l, id);
                            assert forall|a: int, b: int| 0 <= a < b < nl.len() implies #[trigger] nl[a].0
                                != #[trigger] nl[b].0 by {
                                let a1 = if a < k { a } else { a + 1 };
                                let b1 = if b < k { b } else { b + 1 };
                                assert(l[a1].0 != l[b1].0);
                            }
                        }
                    }
                    let ns = self@;
                    es.remove_ensures(i as int);
                    assert forall|x: int| 0 <= x < ns.len() implies #[trigger] ns[x].1.len() > 0
                        && ids_unique(ns[x].1) by {
                        if nl.len() == 0 {
                            if x < i {
                                assert(ns[x] == es[x]);
                            } else {
                                assert(ns[x] == es[x + 1]);
                            }
                        } else if x != i {
                            assert(ns[x] == es[x]);
                        }
                    }
                    assert forall|a: int, b: int| 0 <= a < b < ns.len() implies !same_message(
                        #[trigger] ns[a].0,
                        #[trigger] ns[b].0,
                    ) by {
                        if nl.len() == 0 {
                            let a1 = if a < i { a } else { a + 1 };
                            let b1 = if b < i { b } else { b + 1 };
                            assert(ns[a] == es[a1] && ns[b] == es[b1]);
                            assert(!same_message(es[a1].0, es[b1].0));
                        } else {
                            assert(ns[a].0 == es[a].0);
                            assert(ns[b].0 == es[b].0);
                        }
                    }
                    if has_key(ns, m@) {
                        let k = key_index(ns, m@);
                        if nl.len() == 0 {
                            let k1 = if k < i { k } else { k + 1 };
                            assert(ns[k] == es[k1]);
                            assert(same_message(es[k1].0, m@));
                            if k1 < i {
                                assert(!same_message(es[k1].0, es[i as int].0));
                            } else {
                                assert(!same_message(es[i as int].0, es[k1].0));
                            }
                        } else {
                            if k != i {
                                assert(ns[k].0 == es[k].0);
                                if k < i {
                                    assert(!same_message(es[k].0, es[i as int].0));
                                } else {
                                    assert(!same_message(es[i as int].0, es[k].0));
                                }
                            }
                            assert(ns[k].1 == nl);
                            if has_id(nl, id) {
                                let j = id_index(nl, id);
                                if has_id(l, id) {
                                    let r = id_index(l, id);
                                    let j1 = if j < r { j } else { j + 1 };
                                    assert(nl[j] == l[j1]);
                                    if j1 < r {
                                        assert(l[j1].0 != l[r].0);
                                    } else {
                                        assert(l[r].0 != l[j1].0);
                                    }
                                } else {
                                    assert(nl[j] == l[j]);
                                }
                            }
                        }
                    }
                }
            },
        }
    }

    /// Drops every row whose message `m` covers.
    pub fn unsubscribe_children(&mut self, m: &Message)
        requires
            table_wf(old(self)@),
        ensures
            final(self)@ == unsubscribe_children_view(old(self)@, m@),
            table_wf(final(self)@),
            forall|i: int| 0 <= i < final(self)@.len() ==> !message_contains(m@, #[trigger] final(self)@[i].0),
    {
        let ghost es = self@;
        let ghost pred = |e: Entry| !message_contains(m@, e.0);
        let mut i: usize = 0;
        let ghost mut p: int = 0;
        while i < self.entries.len()
            invariant
                0 <= p <= es.len(),
                self@ == es.take(p).filter(pred) + es.skip(p),
                i == es.take(p).filter(pred).len(),
                self@.len() == self.entries@.len(),
                table_wf(self@),
                pred == (|e: Entry| !message_contains(m@, e.0)),
            decreases self.entries@.len() - i,
        {
            let ghost before = self@;
            assert(es.skip(p).len() > 0);
            assert(before[i as int] == es[p]);
            assert(es.take(p + 1) =~= es.take(p).push(es[p]));
            proof {
                es.take(p).lemma_filter_push(es[p], pred);
            }
            assert(self.entries@[i as int]@ == es[p]);
            if m.contains(&self.entries[i].message) {
                self.entries.remove(i);
                proof {
                    before.remove_ensures(i as int);
                    assert(self@ =~= before.remove(i as int));
                    assert(self@ =~= es.take(p + 1).filter(pred) + es.skip(p + 1));
                    let ns = self@;
                    assert forall|x: int| 0 <= x < ns.len() implies #[trigger] ns[x].1.len() > 0
                        && ids_unique(ns[x].1) by {
                        if x < i {
                            assert(ns[x] == before[x]);
                        } else {
                            assert(ns[x] == before[x + 1]);
                        }
                    }
                    assert forall|a: int, b: int| 0 <= a < b < ns.len() implies !same_message(
                        #[trigger] ns[a].0,
                        #[trigger] ns[b].0,
                    ) by {
                        let a1 = if a < i { a } else { a + 1 };
                        let b1 = if b < i { b } else { b + 1 };
                        assert(ns[a] == before[a1] && ns[b] == before[b1]);
                        assert(!same_message(before[a1].0, before[b1].0));
                    }
                }
            } else {
                i = i + 1;
                assert(self@ =~= es.take(p + 1).filter(pred) + es.skip(p + 1));
            }
            proof {
                p = p + 1;
            }
        }
        proof {
            assert(es.take(p) =~= es);
            assert(es.skip(p) =~= Seq::<Entry>::empty());
            assert(self@ =~= es.filter(pred));
            let f = es.filter(pred);
            assert forall|x: int| 0 <= x < f.len() implies !message_contains(m@, #[trigger] f[x].0) by {
                es.lemma_filter_pred(pred, x);
            }
        }
    }

    /// The subscribers that routing `m` through the table would tell, in
    /// order; which consumers' channels are open makes no difference to
    /// who is told.
    pub fn told(&self, m: &Message) -> (told: Vec<Subscriber>)
        ensures
            forall|open: Seq<bool>| told@ == #[trigger] route_view(self@, m@, open).1,
    {
        let ghost es = self@;
        let ghost none = Seq::<bool>::empty();
        let mut told: Vec<Subscriber> = Vec::new();
        let mut i: usize = 0;
        assert(es.take(0) =~= Seq::<Entry>::empty());
        while i < self.entries.len()
            invariant
                i <= es.len(),
                es == self@,
                es.len() == self.entries@.len(),
                told@ == route_view(es.take(i as int), m@, none).1,
            decreases es.len() - i,
        {
            assert(es.take(i + 1).drop_last() =~= es.take(i as int));
            assert(es.take(i + 1).last() == es[i as int]);
            assert(self.entries@[i as int]@ == es[i as int]);
            if self.entries[i].message.contains(m) {
                let subs = &self.entries[i].subscribers;
                let ghost t0 = told@;
                let mut j: usize = 0;
                assert(subs@.take(0) =~= Seq::<(SubscriberId, Subscriber)>::empty());
                while j < subs.len()
                    invariant
                        j <= subs@.len(),
                        told@ == t0 + subscribers_of(subs@.take(j as int)),
                    decreases subs@.len() - j,
                {
                    let (_, sub) = subs[j];
                    assert(subscribers_of(subs@.take(j + 1)) =~= subscribers_of(subs@.take(j as int)).push(sub));
                    told.push(sub);
                    j = j + 1;
                }
                assert(subs@.take(j as int) =~= subs@);
            }
            i = i + 1;
        }
        assert(es.take(i as int) =~= es);
        assert forall|open: Seq<bool>| told@ == #[trigger] route_view(self@, m@, open).1 by {
            lemma_told_ignores_open(es, m@, none, open);
        }
        told
    }

    /// Routes `m` through the table: every row whose message covers `m`
    /// tells all of its subscribers, in order, and keeps those that stay
    /// (tasks, and consumers whose client channel is open); a row that
    /// keeps none goes. Returns the subscribers told, in order.
    pub fn route(&mut self, m: &Message, consumer_open: &Vec<bool>) -> (told: Vec<Subscriber>)
        requires
            table_wf(old(self)@),
        ensures
            final(self)@ == route_view(old(self)@, m@, consumer_open@).0,
            told@ == route_view(old(self)@, m@, consumer_open@).1,
            table_wf(final(self)@),
    {
        let ghost es = self@;
        let ghost open = consumer_open@;
        let mut told: Vec<Subscriber> = Vec::new();
        let mut i: usize = 0;
        let ghost mut p: int = 0;
        assert(es.take(0) =~= Seq::<Entry>::empty());
        assert(es.skip(0) =~= es);
        while i < self.entries.len()
            invariant
                0 <= p <= es.len(),
                self@ == route_view(es.take(p), m@, open).0 + es.skip(p),
                told@ == route_view(es.take(p), m@, open).1,
                i == route_view(es.take(p), m@, open).0.len(),
                self@.len() == self.entries@.len(),
                table_wf(self@),
                open == consumer_open@,
            decreases self.entries@.len() - i,
        {
            let ghost before = self@;
            let ghost rows = route_view(es.take(p), m@, open).0;
            assert(es.skip(p).len() > 0);
            assert(before[i as int] == es[p]);
            assert(es.take(p + 1).drop_last() =~= es.take(p));
            assert(es.take(p + 1).last() == es[p]);
            assert(es.skip(p).drop_first() =~= es.skip(p + 1));
            assert(self.entries@[i as int]@ == es[p]);
            assert(es[p].1.len() > 0 && ids_unique(es[p].1)) by {
                assert(before[i as int].1.len() > 0);
            }
            if self.entries[i].message.contains(m) {
                let mut e = self.entries.remove(i);
                let k = route_row(&e.subscribers, consumer_open, &mut told);
                proof {
                    lemma_filter_ids_unique(es[p].1, |q: (SubscriberId, Subscriber)| retains(q.1, open));
                    before.remove_ensures(i as int);
                }
                if k.len() > 0 {
                    e.subscribers = k;
                    self.entries.insert(i, e);
                    i = i + 1;
                    proof {
                        assert(self@ =~= before.update(i - 1, (es[p].0, kept(es[p].1, open))));
                        assert(self@ =~= route_view(es.take(p + 1), m@, open).0 + es.skip(p + 1));
                        let ns = self@;
                        assert forall|x: int| 0 <= x < ns.len() implies #[trigger] ns[x].1.len() > 0
                            && ids_unique(ns[x].1) by {
                            if x != i - 1 {
                                assert(ns[x] == before[x]);
                            }
                        }
                        assert forall|a: int, b: int| 0 <= a < b < ns.len() implies !same_message(
                            #[trigger] ns[a].0,
                            #[trigger] ns[b].0,
                        ) by {
                            assert(ns[a].0 == before[a].0);
                            assert(ns[b].0 == before[b].0);
                        }
                    }
                } else {
                    proof {
                        assert(self@ =~= before.remove(i as int));
                        assert(self@ =~= route_view(es.take(p + 1), m@, open).0 + es.skip(p + 1));
                        let ns = self@;
                        assert forall|x: int| 0 <= x < ns.len() implies #[trigger] ns[x].1.len() > 0
                            && ids_unique(ns[x].1) by {
                            if x < i {
                                assert(ns[x] == before[x]);
                            } else {
                                assert(ns[x] == before[x + 1]);
                            }
                        }
                        assert forall|a: int, b: int| 0 <= a < b < ns.len() implies !same_message(
                            #[trigger] ns[a].0,
                            #[trigger] ns[b].0,
                        ) by {
                            let a1 = if a < i { a } else { a + 1 };
                            let b1 = if b < i { b } else { b + 1 };
                            assert(ns[a] == before[a1] && ns[b] == before[b1]);
                            assert(!same_message(before[a1].0, before[b1].0));
                        }
                    }
                }
            } else {
                i = i + 1;
                assert(self@ =~= route_view(es.take(p + 1), m@, open).0 + es.skip(p + 1));
            }
            proof {
                p = p + 1;
            }
        }
        proof {
            assert(es.take(p) =~= es);
            assert(es.skip(p) =~= Seq::<Entry>::empty());
            assert(self@ =~= route_view(es, m@, open).0);
        }
        told
    }
}

/// Whether a subscriber stays after being told of a message.
fn stays(sub: Subscriber, consumer_open: &Vec<bool>) -> (r: bool)
    ensures
        r == retains(sub, consumer_open@),
{
    match sub {
        Subscriber::Consumer(p) => p < consumer_open.len() && consumer_open[p],
        Subscriber::DropSubscribe(_, _) => false,
        Subscriber::DropEvent(_, _) => false,
        _ => true,
    }
}

/// Tells every subscriber of a row, appending them to `told`, and returns
/// those that stay.
fn route_row(
    subs: &Vec<(SubscriberId, Subscriber)>,
    consumer_open: &Vec<bool>,
    told: &mut Vec<Subscriber>,
) -> (k: Vec<(SubscriberId, Subscriber)>)
    ensures
        k@ == kept(subs@, consumer_open@),
        final(told)@ == old(told)@ + subscribers_of(subs@),
{
    let ghost pred = |q: (SubscriberId, Subscriber)| retains(q.1, consumer_open@);
    let ghost t0 = told@;
    let mut k: Vec<(SubscriberId, Subscriber)> = Vec::new();
    let mut j: usize = 0;
    assert(subs@.take(0) =~= Seq::<(SubscriberId, Subscriber)>::empty());
    while j < subs.len()
        invariant
            j <= subs@.len(),
            k@ == subs@.take(j as int).filter(pred),
            told@ == t0 + subscribers_of(subs@.take(j as int)),
            pred == (|q: (SubscriberId, Subscriber)| retains(q.1, consumer_open@)),
        decreases subs@.len() - j,
    {
        let (id, sub) = subs[j];
        assert(subs@.take(j + 1) =~= subs@.take(j as int).push((id, sub)));
        proof {
            subs@.take(j as int).lemma_filter_push((id, sub), pred);
        }
        if stays(sub, consumer_open) {
            k.push((id, sub));
        }
        told.push(sub);
        assert(subscribers_of(subs@.take(j + 1)) =~= subscribers_of(subs@.take(j as int)).push(sub));
        j = j + 1;
    }
    assert(subs@.take(j as int) =~= subs@);
    k
}

/// Who is told of a message does not depend on which consumers' channels
/// are open.
proof fn lemma_told_ignores_open(es: Seq<Entry>, m: MessageView, o1: Seq<bool>, o2: Seq<bool>)
    ensures
        route_view(es, m, o1).1 == route_view(es, m, o2).1,
    decreases es.len(),
{
    if es.len() > 0 {
        lemma_told_ignores_open(es.drop_last(), m, o1, o2);
    }
}

/// Whatever a filter keeps of a list with unique ids has unique ids.
proof fn lemma_filter_ids_unique(l: SubscriberList, pred: spec_fn((SubscriberId, Subscriber)) -> bool)
    requires
        ids_unique(l),
    ensures
        ids_unique(l.filter(pred)),
    decreases l.len(),
{
    reveal(Seq::filter);
    if l.len() > 0 {
        let d = l.drop_last();
        assert(ids_unique(d)) by {
            assert forall|a: int, b: int| 0 <= a < b < d.len() implies #[trigger] d[a].0
                != #[trigger] d[b].0 by {
                assert(d[a] == l[a] && d[b] == l[b]);
            }
        }
        lemma_filter_ids_unique(d, pred);
        let f = d.filter(pred);
        if pred(l.last()) {
            let g = f.push(l.last());
            assert forall|a: int, b: int| 0 <= a < b < g.len() implies #[trigger] g[a].0
                != #[trigger] g[b].0 by {
                if b == f.len() {
                    assert(f.contains(f[a]));
                    d.lemma_filter_contains_rev(pred, f[a]);
                    let k = choose|k: int| 0 <= k < d.len() && d[k] == f[a];
                    assert(l[k] == d[k]);
                    assert(l[k].0 != l[l.len() - 1].0);
                } else {
                    assert(f[a].0 != f[b].0);
                }
            }
        }
    }
}

/// The position of the subscriber with the id, if any.
fn find_id(l: &Vec<(SubscriberId, Subscriber)>, id: SubscriberId) -> (r: Option<usize>)
    requires
        ids_unique(l@),
    ensures
        r is Some <==> has_id(l@, id),
        r matches Some(j) ==> j == id_index(l@, id) && j < l@.len(),
{
    let mut j: usize = 0;
    while j < l.len()
        invariant
            j <= l@.len(),
            ids_unique(l@),
            forall|k: int| 0 <= k < j ==> #[trigger] l@[k].0 != id,
        decreases l@.len() - j,
    {
        if l[j].0 == id {
            proof {
                let k = id_index(l@, id);
                assert(l@[j as int].0 == id);
                if k != j {
                    if k < j {
                        assert(l@[k].0 != id);
                    } else {
                        assert(l@[j as int].0 != l@[k].0);
                    }
                }
            }
            return Some(j);
        }
        j = j + 1;
    }
    None
}

/// A subscription under an id that is new for its message ends without a
/// trace: subscribing and then unsubscribing it gives back the table.
pub proof fn subscribe_unsubscribe_restores(es: Seq<Entry>, m: MessageView, id: SubscriberId, sub: Subscriber)
    requires
        table_wf(es),
        !(has_key(es, m) && has_id(es[key_index(es, m)].1, id)),
    ensures
        unsubscribe_view(subscribe_view(es, m, id, sub), m, id) == es,
{
    let ns = subscribe_view(es, m, id, sub);
    if has_key(es, m) {
        let i = key_index(es, m);
        let l = es[i].1;
        assert(upsert(l, id, sub) == l.push((id, sub)));
        assert(ns[i].0 == es[i].0);
        assert(has_key(ns, m));
        let k = key_index(ns, m);
        if k != i {
            assert(ns[k].0 == es[k].0);
            if k < i {
                assert(!same_message(es[k].0, es[i].0));
            } else {
                assert(!same_message(es[i].0, es[k].0));
            }
        }
        let nl = l.push((id, sub));
        assert(nl[l.len() as int].0 == id);
        assert(has_id(nl, id));
        let j = id_index(nl, id);
        if j != l.len() {
            assert(nl[j] == l[j]);
            assert(has_id(l, id));
        }
        assert(nl.remove(l.len() as int) =~= l);
        assert(es[i].1.len() > 0);
        assert(ns.update(i, (ns[i].0, l)) =~= es);
    } else {
        let n = es.len() as int;
        assert(ns[n].0 == m);
        assert(has_key(ns, m));
        let k = key_index(ns, m);
        if k != n {
            assert(ns[k] == es[k]);
            assert(has_key(es, m));
        }
        let nl = seq![(id, sub)];
        assert(nl[0].0 == id);
        assert(has_id(nl, id));
        assert(id_index(nl, id) == 0);
        assert(nl.remove(0).len() == 0);
        assert(ns.remove(n) =~= es);
    }
}

/// After a message is routed, none of the one-time subscribers of the rows
/// that cover it is left, and every row that does not cover it is still
/// there, unchanged.
pub proof fn route_ends_one_time_subscriptions(es: Seq<Entry>, m: MessageView, consumer_open: Seq<bool>)
    ensures
        forall|i: int, j: int|
            0 <= i < route_view(es, m, consumer_open).0.len() && message_contains(
                route_view(es, m, consumer_open).0[i].0,
                m,
            ) && 0 <= j < route_view(es, m, consumer_open).0[i].1.len() ==> retains(
                #[trigger] route_view(es, m, consumer_open).0[i].1[j].1,
                consumer_open,
            ),
        forall|e: Entry| #[trigger] es.contains(e) && !message_contains(e.0, m) ==> route_view(
            es,
            m,
            consumer_open,
        ).0.contains(e),
    decreases es.len(),
{
    if es.len() > 0 {
        let d = es.drop_last();
        route_ends_one_time_subscriptions(d, m, consumer_open);
        let (rows, told) = route_view(d, m, consumer_open);
        let e = es.last();
        let pred = |q: (SubscriberId, Subscriber)| retains(q.1, consumer_open);
        let r = route_view(es, m, consumer_open).0;
        if message_contains(e.0, m) {
            let k = kept(e.1, consumer_open);
            assert forall|j: int| 0 <= j < k.len() implies retains(#[trigger] k[j].1, consumer_open) by {
                e.1.lemma_filter_pred(pred, j);
            }
            assert forall|x: int, j: int|
                0 <= x < r.len() && message_contains(r[x].0, m) && 0 <= j < r[x].1.len() implies retains(
                #[trigger] r[x].1[j].1,
                consumer_open,
            ) by {
                if x < rows.len() {
                    assert(r[x] == rows[x]);
                }
            }
        } else {
            assert forall|x: int, j: int|
                0 <= x < r.len() && message_contains(r[x].0, m) && 0 <= j < r[x].1.len() implies retains(
                #[trigger] r[x].1[j].1,
                consumer_open,
            ) by {
                if x < rows.len() {
                    assert(r[x] == rows[x]);
                }
            }
        }
        assert forall|f: Entry| #[trigger] es.contains(f) && !message_contains(f.0, m) implies r.contains(f) by {
            let x = choose|x: int| 0 <= x < es.len() && es[x] == f;
            if x < d.len() {
                assert(d[x] == f);
                assert(d.contains(f));
                let y = choose|y: int| 0 <= y < rows.len() && rows[y] == f;
                assert(r[y] == f);
            } else {
                assert(r[r.len() - 1] == f);
            }
        }
    }
}

/// What a subscription reads back: after `sub` subscribes to `m` under
/// `id`, the row for `m` holds `sub` under `id`.
pub proof fn subscribed_is_found(es: Seq<Entry>, m: MessageView, id: SubscriberId, sub: Subscriber)
    requires
        table_wf(es),
    ensures
        has_key(subscribe_view(es, m, id, sub), m),
        subscribe_view(es, m, id, sub)[key_index(subscribe_view(es, m, id, sub), m)].1.contains((id, sub)),
{
    let ns = subscribe_view(es, m, id, sub);
    if has_key(es, m) {
        let i = key_index(es, m);
        let l = es[i].1;
        let nl = upsert(l, id, sub);
        assert(ns[i].0 == es[i].0);
        assert(same_message(ns[i].0, m));
        let k = key_index(ns, m);
        if k != i {
            assert(ns[k].0 == es[k].0);
            if k < i {
                assert(!same_message(es[k].0, es[i].0));
            } else {
                assert(!same_message(es[i].0, es[k].0));
            }
        }
        if has_id(l, id) {
            let j = id_index(l, id);
            assert(nl[j] == (id, sub));
        } else {
            assert(nl[l.len() as int] == (id, sub));
        }
    } else {
        let n = es.len() as int;
        assert(same_message(ns[n].0, m));
        let k = key_index(ns, m);
        if k != n {
            assert(ns[k] == es[k]);
            assert(has_key(es, m));
        }
        assert(ns[n].1[0] == (id, sub));
    }
}

/// Revoking drops exactly what it covers: after `unsubscribe_children(m)`
/// every row whose message `m` does not cover is still in the table, in the
/// same order as before, and every row left is one of the old rows that `m`
/// does not cover.
pub proof fn unsubscribe_children_drops_only_covered(es: Seq<Entry>, m: MessageView)
    ensures
        forall|i: int|
            0 <= i < es.len() && !message_contains(m, #[trigger] es[i].0) ==> unsubscribe_children_view(
                es,
                m,
            ).contains(es[i]),
        forall|k: int|
            0 <= k < unsubscribe_children_view(es, m).len() ==> es.contains(
                #[trigger] unsubscribe_children_view(es, m)[k],
            ) && !message_contains(m, unsubscribe_children_view(es, m)[k].0),
{
    let pred = |e: Entry| !message_contains(m, e.0);
    assert forall|i: int| 0 <= i < es.len() && !message_contains(m, #[trigger] es[i].0) implies es.filter(
        pred,
    ).contains(es[i]) by {
        es.lemma_filter_contains(pred, i);
    }
    assert forall|k: int| 0 <= k < es.filter(pred).len() implies es.contains(#[trigger] es.filter(pred)[k])
        && !message_contains(m, es.filter(pred)[k].0) by {
        es.lemma_filter_pred(pred, k);
        es.lemma_filter_contains_rev(pred, es.filter(pred)[k]);
    }
}

/// Routing keeps every subscriber that stays: after routing `m`, each row
/// whose message covers `m` holds exactly its old subscribers that stay
/// (tasks, and consumers whose channel is open), in their old order, and
/// goes only when none stays; each row that does not cover `m` is kept as
/// it was.
pub proof fn route_keeps_staying_subscribers(es: Seq<Entry>, m: MessageView, open: Seq<bool>)
    ensures
        forall|i: int|
            0 <= i < es.len() && message_contains(#[trigger] es[i].0, m) && es[i].1.filter(
                |q: (SubscriberId, Subscriber)| retains(q.1, open),
            ).len() > 0 ==> route_view(es, m, open).0.contains(
                (es[i].0, es[i].1.filter(|q: (SubscriberId, Subscriber)| retains(q.1, open))),
            ),
        forall|i: int|
            0 <= i < es.len() && !message_contains(#[trigger] es[i].0, m) ==> route_view(es, m, open).0.contains(
                es[i],
            ),
        forall|k: int|
            0 <= k < route_view(es, m, open).0.len() ==> row_has_origin(es, route_view(es, m, open).0[k], m, open),
    decreases es.len(),
{
    if es.len() > 0 {
        let prev = es.drop_last();
        route_keeps_staying_subscribers(prev, m, open);
        let r = route_view(es, m, open).0;
        let rp = route_view(prev, m, open).0;
        let e = es.last();
        let k = kept(e.1, open);
        assert forall|x: Entry| rp.contains(x) implies r.contains(x) by {
            let j = choose|j: int| 0 <= j < rp.len() && rp[j] == x;
            if message_contains(e.0, m) && k.len() == 0 {
                assert(r[j] == x);
            } else {
                assert(r[j] == x);
            }
        }
        assert forall|i: int|
            0 <= i < es.len() && message_contains(#[trigger] es[i].0, m) && es[i].1.filter(
                |q: (SubscriberId, Subscriber)| retains(q.1, open),
            ).len() > 0 implies r.contains(
                (es[i].0, es[i].1.filter(|q: (SubscriberId, Subscriber)| retains(q.1, open))),
            ) by {
            if i == es.len() - 1 {
                assert(r[rp.len() as int] == (e.0, k));
            } else {
                assert(prev[i] == es[i]);
            }
        }
        assert forall|i: int| 0 <= i < es.len() && !message_contains(#[trigger] es[i].0, m) implies r.contains(
            es[i],
        ) by {
            if i == es.len() - 1 {
                assert(r[rp.len() as int] == e);
            } else {
                assert(prev[i] == es[i]);
            }
        }
    }
    assert forall|x: int| 0 <= x < route_view(es, m, open).0.len() implies row_has_origin(
        es,
        route_view(es, m, open).0[x],
        m,
        open,
    ) by {
        lemma_route_row_origin(es, m, open, x);
    }
}

proof fn lemma_route_row_origin(es: Seq<Entry>, m: MessageView, open: Seq<bool>, x: int)
    requires
        0 <= x < route_view(es, m, open).0.len(),
    ensures
        exists|i: int| 0 <= i < es.len() && #[trigger] route_rows_from(route_view(es, m, open).0[x], es[i], m, open),
    decreases es.len(),
{
    let prev = es.drop_last();
    let rp = route_view(prev, m, open).0;
    let r = route_view(es, m, open).0;
    let e = es.last();
    if x < rp.len() {
        lemma_route_row_origin(prev, m, open, x);
        let i = choose|i: int| 0 <= i < prev.len() && #[trigger] route_rows_from(rp[x], prev[i], m, open);
        assert(r[x] == rp[x]);
        assert(prev[i] == es[i]);
        assert(route_rows_from(r[x], es[i], m, open));
    } else {
        let i = es.len() - 1;
        assert(es[i] == e);
        assert(route_rows_from(r[x], es[i], m, open));
    }
}

/// A row after routing `m` comes from one of the old rows `es`.
pub open spec fn row_has_origin(es: Seq<Entry>, after: Entry, m: MessageView, open: Seq<bool>) -> bool {
    exists|i: int| 0 <= i < es.len() && #[trigger] route_rows_from(after, es[i], m, open)
}

/// A row after routing `m` comes from the old row `e`: as it was, when `e`
/// does not cover `m`; or with the subscribers of `e` that stay, in order,
/// when `e` covers `m` and some stay.
pub open spec fn route_rows_from(after: Entry, e: Entry, m: MessageView, open: Seq<bool>) -> bool {
    if message_contains(e.0, m) {
        &&& e.1.filter(|q: (SubscriberId, Subscriber)| retains(q.1, open)).len() > 0
        &&& after == (e.0, e.1.filter(|q: (SubscriberId, Subscriber)| retains(q.1, open)))
    } else {
        after == e
    }
}

} // verus!
