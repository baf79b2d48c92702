//! The bookkeeping of the load generator: which namespaces each simulated
//! client provides and subscribes to, and the message counters that tell
//! how many messages were sent and received under each namespace.
use vstd::prelude::*;
use crate::message::{Message, MessageView};
use crate::pattern::Pattern;
use rand::Rng;

verus! {

/// Names one shared message counter; the driver keeps the counters.
pub type CounterId = u64;

/// The number of random characters after the `/` of a generated namespace.
pub const NAMESPACE_LENGTH: usize = 5;

/// The default number of subscriptions of each client.
pub const CONSUMERS_PER_CLIENT: u32 = 2;

/// The letters `A` to `Z` and then `a` to `z`: the alphabetic characters
/// from `A` to `z`.
pub open spec fn ascii_letters() -> Seq<char> {
    Seq::new(52, |i: int| if i < 26 { (65 + i) as char } else { (97 + i - 26) as char })
}

/// A namespace made by the generator: `/` and then characters of the seed.
pub open spec fn generated_namespace(ns: Seq<char>, seed: Seq<char>) -> bool {
    &&& ns.len() == NAMESPACE_LENGTH + 1
    &&& ns[0] == '/'
    &&& forall|i: int| 1 <= i < ns.len() ==> seed.contains(#[trigger] ns[i])
}

/// A namespace and the counter of its messages.
pub type CountedNamespace = (Seq<char>, CounterId);

/// The state of the generator.
pub struct FactoryView {
    pub seed: Seq<char>,
    pub consumers_per_client: u32,
    pub provider_ns: Seq<CountedNamespace>,
    pub subscriber_ns: Seq<CountedNamespace>,
    pub next_counter: CounterId,
}

/// What a new client does: the namespace it provides and the namespaces it
/// subscribes to.
pub struct PlanView {
    pub provider: CountedNamespace,
    pub subscriptions: Seq<CountedNamespace>,
}

/// How many namespaces a new client needs that do not exist yet: one to
/// provide when no namespace is waiting for a provider, and one per missing
/// subscription.
pub open spec fn fresh_needed(f: FactoryView) -> nat {
    (if f.provider_ns.len() == 0 { 1nat } else { 0nat }) + if f.consumers_per_client > f.subscriber_ns.len() {
        (f.consumers_per_client - f.subscriber_ns.len()) as nat
    } else {
        0nat
    }
}

/// The generator's state and the new client's plan, given the fresh
/// namespaces in the order they are made. The client provides the namespace
/// waiting longest for a provider, or a fresh one with a new counter; it
/// subscribes to the namespaces the generator remembers and to fresh ones
/// up to the number of consumers per client, and those fresh ones then wait
/// for a provider. The generator remembers the namespaces the latest
/// clients provided, one per consumer, dropping the oldest.
pub open spec fn plan_view(f: FactoryView, fresh: Seq<Seq<char>>) -> (FactoryView, PlanView) {
    let has_waiting = f.provider_ns.len() > 0;
    let provider = if has_waiting { f.provider_ns.last() } else { (fresh[0], f.next_counter) };
    let base = if has_waiting { f.provider_ns.drop_last() } else { f.provider_ns };
    let c0: int = if has_waiting { f.next_counter as int } else { f.next_counter + 1 };
    let fi: int = if has_waiting { 0 } else { 1 };
    let extra: int = if f.consumers_per_client > f.subscriber_ns.len() {
        f.consumers_per_client - f.subscriber_ns.len()
    } else {
        0
    };
    let added = Seq::new(extra as nat, |k: int| (fresh[fi + k], (c0 + k) as CounterId));
    let trimmed = if f.subscriber_ns.len() == f.consumers_per_client {
        f.subscriber_ns.drop_first()
    } else {
        f.subscriber_ns
    };
    (
        FactoryView {
            seed: f.seed,
            consumers_per_client: f.consumers_per_client,
            provider_ns: base + added,
            subscriber_ns: trimmed.push(provider),
            next_counter: (c0 + extra) as CounterId,
        },
        PlanView { provider, subscriptions: f.subscriber_ns + added },
    )
}

/// `rand::thread_rng().gen_range(0, n)`: a random index below `n` (it
/// panics when `n` is 0).
#[verifier::external_body]
fn random_index(n: usize) -> (i: usize)
    requires
        n > 0,
    ensures
        i < n,
{
    rand::thread_rng().gen_range(0, n)
}

/// `Iterator::collect` of characters into a `String`.
#[verifier::external_body]
fn text_of_chars(chars: &Vec<char>) -> (s: String)
    ensures
        s@ == chars@,
{
    chars.iter().collect()
}

/// The producer of one client: an endless stream of the same event under
/// the namespace it provides.
pub struct SimpleProducer {
    pub namespace: Pattern,
    pub message: String,
    pub counter: CounterId,
}

impl SimpleProducer {
    /// A producer of `message` under `namespace`, counting into `counter`.
    pub fn new(namespace: Pattern, message: &str, counter: CounterId) -> (p: SimpleProducer)
        ensures
            p.namespace@ == namespace@,
            p.message@ == message@,
            p.counter == counter,
    {
        SimpleProducer { namespace, message: message.to_owned(), counter }
    }

    /// The next message of the stream.
    pub fn next_message(&self) -> (m: Message)
        ensures
            m@ == MessageView::Event(self.namespace@, self.message@),
    {
        Message::Event(self.namespace.clone(), self.message.clone())
    }
}

/// What a new client is to do.
pub struct ClientPlan {
    /// The namespace the client provides, and its counter.
    pub provider: (Pattern, CounterId),
    /// The producer of the client's events.
    pub producer: SimpleProducer,
    /// The namespaces the client subscribes to, and their counters.
    pub subscriptions: Vec<(Pattern, CounterId)>,
}

/// The view of a namespace with its counter.
pub open spec fn stream_view(s: (Pattern, CounterId)) -> CountedNamespace {
    (s.0@, s.1)
}

/// Makes the namespaces and the plans of the simulated clients.
pub struct SimpleFactory {
    seed: Vec<char>,
    consumers_per_client: u32,
    provider_ns: Vec<(Pattern, CounterId)>,
    subscriber_ns: Vec<(Pattern, CounterId)>,
    next_counter: CounterId,
}

impl View for SimpleFactory {
    type V = FactoryView;

    closed spec fn view(&self) -> FactoryView {
        FactoryView {
            seed: self.seed@,
            consumers_per_client: self.consumers_per_client,
            provider_ns: self.provider_ns@.map_values(|s: (Pattern, CounterId)| stream_view(s)),
            subscriber_ns: self.subscriber_ns@.map_values(|s: (Pattern, CounterId)| stream_view(s)),
            next_counter: self.next_counter,
        }
    }
}

impl Default for SimpleFactory {
    /// A generator seeded with the letters `A` to `Z` and `a` to `z`, two
    /// consumers per client and nothing remembered.
    fn default() -> (f: SimpleFactory)
        ensures
            f@.seed == ascii_letters(),
            f@.consumers_per_client == CONSUMERS_PER_CLIENT,
            f@.provider_ns == Seq::<CountedNamespace>::empty(),
            f@.subscriber_ns == Seq::<CountedNamespace>::empty(),
            f@.next_counter == 0,
    {
        let mut seed: Vec<char> = Vec::new();
        let mut b: u8 = 65;
        while b <= 122
            invariant
                65 <= b <= 123,
                seed@ == ascii_letters().take(letters_before(b as int)),
            decreases 123 - b,
        {
            if b <= 90 || b >= 97 {
                let c = b as char;
                seed.push(c);
                assert(seed@ =~= ascii_letters().take(letters_before(b + 1)));
            } else {
                assert(letters_before(b + 1) == letters_before(b as int));
            }
            b = b + 1;
        }
        assert(seed@ =~= ascii_letters());
        let f = SimpleFactory {
            seed,
            consumers_per_client: CONSUMERS_PER_CLIENT,
            provider_ns: Vec::new(),
            subscriber_ns: Vec::new(),
            next_counter: 0,
        };
        assert(f@.provider_ns =~= Seq::<CountedNamespace>::empty());
        assert(f@.subscriber_ns =~= Seq::<CountedNamespace>::empty());
        f
    }
}

/// How many letters come before the character `b` in the range `A` to `z`.
pub open spec fn letters_before(b: int) -> int {
    if b <= 91 {
        b - 65
    } else if b <= 97 {
        26
    } else {
        26 + b - 97
    }
}

impl SimpleFactory {
    /// The number of subscriptions of each client.
    pub fn get_consumers_per_client(&self) -> (n: u32)
        ensures
            n == self@.consumers_per_client,
    {
        self.consumers_per_client
    }

    /// Sets the number of subscriptions of each client.
    pub fn set_consumers_per_client(&mut self, consumers_per_client: u32)
        ensures
            final(self)@ == (FactoryView { consumers_per_client, ..old(self)@ }),
    {
        self.consumers_per_client = consumers_per_client;
    }

    /// A namespace of `/` and five random characters of the seed.
    pub fn gen_namespace(&self) -> (p: Pattern)
        requires
            self@.seed.len() > 0,
        ensures
            generated_namespace(p@, self@.seed),
    {
        let n = self.seed.len();
        let mut buf: Vec<char> = Vec::new();
        buf.push('/');
        let mut k: usize = 0;
        while k < NAMESPACE_LENGTH
            invariant
                n == self.seed@.len(),
                n > 0,
                k <= NAMESPACE_LENGTH,
                buf@.len() == k + 1,
                buf@[0] == '/',
                forall|i: int| 1 <= i < buf@.len() ==> self.seed@.contains(#[trigger] buf@[i]),
            decreases NAMESPACE_LENGTH - k,
        {
            let c = self.seed[random_index(n)];
            buf.push(c);
            k = k + 1;
        }
        Pattern::from_string(text_of_chars(&buf))
    }

    /// How many namespaces the next client needs that do not exist yet.
    pub fn fresh_needed(&self) -> (n: u64)
        ensures
            n == fresh_needed(self@),
    {
        let p: u64 = if self.provider_ns.len() == 0 { 1 } else { 0 };
        let cpc = self.consumers_per_client as usize;
        if cpc > self.subscriber_ns.len() {
            p + (cpc - self.subscriber_ns.len()) as u64
        } else {
            p
        }
    }

    /// Plans the next client, with `fresh` as the new namespaces in the
    /// order they are needed.
    pub fn plan_client(&mut self, fresh: Vec<Pattern>) -> (plan: ClientPlan)
        requires
            fresh@.len() == fresh_needed(old(self)@),
            old(self)@.next_counter + fresh_needed(old(self)@) <= u64::MAX,
            old(self)@.consumers_per_client > 0 || old(self)@.subscriber_ns.len() > 0,
        ensures
            ({
                let (f, p) = plan_view(old(self)@, fresh@.map_values(|n: Pattern| n@));
                &&& final(self)@ == f
                &&& stream_view(plan.provider) == p.provider
                &&& plan.subscriptions@.map_values(|s: (Pattern, CounterId)| stream_view(s)) == p.subscriptions
                &&& plan.producer.namespace@ == p.provider.0
                &&& plan.producer.counter == p.provider.1
                &&& plan.producer.message@ == "message"@
            }),
    {
        let ghost f = self@;
        let ghost fr = fresh@.map_values(|n: Pattern| n@);
        let ghost expected = plan_view(f, fr);
        let mut fresh = fresh;
        let mut fi: usize = 0;
        let provider: (Pattern, CounterId) = match self.provider_ns.pop() {
            Some(p) => p,
            None => {
                let c = self.next_counter;
                self.next_counter = self.next_counter + 1;
                fi = 1;
                (fresh[0].clone(), c)
            },
        };
        assert(stream_view(provider) == expected.1.provider);
        let ghost base = self.provider_ns@.map_values(|s: (Pattern, CounterId)| stream_view(s));
        assert(base.len() == self.provider_ns@.len());
        assert(base =~= (if f.provider_ns.len() > 0 { f.provider_ns.drop_last() } else { f.provider_ns }));
        let mut subscriptions: Vec<(Pattern, CounterId)> = Vec::new();
        let mut j: usize = 0;
        while j < self.subscriber_ns.len()
            invariant
                j <= self.subscriber_ns@.len(),
                self.subscriber_ns@.map_values(|s: (Pattern, CounterId)| stream_view(s)) == f.subscriber_ns,
                subscriptions@.map_values(|s: (Pattern, CounterId)| stream_view(s)) == f.subscriber_ns.take(j as int),
                subscriptions@.len() == j,
                f.subscriber_ns.len() == self.subscriber_ns@.len(),
            decreases self.subscriber_ns@.len() - j,
        {
            let s = (self.subscriber_ns[j].0.clone(), self.subscriber_ns[j].1);
            let ghost before = subscriptions@;
            subscriptions.push(s);
            assert(stream_view(s) == stream_view(self.subscriber_ns@[j as int]));
            assert(stream_view(self.subscriber_ns@[j as int]) == f.subscriber_ns[j as int]);
            assert(forall|i: int| 0 <= i < j ==> subscriptions@[i] == before[i]);
            assert(subscriptions@.map_values(|s: (Pattern, CounterId)| stream_view(s)) =~= f.subscriber_ns.take(j + 1));
            j = j + 1;
        }
        assert(f.subscriber_ns.take(j as int) =~= f.subscriber_ns);
        let cpc = self.consumers_per_client as usize;
        let extra: usize = if cpc > self.subscriber_ns.len() { cpc - self.subscriber_ns.len() } else { 0 };
        let ghost c0 = self.next_counter;
        let ghost added = Seq::new(extra as nat, |k: int| (fr[fi + k], (c0 + k) as CounterId));
        let mut k: usize = 0;
        let fl = fresh.len();
        while k < extra
            invariant
                k <= extra,
                fl == fresh@.len(),
                self.provider_ns@.len() == base.len() + k,
                subscriptions@.len() == f.subscriber_ns.len() + k,
                fi + extra == fresh@.len(),
                fr == fresh@.map_values(|n: Pattern| n@),
                self.next_counter == c0 + k,
                c0 + extra <= u64::MAX,
                added == Seq::new(extra as nat, |k: int| (fr[fi + k], (c0 + k) as CounterId)),
                self.provider_ns@.map_values(|s: (Pattern, CounterId)| stream_view(s)) == base + added.take(k as int),
                subscriptions@.map_values(|s: (Pattern, CounterId)| stream_view(s)) == f.subscriber_ns + added.take(k as int),
                self.subscriber_ns@.map_values(|s: (Pattern, CounterId)| stream_view(s)) == f.subscriber_ns,
                self.seed@ == f.seed,
                self.consumers_per_client == f.consumers_per_client,
            decreases extra - k,
        {
            let ns = fresh[fi + k].clone();
            let c = self.next_counter;
            self.next_counter = self.next_counter + 1;
            let ghost pb = self.provider_ns@;
            let ghost sb = subscriptions@;
            self.provider_ns.push((ns.clone(), c));
            subscriptions.push((ns, c));
            assert(fr[fi + k] == fresh@[fi + k]@);
            assert(stream_view((ns, c)) == added[k as int]);
            assert(forall|i: int| 0 <= i < pb.len() ==> self.provider_ns@[i] == pb[i]);
            assert(forall|i: int| 0 <= i < sb.len() ==> subscriptions@[i] == sb[i]);
            let ghost pv = self.provider_ns@.map_values(|s: (Pattern, CounterId)| stream_view(s));
            let ghost pbv = pb.map_values(|s: (Pattern, CounterId)| stream_view(s));
            assert forall|i: int| 0 <= i < pv.len() implies pv[i] == (base + added.take(k + 1))[i] by {
                if i < pb.len() {
                    assert(pv[i] == pbv[i]);
                    assert(pbv[i] == (base + added.take(k as int))[i]);
                }
            }
            let ghost sv = subscriptions@.map_values(|s: (Pattern, CounterId)| stream_view(s));
            let ghost sbv = sb.map_values(|s: (Pattern, CounterId)| stream_view(s));
            assert forall|i: int| 0 <= i < sv.len() implies sv[i] == (f.subscriber_ns + added.take(k + 1))[i] by {
                if i < sb.len() {
                    assert(sv[i] == sbv[i]);
                    assert(sbv[i] == (f.subscriber_ns + added.take(k as int))[i]);
                }
            }
            assert(added.take(k + 1) =~= added.take(k as int).push(added[k as int]));
            assert(self.provider_ns@.map_values(|s: (Pattern, CounterId)| stream_view(s)) =~= base + added.take(k + 1));
            assert(subscriptions@.map_values(|s: (Pattern, CounterId)| stream_view(s)) =~= f.subscriber_ns + added.take(k + 1));
            k = k + 1;
        }
        assert(added.take(k as int) =~= added);
        if self.subscriber_ns.len() == cpc {
            self.subscriber_ns.remove(0);
            assert(self.subscriber_ns@.map_values(|s: (Pattern, CounterId)| stream_view(s)) =~= f.subscriber_ns.drop_first());
        }
        let ghost trimmed = self.subscriber_ns@.map_values(|s: (Pattern, CounterId)| stream_view(s));
        self.subscriber_ns.push((provider.0.clone(), provider.1));
        assert(self.subscriber_ns@.map_values(|s: (Pattern, CounterId)| stream_view(s)) =~= trimmed.push(stream_view(provider)));
        let producer = SimpleProducer::new(provider.0.clone(), "message", provider.1);
        assert(self@ =~= expected.0);
        ClientPlan { provider, producer, subscriptions }
    }

    /// Plans the next client, making the namespaces it needs at random.
    pub fn new_client(&mut self) -> (plan: ClientPlan)
        requires
            old(self)@.seed.len() > 0,
            old(self)@.next_counter + fresh_needed(old(self)@) <= u64::MAX,
            old(self)@.consumers_per_client > 0 || old(self)@.subscriber_ns.len() > 0,
        ensures
            exists|fresh: Seq<Seq<char>>| {
                &&& fresh.len() == fresh_needed(old(self)@)
                &&& forall|i: int| 0 <= i < fresh.len() ==> generated_namespace(#[trigger] fresh[i], old(self)@.seed)
                &&& final(self)@ == plan_view(old(self)@, fresh).0
                &&& stream_view(plan.provider) == plan_view(old(self)@, fresh).1.provider
                &&& plan.subscriptions@.map_values(|s: (Pattern, CounterId)| stream_view(s))
                    == plan_view(old(self)@, fresh).1.subscriptions
                &&& plan.producer.namespace@ == plan_view(old(self)@, fresh).1.provider.0
                &&& plan.producer.counter == plan_view(old(self)@, fresh).1.provider.1
                &&& plan.producer.message@ == "message"@
            },
    {
        let n = self.fresh_needed();
        let mut fresh: Vec<Pattern> = Vec::new();
        while (fresh.len() as u64) < n
            invariant
                fresh@.len() <= n,
                self@.seed.len() > 0,
                forall|i: int| 0 <= i < fresh@.len() ==> generated_namespace(#[trigger] fresh@[i]@, self@.seed),
            decreases n - fresh@.len(),
        {
            let ns = self.gen_namespace();
            fresh.push(ns);
        }
        let ghost fr = fresh@.map_values(|p: Pattern| p@);
        assert forall|i: int| 0 <= i < fr.len() implies generated_namespace(#[trigger] fr[i], old(self)@.seed) by {
            assert(fr[i] == fresh@[i]@);
        }
        self.plan_client(fresh)
    }

    /// Plans the next client as `new_client` does, or returns `None`, with
    /// the generator unchanged, where that cannot be done: when no
    /// subscription is remembered and a client needs none (the generator
    /// would have no subscription to drop), when the seed is empty, or when
    /// the counters would run out.
    pub fn try_new_client(&mut self) -> (plan: Option<ClientPlan>)
        ensures
            plan is Some <==> {
                &&& old(self)@.seed.len() > 0
                &&& old(self)@.next_counter + fresh_needed(old(self)@) <= u64::MAX
                &&& old(self)@.consumers_per_client > 0 || old(self)@.subscriber_ns.len() > 0
            },
            plan is None ==> final(self)@ == old(self)@,
            plan matches Some(p) ==> exists|fresh: Seq<Seq<char>>| {
                &&& fresh.len() == fresh_needed(old(self)@)
                &&& forall|i: int| 0 <= i < fresh.len() ==> generated_namespace(#[trigger] fresh[i], old(self)@.seed)
                &&& final(self)@ == plan_view(old(self)@, fresh).0
                &&& stream_view(p.provider) == plan_view(old(self)@, fresh).1.provider
                &&& p.subscriptions@.map_values(|s: (Pattern, CounterId)| stream_view(s))
                    == plan_view(old(self)@, fresh).1.subscriptions
                &&& p.producer.namespace@ == plan_view(old(self)@, fresh).1.provider.0
                &&& p.producer.counter == plan_view(old(self)@, fresh).1.provider.1
                &&& p.producer.message@ == "message"@
            },
    {
        if self.seed.len() == 0 {
            return None;
        }
        if self.consumers_per_client == 0 && self.subscriber_ns.len() == 0 {
            return None;
        }
        let n = self.fresh_needed();
        if n > u64::MAX - self.next_counter {
            return None;
        }
        Some(self.new_client())
    }
}

/// The default number of simulated clients.
pub const NUM_CLIENTS: u32 = 5;

/// The default number of messages each client sends.
pub const NUM_MESSAGES: u64 = 100;

/// The default time between two messages of a client, in nanoseconds
/// (200 ms).
pub const MESSAGE_INTERVAL_NS: u128 = 200_000_000;

/// What ends each client's stream of messages.
#[derive(Debug, Clone, Copy, PartialEq, Eq, Structural)]
pub enum RunLimit {
    /// The stream runs for this many nanoseconds.
    For(u128),
    /// The stream sends this many messages.
    Times(u64),
}

/// The settings of a load test run.
pub struct SettingsView {
    pub num_clients: u32,
    pub frequency_ns: Option<u128>,
    pub duration_ns: Option<u128>,
    pub num_messages: Option<u64>,
}

/// Exactly one of a duration and a number of messages limits the run.
pub open spec fn settings_wf(s: SettingsView) -> bool {
    s.duration_ns is Some != s.num_messages is Some
}

/// The settings of a load test run: how many clients, how often each sends,
/// and what ends their streams.
pub struct ExecutorSettings {
    num_clients: u32,
    frequency_ns: Option<u128>,
    duration_ns: Option<u128>,
    num_messages: Option<u64>,
}

impl View for ExecutorSettings {
    type V = SettingsView;

    closed spec fn view(&self) -> SettingsView {
        SettingsView {
            num_clients: self.num_clients,
            frequency_ns: self.frequency_ns,
            duration_ns: self.duration_ns,
            num_messages: self.num_messages,
        }
    }
}

impl ExecutorSettings {
    /// Five clients, each sending a hundred messages, one every 200 ms.
    pub fn new() -> (s: ExecutorSettings)
        ensures
            s@ == (SettingsView {
                num_clients: NUM_CLIENTS,
                frequency_ns: Some(MESSAGE_INTERVAL_NS),
                duration_ns: None,
                num_messages: Some(NUM_MESSAGES),
            }),
            settings_wf(s@),
    {
        ExecutorSettings {
            num_clients: NUM_CLIENTS,
            frequency_ns: Some(MESSAGE_INTERVAL_NS),
            duration_ns: None,
            num_messages: Some(NUM_MESSAGES),
        }
    }

    /// The number of clients.
    pub fn num_clients(&self) -> (n: u32)
        ensures
            n == self@.num_clients,
    {
        self.num_clients
    }

    /// The time between two messages of a client, if they are spaced.
    pub fn frequency_ns(&self) -> (f: Option<u128>)
        ensures
            f == self@.frequency_ns,
    {
        self.frequency_ns
    }

    /// Sets the number of clients.
    pub fn set_num_clients(&mut self, clients: u32)
        ensures
            final(self)@ == (SettingsView { num_clients: clients, ..old(self)@ }),
    {
        self.num_clients = clients;
    }

    /// Sets the time between two messages; `None` sends them without pause.
    pub fn set_frequency(&mut self, delay_ns: Option<u128>)
        ensures
            final(self)@ == (SettingsView { frequency_ns: delay_ns, ..old(self)@ }),
    {
        self.frequency_ns = delay_ns;
    }

    /// Streams run for `duration_ns` nanoseconds, however many messages
    /// they send.
    pub fn set_duration(&mut self, duration_ns: u128)
        ensures
            final(self)@ == (SettingsView { duration_ns: Some(duration_ns), num_messages: None, ..old(self)@ }),
            settings_wf(final(self)@),
    {
        self.duration_ns = Some(duration_ns);
        self.num_messages = None;
    }

    /// Streams send `count` messages, however long it takes.
    pub fn set_num_messages(&mut self, count: u64)
        ensures
            final(self)@ == (SettingsView { num_messages: Some(count), duration_ns: None, ..old(self)@ }),
            settings_wf(final(self)@),
    {
        self.num_messages = Some(count);
        self.duration_ns = None;
    }

    /// What ends each client's stream.
    pub fn limit(&self) -> (l: RunLimit)
        requires
            settings_wf(self@),
        ensures
            l == (match self@.duration_ns {
                Some(d) => RunLimit::For(d),
                None => RunLimit::Times(self@.num_messages->0),
            }),
    {
        match self.duration_ns {
            Some(d) => RunLimit::For(d),
            None => match self.num_messages {
                Some(n) => RunLimit::Times(n),
                None => RunLimit::Times(0),
            },
        }
    }
}

/// The subscriptions that the generator remembers never outnumber the
/// consumers per client: planning a client keeps that bound, and the client
/// subscribes to as many namespaces as there are consumers per client.
pub proof fn plan_keeps_subscriber_bound(f: FactoryView, fresh: Seq<Seq<char>>)
    requires
        f.subscriber_ns.len() <= f.consumers_per_client,
        f.consumers_per_client > 0,
        fresh.len() == fresh_needed(f),
    ensures
        plan_view(f, fresh).0.subscriber_ns.len() <= f.consumers_per_client,
        plan_view(f, fresh).1.subscriptions.len() == f.consumers_per_client,
{
}

/// Every namespace that a client subscribes to and that did not exist
/// before waits for a provider afterwards.
pub proof fn plan_fresh_subscriptions_wait_for_provider(f: FactoryView, fresh: Seq<Seq<char>>)
    requires
        fresh.len() == fresh_needed(f),
    ensures
        forall|k: int|
            f.subscriber_ns.len() <= k < plan_view(f, fresh).1.subscriptions.len() ==> plan_view(f, fresh).0.provider_ns.contains(
                #[trigger] plan_view(f, fresh).1.subscriptions[k],
            ),
{
    let (g, p) = plan_view(f, fresh);
    assert forall|k: int| f.subscriber_ns.len() <= k < p.subscriptions.len() implies g.provider_ns.contains(
        #[trigger] p.subscriptions[k],
    ) by {
        let base = if f.provider_ns.len() > 0 { f.provider_ns.drop_last() } else { f.provider_ns };
        let j = k - f.subscriber_ns.len();
        assert(g.provider_ns[base.len() + j] == p.subscriptions[k]);
    }
}

} // verus!
