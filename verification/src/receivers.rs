//! The client's table of local receivers: for each namespace it
//! subscribed to, the channels that get the events published under it.
use vstd::prelude::*;
use crate::message::{Message, MessageView};
use crate::pattern::{Pattern, pattern_contains};

verus! {

/// The identity of one local receiver channel.
pub type ReceiverId = u64;

/// One row: a subscribed namespace and the receivers for it.
pub type ReceiverRow = (Seq<char>, Seq<ReceiverId>);

/// No namespace has two rows.
pub open spec fn namespaces_unique(rows: Seq<ReceiverRow>) -> bool {
    forall|i: int, j: int| 0 <= i < j < rows.len() ==> #[trigger] rows[i].0 != #[trigger] rows[j].0
}

/// The table has a row for `ns`.
pub open spec fn has_namespace(rows: Seq<ReceiverRow>, ns: Seq<char>) -> bool {
    exists|i: int| 0 <= i < rows.len() && #[trigger] rows[i].0 == ns
}

/// The row for `ns`, where there is one.
pub open spec fn namespace_index(rows: Seq<ReceiverRow>, ns: Seq<char>) -> int {
    choose|i: int| 0 <= i < rows.len() && #[trigger] rows[i].0 == ns
}

/// The table after receiver `rx` is added for `ns`: at the end of its row,
/// or in a new row.
pub open spec fn add_receiver_view(rows: Seq<ReceiverRow>, ns: Seq<char>, rx: ReceiverId) -> Seq<ReceiverRow> {
    if has_namespace(rows, ns) {
        let i = namespace_index(rows, ns);
        rows.update(i, (ns, rows[i].1.push(rx)))
    } else {
        rows.push((ns, seq![rx]))
    }
}

/// The table without the row for `ns`.
pub open spec fn remove_namespace_view(rows: Seq<ReceiverRow>, ns: Seq<char>) -> Seq<ReceiverRow> {
    if has_namespace(rows, ns) {
        rows.remove(namespace_index(rows, ns))
    } else {
        rows
    }
}

/// The receivers that an event under `ns` is sent to: those of every row
/// whose namespace contains `ns`, row by row.
pub open spec fn targets_view(rows: Seq<ReceiverRow>, ns: Seq<char>) -> Seq<ReceiverId>
    decreases rows.len(),
{
    if rows.len() == 0 {
        Seq::empty()
    } else {
        let e = rows.last();
        targets_view(rows.drop_last(), ns) + if pattern_contains(e.0, ns) { e.1 } else { Seq::empty() }
    }
}

/// The receivers of a row whose sends succeeded.
pub open spec fn delivered_only(rx: Seq<ReceiverId>, ok: Seq<bool>) -> Seq<ReceiverId>
    decreases rx.len(),
{
    if rx.len() == 0 {
        Seq::empty()
    } else {
        let k = rx.len() - 1;
        if k < ok.len() && ok[k] {
            delivered_only(rx.drop_last(), ok).push(rx[k])
        } else {
            delivered_only(rx.drop_last(), ok)
        }
    }
}

/// The table after an event under `ns` was sent to its targets, `ok`
/// telling, target by target, whether the send succeeded: a receiver whose
/// send failed goes, and so does every row left without receivers.
pub open spec fn retain_view(rows: Seq<ReceiverRow>, ns: Seq<char>, ok: Seq<bool>) -> Seq<ReceiverRow>
    decreases rows.len(),
{
    if rows.len() == 0 {
        Seq::empty()
    } else {
        let prev = rows.drop_last();
        let n = targets_view(prev, ns).len();
        let e = rows.last();
        let rest = retain_view(prev, ns, ok.take(n as int));
        let rx = if pattern_contains(e.0, ns) { delivered_only(e.1, ok.skip(n as int)) } else { e.1 };
        if rx.len() > 0 {
            rest.push((e.0, rx))
        } else {
            rest
        }
    }
}

/// The receiver channels of a client, by subscribed namespace.
pub struct Receivers {
    rows: Vec<(Pattern, Vec<ReceiverId>)>,
}

impl View for Receivers {
    type V = Seq<ReceiverRow>;

    closed spec fn view(&self) -> Seq<ReceiverRow> {
        self.rows@.map_values(|r: (Pattern, Vec<ReceiverId>)| (r.0@, r.1@))
    }
}

impl Receivers {
    /// No receivers.
    pub fn new() -> (r: Receivers)
        ensures
            r@ == Seq::<ReceiverRow>::empty(),
            namespaces_unique(r@),
    {
        let r = Receivers { rows: Vec::new() };
        assert(r@ =~= Seq::<ReceiverRow>::empty());
        r
    }

    /// The number of subscribed namespaces.
    pub fn len(&self) -> (n: usize)
        ensures
            n == self@.len(),
    {
        self.rows.len()
    }

    /// Whether there is a row for `ns`.
    pub fn contains_key(&self, ns: &Pattern) -> (b: bool)
        ensures
            b == has_namespace(self@, ns@),
    {
        match self.find(ns) {
            Some(_) => true,
            None => false,
        }
    }

    /// The receivers for exactly `ns`, if it has a row.
    pub fn receivers_of(&self, ns: &Pattern) -> (r: Option<Vec<ReceiverId>>)
        requires
            namespaces_unique(self@),
        ensures
            r is Some <==> has_namespace(self@, ns@),
            r matches Some(v) ==> v@ == self@[namespace_index(self@, ns@)].1,
    {
        match self.find(ns) {
            Some(i) => Some(self.rows[i].1.clone()),
            None => None,
        }
    }

    fn find(&self, ns: &Pattern) -> (r: Option<usize>)
        ensures
            r is Some <==> has_namespace(self@, ns@),
            r matches Some(i) ==> i < self@.len() && self@[i as int].0 == ns@,
            r matches Some(i) ==> (namespaces_unique(self@) ==> i == namespace_index(self@, ns@)),
    {
        let mut i: usize = 0;
        while i < self.rows.len()
            invariant
                i <= self.rows@.len(),
                self@.len() == self.rows@.len(),
                forall|j: int| 0 <= j < i ==> #[trigger] self@[j].0 != ns@,
            decreases self.rows@.len() - i,
        {
            assert(self@[i as int] == (self.rows@[i as int].0@, self.rows@[i as int].1@));
            if self.rows[i].0 == *ns {
                assert(self@[i as int].0 == ns@);
                proof {
                    if namespaces_unique(self@) {
                        let k = namespace_index(self@, ns@);
                        assert(0 <= k < self@.len() && self@[k].0 == ns@);
                        if k != i {
                            if k < i {
                                assert(self@[k].0 != ns@);
                            } else {
                                assert(self@[i as int].0 != self@[k].0);
                            }
                        }
                    }
                }
                return Some(i);
            }
            i = i + 1;
        }
        None
    }

    /// Adds receiver `rx` for `ns`.
    pub fn add_receiver(&mut self, ns: Pattern, rx: ReceiverId)
        requires
            namespaces_unique(old(self)@),
        ensures
            final(self)@ == add_receiver_view(old(self)@, ns@, rx),
            namespaces_unique(final(self)@),
    {
        let ghost rows = self@;
        match self.find(&ns) {
            Some(i) => {
                let mut row = self.rows.remove(i);
                row.1.push(rx);
                self.rows.insert(i, row);
                assert(self@ =~= rows.update(i as int, (ns@, rows[i as int].1.push(rx))));
                assert forall|a: int, b: int| 0 <= a < b < self@.len() implies #[trigger] self@[a].0
                    != #[trigger] self@[b].0 by {
                    assert(self@[a].0 == rows[a].0 && self@[b].0 == rows[b].0);
                }
            },
            None => {
                let ghost key = ns@;
                let mut v = Vec::new();
                v.push(rx);
                self.rows.push((ns, v));
                assert(v@ =~= seq![rx]);
                assert(self@ =~= rows.push((key, seq![rx])));
                assert forall|a: int, b: int| 0 <= a < b < self@.len() implies #[trigger] self@[a].0
                    != #[trigger] self@[b].0 by {
                    if b == rows.len() {
                        assert(rows[a].0 != key);
                    }
                }
            },
        }
    }

    /// Drops the row for `ns` and its receivers.
    pub fn remove_namespace(&mut self, ns: &Pattern)
        requires
            namespaces_unique(old(self)@),
        ensures
            final(self)@ == remove_namespace_view(old(self)@, ns@),
            namespaces_unique(final(self)@),
            !has_namespace(final(self)@, ns@),
    {
        let ghost rows = self@;
        match self.find(ns) {
            Some(i) => {
                self.rows.remove(i);
                proof {
                    rows.remove_ensures(i as int);
                }
                assert(self@ =~= rows.remove(i as int));
                assert forall|a: int, b: int| 0 <= a < b < self@.len() implies #[trigger] self@[a].0
                    != #[trigger] self@[b].0 by {
                    let a1 = if a < i { a } else { a + 1 };
                    let b1 = if b < i { b } else { b + 1 };
                    assert(self@[a] == rows[a1] && self@[b] == rows[b1]);
                }
                assert forall|x: int| 0 <= x < self@.len() implies #[trigger] self@[x].0 != ns@ by {
                    let x1 = if x < i { x } else { x + 1 };
                    assert(self@[x] == rows[x1]);
                    assert(rows[x1].0 != rows[i as int].0);
                }
            },
            None => {},
        }
    }

    /// The receivers that an event like `m` is sent to, row by row.
    pub fn targets(&self, m: &Message) -> (t: Vec<ReceiverId>)
        ensures
            t@ == targets_view(self@, m@.ns()),
    {
        let ghost rows = self@;
        let ns = m.namespace();
        let mut t: Vec<ReceiverId> = Vec::new();
        let mut i: usize = 0;
        assert(rows.take(0) =~= Seq::<ReceiverRow>::empty());
        while i < self.rows.len()
            invariant
                i <= rows.len(),
                rows == self@,
                self@.len() == self.rows@.len(),
                ns@ == m@.ns(),
                t@ == targets_view(rows.take(i as int), ns@),
            decreases rows.len() - i,
        {
            assert(rows.take(i + 1).drop_last() =~= rows.take(i as int));
            assert(rows[i as int] == (self.rows@[i as int].0@, self.rows@[i as int].1@));
            if self.rows[i].0.contains(ns) {
                let rx = &self.rows[i].1;
                let ghost t0 = t@;
                let mut j: usize = 0;
                while j < rx.len()
                    invariant
                        j <= rx@.len(),
                        t@ == t0 + rx@.take(j as int),
                    decreases rx@.len() - j,
                {
                    t.push(rx[j]);
                    assert(rx@.take(j + 1) =~= rx@.take(j as int).push(rx@[j as int]));
                    j = j + 1;
                }
                assert(rx@.take(j as int) =~= rx@);
            } else {
                assert(targets_view(rows.take(i + 1), ns@) =~= targets_view(rows.take(i as int), ns@));
            }
            i = i + 1;
        }
        assert(rows.take(i as int) =~= rows);
        t
    }

    /// After an event like `m` was sent to the targets, `delivered` telling
    /// target by target whether the send succeeded: drops the receivers
    /// whose send failed, and every row left without receivers.
    pub fn retain_delivered(&mut self, m: &Message, delivered: &Vec<bool>)
        requires
            delivered@.len() == targets_view(old(self)@, m@.ns()).len(),
        ensures
            final(self)@ == retain_view(old(self)@, m@.ns(), delivered@),
            namespaces_unique(old(self)@) ==> namespaces_unique(final(self)@),
    {
        let ghost rows = self@;
        let ghost ok = delivered@;
        let ns = m.namespace();
        let mut kept: Vec<(Pattern, Vec<ReceiverId>)> = Vec::new();
        let mut i: usize = 0;
        let mut n: usize = 0;
        let total = delivered.len();
        assert(rows.take(0) =~= Seq::<ReceiverRow>::empty());
        proof {
            lemma_targets_prefix(rows, ns@, 0);
        }
        while i < self.rows.len()
            invariant
                i <= rows.len(),
                rows == self@,
                self@.len() == self.rows@.len(),
                ns@ == m@.ns(),
                ok == delivered@,
                total == ok.len(),
                ok.len() == targets_view(rows, ns@).len(),
                n == targets_view(rows.take(i as int), ns@).len(),
                n <= ok.len(),
                kept@.map_values(|r: (Pattern, Vec<ReceiverId>)| (r.0@, r.1@)) == retain_view(
                    rows.take(i as int),
                    ns@,
                    ok.take(n as int),
                ),
                forall|a: int, b: int|
                    0 <= a < b < kept@.len() ==> #[trigger] kept@[a].0@ != #[trigger] kept@[b].0@
                        || !namespaces_unique(rows),
                forall|a: int|
                    0 <= a < kept@.len() ==> exists|k: int| 0 <= k < i && #[trigger] kept@[a].0@ == rows[k].0,
            decreases rows.len() - i,
        {
            let ghost prev_kept = kept@;
            let ghost e = rows[i as int];
            assert(rows.take(i + 1).drop_last() =~= rows.take(i as int));
            assert(rows.take(i + 1).last() == e);
            assert(e == (self.rows@[i as int].0@, self.rows@[i as int].1@));
            proof {
                lemma_targets_prefix(rows, ns@, i + 1);
            }
            let ghost n1: int = targets_view(rows.take(i + 1), ns@).len() as int;
            assert(ok.take(n1).take(n as int) =~= ok.take(n as int));
            let rx = &self.rows[i].1;
            let mut out: Vec<ReceiverId> = Vec::new();
            if self.rows[i].0.contains(ns) {
                let ghost w = ok.take(n1).skip(n as int);
                assert(n1 == n + rx@.len());
                let mut j: usize = 0;
                assert(rx@.take(0) =~= Seq::<ReceiverId>::empty());
                while j < rx.len()
                    invariant
                        j <= rx@.len(),
                        n + rx@.len() <= ok.len(),
                        total == ok.len(),
                        n + rx@.len() == n1,
                        w == ok.take(n1).skip(n as int),
                        ok == delivered@,
                        out@ == delivered_only(rx@.take(j as int), w),
                    decreases rx@.len() - j,
                {
                    assert(rx@.take(j + 1).drop_last() =~= rx@.take(j as int));
                    assert(w[j as int] == ok[n + j]);
                    if delivered[n + j] {
                        out.push(rx[j]);
                    }
                    j = j + 1;
                }
                assert(rx@.take(j as int) =~= rx@);
                n = n + rx.len();
            } else {
                let mut j: usize = 0;
                while j < rx.len()
                    invariant
                        j <= rx@.len(),
                        out@ == rx@.take(j as int),
                    decreases rx@.len() - j,
                {
                    out.push(rx[j]);
                    assert(rx@.take(j + 1) =~= rx@.take(j as int).push(rx@[j as int]));
                    j = j + 1;
                }
                assert(rx@.take(j as int) =~= rx@);
            }
            if out.len() > 0 {
                kept.push((self.rows[i].0.clone(), out));
                proof {
                    assert forall|a: int| 0 <= a < kept@.len() implies exists|k: int|
                        0 <= k < i + 1 && #[trigger] kept@[a].0@ == rows[k].0 by {
                        if a == prev_kept.len() {
                            assert(kept@[a].0@ == rows[i as int].0);
                        } else {
                            assert(kept@[a] == prev_kept[a]);
                        }
                    }
                    assert forall|a: int, b: int|
                        0 <= a < b < kept@.len() implies #[trigger] kept@[a].0@ != #[trigger] kept@[b].0@
                            || !namespaces_unique(rows) by {
                        if b == prev_kept.len() && namespaces_unique(rows) {
                            assert(kept@[a] == prev_kept[a]);
                            let k = choose|k: int| 0 <= k < i && #[trigger] prev_kept[a].0@ == rows[k].0;
                            assert(rows[k].0 != rows[i as int].0);
                        } else if b < prev_kept.len() {
                            assert(kept@[a] == prev_kept[a] && kept@[b] == prev_kept[b]);
                        }
                    }
                }
            }
            assert(kept@.map_values(|r: (Pattern, Vec<ReceiverId>)| (r.0@, r.1@)) =~= retain_view(
                rows.take(i + 1),
                ns@,
                ok.take(n as int),
            ));
            i = i + 1;
        }
        assert(rows.take(i as int) =~= rows);
        assert(ok.take(n as int) =~= ok);
        self.rows = kept;
    }
}

/// The targets of the first `i` rows are a prefix of the targets of all
/// of them.
proof fn lemma_targets_prefix(rows: Seq<ReceiverRow>, ns: Seq<char>, i: int)
    requires
        0 <= i <= rows.len(),
    ensures
        targets_view(rows.take(i), ns).len() <= targets_view(rows, ns).len(),
        targets_view(rows, ns).take(targets_view(rows.take(i), ns).len() as int) == targets_view(
            rows.take(i),
            ns,
        ),
    decreases rows.len() - i,
{
    if i < rows.len() {
        lemma_targets_prefix(rows, ns, i + 1);
        assert(rows.take(i + 1).drop_last() =~= rows.take(i));
        let a = targets_view(rows.take(i), ns);
        let b = targets_view(rows.take(i + 1), ns);
        let all = targets_view(rows, ns);
        assert(b.take(a.len() as int) =~= a);
        assert(all.take(a.len() as int) =~= b.take(a.len() as int));
    } else {
        assert(rows.take(i) =~= rows);
        let all = targets_view(rows, ns);
        assert(all.take(all.len() as int) =~= all);
    }
}

/// A receiver of a row whose namespace contains `ns` is a target of
/// events under `ns`.
proof fn lemma_row_receiver_is_target(rows: Seq<ReceiverRow>, ns: Seq<char>, i: int, j: int)
    requires
        0 <= i < rows.len(),
        0 <= j < rows[i].1.len(),
        pattern_contains(rows[i].0, ns),
    ensures
        targets_view(rows, ns).contains(rows[i].1[j]),
    decreases rows.len(),
{
    let prev = targets_view(rows.drop_last(), ns);
    let t = targets_view(rows, ns);
    if i == rows.len() - 1 {
        assert(t[prev.len() + j] == rows[i].1[j]);
    } else {
        assert(rows.drop_last()[i] == rows[i]);
        lemma_row_receiver_is_target(rows.drop_last(), ns, i, j);
        let k = choose|k: int| 0 <= k < prev.len() && prev[k] == rows[i].1[j];
        assert(t[k] == prev[k]);
    }
}

/// What a subscription reads back: a receiver added for `ns` is a target
/// of every event under a namespace that `ns` contains.
pub proof fn added_receiver_is_target(rows: Seq<ReceiverRow>, ns: Seq<char>, rx: ReceiverId, event_ns: Seq<char>)
    requires
        pattern_contains(ns, event_ns),
    ensures
        targets_view(add_receiver_view(rows, ns, rx), event_ns).contains(rx),
{
    let r = add_receiver_view(rows, ns, rx);
    if has_namespace(rows, ns) {
        let i = namespace_index(rows, ns);
        assert(r[i].1[rows[i].1.len() as int] == rx);
        lemma_row_receiver_is_target(r, event_ns, i, rows[i].1.len() as int);
    } else {
        let i = rows.len() as int;
        assert(r[i].1[0] == rx);
        lemma_row_receiver_is_target(r, event_ns, i, 0);
    }
}

/// Receivers whose sends all succeed stay: when every row has a receiver
/// and every send succeeds, routing leaves the table as it was.
pub proof fn delivered_receivers_stay(rows: Seq<ReceiverRow>, ns: Seq<char>, ok: Seq<bool>)
    requires
        forall|i: int| 0 <= i < rows.len() ==> (#[trigger] rows[i]).1.len() > 0,
        forall|k: int| 0 <= k < ok.len() ==> #[trigger] ok[k],
        ok.len() == targets_view(rows, ns).len(),
    ensures
        retain_view(rows, ns, ok) == rows,
    decreases rows.len(),
{
    if rows.len() > 0 {
        let prev = rows.drop_last();
        let n = targets_view(prev, ns).len();
        let e = rows.last();
        assert forall|i: int| 0 <= i < prev.len() implies (#[trigger] prev[i]).1.len() > 0 by {
            assert(prev[i] == rows[i]);
        }
        assert forall|k: int| 0 <= k < ok.take(n as int).len() implies #[trigger] ok.take(n as int)[k] by {
            assert(ok.take(n as int)[k] == ok[k]);
        }
        delivered_receivers_stay(prev, ns, ok.take(n as int));
        if pattern_contains(e.0, ns) {
            lemma_delivered_all(e.1, ok.skip(n as int));
        }
        assert(retain_view(rows, ns, ok) =~= prev.push(e));
        assert(prev.push(e) =~= rows);
    }
}

proof fn lemma_delivered_all(rx: Seq<ReceiverId>, ok: Seq<bool>)
    requires
        ok.len() >= rx.len(),
        forall|k: int| 0 <= k < ok.len() ==> #[trigger] ok[k],
    ensures
        delivered_only(rx, ok) == rx,
    decreases rx.len(),
{
    if rx.len() > 0 {
        lemma_delivered_all(rx.drop_last(), ok);
        assert(rx.drop_last().push(rx[rx.len() - 1]) =~= rx);
    }
}

/// Unsubscribing from `ns` touches no other subscription: every row of the
/// old table for another namespace is still there, and every row left is
/// one of the old rows, for another namespace.
pub proof fn remove_namespace_keeps_others(rows: Seq<ReceiverRow>, ns: Seq<char>)
    requires
        namespaces_unique(rows),
    ensures
        forall|i: int|
            0 <= i < rows.len() && #[trigger] rows[i].0 != ns ==> remove_namespace_view(rows, ns).contains(rows[i]),
        forall|k: int|
            0 <= k < remove_namespace_view(rows, ns).len() ==> rows.contains(
                #[trigger] remove_namespace_view(rows, ns)[k],
            ) && remove_namespace_view(rows, ns)[k].0 != ns,
{
    let r = remove_namespace_view(rows, ns);
    if has_namespace(rows, ns) {
        let x = namespace_index(rows, ns);
        assert(0 <= x < rows.len() && rows[x].0 == ns);
        assert forall|i: int| 0 <= i < rows.len() && #[trigger] rows[i].0 != ns implies r.contains(rows[i]) by {
            if i < x {
                assert(r[i] == rows[i]);
            } else {
                assert(i != x);
                assert(r[i - 1] == rows[i]);
            }
        }
        assert forall|k: int| 0 <= k < r.len() implies rows.contains(#[trigger] r[k]) && r[k].0 != ns by {
            let k1 = if k < x { k } else { k + 1 };
            assert(r[k] == rows[k1]);
            assert(k1 != x);
            if k1 < x {
                assert(rows[k1].0 != rows[x].0);
            } else {
                assert(rows[x].0 != rows[k1].0);
            }
        }
    } else {
        assert forall|k: int| 0 <= k < r.len() implies rows.contains(#[trigger] r[k]) && r[k].0 != ns by {
            assert(r[k] == rows[k]);
        }
        assert forall|i: int| 0 <= i < rows.len() && #[trigger] rows[i].0 != ns implies r.contains(rows[i]) by {
            assert(r[i] == rows[i]);
        }
    }
}

/// The receivers of `rx`, in order, whose own send succeeded, where the
/// send to `rx[j]` is the one at position `from + j` of `ok`.
pub open spec fn receivers_sent_to(rx: Seq<ReceiverId>, ok: Seq<bool>, from: int) -> Seq<ReceiverId> {
    Seq::new(rx.len(), |j: int| j).filter(|j: int| ok[from + j]).map_values(|j: int| rx[j])
}

/// The positions `0 .. n`.
spec fn positions(n: nat) -> Seq<int> {
    Seq::new(n, |j: int| j)
}

proof fn lemma_positions_filter_below(n: nat, p: spec_fn(int) -> bool, k: int)
    requires
        0 <= k < positions(n).filter(p).len(),
    ensures
        0 <= positions(n).filter(p)[k] < n,
{
    positions(n).lemma_filter_contains_rev(p, positions(n).filter(p)[k]);
}

/// Filters of the positions that agree on every position are equal.
proof fn lemma_positions_filter_congruent(n: nat, p1: spec_fn(int) -> bool, p2: spec_fn(int) -> bool)
    requires
        forall|j: int| 0 <= j < n ==> #[trigger] p1(j) == p2(j),
    ensures
        positions(n).filter(p1) == positions(n).filter(p2),
    decreases n,
{
    reveal(Seq::filter);
    if n > 0 {
        lemma_positions_filter_congruent((n - 1) as nat, p1, p2);
        assert(positions(n).drop_last() =~= positions((n - 1) as nat));
        assert(positions(n).last() == n - 1);
    }
}

/// `delivered_only` keeps exactly the receivers whose send succeeded.
proof fn lemma_delivered_only_positions(rx: Seq<ReceiverId>, w: Seq<bool>)
    requires
        w.len() >= rx.len(),
    ensures
        delivered_only(rx, w) == positions(rx.len()).filter(|j: int| w[j]).map_values(|j: int| rx[j]),
    decreases rx.len(),
{
    reveal(Seq::filter);
    let pw = |j: int| w[j];
    if rx.len() == 0 {
        assert(positions(0).filter(pw) =~= Seq::<int>::empty());
        assert(positions(0).filter(pw).map_values(|j: int| rx[j]) =~= Seq::<ReceiverId>::empty());
    } else {
        let n = rx.len();
        let d = rx.drop_last();
        lemma_delivered_only_positions(d, w);
        let f = positions((n - 1) as nat).filter(pw);
        assert(positions(n).drop_last() =~= positions((n - 1) as nat));
        assert(positions(n).last() == n - 1);
        assert(f.map_values(|j: int| d[j]) =~= f.map_values(|j: int| rx[j])) by {
            assert forall|k: int| #![trigger f[k]] 0 <= k < f.len() implies f.map_values(|j: int| d[j])[k] == f.map_values(
                |j: int| rx[j],
            )[k] by {
                lemma_positions_filter_below((n - 1) as nat, pw, k);
            }
        }
        if w[n - 1] {
            assert(positions(n).filter(pw) == f.push(n - 1));
            assert(f.push(n - 1).map_values(|j: int| rx[j]) =~= f.map_values(|j: int| rx[j]).push(rx[n - 1]));
        } else {
            assert(positions(n).filter(pw) == f);
        }
    }
}

/// The send to each receiver of row `i` is at the positions of `ok` that
/// follow the targets of the rows before it.
proof fn lemma_row_targets(rows: Seq<ReceiverRow>, ns: Seq<char>, i: int)
    requires
        0 <= i < rows.len(),
        pattern_contains(rows[i].0, ns),
    ensures
        targets_view(rows.take(i), ns).len() + rows[i].1.len() <= targets_view(rows, ns).len(),
        forall|j: int|
            0 <= j < rows[i].1.len() ==> targets_view(rows, ns)[targets_view(rows.take(i), ns).len() + j]
                == #[trigger] rows[i].1[j],
{
    lemma_targets_prefix(rows, ns, i + 1);
    assert(rows.take(i + 1).drop_last() =~= rows.take(i));
    assert(rows.take(i + 1).last() == rows[i]);
    let a = targets_view(rows.take(i), ns);
    let b = targets_view(rows.take(i + 1), ns);
    let all = targets_view(rows, ns);
    assert forall|j: int| 0 <= j < rows[i].1.len() implies all[a.len() + j] == #[trigger] rows[i].1[j] by {
        assert(b[a.len() + j] == rows[i].1[j]);
        assert(all.take(b.len() as int)[a.len() + j] == b[a.len() + j]);
    }
}

/// Every row left after sending is for a namespace of an old row.
proof fn lemma_retain_namespaces(rows: Seq<ReceiverRow>, ns: Seq<char>, ok: Seq<bool>, x: Seq<char>)
    requires
        has_namespace(retain_view(rows, ns, ok), x),
    ensures
        has_namespace(rows, x),
    decreases rows.len(),
{
    let r = retain_view(rows, ns, ok);
    let k = choose|k: int| 0 <= k < r.len() && #[trigger] r[k].0 == x;
    if rows.len() > 0 {
        let prev = rows.drop_last();
        let n = targets_view(prev, ns).len();
        let rest = retain_view(prev, ns, ok.take(n as int));
        if k < rest.len() {
            assert(r[k] == rest[k]);
            lemma_retain_namespaces(prev, ns, ok.take(n as int), x);
            let i = choose|i: int| 0 <= i < prev.len() && #[trigger] prev[i].0 == x;
            assert(rows[i] == prev[i]);
        } else {
            assert(rows[rows.len() - 1].0 == x);
        }
    }
}

/// A receiver whose own send succeeded stays, and one whose send failed
/// goes: after an event under `ns` was sent, each row whose namespace
/// contains `ns` holds exactly its receivers whose send succeeded, in
/// order, where the send to receiver `j` of row `i` is the target at
/// position `t + j` of `ok`, `t` being the number of targets of the rows
/// before it; the row goes when none is left. Every other row stays as it
/// was.
pub proof fn retain_keeps_exactly_the_delivered(rows: Seq<ReceiverRow>, ns: Seq<char>, ok: Seq<bool>, i: int)
    requires
        namespaces_unique(rows),
        ok.len() == targets_view(rows, ns).len(),
        0 <= i < rows.len(),
    ensures
        pattern_contains(rows[i].0, ns) ==> {
            let t = targets_view(rows.take(i), ns).len() as int;
            let stay = receivers_sent_to(rows[i].1, ok, t);
            &&& forall|j: int|
                0 <= j < rows[i].1.len() ==> targets_view(rows, ns)[t + j] == #[trigger] rows[i].1[j]
            &&& stay.len() > 0 ==> retain_view(rows, ns, ok).contains((rows[i].0, stay))
            &&& stay.len() == 0 ==> !has_namespace(retain_view(rows, ns, ok), rows[i].0)
        },
        !pattern_contains(rows[i].0, ns) && rows[i].1.len() > 0 ==> retain_view(rows, ns, ok).contains(rows[i]),
    decreases rows.len(),
{
    let prev = rows.drop_last();
    let n = targets_view(prev, ns).len();
    let e = rows.last();
    let rest = retain_view(prev, ns, ok.take(n as int));
    let r = retain_view(rows, ns, ok);
    let last = rows.len() - 1;
    assert(rows.take(last) =~= prev);
    assert forall|x: ReceiverRow| rest.contains(x) implies r.contains(x) by {
        let k = choose|k: int| 0 <= k < rest.len() && rest[k] == x;
        assert(r[k] == rest[k]);
    }
    if pattern_contains(rows[i].0, ns) {
        lemma_row_targets(rows, ns, i);
    }
    if i == last {
        if pattern_contains(e.0, ns) {
            let w = ok.skip(n as int);
            lemma_delivered_only_positions(e.1, w);
            lemma_positions_filter_congruent(e.1.len(), |j: int| w[j], |j: int| ok[n + j]);
            assert(delivered_only(e.1, w) == receivers_sent_to(e.1, ok, n as int));
            let stay = receivers_sent_to(e.1, ok, n as int);
            if stay.len() > 0 {
                assert(r[rest.len() as int] == (e.0, stay));
            } else {
                assert(r == rest);
                if has_namespace(rest, e.0) {
                    lemma_retain_namespaces(prev, ns, ok.take(n as int), e.0);
                    let x = choose|x: int| 0 <= x < prev.len() && #[trigger] prev[x].0 == e.0;
                    assert(rows[x] == prev[x]);
                }
            }
        } else if e.1.len() > 0 {
            assert(r[rest.len() as int] == e);
        }
    } else {
        assert(namespaces_unique(prev)) by {
            assert forall|a: int, b: int| 0 <= a < b < prev.len() implies #[trigger] prev[a].0 != #[trigger] prev[b].0 by {
                assert(prev[a] == rows[a] && prev[b] == rows[b]);
            }
        }
        assert(prev[i] == rows[i]);
        assert(prev.take(i) =~= rows.take(i));
        retain_keeps_exactly_the_delivered(prev, ns, ok.take(n as int), i);
        if pattern_contains(rows[i].0, ns) {
            let t = targets_view(rows.take(i), ns).len() as int;
            lemma_row_targets(prev, ns, i);
            let oks = ok.take(n as int);
            lemma_positions_filter_congruent(rows[i].1.len(), |j: int| oks[t + j], |j: int| ok[t + j]);
            let stay = receivers_sent_to(rows[i].1, ok, t);
            assert(stay == receivers_sent_to(rows[i].1, oks, t));
            if stay.len() == 0 && has_namespace(r, rows[i].0) {
                let k = choose|k: int| 0 <= k < r.len() && #[trigger] r[k].0 == rows[i].0;
                if k < rest.len() {
                    assert(r[k] == rest[k]);
                } else {
                    assert(r[k].0 == e.0);
                    assert(rows[i].0 != rows[last].0);
                }
            }
        }
    }
}

} // verus!
