//! The conversations of a mailbox: the graph of who replies to whom, with a
//! placeholder for each message that is referred to and not stored, and the
//! order in which a listing shows the messages.

use vstd::prelude::*;
use petgraph::graph::Graph;
use petgraph::Directed;
use crate::graph::{
    edge_count, graph_add_edge, graph_add_node, graph_edges, graph_neighbors, graph_new, graph_order,
    graph_reach, is_walk, joined_at, predecessors, reaches, successors,
};
use crate::id::MaildirID;
use crate::mail::{header_of, unknown_date, values_of, EasyMail, MailView};
use crate::mid::message_id_of;
use crate::order::{lemma_sorted_by_date, sort_by_date, sorted_by_date};
use crate::text::{split_words, str_eq, views, words};

verus! {

/// The reply relation of a mailbox. Vertex `i` is the message `mails[i]`,
/// known under `ids[i]`; the first `real` vertices are the stored messages,
/// the others stand for messages that are only referred to. An edge leads
/// from a message to each reply to it.
#[derive(Debug)]
pub struct ThreadGraph {
    pub mails: Vec<EasyMail>,
    pub ids: Vec<String>,
    pub real: usize,
    pub graph: Graph<(), (), Directed, u32>,
}

/// Why no graph could be built.
#[derive(Debug, Clone, Copy, PartialEq, Eq, Structural)]
pub enum ThreadError {
    /// The message at this index is known under the identifier of an earlier
    /// one.
    DuplicateId(usize),
    /// There are more vertices or edges than the graph can number.
    TooLarge,
}

/// The identifiers and the edges of a graph.
pub struct Linking {
    pub ids: Seq<Seq<char>>,
    pub edges: Seq<(usize, usize)>,
}

/// The place of `id` among `ids`: the index of its first occurrence, or the
/// number of identifiers where it does not occur.
pub open spec fn id_slot(ids: Seq<Seq<char>>, id: Seq<char>) -> int
    decreases ids.len(),
{
    if ids.len() == 0 || ids[0] == id {
        0
    } else {
        1 + id_slot(ids.skip(1), id)
    }
}

/// The graph after the message `child` was found to refer to `token`: an edge
/// leads to it from the vertex known under `token`, which is added after the
/// others where there was none.
pub open spec fn linked_one(s: Linking, child: usize, token: Seq<char>) -> Linking {
    let j = id_slot(s.ids, token);
    if j < s.ids.len() {
        Linking { edges: s.edges.push((j as usize, child)), ..s }
    } else {
        Linking { ids: s.ids.push(token), edges: s.edges.push((s.ids.len() as usize, child)) }
    }
}

/// The graph after the message `child` was found to refer to `tokens`, in
/// their order.
pub open spec fn linked_tokens(s: Linking, child: usize, tokens: Seq<Seq<char>>) -> Linking
    decreases tokens.len(),
{
    if tokens.len() == 0 {
        s
    } else {
        linked_one(linked_tokens(s, child, tokens.drop_last()), child, tokens.last())
    }
}

/// The words of all of `values`, in order.
pub open spec fn all_words(values: Seq<Seq<char>>) -> Seq<Seq<char>>
    decreases values.len(),
{
    if values.len() == 0 {
        seq![]
    } else {
        all_words(values.drop_last()) + words(values.last())
    }
}

/// The identifiers that a message says it replies to: the words of its
/// `In-Reply-To` headers.
pub open spec fn reply_tokens(m: MailView) -> Seq<Seq<char>> {
    all_words(values_of(m.headers, "In-Reply-To"@))
}

/// The identifier under which a stored message of `mailbox` is known.
pub open spec fn mail_id(m: MailView, mailbox: Seq<char>) -> Seq<char> {
    message_id_of(header_of(m.headers, "Message-ID"@), mailbox, m.id)
}

/// The graph after the first `n` of `mails` were linked to what they reply to.
pub open spec fn linked_mails(s: Linking, mails: Seq<MailView>, n: int) -> Linking
    decreases n,
{
    if n <= 0 {
        s
    } else {
        linked_tokens(linked_mails(s, mails, n - 1), (n - 1) as usize, reply_tokens(mails[n - 1]))
    }
}

/// What the records say, in their order.
pub open spec fn mail_views(mails: Seq<EasyMail>) -> Seq<MailView> {
    mails.map_values(|m: EasyMail| m@)
}

/// The identifiers of the stored messages, in their order.
pub open spec fn mail_ids(mails: Seq<MailView>, mailbox: Seq<char>) -> Seq<Seq<char>> {
    mails.map_values(|m: MailView| mail_id(m, mailbox))
}

/// The graph of the stored messages `mails` of `mailbox`.
pub open spec fn thread_linking(mails: Seq<MailView>, mailbox: Seq<char>) -> Linking {
    linked_mails(
        Linking { ids: mail_ids(mails, mailbox), edges: seq![] },
        mails,
        mails.len() as int,
    )
}

/// Whether no identifier occurs twice.
pub open spec fn distinct(ids: Seq<Seq<char>>) -> bool {
    forall|i: int, j: int| 0 <= i < j < ids.len() ==> ids[i] != ids[j]
}

/// Whether `j` is the first index whose identifier occurred before.
pub open spec fn first_duplicate(ids: Seq<Seq<char>>, j: int) -> bool {
    &&& 0 <= j < ids.len()
    &&& distinct(ids.take(j))
    &&& exists|i: int| 0 <= i < j && ids[i] == ids[j]
}

/// The record that stands for the message known under `id`.
pub open spec fn pseudo_view(id: Seq<char>) -> MailView {
    MailView {
        pseudo: true,
        headers: seq![],
        id: MaildirID { uid_validity: 0, uid: 0 },
        flags: seq!['S'],
        from: None,
        from_raw: seq![],
        subject: id,
        date: 0,
        date_iso: unknown_date(),
    }
}

/// Whether the graph can be numbered by `petgraph`.
pub open spec fn fits(s: Linking) -> bool {
    s.ids.len() <= u32::MAX && s.edges.len() <= u32::MAX
}

/// `id_slot` is the one index before which `id` does not occur and at which
/// the identifiers end or `id` stands.
pub proof fn lemma_id_slot(ids: Seq<Seq<char>>, id: Seq<char>, i: int)
    requires
        0 <= i <= ids.len(),
        forall|j: int| 0 <= j < i ==> ids[j] != id,
        i < ids.len() ==> ids[i] == id,
    ensures
        id_slot(ids, id) == i,
    decreases ids.len(),
{
    if ids.len() == 0 || ids[0] == id {
    } else {
        let t = ids.skip(1);
        assert forall|j: int| 0 <= j < i - 1 implies t[j] != id by {
            assert(t[j] == ids[j + 1]);
        }
        lemma_id_slot(t, id, i - 1);
    }
}

/// The place of `id` among `ids`.
pub fn find_id(ids: &Vec<String>, id: &str) -> (i: usize)
    ensures
        i == id_slot(views(ids@), id@),
        i <= ids@.len(),
        i < ids@.len() ==> ids@[i as int]@ == id@,
        forall|j: int| 0 <= j < i ==> (#[trigger] ids@[j])@ != id@,
{
    let n = ids.len();
    let mut i: usize = 0;
    while i < n && !str_eq(ids[i].as_str(), id)
        invariant
            n == ids@.len(),
            i <= n,
            forall|j: int| 0 <= j < i ==> (#[trigger] ids@[j])@ != id@,
        decreases n - i,
    {
        i += 1;
    }
    proof {
        let v = views(ids@);
        assert forall|j: int| 0 <= j < i implies v[j] != id@ by {
            assert(v[j] == ids@[j]@);
        }
        lemma_id_slot(v, id@, i as int);
    }
    i
}

impl ThreadGraph {
    /// The identifiers and the edges of the graph.
    pub open spec fn linking(&self) -> Linking {
        Linking { ids: views(self.ids@), edges: graph_edges(self.graph) }
    }

    /// What holds of every graph that `build` made: each vertex has its
    /// message and its identifier, the stored messages come first, edges enter
    /// stored messages only, and no two vertices are known under the same
    /// identifier.
    pub open spec fn wf(&self) -> bool {
        &&& self.mails@.len() == self.ids@.len()
        &&& self.mails@.len() == graph_order(self.graph)
        &&& self.real <= self.mails@.len()
        &&& fits(self.linking())
        &&& forall|i: int|
            0 <= i < self.mails@.len() ==> ((#[trigger] self.mails@[i])@.pseudo <==> i
                >= self.real)
        &&& forall|i: int|
            self.real <= i < self.mails@.len() ==> (#[trigger] self.mails@[i])@ == pseudo_view(
                self.ids@[i]@,
            )
        &&& forall|k: int|
            0 <= k < graph_edges(self.graph).len() ==> (#[trigger] graph_edges(self.graph)[k]).0
                < self.mails@.len() && graph_edges(self.graph)[k].1 < self.real
        &&& distinct(views(self.ids@))
    }

    /// Links the stored message `child` to the message known under `token`.
    /// Gives `false`, and leaves the graph as it is, where the graph is full.
    fn link(&mut self, child: usize, token: String) -> (ok: bool)
        requires
            old(self).wf(),
            child < old(self).real,
        ensures
            final(self).wf(),
            final(self).real == old(self).real,
            ok ==> final(self).linking() == linked_one(old(self).linking(), child, token@),
            ok == fits(linked_one(old(self).linking(), child, token@)),
            !ok ==> *final(self) == *old(self),
            forall|i: int|
                0 <= i < old(self).mails@.len() ==> final(self).mails@[i] == old(self).mails@[i],
            final(self).mails@.len() >= old(self).mails@.len(),
    {
        let ghost before = views(self.ids@);
        let ghost edges = graph_edges(self.graph);
        let j = find_id(&self.ids, token.as_str());
        if self.graph_edge_count_full() {
            return false;
        }
        if j < self.ids.len() {
            graph_add_edge(&mut self.graph, j, child);
            true
        } else {
            if self.ids.len() >= u32::MAX as usize {
                return false;
            }
            let copy = token.clone();
            self.mails.push(EasyMail::new_pseudo(token));
            self.ids.push(copy);
            let v = graph_add_node(&mut self.graph);
            graph_add_edge(&mut self.graph, v, child);
            proof {
                let after = views(self.ids@);
                assert(after == before.push(token@));
                assert forall|a: int, b: int| 0 <= a < b < after.len() implies after[a]
                    != after[b] by {
                    if b < before.len() {
                        assert(after[a] == before[a] && after[b] == before[b]);
                    } else {
                        assert(after[a] == old(self).ids@[a]@);
                    }
                }
                assert forall|k: int| 0 <= k < graph_edges(self.graph).len() implies (
                #[trigger] graph_edges(self.graph)[k]).0 < self.mails@.len() && graph_edges(
                    self.graph,
                )[k].1 < self.real by {
                    if k < edges.len() {
                        assert(graph_edges(self.graph)[k] == edges[k]);
                    }
                }
            }
            true
        }
    }

    fn graph_edge_count_full(&self) -> (r: bool)
        requires
            self.wf(),
        ensures
            r == (graph_edges(self.graph).len() >= u32::MAX),
    {
        edge_count(&self.graph) >= u32::MAX as usize
    }
}

/// A graph only grows: its identifiers and its edges stay as they are when a
/// reference is added.
pub proof fn lemma_linked_one_grows(s: Linking, child: usize, token: Seq<char>)
    ensures
        linked_one(s, child, token).ids.len() >= s.ids.len(),
        linked_one(s, child, token).edges.len() == s.edges.len() + 1,
{
}

/// A graph only grows while the references of a message are added.
pub proof fn lemma_linked_tokens_grow(s: Linking, child: usize, tokens: Seq<Seq<char>>, k: int)
    requires
        0 <= k <= tokens.len(),
    ensures
        linked_tokens(s, child, tokens).ids.len() >= linked_tokens(
            s,
            child,
            tokens.take(k),
        ).ids.len(),
        linked_tokens(s, child, tokens).edges.len() >= linked_tokens(
            s,
            child,
            tokens.take(k),
        ).edges.len(),
    decreases tokens.len() - k,
{
    if k == tokens.len() {
        assert(tokens.take(k) == tokens);
    } else {
        lemma_linked_tokens_grow(s, child, tokens.drop_last(), k);
        assert(tokens.drop_last().take(k) == tokens.take(k));
        lemma_linked_one_grows(
            linked_tokens(s, child, tokens.drop_last()),
            child,
            tokens.last(),
        );
    }
}

/// A graph only grows while messages are linked.
pub proof fn lemma_linked_mails_grow(s: Linking, mails: Seq<MailView>, i: int, n: int)
    requires
        0 <= i <= n,
    ensures
        linked_mails(s, mails, n).ids.len() >= linked_mails(s, mails, i).ids.len(),
        linked_mails(s, mails, n).edges.len() >= linked_mails(s, mails, i).edges.len(),
    decreases n - i,
{
    if i < n {
        lemma_linked_mails_grow(s, mails, i, n - 1);
        let t = reply_tokens(mails[n - 1]);
        lemma_linked_tokens_grow(linked_mails(s, mails, n - 1), (n - 1) as usize, t, 0);
        assert(t.take(0) =~= Seq::<Seq<char>>::empty());
    }
}

/// The identifiers that a stored message says it replies to.
pub fn reply_words(mail: &EasyMail) -> (r: Vec<String>)
    requires
        !mail@.pseudo,
    ensures
        views(r@) == reply_tokens(mail@),
{
    let values = mail.get_header_values("In-Reply-To");
    let mut r: Vec<String> = Vec::new();
    let n = values.len();
    let ghost v = views(values@);
    assert(views(r@) =~= all_words(v.take(0)));
    for i in 0..n
        invariant
            n == values@.len(),
            v == views(values@),
            views(r@) == all_words(v.take(i as int)),
    {
        proof {
            assert(v.take(i + 1).drop_last() == v.take(i as int));
            assert(v.take(i + 1).last() == values@[i as int]@);
        }
        let mut w = split_words(values[i].as_str());
        let ghost before = views(r@);
        let ghost added = views(w@);
        r.append(&mut w);
        assert(views(r@) =~= before + added);
    }
    assert(v.take(n as int) == v);
    r
}

impl ThreadGraph {
    /// Builds the graph of the stored messages `mails` of `mailbox`: a vertex
    /// for each, an edge to each from every message it says it replies to, and
    /// a placeholder for each such message that is not among them. Two
    /// messages known under the same identifier are an error.
    pub fn build(mailbox: &str, mails: Vec<EasyMail>) -> (r: Result<ThreadGraph, ThreadError>)
        requires
            forall|i: int| 0 <= i < mails@.len() ==> !(#[trigger] mails@[i])@.pseudo,
        ensures
            match r {
                Ok(g) => {
                    &&& g.wf()
                    &&& g.real == mails@.len()
                    &&& forall|i: int| 0 <= i < mails@.len() ==> g.mails@[i] == mails@[i]
                    &&& g.linking() == thread_linking(mail_views(mails@), mailbox@)
                    &&& distinct(mail_ids(mail_views(mails@), mailbox@))
                },
                Err(ThreadError::DuplicateId(j)) => first_duplicate(
                    mail_ids(mail_views(mails@), mailbox@),
                    j as int,
                ),
                Err(ThreadError::TooLarge) => {
                    &&& distinct(mail_ids(mail_views(mails@), mailbox@))
                    &&& !fits(thread_linking(mail_views(mails@), mailbox@))
                },
            },
    {
        let n = mails.len();
        let ghost mv = mail_views(mails@);
        let ghost all = mail_ids(mv, mailbox@);
        let mut ids: Vec<String> = Vec::new();
        assert(views(ids@) =~= all.take(0));
        for i in 0..n
            invariant
                n == mails@.len(),
                mv == mail_views(mails@),
                all == mail_ids(mv, mailbox@),
                forall|k: int| 0 <= k < mails@.len() ==> !(#[trigger] mails@[k])@.pseudo,
                views(ids@) == all.take(i as int),
                distinct(all.take(i as int)),
        {
            let id = mails[i].message_id(mailbox);
            assert(id@ == all[i as int]);
            let j = find_id(&ids, id.as_str());
            if j < ids.len() {
                proof {
                    assert(views(ids@)[j as int] == ids@[j as int]@);
                    assert(all[j as int] == all[i as int]);
                }
                return Err(ThreadError::DuplicateId(i));
            }
            let ghost before = views(ids@);
            ids.push(id);
            proof {
                assert(views(ids@) == before.push(id@));
                assert(views(ids@) =~= all.take(i + 1));
                let next = all.take(i + 1);
                assert forall|a: int, b: int| 0 <= a < b < next.len() implies next[a]
                    != next[b] by {
                    if b < i {
                        assert(all.take(i as int)[a] == all[a]);
                        assert(all.take(i as int)[b] == all[b]);
                    } else {
                        assert(before[a] == ids@[a]@);
                    }
                }
            }
        }
        assert(all.take(n as int) == all);
        let ghost start = Linking { ids: all, edges: seq![] };
        if n > u32::MAX as usize {
            proof {
                lemma_linked_mails_grow(start, mv, 0, n as int);
            }
            return Err(ThreadError::TooLarge);
        }
        let mut graph = graph_new();
        for i in 0..n
            invariant
                n <= u32::MAX,
                graph_order(graph) == i,
                graph_edges(graph) == Seq::<(usize, usize)>::empty(),
        {
            let _ = graph_add_node(&mut graph);
        }
        let mut g = ThreadGraph { mails, ids, real: n, graph };
        assert(g.linking() == start);
        for i in 0..n
            invariant
                n == mails@.len(),
                mv == mail_views(mails@),
                start == (Linking { ids: mail_ids(mv, mailbox@), edges: seq![] }),
                distinct(mail_ids(mv, mailbox@)),
                g.wf(),
                g.real == n,
                g.mails@.len() >= n,
                forall|k: int| 0 <= k < n ==> g.mails@[k] == mails@[k],
                g.linking() == linked_mails(start, mv, i as int),
        {
            let tokens = reply_words(&g.mails[i]);
            let m = tokens.len();
            let ghost t = views(tokens@);
            let ghost base = g.linking();
            assert(t == reply_tokens(mv[i as int]));
            assert(t.take(0) =~= Seq::<Seq<char>>::empty());
            for k in 0..m
                invariant
                    m == tokens@.len(),
                    t == views(tokens@),
                    t == reply_tokens(mv[i as int]),
                    i < n,
                    n == mails@.len(),
                    n == mv.len(),
                    mv == mail_views(mails@),
                    distinct(mail_ids(mv, mailbox@)),
                    start == (Linking { ids: mail_ids(mv, mailbox@), edges: seq![] }),
                    base == linked_mails(start, mv, i as int),
                    g.wf(),
                    g.real == n,
                    g.mails@.len() >= n,
                    forall|x: int| 0 <= x < n ==> g.mails@[x] == mails@[x],
                    g.linking() == linked_tokens(base, i, t.take(k as int)),
            {
                proof {
                    assert(t.take(k + 1).drop_last() == t.take(k as int));
                    assert(t.take(k + 1).last() == tokens@[k as int]@);
                }
                if !g.link(i, tokens[k].clone()) {
                    proof {
                        lemma_linked_tokens_grow(base, i, t, k + 1);
                        assert(linked_mails(start, mv, i + 1) == linked_tokens(base, i, t));
                        lemma_linked_mails_grow(start, mv, i + 1, n as int);
                    }
                    return Err(ThreadError::TooLarge);
                }
            }
            assert(t.take(m as int) == t);
        }
        Ok(g)
    }
}

/// The dates of the vertices.
pub open spec fn dates_of(mails: Seq<EasyMail>) -> Seq<i64> {
    mails.map_values(|m: EasyMail| m.date)
}

/// Whether `d` is the latest date among the vertices that `v` reaches.
pub open spec fn is_latest(dates: Seq<i64>, edges: Seq<(usize, usize)>, v: usize, d: i64) -> bool {
    &&& exists|u: usize| #[trigger] reaches(edges, v, u) && u < dates.len() && dates[u as int] == d
    &&& forall|u: usize| #[trigger] reaches(edges, v, u) && u < dates.len() ==> dates[u as int] <= d
}

/// The latest date among the vertices that `v` reaches: by it a conversation
/// is placed among the others.
pub open spec fn latest(dates: Seq<i64>, edges: Seq<(usize, usize)>, v: usize) -> i64 {
    choose|d: i64| is_latest(dates, edges, v, d)
}

/// Whether all edges join vertices below `n`.
pub open spec fn edges_within(edges: Seq<(usize, usize)>, n: nat) -> bool {
    forall|k: int| 0 <= k < edges.len() ==> (#[trigger] edges[k]).0 < n && edges[k].1 < n
}

/// A walk from a vertex of the graph stays in the graph.
pub proof fn lemma_reach_within(edges: Seq<(usize, usize)>, n: nat, a: usize, b: usize)
    requires
        edges_within(edges, n),
        a < n,
        reaches(edges, a, b),
    ensures
        b < n,
{
    let p = choose|p: Seq<usize>| is_walk(edges, p) && p[0] == a && #[trigger] p.last() == b;
    if p.len() > 1 {
        let i = p.len() - 2;
        assert(joined_at(edges, p, i));
        let k = choose|k: int| 0 <= k < edges.len() && edges[k] == (p[i], p[i + 1]);
        assert(edges[k].1 < n);
    }
}

/// Every vertex reaches itself.
pub proof fn lemma_reaches_self(edges: Seq<(usize, usize)>, a: usize)
    ensures
        reaches(edges, a, a),
{
    let p = seq![a];
    assert(is_walk(edges, p));
    assert(p[0] == a && p.last() == a);
}

/// A walk goes on along an edge.
pub proof fn lemma_reaches_step(edges: Seq<(usize, usize)>, a: usize, b: usize, c: usize)
    requires
        reaches(edges, a, b),
        edges.contains((b, c)),
    ensures
        reaches(edges, a, c),
{
    let p = choose|p: Seq<usize>| is_walk(edges, p) && p[0] == a && #[trigger] p.last() == b;
    let q = p.push(c);
    assert forall|i: int| 0 <= i < q.len() - 1 implies #[trigger] joined_at(edges, q, i) by {
        if i < p.len() - 1 {
            assert(joined_at(edges, p, i));
            assert(q[i] == p[i] && q[i + 1] == p[i + 1]);
        } else {
            assert(q[i] == b && q[i + 1] == c);
        }
    }
    assert(is_walk(edges, q));
    assert(q[0] == a && q.last() == c);
}

/// The vertices that the edges leaving `v` enter are those joined to `v`.
pub proof fn lemma_successors(edges: Seq<(usize, usize)>, v: usize)
    ensures
        forall|c: usize| successors(edges, v).contains(c) <==> edges.contains((v, c)),
    decreases edges.len(),
{
    if edges.len() == 0 {
    } else {
        let t = edges.drop_last();
        lemma_successors(t, v);
        let s = successors(edges, v);
        let st = successors(t, v);
        assert forall|c: usize| s.contains(c) <==> edges.contains((v, c)) by {
            if s.contains(c) {
                let k = choose|k: int| 0 <= k < s.len() && s[k] == c;
                if edges.last().0 == v {
                    if k == 0 {
                        assert(edges[edges.len() - 1] == (v, c));
                    } else {
                        assert(st[k - 1] == c);
                        assert(st.contains(c));
                        assert(t.contains((v, c)));
                        let m = choose|m: int| 0 <= m < t.len() && t[m] == (v, c);
                        assert(edges[m] == (v, c));
                    }
                } else {
                    assert(st.contains(c));
                    assert(t.contains((v, c)));
                    let m = choose|m: int| 0 <= m < t.len() && t[m] == (v, c);
                    assert(edges[m] == (v, c));
                }
            }
            if edges.contains((v, c)) {
                let m = choose|m: int| 0 <= m < edges.len() && edges[m] == (v, c);
                if m < t.len() {
                    assert(t[m] == (v, c));
                    assert(t.contains((v, c)));
                    assert(st.contains(c));
                    let k = choose|k: int| 0 <= k < st.len() && st[k] == c;
                    if edges.last().0 == v {
                        assert(s[k + 1] == c);
                    } else {
                        assert(s[k] == c);
                    }
                } else {
                    assert(s[0] == c);
                }
            }
        }
    }
}

/// No edge enters a vertex without predecessors.
pub proof fn lemma_predecessors(edges: Seq<(usize, usize)>, v: usize)
    ensures
        predecessors(edges, v).len() == 0 <==> forall|a: usize| !edges.contains((a, v)),
    decreases edges.len(),
{
    if edges.len() == 0 {
    } else {
        let t = edges.drop_last();
        lemma_predecessors(t, v);
        if edges.last().1 == v {
            assert(edges[edges.len() - 1] == (edges.last().0, v));
            assert(edges.contains((edges.last().0, v)));
        } else {
            if predecessors(t, v).len() == 0 {
                assert forall|a: usize| !edges.contains((a, v)) by {
                    if edges.contains((a, v)) {
                        let m = choose|m: int| 0 <= m < edges.len() && edges[m] == (a, v);
                        assert(t[m] == (a, v));
                        assert(t.contains((a, v)));
                    }
                }
            } else {
                let a = choose|a: usize| t.contains((a, v));
                let m = choose|m: int| 0 <= m < t.len() && t[m] == (a, v);
                assert(edges[m] == (a, v));
                assert(edges.contains((a, v)));
            }
        }
    }
}

impl ThreadGraph {
    /// The date by which the conversation under `v` is placed among the
    /// others: the latest date of the messages that `v` reaches, itself among
    /// them.
    pub fn subtree_date(&self, v: usize) -> (d: i64)
        requires
            self.wf(),
            v < self.mails@.len(),
        ensures
            is_latest(dates_of(self.mails@), graph_edges(self.graph), v, d),
            d == latest(dates_of(self.mails@), graph_edges(self.graph), v),
    {
        let ghost dates = dates_of(self.mails@);
        let ghost edges = graph_edges(self.graph);
        let reached = graph_reach(&self.graph, v);
        let n = reached.len();
        let mut d = self.mails[v].date;
        proof {
            lemma_reaches_self(edges, v);
            assert(edges_within(edges, self.mails@.len() as nat));
        }
        let ghost mut best: usize = v;
        for i in 0..n
            invariant
                n == reached@.len(),
                self.wf(),
                v < self.mails@.len(),
                dates == dates_of(self.mails@),
                edges == graph_edges(self.graph),
                edges_within(edges, self.mails@.len() as nat),
                forall|u: usize| reached@.contains(u) <==> reaches(edges, v, u),
                reaches(edges, v, best),
                best < dates.len(),
                dates[best as int] == d,
                forall|k: int| 0 <= k < i ==> dates[(#[trigger] reached@[k]) as int] <= d,
        {
            let u = reached[i];
            proof {
                assert(reached@.contains(u));
                lemma_reach_within(edges, self.mails@.len() as nat, v, u);
            }
            if self.mails[u].date > d {
                d = self.mails[u].date;
                proof {
                    best = u;
                }
            }
        }
        proof {
            assert forall|u: usize| #[trigger]
                reaches(edges, v, u) && u < dates.len() implies dates[u as int] <= d by {
                assert(reached@.contains(u));
                let k = choose|k: int| 0 <= k < reached@.len() && reached@[k] == u;
                assert(dates[reached@[k] as int] <= d);
            }
            assert(is_latest(dates, edges, v, d));
            let c = latest(dates, edges, v);
            assert(is_latest(dates, edges, v, c));
        }
        d
    }
}

/// Whether `v` starts a conversation: no edge enters it.
pub open spec fn is_root(edges: Seq<(usize, usize)>, v: usize) -> bool {
    forall|a: usize| !edges.contains((a, v))
}

/// The vertices below `n` that start a conversation, in increasing order.
pub open spec fn root_list(edges: Seq<(usize, usize)>, n: nat) -> Seq<usize>
    decreases n,
{
    if n == 0 {
        seq![]
    } else if is_root(edges, (n - 1) as usize) {
        root_list(edges, (n - 1) as nat).push((n - 1) as usize)
    } else {
        root_list(edges, (n - 1) as nat)
    }
}

/// Each of `vs` with the date by which its conversation is placed.
pub open spec fn dated(dates: Seq<i64>, edges: Seq<(usize, usize)>, vs: Seq<usize>) -> Seq<
    (i64, usize),
> {
    vs.map_values(|v: usize| (latest(dates, edges, v), v))
}

/// The vertices `vs` in the order in which a listing shows them: by the latest
/// date of their conversations, earliest first; those of the same date keep
/// their order.
pub open spec fn by_date(dates: Seq<i64>, edges: Seq<(usize, usize)>, vs: Seq<usize>) -> Seq<
    usize,
> {
    sorted_by_date(dated(dates, edges, vs)).map_values(|p: (i64, usize)| p.1)
}

/// Whether a line of the listing shows `v`.
pub open spec fn shown(out: Seq<(usize, usize)>, v: usize) -> bool {
    exists|k: int| 0 <= k < out.len() && (#[trigger] out[k]).0 == v
}

/// Whether every vertex that an edge from `u` enters has been seen.
pub open spec fn closed_at(edges: Seq<(usize, usize)>, seen: Seq<bool>, u: usize) -> bool {
    forall|c: usize| #[trigger] edges.contains((u, c)) ==> c < seen.len() && seen[c as int]
}

/// Whether `u` belongs to a conversation that some vertex below `n` starts.
pub open spec fn rooted(edges: Seq<(usize, usize)>, n: nat, u: usize) -> bool {
    exists|r: usize| r < n && is_root(edges, r) && #[trigger] reaches(edges, r, u)
}

/// The number of vertices not seen yet.
pub open spec fn unseen(seen: Seq<bool>) -> nat
    decreases seen.len(),
{
    if seen.len() == 0 {
        0
    } else {
        unseen(seen.drop_last()) + if seen.last() {
            0nat
        } else {
            1nat
        }
    }
}

/// Seeing one more vertex leaves one less to see.
pub proof fn lemma_unseen_mark(seen: Seq<bool>, v: int)
    requires
        0 <= v < seen.len(),
        !seen[v],
    ensures
        unseen(seen.update(v, true)) + 1 == unseen(seen),
    decreases seen.len(),
{
    let s = seen.update(v, true);
    if v == seen.len() - 1 {
        assert(s.drop_last() == seen.drop_last());
    } else {
        lemma_unseen_mark(seen.drop_last(), v);
        assert(s.drop_last() == seen.drop_last().update(v, true));
    }
}

/// No more vertices are left to see than there are.
pub proof fn lemma_unseen_bound(seen: Seq<bool>)
    ensures
        unseen(seen) <= seen.len(),
    decreases seen.len(),
{
    if seen.len() > 0 {
        lemma_unseen_bound(seen.drop_last());
    }
}

/// What holds of a listing in the making. `seen` says which vertices it
/// shows; it shows none twice; every vertex it shows belongs to a
/// conversation; and every vertex it shows, but for those in `open`, has all
/// its replies shown.
#[verifier::opaque]
pub open spec fn walk_inv(
    edges: Seq<(usize, usize)>,
    seen: Seq<bool>,
    out: Seq<(usize, usize)>,
    open: Set<usize>,
) -> bool {
    &&& forall|v: usize| v < seen.len() ==> (seen[v as int] <==> #[trigger] shown(out, v))
    &&& forall|i: int, j: int| 0 <= i < j < out.len() ==> (#[trigger] out[i]).0 != (
    #[trigger] out[j]).0
    &&& forall|k: int| 0 <= k < out.len() ==> (#[trigger] out[k]).0 < seen.len()
    &&& forall|u: usize|
        u < seen.len() && seen[u as int] && !open.contains(u) ==> #[trigger] closed_at(
            edges,
            seen,
            u,
        )
    &&& forall|u: usize|
        u < seen.len() && seen[u as int] ==> #[trigger] rooted(edges, seen.len(), u)
}

/// A listing in the making: which vertices it shows, and its lines, each with
/// a vertex and its depth.
pub struct Walk {
    pub seen: Seq<bool>,
    pub out: Seq<(usize, usize)>,
}

/// The listing after `v` was come to at `depth`. A vertex that is shown
/// already changes nothing. Another one gets the next line, and after it its
/// replies are come to, one level deeper, in the order of their dates.
pub open spec fn walk_from(
    dates: Seq<i64>,
    edges: Seq<(usize, usize)>,
    v: usize,
    depth: usize,
    w: Walk,
) -> Walk
    decreases unseen(w.seen), 0nat,
{
    if v >= w.seen.len() || w.seen[v as int] {
        w
    } else {
        proof {
            lemma_unseen_mark(w.seen, v as int);
        }
        walk_each(
            dates,
            edges,
            by_date(dates, edges, successors(edges, v)),
            (depth + 1) as usize,
            Walk { seen: w.seen.update(v as int, true), out: w.out.push((v, depth)) },
        )
    }
}

/// The listing after the vertices `vs` were come to at `depth`, one after the
/// other.
pub open spec fn walk_each(
    dates: Seq<i64>,
    edges: Seq<(usize, usize)>,
    vs: Seq<usize>,
    depth: usize,
    w: Walk,
) -> Walk
    decreases unseen(w.seen), vs.len() + 1,
{
    if vs.len() == 0 {
        w
    } else {
        let next = walk_from(dates, edges, vs[0], depth, w);
        if unseen(next.seen) <= unseen(w.seen) {
            walk_each(dates, edges, vs.skip(1), depth, next)
        } else {
            next
        }
    }
}

/// The listing of a graph of `n` vertices: the conversations in the order of
/// their latest dates, each message followed by the replies to it.
pub open spec fn listing(dates: Seq<i64>, edges: Seq<(usize, usize)>, n: nat) -> Seq<
    (usize, usize),
> {
    walk_each(
        dates,
        edges,
        by_date(dates, edges, root_list(edges, n)),
        0,
        Walk { seen: Seq::new(n, |i: int| false), out: seq![] },
    ).out
}

impl ThreadGraph {
    /// The vertices that start a conversation, in increasing order.
    pub fn root_vertices(&self) -> (r: Vec<usize>)
        requires
            self.wf(),
        ensures
            r@ == root_list(graph_edges(self.graph), self.mails@.len() as nat),
            forall|k: int| 0 <= k < r@.len() ==> (#[trigger] r@[k]) < self.mails@.len(),
    {
        let n = self.mails.len();
        let mut r: Vec<usize> = Vec::new();
        let ghost edges = graph_edges(self.graph);
        for v in 0..n
            invariant
                self.wf(),
                n == self.mails@.len(),
                edges == graph_edges(self.graph),
                r@ == root_list(edges, v as nat),
                forall|k: int| 0 <= k < r@.len() ==> (#[trigger] r@[k]) < n,
        {
            let p = graph_neighbors(&self.graph, v, true);
            proof {
                lemma_predecessors(edges, v);
            }
            if p.len() == 0 {
                r.push(v);
            }
        }
        r
    }

    /// Puts the vertices `vs` in the order in which a listing shows them.
    pub fn order_by_date(&self, vs: &Vec<usize>) -> (r: Vec<usize>)
        requires
            self.wf(),
            forall|k: int| 0 <= k < vs@.len() ==> (#[trigger] vs@[k]) < self.mails@.len(),
        ensures
            r@ == by_date(dates_of(self.mails@), graph_edges(self.graph), vs@),
            forall|c: usize| r@.contains(c) <==> vs@.contains(c),
            forall|k: int| 0 <= k < r@.len() ==> (#[trigger] r@[k]) < self.mails@.len(),
    {
        let ghost dates = dates_of(self.mails@);
        let ghost edges = graph_edges(self.graph);
        let ghost d = dated(dates, edges, vs@);
        let mut keyed: Vec<(i64, usize)> = Vec::new();
        let n = vs.len();
        for i in 0..n
            invariant
                self.wf(),
                n == vs@.len(),
                dates == dates_of(self.mails@),
                edges == graph_edges(self.graph),
                d == dated(dates, edges, vs@),
                forall|k: int| 0 <= k < vs@.len() ==> (#[trigger] vs@[k]) < self.mails@.len(),
                keyed@ == d.take(i as int),
        {
            let key = self.subtree_date(vs[i]);
            keyed.push((key, vs[i]));
            assert(keyed@ =~= d.take(i + 1));
        }
        assert(d.take(n as int) == d);
        let sorted = sort_by_date(&keyed);
        let mut r: Vec<usize> = Vec::new();
        let m = sorted.len();
        let ghost target = sorted@.map_values(|p: (i64, usize)| p.1);
        for i in 0..m
            invariant
                m == sorted@.len(),
                target == sorted@.map_values(|p: (i64, usize)| p.1),
                r@ == target.take(i as int),
        {
            r.push(sorted[i].1);
            assert(r@ =~= target.take(i + 1));
        }
        assert(target.take(m as int) == target);
        proof {
            lemma_sorted_by_date(d);
            assert forall|c: usize| r@.contains(c) <==> vs@.contains(c) by {
                if r@.contains(c) {
                    let k = choose|k: int| 0 <= k < r@.len() && r@[k] == c;
                    assert(sorted@.contains(sorted@[k]));
                    assert(d.contains(sorted@[k]));
                    let j = choose|j: int| 0 <= j < d.len() && d[j] == sorted@[k];
                    assert(vs@[j] == c);
                }
                if vs@.contains(c) {
                    let j = choose|j: int| 0 <= j < vs@.len() && vs@[j] == c;
                    assert(d[j].1 == c);
                    assert(d.contains(d[j]));
                    assert(sorted@.contains(d[j]));
                    let k = choose|k: int| 0 <= k < sorted@.len() && sorted@[k] == d[j];
                    assert(r@[k] == c);
                }
            }
            assert forall|k: int| 0 <= k < r@.len() implies (#[trigger] r@[k])
                < self.mails@.len() by {
                assert(r@.contains(r@[k]));
                let j = choose|j: int| 0 <= j < vs@.len() && vs@[j] == r@[k];
            }
        }
        r
    }
}

impl ThreadGraph {
    /// Shows `v` at `depth` and, below it, the replies it has that are not
    /// shown yet, each with its own replies.
    fn visit(
        &self,
        v: usize,
        depth: usize,
        seen: &mut Vec<bool>,
        out: &mut Vec<(usize, usize)>,
        Ghost(open): Ghost<Set<usize>>,
    )
        requires
            self.wf(),
            v < self.mails@.len(),
            old(seen)@.len() == self.mails@.len(),
            walk_inv(graph_edges(self.graph), old(seen)@, old(out)@, open),
            rooted(graph_edges(self.graph), self.mails@.len() as nat, v),
            depth + unseen(old(seen)@) <= self.mails@.len(),
        ensures
            final(seen)@.len() == self.mails@.len(),
            walk_inv(graph_edges(self.graph), final(seen)@, final(out)@, open),
            final(seen)@[v as int],
            forall|u: int| 0 <= u < old(seen)@.len() && old(seen)@[u] ==> final(seen)@[u],
            unseen(final(seen)@) <= unseen(old(seen)@),
            old(out)@.len() <= final(out)@.len(),
            final(out)@.take(old(out)@.len() as int) == old(out)@,
            (Walk { seen: final(seen)@, out: final(out)@ }) == walk_from(
                dates_of(self.mails@),
                graph_edges(self.graph),
                v,
                depth,
                Walk { seen: old(seen)@, out: old(out)@ },
            ),
        decreases unseen(old(seen)@),
    {
        reveal(walk_inv);
        if seen[v] {
            assert(out@.take(out@.len() as int) == out@);
            return ;
        }
        let ghost edges = graph_edges(self.graph);
        let ghost n = self.mails@.len();
        let ghost seen0 = seen@;
        let ghost out0 = out@;
        let ghost inner = open.insert(v);
        seen.set(v, true);
        out.push((v, depth));
        proof {
            lemma_unseen_mark(seen0, v as int);
            lemma_unseen_bound(seen@);
            assert(out@[out0.len() as int].0 == v);
            assert forall|u: usize| u < seen@.len() implies (seen@[u as int] <==> #[trigger] shown(
                out@,
                u,
            )) by {
                if u == v {
                    assert(shown(out@, v));
                } else {
                    if shown(out0, u) {
                        let k = choose|k: int| 0 <= k < out0.len() && (#[trigger] out0[k]).0 == u;
                        assert(out@[k].0 == u);
                    }
                    if shown(out@, u) {
                        let k = choose|k: int| 0 <= k < out@.len() && (#[trigger] out@[k]).0 == u;
                        assert(out0[k].0 == u);
                    }
                }
            }
            assert forall|i: int, j: int| 0 <= i < j < out@.len() implies (#[trigger] out@[i]).0
                != (#[trigger] out@[j]).0 by {
                if j == out0.len() {
                    assert(out0[i].0 == out@[i].0);
                    if out@[i].0 == v {
                        assert(shown(out0, v));
                    }
                } else {
                    assert(out0[i] == out@[i] && out0[j] == out@[j]);
                }
            }
            assert forall|u: usize|
                u < seen@.len() && seen@[u as int] && !inner.contains(u) implies #[trigger] closed_at(
                edges,
                seen@,
                u,
            ) by {
                assert(closed_at(edges, seen0, u));
            }
            assert forall|u: usize| u < seen@.len() && seen@[u as int] implies #[trigger] rooted(
                edges,
                seen@.len(),
                u,
            ) by {
                if u != v {
                    assert(rooted(edges, seen0.len(), u));
                }
            }
            assert(walk_inv(edges, seen@, out@, inner));
        }
        let raw = graph_neighbors(&self.graph, v, false);
        proof {
            lemma_successors(edges, v);
            assert forall|k: int| 0 <= k < raw@.len() implies (#[trigger] raw@[k]) < n by {
                assert(raw@.contains(raw@[k]));
                assert(edges.contains((v, raw@[k])));
                let m = choose|m: int| 0 <= m < edges.len() && edges[m] == (v, raw@[k]);
                assert(edges[m].1 < n);
            }
        }
        let kids = self.order_by_date(&raw);
        let m = kids.len();
        let ghost dates = dates_of(self.mails@);
        let ghost target = walk_each(
            dates,
            edges,
            kids@,
            (depth + 1) as usize,
            Walk { seen: seen@, out: out@ },
        );
        assert(target == walk_from(dates, edges, v, depth, Walk { seen: seen0, out: out0 }));
        assert(kids@.skip(0) == kids@);
        for i in 0..m
            invariant
                self.wf(),
                m == kids@.len(),
                n == self.mails@.len(),
                dates == dates_of(self.mails@),
                target == walk_each(
                    dates,
                    edges,
                    kids@.skip(i as int),
                    (depth + 1) as usize,
                    Walk { seen: seen@, out: out@ },
                ),
                edges == graph_edges(self.graph),
                v < n,
                seen@.len() == n,
                inner == open.insert(v),
                walk_inv(edges, seen@, out@, inner),
                seen@[v as int],
                seen0.len() == n,
                forall|u: int| 0 <= u < seen0.len() && seen0[u] ==> seen@[u],
                unseen(seen@) < unseen(seen0),
                unseen(seen0) == unseen(old(seen)@),
                depth + 1 + unseen(seen@) <= n,
                out0.len() < out@.len(),
                out@.take(out0.len() as int) == out0,
                rooted(edges, n, v),
                forall|k: int| 0 <= k < kids@.len() ==> (#[trigger] kids@[k]) < n,
                forall|c: usize| kids@.contains(c) <==> edges.contains((v, c)),
                forall|k: int| 0 <= k < i ==> seen@[(#[trigger] kids@[k]) as int],
        {
            let c = kids[i];
            let ghost before = seen@;
            let ghost shown_before = out@;
            proof {
                assert(kids@.contains(c));
                let r = choose|r: usize| r < n && is_root(edges, r) && #[trigger] reaches(
                    edges,
                    r,
                    v,
                );
                lemma_reaches_step(edges, r, v, c);
                assert(rooted(edges, n, c));
            }
            self.visit(c, depth + 1, seen, out, Ghost(inner));
            proof {
                assert(out@.take(out0.len() as int) =~= shown_before.take(out0.len() as int));
                assert(kids@.skip(i as int)[0] == c);
                assert(kids@.skip(i as int).skip(1) == kids@.skip(i + 1));
            }
        }
        assert(kids@.skip(m as int).len() == 0);
        proof {
            assert forall|u: usize|
                u < seen@.len() && seen@[u as int] && !open.contains(u) implies #[trigger] closed_at(
                edges,
                seen@,
                u,
            ) by {
                if u == v {
                    assert forall|c: usize| #[trigger] edges.contains((v, c)) implies c
                        < seen@.len() && seen@[c as int] by {
                        assert(kids@.contains(c));
                        let k = choose|k: int| 0 <= k < kids@.len() && kids@[k] == c;
                        assert(seen@[kids@[k] as int]);
                    }
                } else {
                    assert(!inner.contains(u));
                }
            }
        }
    }

    /// The listing of the mailbox: the conversations in the order of their
    /// latest dates, each message followed by the replies to it. A line names
    /// the vertex and says how deep in its conversation it stands.
    ///
    /// No vertex is shown twice; a vertex is shown exactly if it belongs to a
    /// conversation, that is, if a vertex that no edge enters reaches it.
    pub fn threads(&self) -> (out: Vec<(usize, usize)>)
        requires
            self.wf(),
        ensures
            out@ == listing(
                dates_of(self.mails@),
                graph_edges(self.graph),
                self.mails@.len() as nat,
            ),
            forall|i: int, j: int|
                0 <= i < j < out@.len() ==> (#[trigger] out@[i]).0 != (#[trigger] out@[j]).0,
            forall|k: int| 0 <= k < out@.len() ==> (#[trigger] out@[k]).0 < self.mails@.len(),
            forall|v: usize|
                v < self.mails@.len() ==> (#[trigger] shown(out@, v) <==> rooted(
                    graph_edges(self.graph),
                    self.mails@.len() as nat,
                    v,
                )),
    {
        let n = self.mails.len();
        let ghost edges = graph_edges(self.graph);
        let mut seen: Vec<bool> = Vec::new();
        for i in 0..n
            invariant
                seen@.len() == i,
                forall|k: int| 0 <= k < i ==> !seen@[k],
        {
            seen.push(false);
        }
        let mut out: Vec<(usize, usize)> = Vec::new();
        let base = self.root_vertices();
        let roots = self.order_by_date(&base);
        let m = roots.len();
        proof {
            lemma_unseen_bound(seen@);
            lemma_walk_start(edges, seen@);
        }
        let ghost dates = dates_of(self.mails@);
        let ghost target = walk_each(dates, edges, roots@, 0, Walk { seen: seen@, out: out@ });
        assert(seen@ =~= Seq::new(n as nat, |i: int| false));
        assert(roots@.skip(0) == roots@);
        for i in 0..m
            invariant
                self.wf(),
                m == roots@.len(),
                n == self.mails@.len(),
                dates == dates_of(self.mails@),
                target == walk_each(
                    dates,
                    edges,
                    roots@.skip(i as int),
                    0,
                    Walk { seen: seen@, out: out@ },
                ),
                edges == graph_edges(self.graph),
                seen@.len() == n,
                unseen(seen@) <= n,
                walk_inv(edges, seen@, out@, Set::<usize>::empty()),
                forall|k: int| 0 <= k < roots@.len() ==> (#[trigger] roots@[k]) < n,
                forall|c: usize| roots@.contains(c) <==> base@.contains(c),
                base@ == root_list(edges, n as nat),
                forall|k: int| 0 <= k < i ==> seen@[(#[trigger] roots@[k]) as int],
        {
            let r = roots[i];
            proof {
                assert(roots@.contains(r));
                lemma_root_list(edges, n as nat, r);
                lemma_reaches_self(edges, r);
                assert(rooted(edges, n as nat, r));
            }
            self.visit(r, 0, &mut seen, &mut out, Ghost(Set::<usize>::empty()));
            proof {
                assert(roots@.skip(i as int)[0] == r);
                assert(roots@.skip(i as int).skip(1) == roots@.skip(i + 1));
            }
        }
        assert(roots@.skip(m as int).len() == 0);
        proof {
            assert forall|r: usize| r < n && is_root(edges, r) implies seen@[r as int] by {
                lemma_root_list(edges, n as nat, r);
                assert(base@.contains(r));
                assert(roots@.contains(r));
                let k = choose|k: int| 0 <= k < roots@.len() && roots@[k] == r;
                assert(seen@[roots@[k] as int]);
            }
            lemma_walk_done(edges, seen@, out@);
        }
        out
    }
}

/// An empty listing of a graph of which nothing was seen is a listing in the
/// making.
proof fn lemma_walk_start(edges: Seq<(usize, usize)>, seen: Seq<bool>)
    requires
        forall|k: int| 0 <= k < seen.len() ==> !seen[k],
    ensures
        walk_inv(edges, seen, Seq::<(usize, usize)>::empty(), Set::<usize>::empty()),
{
    reveal(walk_inv);
    let out = Seq::<(usize, usize)>::empty();
    assert forall|v: usize| v < seen.len() implies (seen[v as int] <==> #[trigger] shown(
        out,
        v,
    )) by {}
}

/// A listing in the making with nothing left open, which shows every vertex
/// that no edge enters, is complete: it shows no vertex twice, and shows a
/// vertex exactly if it belongs to a conversation.
proof fn lemma_walk_done(edges: Seq<(usize, usize)>, seen: Seq<bool>, out: Seq<(usize, usize)>)
    requires
        walk_inv(edges, seen, out, Set::<usize>::empty()),
        forall|r: usize| r < seen.len() && is_root(edges, r) ==> seen[r as int],
    ensures
        forall|i: int, j: int|
            0 <= i < j < out.len() ==> (#[trigger] out[i]).0 != (#[trigger] out[j]).0,
        forall|k: int| 0 <= k < out.len() ==> (#[trigger] out[k]).0 < seen.len(),
        forall|v: usize|
            v < seen.len() ==> (#[trigger] shown(out, v) <==> rooted(edges, seen.len(), v)),
{
    reveal(walk_inv);
    let n = seen.len();
    assert forall|v: usize| v < n implies (#[trigger] shown(out, v) <==> rooted(edges, n, v)) by {
        if rooted(edges, n, v) {
            let r = choose|r: usize| r < n && is_root(edges, r) && #[trigger] reaches(edges, r, v);
            let p = choose|p: Seq<usize>|
                is_walk(edges, p) && p[0] == r && #[trigger] p.last() == v;
            assert forall|u: usize| u < seen.len() && seen[u as int] implies #[trigger] closed_at(
                edges,
                seen,
                u,
            ) by {}
            lemma_closed_walk(edges, seen, p, p.len() - 1);
        }
    }
}

/// The roots listed are the vertices below `n` that no edge enters.
pub proof fn lemma_root_list(edges: Seq<(usize, usize)>, n: nat, r: usize)
    ensures
        root_list(edges, n).contains(r) <==> (r < n && is_root(edges, r)),
    decreases n,
{
    if n == 0 {
    } else {
        lemma_root_list(edges, (n - 1) as nat, r);
        let t = root_list(edges, (n - 1) as nat);
        let s = root_list(edges, n);
        if is_root(edges, (n - 1) as usize) {
            if s.contains(r) {
                let k = choose|k: int| 0 <= k < s.len() && s[k] == r;
                if k < t.len() {
                    assert(t[k] == r);
                    assert(t.contains(r));
                }
            }
            if t.contains(r) {
                let k = choose|k: int| 0 <= k < t.len() && t[k] == r;
                assert(s[k] == r);
            }
            if r == n - 1 {
                assert(s[t.len() as int] == r);
            }
        }
    }
}

/// Where every vertex seen has all its replies seen, a walk that starts at a
/// vertex seen stays among the vertices seen.
pub proof fn lemma_closed_walk(edges: Seq<(usize, usize)>, seen: Seq<bool>, p: Seq<usize>, i: int)
    requires
        is_walk(edges, p),
        0 <= i < p.len(),
        p[0] < seen.len(),
        seen[p[0] as int],
        forall|u: usize| u < seen.len() && seen[u as int] ==> #[trigger] closed_at(edges, seen, u),
    ensures
        p[i] < seen.len(),
        seen[p[i] as int],
    decreases i,
{
    if i > 0 {
        lemma_closed_walk(edges, seen, p, i - 1);
        let u = p[i - 1];
        assert(closed_at(edges, seen, u));
        assert(joined_at(edges, p, i - 1));
        assert(edges.contains((u, p[i])));
    }
}

/// Whether no walk along at least one edge leads from a vertex back to it.
pub open spec fn acyclic(edges: Seq<(usize, usize)>) -> bool {
    forall|p: Seq<usize>| #[trigger] is_walk(edges, p) && p.len() >= 2 ==> p[0] != p.last()
}

/// More vertices than there are numbers below `n` cannot all be different and
/// below `n`.
proof fn lemma_pigeonhole(p: Seq<usize>, n: nat)
    requires
        p.len() > n,
        forall|i: int| 0 <= i < p.len() ==> p[i] < n,
    ensures
        exists|i: int, j: int| 0 <= i < j < p.len() && p[i] == p[j],
{
    let q = p.map_values(|x: usize| x as int);
    if q.no_duplicates() {
        q.unique_seq_to_set();
        vstd::set_lib::lemma_int_range(0, n as int);
        let range = vstd::set_lib::set_int_range(0, n as int);
        assert forall|x: int| q.to_set().contains(x) implies range.contains(x) by {
            let k = choose|k: int| 0 <= k < q.len() && q[k] == x;
            assert(p[k] < n);
        }
        vstd::set_lib::lemma_len_subset(q.to_set(), range);
    } else {
        let (i, j) = choose|i: int, j: int|
            0 <= i < q.len() && 0 <= j < q.len() && i != j && q[i] == q[j];
        if i < j {
            assert(p[i] == p[j]);
        } else {
            assert(p[j] == p[i]);
        }
    }
}

/// A vertex that belongs to no conversation is the end of walks of any
/// length.
proof fn lemma_long_walk(edges: Seq<(usize, usize)>, n: nat, v: usize, k: nat) -> (p: Seq<usize>)
    requires
        edges_within(edges, n),
        v < n,
        !rooted(edges, n, v),
        k >= 1,
    ensures
        is_walk(edges, p),
        p.len() == k,
        p.last() == v,
        forall|i: int| 0 <= i < p.len() ==> p[i] < n,
    decreases k,
{
    if k == 1 {
        let p = seq![v];
        assert(is_walk(edges, p));
        p
    } else {
        let p = lemma_long_walk(edges, n, v, (k - 1) as nat);
        let a = p[0];
        assert(reaches(edges, a, v)) by {
            assert(p[0] == a && p.last() == v);
        }
        assert(!is_root(edges, a));
        let b = choose|b: usize| edges.contains((b, a));
        let m = choose|m: int| 0 <= m < edges.len() && edges[m] == (b, a);
        assert(edges[m].0 < n);
        let q = seq![b] + p;
        assert forall|i: int| 0 <= i < q.len() - 1 implies #[trigger] joined_at(edges, q, i) by {
            if i == 0 {
                assert(q[0] == b && q[1] == a);
            } else {
                assert(joined_at(edges, p, i - 1));
                assert(q[i] == p[i - 1] && q[i + 1] == p[i]);
            }
        }
        assert(q.last() == p.last());
        q
    }
}

/// A walk that comes to a vertex twice holds a walk from that vertex back to
/// it.
proof fn lemma_cycle(edges: Seq<(usize, usize)>, p: Seq<usize>, i: int, j: int)
    requires
        is_walk(edges, p),
        0 <= i < j < p.len(),
        p[i] == p[j],
    ensures
        !acyclic(edges),
{
    let c = p.subrange(i, j + 1);
    assert forall|k: int| 0 <= k < c.len() - 1 implies #[trigger] joined_at(edges, c, k) by {
        assert(joined_at(edges, p, i + k));
        assert(c[k] == p[i + k] && c[k + 1] == p[i + k + 1]);
    }
    assert(is_walk(edges, c));
    assert(c[0] == p[i] && c.last() == p[j]);
    assert(c.len() >= 2);
}

/// Where no message replies to itself, directly or by way of others, every
/// vertex belongs to a conversation: a listing then shows every message, and
/// each once.
pub proof fn lemma_acyclic_rooted(edges: Seq<(usize, usize)>, n: nat, v: usize)
    requires
        edges_within(edges, n),
        acyclic(edges),
        v < n,
    ensures
        rooted(edges, n, v),
{
    if !rooted(edges, n, v) {
        let p = lemma_long_walk(edges, n, v, n + 1);
        lemma_pigeonhole(p, n);
        let (i, j) = choose|i: int, j: int| 0 <= i < j < p.len() && p[i] == p[j];
        lemma_cycle(edges, p, i, j);
    }
}

impl ThreadGraph {
    /// A placeholder starts its conversation: no edge enters a vertex that
    /// stands for a message that is not stored, so a listing shows it, once,
    /// at the top of a conversation.
    pub proof fn lemma_pseudo_is_root(&self, v: usize)
        requires
            self.wf(),
            self.real <= v < self.mails@.len(),
        ensures
            is_root(graph_edges(self.graph), v),
            rooted(graph_edges(self.graph), self.mails@.len() as nat, v),
    {
        let edges = graph_edges(self.graph);
        assert forall|a: usize| !edges.contains((a, v)) by {
            if edges.contains((a, v)) {
                let k = choose|k: int| 0 <= k < edges.len() && edges[k] == (a, v);
                assert(edges[k].1 < self.real);
            }
        }
        lemma_reaches_self(edges, v);
    }
}

} // verus!
