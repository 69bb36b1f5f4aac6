//! A graph of agent-keyed edges over a double-buffered adjacency map.
//!
//! Nodes are `u64` ids; each node maps to the ordered list of its edges.
//! In an undirected network each edge is materialized in both endpoints'
//! lists. Edge identity for replacement and removal is the unordered pair
//! of endpoints (the ordered pair when the network is directed).

use rand::seq::SliceRandom;
use vstd::prelude::*;

use crate::dbm::DoubleBufferedMap;

verus! {

/// How an edge is decorated: a label of type `L`, a fixed-point weight,
/// both, or neither.
#[derive(Clone, Copy, Debug)]
pub enum EdgeOptions<L> {
    Simple,
    Labeled(L),
    Weighted(i64),
    WeightedLabeled(L, i64),
}

/// An adjacency entry from `u` to `v`.
#[derive(Clone, Copy, Debug)]
pub struct Edge<L> {
    pub u: u64,
    pub v: u64,
    pub label: Option<L>,
    pub weight: Option<i64>,
}

/// The edge `new` builds from a pair of endpoints and options.
pub open spec fn spec_edge<L>(u: u64, v: u64, o: EdgeOptions<L>) -> Edge<L> {
    match o {
        EdgeOptions::Simple => Edge { u, v, label: None, weight: None },
        EdgeOptions::Labeled(l) => Edge { u, v, label: Some(l), weight: None },
        EdgeOptions::Weighted(w) => Edge { u, v, label: None, weight: Some(w) },
        EdgeOptions::WeightedLabeled(l, w) => Edge { u, v, label: Some(l), weight: Some(w) },
    }
}

/// Whether `e` joins the unordered pair `{u, v}`.
pub open spec fn matches_pair<L>(e: Edge<L>, u: u64, v: u64) -> bool {
    (e.u == u && e.v == v) || (e.u == v && e.v == u)
}

impl<L: Copy> Edge<L> {
    pub fn new(u_node: u64, v_node: u64, edge_options: EdgeOptions<L>) -> (e: Edge<L>)
        ensures
            e == spec_edge(u_node, v_node, edge_options),
    {
        match edge_options {
            EdgeOptions::Simple => Edge { u: u_node, v: v_node, label: None, weight: None },
            EdgeOptions::Labeled(l) => Edge {
                u: u_node,
                v: v_node,
                label: Some(l),
                weight: None,
            },
            EdgeOptions::Weighted(w) => Edge {
                u: u_node,
                v: v_node,
                label: None,
                weight: Some(w),
            },
            EdgeOptions::WeightedLabeled(l, w) => Edge {
                u: u_node,
                v: v_node,
                label: Some(l),
                weight: Some(w),
            },
        }
    }
}

/// A copy of `v` with `e` appended.
fn evec_push<L: Copy>(v: &Vec<Edge<L>>, e: Edge<L>) -> (r: Vec<Edge<L>>)
    ensures
        r@ == v@.push(e),
{
    let n = v.len();
    let mut r: Vec<Edge<L>> = Vec::new();
    let mut i: usize = 0;
    while i < n
        invariant
            n == v@.len(),
            i <= n,
            r@ == v@.take(i as int),
        decreases n - i,
    {
        r.push(v[i]);
        proof {
            assert(r@ =~= v@.take(i + 1));
        }
        i += 1;
    }
    r.push(e);
    proof {
        assert(v@.take(n as int) =~= v@);
    }
    r
}

/// A copy of `v` without the edges joining `{a, b}`.
fn evec_filter_pair<L: Copy>(v: &Vec<Edge<L>>, a: u64, b: u64) -> (r: Vec<Edge<L>>)
    ensures
        r@ == v@.filter(|e: Edge<L>| !matches_pair(e, a, b)),
{
    let ghost pred = |e: Edge<L>| !matches_pair(e, a, b);
    let n = v.len();
    let mut r: Vec<Edge<L>> = Vec::new();
    let mut i: usize = 0;
    while i < n
        invariant
            n == v@.len(),
            i <= n,
            pred == (|e: Edge<L>| !matches_pair(e, a, b)),
            r@ == v@.take(i as int).filter(pred),
        decreases n - i,
    {
        let e = v[i];
        if !((e.u == a && e.v == b) || (e.u == b && e.v == a)) {
            r.push(e);
        }
        proof {
            assert(v@.take(i + 1) =~= v@.take(i as int).push(v@[i as int]));
            Seq::lemma_filter_push(v@.take(i as int), v@[i as int], pred);
        }
        i += 1;
    }
    proof {
        assert(v@.take(n as int) =~= v@);
    }
    r
}

/// The index of the first edge in `v` joining `{a, b}`.
fn evec_find_pair<L: Copy>(v: &Vec<Edge<L>>, a: u64, b: u64) -> (r: Option<usize>)
    ensures
        match r {
            Some(i) => i < v@.len() && matches_pair(v@[i as int], a, b) && forall|j: int|
                0 <= j < i ==> !matches_pair(#[trigger] v@[j], a, b),
            None => forall|j: int| 0 <= j < v@.len() ==> !matches_pair(#[trigger] v@[j], a, b),
        },
{
    let n = v.len();
    let mut i: usize = 0;
    while i < n
        invariant
            n == v@.len(),
            i <= n,
            forall|j: int| 0 <= j < i ==> !matches_pair(#[trigger] v@[j], a, b),
        decreases n - i,
    {
        let e = v[i];
        if (e.u == a && e.v == b) || (e.u == b && e.v == a) {
            return Some(i);
        }
        i += 1;
    }
    None
}

/// A copy of `v` without the entry at `i`.
fn evec_remove_at<L: Copy>(v: &Vec<Edge<L>>, i: usize) -> (r: Vec<Edge<L>>)
    requires
        i < v@.len(),
    ensures
        r@ == v@.remove(i as int),
{
    let n = v.len();
    let mut r: Vec<Edge<L>> = Vec::new();
    let mut j: usize = 0;
    while j < n
        invariant
            n == v@.len(),
            i < n,
            j <= n,
            r@ == if j <= i {
                v@.take(j as int)
            } else {
                v@.remove(i as int).take(j - 1)
            },
        decreases n - j,
    {
        if j != i {
            r.push(v[j]);
        }
        proof {
            if j < i {
                assert(r@ =~= v@.take(j + 1));
            } else if j == i {
                assert(v@.take(j as int) =~= v@.remove(i as int).take(j as int));
            } else {
                assert(v@.remove(i as int)[j - 1] == v@[j as int]);
                assert(r@ =~= v@.remove(i as int).take(j as int));
            }
        }
        j += 1;
    }
    proof {
        assert(v@.remove(i as int).take(n - 1) =~= v@.remove(i as int));
    }
    r
}

/// `after` is `before` with the first edge joining `{a, b}` taken out.
pub open spec fn first_match_removed<L>(
    before: Seq<Edge<L>>,
    after: Seq<Edge<L>>,
    a: u64,
    b: u64,
) -> bool {
    exists|i: int|
        0 <= i < before.len() && matches_pair(#[trigger] before[i], a, b) && (forall|j: int|
            0 <= j < i ==> !matches_pair(#[trigger] before[j], a, b)) && after == before.remove(i)
}

/// Whether `s` holds an edge joining `{a, b}`.
pub open spec fn has_pair_match<L>(s: Seq<Edge<L>>, a: u64, b: u64) -> bool {
    exists|j: int| 0 <= j < s.len() && matches_pair(#[trigger] s[j], a, b)
}

/// `e` is the first edge of `s` joining `{a, b}`.
pub open spec fn is_first_pair_match<L>(s: Seq<Edge<L>>, e: Edge<L>, a: u64, b: u64) -> bool {
    exists|i: int|
        0 <= i < s.len() && (#[trigger] s[i]) == e && matches_pair(e, a, b) && (forall|j: int|
            0 <= j < i ==> !matches_pair(#[trigger] s[j], a, b))
}

/// Keep an edge unless it joins `u` with one of the nodes in `ks`.
pub open spec fn keeps_pairs_with<L>(ks: Seq<u64>, u: u64) -> spec_fn(Edge<L>) -> bool {
    |e: Edge<L>| !(exists|j: int| 0 <= j < ks.len() && matches_pair(e, #[trigger] ks[j], u))
}

/// A filter that keeps every element returns the sequence unchanged.
proof fn lemma_filter_all_true<T>(s: Seq<T>, p: spec_fn(T) -> bool)
    requires
        forall|i: int| 0 <= i < s.len() ==> #[trigger] p(s[i]),
    ensures
        s.filter(p) == s,
    decreases s.len(),
{
    if s.len() == 0 {
        s.lemma_filter_len(p);
        assert(s.filter(p) =~= s);
    } else {
        let s0 = s.drop_last();
        let x = s.last();
        lemma_filter_all_true(s0, p);
        assert(s =~= s0.push(x));
        Seq::lemma_filter_push(s0, x, p);
    }
}

/// Filtering twice is filtering once by the conjunction.
proof fn lemma_filter_filter<T>(
    s: Seq<T>,
    p: spec_fn(T) -> bool,
    q: spec_fn(T) -> bool,
    r: spec_fn(T) -> bool,
)
    requires
        forall|e: T| #[trigger] r(e) == (p(e) && q(e)),
    ensures
        s.filter(p).filter(q) == s.filter(r),
    decreases s.len(),
{
    if s.len() == 0 {
        s.lemma_filter_len(p);
        s.lemma_filter_len(r);
        assert(s.filter(p) =~= Seq::<T>::empty());
        assert(s.filter(r) =~= Seq::<T>::empty());
        s.filter(p).lemma_filter_len(q);
        assert(s.filter(p).filter(q) =~= Seq::<T>::empty());
    } else {
        let s0 = s.drop_last();
        let x = s.last();
        lemma_filter_filter(s0, p, q, r);
        assert(s =~= s0.push(x));
        Seq::lemma_filter_push(s0, x, p);
        Seq::lemma_filter_push(s0, x, r);
        if p(x) {
            Seq::lemma_filter_push(s0.filter(p), x, q);
        }
    }
}

/// What one sweep of `remove_edges` did, witnessed by `ks`: the nodes a
/// match was removed from, in sweep order. The removed edges are the first
/// matches of those nodes, and (undirected) `u`'s own staged list is its
/// old list with every removed pair filtered out.
pub open spec fn remove_edges_effect<L: Copy>(
    pre: Network<L>,
    post: Network<L>,
    u: u64,
    removed: Seq<Edge<L>>,
    ks: Seq<u64>,
) -> bool {
    &&& ks.no_duplicates()
    &&& (forall|k: u64|
        #![trigger ks.contains(k)]
        ks.contains(k) <==> (k != u && pre.w_adj().contains_key(k) && has_pair_match(
            pre.w_adj()[k]@,
            k,
            u,
        )))
    &&& removed.len() == ks.len()
    &&& (forall|j: int|
        0 <= j < ks.len() ==> is_first_pair_match(
            pre.w_adj()[#[trigger] ks[j]]@,
            removed[j],
            ks[j],
            u,
        ))
    &&& (!pre.direct && pre.w_adj().contains_key(u) ==> post.w_adj()[u]@
        == pre.w_adj()[u]@.filter(keeps_pairs_with(ks, u)))
    &&& (pre.direct && pre.w_adj().contains_key(u) ==> post.w_adj()[u] == pre.w_adj()[u])
}

/// The adjacency list of `u` in `m`, or the empty list.
pub open spec fn adj_or_empty<L>(m: Map<u64, Vec<Edge<L>>>, u: u64) -> Seq<Edge<L>> {
    if m.contains_key(u) {
        m[u]@
    } else {
        Seq::empty()
    }
}

/// What one preferential-attachment call did, witnessed by the sampled
/// node sequence: each sampled node exists and (undirected) gained exactly
/// the reverse entry, unsampled nodes stand, and `u`'s list keeps its
/// prefix and grew only by simple edges to sampled nodes.
pub open spec fn prob_edge_effect<L: Copy>(
    pre: Network<L>,
    post: Network<L>,
    u: u64,
    n_sample: int,
    chosen: Seq<u64>,
) -> bool {
    &&& chosen.no_duplicates()
    &&& (forall|k: u64| #[trigger]
        post.w_adj().contains_key(k) <==> (pre.w_adj().contains_key(k) || (k == u
            && chosen.len() > 0)))
    &&& (forall|i: int| 0 <= i < chosen.len() ==> pre.w_adj().contains_key(#[trigger] chosen[i]))
    &&& chosen.len() == (if n_sample <= pre.w_adj().dom().len() {
        n_sample
    } else {
        pre.w_adj().dom().len() as int
    })
    &&& (forall|k: u64|
        k != u && #[trigger] pre.w_adj().contains_key(k) && !chosen.contains(k)
            ==> post.w_adj()[k] == pre.w_adj()[k])
    &&& (!pre.direct ==> forall|k: u64|
        k != u && pre.w_adj().contains_key(k) && #[trigger] chosen.contains(k)
            ==> post.w_adj()[k]@ == pre.w_adj()[k]@.push(spec_edge(k, u, EdgeOptions::Simple)))
    &&& (pre.direct ==> forall|k: u64|
        k != u && #[trigger] pre.w_adj().contains_key(k) ==> post.w_adj()[k] == pre.w_adj()[k])
    &&& adj_or_empty(post.w_adj(), u).len() >= adj_or_empty(pre.w_adj(), u).len()
    &&& (forall|i: int|
        0 <= i < adj_or_empty(pre.w_adj(), u).len() ==> #[trigger] adj_or_empty(
            post.w_adj(),
            u,
        )[i] == adj_or_empty(pre.w_adj(), u)[i])
    &&& (forall|i: int|
        adj_or_empty(pre.w_adj(), u).len() <= i < adj_or_empty(post.w_adj(), u).len() ==> ((
        #[trigger] adj_or_empty(post.w_adj(), u)[i]).u == u && chosen.contains(
            adj_or_empty(post.w_adj(), u)[i].v,
        ) && adj_or_empty(post.w_adj(), u)[i].label is None && adj_or_empty(
            post.w_adj(),
            u,
        )[i].weight is None) || (!pre.direct && adj_or_empty(post.w_adj(), u)[i].v == u
            && chosen.contains(adj_or_empty(post.w_adj(), u)[i].u)))
}

/// The directed or undirected graph.
pub struct Network<L> {
    pub edges: DoubleBufferedMap<Vec<Edge<L>>>,
    pub direct: bool,
}

impl<L: Copy> Network<L> {
    /// The published adjacency: what readers of the current tick see.
    pub open spec fn r_adj(self) -> Map<u64, Vec<Edge<L>>> {
        self.edges.read_view()
    }

    /// The staged adjacency: what the next `update` will publish.
    pub open spec fn w_adj(self) -> Map<u64, Vec<Edge<L>>> {
        self.edges.write_view()
    }

    pub open spec fn wf(self) -> bool {
        self.edges.wf()
    }

    pub fn new(d: bool) -> (n: Network<L>)
        ensures
            n.wf(),
            n.direct == d,
            n.r_adj() == Map::<u64, Vec<Edge<L>>>::empty(),
            n.w_adj() == Map::<u64, Vec<Edge<L>>>::empty(),
    {
        Network { edges: DoubleBufferedMap::new(), direct: d }
    }

    /// Stage `u` as a node with no edges, replacing any staged list.
    pub fn add_node(&mut self, u: &u64)
        requires
            old(self).wf(),
        ensures
            final(self).wf(),
            final(self).direct == old(self).direct,
            final(self).r_adj() == old(self).r_adj(),
            final(self).w_adj().contains_key(*u),
            final(self).w_adj()[*u]@ == Seq::<Edge<L>>::empty(),
            forall|k: u64|
                k != *u ==> (#[trigger] final(self).w_adj().contains_key(k) == old(self).w_adj().contains_key(k) && (old(self).w_adj().contains_key(k) ==> final(self).w_adj()[k] == old(self).w_adj()[k])),
    {
        let v: Vec<Edge<L>> = Vec::new();
        self.edges.insert(*u, v);
    }

    /// Stage an edge from `u` to `v`; in an undirected network the reversed
    /// entry goes to `v`'s list too. Absent endpoints get fresh lists.
    pub fn add_edge(&mut self, u: &u64, v: &u64, edge_options: EdgeOptions<L>) -> (r: Option<
        Edge<L>,
    >)
        requires
            old(self).wf(),
        ensures
            final(self).wf(),
            final(self).direct == old(self).direct,
            final(self).r_adj() == old(self).r_adj(),
            r == Some(spec_edge(*u, *v, edge_options)),
            final(self).w_adj().contains_key(*u),
            !old(self).direct ==> final(self).w_adj().contains_key(*v),
            old(self).direct ==> final(self).w_adj()[*u]@ == adj_or_empty(
                old(self).w_adj(),
                *u,
            ).push(spec_edge(*u, *v, edge_options)),
            !old(self).direct && *u != *v ==> final(self).w_adj()[*u]@ == adj_or_empty(
                old(self).w_adj(),
                *u,
            ).push(spec_edge(*u, *v, edge_options)) && final(self).w_adj()[*v]@ == adj_or_empty(
                old(self).w_adj(),
                *v,
            ).push(spec_edge(*v, *u, edge_options)),
            !old(self).direct && *u == *v ==> final(self).w_adj()[*u]@ == adj_or_empty(
                old(self).w_adj(),
                *u,
            ).push(spec_edge(*u, *v, edge_options)).push(spec_edge(*v, *u, edge_options)),
            forall|k: u64|
                k != *u && k != *v ==> (#[trigger] final(self).w_adj().contains_key(k) == old(self).w_adj().contains_key(k) && (old(self).w_adj().contains_key(k) ==> final(self).w_adj()[k] == old(self).w_adj()[k])),
            old(self).direct ==> forall|k: u64|
                k != *u ==> (#[trigger] final(self).w_adj().contains_key(k) == old(self).w_adj().contains_key(k) && (old(self).w_adj().contains_key(k) ==> final(self).w_adj()[k] == old(self).w_adj()[k])),
    {
        let e = Edge::new(*u, *v, edge_options);
        let ulist = match self.edges.get_write(*u) {
            Some(b) => evec_push(b, e),
            None => {
                let mut w: Vec<Edge<L>> = Vec::new();
                w.push(e);
                proof {
                    assert(w@ =~= Seq::<Edge<L>>::empty().push(e));
                }
                w
            },
        };
        self.edges.insert(*u, ulist);
        if !self.direct {
            let erev = Edge::new(*v, *u, edge_options);
            let vlist = match self.edges.get_write(*v) {
                Some(b) => evec_push(b, erev),
                None => {
                    let mut w: Vec<Edge<L>> = Vec::new();
                    w.push(erev);
                    proof {
                        assert(w@ =~= Seq::<Edge<L>>::empty().push(erev));
                    }
                    w
                },
            };
            self.edges.insert(*v, vlist);
        }
        Some(e)
    }

    /// The published adjacency list of `u`.
    pub fn get_edges(&self, u: &u64) -> (r: Option<&Vec<Edge<L>>>)
        requires
            self.wf(),
        ensures
            match r {
                Some(b) => self.r_adj().contains_key(*u) && *b == self.r_adj()[*u],
                None => !self.r_adj().contains_key(*u),
            },
    {
        self.edges.get(*u)
    }

    /// The published nodes, each once.
    pub fn get_nodes(&self) -> (r: Vec<u64>)
        requires
            self.wf(),
        ensures
            r@.no_duplicates(),
            forall|j: int| 0 <= j < r@.len() ==> self.r_adj().contains_key(#[trigger] r@[j]),
            forall|k: u64| #[trigger] self.r_adj().contains_key(k) ==> r@.contains(k),
    {
        self.edges.keys()
    }

    /// The first published edge joining `u` and `v`: the ordered pair when
    /// directed, the unordered pair otherwise.
    pub fn get_edge(&self, u: &u64, v: &u64) -> (r: Option<Edge<L>>)
        requires
            self.wf(),
        ensures
            match r {
                Some(e) => self.r_adj().contains_key(*u) && exists|i: int|
                    0 <= i < self.r_adj()[*u]@.len() && #[trigger] self.r_adj()[*u]@[i] == e && (
                    if self.direct {
                        e.u == *u && e.v == *v
                    } else {
                        matches_pair(e, *u, *v)
                    }) && (forall|j: int|
                        0 <= j < i ==> (if self.direct {
                            !((#[trigger] self.r_adj()[*u]@[j]).u == *u && self.r_adj()[*u]@[j].v
                                == *v)
                        } else {
                            !matches_pair(self.r_adj()[*u]@[j], *u, *v)
                        })),
                None => !self.r_adj().contains_key(*u) || forall|i: int|
                    0 <= i < self.r_adj()[*u]@.len() ==> (if self.direct {
                        !((#[trigger] self.r_adj()[*u]@[i]).u == *u && self.r_adj()[*u]@[i].v
                            == *v)
                    } else {
                        !matches_pair(self.r_adj()[*u]@[i], *u, *v)
                    }),
            },
    {
        match self.edges.get(*u) {
            Some(uedges) => {
                let n = uedges.len();
                let mut i: usize = 0;
                while i < n
                    invariant
                        self.wf(),
                        self.r_adj().contains_key(*u),
                        uedges == self.r_adj()[*u],
                        n == uedges@.len(),
                        i <= n,
                        forall|j: int|
                            0 <= j < i ==> (if self.direct {
                                !((#[trigger] uedges@[j]).u == *u && uedges@[j].v == *v)
                            } else {
                                !matches_pair(uedges@[j], *u, *v)
                            }),
                    decreases n - i,
                {
                    let e = uedges[i];
                    if self.direct && e.u == *u && e.v == *v {
                        return Some(e);
                    } else if !self.direct && ((e.u == *u && e.v == *v) || (e.v == *u && e.u
                        == *v)) {
                        return Some(e);
                    }
                    i += 1;
                }
                None
            },
            None => None,
        }
    }

    /// Replace the staged edge with identity `{u, v}`: matching entries
    /// leave both lists and the fresh edge is appended, to `u`'s list and,
    /// undirected, to `v`'s as well. Nothing is staged for an absent
    /// endpoint.
    pub fn update_edge(&mut self, u: &u64, v: &u64, edge_options: EdgeOptions<L>) -> (r: Option<
        Edge<L>,
    >)
        requires
            old(self).wf(),
        ensures
            final(self).wf(),
            final(self).direct == old(self).direct,
            final(self).r_adj() == old(self).r_adj(),
            old(self).w_adj().contains_key(*u) ==> r == Some(spec_edge(*u, *v, edge_options)),
            !old(self).w_adj().contains_key(*u) ==> r == Option::<Edge<L>>::None,
            forall|k: u64| #[trigger]
                final(self).w_adj().contains_key(k) == old(self).w_adj().contains_key(k),
            old(self).w_adj().contains_key(*u) && (old(self).direct || *u == *v) ==> final(self).w_adj()[*u]@ == adj_or_empty(old(self).w_adj(), *u).filter(
                |e: Edge<L>| !matches_pair(e, *u, *v),
            ).push(spec_edge(*u, *v, edge_options)),
            !old(self).direct && *u != *v && old(self).w_adj().contains_key(*u) ==> final(self).w_adj()[*u]@ == adj_or_empty(old(self).w_adj(), *u).filter(
                |e: Edge<L>| !matches_pair(e, *u, *v),
            ).push(spec_edge(*u, *v, edge_options)),
            !old(self).direct && *u != *v && old(self).w_adj().contains_key(*v) ==> final(self).w_adj()[*v]@ == adj_or_empty(old(self).w_adj(), *v).filter(
                |e: Edge<L>| !matches_pair(e, *u, *v),
            ).push(spec_edge(*u, *v, edge_options)),
            forall|k: u64|
                k != *u && k != *v && old(self).w_adj().contains_key(k) ==> final(self).w_adj()[k] == old(self).w_adj()[k],
            old(self).direct ==> forall|k: u64|
                k != *u && old(self).w_adj().contains_key(k) ==> final(self).w_adj()[k] == old(self).w_adj()[k],
    {
        let e = Edge::new(*u, *v, edge_options);
        let ris = match self.edges.get_write(*u) {
            Some(b) => {
                let f = evec_filter_pair(b, *u, *v);
                let f2 = evec_push(&f, e);
                self.edges.insert(*u, f2);
                Some(e)
            },
            None => None,
        };
        if !self.direct && *u != *v {
            match self.edges.get_write(*v) {
                Some(b) => {
                    let f = evec_filter_pair(b, *u, *v);
                    let f2 = evec_push(&f, e);
                    self.edges.insert(*v, f2);
                },
                None => {},
            }
        }
        ris
    }

    /// Drop the first staged edge of `u` joining `{u, v}`; undirected, the
    /// matching entries leave `v`'s staged list too.
    pub fn remove_edge(&mut self, u: &u64, v: &u64) -> (r: Option<Edge<L>>)
        requires
            old(self).wf(),
        ensures
            final(self).wf(),
            final(self).direct == old(self).direct,
            final(self).r_adj() == old(self).r_adj(),
            forall|k: u64| #[trigger]
                final(self).w_adj().contains_key(k) == old(self).w_adj().contains_key(k),
            r matches Some(e) ==> old(self).w_adj().contains_key(*u) && is_first_pair_match(
                adj_or_empty(old(self).w_adj(), *u),
                e,
                *u,
                *v,
            ),
            r is None ==> final(self).w_adj() == old(self).w_adj() && (forall|j: int|
                0 <= j < adj_or_empty(old(self).w_adj(), *u).len() ==> !matches_pair(
                    #[trigger] adj_or_empty(old(self).w_adj(), *u)[j],
                    *u,
                    *v,
                )),
            r is Some && (old(self).direct || *u == *v) ==> first_match_removed(
                adj_or_empty(old(self).w_adj(), *u),
                final(self).w_adj()[*u]@,
                *u,
                *v,
            ),
            r is Some && !old(self).direct && *u != *v ==> first_match_removed(
                adj_or_empty(old(self).w_adj(), *u),
                final(self).w_adj()[*u]@,
                *u,
                *v,
            ) && (old(self).w_adj().contains_key(*v) ==> final(self).w_adj()[*v]@ == adj_or_empty(
                old(self).w_adj(),
                *v,
            ).filter(|ee: Edge<L>| !matches_pair(ee, *u, *v))),
            forall|k: u64|
                k != *u && k != *v && old(self).w_adj().contains_key(k) ==> final(self).w_adj()[k] == old(self).w_adj()[k],
            old(self).direct ==> forall|k: u64|
                k != *u && old(self).w_adj().contains_key(k) ==> final(self).w_adj()[k] == old(self).w_adj()[k],
    {
        let found = match self.edges.get_write(*u) {
            Some(b) => {
                match evec_find_pair(b, *u, *v) {
                    Some(i) => {
                        let e = b[i];
                        let nb = evec_remove_at(b, i);
                        Some((e, nb, i))
                    },
                    None => None,
                }
            },
            None => None,
        };
        match found {
            Some(pair) => {
                let e = pair.0;
                let ghost fi = pair.2 as int;
                proof {
                    let before = adj_or_empty(old(self).w_adj(), *u);
                    assert(before[fi] == e);
                    assert(before.contains(e));
                }
                self.edges.insert(*u, pair.1);
                proof {
                    let before = adj_or_empty(old(self).w_adj(), *u);
                    assert(matches_pair(before[fi], *u, *v));
                    assert(self.w_adj()[*u]@ == before.remove(fi));
                    assert(first_match_removed(before, self.w_adj()[*u]@, *u, *v));
                }
                if !self.direct && *u != *v {
                    match self.edges.get_write(*v) {
                        Some(vb) => {
                            let f = evec_filter_pair(vb, *u, *v);
                            self.edges.insert(*v, f);
                        },
                        None => {},
                    }
                }
                Some(e)
            },
            None => None,
        }
    }

    /// For every other staged node, drop its first staged edge joining it
    /// to `u` (undirected, each removal also clears the matching entries of
    /// `u`'s own list), handing back the removed edges.
    pub fn remove_edges(&mut self, u: &u64) -> (r: Option<Vec<Edge<L>>>)
        requires
            old(self).wf(),
        ensures
            final(self).wf(),
            final(self).direct == old(self).direct,
            final(self).r_adj() == old(self).r_adj(),
            forall|k: u64| #[trigger]
                final(self).w_adj().contains_key(k) == old(self).w_adj().contains_key(k),
            r is Some,
            forall|k: u64|
                k != *u && #[trigger] old(self).w_adj().contains_key(k) && has_pair_match(
                    old(self).w_adj()[k]@,
                    k,
                    *u,
                ) ==> first_match_removed(old(self).w_adj()[k]@, final(self).w_adj()[k]@, k, *u),
            forall|k: u64|
                k != *u && #[trigger] old(self).w_adj().contains_key(k) && !has_pair_match(
                    old(self).w_adj()[k]@,
                    k,
                    *u,
                ) ==> final(self).w_adj()[k] == old(self).w_adj()[k],
            exists|ks: Seq<u64>| #[trigger] remove_edges_effect(
                *old(self),
                *final(self),
                *u,
                r.unwrap()@,
                ks,
            ),
    {
        let nodes = self.edges.w_keys();
        let ghost base = *self;
        let mut ris: Vec<Edge<L>> = Vec::new();
        let ghost mut ks: Seq<u64> = Seq::empty();
        let n = nodes.len();
        let mut i: usize = 0;
        proof {
            if !base.direct && base.w_adj().contains_key(*u) {
                let ghost p0 = keeps_pairs_with::<L>(ks, *u);
                assert forall|j: int|
                    0 <= j < base.w_adj()[*u]@.len() implies #[trigger] p0(
                    base.w_adj()[*u]@[j],
                ) by {}
                lemma_filter_all_true(base.w_adj()[*u]@, p0);
            }
        }
        while i < n
            invariant
                self.wf(),
                self.direct == base.direct,
                self.r_adj() == base.r_adj(),
                n == nodes@.len(),
                i <= n,
                nodes@.no_duplicates(),
                forall|j: int|
                    0 <= j < nodes@.len() ==> base.w_adj().contains_key(#[trigger] nodes@[j]),
                forall|k: u64| #[trigger]
                    base.w_adj().contains_key(k) ==> nodes@.contains(k),
                forall|k: u64| #[trigger]
                    self.w_adj().contains_key(k) == base.w_adj().contains_key(k),
                forall|k: u64|
                    k != *u && #[trigger] base.w_adj().contains_key(k) && nodes@.take(
                        i as int,
                    ).contains(k) && has_pair_match(base.w_adj()[k]@, k, *u)
                        ==> first_match_removed(base.w_adj()[k]@, self.w_adj()[k]@, k, *u),
                forall|k: u64|
                    k != *u && #[trigger] base.w_adj().contains_key(k) && nodes@.take(
                        i as int,
                    ).contains(k) && !has_pair_match(base.w_adj()[k]@, k, *u) ==> self.w_adj()[k]
                        == base.w_adj()[k],
                forall|j: int|
                    i <= j < n && nodes@[j] != *u ==> self.w_adj()[#[trigger] nodes@[j]]
                        == base.w_adj()[nodes@[j]],
                ks.no_duplicates(),
                forall|k: u64|
                    #![trigger ks.contains(k)]
                    ks.contains(k) <==> (k != *u && base.w_adj().contains_key(k) && nodes@.take(
                        i as int,
                    ).contains(k) && has_pair_match(base.w_adj()[k]@, k, *u)),
                ris@.len() == ks.len(),
                forall|j: int|
                    0 <= j < ks.len() ==> is_first_pair_match(
                        base.w_adj()[#[trigger] ks[j]]@,
                        ris@[j],
                        ks[j],
                        *u,
                    ),
                !base.direct && base.w_adj().contains_key(*u) ==> self.w_adj()[*u]@
                    == base.w_adj()[*u]@.filter(keeps_pairs_with(ks, *u)),
                base.direct && base.w_adj().contains_key(*u) ==> self.w_adj()[*u]
                    == base.w_adj()[*u],
            decreases n - i,
        {
            broadcast use vstd::seq_lib::lemma_seq_contains_after_push;

            let v = nodes[i];
            proof {
                assert(nodes@.take(i + 1) =~= nodes@.take(i as int).push(v));
                if nodes@.take(i as int).contains(v) {
                    let j = choose|j: int| 0 <= j < i && nodes@.take(i as int)[j] == v;
                    assert(nodes@[j] == v && nodes@[i as int] == v);
                    assert(false);
                }
            }
            if v != *u {
                let ghost pre = *self;
                let removed = self.remove_edge(&v, u);
                proof {
                    assert(pre.w_adj()[v] == base.w_adj()[v]);
                    match removed {
                        Some(e) => {
                            assert(has_pair_match(base.w_adj()[v]@, v, *u)) by {
                                let fi = choose|fi: int|
                                    0 <= fi < base.w_adj()[v]@.len() && (#[trigger] base.w_adj()[v]@[fi])
                                        == e && matches_pair(e, v, *u) && (forall|j: int|
                                        0 <= j < fi ==> !matches_pair(
                                            #[trigger] base.w_adj()[v]@[j],
                                            v,
                                            *u,
                                        ));
                            }
                        },
                        None => {
                            assert(!has_pair_match(base.w_adj()[v]@, v, *u)) by {
                                if has_pair_match(base.w_adj()[v]@, v, *u) {
                                    let j = choose|j: int|
                                        0 <= j < base.w_adj()[v]@.len() && matches_pair(
                                            #[trigger] base.w_adj()[v]@[j],
                                            v,
                                            *u,
                                        );
                                    assert(adj_or_empty(pre.w_adj(), v) == base.w_adj()[v]@);
                                    assert(!matches_pair(
                                        adj_or_empty(pre.w_adj(), v)[j],
                                        v,
                                        *u,
                                    ));
                                    assert(false);
                                }
                            }
                        },
                    }
                    assert forall|k: u64|
                        k != *u && #[trigger] base.w_adj().contains_key(k) && nodes@.take(
                            i + 1,
                        ).contains(k) && has_pair_match(base.w_adj()[k]@, k, *u) implies
                        first_match_removed(base.w_adj()[k]@, self.w_adj()[k]@, k, *u) by {
                        if k == v {
                            assert(removed is Some);
                        } else {
                            assert(nodes@.take(i as int).contains(k));
                            assert(self.w_adj()[k] == pre.w_adj()[k]);
                        }
                    }
                    assert forall|k: u64|
                        k != *u && #[trigger] base.w_adj().contains_key(k) && nodes@.take(
                            i + 1,
                        ).contains(k) && !has_pair_match(base.w_adj()[k]@, k, *u) implies
                        self.w_adj()[k] == base.w_adj()[k] by {
                        if k == v {
                            assert(removed is None);
                            assert(self.w_adj() == pre.w_adj());
                        } else {
                            assert(nodes@.take(i as int).contains(k));
                            assert(self.w_adj()[k] == pre.w_adj()[k]);
                        }
                    }
                }
                match removed {
                    Some(e) => {
                        proof {
                            let ghost pks = ks;
                            ks = ks.push(v);
                            assert(!pks.contains(v));
                            assert forall|k: u64|
                                #![trigger ks.contains(k)]
                                ks.contains(k) <==> (k != *u && base.w_adj().contains_key(k)
                                    && nodes@.take(i + 1).contains(k) && has_pair_match(
                                    base.w_adj()[k]@,
                                    k,
                                    *u,
                                )) by {}
                            if !base.direct && base.w_adj().contains_key(*u) {
                                assert(pre.w_adj().contains_key(*u));
                                assert(self.w_adj()[*u]@ == pre.w_adj()[*u]@.filter(
                                    |ee: Edge<L>| !matches_pair(ee, v, *u),
                                ));
                                assert forall|ee: Edge<L>| #[trigger] keeps_pairs_with::<L>(
                                    ks,
                                    *u,
                                )(ee) == (keeps_pairs_with::<L>(pks, *u)(ee) && !matches_pair(
                                    ee,
                                    v,
                                    *u,
                                )) by {
                                    if keeps_pairs_with::<L>(pks, *u)(ee) && !matches_pair(
                                        ee,
                                        v,
                                        *u,
                                    ) {
                                        if !keeps_pairs_with::<L>(ks, *u)(ee) {
                                            let j = choose|j: int|
                                                0 <= j < ks.len() && matches_pair(
                                                    ee,
                                                    #[trigger] ks[j],
                                                    *u,
                                                );
                                            if j < pks.len() {
                                                assert(matches_pair(ee, pks[j], *u));
                                            }
                                            assert(false);
                                        }
                                    }
                                    if keeps_pairs_with::<L>(ks, *u)(ee) {
                                        if !keeps_pairs_with::<L>(pks, *u)(ee) {
                                            let j = choose|j: int|
                                                0 <= j < pks.len() && matches_pair(
                                                    ee,
                                                    #[trigger] pks[j],
                                                    *u,
                                                );
                                            assert(matches_pair(ee, ks[j], *u));
                                            assert(false);
                                        }
                                        if matches_pair(ee, v, *u) {
                                            assert(matches_pair(ee, ks[ks.len() - 1], *u));
                                            assert(false);
                                        }
                                    }
                                }
                                lemma_filter_filter(
                                    base.w_adj()[*u]@,
                                    keeps_pairs_with(pks, *u),
                                    |ee: Edge<L>| !matches_pair(ee, v, *u),
                                    keeps_pairs_with(ks, *u),
                                );
                            }
                        }
                        ris.push(e);
                    },
                    None => {
                        proof {
                            assert(self.w_adj() == pre.w_adj());
                            assert forall|k: u64|
                                #![trigger ks.contains(k)]
                                ks.contains(k) <==> (k != *u && base.w_adj().contains_key(k)
                                    && nodes@.take(i + 1).contains(k) && has_pair_match(
                                    base.w_adj()[k]@,
                                    k,
                                    *u,
                                )) by {}
                        }
                    },
                }
            } else {
                proof {
                    assert forall|k: u64|
                        #![trigger ks.contains(k)]
                        ks.contains(k) <==> (k != *u && base.w_adj().contains_key(k)
                            && nodes@.take(i + 1).contains(k) && has_pair_match(
                            base.w_adj()[k]@,
                            k,
                            *u,
                        )) by {}
                }
            }
            i += 1;
        }
        proof {
            assert(nodes@.take(n as int) =~= nodes@);
            assert(base == *old(self));
        }
        let result = Some(ris);
        proof {
            assert(remove_edges_effect(*old(self), *self, *u, result.unwrap()@, ks));
        }
        result
    }

    /// Drop `u` from the staged nodes after clearing the staged edges
    /// joining it.
    pub fn remove_node(&mut self, u: &u64) -> (r: bool)
        requires
            old(self).wf(),
        ensures
            final(self).wf(),
            final(self).direct == old(self).direct,
            final(self).r_adj() == old(self).r_adj(),
            r == true,
            !final(self).w_adj().contains_key(*u),
            forall|k: u64|
                k != *u ==> #[trigger] final(self).w_adj().contains_key(k) == old(self).w_adj().contains_key(k),
            forall|k: u64|
                k != *u && #[trigger] old(self).w_adj().contains_key(k) && has_pair_match(
                    old(self).w_adj()[k]@,
                    k,
                    *u,
                ) ==> first_match_removed(old(self).w_adj()[k]@, final(self).w_adj()[k]@, k, *u),
            forall|k: u64|
                k != *u && #[trigger] old(self).w_adj().contains_key(k) && !has_pair_match(
                    old(self).w_adj()[k]@,
                    k,
                    *u,
                ) ==> final(self).w_adj()[k] == old(self).w_adj()[k],
    {
        let cleared = self.remove_edges(u);
        let ghost mid = *self;
        match cleared {
            Some(_) => {
                self.edges.remove(*u);
                proof {
                    assert forall|k: u64|
                        k != *u implies #[trigger] self.w_adj().contains_key(k) == old(self).w_adj().contains_key(k) by {
                        assert(self.w_adj() == mid.w_adj().remove(*u));
                        assert(mid.w_adj().contains_key(k) == old(self).w_adj().contains_key(k));
                    }
                }
                true
            },
            None => false,
        }
    }

    /// Empty the staged adjacency; the published one stands until `update`.
    pub fn remove_all_edges(&mut self)
        requires
            old(self).wf(),
        ensures
            final(self).wf(),
            final(self).direct == old(self).direct,
            final(self).r_adj() == old(self).r_adj(),
            final(self).w_adj() == Map::<u64, Vec<Edge<L>>>::empty(),
    {
        self.edges.clear();
    }

    /// Publish the staged adjacency.
    pub fn update(&mut self)
        requires
            old(self).wf(),
        ensures
            final(self).wf(),
            final(self).direct == old(self).direct,
            final(self).r_adj() == old(self).w_adj(),
            final(self).w_adj() == old(self).w_adj(),
    {
        self.edges.update();
    }

    /// Publish the staged adjacency, skipping the swap when nothing was
    /// staged.
    pub fn lazy_update(&mut self)
        requires
            old(self).wf(),
        ensures
            final(self).wf(),
            final(self).direct == old(self).direct,
            final(self).r_adj() == old(self).w_adj(),
            final(self).w_adj() == old(self).w_adj(),
    {
        self.edges.lazy_update();
    }

    /// Preferential attachment: sample up to `n_sample` distinct staged
    /// nodes, each weighted by its staged degree, and stage a simple edge
    /// from `u` to each one. Which nodes come out is up to the random
    /// number generator; whatever came out, each sampled node gains
    /// exactly its reverse entry when the network is undirected, `u` gains
    /// one simple edge per sampled node, and everything else stands.
    pub fn add_prob_edge(&mut self, u: &u64, n_sample: &usize)
        requires
            old(self).wf(),
        ensures
            final(self).wf(),
            final(self).direct == old(self).direct,
            final(self).r_adj() == old(self).r_adj(),
            forall|k: u64| #[trigger]
                old(self).w_adj().contains_key(k) ==> final(self).w_adj().contains_key(k),
            forall|k: u64| #[trigger]
                final(self).w_adj().contains_key(k) ==> old(self).w_adj().contains_key(k) || k
                    == *u,
            old(self).w_adj().dom().len() > 0 && *n_sample > 0 ==> final(self).w_adj().contains_key(*u),
            exists|chosen: Seq<u64>| #[trigger] prob_edge_effect(
                *old(self),
                *final(self),
                *u,
                *n_sample as int,
                chosen,
            ),
    {
        let net_nodes = self.edges.w_keys();
        let ghost base = *self;
        let mut dist: Vec<(u64, u32)> = Vec::new();
        let nn = net_nodes.len();
        let mut i: usize = 0;
        while i < nn
            invariant
                *self == base,
                self.wf(),
                nn == net_nodes@.len(),
                i <= nn,
                net_nodes@.no_duplicates(),
                forall|j: int|
                    0 <= j < nn ==> self.w_adj().contains_key(#[trigger] net_nodes@[j]),
                forall|k: u64| #[trigger] self.w_adj().contains_key(k) ==> net_nodes@.contains(k),
                dist@.len() == i,
                forall|j: int| 0 <= j < i ==> (#[trigger] dist@[j]).0 == net_nodes@[j],
            decreases nn - i,
        {
            let nid = net_nodes[i];
            let w: u32 = match self.edges.get_write(nid) {
                Some(b) => {
                    let bl = b.len();
                    if bl > 0xffff_ffffusize {
                        0xffff_ffffu32
                    } else {
                        bl as u32
                    }
                },
                None => 0,
            };
            dist.push((nid, w));
            i += 1;
        }
        proof {
            assert forall|a: int, b: int| 0 <= a < b < dist@.len() implies (#[trigger] dist@[a]).0
                != (#[trigger] dist@[b]).0 by {
                assert(net_nodes@[a] != net_nodes@[b]);
            }
            net_nodes@.unique_seq_to_set();
            assert(net_nodes@.to_set() =~= self.w_adj().dom());
            assert(self.w_adj().dom().len() == nn);
        }
        let amount = if *n_sample <= nn {
            *n_sample
        } else {
            nn
        };
        let ids = match sample_weighted(&dist, amount) {
            Some(ids) => ids,
            None => unreached(),
        };
        let ghost chosen = ids@;
        proof {
            assert forall|j: int| 0 <= j < chosen.len() implies base.w_adj().contains_key(
                #[trigger] chosen[j],
            ) by {
                let jj = choose|jj: int| 0 <= jj < dist@.len() && dist@[jj].0 == chosen[j];
                assert(net_nodes@[jj] == chosen[j]);
            }
        }
        let nc = ids.len();
        let mut t: usize = 0;
        while t < nc
            invariant
                self.wf(),
                self.direct == base.direct,
                self.r_adj() == base.r_adj(),
                nc == chosen.len(),
                t <= nc,
                ids@ == chosen,
                chosen.no_duplicates(),
                forall|j: int|
                    0 <= j < chosen.len() ==> base.w_adj().contains_key(#[trigger] chosen[j]),
                forall|k: u64| #[trigger]
                    self.w_adj().contains_key(k) <==> (base.w_adj().contains_key(k) || (k == *u
                        && t > 0)),
                forall|k: u64|
                    k != *u && #[trigger] base.w_adj().contains_key(k) && !chosen.take(
                        t as int,
                    ).contains(k) ==> self.w_adj()[k] == base.w_adj()[k],
                !base.direct ==> forall|k: u64|
                    k != *u && base.w_adj().contains_key(k) && #[trigger] chosen.take(
                        t as int,
                    ).contains(k) ==> self.w_adj()[k]@ == base.w_adj()[k]@.push(
                        spec_edge(k, *u, EdgeOptions::Simple),
                    ),
                base.direct ==> forall|k: u64|
                    k != *u && #[trigger] base.w_adj().contains_key(k) ==> self.w_adj()[k]
                        == base.w_adj()[k],
                t > 0 || base.w_adj().contains_key(*u) ==> self.w_adj().contains_key(*u),
                adj_or_empty(self.w_adj(), *u).len() >= adj_or_empty(base.w_adj(), *u).len(),
                forall|i2: int|
                    0 <= i2 < adj_or_empty(base.w_adj(), *u).len() ==> #[trigger] adj_or_empty(
                        self.w_adj(),
                        *u,
                    )[i2] == adj_or_empty(base.w_adj(), *u)[i2],
                forall|i2: int|
                    adj_or_empty(base.w_adj(), *u).len() <= i2 < adj_or_empty(
                        self.w_adj(),
                        *u,
                    ).len() ==> ((#[trigger] adj_or_empty(self.w_adj(), *u)[i2]).u == *u
                        && chosen.take(t as int).contains(adj_or_empty(self.w_adj(), *u)[i2].v)
                        && adj_or_empty(self.w_adj(), *u)[i2].label is None && adj_or_empty(
                        self.w_adj(),
                        *u,
                    )[i2].weight is None) || (!base.direct && adj_or_empty(self.w_adj(), *u)[i2].v
                        == *u && chosen.take(t as int).contains(
                        adj_or_empty(self.w_adj(), *u)[i2].u,
                    )),
            decreases nc - t,
        {
            let c = ids[t];
            let ghost pre = *self;
            self.add_edge(u, &c, EdgeOptions::Simple);
            proof {
                assert(chosen.take(t + 1) =~= chosen.take(t as int).push(c));
                broadcast use vstd::seq_lib::lemma_seq_contains_after_push;

                if chosen.take(t as int).contains(c) {
                    let j = choose|j: int| 0 <= j < t && chosen.take(t as int)[j] == c;
                    assert(chosen[j] == c && chosen[t as int] == c);
                    assert(false);
                }
                assert forall|k: u64| #[trigger]
                    self.w_adj().contains_key(k) <==> (base.w_adj().contains_key(k) || (k == *u
                        && t + 1 > 0)) by {
                    if k == *u || k == c {
                    } else {
                        assert(self.w_adj().contains_key(k) == pre.w_adj().contains_key(k));
                    }
                }
                assert forall|k: u64|
                    k != *u && #[trigger] base.w_adj().contains_key(k) && !chosen.take(
                        t + 1,
                    ).contains(k) implies self.w_adj()[k] == base.w_adj()[k] by {
                    assert(!chosen.take(t as int).contains(k));
                    if k != c {
                        assert(pre.w_adj().contains_key(k));
                        assert(self.w_adj().contains_key(k));
                        assert(self.w_adj()[k] == pre.w_adj()[k]);
                    } else {
                        assert(chosen.take(t + 1)[t as int] == c);
                        assert(false);
                    }
                }
                assert forall|k: u64|
                    !base.direct && k != *u && base.w_adj().contains_key(k)
                        && #[trigger] chosen.take(t + 1).contains(k) implies self.w_adj()[k]@
                    == base.w_adj()[k]@.push(spec_edge(k, *u, EdgeOptions::Simple)) by {
                    if k == c {
                        assert(!chosen.take(t as int).contains(c));
                        assert(pre.w_adj()[c] == base.w_adj()[c]);
                        assert(self.w_adj()[c]@ == adj_or_empty(pre.w_adj(), c).push(
                            spec_edge(c, *u, EdgeOptions::Simple),
                        ));
                    } else {
                        assert(chosen.take(t as int).contains(k));
                        assert(pre.w_adj().contains_key(k));
                        assert(self.w_adj().contains_key(k));
                        assert(self.w_adj()[k] == pre.w_adj()[k]);
                    }
                }
                if base.direct {
                    assert forall|k: u64|
                        k != *u && #[trigger] base.w_adj().contains_key(k) implies self.w_adj()[k]
                        == base.w_adj()[k] by {
                        assert(pre.w_adj().contains_key(k));
                        assert(self.w_adj().contains_key(k));
                        assert(self.w_adj()[k] == pre.w_adj()[k]);
                    }
                }
            }
            t += 1;
        }
        proof {
            assert(chosen.take(nc as int) =~= chosen);
            assert(prob_edge_effect(base, *self, *u, *n_sample as int, chosen));
            if base.w_adj().dom().len() > 0 && *n_sample > 0 {
                assert(chosen.len() > 0);
                assert(self.w_adj().contains_key(*u));
            }
        }
    }
}

/// The undirected symmetry law: staging an edge and publishing leaves an
/// edge joining `{u, v}` in the published lists of both endpoints. The
/// three networks are the states before the staging, after the staging,
/// and after the publication, related as the contracts of `add_edge` and
/// `update` relate them.
pub proof fn law_undirected_symmetry<L: Copy>(
    before: Network<L>,
    staged: Network<L>,
    published: Network<L>,
    u: u64,
    v: u64,
    o: EdgeOptions<L>,
)
    requires
        !before.direct,
        u != v,
        staged.w_adj().contains_key(u),
        staged.w_adj().contains_key(v),
        staged.w_adj()[u]@ == adj_or_empty(before.w_adj(), u).push(spec_edge(u, v, o)),
        staged.w_adj()[v]@ == adj_or_empty(before.w_adj(), v).push(spec_edge(v, u, o)),
        published.r_adj() == staged.w_adj(),
    ensures
        published.r_adj().contains_key(u),
        published.r_adj().contains_key(v),
        exists|i: int|
            0 <= i < published.r_adj()[u]@.len() && matches_pair(
                #[trigger] published.r_adj()[u]@[i],
                u,
                v,
            ),
        exists|i: int|
            0 <= i < published.r_adj()[v]@.len() && matches_pair(
                #[trigger] published.r_adj()[v]@[i],
                u,
                v,
            ),
{
    let lu = published.r_adj()[u]@;
    let lv = published.r_adj()[v]@;
    assert(matches_pair(lu[lu.len() - 1], u, v));
    assert(matches_pair(lv[lv.len() - 1], u, v));
}

/// Relies on `SliceRandom::choose_multiple_weighted`: a sample of distinct
/// entries, each drawn with likelihood proportional to its weight; with
/// unsigned weights the call cannot fail, and it hands back the smaller of
/// `amount` and the number of entries.
#[verifier::external_body]
fn sample_weighted(items: &Vec<(u64, u32)>, amount: usize) -> (r: Option<Vec<u64>>)
    requires
        forall|a: int, b: int|
            0 <= a < b < items@.len() ==> (#[trigger] items@[a]).0 != (#[trigger] items@[b]).0,
    ensures
        r is Some,
        r matches Some(ids) ==> ids@.len() == (if amount as int <= items@.len() {
            amount as int
        } else {
            items@.len() as int
        }) && ids@.no_duplicates() && (forall|i: int|
            0 <= i < ids@.len() ==> exists|j: int|
                0 <= j < items@.len() && (#[trigger] items@[j]).0 == #[trigger] ids@[i]),
{
    let mut rng = rand::thread_rng();
    match items.choose_multiple_weighted(&mut rng, amount, |it| it.1) {
        Ok(it) => Some(it.map(|p| p.0).collect()),
        Err(_) => None,
    }
}

/// Build an undirected graph over `nodes` by the preferential-attachment
/// rule: seed with the first two nodes joined by a simple edge, then give
/// each further node `init_edges` sampled simple edges, publishing between
/// insertions so each sample observes the degrees so far.
pub fn preferential_attachment_ba<L: Copy>(
    net: &mut Network<L>,
    nodes: &Vec<u64>,
    init_edges: usize,
)
    requires
        old(net).wf(),
        !old(net).direct,
        init_edges >= 1,
    ensures
        final(net).wf(),
        final(net).direct == old(net).direct,
        nodes@.len() > 0 ==> final(net).r_adj() == final(net).w_adj(),
        forall|j: int|
            0 <= j < nodes@.len() ==> final(net).w_adj().contains_key(#[trigger] nodes@[j]),
        forall|k: u64| #[trigger] final(net).w_adj().contains_key(k) ==> nodes@.contains(k),
        forall|k: u64, j: int|
            #![trigger final(net).w_adj()[k]@[j]]
            final(net).w_adj().contains_key(k) && 0 <= j < final(net).w_adj()[k]@.len()
                ==> nodes@.contains(final(net).w_adj()[k]@[j].u) && nodes@.contains(
                final(net).w_adj()[k]@[j].v,
            ),
        nodes@.len() >= 2 ==> has_pair_match(
            final(net).w_adj()[nodes@[0]]@,
            nodes@[0],
            nodes@[1],
        ) && has_pair_match(final(net).w_adj()[nodes@[1]]@, nodes@[0], nodes@[1]),
{
    net.remove_all_edges();
    if nodes.len() == 0 {
        proof {
            assert forall|k: u64| #[trigger]
                net.w_adj().contains_key(k) implies nodes@.contains(k) by {}
        }
        return ;
    }
    net.add_node(&nodes[0]);
    net.edges.update();
    if nodes.len() == 1 {
        proof {
            assert(nodes@[0] == nodes@[0] && nodes@.contains(nodes@[0]));
            assert(net.w_adj()[nodes@[0]]@.len() == 0);
        }
        return ;
    }
    net.add_node(&nodes[1]);
    net.add_edge(&nodes[0], &nodes[1], EdgeOptions::Simple);
    net.edges.update();
    proof {
        assert(nodes@.contains(nodes@[0]) && nodes@.contains(nodes@[1]));
        let l0 = net.w_adj()[nodes@[0]]@;
        assert(matches_pair(l0[l0.len() - 1], nodes@[0], nodes@[1]));
        let l1 = net.w_adj()[nodes@[1]]@;
        assert(matches_pair(l1[l1.len() - 1], nodes@[0], nodes@[1]));
    }
    let n = nodes.len();
    let mut i: usize = 2;
    while i < n
        invariant
            net.wf(),
            net.direct == old(net).direct,
            !net.direct,
            n == nodes@.len(),
            2 <= i <= n,
            init_edges >= 1,
            net.r_adj() == net.w_adj(),
            forall|j: int| 0 <= j < i ==> net.w_adj().contains_key(#[trigger] nodes@[j]),
            forall|k: u64| #[trigger] net.w_adj().contains_key(k) ==> nodes@.contains(k),
            forall|k: u64, j: int|
                #![trigger net.w_adj()[k]@[j]]
                net.w_adj().contains_key(k) && 0 <= j < net.w_adj()[k]@.len() ==> nodes@.contains(
                    net.w_adj()[k]@[j].u,
                ) && nodes@.contains(net.w_adj()[k]@[j].v),
            has_pair_match(net.w_adj()[nodes@[0]]@, nodes@[0], nodes@[1]),
            has_pair_match(net.w_adj()[nodes@[1]]@, nodes@[0], nodes@[1]),
        decreases n - i,
    {
        proof {
            net.edges.lemma_views_finite();
            if net.w_adj().dom().len() == 0 {
                vstd::set::axiom_set_remove_len(net.w_adj().dom(), nodes@[0]);
                assert(false);
            }
        }
        let ghost pre = *net;
        let u = nodes[i];
        net.add_prob_edge(&u, &init_edges);
        proof {
            let ch = choose|ch: Seq<u64>| #[trigger] prob_edge_effect(
                pre,
                *net,
                u,
                init_edges as int,
                ch,
            );
            assert(prob_edge_effect(pre, *net, u, init_edges as int, ch));
            assert(nodes@.contains(u)) by {
                assert(nodes@[i as int] == u);
            }
            assert forall|k: u64, j: int|
                #![trigger net.w_adj()[k]@[j]]
                net.w_adj().contains_key(k) && 0 <= j < net.w_adj()[k]@.len() implies
                nodes@.contains(net.w_adj()[k]@[j].u) && nodes@.contains(
                net.w_adj()[k]@[j].v,
            ) by {
                if k == u {
                    assert(adj_or_empty(net.w_adj(), u)[j] == net.w_adj()[k]@[j]);
                    if j < adj_or_empty(pre.w_adj(), u).len() {
                        assert(adj_or_empty(net.w_adj(), u)[j] == adj_or_empty(
                            pre.w_adj(),
                            u,
                        )[j]);
                        assert(pre.w_adj().contains_key(u));
                        assert(pre.w_adj()[u]@[j] == adj_or_empty(pre.w_adj(), u)[j]);
                    } else {
                        let e = adj_or_empty(net.w_adj(), u)[j];
                        if e.u == u && ch.contains(e.v) {
                            let cj = choose|cj: int| 0 <= cj < ch.len() && ch[cj] == e.v;
                            assert(pre.w_adj().contains_key(ch[cj]));
                        } else {
                            assert(!pre.direct && e.v == u && ch.contains(e.u));
                            let cj = choose|cj: int| 0 <= cj < ch.len() && ch[cj] == e.u;
                            assert(pre.w_adj().contains_key(ch[cj]));
                        }
                    }
                } else {
                    assert(pre.w_adj().contains_key(k));
                    if ch.contains(k) && !pre.direct {
                        assert(net.w_adj()[k]@ == pre.w_adj()[k]@.push(
                            spec_edge(k, u, EdgeOptions::Simple),
                        ));
                        if j < pre.w_adj()[k]@.len() {
                            assert(net.w_adj()[k]@[j] == pre.w_adj()[k]@[j]);
                        }
                    } else {
                        assert(net.w_adj()[k] == pre.w_adj()[k]);
                    }
                }
            }
            assert(has_pair_match(net.w_adj()[nodes@[0]]@, nodes@[0], nodes@[1])) by {
                lemma_ba_membership_carries(
                    pre,
                    *net,
                    u,
                    init_edges as int,
                    ch,
                    nodes@[0],
                    nodes@[0],
                    nodes@[1],
                );
            }
            assert(has_pair_match(net.w_adj()[nodes@[1]]@, nodes@[0], nodes@[1])) by {
                lemma_ba_membership_carries(
                    pre,
                    *net,
                    u,
                    init_edges as int,
                    ch,
                    nodes@[1],
                    nodes@[0],
                    nodes@[1],
                );
            }
        }
        net.edges.update();
        i += 1;
    }
}

/// A staged pair match survives a preferential-attachment call: the call
/// only appends to lists.
proof fn lemma_ba_membership_carries<L: Copy>(
    pre: Network<L>,
    post: Network<L>,
    u: u64,
    n_sample: int,
    ch: Seq<u64>,
    k: u64,
    a: u64,
    b: u64,
)
    requires
        prob_edge_effect(pre, post, u, n_sample, ch),
        pre.w_adj().contains_key(k),
        has_pair_match(pre.w_adj()[k]@, a, b),
    ensures
        post.w_adj().contains_key(k),
        has_pair_match(post.w_adj()[k]@, a, b),
{
    let j = choose|j: int|
        0 <= j < pre.w_adj()[k]@.len() && matches_pair(#[trigger] pre.w_adj()[k]@[j], a, b);
    if k == u {
        assert(adj_or_empty(pre.w_adj(), u)[j] == pre.w_adj()[k]@[j]);
        assert(adj_or_empty(post.w_adj(), u)[j] == adj_or_empty(pre.w_adj(), u)[j]);
        assert(post.w_adj().contains_key(u));
        assert(matches_pair(post.w_adj()[k]@[j], a, b));
    } else if !pre.direct && ch.contains(k) {
        assert(post.w_adj()[k]@ == pre.w_adj()[k]@.push(spec_edge(k, u, EdgeOptions::Simple)));
        assert(matches_pair(post.w_adj()[k]@[j], a, b));
    } else {
        assert(post.w_adj()[k] == pre.w_adj()[k]);
        assert(matches_pair(post.w_adj()[k]@[j], a, b));
    }
}

} // verus!
