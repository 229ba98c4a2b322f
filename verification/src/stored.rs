//! The trie as a set of stored pairs: which key leads to which node, and
//! which values are stored under which keys.

use crate::graph::{empty_graph, graph_wf, matched, Graph, NodeModel};
use crate::insertion::{lies_along, stores};
use crate::key::{balanced, closes, lemma_balanced_closes, span_of, NodeKey};
use crate::laws::lemma_match_yields;
use crate::matching::{
    lemma_child_of_edge, lemma_child_within, lemma_edge_of_child, lemma_matched_yields,
    node_within, within,
};
use crate::reach::{
    key_matches, lemma_reaches_inside, lemma_reaches_some_edge, lemma_vacant_ends,
    lemma_yields_reaches, next_pos, query_matches, reaches, reaches_value,
};
use vstd::prelude::*;

verus! {

/// The node that the first `k` tokens lead to from node `n` by labelled
/// edges, if they lead anywhere.
pub open spec fn follow<K, V>(g: Graph<K, V>, n: int, tokens: Seq<NodeKey<K>>, k: int) -> Option<
    int,
>
    decreases k,
{
    if k <= 0 {
        if 0 <= n < g.len() {
            Some(n)
        } else {
            None
        }
    } else {
        match follow(g, n, tokens, k - 1) {
            Some(m) => match g[m].child(tokens[k - 1]) {
                Some(c) => if c < g.len() {
                    Some(c as int)
                } else {
                    None
                },
                None => None,
            },
            None => None,
        }
    }
}

/// The node that a key leads to from the root.
pub open spec fn leads<K, V>(g: Graph<K, V>, tokens: Seq<NodeKey<K>>) -> Option<int> {
    follow(g, 0, tokens, tokens.len() as int)
}

/// Whether `value` is stored under the key: the key is balanced and leads to
/// a node that holds the value.
pub open spec fn holds<K, V>(g: Graph<K, V>, tokens: Seq<NodeKey<K>>, value: V) -> bool {
    &&& balanced(tokens)
    &&& leads(g, tokens) matches Some(m) && g[m].values.contains(value)
}

/// The labelled edges form a tree that hangs from the root: every edge leads
/// to a node with a greater name, and no two edges lead to the same node.
pub open spec fn tree_shaped<K, V>(g: Graph<K, V>) -> bool {
    &&& forall|p: int, j: int|
        0 <= p < g.len() && 0 <= j < g[p].children.len() ==> p < (#[trigger] g[p].children[j]).1
    &&& forall|p: int, j: int, q: int, k: int|
        0 <= p < g.len() && 0 <= j < g[p].children.len() && 0 <= q < g.len() && 0 <= k
            < g[q].children.len() && (#[trigger] g[p].children[j]).1 == (
        #[trigger] g[q].children[k]).1 ==> p == q
}

/// Where tokens lead to, they lead inside the graph, and so do their
/// beginnings.
pub proof fn lemma_follow_inside<K, V>(g: Graph<K, V>, n: int, tokens: Seq<NodeKey<K>>, k: int, j: int)
    requires
        follow(g, n, tokens, k) is Some,
        0 <= j <= k,
    ensures
        follow(g, n, tokens, j) is Some,
        0 <= follow(g, n, tokens, j)->0 < g.len(),
        0 <= n < g.len(),
    decreases k,
{
    if k > 0 {
        if j < k {
            lemma_follow_inside(g, n, tokens, k - 1, j);
        } else {
            lemma_follow_inside(g, n, tokens, k - 1, k - 1);
        }
    }
}

/// Where tokens lead to depends on no more than the tokens followed.
pub proof fn lemma_follow_prefix<K, V>(
    g: Graph<K, V>,
    n: int,
    a: Seq<NodeKey<K>>,
    b: Seq<NodeKey<K>>,
    k: int,
)
    requires
        0 <= k <= a.len(),
        k <= b.len(),
        forall|j: int| 0 <= j < k ==> a[j] == b[j],
    ensures
        follow(g, n, a, k) == follow(g, n, b, k),
    decreases k,
{
    if k > 0 {
        lemma_follow_prefix(g, n, a, b, k - 1);
    }
}

/// Following two pieces one after the other is following their
/// concatenation.
pub proof fn lemma_follow_concat<K, V>(
    g: Graph<K, V>,
    n: int,
    t: Seq<NodeKey<K>>,
    s: Seq<NodeKey<K>>,
    k: int,
)
    requires
        0 <= k <= s.len(),
    ensures
        follow(g, n, t + s, t.len() + k) == match follow(g, n, t, t.len() as int) {
            Some(m) => follow(g, m, s, k),
            None => None,
        },
    decreases k,
{
    if k == 0 {
        lemma_follow_prefix(g, n, t + s, t, t.len() as int);
        if follow(g, n, t, t.len() as int) is Some {
            lemma_follow_inside(g, n, t, t.len() as int, t.len() as int);
        }
    } else {
        lemma_follow_concat(g, n, t, s, k - 1);
        assert((t + s)[t.len() + k - 1] == s[k - 1]);
        match follow(g, n, t, t.len() as int) {
            Some(m) => {},
            None => {},
        }
    }
}

/// Where tokens lead to in a graph they lead to in a well-formed graph that
/// the first lies within.
pub proof fn lemma_follow_within<K, V>(
    small: Graph<K, V>,
    big: Graph<K, V>,
    n: int,
    tokens: Seq<NodeKey<K>>,
    k: int,
)
    requires
        within(small, big),
        graph_wf(big),
        follow(small, n, tokens, k) is Some,
    ensures
        follow(big, n, tokens, k) == follow(small, n, tokens, k),
    decreases k,
{
    if k > 0 {
        lemma_follow_inside(small, n, tokens, k, k - 1);
        lemma_follow_within(small, big, n, tokens, k - 1);
        let m = follow(small, n, tokens, k - 1)->0;
        assert(node_within(small[m], big[m]));
        assert(big[m].wf(big.len()));
        lemma_child_within(small[m], big[m], big.len(), tokens[k - 1], small[m].child(tokens[k - 1])->0);
    }
}

/// In a tree no two keys lead to the same node.
pub proof fn lemma_one_address<K, V>(g: Graph<K, V>, a: Seq<NodeKey<K>>, b: Seq<NodeKey<K>>)
    requires
        graph_wf(g),
        tree_shaped(g),
        leads(g, a) is Some,
        leads(g, a) == leads(g, b),
    ensures
        a == b,
    decreases a.len(),
{
    let m = leads(g, a)->0;
    if a.len() == 0 {
        if b.len() > 0 {
            lemma_last_edge(g, 0, b);
        }
        assert(a =~= b);
    } else {
        lemma_last_edge(g, 0, a);
        if b.len() == 0 {
            assert(false);
        } else {
            lemma_last_edge(g, 0, b);
            let pa = follow(g, 0, a, a.len() - 1)->0;
            let pb = follow(g, 0, b, b.len() - 1)->0;
            let ja = choose|j: int|
                0 <= j < g[pa].children.len() && g[pa].children[j] == (a.last(), m as usize);
            let jb = choose|j: int|
                0 <= j < g[pb].children.len() && g[pb].children[j] == (b.last(), m as usize);
            assert(g[pa].children[ja].1 == g[pb].children[jb].1);
            assert(pa == pb);
            assert(g[pa].wf(g.len()));
            assert(ja == jb);
            assert(a.last() == b.last());
            let a0 = a.drop_last();
            let b0 = b.drop_last();
            lemma_follow_prefix(g, 0, a, a0, a0.len() as int);
            lemma_follow_prefix(g, 0, b, b0, b0.len() as int);
            lemma_one_address(g, a0, b0);
            assert(a =~= a0.push(a.last()));
            assert(b =~= b0.push(b.last()));
        }
    }
}

/// What tokens lead to, their last token's edge leads to, from where the
/// tokens before it lead to.
pub proof fn lemma_last_edge<K, V>(g: Graph<K, V>, n: int, tokens: Seq<NodeKey<K>>)
    requires
        tokens.len() > 0,
        follow(g, n, tokens, tokens.len() as int) is Some,
    ensures
        follow(g, n, tokens, tokens.len() - 1) matches Some(p) && 0 <= p < g.len()
            && g[p].children.contains(
            (tokens.last(), follow(g, n, tokens, tokens.len() as int)->0 as usize),
        ),
        tree_shaped(g) ==> follow(g, n, tokens, tokens.len() - 1)->0 < follow(
            g,
            n,
            tokens,
            tokens.len() as int,
        )->0,
{
    let k = tokens.len() as int;
    lemma_follow_inside(g, n, tokens, k, k - 1);
    let p = follow(g, n, tokens, k - 1)->0;
    let c = g[p].child(tokens[k - 1])->0;
    lemma_edge_of_child(g[p], tokens[k - 1], c);
    if tree_shaped(g) {
        let j = choose|j: int|
            0 <= j < g[p].children.len() && g[p].children[j] == (tokens[k - 1], c);
        assert(p < g[p].children[j].1);
    }
}

/// A node that nothing is stored in: it is not the root, it is vacant, and
/// no labelled edge leads to it.
pub open spec fn detached<K, V>(g: Graph<K, V>, e: int) -> bool {
    &&& e != 0
    &&& g[e].is_vacant()
    &&& forall|p: int, j: int|
        0 <= p < g.len() && 0 <= j < g[p].children.len() ==> (#[trigger] g[p].children[j]).1 != e
}

/// Whether the tokens are one group: an opening marker, balanced tokens, and
/// the marker that closes it.
pub open spec fn is_group<K>(t: Seq<NodeKey<K>>) -> bool {
    t.len() >= 2 && closes(t, 0, t.len() - 1)
}

/// Whether the labelled edges of one group lead from node `s` to node `e`.
pub open spec fn spans_group<K, V>(g: Graph<K, V>, s: int, e: int) -> bool {
    exists|t: Seq<NodeKey<K>>| #[trigger] is_group(t) && follow(g, s, t, t.len() as int) == Some(e)
}

/// Every node that holds a value is where a balanced key leads to.
pub open spec fn addressed<K, V>(g: Graph<K, V>) -> bool {
    forall|m: int|
        0 <= m < g.len() && (#[trigger] g[m]).values.len() > 0 ==> exists|a: Seq<NodeKey<K>>| #[trigger]
            balanced(a) && leads(g, a) == Some(m)
}

/// Every skip edge jumps over one group of labelled edges, or leads to a
/// node that nothing is stored in.
pub open spec fn skips_sound<K, V>(g: Graph<K, V>) -> bool {
    forall|s: int, j: int|
        0 <= s < g.len() && 0 <= j < g[s].skip_pars.len() ==> {
            let e = (#[trigger] g[s].skip_pars[j]) as int;
            detached(g, e) || spans_group(g, s, e)
        }
}

/// A skip edge lies over the group that opens at position `i` of the key.
pub open spec fn skip_over<K, V>(g: Graph<K, V>, k: Seq<NodeKey<K>>, i: int) -> bool {
    &&& follow(g, 0, k, i) matches Some(s)
    &&& follow(g, 0, k, i + span_of(k, i) + 1) matches Some(e)
    &&& g[s].skip_pars.contains(e as usize)
}

/// Over every group of a key under which a value is stored lies a skip edge.
pub open spec fn skips_complete<K, V>(g: Graph<K, V>) -> bool {
    forall|k: Seq<NodeKey<K>>, i: int|
        balanced(k) && (leads(g, k) matches Some(m) && g[m].values.len() > 0) && 0 <= i < k.len()
            && k[i] is LeftPar ==> #[trigger] skip_over(g, k, i)
}

/// The invariant under which the trie is the set of its stored pairs.
pub open spec fn faithful<K, V>(g: Graph<K, V>) -> bool {
    &&& graph_wf(g)
    &&& g.len() <= usize::MAX
    &&& tree_shaped(g)
    &&& addressed(g)
    &&& skips_sound(g)
    &&& skips_complete(g)
}

/// Whether a group closes does not depend on what stands before and behind
/// it.
pub proof fn lemma_closes_shift<K>(t: Seq<NodeKey<K>>, s: Seq<NodeKey<K>>, a: int, b: int)
    requires
        0 <= a,
    ensures
        closes(t + s, t.len() + a, t.len() + b) <==> closes(s, a, b),
{
    if 0 <= a < b < s.len() {
        assert((t + s).subrange(t.len() + a + 1, t.len() + b) =~= s.subrange(a + 1, b));
        assert((t + s)[t.len() + a] == s[a]);
        assert((t + s)[t.len() + b] == s[b]);
    }
}

/// A group still closes where more tokens follow it.
pub proof fn lemma_closes_extends<K>(t: Seq<NodeKey<K>>, s: Seq<NodeKey<K>>, a: int, b: int)
    requires
        closes(t, a, b),
    ensures
        closes(t + s, a, b),
{
    assert((t + s).subrange(a + 1, b) =~= t.subrange(a + 1, b));
    assert((t + s)[a] == t[a]);
    assert((t + s)[b] == t[b]);
}

/// Whether a query matches the rest of a stored key does not depend on what
/// the key begins with.
pub proof fn lemma_matches_shift<K>(
    query: Seq<NodeKey<K>>,
    i: int,
    t: Seq<NodeKey<K>>,
    s: Seq<NodeKey<K>>,
    j: int,
)
    requires
        0 <= j,
    ensures
        key_matches(query, i, t + s, t.len() + j) == key_matches(query, i, s, j),
    decreases query.len() - i,
{
    let whole = t + s;
    let at = t.len() + j;
    if 0 <= i < query.len() && j < s.len() {
        assert(whole[at] == s[j]);
        match next_pos(query, i, s[j]) {
            Some(p) => {
                if i < p <= query.len() {
                    lemma_matches_shift(query, p, t, s, j + 1);
                }
            },
            None => {},
        }
        if query[i] is Wildcard && s[j] is LeftPar {
            if exists|e: int| #[trigger]
                closes(s, j, e) && key_matches(query, i + 1, s, e + 1) {
                let e = choose|e: int| #[trigger]
                    closes(s, j, e) && key_matches(query, i + 1, s, e + 1);
                lemma_closes_shift(t, s, j, e);
                lemma_matches_shift(query, i + 1, t, s, e + 1);
                assert(closes(whole, at, t.len() + e) && key_matches(
                    query,
                    i + 1,
                    whole,
                    t.len() + e + 1,
                ));
            }
            if exists|e: int| #[trigger]
                closes(whole, at, e) && key_matches(query, i + 1, whole, e + 1) {
                let e = choose|e: int| #[trigger]
                    closes(whole, at, e) && key_matches(query, i + 1, whole, e + 1);
                lemma_closes_shift(t, s, j, e - t.len());
                lemma_matches_shift(query, i + 1, t, s, e - t.len() + 1);
                assert(closes(s, j, e - t.len()) && key_matches(query, i + 1, s, e - t.len() + 1));
            }
        }
    }
}

/// The tokens of the edges that lead a query to a node with something in it:
/// they lead to the node, and the query matches them.
pub proof fn lemma_trace<K, V>(g: Graph<K, V>, n: int, query: Seq<NodeKey<K>>, i: int, m: int) -> (s:
    Seq<NodeKey<K>>)
    requires
        graph_wf(g),
        skips_sound(g),
        reaches(g, n, query, i, m),
        !g[m].is_vacant(),
    ensures
        follow(g, n, s, s.len() as int) == Some(m),
        key_matches(query, i, s, 0),
    decreases query.len() - i,
{
    lemma_reaches_inside(g, n, query, i, m);
    if i >= query.len() {
        Seq::empty()
    } else {
        let j = lemma_reaches_some_edge(g, n, query, i, m);
        assert(g[n].wf(g.len()));
        if 0 <= j < g[n].children.len() {
            let edge = g[n].children[j];
            let p = next_pos(query, i, edge.0)->0;
            let rest = lemma_trace(g, edge.1 as int, query, p, m);
            let first = seq![edge.0];
            lemma_child_of_edge(g[n], g.len(), j);
            assert(follow(g, n, first, 1) == Some(edge.1 as int)) by {
                reveal_with_fuel(follow, 2);
            }
            lemma_follow_concat(g, n, first, rest, rest.len() as int);
            lemma_matches_shift(query, p, first, rest, 0);
            assert((first + rest)[0] == edge.0);
            first + rest
        } else {
            let t = j - g[n].children.len();
            let e = g[n].skip_pars[t] as int;
            if detached(g, e) {
                lemma_vacant_ends(g, e, query, i + 1, m);
                assert(false);
            }
            let group = choose|group: Seq<NodeKey<K>>| #[trigger]
                is_group(group) && follow(g, n, group, group.len() as int) == Some(e);
            let rest = lemma_trace(g, e, query, i + 1, m);
            lemma_follow_concat(g, n, group, rest, rest.len() as int);
            lemma_matches_shift(query, i + 1, group, rest, 0);
            lemma_closes_extends(group, rest, 0, group.len() - 1);
            let whole = group + rest;
            assert(whole[0] == group[0]);
            assert(closes(whole, 0, group.len() - 1) && key_matches(
                query,
                i + 1,
                whole,
                group.len() - 1 + 1,
            ));
            whole
        }
    }
}

/// The nodes that a key leads through, the root first.
pub open spec fn path_of<K, V>(g: Graph<K, V>, tokens: Seq<NodeKey<K>>) -> Seq<usize> {
    Seq::new((tokens.len() + 1) as nat, |j: int| follow(g, 0, tokens, j)->0 as usize)
}

/// A key that leads somewhere lies along its path.
pub proof fn lemma_path_of<K, V>(g: Graph<K, V>, tokens: Seq<NodeKey<K>>)
    requires
        g.len() <= usize::MAX,
        leads(g, tokens) is Some,
    ensures
        lies_along(g, tokens, path_of(g, tokens), tokens.len() as int),
        path_of(g, tokens).last() == leads(g, tokens)->0,
{
    let path = path_of(g, tokens);
    let len = tokens.len() as int;
    assert forall|j: int| 0 <= j <= len implies (#[trigger] path[j]) < g.len() && path[j]
        == follow(g, 0, tokens, j)->0 by {
        lemma_follow_inside(g, 0, tokens, len, j);
    }
    assert forall|j: int| 0 <= j < len implies g[path[j] as int].child(#[trigger] tokens[j])
        == Some(path[j + 1]) by {
        lemma_follow_inside(g, 0, tokens, len, j);
        lemma_follow_inside(g, 0, tokens, len, j + 1);
        assert(path[j] == follow(g, 0, tokens, j)->0);
        assert(path[j + 1] == follow(g, 0, tokens, j + 1)->0);
    }
    lemma_follow_inside(g, 0, tokens, len, 0);
}

/// Lookup yields a value exactly where the value is stored under a key that
/// the query matches.
pub proof fn law_lookup_finds_what_matching_keys_hold<K, V>(
    g: Graph<K, V>,
    query: Seq<NodeKey<K>>,
    value: V,
)
    requires
        faithful(g),
        balanced(query),
        query.len() <= usize::MAX,
    ensures
        matched(g, 0, query, 0).contains(value) <==> exists|stored: Seq<NodeKey<K>>| #[trigger]
            holds(g, stored, value) && query_matches(query, stored),
{
    lemma_matched_yields(g, 0, query, 0, value);
    lemma_yields_reaches(g, 0, query, 0, value);
    if reaches_value(g, 0, query, 0, value) {
        let m = choose|m: int|
            0 <= m < g.len() && #[trigger] reaches(g, 0, query, 0, m) && g[m].values.contains(
                value,
            );
        let s = lemma_trace(g, 0, query, 0, m);
        assert(g[m].values.len() > 0);
        let a = choose|a: Seq<NodeKey<K>>| #[trigger] balanced(a) && leads(g, a) == Some(m);
        lemma_one_address(g, a, s);
        assert(holds(g, s, value) && query_matches(query, s));
    }
    if exists|stored: Seq<NodeKey<K>>| #[trigger]
        holds(g, stored, value) && query_matches(query, stored) {
        let stored = choose|stored: Seq<NodeKey<K>>| #[trigger]
            holds(g, stored, value) && query_matches(query, stored);
        lemma_holds_stores(g, stored, value);
        lemma_match_yields(g, stored, path_of(g, stored), value, query, 0, 0);
        assert(path_of(g, stored)[0] == 0);
    }
}

/// A value that is stored under a key sits at the end of the key's path, and
/// the skip edges lie over the key's groups.
pub proof fn lemma_holds_stores<K, V>(g: Graph<K, V>, stored: Seq<NodeKey<K>>, value: V)
    requires
        faithful(g),
        holds(g, stored, value),
    ensures
        stores(g, stored, path_of(g, stored), value),
{
    let path = path_of(g, stored);
    let len = stored.len() as int;
    lemma_path_of(g, stored);
    let m = leads(g, stored)->0;
    assert(g[m].values.len() > 0);
    assert forall|j: int|
        0 <= j < len && (#[trigger] stored[j]) is LeftPar implies g[path[j] as int].skip_pars.contains(
        path[j + span_of(stored, j) + 1],
    ) by {
        lemma_balanced_closes(stored, j);
        assert(skip_over(g, stored, j));
        lemma_follow_inside(g, 0, stored, len, j);
        lemma_follow_inside(g, 0, stored, len, j + span_of(stored, j) + 1);
    }
}

/// The empty trie is the empty set of stored pairs.
pub proof fn lemma_empty_faithful<K, V>()
    ensures
        faithful(empty_graph::<K, V>()),
        forall|tokens: Seq<NodeKey<K>>, value: V| !holds(empty_graph::<K, V>(), tokens, value),
{
    let g = empty_graph::<K, V>();
    assert(g[0] == NodeModel::<K, V>::vacant());
    assert forall|tokens: Seq<NodeKey<K>>, value: V| !holds(g, tokens, value) by {
        if holds(g, tokens, value) {
            let m = leads(g, tokens)->0;
            lemma_follow_inside(g, 0, tokens, tokens.len() as int, tokens.len() as int);
            assert(m == 0);
            let at = choose|at: int| 0 <= at < g[m].values.len() && g[m].values[at] == value;
        }
    }
    assert forall|k: Seq<NodeKey<K>>, i: int|
        balanced(k) && (leads(g, k) matches Some(m) && g[m].values.len() > 0) && 0 <= i < k.len()
            && k[i] is LeftPar implies #[trigger] skip_over(g, k, i) by {
        lemma_follow_inside(g, 0, k, k.len() as int, k.len() as int);
    }
}

} // verus!
