//! Removal in terms of the stored pairs.

use crate::graph::{graph_wf, matched, removed, Graph};
use crate::insertion::{lies_along, skips_laid};
use crate::key::{balanced, closes, lemma_balanced_closes, lemma_span_of, span_of, NodeKey};
use crate::matching::{lemma_child_of_edge, lemma_edge_of_child, node_within, within};
use crate::pruning::{lemma_removed_effect, lemma_vacant_within, pruned_to_vacant};
use crate::reach::{
    key_matches, lemma_reaches_through_child, lemma_reaches_through_skip, next_pos, query_matches,
    reaches,
};
use crate::removal::lemma_removed;
use crate::stored::{
    addressed, detached, faithful, follow, holds, is_group, leads, lemma_follow_inside,
    law_lookup_finds_what_matching_keys_hold, lemma_follow_within, lemma_holds_stores,
    lemma_last_edge, lemma_one_address, lemma_path_of, lemma_trace, path_of, skip_over,
    skips_complete, skips_sound, spans_group, tree_shaped,
};
use vstd::prelude::*;

verus! {

/// A query that matches a key leads along the key's path to the path's end.
pub proof fn lemma_match_reaches<K, V>(
    g: Graph<K, V>,
    stored: Seq<NodeKey<K>>,
    path: Seq<usize>,
    query: Seq<NodeKey<K>>,
    i: int,
    j: int,
)
    requires
        balanced(stored),
        balanced(query),
        lies_along(g, stored, path, stored.len() as int),
        skips_laid(g, stored, path, stored.len() as int),
        0 <= i <= query.len(),
        0 <= j <= stored.len(),
        key_matches(query, i, stored, j),
    ensures
        reaches(g, path[j] as int, query, i, path.last() as int),
    decreases query.len() - i,
{
    let n = path[j] as int;
    assert(path[j] < g.len());
    if i < query.len() {
        let here = stored[j];
        assert(g[n].child(here) == Some(path[j + 1]));
        assert(path[j + 1] < g.len());
        lemma_edge_of_child(g[n], here, path[j + 1]);
        let at = choose|at: int|
            0 <= at < g[n].children.len() && g[n].children[at] == (here, path[j + 1]);
        if query[i] is LeftPar {
            lemma_balanced_closes(query, i);
        }
        if next_pos(query, i, here) matches Some(p) && i < p <= query.len() && key_matches(
            query,
            p,
            stored,
            j + 1,
        ) {
            let p = next_pos(query, i, here)->0;
            lemma_match_reaches(g, stored, path, query, p, j + 1);
            lemma_reaches_through_child(g, n, query, i, at, path.last() as int);
        } else {
            let e = choose|e: int| #[trigger]
                closes(stored, j, e) && key_matches(query, i + 1, stored, e + 1);
            lemma_span_of(stored, j, e);
            assert(g[n].skip_pars.contains(path[e + 1]));
            assert(path[e + 1] < g.len());
            let t = choose|t: int| 0 <= t < g[n].skip_pars.len() && g[n].skip_pars[t] == path[e + 1];
            lemma_match_reaches(g, stored, path, query, i + 1, e + 1);
            lemma_reaches_through_skip(g, n, query, i, t, path.last() as int);
        }
    }
}

/// The labelled edges to a node that is not vacant are still there after
/// edges were pruned.
pub proof fn lemma_path_survives<K, V>(
    g: Graph<K, V>,
    after: Graph<K, V>,
    n: int,
    tokens: Seq<NodeKey<K>>,
    k: int,
)
    requires
        graph_wf(after),
        after.len() == g.len(),
        within(after, g),
        pruned_to_vacant(g, after),
        follow(g, n, tokens, k) matches Some(x) && !after[x].is_vacant(),
    ensures
        follow(after, n, tokens, k) == follow(g, n, tokens, k),
    decreases k,
{
    if k > 0 {
        lemma_follow_inside(g, n, tokens, k, k - 1);
        let p = follow(g, n, tokens, k - 1)->0;
        let x = follow(g, n, tokens, k)->0;
        let c = g[p].child(tokens[k - 1])->0;
        lemma_edge_of_child(g[p], tokens[k - 1], c);
        let j = choose|j: int|
            0 <= j < g[p].children.len() && g[p].children[j] == (tokens[k - 1], c);
        assert(after[p].children.contains(g[p].children[j]));
        let k2 = choose|k2: int|
            0 <= k2 < after[p].children.len() && after[p].children[k2] == (tokens[k - 1], c);
        lemma_path_survives(g, after, n, tokens, k - 1);
        assert(after[p].wf(after.len()));
        lemma_child_of_edge(after[p], after.len(), k2);
    }
}

/// What becomes of a path when edges are pruned: it is still there, or its
/// end is vacant and the edge to its end is gone.
pub proof fn lemma_path_fate<K, V>(
    g: Graph<K, V>,
    after: Graph<K, V>,
    n: int,
    tokens: Seq<NodeKey<K>>,
    k: int,
)
    requires
        graph_wf(after),
        after.len() == g.len(),
        within(after, g),
        pruned_to_vacant(g, after),
        follow(g, n, tokens, k) is Some,
        0 <= k <= tokens.len(),
    ensures
        follow(after, n, tokens, k) == follow(g, n, tokens, k) || (k >= 1
            && after[follow(g, n, tokens, k)->0].is_vacant() && !after[follow(
            g,
            n,
            tokens,
            k - 1,
        )->0].children.contains((tokens[k - 1], follow(g, n, tokens, k)->0 as usize))),
    decreases k,
{
    if k > 0 {
        lemma_follow_inside(g, n, tokens, k, k - 1);
        lemma_follow_inside(g, n, tokens, k, k);
        let p = follow(g, n, tokens, k - 1)->0;
        let x = follow(g, n, tokens, k)->0;
        let c = g[p].child(tokens[k - 1])->0;
        let edge = (tokens[k - 1], c);
        lemma_edge_of_child(g[p], tokens[k - 1], c);
        let j = choose|j: int| 0 <= j < g[p].children.len() && g[p].children[j] == edge;
        assert(after[p].children.contains(g[p].children[j]) || after[g[p].children[j].1 as int].is_vacant());
        lemma_path_fate(g, after, n, tokens, k - 1);
        if after[p].children.contains(edge) {
            assert(!after[p].is_vacant());
            let k2 = choose|k2: int|
                0 <= k2 < after[p].children.len() && after[p].children[k2] == edge;
            assert(after[p].wf(after.len()));
            lemma_child_of_edge(after[p], after.len(), k2);
        }
    } else {
        lemma_follow_inside(g, n, tokens, k, k);
    }
}

/// Removal keeps the trie the set of its stored pairs.
pub proof fn lemma_removed_faithful<K, V>(g: Graph<K, V>, query: Seq<NodeKey<K>>, value: V)
    requires
        faithful(g),
        balanced(query),
        query.len() <= usize::MAX,
    ensures
        faithful(removed(g, 0, query, 0, value).0),
{
    let after = removed(g, 0, query, 0, value).0;
    lemma_removed(g, 0, query, 0, value);
    lemma_removed_effect(g, 0, query, 0, value);
    assert(tree_shaped(after)) by {
        assert forall|p: int, j: int|
            0 <= p < after.len() && 0 <= j < after[p].children.len() implies p < (
        #[trigger] after[p].children[j]).1 by {
            assert(node_within(after[p], g[p]));
            assert(g[p].children.contains(after[p].children[j]));
            let at = choose|at: int|
                0 <= at < g[p].children.len() && g[p].children[at] == after[p].children[j];
            assert(p < g[p].children[at].1);
        }
        assert forall|p: int, j: int, q: int, k: int|
            0 <= p < after.len() && 0 <= j < after[p].children.len() && 0 <= q < after.len() && 0
                <= k < after[q].children.len() && (#[trigger] after[p].children[j]).1 == (
            #[trigger] after[q].children[k]).1 implies p == q by {
            assert(node_within(after[p], g[p]));
            assert(node_within(after[q], g[q]));
            assert(g[p].children.contains(after[p].children[j]));
            assert(g[q].children.contains(after[q].children[k]));
            let a = choose|a: int|
                0 <= a < g[p].children.len() && g[p].children[a] == after[p].children[j];
            let b = choose|b: int|
                0 <= b < g[q].children.len() && g[q].children[b] == after[q].children[k];
            assert(g[p].children[a].1 == g[q].children[b].1);
        }
    }
    assert(addressed(after)) by {
        assert forall|m: int| 0 <= m < after.len() && (#[trigger] after[m]).values.len()
            > 0 implies exists|a: Seq<NodeKey<K>>| #[trigger]
            balanced(a) && leads(after, a) == Some(m) by {
            assert(node_within(after[m], g[m]));
            assert(g[m].values.contains(after[m].values[0]));
            assert(g[m].values.len() > 0);
            let a = choose|a: Seq<NodeKey<K>>| #[trigger] balanced(a) && leads(g, a) == Some(m);
            lemma_path_survives(g, after, 0, a, a.len() as int);
            assert(balanced(a) && leads(after, a) == Some(m));
        }
    }
    assert(skips_sound(after)) by {
        assert forall|s: int, j: int| 0 <= s < after.len() && 0 <= j < after[s].skip_pars.len() implies {
            let e = (#[trigger] after[s].skip_pars[j]) as int;
            detached(after, e) || spans_group(after, s, e)
        } by {
            let e = after[s].skip_pars[j] as int;
            assert(node_within(after[s], g[s]));
            assert(g[s].skip_pars.contains(after[s].skip_pars[j]));
            let at = choose|at: int| 0 <= at < g[s].skip_pars.len() && g[s].skip_pars[at] == e as usize;
            assert(g[s].wf(g.len()));
            assert(g[s].skip_pars[at] < g.len());
            if detached(g, e) {
                lemma_vacant_within(after, g, e);
                assert forall|p: int, x: int|
                    0 <= p < after.len() && 0 <= x < after[p].children.len() implies (
                #[trigger] after[p].children[x]).1 != e by {
                    assert(node_within(after[p], g[p]));
                    assert(g[p].children.contains(after[p].children[x]));
                    let y = choose|y: int|
                        0 <= y < g[p].children.len() && g[p].children[y] == after[p].children[x];
                    assert(g[p].children[y].1 != e);
                }
            } else {
                let t = choose|t: Seq<NodeKey<K>>| #[trigger]
                    is_group(t) && follow(g, s, t, t.len() as int) == Some(e);
                let len = t.len() as int;
                lemma_path_fate(g, after, s, t, len);
                if follow(after, s, t, len) == Some(e) {
                    assert(is_group(t) && follow(after, s, t, len) == Some(e));
                } else {
                    lemma_last_edge(g, s, t);
                    let p0 = follow(g, s, t, len - 1)->0;
                    assert(e != 0);
                    assert forall|p: int, x: int|
                        0 <= p < after.len() && 0 <= x < after[p].children.len() implies (
                    #[trigger] after[p].children[x]).1 != e by {
                        if after[p].children[x].1 == e {
                            assert(node_within(after[p], g[p]));
                            assert(g[p].children.contains(after[p].children[x]));
                            let y = choose|y: int|
                                0 <= y < g[p].children.len() && g[p].children[y]
                                    == after[p].children[x];
                            let z = choose|z: int|
                                0 <= z < g[p0].children.len() && g[p0].children[z] == (
                                    t.last(),
                                    e as usize,
                                );
                            assert(g[p].children[y].1 == g[p0].children[z].1);
                            assert(p == p0);
                            assert(g[p].wf(g.len()));
                            assert(y == z);
                            assert(after[p0].children.contains(after[p].children[x]));
                        }
                    }
                }
            }
        }
    }
    assert(skips_complete(after)) by {
        assert forall|k: Seq<NodeKey<K>>, i: int|
            balanced(k) && (leads(after, k) matches Some(m) && after[m].values.len() > 0) && 0 <= i
                < k.len() && k[i] is LeftPar implies #[trigger] skip_over(after, k, i) by {
            let len = k.len() as int;
            let m = leads(after, k)->0;
            lemma_follow_inside(after, 0, k, len, len);
            lemma_follow_within(after, g, 0, k, len);
            assert(node_within(after[m], g[m]));
            assert(g[m].values.contains(after[m].values[0]));
            lemma_balanced_closes(k, i);
            let behind = i + span_of(k, i) + 1;
            assert(skip_over(g, k, i));
            lemma_follow_inside(after, 0, k, len, i);
            lemma_follow_inside(after, 0, k, len, behind);
            lemma_follow_within(after, g, 0, k, i);
            lemma_follow_within(after, g, 0, k, behind);
            let s = follow(g, 0, k, i)->0;
            let e = follow(g, 0, k, behind)->0;
            let at = choose|at: int| 0 <= at < g[s].skip_pars.len() && g[s].skip_pars[at] == e as usize;
            let target = g[s].skip_pars[at];
            assert(after[s].skip_pars.contains(target) || after[target as int].is_vacant());
            if behind < len {
                lemma_follow_inside(after, 0, k, len, behind + 1);
                let c = after[e].child(k[behind])->0;
                lemma_edge_of_child(after[e], k[behind], c);
            }
        }
    }
}

/// After a removal the stored pairs are those that were stored, but for the
/// value under the keys that the query matches.
pub proof fn law_remove_takes_the_matching_pairs<K, V>(
    g: Graph<K, V>,
    query: Seq<NodeKey<K>>,
    value: V,
    other_key: Seq<NodeKey<K>>,
    other_value: V,
)
    requires
        faithful(g),
        balanced(query),
        query.len() <= usize::MAX,
    ensures
        holds(removed(g, 0, query, 0, value).0, other_key, other_value) <==> holds(
            g,
            other_key,
            other_value,
        ) && !(other_value == value && query_matches(query, other_key)),
{
    let after = removed(g, 0, query, 0, value).0;
    let len = other_key.len() as int;
    lemma_removed(g, 0, query, 0, value);
    lemma_removed_effect(g, 0, query, 0, value);
    if holds(after, other_key, other_value) {
        let m = leads(after, other_key)->0;
        lemma_follow_inside(after, 0, other_key, len, len);
        lemma_follow_within(after, g, 0, other_key, len);
        assert(node_within(after[m], g[m]));
        let at = choose|at: int| 0 <= at < after[m].values.len() && after[m].values[at] == other_value;
        assert(g[m].values.contains(after[m].values[at]));
        if other_value == value && query_matches(query, other_key) {
            lemma_holds_stores(g, other_key, other_value);
            lemma_path_of(g, other_key);
            lemma_match_reaches(g, other_key, path_of(g, other_key), query, 0, 0);
            assert(path_of(g, other_key)[0] == 0);
            assert(reaches(g, 0, query, 0, m));
        }
    }
    if holds(g, other_key, other_value) && !(other_value == value && query_matches(
        query,
        other_key,
    )) {
        let m = leads(g, other_key)->0;
        lemma_follow_inside(g, 0, other_key, len, len);
        let at = choose|at: int| 0 <= at < g[m].values.len() && g[m].values[at] == other_value;
        if other_value == value {
            if !after[m].values.contains(value) {
                assert(reaches(g, 0, query, 0, m));
                assert(!g[m].is_vacant());
                let s = lemma_trace(g, 0, query, 0, m);
                lemma_one_address(g, other_key, s);
            }
        } else {
            assert(g[m].values[at] != value);
            assert(after[m].values.contains(g[m].values[at]));
        }
        let x = choose|x: int| 0 <= x < after[m].values.len() && after[m].values[x] == other_value;
        assert(!after[m].is_vacant());
        lemma_path_survives(g, after, 0, other_key, len);
    }
}

/// A removal touches no other value: whether lookup with any key yields
/// another value than the removed one does not change.
pub proof fn law_remove_keeps_other_values<K, V>(
    g: Graph<K, V>,
    key: Seq<NodeKey<K>>,
    value: V,
    query: Seq<NodeKey<K>>,
    other_value: V,
)
    requires
        faithful(g),
        balanced(key),
        key.len() <= usize::MAX,
        balanced(query),
        query.len() <= usize::MAX,
        other_value != value,
    ensures
        matched(removed(g, 0, key, 0, value).0, 0, query, 0).contains(other_value) <==> matched(
            g,
            0,
            query,
            0,
        ).contains(other_value),
{
    let after = removed(g, 0, key, 0, value).0;
    lemma_removed_faithful(g, key, value);
    law_lookup_finds_what_matching_keys_hold(g, query, other_value);
    law_lookup_finds_what_matching_keys_hold(after, query, other_value);
    if exists|stored: Seq<NodeKey<K>>| #[trigger]
        holds(g, stored, other_value) && query_matches(query, stored) {
        let stored = choose|stored: Seq<NodeKey<K>>| #[trigger]
            holds(g, stored, other_value) && query_matches(query, stored);
        law_remove_takes_the_matching_pairs(g, key, value, stored, other_value);
        assert(holds(after, stored, other_value) && query_matches(query, stored));
    }
    if exists|stored: Seq<NodeKey<K>>| #[trigger]
        holds(after, stored, other_value) && query_matches(query, stored) {
        let stored = choose|stored: Seq<NodeKey<K>>| #[trigger]
            holds(after, stored, other_value) && query_matches(query, stored);
        law_remove_takes_the_matching_pairs(g, key, value, stored, other_value);
        assert(holds(g, stored, other_value) && query_matches(query, stored));
    }
}

} // verus!
