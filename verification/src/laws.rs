//! What holds of insertion, lookup and removal together.

use crate::graph::{advances, graph_wf, inserted, matched, removed, walked, Graph, Successor};
use crate::insertion::{lemma_inserted, stores, walk_fits};
use crate::key::{balanced, closes, lemma_balanced_closes, lemma_span_of, span_of, NodeKey};
use crate::reach::{key_matches, query_matches};
use crate::matching::{
    allowed, lemma_edge_of_child, lemma_matched_yields, lemma_yields_within, yields,
};
use crate::removal::lemma_removed;
use vstd::prelude::*;

verus! {

/// Whether a key is one token that is no grouping marker, or one group.
pub open spec fn single_item<K>(tokens: Seq<NodeKey<K>>) -> bool {
    ||| tokens.len() == 1 && !tokens[0].is_par()
    ||| tokens.len() >= 2 && tokens[0] is LeftPar && span_of(tokens, 0) == tokens.len() - 1
}

/// Every key matches itself from any position on.
pub proof fn lemma_matches_itself<K>(tokens: Seq<NodeKey<K>>, i: int)
    requires
        0 <= i <= tokens.len(),
    ensures
        key_matches(tokens, i, tokens, i),
    decreases tokens.len() - i,
{
    if i < tokens.len() {
        lemma_matches_itself(tokens, i + 1);
    }
}

/// Where a stored key's path with its skip edges lies in the graph and ends
/// at a node with the value, the matching rules lead every query that matches
/// the key to the value.
pub proof fn lemma_match_yields<K, V>(
    g: Graph<K, V>,
    stored: Seq<NodeKey<K>>,
    path: Seq<usize>,
    value: V,
    query: Seq<NodeKey<K>>,
    i: int,
    j: int,
)
    requires
        graph_wf(g),
        balanced(stored),
        balanced(query),
        query.len() <= usize::MAX,
        stores(g, stored, path, value),
        0 <= i <= query.len(),
        0 <= j <= stored.len(),
        key_matches(query, i, stored, j),
    ensures
        yields(g, path[j] as int, query, i, value),
    decreases query.len() - i,
{
    let n = path[j] as int;
    assert(path[j] < g.len());
    if i < query.len() {
        let next = (i + 1) as usize;
        let here = stored[j];
        assert(g[n].child(here) == Some(path[j + 1]));
        assert(path[j + 1] < g.len());
        let down = Successor { node: path[j + 1], pos: next, via_skip: false };
        match query[i] {
            NodeKey::Exact(_) => {
                lemma_match_yields(g, stored, path, value, query, i + 1, j + 1);
                assert(allowed(g, n, query, i, down));
                assert(advances(g, query, i, down));
            },
            NodeKey::RightPar => {
                lemma_match_yields(g, stored, path, value, query, i + 1, j + 1);
                assert(allowed(g, n, query, i, down));
                assert(advances(g, query, i, down));
            },
            NodeKey::LeftPar => {
                lemma_balanced_closes(query, i);
                if here is Wildcard {
                    let after = i + span_of(query, i) + 1;
                    let over = Successor { node: path[j + 1], pos: after as usize, via_skip: false };
                    lemma_match_yields(g, stored, path, value, query, after, j + 1);
                    assert(allowed(g, n, query, i, over));
                    assert(advances(g, query, i, over));
                } else {
                    lemma_match_yields(g, stored, path, value, query, i + 1, j + 1);
                    assert(allowed(g, n, query, i, down));
                    assert(advances(g, query, i, down));
                }
            },
            NodeKey::Wildcard => {
                if here is LeftPar {
                    lemma_balanced_closes(stored, j);
                    let e = choose|e: int|
                        #[trigger] closes(stored, j, e) && key_matches(query, i + 1, stored, e + 1);
                    lemma_span_of(stored, j, e);
                    let behind = j + span_of(stored, j) + 1;
                    assert(g[n].skip_pars.contains(path[behind]));
                    assert(path[behind] < g.len());
                    let jump = Successor { node: path[behind], pos: next, via_skip: true };
                    lemma_match_yields(g, stored, path, value, query, i + 1, behind);
                    assert(allowed(g, n, query, i, jump));
                    assert(advances(g, query, i, jump));
                } else {
                    lemma_edge_of_child(g[n], here, path[j + 1]);
                    let at = choose|at: int|
                        0 <= at < g[n].children.len() && g[n].children[at] == (here, path[j + 1]);
                    assert(g[n].children[at].1 == down.node);
                    lemma_match_yields(g, stored, path, value, query, i + 1, j + 1);
                    assert(allowed(g, n, query, i, down));
                    assert(advances(g, query, i, down));
                }
            },
        }
    }
}

/// After a value is inserted under a key, lookup with every key that matches
/// it yields the value.
pub proof fn law_matching_query_finds_insert<K, V>(
    g: Graph<K, V>,
    stored: Seq<NodeKey<K>>,
    value: V,
    query: Seq<NodeKey<K>>,
)
    requires
        graph_wf(g),
        balanced(stored),
        balanced(query),
        query_matches(query, stored),
        walk_fits(g, stored, stored.len() as int),
        query.len() <= usize::MAX,
    ensures
        matched(inserted(g, stored, value), 0, query, 0).contains(value),
{
    let after = inserted(g, stored, value);
    let path = walked(g, stored, stored.len() as int).1;
    lemma_inserted(g, stored, value);
    lemma_match_yields(after, stored, path, value, query, 0, 0);
    lemma_matched_yields(after, 0, query, 0, value);
}

/// After a value is inserted under a key, lookup with the same key yields
/// the value.
pub proof fn law_insert_then_get<K, V>(g: Graph<K, V>, key: Seq<NodeKey<K>>, value: V)
    requires
        graph_wf(g),
        balanced(key),
        key.len() <= usize::MAX,
        walk_fits(g, key, key.len() as int),
    ensures
        matched(inserted(g, key, value), 0, key, 0).contains(value),
{
    lemma_matches_itself(key, 0);
    law_matching_query_finds_insert(g, key, value, key);
}

/// What lookup yields it still yields after an insertion.
pub proof fn law_insert_keeps_lookups<K, V>(
    g: Graph<K, V>,
    key: Seq<NodeKey<K>>,
    value: V,
    query: Seq<NodeKey<K>>,
    found: V,
)
    requires
        graph_wf(g),
        balanced(key),
        walk_fits(g, key, key.len() as int),
        matched(g, 0, query, 0).contains(found),
    ensures
        matched(inserted(g, key, value), 0, query, 0).contains(found),
{
    let after = inserted(g, key, value);
    lemma_inserted(g, key, value);
    lemma_matched_yields(g, 0, query, 0, found);
    lemma_yields_within(g, after, 0, query, 0, found);
    lemma_matched_yields(after, 0, query, 0, found);
}

/// A key that is one token other than a grouping marker, or one group,
/// matches the key that is one wildcard.
pub proof fn lemma_single_item_matches_wildcard<K>(query: Seq<NodeKey<K>>)
    requires
        balanced(query),
        single_item(query),
    ensures
        query_matches(query, seq![NodeKey::<K>::Wildcard]),
{
    let stored = seq![NodeKey::<K>::Wildcard];
    assert(stored[0] is Wildcard);
    if query.len() == 1 {
        assert(key_matches(query, 1, stored, 1));
    } else {
        assert(key_matches(query, query.len() as int, stored, 1));
    }
}

/// After a value is inserted under the wildcard, lookup with every key that
/// is one token other than a grouping marker, or one group, yields the value.
pub proof fn law_wildcard_insert_found_by_single_item<K, V>(
    g: Graph<K, V>,
    value: V,
    query: Seq<NodeKey<K>>,
)
    requires
        graph_wf(g),
        balanced(query),
        single_item(query),
        walk_fits(g, seq![NodeKey::<K>::Wildcard], 1),
        query.len() <= usize::MAX,
    ensures
        matched(inserted(g, seq![NodeKey::<K>::Wildcard], value), 0, query, 0).contains(value),
{
    let stored = seq![NodeKey::<K>::Wildcard];
    lemma_single_item_matches_wildcard(query);
    assert(balanced(stored)) by {
        reveal_with_fuel(crate::key::depth, 3);
        assert forall|n: int| 0 <= n <= stored.len() implies #[trigger] crate::key::depth(
            stored,
            n,
        ) >= 0 by {
            if n == 1 {
                assert(crate::key::depth(stored, 1) == crate::key::depth(stored, 0)
                    + crate::key::nesting_step(stored[0]));
            }
        }
    }
    law_matching_query_finds_insert(g, stored, value, query);
}

/// Removal says that it removed the value exactly where lookup with the same
/// key yielded the value just before.
pub proof fn law_remove_reports_what_get_found<K, V>(
    g: Graph<K, V>,
    key: Seq<NodeKey<K>>,
    value: V,
)
    requires
        graph_wf(g),
    ensures
        removed(g, 0, key, 0, value).1 <==> matched(g, 0, key, 0).contains(value),
{
    lemma_removed(g, 0, key, 0, value);
    lemma_matched_yields(g, 0, key, 0, value);
}

/// After a removal, lookup with the same key no longer yields the value:
/// removal takes it out of every node that the key leads to.
pub proof fn law_remove_then_get<K, V>(g: Graph<K, V>, key: Seq<NodeKey<K>>, value: V)
    requires
        graph_wf(g),
    ensures
        !matched(removed(g, 0, key, 0, value).0, 0, key, 0).contains(value),
{
    lemma_removed(g, 0, key, 0, value);
    lemma_matched_yields(removed(g, 0, key, 0, value).0, 0, key, 0, value);
}

/// A removal that finds nothing to remove leaves the trie as it was.
pub proof fn law_remove_nothing_changes_nothing<K, V>(
    g: Graph<K, V>,
    key: Seq<NodeKey<K>>,
    value: V,
)
    requires
        graph_wf(g),
        !matched(g, 0, key, 0).contains(value),
    ensures
        removed(g, 0, key, 0, value).0 == g,
{
    lemma_removed(g, 0, key, 0, value);
    lemma_matched_yields(g, 0, key, 0, value);
}

/// A removal adds nothing: what lookup yields afterwards it yielded before.
pub proof fn law_remove_adds_nothing<K, V>(
    g: Graph<K, V>,
    key: Seq<NodeKey<K>>,
    value: V,
    query: Seq<NodeKey<K>>,
    found: V,
)
    requires
        graph_wf(g),
        matched(removed(g, 0, key, 0, value).0, 0, query, 0).contains(found),
    ensures
        matched(g, 0, query, 0).contains(found),
{
    let after = removed(g, 0, key, 0, value).0;
    lemma_removed(g, 0, key, 0, value);
    lemma_matched_yields(after, 0, query, 0, found);
    lemma_yields_within(after, g, 0, query, 0, found);
    lemma_matched_yields(g, 0, query, 0, found);
}

} // verus!
