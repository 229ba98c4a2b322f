//! Insertion in terms of the stored pairs.

use crate::graph::{graph_wf, including, inserted, walked, Graph};
use crate::growth::{lemma_inserted_frame, lemma_inserted_off_path, lemma_walked_frame, on_path};
use crate::insertion::{lemma_inserted, lemma_walked, lies_along, walk_fits};
use crate::key::{balanced, closes, lemma_balanced_closes, span_of, NodeKey};
use crate::matching::node_within;
use crate::stored::{
    addressed, detached, faithful, follow, holds, is_group, leads, lemma_follow_inside,
    lemma_follow_within, lemma_one_address, skip_over, skips_complete, skips_sound, spans_group,
    tree_shaped,
};
use vstd::prelude::*;

verus! {

/// A key that lies along a path leads along it.
pub proof fn lemma_follow_along<K, V>(
    g: Graph<K, V>,
    tokens: Seq<NodeKey<K>>,
    path: Seq<usize>,
    k: int,
    j: int,
)
    requires
        lies_along(g, tokens, path, k),
        0 <= j <= k,
    ensures
        follow(g, 0, tokens, j) == Some(path[j] as int),
    decreases j,
{
    if j > 0 {
        lemma_follow_along(g, tokens, path, k, j - 1);
        assert(g[path[j - 1] as int].child(tokens[j - 1]) == Some(path[j]));
        assert(path[j] < g.len());
    } else {
        assert(path[0] < g.len());
    }
}

/// A piece of a key that lies along a path leads from where it begins on
/// the path to where it ends.
pub proof fn lemma_follow_piece<K, V>(
    g: Graph<K, V>,
    tokens: Seq<NodeKey<K>>,
    path: Seq<usize>,
    a: int,
    b: int,
)
    requires
        lies_along(g, tokens, path, tokens.len() as int),
        0 <= a <= b <= tokens.len(),
    ensures
        follow(g, path[a] as int, tokens.subrange(a, b), b - a) == Some(path[b] as int),
    decreases b - a,
{
    let piece = tokens.subrange(a, b);
    assert(path[a] < g.len());
    if a < b {
        lemma_follow_piece(g, tokens, path, a, b - 1);
        let shorter = tokens.subrange(a, b - 1);
        crate::stored::lemma_follow_prefix(g, path[a] as int, piece, shorter, b - 1 - a);
        assert(piece[b - 1 - a] == tokens[b - 1]);
        assert(g[path[b - 1] as int].child(tokens[b - 1]) == Some(path[b]));
        assert(path[b] < g.len());
    }
}

/// A group of a key is a group by itself.
pub proof fn lemma_group_of_key<K>(tokens: Seq<NodeKey<K>>, i: int, e: int)
    requires
        closes(tokens, i, e),
    ensures
        is_group(tokens.subrange(i, e + 1)),
{
    let t = tokens.subrange(i, e + 1);
    assert(t.subrange(1, t.len() - 1) =~= tokens.subrange(i + 1, e));
    assert(t[0] == tokens[i]);
    assert(t[t.len() - 1] == tokens[e]);
}

/// Insertion keeps the trie the set of its stored pairs.
pub proof fn lemma_inserted_faithful<K, V>(g: Graph<K, V>, tokens: Seq<NodeKey<K>>, value: V)
    requires
        faithful(g),
        balanced(tokens),
        walk_fits(g, tokens, tokens.len() as int),
    ensures
        faithful(inserted(g, tokens, value)),
{
    let len = tokens.len() as int;
    let (g1, path) = walked(g, tokens, len);
    let after = inserted(g, tokens, value);
    let last = path.last() as int;
    lemma_inserted(g, tokens, value);
    lemma_walked(g, tokens, len);
    lemma_walked_frame(g, tokens, len);
    lemma_inserted_frame(g, tokens, value);
    lemma_follow_along(after, tokens, path, len, len);
    assert(tree_shaped(after)) by {
        assert forall|p: int, j: int|
            0 <= p < after.len() && 0 <= j < after[p].children.len() implies p < (
        #[trigger] after[p].children[j]).1 by {
            assert(after[p].children[j] == g1[p].children[j]);
        }
        assert forall|p: int, j: int, q: int, k: int|
            0 <= p < after.len() && 0 <= j < after[p].children.len() && 0 <= q < after.len() && 0
                <= k < after[q].children.len() && (#[trigger] after[p].children[j]).1 == (
            #[trigger] after[q].children[k]).1 implies p == q by {
            assert(after[p].children[j] == g1[p].children[j]);
            assert(after[q].children[k] == g1[q].children[k]);
        }
    }
    assert forall|m: int| 0 <= m < after.len() && m != last implies (#[trigger] after[m]).values
        == (if m < g.len() {
        g[m].values
    } else {
        Seq::empty()
    }) by {
        assert(after[m].values == g1[m].values);
        if m >= g.len() {
            assert(g1[m].values.len() == 0);
            assert(g1[m].values =~= Seq::empty());
        }
    }
    assert(addressed(after)) by {
        assert forall|m: int| 0 <= m < after.len() && (#[trigger] after[m]).values.len()
            > 0 implies exists|a: Seq<NodeKey<K>>| #[trigger]
            balanced(a) && leads(after, a) == Some(m) by {
            if m == last {
                assert(balanced(tokens) && leads(after, tokens) == Some(m));
            } else {
                assert(g[m].values.len() > 0);
                let a = choose|a: Seq<NodeKey<K>>| #[trigger] balanced(a) && leads(g, a) == Some(m);
                lemma_follow_within(g, after, 0, a, a.len() as int);
                assert(balanced(a) && leads(after, a) == Some(m));
            }
        }
    }
    assert(skips_sound(after)) by {
        assert forall|s: int, j: int| 0 <= s < after.len() && 0 <= j < after[s].skip_pars.len() implies {
            let e = (#[trigger] after[s].skip_pars[j]) as int;
            detached(after, e) || spans_group(after, s, e)
        } by {
            let e = after[s].skip_pars[j];
            if g1[s].skip_pars.contains(e) {
                assert(s < g.len() && g[s].skip_pars == g1[s].skip_pars) by {
                    if s >= g.len() {
                        assert(g1[s].skip_pars.len() == 0);
                    }
                }
                let at = choose|at: int| 0 <= at < g[s].skip_pars.len() && g[s].skip_pars[at] == e;
                assert(g[s].wf(g.len()));
                assert(g[s].skip_pars[at] < g.len());
                if spans_group(g, s, e as int) {
                    let t = choose|t: Seq<NodeKey<K>>| #[trigger]
                        is_group(t) && follow(g, s, t, t.len() as int) == Some(e as int);
                    lemma_follow_within(g, after, s, t, t.len() as int);
                    assert(is_group(t) && follow(after, s, t, t.len() as int) == Some(e as int));
                } else {
                    assert(detached(g, e as int));
                    lemma_detached_stays(g, tokens, value, e as int);
                }
            } else {
                let i = choose|i: int|
                    0 <= i < tokens.len() && (#[trigger] tokens[i]) is LeftPar && path[i] == s
                        && path[i + span_of(tokens, i) + 1] == e;
                lemma_balanced_closes(tokens, i);
                let behind = i + span_of(tokens, i) + 1;
                let t = tokens.subrange(i, behind);
                lemma_group_of_key(tokens, i, behind - 1);
                lemma_follow_piece(after, tokens, path, i, behind);
                assert(is_group(t) && follow(after, s, t, t.len() as int) == Some(e as int));
            }
        }
    }
    assert(skips_complete(after)) by {
        assert forall|k: Seq<NodeKey<K>>, i: int|
            balanced(k) && (leads(after, k) matches Some(m) && after[m].values.len() > 0) && 0 <= i
                < k.len() && k[i] is LeftPar implies #[trigger] skip_over(after, k, i) by {
            let m = leads(after, k)->0;
            lemma_balanced_closes(k, i);
            let behind = i + span_of(k, i) + 1;
            if m == last {
                lemma_one_address(after, tokens, k);
                lemma_follow_along(after, tokens, path, len, i);
                lemma_follow_along(after, tokens, path, len, behind);
                assert(after[path[i] as int].skip_pars.contains(path[behind]));
            } else {
                lemma_follow_inside(after, 0, k, k.len() as int, k.len() as int);
                assert(g[m].values.len() > 0);
                let a = choose|a: Seq<NodeKey<K>>| #[trigger] balanced(a) && leads(g, a) == Some(m);
                lemma_follow_within(g, after, 0, a, a.len() as int);
                lemma_one_address(after, a, k);
                assert(skip_over(g, k, i));
                lemma_follow_inside(g, 0, k, k.len() as int, i);
                lemma_follow_inside(g, 0, k, k.len() as int, behind);
                lemma_follow_within(g, after, 0, k, i);
                lemma_follow_within(g, after, 0, k, behind);
                let s = follow(g, 0, k, i)->0;
                let e = follow(g, 0, k, behind)->0;
                assert(node_within(g[s], after[s]));
                let at = choose|at: int|
                    0 <= at < g[s].skip_pars.len() && g[s].skip_pars[at] == e as usize;
                assert(after[s].skip_pars.contains(g[s].skip_pars[at]));
            }
        }
    }
}

/// A node that nothing is stored in stays so through an insertion.
pub proof fn lemma_detached_stays<K, V>(
    g: Graph<K, V>,
    tokens: Seq<NodeKey<K>>,
    value: V,
    e: int,
)
    requires
        graph_wf(g),
        balanced(tokens),
        walk_fits(g, tokens, tokens.len() as int),
        0 <= e < g.len(),
        detached(g, e),
    ensures
        detached(inserted(g, tokens, value), e),
{
    let len = tokens.len() as int;
    let (g1, path) = walked(g, tokens, len);
    let after = inserted(g, tokens, value);
    lemma_walked(g, tokens, len);
    lemma_walked_frame(g, tokens, len);
    lemma_inserted_frame(g, tokens, value);
    assert(!on_path(path, len, e)) by {
        if on_path(path, len, e) {
            let j = choose|j: int| 0 <= j <= len && #[trigger] path[j] == e;
            if j >= 1 {
                let node = path[j];
                let (p, at) = choose|p: int, at: int|
                    0 <= p < g.len() && 0 <= at < g[p].children.len() && (
                    #[trigger] g[p].children[at]).1 == node;
                assert(g[p].children[at].1 != e);
            }
        }
    }
    lemma_inserted_off_path(g, tokens, value, e);
    assert forall|p: int, j: int|
        0 <= p < after.len() && 0 <= j < after[p].children.len() implies (
    #[trigger] after[p].children[j]).1 != e by {
        let edge = g1[p].children[j];
        assert(after[p].children[j] == edge);
        if edge.1 < g.len() {
            assert(p < g.len() && g[p].children.contains(edge));
            let at = choose|at: int| 0 <= at < g[p].children.len() && g[p].children[at] == edge;
            assert(g[p].children[at].1 != e);
        }
    }
}

/// After an insertion the stored pairs are those that were stored and the
/// inserted one.
pub proof fn law_insert_stores_one_pair_more<K, V>(
    g: Graph<K, V>,
    key: Seq<NodeKey<K>>,
    value: V,
    other_key: Seq<NodeKey<K>>,
    other_value: V,
)
    requires
        faithful(g),
        balanced(key),
        walk_fits(g, key, key.len() as int),
    ensures
        holds(inserted(g, key, value), other_key, other_value) <==> holds(g, other_key, other_value)
            || (other_key == key && other_value == value),
{
    let len = key.len() as int;
    let (g1, path) = walked(g, key, len);
    let after = inserted(g, key, value);
    let last = path.last() as int;
    lemma_inserted(g, key, value);
    lemma_inserted_faithful(g, key, value);
    lemma_walked(g, key, len);
    lemma_walked_frame(g, key, len);
    lemma_inserted_frame(g, key, value);
    lemma_follow_along(after, key, path, len, len);
    if holds(g, other_key, other_value) {
        lemma_follow_within(g, after, 0, other_key, other_key.len() as int);
        let m = leads(g, other_key)->0;
        lemma_follow_inside(g, 0, other_key, other_key.len() as int, other_key.len() as int);
        assert(node_within(g[m], after[m]));
        let at = choose|at: int| 0 <= at < g[m].values.len() && g[m].values[at] == other_value;
        assert(after[m].values.contains(g[m].values[at]));
    }
    if holds(after, other_key, other_value) && !(other_key == key && other_value == value) {
        let m = leads(after, other_key)->0;
        lemma_follow_inside(after, 0, other_key, other_key.len() as int, other_key.len() as int);
        if m == last {
            lemma_one_address(after, key, other_key);
        }
        assert(m < g.len() && g[m].values.contains(other_value)) by {
            if m == last {
                assert(after[m].values == including(g1[m].values, value));
                if !g1[m].values.contains(other_value) {
                    let all = g1[m].values.push(value);
                    let at = choose|at: int| 0 <= at < all.len() && all[at] == other_value;
                    assert(at < g1[m].values.len());
                    assert(g1[m].values[at] == other_value);
                }
                assert(g1[m].values.contains(other_value));
            } else {
                assert(after[m].values == g1[m].values);
            }
            if m >= g.len() {
                assert(g1[m].values.len() == 0);
                let at = choose|at: int|
                    0 <= at < g1[m].values.len() && g1[m].values[at] == other_value;
            }
        }
        let at = choose|at: int| 0 <= at < g[m].values.len() && g[m].values[at] == other_value;
        assert(g[m].values.len() > 0);
        let a = choose|a: Seq<NodeKey<K>>| #[trigger] balanced(a) && leads(g, a) == Some(m);
        lemma_follow_within(g, after, 0, a, a.len() as int);
        lemma_one_address(after, a, other_key);
    }
}

} // verus!
