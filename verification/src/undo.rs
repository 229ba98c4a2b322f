//! One insertion into the empty trie, and its removal.

use crate::graph::{
    advances, empty_graph, grown, including, inserted, node_count, reachable, reachable_nodes,
    reached_within, removed, removed_through, successors, through, through_plain_children,
    through_skips, unlinked, walked, with_skip_pars, with_skips, with_values, without, Graph,
    NodeModel, Successor,
};
use crate::key::{balanced, lemma_balanced_closes, span_of, NodeKey};
use vstd::prelude::*;

verus! {

/// No group opens behind the key's first token.
pub open spec fn groups_only_in_front<K>(tokens: Seq<NodeKey<K>>) -> bool {
    forall|j: int| 1 <= j < tokens.len() ==> !((#[trigger] tokens[j]) is LeftPar)
}

/// The nodes that an insertion's walk along the first `m` tokens adds to the
/// empty trie: a chain, each node with the one edge to the next.
pub open spec fn stem<K, V>(tokens: Seq<NodeKey<K>>, m: int) -> Graph<K, V> {
    Seq::new(
        (m + 1) as nat,
        |j: int|
            NodeModel {
                children: if j < m {
                    seq![(tokens[j], (j + 1) as usize)]
                } else {
                    Seq::empty()
                },
                skip_pars: Seq::empty(),
                values: Seq::empty(),
            },
    )
}

/// The first `n` node names in order.
pub open spec fn in_order(n: int) -> Seq<usize> {
    Seq::new(n as nat, |j: int| j as usize)
}

/// The chain of a key with the value at its end and the skip edges over the
/// groups that open among the first `k` tokens.
pub open spec fn laced<K, V>(tokens: Seq<NodeKey<K>>, value: V, k: int) -> Graph<K, V> {
    Seq::new(
        (tokens.len() + 1) as nat,
        |j: int|
            NodeModel {
                children: if j < tokens.len() {
                    seq![(tokens[j], (j + 1) as usize)]
                } else {
                    Seq::empty()
                },
                skip_pars: if j < k && tokens[j] is LeftPar {
                    seq![(j + span_of(tokens, j) + 1) as usize]
                } else {
                    Seq::empty()
                },
                values: if j == tokens.len() {
                    seq![value]
                } else {
                    Seq::empty()
                },
            },
    )
}

/// What one insertion makes of the empty trie.
pub open spec fn chain<K, V>(tokens: Seq<NodeKey<K>>, value: V) -> Graph<K, V> {
    laced(tokens, value, tokens.len() as int)
}

/// The chain cut behind node `j`: the nodes before it as they are, node `j`
/// without its edge and value, the nodes behind it vacant.
pub open spec fn cut<K, V>(tokens: Seq<NodeKey<K>>, value: V, j: int) -> Graph<K, V> {
    let whole = chain(tokens, value);
    Seq::new(
        (tokens.len() + 1) as nat,
        |m: int|
            if m < j {
                whole[m]
            } else if m == j {
                NodeModel {
                    children: Seq::empty(),
                    skip_pars: whole[m].skip_pars,
                    values: Seq::empty(),
                }
            } else {
                NodeModel::vacant()
            },
    )
}

/// A node with one edge finds the child under that edge's label and none
/// under another.
pub proof fn lemma_only_child<K, V>(node: NodeModel<K, V>, label: NodeKey<K>)
    requires
        node.children.len() == 1,
    ensures
        node.child(label) == if label == node.children[0].0 {
            Some(node.children[0].1)
        } else {
            None
        },
{
    if label == node.children[0].0 {
        assert(node.has_child(label));
    }
}

/// The walk along the first `m` tokens makes the stem out of the empty trie.
pub proof fn lemma_walked_from_empty<K, V>(tokens: Seq<NodeKey<K>>, m: int)
    requires
        0 <= m <= tokens.len() < usize::MAX,
    ensures
        walked(empty_graph::<K, V>(), tokens, m) == (stem::<K, V>(tokens, m), in_order(m + 1)),
    decreases m,
{
    if m == 0 {
        assert(stem::<K, V>(tokens, 0) =~= empty_graph::<K, V>());
        assert(in_order(1) =~= seq![0usize]);
    } else {
        lemma_walked_from_empty::<K, V>(tokens, m - 1);
        let g1 = stem::<K, V>(tokens, m - 1);
        let trail = in_order(m);
        assert(trail.last() == (m - 1) as usize);
        let label = tokens[m - 1];
        assert(g1[m - 1].children.len() == 0);
        assert(!g1[m - 1].has_child(label));
        let (g2, child) = grown(g1, m - 1, label);
        assert(child == m as usize);
        assert(g1[m - 1].children.push((label, child)) =~= seq![(label, child)]);
        assert(g2 =~= stem::<K, V>(tokens, m));
        assert(trail.push(child) =~= in_order(m + 1));
    }
}

/// Laying the skip edges over the groups among the first `k` tokens of a
/// chain.
pub proof fn lemma_skips_on_chain<K, V>(tokens: Seq<NodeKey<K>>, value: V, k: int)
    requires
        balanced(tokens),
        0 <= k <= tokens.len() < usize::MAX,
    ensures
        with_skips(laced(tokens, value, 0), tokens, in_order(tokens.len() as int + 1), k) == laced(
            tokens,
            value,
            k,
        ),
    decreases k,
{
    if k > 0 {
        lemma_skips_on_chain(tokens, value, k - 1);
        let g1 = laced(tokens, value, k - 1);
        let path = in_order(tokens.len() as int + 1);
        if tokens[k - 1] is LeftPar {
            lemma_balanced_closes(tokens, k - 1);
            let from = path[k - 1] as int;
            let to = path[k + span_of(tokens, k - 1)];
            assert(from == k - 1);
            assert(to == (k + span_of(tokens, k - 1)) as usize);
            assert(g1[from].skip_pars =~= Seq::empty());
            assert(including(g1[from].skip_pars, to) =~= seq![to]);
            assert(with_skip_pars(g1, from, seq![to]) =~= laced(tokens, value, k));
        } else {
            assert(g1 =~= laced(tokens, value, k));
        }
    }
}

/// One insertion makes the key's chain out of the empty trie.
pub proof fn lemma_inserted_into_empty<K, V>(tokens: Seq<NodeKey<K>>, value: V)
    requires
        balanced(tokens),
        tokens.len() < usize::MAX,
    ensures
        inserted(empty_graph::<K, V>(), tokens, value) == chain(tokens, value),
{
    let len = tokens.len() as int;
    lemma_walked_from_empty::<K, V>(tokens, len);
    let g1 = stem::<K, V>(tokens, len);
    let path = in_order(len + 1);
    assert(path.last() == len as usize);
    assert(g1[len].values =~= Seq::empty());
    assert(including(g1[len].values, value) =~= seq![value]);
    let g2 = with_values(g1, len, seq![value]);
    assert(g2 =~= laced(tokens, value, 0));
    lemma_skips_on_chain(tokens, value, len);
}

/// On its chain a key has one way on from each node: to the next.
pub proof fn lemma_successors_on_chain<K, V>(tokens: Seq<NodeKey<K>>, value: V, j: int)
    requires
        balanced(tokens),
        0 <= j < tokens.len() < usize::MAX,
    ensures
        successors(chain(tokens, value), j, tokens, j) == seq![
            Successor { node: (j + 1) as usize, pos: (j + 1) as usize, via_skip: false },
        ],
{
    let g = chain(tokens, value);
    let node = g[j];
    let next = (j + 1) as usize;
    let only = Successor { node: next, pos: next, via_skip: false };
    assert(node.children =~= seq![(tokens[j], next)]);
    assert(node.children[0] == (tokens[j], next));
    lemma_only_child(node, tokens[j]);
    lemma_only_child(node, NodeKey::Wildcard);
    lemma_only_child(node, NodeKey::LeftPar);
    lemma_only_child(node, NodeKey::RightPar);
    match tokens[j] {
        NodeKey::Exact(_) => {
            assert(through(node.child(tokens[j]), next) + through(
                node.child(NodeKey::Wildcard),
                next,
            ) =~= seq![only]);
        },
        NodeKey::RightPar => {},
        NodeKey::LeftPar => {
            let after = (j + span_of(tokens, j) + 1) as usize;
            assert(through(node.child(NodeKey::Wildcard), after) + through(
                node.child(NodeKey::LeftPar),
                next,
            ) =~= seq![only]);
        },
        NodeKey::Wildcard => {
            reveal_with_fuel(through_plain_children, 2);
            assert(through_plain_children(node.children, next, 1) =~= seq![only]);
            assert(node.skip_pars =~= Seq::empty());
            assert(through_skips(node.skip_pars, next) =~= Seq::empty());
            assert(through_plain_children(node.children, next, 1) + through_skips(
                node.skip_pars,
                next,
            ) =~= seq![only]);
        },
    }
}

/// The last position behind the first and before `k` at which a group
/// opens; zero where none opens there.
pub open spec fn last_group<K>(tokens: Seq<NodeKey<K>>, k: int) -> int
    decreases k,
{
    if k <= 1 {
        0
    } else if tokens[k - 1] is LeftPar {
        k - 1
    } else {
        last_group(tokens, k - 1)
    }
}

/// A group opens at the last position at which a group opens, and none
/// behind it.
pub proof fn lemma_last_group<K>(tokens: Seq<NodeKey<K>>, k: int)
    requires
        0 <= k <= tokens.len(),
    ensures
        0 <= last_group(tokens, k),
        k >= 1 ==> last_group(tokens, k) < k,
        last_group(tokens, k) >= 1 ==> tokens[last_group(tokens, k)] is LeftPar,
        forall|p: int| last_group(tokens, k) < p < k && p >= 1 ==> !((#[trigger] tokens[p]) is LeftPar),
    decreases k,
{
    if k > 1 && !(tokens[k - 1] is LeftPar) {
        lemma_last_group(tokens, k - 1);
    }
}

/// No group opens behind the first token exactly where the last such
/// position is none.
pub proof fn lemma_groups_only_in_front<K>(tokens: Seq<NodeKey<K>>)
    ensures
        groups_only_in_front(tokens) <==> last_group(tokens, tokens.len() as int) == 0,
{
    lemma_last_group(tokens, tokens.len() as int);
}

/// The greater of two positions.
pub open spec fn later(a: int, b: int) -> int {
    if a >= b {
        a
    } else {
        b
    }
}

/// Removal of the value from node `j` of the key's chain, for the rest of the
/// key, cuts the chain behind node `j`, or behind the last node before which
/// a group opens, where that lies behind node `j`.
pub proof fn lemma_removed_on_chain<K, V>(tokens: Seq<NodeKey<K>>, value: V, j: int)
    requires
        balanced(tokens),
        0 <= j <= tokens.len() < usize::MAX,
    ensures
        removed(chain(tokens, value), j, tokens, j, value) == (
            cut(tokens, value, later(j, last_group(tokens, tokens.len() as int))),
            true,
        ),
    decreases tokens.len() - j,
{
    let g = chain(tokens, value);
    let len = tokens.len() as int;
    let last = last_group(tokens, len);
    lemma_last_group(tokens, len);
    if j == len {
        assert(g[j].values =~= seq![value]);
        assert(g[j].values[0] == value);
        assert(g[j].values.contains(value));
        let at = g[j].values.index_of(value);
        assert(g[j].values.remove(at) =~= Seq::empty());
        assert(g[j].skip_pars =~= Seq::empty());
        assert(with_values(g, j, without(g[j].values, value)) =~= cut(tokens, value, j));
    } else {
        let next = (j + 1) as usize;
        let only = Successor { node: next, pos: next, via_skip: false };
        let steps = seq![only];
        lemma_successors_on_chain(tokens, value, j);
        lemma_removed_on_chain(tokens, value, j + 1);
        reveal_with_fuel(removed_through, 2);
        assert(removed_through(g, j, steps, tokens, j, 0, value) == (g, false));
        assert(steps[0] == only);
        assert(advances(g, tokens, j, only));
        let g2 = cut(tokens, value, later(j + 1, last));
        assert(removed(g, j + 1, tokens, j + 1, value) == (g2, true));
        if last <= j {
            assert(g[j + 1].skip_pars =~= Seq::empty()) by {
                if j + 1 < len {
                    assert(!(tokens[j + 1] is LeftPar));
                }
            }
            assert(g2[j + 1].is_vacant());
            assert(g2[j].children =~= seq![(tokens[j], next)]);
            assert(g2[j].children[0].1 == next);
            assert(g2[j].has_child_node(next));
            let at = g2[j].child_node_index(next);
            assert(g2[j].children.remove(at) =~= Seq::empty());
            assert(g[j].values =~= Seq::empty());
            assert(unlinked(g2, j, only) =~= cut(tokens, value, j));
            assert(removed_through(g, j, steps, tokens, j, 1, value) == (
                cut(tokens, value, j),
                true,
            ));
        } else {
            assert(!g2[j + 1].is_vacant()) by {
                if last == j + 1 {
                    assert(tokens[j + 1] is LeftPar);
                    assert(g2[j + 1].skip_pars =~= seq![(j + 1 + span_of(tokens, j + 1) + 1) as usize]);
                } else {
                    assert(g2[j + 1].children =~= seq![(tokens[j + 1], (j + 2) as usize)]);
                }
            }
            assert(removed_through(g, j, steps, tokens, j, 1, value) == (g2, true));
        }
    }
}

/// The chain cut behind node `x` holds on to the nodes up to `x`.
pub proof fn lemma_cut_counts<K, V>(tokens: Seq<NodeKey<K>>, value: V, x: int)
    requires
        0 <= x <= tokens.len() < usize::MAX,
    ensures
        node_count(cut(tokens, value, x)) == x + 1,
{
    let g = cut(tokens, value, x);
    assert forall|n: int| reachable_nodes(g).contains(n) implies 0 <= n <= x by {
        let d = choose|d: nat| reached_within(g, n, d);
        lemma_cut_reaches_up_to(tokens, value, x, n, d);
    }
    assert forall|n: int| 0 <= n <= x implies reachable_nodes(g).contains(n) by {
        lemma_cut_reaches(tokens, value, x, n);
    }
    assert(reachable_nodes(g) =~= vstd::set_lib::set_int_range(0, x + 1));
    vstd::set_lib::lemma_int_range(0, x + 1);
}

proof fn lemma_cut_reaches_up_to<K, V>(tokens: Seq<NodeKey<K>>, value: V, x: int, n: int, d: nat)
    requires
        0 <= x <= tokens.len() < usize::MAX,
        0 <= n <= tokens.len(),
        reached_within(cut(tokens, value, x), n, d),
    ensures
        0 <= n <= x,
    decreases d,
{
    let g = cut(tokens, value, x);
    if d > 0 {
        let e = (d - 1) as nat;
        if reached_within(g, n, e) {
            lemma_cut_reaches_up_to(tokens, value, x, n, e);
        } else {
            let p = choose|p: int|
                0 <= p < g.len() && reached_within(g, p, e) && (#[trigger] g[p]).has_child_node(
                    n as usize,
                );
            lemma_cut_reaches_up_to(tokens, value, x, p, e);
            let at = choose|at: int|
                0 <= at < g[p].children.len() && (#[trigger] g[p].children[at]).1 == n as usize;
            assert(p < x);
            assert(g[p].children =~= seq![(tokens[p], (p + 1) as usize)]);
        }
    }
}

proof fn lemma_cut_reaches<K, V>(tokens: Seq<NodeKey<K>>, value: V, x: int, n: int)
    requires
        0 <= n <= x <= tokens.len() < usize::MAX,
    ensures
        reached_within(cut(tokens, value, x), n, n as nat),
    decreases n,
{
    let g = cut(tokens, value, x);
    if n > 0 {
        lemma_cut_reaches(tokens, value, x, n - 1);
        let p = n - 1;
        assert(g[p].children =~= seq![(tokens[p], n as usize)]);
        assert(g[p].children[0].1 == n as usize);
        assert(g[p].has_child_node(n as usize));
        let e = (n as nat - 1) as nat;
        assert(reached_within(g, p, e));
    }
}

/// Where no labelled edge leaves the root, the root is the one node that the
/// trie holds on to.
pub proof fn lemma_bare_root_counts_one<K, V>(g: Graph<K, V>)
    requires
        g.len() >= 1,
        g[0].children.len() == 0,
    ensures
        node_count(g) == 1,
{
    assert forall|n: int| reachable_nodes(g).contains(n) implies n == 0 by {
        let d = choose|d: nat| reached_within(g, n, d);
        lemma_bare_root_reaches_itself(g, n, d);
    }
    assert(reached_within(g, 0, 0));
    assert(reachable(g, 0));
    assert(reachable_nodes(g) =~= set![0int]);
}

proof fn lemma_bare_root_reaches_itself<K, V>(g: Graph<K, V>, n: int, d: nat)
    requires
        g.len() >= 1,
        g[0].children.len() == 0,
        reached_within(g, n, d),
    ensures
        n == 0,
    decreases d,
{
    if d > 0 {
        let e = (d - 1) as nat;
        if reached_within(g, n, e) {
            lemma_bare_root_reaches_itself(g, n, e);
        } else {
            let p = choose|p: int|
                0 <= p < g.len() && reached_within(g, p, e) && (#[trigger] g[p]).has_child_node(
                    n as usize,
                );
            lemma_bare_root_reaches_itself(g, p, e);
        }
    }
}

/// After a value is inserted into the empty trie under a key, and removed
/// under the same key, the trie holds on to its root and to the nodes up to
/// the last one before which a group opens behind the key's first token: the
/// skip edge of that node keeps it.
pub proof fn law_remove_after_insert_leaves_groups<K, V>(key: Seq<NodeKey<K>>, value: V)
    requires
        balanced(key),
        key.len() < usize::MAX,
    ensures
        removed(inserted(empty_graph::<K, V>(), key, value), 0, key, 0, value).1,
        node_count(removed(inserted(empty_graph::<K, V>(), key, value), 0, key, 0, value).0) == 1
            + last_group(key, key.len() as int),
{
    lemma_inserted_into_empty(key, value);
    lemma_removed_on_chain(key, value, 0);
    lemma_last_group(key, key.len() as int);
    lemma_cut_counts(key, value, last_group(key, key.len() as int));
}

/// Removal undoes insertion: after a value is inserted into the empty trie
/// under a key, and removed under the same key, the trie holds on to its
/// root alone exactly where no group opens behind the key's first token.
pub proof fn law_remove_undoes_insert<K, V>(key: Seq<NodeKey<K>>, value: V)
    requires
        balanced(key),
        key.len() < usize::MAX,
    ensures
        node_count(removed(inserted(empty_graph::<K, V>(), key, value), 0, key, 0, value).0) == 1
            <==> groups_only_in_front(key),
{
    law_remove_after_insert_leaves_groups(key, value);
    lemma_groups_only_in_front(key);
}

} // verus!
