//! Lookup step by step: an explorer that yields one value at a time and
//! explores no more of the trie than it needs for it.

use crate::graph::{advances, matched, matched_through, successors, Graph, Successor};
use crate::key::{NodeKey, TrieKey};
use crate::multitrie::MultiTrieNode;
use vstd::laws_eq::obeys_concrete_eq;
use vstd::prelude::*;

verus! {

/// What is still to explore: a node, and the position in the query from
/// which to go on there.
#[derive(Clone, Copy, Debug)]
pub struct UnexploredPath {
    pub node: usize,
    pub pos: usize,
}

/// What exploration yields from node `n` for the rest of the query from
/// position `i`: at the end of the query the node's values; before it what
/// the successors yield, the last one first.
pub open spec fn explored<K, V>(g: Graph<K, V>, n: int, tokens: Seq<NodeKey<K>>, i: int) -> Seq<V>
    decreases tokens.len() - i, 1int, 0int,
{
    if !(0 <= n < g.len()) || i < 0 {
        Seq::empty()
    } else if i >= tokens.len() {
        g[n].values
    } else {
        let steps = successors(g, n, tokens, i);
        explored_through(g, steps, tokens, i, steps.len() as int)
    }
}

/// What exploration yields through the first `k` of `steps`, the last one
/// first.
pub open spec fn explored_through<K, V>(
    g: Graph<K, V>,
    steps: Seq<Successor>,
    tokens: Seq<NodeKey<K>>,
    i: int,
    k: int,
) -> Seq<V>
    decreases tokens.len() - i, 0int, k,
{
    if k <= 0 || k > steps.len() {
        Seq::empty()
    } else {
        let step = steps[k - 1];
        let before = explored_through(g, steps, tokens, i, k - 1);
        if advances(g, tokens, i, step) {
            explored(g, step.node as int, tokens, step.pos as int) + before
        } else {
            before
        }
    }
}

/// What exploration yields from the first `k` of the paths that are still
/// to explore, the last one first.
pub open spec fn pending<K, V>(
    g: Graph<K, V>,
    tokens: Seq<NodeKey<K>>,
    paths: Seq<UnexploredPath>,
    k: int,
) -> Seq<V>
    decreases k,
{
    if k <= 0 || k > paths.len() {
        Seq::empty()
    } else {
        explored(g, paths[k - 1].node as int, tokens, paths[k - 1].pos as int) + pending(
            g,
            tokens,
            paths,
            k - 1,
        )
    }
}

/// The number of steps that it takes to explore from node `n` for the rest
/// of the query from position `i`.
pub open spec fn cost<K, V>(g: Graph<K, V>, n: int, tokens: Seq<NodeKey<K>>, i: int) -> nat
    decreases tokens.len() - i, 1int, 0int,
{
    if !(0 <= n < g.len()) || i < 0 || i >= tokens.len() {
        1
    } else {
        let steps = successors(g, n, tokens, i);
        1 + cost_through(g, steps, tokens, i, steps.len() as int)
    }
}

/// The number of steps that it takes to explore through the first `k` of
/// `steps`.
pub open spec fn cost_through<K, V>(
    g: Graph<K, V>,
    steps: Seq<Successor>,
    tokens: Seq<NodeKey<K>>,
    i: int,
    k: int,
) -> nat
    decreases tokens.len() - i, 0int, k,
{
    if k <= 0 || k > steps.len() {
        0
    } else {
        let step = steps[k - 1];
        let before = cost_through(g, steps, tokens, i, k - 1);
        if advances(g, tokens, i, step) {
            cost(g, step.node as int, tokens, step.pos as int) + before
        } else {
            1 + before
        }
    }
}

/// The number of steps that it takes to explore the first `k` of the paths.
pub open spec fn total_cost<K, V>(
    g: Graph<K, V>,
    tokens: Seq<NodeKey<K>>,
    paths: Seq<UnexploredPath>,
    k: int,
) -> nat
    decreases k,
{
    if k <= 0 || k > paths.len() {
        0
    } else {
        cost(g, paths[k - 1].node as int, tokens, paths[k - 1].pos as int) + total_cost(
            g,
            tokens,
            paths,
            k - 1,
        )
    }
}

/// What is pending does not depend on the paths behind those counted.
pub proof fn lemma_pending_prefix<K, V>(
    g: Graph<K, V>,
    tokens: Seq<NodeKey<K>>,
    a: Seq<UnexploredPath>,
    b: Seq<UnexploredPath>,
    k: int,
)
    requires
        0 <= k <= a.len(),
        k <= b.len(),
        forall|j: int| 0 <= j < k ==> a[j] == b[j],
    ensures
        pending(g, tokens, a, k) == pending(g, tokens, b, k),
        total_cost(g, tokens, a, k) == total_cost(g, tokens, b, k),
    decreases k,
{
    if k > 0 {
        lemma_pending_prefix(g, tokens, a, b, k - 1);
    }
}

/// Exploration yields what lookup yields, each value as often, in another
/// order.
pub proof fn law_explored_as_often_as_matched<K, V>(
    g: Graph<K, V>,
    n: int,
    tokens: Seq<NodeKey<K>>,
    i: int,
)
    ensures
        explored(g, n, tokens, i).to_multiset() == matched(g, n, tokens, i).to_multiset(),
    decreases tokens.len() - i, 1int, 0int,
{
    if 0 <= n < g.len() && 0 <= i < tokens.len() {
        let steps = successors(g, n, tokens, i);
        lemma_explored_as_often_through(g, steps, tokens, i, steps.len() as int);
    }
}

/// The same of exploration through the first `k` successors.
pub proof fn lemma_explored_as_often_through<K, V>(
    g: Graph<K, V>,
    steps: Seq<Successor>,
    tokens: Seq<NodeKey<K>>,
    i: int,
    k: int,
)
    requires
        0 <= k <= steps.len(),
    ensures
        explored_through(g, steps, tokens, i, k).to_multiset() == matched_through(
            g,
            steps,
            tokens,
            i,
            k,
        ).to_multiset(),
    decreases tokens.len() - i, 0int, k,
{
    if k > 0 {
        lemma_explored_as_often_through(g, steps, tokens, i, k - 1);
        let step = steps[k - 1];
        if advances(g, tokens, i, step) {
            law_explored_as_often_as_matched(g, step.node as int, tokens, step.pos as int);
            let here = explored(g, step.node as int, tokens, step.pos as int);
            let there = matched(g, step.node as int, tokens, step.pos as int);
            vstd::seq_lib::lemma_multiset_commutative(
                here,
                explored_through(g, steps, tokens, i, k - 1),
            );
            vstd::seq_lib::lemma_multiset_commutative(
                matched_through(g, steps, tokens, i, k - 1),
                there,
            );
            assert(explored_through(g, steps, tokens, i, k).to_multiset() =~= matched_through(
                g,
                steps,
                tokens,
                i,
                k,
            ).to_multiset());
        }
    }
}

/// A lookup in progress. It borrows the trie, so the trie cannot change
/// while the lookup goes on.
pub struct ValueExplorer<'a, K, V> {
    trie: &'a MultiTrieNode<K, V>,
    key: TrieKey<K>,
    to_be_explored: Vec<UnexploredPath>,
    current: Option<(usize, usize)>,
}

impl<'a, K: PartialEq, V: PartialEq> ValueExplorer<'a, K, V> {
    /// The explorer's invariant.
    pub closed spec fn wf(&self) -> bool {
        &&& self.trie.shaped()
        &&& self.key.wf()
        &&& forall|j: int|
            0 <= j < self.to_be_explored.len() ==> (#[trigger] self.to_be_explored[j]).node
                < self.trie@.len() && self.to_be_explored[j].pos <= self.key@.len()
        &&& self.current matches Some((node, at)) ==> node < self.trie@.len() && at
            <= self.trie@[node as int].values.len()
    }

    /// The values that the explorer has still to yield, in the order in
    /// which it will yield them.
    pub closed spec fn remaining(&self) -> Seq<V> {
        let first = match self.current {
            Some((node, at)) => self.trie@[node as int].values.skip(at as int),
            None => Seq::empty(),
        };
        first + pending(
            self.trie@,
            self.key@,
            self.to_be_explored@,
            self.to_be_explored@.len() as int,
        )
    }

    /// The number of steps that the explorer has still to take.
    closed spec fn steps_left(&self) -> nat {
        2 * total_cost(
            self.trie@,
            self.key@,
            self.to_be_explored@,
            self.to_be_explored@.len() as int,
        ) + if self.current is Some {
            1nat
        } else {
            0nat
        }
    }

    /// An explorer at the beginning of the lookup of `key` in `trie`.
    pub fn new(trie: &'a MultiTrieNode<K, V>, key: TrieKey<K>) -> (explorer: Self)
        requires
            trie.shaped(),
            key.wf(),
        ensures
            explorer.wf(),
            explorer.remaining() == explored(trie@, 0, key@, 0),
    {
        let mut to_be_explored: Vec<UnexploredPath> = Vec::new();
        to_be_explored.push(UnexploredPath { node: 0, pos: 0 });
        let explorer = ValueExplorer { trie, key, to_be_explored, current: None };
        proof {
            reveal_with_fuel(pending, 2);
            assert(explorer.remaining() =~= explored(trie@, 0, key@, 0));
        }
        explorer
    }

    /// The next value of the lookup; none when the lookup is over.
    pub fn next(&mut self) -> (value: Option<&'a V>)
        requires
            old(self).wf(),
            obeys_concrete_eq::<K>(),
        ensures
            final(self).wf(),
            match value {
                Some(v) => old(self).remaining() == seq![*v] + final(self).remaining(),
                None => old(self).remaining().len() == 0 && final(self).remaining().len() == 0,
            },
    {
        loop
            invariant
                self.wf(),
                obeys_concrete_eq::<K>(),
                self.trie == old(self).trie,
                self.key == old(self).key,
                self.remaining() == old(self).remaining(),
            decreases self.steps_left(),
        {
            let ghost g = self.trie@;
            let ghost tokens = self.key@;
            let ghost paths = self.to_be_explored@;
            match self.current {
                Some((node, at)) => {
                    let values = self.trie.values_at(node);
                    if at < values.len() {
                        self.current = Some((node, at + 1));
                        proof {
                            assert(values@.skip(at as int) =~= seq![values@[at as int]]
                                + values@.skip(at + 1));
                            assert(old(self).remaining() =~= seq![values@[at as int]]
                                + self.remaining());
                        }
                        return Some(&values[at]);
                    }
                    self.current = None;
                    proof {
                        assert(values@.skip(at as int) =~= Seq::<V>::empty());
                        assert(self.remaining() =~= old(self).remaining());
                    }
                },
                None => {
                    match self.to_be_explored.pop() {
                        None => {
                            proof {
                                assert(self.remaining() =~= Seq::<V>::empty());
                            }
                            return None;
                        },
                        Some(path) => {
                            let ghost rest = self.to_be_explored@;
                            proof {
                                lemma_pending_prefix(g, tokens, paths, rest, rest.len() as int);
                                assert(paths[paths.len() - 1] == path);
                            }
                            if path.pos == self.key.len() {
                                self.current = Some((path.node, 0));
                                proof {
                                    assert(g[path.node as int].values.skip(0)
                                        =~= g[path.node as int].values);
                                    assert(self.remaining() =~= old(self).remaining());
                                }
                            } else {
                                let steps = self.trie.children(path.node, &self.key, path.pos);
                                let mut k: usize = 0;
                                while k < steps.len()
                                    invariant
                                        k <= steps.len(),
                                        self.wf(),
                                        self.trie == old(self).trie,
                                        self.key == old(self).key,
                                        g == self.trie@,
                                        tokens == self.key@,
                                        self.current is None,
                                        forall|j: int|
                                            0 <= j < steps.len() ==> advances(
                                                g,
                                                tokens,
                                                path.pos as int,
                                                #[trigger] steps[j],
                                            ),
                                        pending(
                                            g,
                                            tokens,
                                            self.to_be_explored@,
                                            self.to_be_explored@.len() as int,
                                        ) == explored_through(
                                            g,
                                            steps@,
                                            tokens,
                                            path.pos as int,
                                            k as int,
                                        ) + pending(g, tokens, rest, rest.len() as int),
                                        total_cost(
                                            g,
                                            tokens,
                                            self.to_be_explored@,
                                            self.to_be_explored@.len() as int,
                                        ) == cost_through(
                                            g,
                                            steps@,
                                            tokens,
                                            path.pos as int,
                                            k as int,
                                        ) + total_cost(g, tokens, rest, rest.len() as int),
                                    decreases steps.len() - k,
                                {
                                    let step = steps[k];
                                    let ghost stack = self.to_be_explored@;
                                    self.to_be_explored.push(
                                        UnexploredPath { node: step.node, pos: step.pos },
                                    );
                                    proof {
                                        reveal_with_fuel(explored_through, 2);
                                        reveal_with_fuel(cost_through, 2);
                                        lemma_pending_prefix(
                                            g,
                                            tokens,
                                            self.to_be_explored@,
                                            stack,
                                            stack.len() as int,
                                        );
                                        assert(pending(
                                            g,
                                            tokens,
                                            self.to_be_explored@,
                                            self.to_be_explored@.len() as int,
                                        ) =~= explored_through(
                                            g,
                                            steps@,
                                            tokens,
                                            path.pos as int,
                                            k + 1,
                                        ) + pending(g, tokens, rest, rest.len() as int));
                                    }
                                    k += 1;
                                }
                                proof {
                                    assert(self.remaining() =~= old(self).remaining());
                                }
                            }
                        },
                    }
                },
            }
        }
    }
}

impl<K: PartialEq, V: PartialEq> MultiTrieNode<K, V> {
    /// Begins a lookup that yields its values one at a time.
    pub fn explore(&self, key: TrieKey<K>) -> (explorer: ValueExplorer<'_, K, V>)
        requires
            self.shaped(),
            key.wf(),
        ensures
            explorer.wf(),
            explorer.remaining() == explored(self@, 0, key@, 0),
    {
        ValueExplorer::new(self, key)
    }
}

} // verus!
