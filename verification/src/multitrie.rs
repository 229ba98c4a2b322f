//! The trie: a multimap from keys to values in which a wildcard on either
//! side stands for one symbol or one whole group of the other side.

use crate::graph::{
    advances, empty_graph, graph_wf, grown, including, inserted, matched, matched_through,
    node_count, reachable, reachable_nodes, reached_within, removed, removed_through, successors,
    through, through_plain_children, through_skips, unlinked, walked, with_children,
    with_skip_pars, with_skips, with_values, without, Graph, NodeModel, Successor,
};
use crate::insertion::walk_fits;
use crate::key::{balanced, closes, lemma_span_of, same_token, spans_fit, NodeKey, TrieKey};
use crate::laws::law_remove_reports_what_get_found;
use crate::pairs::{law_insert_stores_one_pair_more, lemma_inserted_faithful};
use crate::pairs_removed::{law_remove_takes_the_matching_pairs, lemma_removed_faithful};
use crate::reach::query_matches;
use crate::stored::{
    faithful, holds, law_lookup_finds_what_matching_keys_hold, lemma_empty_faithful,
};
use vstd::laws_eq::obeys_concrete_eq;
use vstd::prelude::*;
use vstd::set_lib::{lemma_int_range, lemma_len_subset, set_int_range};

verus! {

/// The values that a sequence of references points to.
pub open spec fn pointees<V>(refs: Seq<&V>) -> Seq<V> {
    refs.map_values(|r: &V| *r)
}

#[derive(Clone, Debug)]
struct TrieNode<K, V> {
    children: Vec<(NodeKey<K>, usize)>,
    skip_pars: Vec<usize>,
    values: Vec<V>,
}

impl<K, V> TrieNode<K, V> {
    spec fn model(&self) -> NodeModel<K, V> {
        NodeModel { children: self.children@, skip_pars: self.skip_pars@, values: self.values@ }
    }

    fn new() -> (node: Self)
        ensures
            node.model() == NodeModel::<K, V>::vacant(),
    {
        let node = TrieNode { children: Vec::new(), skip_pars: Vec::new(), values: Vec::new() };
        assert(node.children@ =~= Seq::empty());
        assert(node.skip_pars@ =~= Seq::empty());
        assert(node.values@ =~= Seq::empty());
        node
    }
}

/// A trie, held through its root. The nodes live in one arena and name each
/// other by their position in it, which never changes.
#[derive(Clone, Debug)]
pub struct MultiTrieNode<K, V> {
    nodes: Vec<TrieNode<K, V>>,
}

pub type MultiTrie<K, V> = MultiTrieNode<K, V>;

impl<K, V> View for MultiTrieNode<K, V> {
    type V = Graph<K, V>;

    closed spec fn view(&self) -> Graph<K, V> {
        Seq::new(self.nodes.len() as nat, |n: int| self.nodes[n].model())
    }
}

impl<K: PartialEq, V: PartialEq> MultiTrieNode<K, V> {
    /// The invariant of the trie's parts: every node is well formed.
    pub open spec fn shaped(&self) -> bool {
        graph_wf(self@)
    }

    /// The trie's invariant, under which the trie is the set of its stored
    /// pairs: the labelled edges form a tree, every value sits where a
    /// balanced key leads to, and the skip edges lie over the groups of the
    /// keys under which something is stored.
    pub open spec fn wf(&self) -> bool {
        faithful(self@)
    }

    /// The pairs of a key and a value that the trie stores.
    pub open spec fn pairs(&self) -> Set<(Seq<NodeKey<K>>, V)> {
        Set::new(|pair: (Seq<NodeKey<K>>, V)| holds(self@, pair.0, pair.1))
    }

    /// The empty trie: the root alone.
    pub fn new() -> (trie: Self)
        ensures
            trie.wf(),
            trie@ == empty_graph::<K, V>(),
            trie.pairs() == Set::<(Seq<NodeKey<K>>, V)>::empty(),
    {
        let mut nodes = Vec::new();
        nodes.push(TrieNode::new());
        let trie = MultiTrieNode { nodes };
        proof {
            assert(trie@ =~= empty_graph::<K, V>());
            lemma_empty_faithful::<K, V>();
            assert(trie.pairs() =~= Set::<(Seq<NodeKey<K>>, V)>::empty());
        }
        trie
    }

    /// The values that node `n` holds.
    pub fn values_at(&self, n: usize) -> (values: &Vec<V>)
        requires
            n < self@.len(),
        ensures
            values@ == self@[n as int].values,
    {
        let node = &self.nodes[n];
        assert(node.model() == self@[n as int]);
        &node.values
    }

    /// The child of node `n` under `label`.
    fn get_child(&self, n: usize, label: &NodeKey<K>) -> (child: Option<usize>)
        requires
            self.shaped(),
            n < self@.len(),
            obeys_concrete_eq::<K>(),
        ensures
            child == self@[n as int].child(*label),
            child matches Some(c) ==> c < self@.len(),
    {
        let node = &self.nodes[n];
        assert(node.model() == self@[n as int]);
        let mut j: usize = 0;
        while j < node.children.len()
            invariant
                j <= node.children.len(),
                obeys_concrete_eq::<K>(),
                n < self@.len(),
                node.model() == self@[n as int],
                self@[n as int].wf(self@.len()),
                forall|m: int| 0 <= m < j ==> (#[trigger] node.children@[m]).0 != *label,
            decreases node.children.len() - j,
        {
            if same_token(&node.children[j].0, label) {
                proof {
                    let model = self@[n as int];
                    assert(model.children[j as int].0 == *label);
                    assert(model.has_child(*label));
                    let chosen = model.child_index(*label);
                    assert(model.children[chosen].0 == model.children[j as int].0);
                    assert(chosen == j);
                    assert(model.children[j as int].1 < self@.len());
                }
                return Some(node.children[j].1);
            }
            j += 1;
        }
        proof {
            let model = self@[n as int];
            assert forall|m: int| 0 <= m < model.children.len() implies (
            #[trigger] model.children[m]).0 != *label by {
                assert(node.children@[m].0 != *label);
            }
        }
        None
    }

    /// Appends to `steps` the way on through the edge of node `n` under
    /// `label`, if there is one.
    fn push_child(&self, n: usize, label: &NodeKey<K>, pos: usize, steps: &mut Vec<Successor>)
        requires
            self.shaped(),
            n < self@.len(),
            obeys_concrete_eq::<K>(),
        ensures
            final(steps)@ == old(steps)@ + through(self@[n as int].child(*label), pos),
            forall|k: int|
                old(steps).len() <= k < final(steps).len() ==> {
                    &&& (#[trigger] final(steps)[k]).node < self@.len()
                    &&& final(steps)[k].pos == pos
                },
    {
        match self.get_child(n, label) {
            Some(child) => {
                steps.push(Successor { node: child, pos, via_skip: false });
            },
            None => {},
        }
    }

    /// The matching rules: the ways on from node `n` for the query token at
    /// position `i`.
    pub fn children(&self, n: usize, key: &TrieKey<K>, i: usize) -> (steps: Vec<Successor>)
        requires
            self.shaped(),
            key.wf(),
            n < self@.len(),
            i < key@.len(),
            obeys_concrete_eq::<K>(),
        ensures
            steps@ == successors(self@, n as int, key@, i as int),
            forall|k: int| 0 <= k < steps.len() ==> advances(self@, key@, i as int, #[trigger] steps[k]),
    {
        proof {
            key.lemma_wf();
        }
        let head = key.token(i);
        let next: usize = i + 1;
        let mut steps: Vec<Successor> = Vec::new();
        match head {
            NodeKey::Exact(_) => {
                self.push_child(n, head, next, &mut steps);
                self.push_child(n, &NodeKey::Wildcard, next, &mut steps);
            },
            NodeKey::RightPar => {
                self.push_child(n, &NodeKey::RightPar, next, &mut steps);
            },
            NodeKey::LeftPar => {
                let span = key.span(i);
                let after: usize = i + span + 1;
                self.push_child(n, &NodeKey::Wildcard, after, &mut steps);
                self.push_child(n, &NodeKey::LeftPar, next, &mut steps);
            },
            NodeKey::Wildcard => {
                let node = &self.nodes[n];
                assert(node.model() == self@[n as int]);
                let mut j: usize = 0;
                while j < node.children.len()
                    invariant
                        j <= node.children.len(),
                        n < self@.len(),
                        node.model() == self@[n as int],
                        self@[n as int].wf(self@.len()),
                        steps@ == through_plain_children(node.children@, next, j as int),
                        forall|k: int|
                            0 <= k < steps.len() ==> {
                                &&& (#[trigger] steps[k]).node < self@.len()
                                &&& steps[k].pos == next
                            },
                    decreases node.children.len() - j,
                {
                    assert(self@[n as int].children[j as int].1 < self@.len());
                    if !node.children[j].0.is_parenthesis() {
                        steps.push(Successor { node: node.children[j].1, pos: next, via_skip: false });
                    }
                    j += 1;
                }
                let ghost plain = steps@;
                let mut j: usize = 0;
                while j < node.skip_pars.len()
                    invariant
                        j <= node.skip_pars.len(),
                        n < self@.len(),
                        node.model() == self@[n as int],
                        self@[n as int].wf(self@.len()),
                        steps@ == plain + through_skips(node.skip_pars@, next).take(j as int),
                        forall|k: int|
                            0 <= k < steps.len() ==> {
                                &&& (#[trigger] steps[k]).node < self@.len()
                                &&& steps[k].pos == next
                            },
                    decreases node.skip_pars.len() - j,
                {
                    assert(self@[n as int].skip_pars[j as int] < self@.len());
                    steps.push(Successor { node: node.skip_pars[j], pos: next, via_skip: true });
                    j += 1;
                }
                assert(through_skips(node.skip_pars@, next).take(j as int) =~= through_skips(
                    node.skip_pars@,
                    next,
                ));
            },
        }
        steps
    }

    /// Appends to `out` what lookup yields from node `n` for the rest of the
    /// query from position `i`.
    fn collect<'a>(&'a self, n: usize, key: &TrieKey<K>, i: usize, out: &mut Vec<&'a V>)
        requires
            self.shaped(),
            key.wf(),
            n < self@.len(),
            i <= key@.len(),
            obeys_concrete_eq::<K>(),
        ensures
            pointees(final(out)@) == pointees(old(out)@) + matched(
                self@,
                n as int,
                key@,
                i as int,
            ),
        decreases key@.len() - i,
    {
        if i == key.len() {
            let node = &self.nodes[n];
            assert(node.model() == self@[n as int]);
            let mut j: usize = 0;
            while j < node.values.len()
                invariant
                    j <= node.values.len(),
                    pointees(out@) == pointees(old(out)@) + node.values@.take(j as int),
                decreases node.values.len() - j,
            {
                let ghost before = out@;
                out.push(&node.values[j]);
                assert(pointees(out@) =~= pointees(before).push(node.values@[j as int]));
                assert(node.values@.take(j + 1) =~= node.values@.take(j as int).push(
                    node.values@[j as int],
                ));
                j += 1;
            }
            assert(node.values@.take(j as int) =~= node.values@);
        } else {
            let steps = self.children(n, key, i);
            let mut k: usize = 0;
            while k < steps.len()
                invariant
                    k <= steps.len(),
                    self.shaped(),
                    key.wf(),
                    i < key@.len(),
                    obeys_concrete_eq::<K>(),
                    forall|k: int|
                        0 <= k < steps.len() ==> advances(self@, key@, i as int, #[trigger] steps[k]),
                    pointees(out@) == pointees(old(out)@) + matched_through(
                        self@,
                        steps@,
                        key@,
                        i as int,
                        k as int,
                    ),
                decreases steps.len() - k,
            {
                let step = steps[k];
                self.collect(step.node, key, step.pos, out);
                k += 1;
            }
        }
    }

    /// Every value stored under a key that the query matches, once for each
    /// such key, in the order in which the matching rules find them.
    pub fn get(&self, key: TrieKey<K>) -> (values: Vec<&V>)
        requires
            self.shaped(),
            key.wf(),
            obeys_concrete_eq::<K>(),
        ensures
            pointees(values@) == matched(self@, 0, key@, 0),
            self.wf() ==> forall|value: V| #[trigger]
                pointees(values@).contains(value) <==> exists|stored: Seq<NodeKey<K>>| #[trigger]
                    self.pairs().contains((stored, value)) && query_matches(key@, stored),
    {
        let mut values: Vec<&V> = Vec::new();
        self.collect(0, &key, 0, &mut values);
        proof {
            assert(pointees(Seq::<&V>::empty()) =~= Seq::<V>::empty());
            key.lemma_wf();
            if self.wf() {
                assert forall|value: V| #[trigger]
                    pointees(values@).contains(value) <==> exists|stored: Seq<NodeKey<K>>| #[trigger]
                        self.pairs().contains((stored, value)) && query_matches(key@, stored) by {
                    law_lookup_finds_what_matching_keys_hold(self@, key@, value);
                    if exists|stored: Seq<NodeKey<K>>| #[trigger]
                        holds(self@, stored, value) && query_matches(key@, stored) {
                        let stored = choose|stored: Seq<NodeKey<K>>| #[trigger]
                            holds(self@, stored, value) && query_matches(key@, stored);
                        assert(self.pairs().contains((stored, value)));
                    }
                    if exists|stored: Seq<NodeKey<K>>| #[trigger]
                        self.pairs().contains((stored, value)) && query_matches(key@, stored) {
                        let stored = choose|stored: Seq<NodeKey<K>>| #[trigger]
                            self.pairs().contains((stored, value)) && query_matches(key@, stored);
                        assert(holds(self@, stored, value));
                    }
                }
            }
        }
        values
    }

    /// The child of node `n` under `label`, made first where it is missing.
    fn get_or_insert_child(&mut self, n: usize, label: NodeKey<K>) -> (child: usize)
        requires
            old(self).shaped(),
            n < old(self)@.len(),
            obeys_concrete_eq::<K>(),
        ensures
            final(self).shaped(),
            (final(self)@, child) == grown(old(self)@, n as int, label),
            child < final(self)@.len(),
            final(self)@.len() >= old(self)@.len(),
    {
        match self.get_child(n, &label) {
            Some(child) => child,
            None => {
                let ghost before = self@;
                let child = self.nodes.len();
                self.nodes[n].children.push((label, child));
                self.nodes.push(TrieNode::new());
                proof {
                    let grown_graph = with_children(
                        before,
                        n as int,
                        before[n as int].children.push((label, child)),
                    ).push(NodeModel::vacant());
                    assert(self@ =~= grown_graph);
                    assert forall|m: int| 0 <= m < self@.len() implies (#[trigger] self@[m]).wf(
                        self@.len(),
                    ) by {
                        if m < before.len() {
                            assert(before[m].wf(before.len()));
                        }
                        if m == n {
                            let cs = self@[m].children;
                            assert forall|a: int, b: int| 0 <= a < b < cs.len() implies (
                            #[trigger] cs[a]).0 != (#[trigger] cs[b]).0 && cs[a].1 != cs[b].1 by {
                                assert(before[m].children[a] == cs[a]);
                                if b < cs.len() - 1 {
                                    assert(before[m].children[b] == cs[b]);
                                }
                            }
                        }
                    }
                }
                child
            },
        }
    }

    /// Whether `values` holds `value`, and where.
    fn position<T: PartialEq>(values: &Vec<T>, value: &T) -> (found: Option<usize>)
        requires
            obeys_concrete_eq::<T>(),
        ensures
            found is Some <==> values@.contains(*value),
            found matches Some(j) ==> j < values.len() && values@[j as int] == *value,
    {
        let mut j: usize = 0;
        while j < values.len()
            invariant
                j <= values.len(),
                obeys_concrete_eq::<T>(),
                forall|m: int| 0 <= m < j ==> values@[m] != *value,
            decreases values.len() - j,
        {
            proof {
                reveal(obeys_concrete_eq);
            }
            if values[j] == *value {
                return Some(j);
            }
            j += 1;
        }
        None
    }

    /// Puts `value` into the values of node `n`.
    fn insert_value(&mut self, n: usize, value: V)
        requires
            old(self).shaped(),
            n < old(self)@.len(),
            obeys_concrete_eq::<V>(),
        ensures
            final(self).shaped(),
            final(self)@ == with_values(
                old(self)@,
                n as int,
                including(old(self)@[n as int].values, value),
            ),
    {
        let ghost before = self@;
        assert(before[n as int].wf(before.len()));
        if Self::position(&self.nodes[n].values, &value).is_none() {
            self.nodes[n].values.push(value);
        }
        proof {
            assert(self@ =~= with_values(
                before,
                n as int,
                including(before[n as int].values, value),
            ));
            assert forall|m: int| 0 <= m < self@.len() implies (#[trigger] self@[m]).wf(
                self@.len(),
            ) by {
                assert(before[m].wf(before.len()));
            }
        }
    }

    /// Puts a skip edge from node `from` to node `to`.
    fn insert_skip_par(&mut self, from: usize, to: usize)
        requires
            old(self).shaped(),
            from < old(self)@.len(),
            to < old(self)@.len(),
        ensures
            final(self).shaped(),
            final(self)@ == with_skip_pars(
                old(self)@,
                from as int,
                including(old(self)@[from as int].skip_pars, to),
            ),
    {
        let ghost before = self@;
        assert(before[from as int].wf(before.len()));
        let mut found = false;
        let mut j: usize = 0;
        while j < self.nodes[from].skip_pars.len()
            invariant
                from < self.nodes.len(),
                self@ == before,
                j <= self.nodes[from as int].skip_pars.len(),
                found <==> exists|m: int| 0 <= m < j && self.nodes[from as int].skip_pars@[m] == to,
            decreases self.nodes[from as int].skip_pars.len() - j,
        {
            if self.nodes[from].skip_pars[j] == to {
                found = true;
            }
            j += 1;
        }
        assert(self.nodes[from as int].model() == before[from as int]);
        assert(found == before[from as int].skip_pars.contains(to));
        if !found {
            self.nodes[from].skip_pars.push(to);
        }
        proof {
            assert(self@ =~= with_skip_pars(
                before,
                from as int,
                including(before[from as int].skip_pars, to),
            ));
            assert forall|m: int| 0 <= m < self@.len() implies (#[trigger] self@[m]).wf(
                self@.len(),
            ) by {
                assert(before[m].wf(before.len()));
            }
        }
    }

    /// Stores `value` under `key`: walks the key from the root, making the
    /// nodes that are missing, puts the value into the last node, and lays a
    /// skip edge over each group of the key.
    pub fn add(&mut self, key: TrieKey<K>, value: V)
        requires
            old(self).wf(),
            key.wf(),
            obeys_concrete_eq::<K>(),
            obeys_concrete_eq::<V>(),
        ensures
            final(self).wf(),
            final(self)@ == inserted(old(self)@, key@, value),
            final(self).pairs() == old(self).pairs().insert((key@, value)),
    {
        let ghost before = self@;
        let ghost tokens = key@;
        proof {
            key.lemma_wf();
        }
        let (bare_keys, spans) = key.into_parts();
        let mut path: Vec<usize> = Vec::new();
        path.push(0);
        let mut cur: usize = 0;
        assert(path@ =~= seq![0usize]);
        for token in it: bare_keys
            invariant
                it.seq() == tokens,
                self.shaped(),
                obeys_concrete_eq::<K>(),
                walk_fits(before, tokens, it.index() as int),
                (self@, path@) == walked(before, tokens, it.index() as int),
                path.len() == it.index() + 1,
                cur == path@.last(),
                forall|j: int| 0 <= j < path.len() ==> (#[trigger] path[j]) < self@.len(),
        {
            cur = self.get_or_insert_child(cur, token);
            path.push(cur);
            proof {
                let next = it.index() + 1;
                assert((self@, path@) == walked(before, tokens, next));
                assert forall|j: int| 0 <= j <= next implies (#[trigger] walked(
                    before,
                    tokens,
                    j,
                )).0.len() <= usize::MAX by {}
            }
        }
        let ghost walked_graph = self@;
        self.insert_value(cur, value);
        let ghost valued_graph = self@;
        let mut k: usize = 0;
        while k < spans.len()
            invariant
                k <= spans.len(),
                spans_fit(tokens, spans@),
                path.len() == tokens.len() + 1,
                self.shaped(),
                faithful(before),
                balanced(tokens),
                walk_fits(before, tokens, tokens.len() as int),
                (walked_graph, path@) == walked(before, tokens, tokens.len() as int),
                valued_graph == with_values(
                    walked_graph,
                    path@.last() as int,
                    including(walked_graph[path@.last() as int].values, value),
                ),
                before == old(self)@,
                self@.len() == valued_graph.len(),
                forall|j: int| 0 <= j < path.len() ==> (#[trigger] path[j]) < self@.len(),
                self@ == with_skips(valued_graph, tokens, path@, k as int),
            decreases spans.len() - k,
        {
            let span = spans[k];
            proof {
                if tokens[k as int] is LeftPar {
                    assert(closes(tokens, k as int, k + spans@[k as int]));
                    lemma_span_of(tokens, k as int, k + span);
                }
            }
            if span > 0 {
                self.insert_skip_par(path[k], path[k + span + 1]);
            }
            k += 1;
        }
        proof {
            lemma_inserted_faithful(before, tokens, value);
            assert(self.pairs() =~= old(self).pairs().insert((tokens, value))) by {
                assert forall|pair: (Seq<NodeKey<K>>, V)|
                    self.pairs().contains(pair) <==> old(self).pairs().insert(
                        (tokens, value),
                    ).contains(pair) by {
                    law_insert_stores_one_pair_more(before, tokens, value, pair.0, pair.1);
                }
            }
        }
    }

    /// Whether node `n` has no children, no skip edges and no values.
    fn is_empty(&self, n: usize) -> (r: bool)
        requires
            n < self@.len(),
        ensures
            r == self@[n as int].is_vacant(),
    {
        let node = &self.nodes[n];
        assert(node.model() == self@[n as int]);
        node.children.len() == 0 && node.skip_pars.len() == 0 && node.values.len() == 0
    }

    /// Gives back the storage of node `n`, which has nothing in it: its
    /// vectors are dropped for new ones, which hold no allocation. What the
    /// trie holds stays as it is.
    fn release(&mut self, n: usize)
        requires
            n < old(self)@.len(),
            old(self)@[n as int].is_vacant(),
        ensures
            final(self)@ == old(self)@,
    {
        let ghost before = self@;
        assert(self.nodes[n as int].model() == before[n as int]);
        self.nodes[n] = TrieNode::new();
        proof {
            assert(before[n as int].children =~= Seq::empty());
            assert(before[n as int].skip_pars =~= Seq::empty());
            assert(before[n as int].values =~= Seq::empty());
            assert(self@ =~= before);
        }
    }

    /// Takes out of node `n` the edge that `step` went through.
    fn unlink(&mut self, n: usize, step: Successor)
        requires
            old(self).shaped(),
            n < old(self)@.len(),
        ensures
            final(self).shaped(),
            final(self)@.len() == old(self)@.len(),
            final(self)@ == unlinked(old(self)@, n as int, step),
    {
        let ghost before = self@;
        assert(before[n as int].wf(before.len()));
        assert(self.nodes[n as int].model() == before[n as int]);
        if step.via_skip {
            let mut found: Option<usize> = None;
            let mut j: usize = 0;
            while j < self.nodes[n].skip_pars.len()
                invariant
                    n < self.nodes.len(),
                    self@ == before,
                    j <= self.nodes[n as int].skip_pars.len(),
                    found is None ==> forall|m: int|
                        0 <= m < j ==> self.nodes[n as int].skip_pars@[m] != step.node,
                    found matches Some(at) ==> at < j && self.nodes[n as int].skip_pars@[at as int]
                        == step.node,
                decreases self.nodes[n as int].skip_pars.len() - j,
            {
                if self.nodes[n].skip_pars[j] == step.node {
                    found = Some(j);
                }
                j += 1;
            }
            if let Some(at) = found {
                self.nodes[n].skip_pars.remove(at);
                proof {
                    let skips = before[n as int].skip_pars;
                    assert(skips[at as int] == step.node);
                    assert(skips.contains(step.node));
                    assert(skips[skips.index_of(step.node)] == skips[at as int]);
                    assert(skips.index_of(step.node) == at);
                }
            }
        } else {
            let mut found: Option<usize> = None;
            let mut j: usize = 0;
            while j < self.nodes[n].children.len()
                invariant
                    n < self.nodes.len(),
                    self@ == before,
                    j <= self.nodes[n as int].children.len(),
                    found is None ==> forall|m: int|
                        0 <= m < j ==> (#[trigger] self.nodes[n as int].children@[m]).1
                            != step.node,
                    found matches Some(at) ==> at < j && self.nodes[n as int].children@[at as int].1
                        == step.node,
                decreases self.nodes[n as int].children.len() - j,
            {
                if self.nodes[n].children[j].1 == step.node {
                    found = Some(j);
                }
                j += 1;
            }
            if let Some(at) = found {
                self.nodes[n].children.remove(at);
                proof {
                    let node = before[n as int];
                    assert(node.children[at as int].1 == step.node);
                    assert(node.has_child_node(step.node));
                    let chosen = node.child_node_index(step.node);
                    assert(node.children[chosen].1 == node.children[at as int].1);
                    assert(chosen == at);
                }
            } else {
                proof {
                    let node = before[n as int];
                    assert forall|m: int| 0 <= m < node.children.len() implies (
                    #[trigger] node.children[m]).1 != step.node by {
                        assert(self.nodes[n as int].children@[m].1 != step.node);
                    }
                }
            }
        }
        proof {
            assert(self@ =~= unlinked(before, n as int, step));
            Self::lemma_smaller_node_wf(before[n as int], self@[n as int], before.len());
            assert forall|m: int| 0 <= m < self@.len() implies (#[trigger] self@[m]).wf(
                self@.len(),
            ) by {
                assert(before[m].wf(before.len()));
            }
        }
    }

    /// A node stays well formed when edges or values are taken out of it.
    proof fn lemma_smaller_node_wf(before: NodeModel<K, V>, after: NodeModel<K, V>, size: nat)
        requires
            before.wf(size),
            after.children == before.children || exists|j: int|
                0 <= j < before.children.len() && after.children == before.children.remove(j),
            after.skip_pars == before.skip_pars || exists|j: int|
                0 <= j < before.skip_pars.len() && after.skip_pars == before.skip_pars.remove(j),
            after.values == before.values || exists|j: int|
                0 <= j < before.values.len() && after.values == before.values.remove(j),
        ensures
            after.wf(size),
    {
        if after.children != before.children {
            let j = choose|j: int|
                0 <= j < before.children.len() && after.children == before.children.remove(j);
            assert forall|a: int| 0 <= a < after.children.len() implies (
            #[trigger] after.children[a]).1 < size by {
                let src = if a < j { a } else { a + 1 };
                assert(after.children[a] == before.children[src]);
            }
            assert forall|a: int, b: int| 0 <= a < b < after.children.len() implies (
            #[trigger] after.children[a]).0 != (#[trigger] after.children[b]).0
                && after.children[a].1 != after.children[b].1 by {
                let sa = if a < j { a } else { a + 1 };
                let sb = if b < j { b } else { b + 1 };
                assert(after.children[a] == before.children[sa]);
                assert(after.children[b] == before.children[sb]);
            }
        }
        if after.skip_pars != before.skip_pars {
            let j = choose|j: int|
                0 <= j < before.skip_pars.len() && after.skip_pars == before.skip_pars.remove(j);
            assert forall|a: int| 0 <= a < after.skip_pars.len() implies (
            #[trigger] after.skip_pars[a]) < size by {
                let src = if a < j { a } else { a + 1 };
                assert(after.skip_pars[a] == before.skip_pars[src]);
            }
            assert forall|a: int, b: int|
                0 <= a < after.skip_pars.len() && 0 <= b < after.skip_pars.len() && a
                    != b implies after.skip_pars[a] != after.skip_pars[b] by {
                let sa = if a < j { a } else { a + 1 };
                let sb = if b < j { b } else { b + 1 };
                assert(after.skip_pars[a] == before.skip_pars[sa]);
                assert(after.skip_pars[b] == before.skip_pars[sb]);
            }
        }
        if after.values != before.values {
            let j = choose|j: int|
                0 <= j < before.values.len() && after.values == before.values.remove(j);
            assert forall|a: int, b: int|
                0 <= a < after.values.len() && 0 <= b < after.values.len() && a
                    != b implies after.values[a] != after.values[b] by {
                let sa = if a < j { a } else { a + 1 };
                let sb = if b < j { b } else { b + 1 };
                assert(after.values[a] == before.values[sa]);
                assert(after.values[b] == before.values[sb]);
            }
        }
    }

    /// Removal from node `n` for the rest of the query from position `i`.
    fn remove_from(&mut self, n: usize, key: &TrieKey<K>, i: usize, value: &V) -> (removed_any:
        bool)
        requires
            old(self).shaped(),
            key.wf(),
            n < old(self)@.len(),
            i <= key@.len(),
            obeys_concrete_eq::<K>(),
            obeys_concrete_eq::<V>(),
        ensures
            final(self).shaped(),
            final(self)@.len() == old(self)@.len(),
            (final(self)@, removed_any) == removed(old(self)@, n as int, key@, i as int, *value),
        decreases key@.len() - i,
    {
        let ghost before = self@;
        if i == key.len() {
            assert(before[n as int].wf(before.len()));
            assert(self.nodes[n as int].model() == before[n as int]);
            match Self::position(&self.nodes[n].values, value) {
                Some(at) => {
                    self.nodes[n].values.remove(at);
                    proof {
                        let values = before[n as int].values;
                        assert(values[values.index_of(*value)] == values[at as int]);
                        assert(values.index_of(*value) == at);
                        assert(self@ =~= with_values(before, n as int, without(values, *value)));
                        Self::lemma_smaller_node_wf(before[n as int], self@[n as int], before.len());
                        assert forall|m: int| 0 <= m < self@.len() implies (#[trigger] self@[m]).wf(
                            self@.len(),
                        ) by {
                            assert(before[m].wf(before.len()));
                        }
                    }
                    true
                },
                None => {
                    proof {
                        let values = before[n as int].values;
                        assert(self@ =~= with_values(before, n as int, without(values, *value)));
                    }
                    false
                },
            }
        } else {
            let steps = self.children(n, key, i);
            let mut removed_any = false;
            let mut k: usize = 0;
            while k < steps.len()
                invariant
                    k <= steps.len(),
                    self.shaped(),
                    key.wf(),
                    n < before.len(),
                    i < key@.len(),
                    self@.len() == before.len(),
                    obeys_concrete_eq::<K>(),
                    obeys_concrete_eq::<V>(),
                    forall|k: int|
                        0 <= k < steps.len() ==> advances(before, key@, i as int, #[trigger] steps[k]),
                    (self@, removed_any) == removed_through(
                        before,
                        n as int,
                        steps@,
                        key@,
                        i as int,
                        k as int,
                        *value,
                    ),
                decreases steps.len() - k,
            {
                let step = steps[k];
                let removed = self.remove_from(step.node, key, step.pos, value);
                if removed && self.is_empty(step.node) {
                    self.release(step.node);
                    self.unlink(n, step);
                }
                removed_any = removed_any || removed;
                k += 1;
            }
            removed_any
        }
    }

    /// Takes `value` out of every node that lookup with `key` reaches, and on
    /// the way back takes out the edge to each node that it left vacant. Says
    /// whether the value was in one of those nodes.
    pub fn remove(&mut self, key: TrieKey<K>, value: &V) -> (removed_any: bool)
        requires
            old(self).wf(),
            key.wf(),
            obeys_concrete_eq::<K>(),
            obeys_concrete_eq::<V>(),
        ensures
            final(self).wf(),
            (final(self)@, removed_any) == removed(old(self)@, 0, key@, 0, *value),
            removed_any <==> exists|stored: Seq<NodeKey<K>>| #[trigger]
                old(self).pairs().contains((stored, *value)) && query_matches(key@, stored),
            final(self).pairs() == old(self).pairs().filter(
                |pair: (Seq<NodeKey<K>>, V)| !(pair.1 == *value && query_matches(key@, pair.0)),
            ),
    {
        let ghost before = self@;
        let removed_any = self.remove_from(0, &key, 0, value);
        proof {
            key.lemma_wf();
            lemma_removed_faithful(before, key@, *value);
            law_remove_reports_what_get_found(before, key@, *value);
            law_lookup_finds_what_matching_keys_hold(before, key@, *value);
            if exists|stored: Seq<NodeKey<K>>| #[trigger]
                holds(before, stored, *value) && query_matches(key@, stored) {
                let stored = choose|stored: Seq<NodeKey<K>>| #[trigger]
                    holds(before, stored, *value) && query_matches(key@, stored);
                assert(old(self).pairs().contains((stored, *value)));
            }
            if exists|stored: Seq<NodeKey<K>>| #[trigger]
                old(self).pairs().contains((stored, *value)) && query_matches(key@, stored) {
                let stored = choose|stored: Seq<NodeKey<K>>| #[trigger]
                    old(self).pairs().contains((stored, *value)) && query_matches(key@, stored);
                assert(holds(before, stored, *value));
            }
            let kept = old(self).pairs().filter(
                |pair: (Seq<NodeKey<K>>, V)| !(pair.1 == *value && query_matches(key@, pair.0)),
            );
            assert forall|pair: (Seq<NodeKey<K>>, V)| self.pairs().contains(pair) <==> kept.contains(
                pair,
            ) by {
                law_remove_takes_the_matching_pairs(before, key@, *value, pair.0, pair.1);
            }
            assert(self.pairs() =~= kept);
        }
        removed_any
    }

    /// Every child of node `n` is marked.
    spec fn children_marked(g: Graph<K, V>, marked: Set<int>, n: int) -> bool {
        forall|j: int|
            0 <= j < g[n].children.len() ==> marked.contains((#[trigger] g[n].children[j]).1 as int)
    }

    /// A set that holds the root and with each node its children holds every
    /// node that labelled edges lead to.
    proof fn lemma_closed_holds_reached(g: Graph<K, V>, marked: Set<int>, n: int, d: nat)
        requires
            marked.contains(0),
            forall|x: int| marked.contains(x) ==> 0 <= x < g.len() && Self::children_marked(g, marked, x),
            reached_within(g, n, d),
            0 <= n < g.len() <= usize::MAX,
        ensures
            marked.contains(n),
        decreases d,
    {
        if d > 0 {
            let e = (d - 1) as nat;
            if reached_within(g, n, e) {
                Self::lemma_closed_holds_reached(g, marked, n, e);
            } else {
                let p = choose|p: int|
                    0 <= p < g.len() && reached_within(g, p, e) && (#[trigger] g[p]).has_child_node(
                        n as usize,
                    );
                Self::lemma_closed_holds_reached(g, marked, p, e);
                assert(Self::children_marked(g, marked, p));
                let j = choose|j: int|
                    0 <= j < g[p].children.len() && (#[trigger] g[p].children[j]).1 == n as usize;
                assert(marked.contains(g[p].children[j].1 as int));
            }
        }
    }

    /// The number of nodes that labelled edges lead to from the root, the
    /// root among them.
    pub fn size(&self) -> (count: usize)
        requires
            self.shaped(),
        ensures
            count == node_count(self@),
    {
        let len = self.nodes.len();
        let mut seen: Vec<bool> = Vec::new();
        let mut j: usize = 0;
        while j < len
            invariant
                j <= len,
                seen.len() == j,
                forall|m: int| 0 <= m < j ==> !seen[m],
            decreases len - j,
        {
            seen.push(false);
            j += 1;
        }
        seen[0] = true;
        let mut work: Vec<usize> = Vec::new();
        work.push(0);
        let mut count: usize = 1;
        let ghost mut marked: Set<int> = Set::empty().insert(0);
        proof {
            assert(reached_within(self@, 0, 0));
            lemma_int_range(0, len as int);
            assert(work@[0] == 0);
            assert(marked =~= set![0int]);
        }
        while work.len() > 0
            invariant
                self.shaped(),
                len == self@.len(),
                seen.len() == len,
                marked.finite(),
                count == marked.len(),
                count <= len,
                marked.contains(0),
                forall|n: int| 0 <= n < len ==> (seen[n] <==> marked.contains(n)),
                forall|n: int| marked.contains(n) ==> 0 <= n < len && reachable(self@, n),
                forall|w: int| 0 <= w < work.len() ==> (#[trigger] work[w]) < len && seen[work[w] as int],
                forall|n: int|
                    marked.contains(n) && !work@.contains(n as usize) ==> Self::children_marked(
                        self@,
                        marked,
                        n,
                    ),
            decreases 2 * (len - count) + work.len(),
        {
            let ghost measure = 2 * (len - count) + work.len();
            let ghost work_before = work@;
            let n = work.pop().unwrap();
            let node = &self.nodes[n];
            assert(node.model() == self@[n as int]);
            assert(work_before[work_before.len() - 1] == n);
            proof {
                assert forall|m: int|
                    marked.contains(m) && m != n && !work@.contains(m as usize)
                        implies Self::children_marked(self@, marked, m) by {
                    if work_before.contains(m as usize) {
                        let w = choose|w: int|
                            0 <= w < work_before.len() && work_before[w] == m as usize;
                        assert(work@[w] == m as usize);
                    }
                }
            }
            let mut j: usize = 0;
            while j < node.children.len()
                invariant
                    self.shaped(),
                    len == self@.len(),
                    n < len,
                    node.model() == self@[n as int],
                    j <= node.children.len(),
                    seen.len() == len,
                    marked.finite(),
                    count == marked.len(),
                    count <= len,
                    marked.contains(0),
                    marked.contains(n as int),
                    2 * (len - count) + work.len() < measure,
                    forall|m: int| 0 <= m < len ==> (seen[m] <==> marked.contains(m)),
                    forall|m: int| marked.contains(m) ==> 0 <= m < len && reachable(self@, m),
                    forall|w: int|
                        0 <= w < work.len() ==> (#[trigger] work[w]) < len && seen[work[w] as int],
                    forall|m: int|
                        marked.contains(m) && m != n && !work@.contains(m as usize)
                            ==> Self::children_marked(self@, marked, m),
                    forall|m: int|
                        0 <= m < j ==> marked.contains((#[trigger] self@[n as int].children[m]).1 as int),
                decreases node.children.len() - j,
            {
                let child = node.children[j].1;
                assert(self@[n as int].wf(self@.len()));
                assert(self@[n as int].children[j as int].1 < len);
                if !seen[child] {
                    let ghost marked_before = marked;
                    let ghost work_then = work@;
                    seen[child] = true;
                    work.push(child);
                    proof {
                        marked = marked.insert(child as int);
                        assert(marked.subset_of(set_int_range(0, len as int)));
                        lemma_int_range(0, len as int);
                        lemma_len_subset(marked, set_int_range(0, len as int));
                        let d = choose|d: nat| reached_within(self@, n as int, d);
                        assert(self@[n as int].has_child_node(child));
                        let e = ((d + 1) - 1) as nat;
                        assert(e == d);
                        assert(reached_within(self@, n as int, e));
                        assert(reached_within(self@, child as int, d + 1));
                        assert forall|m: int|
                            marked.contains(m) && m != n && !work@.contains(
                                m as usize,
                            ) implies Self::children_marked(self@, marked, m) by {
                            assert(work@[work_then.len() as int] == child);
                            assert(m != child);
                            if work_then.contains(m as usize) {
                                let w = choose|w: int|
                                    0 <= w < work_then.len() && work_then[w] == m as usize;
                                assert(work@[w] == m as usize);
                            }
                            assert(Self::children_marked(self@, marked_before, m));
                        }
                    }
                    count += 1;
                }
                j += 1;
            }
            proof {
                assert(Self::children_marked(self@, marked, n as int));
                assert forall|m: int|
                    marked.contains(m) && !work@.contains(m as usize) implies Self::children_marked(
                    self@,
                    marked,
                    m,
                ) by {}
            }
        }
        proof {
            assert(work@.len() == 0);
            assert forall|n: int| reachable_nodes(self@).contains(n) implies marked.contains(n) by {
                let d = choose|d: nat| reached_within(self@, n, d);
                assert forall|x: int| marked.contains(x) implies 0 <= x < self@.len()
                    && Self::children_marked(self@, marked, x) by {
                    assert(!work@.contains(x as usize));
                }
                Self::lemma_closed_holds_reached(self@, marked, n, d);
            }
            assert(reachable_nodes(self@) =~= marked);
        }
        count
    }
}

} // verus!
