use hyperon::key::{NodeKey, TrieKey, UnbalancedKey};
use hyperon::multitrie::MultiTrie;

fn to_sorted<T: Ord + Clone>(values: Vec<&T>) -> Vec<T> {
    let mut vec: Vec<T> = values.into_iter().cloned().collect();
    vec.sort();
    vec
}

fn exact<T>(symbol: T) -> Vec<NodeKey<T>> {
    vec![NodeKey::Exact(symbol)]
}

fn wild<T>() -> Vec<NodeKey<T>> {
    vec![NodeKey::Wildcard]
}

fn pars<T>(items: Vec<Vec<NodeKey<T>>>) -> Vec<NodeKey<T>> {
    let mut tokens = vec![NodeKey::LeftPar];
    for item in items {
        tokens.extend(item);
    }
    tokens.push(NodeKey::RightPar);
    tokens
}

fn triekey<T>(items: Vec<Vec<NodeKey<T>>>) -> TrieKey<T> {
    TrieKey::from_list(items.into_iter().flatten().collect())
}

#[test]
fn triekey_macro() {
    assert_eq!(triekey::<u32>(vec![]), TrieKey::from_list(vec![]));
    assert_eq!(triekey::<u32>(vec![wild()]), TrieKey::from_list(vec![NodeKey::Wildcard]));
    assert_eq!(triekey(vec![exact(0)]), TrieKey::from_list(vec![NodeKey::Exact(0)]));
    assert_eq!(
        triekey::<u32>(vec![pars(vec![])]),
        TrieKey::from_list(vec![NodeKey::LeftPar, NodeKey::RightPar])
    );
    assert_eq!(
        triekey(vec![pars(vec![exact(0), wild()])]),
        TrieKey::from_list(vec![
            NodeKey::LeftPar,
            NodeKey::Exact(0),
            NodeKey::Wildcard,
            NodeKey::RightPar
        ])
    );
    assert_eq!(
        triekey(vec![pars(vec![pars(vec![exact(0), wild()])])]),
        TrieKey::from_list(vec![
            NodeKey::LeftPar,
            NodeKey::LeftPar,
            NodeKey::Exact(0),
            NodeKey::Wildcard,
            NodeKey::RightPar,
            NodeKey::RightPar
        ])
    );
    assert_eq!(
        triekey(vec![exact(0), wild(), pars(vec![wild()])]),
        TrieKey::from_list(vec![
            NodeKey::Exact(0),
            NodeKey::Wildcard,
            NodeKey::LeftPar,
            NodeKey::Wildcard,
            NodeKey::RightPar
        ])
    );
}

#[test]
fn multi_trie_add_basic() {
    let mut trie = MultiTrie::new();

    trie.add(triekey(vec![exact("A")]), "exact_a");
    trie.add(triekey(vec![wild()]), "wild");
    trie.add(triekey(vec![pars(vec![exact("A"), exact("B")])]), "pars_a_b");
    trie.add(triekey(vec![exact("A"), exact("B")]), "a_b");

    assert_eq!(to_sorted(trie.get(triekey(vec![exact("A")]))), vec!["exact_a", "wild"]);
    assert_eq!(to_sorted(trie.get(triekey(vec![exact("B")]))), vec!["wild"]);
    assert_eq!(to_sorted(trie.get(triekey(vec![wild()]))), vec!["exact_a", "pars_a_b", "wild"]);
    assert_eq!(
        to_sorted(trie.get(triekey(vec![pars(vec![exact("A"), exact("B")])]))),
        vec!["pars_a_b", "wild"]
    );
    assert_eq!(
        to_sorted(trie.get(triekey(vec![pars(vec![exact("A"), exact("C")])]))),
        vec!["wild"]
    );
    assert_eq!(
        to_sorted(trie.get(triekey(vec![pars(vec![exact("A"), wild()])]))),
        vec!["pars_a_b", "wild"]
    );
    assert_eq!(to_sorted(trie.get(triekey(vec![exact("A"), exact("B")]))), vec!["a_b"]);
    assert_eq!(
        to_sorted(trie.get(triekey(vec![exact("A"), exact("C")]))),
        vec![] as Vec<&str>
    );
    assert_eq!(to_sorted(trie.get(triekey(vec![exact("A"), wild()]))), vec!["a_b"]);
}

#[test]
fn multi_trie_add_pars() {
    let mut trie = MultiTrie::new();

    trie.add(triekey(vec![pars(vec![exact("A"), exact("B")])]), "pars_a_b");
    trie.add(triekey(vec![pars(vec![wild(), exact("C")])]), "pars_x_c");

    assert_eq!(
        to_sorted(trie.get(triekey(vec![pars(vec![wild(), exact("B")])]))),
        vec!["pars_a_b"]
    );
    assert_eq!(
        to_sorted(trie.get(triekey(vec![pars(vec![exact("A"), exact("C")])]))),
        vec!["pars_x_c"]
    );
}

#[test]
fn multi_trie_add_subpars_twice() {
    let mut trie: MultiTrie<&'static str, &'static str> = MultiTrie::new();

    trie.add(triekey(vec![pars(vec![])]), "empty_pars");
    trie.add(triekey(vec![pars(vec![])]).clone(), "empty_pars");

    assert_eq!(to_sorted(trie.get(triekey(vec![pars(vec![])]))), vec!["empty_pars"]);
    assert_eq!(to_sorted(trie.get(triekey(vec![wild()]))), vec!["empty_pars"]);
}

#[test]
fn multi_trie_twice_result_because_of_subpars() {
    let mut trie = MultiTrie::new();

    trie.add(triekey(vec![pars(vec![exact("A")])]), "pars_a");
    trie.add(triekey(vec![pars(vec![exact("B")])]), "pars_b");

    assert_eq!(
        to_sorted(trie.get(triekey(vec![pars(vec![wild()])]))),
        vec!["pars_a", "pars_b"]
    );
}

#[test]
fn multi_trie_remove_basic() {
    let mut trie = MultiTrie::new();
    let empty_trie_size = trie.size();
    trie.add(triekey(vec![exact("A")]), "exact_a");
    trie.add(triekey(vec![wild()]), "wild");
    trie.add(triekey(vec![pars(vec![exact("A"), exact("B")])]), "pars_a_b");
    trie.add(triekey(vec![exact("A"), exact("B")]), "a_b");

    trie.remove(triekey(vec![exact("A")]), &"exact_a");
    trie.remove(triekey(vec![wild()]), &"wild");
    trie.remove(triekey(vec![pars(vec![exact("A"), exact("B")])]), &"pars_a_b");
    trie.remove(triekey(vec![exact("A"), exact("B")]), &"a_b");

    assert!(to_sorted(trie.get(triekey(vec![exact("A")]))).is_empty());
    assert!(to_sorted(trie.get(triekey(vec![wild()]))).is_empty());
    assert!(to_sorted(trie.get(triekey(vec![pars(vec![exact("A"), exact("B")])]))).is_empty());
    assert!(to_sorted(trie.get(triekey(vec![exact("A"), exact("B")]))).is_empty());
    assert_eq!(trie.size(), empty_trie_size);
}

#[test]
fn multi_trie_clone() {
    let mut trie = MultiTrie::new();
    let key = triekey(vec![exact(0), wild(), pars(vec![wild()])]);
    trie.add(key.clone(), "test");

    let copy = trie.clone();

    assert_eq!(to_sorted(copy.get(key)), vec!["test"]);
}

#[test]
fn multi_trie_add_key_with_many_subpars() {
    fn with_subpars(nvars: usize) -> TrieKey<NodeKey<usize>> {
        let mut keys = Vec::new();
        keys.push(NodeKey::LeftPar);
        for _i in 0..nvars {
            keys.push(NodeKey::LeftPar);
            keys.push(NodeKey::RightPar);
        }
        keys.push(NodeKey::RightPar);
        TrieKey::from_list(keys)
    }
    let mut trie = MultiTrie::new();

    trie.add(with_subpars(4), 0);
    assert_eq!(trie.size(), 5 * 2 + 1);

    trie.add(with_subpars(8), 0);
    assert_eq!(trie.size(), 20);
}

#[test]
fn trie_key_display() {
    assert_eq!(triekey(vec![exact("A")]).to_string(), "TrieKey(Exact(A))");
    assert_eq!(triekey::<u32>(vec![wild()]).to_string(), "TrieKey(*)");
    assert_eq!(
        triekey(vec![pars(vec![exact("A"), exact("B"), wild()])]).to_string(),
        "TrieKey(LeftPar, Exact(A), Exact(B), *, RightPar)"
    );
}

#[test]
fn unbalanced_keys_are_refused() {
    assert_eq!(
        TrieKey::try_from_list(vec![NodeKey::Exact(1), NodeKey::RightPar, NodeKey::LeftPar]),
        Err(UnbalancedKey::RightParWithoutLeftPar { position: 1 })
    );
    assert_eq!(
        TrieKey::<u32>::try_from_list(vec![
            NodeKey::LeftPar,
            NodeKey::LeftPar,
            NodeKey::RightPar,
            NodeKey::LeftPar,
            NodeKey::Wildcard
        ]),
        Err(UnbalancedKey::LeftParWithoutRightPar { positions: vec![0, 3] })
    );
    assert!(TrieKey::<u32>::try_from_list(vec![]).is_ok());
}

#[test]
fn spans_reach_the_closing_marker() {
    let key = triekey(vec![exact(7), pars(vec![pars(vec![]), wild()]), pars(vec![])]);
    assert_eq!(key.len(), 8);
    assert!(!key.is_empty());
    assert_eq!(key.span(1), 4);
    assert_eq!(key.span(2), 1);
    assert_eq!(key.span(6), 1);
    assert_eq!(key.token(4), &NodeKey::Wildcard);
    assert_eq!(
        TrieKey::<u32>::precalculate_par_sizes(&vec![
            NodeKey::LeftPar,
            NodeKey::Wildcard,
            NodeKey::RightPar
        ]),
        Ok(vec![2, 0, 0])
    );
    assert!(NodeKey::<u32>::LeftPar.is_parenthesis());
    assert!(NodeKey::<u32>::RightPar.is_parenthesis());
    assert!(!NodeKey::<u32>::Wildcard.is_parenthesis());
    assert!(!NodeKey::Exact(1).is_parenthesis());
}

#[test]
fn empty_key_stores_at_the_root() {
    let mut trie: MultiTrie<u32, &str> = MultiTrie::new();
    assert_eq!(trie.size(), 1);
    trie.add(triekey(vec![]), "root");
    assert_eq!(trie.size(), 1);
    assert_eq!(to_sorted(trie.get(triekey(vec![]))), vec!["root"]);
    assert!(trie.get(triekey(vec![wild()])).is_empty());
    assert!(!trie.remove(triekey(vec![]), &"other"));
    assert!(trie.remove(triekey(vec![]), &"root"));
    assert!(!trie.remove(triekey(vec![]), &"root"));
    assert!(trie.get(triekey(vec![])).is_empty());
}

#[test]
fn insert_then_get_yields_the_value() {
    let mut trie = MultiTrie::new();
    let key = || triekey(vec![exact("f"), pars(vec![wild(), pars(vec![exact("x")])]), wild()]);
    trie.add(key(), 1);
    assert!(trie.get(key()).contains(&&1));
}

#[test]
fn stored_wildcard_is_found_by_one_token_or_one_group() {
    let mut trie = MultiTrie::new();
    trie.add(triekey(vec![wild()]), "any");
    assert_eq!(to_sorted(trie.get(triekey(vec![exact("A")]))), vec!["any"]);
    assert_eq!(to_sorted(trie.get(triekey(vec![wild()]))), vec!["any"]);
    assert_eq!(
        to_sorted(trie.get(triekey(vec![pars(vec![exact("A"), pars(vec![exact("B")])])]))),
        vec!["any"]
    );
    assert!(trie.get(triekey(vec![exact("A"), exact("B")])).is_empty());
    assert!(trie.get(triekey(vec![pars(vec![]), pars(vec![])])).is_empty());
}

#[test]
fn query_wildcard_skips_a_stored_group() {
    let mut trie = MultiTrie::new();
    trie.add(triekey(vec![exact("f"), pars(vec![exact("a"), pars(vec![exact("b")])]), exact("g")]), 1);
    assert_eq!(to_sorted(trie.get(triekey(vec![exact("f"), wild(), exact("g")]))), vec![1]);
    assert_eq!(to_sorted(trie.get(triekey(vec![wild(), wild(), wild()]))), vec![1]);
    assert_eq!(
        to_sorted(trie.get(triekey(vec![exact("f"), pars(vec![wild(), wild()]), exact("g")]))),
        vec![1]
    );
    assert!(trie.get(triekey(vec![exact("f"), wild()])).is_empty());
}

#[test]
fn same_value_under_two_keys_is_yielded_twice() {
    let mut trie = MultiTrie::new();
    trie.add(triekey(vec![exact("A")]), "v");
    trie.add(triekey(vec![wild()]), "v");
    assert_eq!(to_sorted(trie.get(triekey(vec![exact("A")]))), vec!["v", "v"]);
    assert!(trie.remove(triekey(vec![exact("A")]), &"v"));
    assert!(trie.get(triekey(vec![exact("A")])).is_empty());
    assert!(trie.get(triekey(vec![wild()])).is_empty());
    assert_eq!(trie.size(), 1);
}

#[test]
fn remove_says_whether_get_found_the_value() {
    let mut trie = MultiTrie::new();
    trie.add(triekey(vec![exact("A"), exact("B")]), "a_b");
    assert!(!trie.remove(triekey(vec![exact("A")]), &"a_b"));
    assert!(!trie.remove(triekey(vec![exact("A"), exact("B")]), &"other"));
    assert_eq!(trie.size(), 3);
    assert!(trie.remove(triekey(vec![exact("A"), wild()]), &"a_b"));
    assert!(trie.get(triekey(vec![exact("A"), exact("B")])).is_empty());
    assert_eq!(trie.size(), 1);
}

#[test]
fn remove_undoes_insert_unless_a_group_opens_behind_the_front() {
    let mut trie = MultiTrie::new();
    let front = || triekey(vec![pars(vec![exact("A"), wild()]), exact("B")]);
    trie.add(front(), 0);
    assert_eq!(trie.size(), 6);
    assert!(trie.remove(front(), &0));
    assert_eq!(trie.size(), 1);

    let behind = || triekey(vec![exact("A"), pars(vec![])]);
    trie.add(behind(), 0);
    assert_eq!(trie.size(), 4);
    assert!(trie.remove(behind(), &0));
    assert_eq!(trie.size(), 2);
    assert!(trie.get(behind()).is_empty());
}

#[test]
fn removals_in_any_order_undo_insertions_of_plain_keys() {
    let pairs = || {
        vec![
            (vec![exact("A")], "v"),
            (vec![wild()], "v"),
            (vec![exact("A"), exact("B")], "v"),
            (vec![exact("A"), wild()], "w"),
            (vec![wild(), exact("B")], "v"),
            (vec![], "root"),
        ]
    };
    for order in [[0, 1, 2, 3, 4, 5], [5, 4, 3, 2, 1, 0], [1, 4, 0, 5, 3, 2], [3, 2, 4, 1, 5, 0]] {
        let mut trie = MultiTrie::new();
        for (key, value) in pairs() {
            trie.add(triekey(key), value);
        }
        assert_eq!(trie.size(), 6);
        let all = pairs();
        for at in order {
            let (key, value) = all[at].clone();
            trie.remove(triekey(key), &value);
        }
        assert_eq!(trie.size(), 1);
        for (key, _) in pairs() {
            assert!(trie.get(triekey(key)).is_empty());
        }
    }
}

#[test]
fn get_yields_what_is_stored_under_matching_keys() {
    let mut trie = MultiTrie::new();
    let stored = vec![
        (vec![exact("f"), pars(vec![exact("a")])], 1),
        (vec![exact("f"), wild()], 2),
        (vec![wild(), pars(vec![wild()])], 3),
        (vec![exact("g"), pars(vec![exact("a")])], 4),
        (vec![exact("f"), pars(vec![exact("a")]), exact("b")], 5),
    ];
    for (key, value) in stored {
        trie.add(triekey(key), value);
    }
    assert_eq!(
        to_sorted(trie.get(triekey(vec![exact("f"), pars(vec![exact("a")])]))),
        vec![1, 2, 3]
    );
    assert_eq!(to_sorted(trie.get(triekey(vec![exact("f"), wild()]))), vec![1, 2, 3]);
    assert_eq!(to_sorted(trie.get(triekey(vec![wild(), wild()]))), vec![1, 2, 3, 4]);
    assert_eq!(
        to_sorted(trie.get(triekey(vec![exact("g"), pars(vec![wild()])]))),
        vec![3, 4]
    );
    assert!(trie.remove(triekey(vec![exact("f"), pars(vec![exact("a")])]), &2));
    assert_eq!(
        to_sorted(trie.get(triekey(vec![exact("f"), pars(vec![exact("a")])]))),
        vec![1, 3]
    );
    assert_eq!(to_sorted(trie.get(triekey(vec![wild(), wild()]))), vec![1, 3, 4]);
}

#[test]
fn explorer_yields_one_value_at_a_time() {
    let mut trie = MultiTrie::new();
    trie.add(triekey(vec![exact("A")]), "exact_a");
    trie.add(triekey(vec![exact("A")]), "again_a");
    trie.add(triekey(vec![wild()]), "wild");
    trie.add(triekey(vec![pars(vec![exact("A"), exact("B")])]), "pars_a_b");

    let mut explorer = trie.explore(triekey(vec![exact("A")]));
    let mut seen = Vec::new();
    while let Some(value) = explorer.next() {
        seen.push(value);
    }
    assert_eq!(explorer.next(), None);
    assert_eq!(to_sorted(seen), vec!["again_a", "exact_a", "wild"]);

    let mut explorer = trie.explore(triekey(vec![wild()]));
    assert!(explorer.next().is_some());
    assert!(explorer.next().is_some());
    let mut rest = 0;
    while explorer.next().is_some() {
        rest += 1;
    }
    assert_eq!(rest, 2);

    for key in [vec![exact("A")], vec![wild()], vec![pars(vec![wild(), exact("B")])], vec![]] {
        let mut explorer = trie.explore(triekey(key.clone()));
        let mut seen = Vec::new();
        while let Some(value) = explorer.next() {
            seen.push(value);
        }
        assert_eq!(to_sorted(seen), to_sorted(trie.get(triekey(key))));
    }
}
