//! Keys of the trie: token sequences with balanced grouping markers.

use vstd::laws_eq::obeys_concrete_eq;
use vstd::prelude::*;
use vstd::string::{to_string_from_display_ensures, StringExecFns};

verus! {

/// One token of a key.
#[derive(PartialEq, Eq, Clone, Debug, Hash)]
pub enum NodeKey<T> {
    /// A concrete symbol.
    Exact(T),
    /// Stands for one symbol or one whole parenthesised group.
    Wildcard,
    /// Opens a group.
    LeftPar,
    /// Closes a group.
    RightPar,
}

impl<T> NodeKey<T> {
    /// Whether the token is one of the two grouping markers.
    pub open spec fn is_par(self) -> bool {
        self is LeftPar || self is RightPar
    }

    /// Whether the token is one of the two grouping markers.
    pub fn is_parenthesis(&self) -> (r: bool)
        ensures
            r == self.is_par(),
    {
        match self {
            NodeKey::LeftPar => true,
            NodeKey::RightPar => true,
            _ => false,
        }
    }
}

/// Whether two tokens are the same.
pub fn same_token<T: PartialEq>(a: &NodeKey<T>, b: &NodeKey<T>) -> (r: bool)
    requires
        obeys_concrete_eq::<T>(),
    ensures
        r == (*a == *b),
{
    proof {
        reveal(obeys_concrete_eq);
    }
    match (a, b) {
        (NodeKey::Exact(x), NodeKey::Exact(y)) => *x == *y,
        (NodeKey::Wildcard, NodeKey::Wildcard) => true,
        (NodeKey::LeftPar, NodeKey::LeftPar) => true,
        (NodeKey::RightPar, NodeKey::RightPar) => true,
        _ => false,
    }
}

/// What a token adds to the nesting depth.
pub open spec fn nesting_step<T>(token: NodeKey<T>) -> int {
    match token {
        NodeKey::LeftPar => 1,
        NodeKey::RightPar => -1,
        _ => 0,
    }
}

/// The number of groups opened minus the number of groups closed among the
/// first `n` tokens.
pub open spec fn depth<T>(tokens: Seq<NodeKey<T>>, n: int) -> int
    decreases n,
{
    if n <= 0 {
        0
    } else {
        depth(tokens, n - 1) + nesting_step(tokens[n - 1])
    }
}

/// Every closing marker has an earlier opening one and every opening marker a
/// later closing one.
pub open spec fn balanced<T>(tokens: Seq<NodeKey<T>>) -> bool {
    &&& forall|n: int| 0 <= n <= tokens.len() ==> #[trigger] depth(tokens, n) >= 0
    &&& depth(tokens, tokens.len() as int) == 0
}

/// The group opened at `i` is closed at `j`: the tokens strictly between the
/// two markers are balanced by themselves.
pub open spec fn closes<T>(tokens: Seq<NodeKey<T>>, i: int, j: int) -> bool {
    &&& 0 <= i < j < tokens.len()
    &&& tokens[i] is LeftPar
    &&& tokens[j] is RightPar
    &&& balanced(tokens.subrange(i + 1, j))
}

/// The position of the marker that closes the group opened at `i`.
pub open spec fn group_end<T>(tokens: Seq<NodeKey<T>>, i: int) -> int {
    choose|j: int| closes(tokens, i, j)
}

/// The distance from the opening marker at `i` to the marker that closes it.
pub open spec fn span_of<T>(tokens: Seq<NodeKey<T>>, i: int) -> int {
    group_end(tokens, i) - i
}

/// The same statement as `closes`, over the depths of the whole sequence.
pub open spec fn closes_by_depth<T>(tokens: Seq<NodeKey<T>>, i: int, j: int) -> bool {
    &&& 0 <= i < j < tokens.len()
    &&& tokens[i] is LeftPar
    &&& tokens[j] is RightPar
    &&& forall|m: int| i < m <= j ==> #[trigger] depth(tokens, m) >= depth(tokens, i + 1)
    &&& depth(tokens, j) == depth(tokens, i + 1)
}

/// The depth inside a slice is the depth of the whole sequence, counted from
/// where the slice starts.
pub proof fn lemma_depth_of_slice<T>(tokens: Seq<NodeKey<T>>, a: int, b: int, n: int)
    requires
        0 <= a <= b <= tokens.len(),
        0 <= n <= b - a,
    ensures
        depth(tokens.subrange(a, b), n) == depth(tokens, a + n) - depth(tokens, a),
    decreases n,
{
    if n > 0 {
        lemma_depth_of_slice(tokens, a, b, n - 1);
        assert(tokens.subrange(a, b)[n - 1] == tokens[a + n - 1]);
    }
}

/// `closes` and `closes_by_depth` say the same.
pub proof fn lemma_closes_by_depth<T>(tokens: Seq<NodeKey<T>>, i: int, j: int)
    ensures
        closes(tokens, i, j) <==> closes_by_depth(tokens, i, j),
{
    if 0 <= i < j < tokens.len() {
        let inner = tokens.subrange(i + 1, j);
        assert forall|n: int| 0 <= n <= inner.len() implies #[trigger] depth(inner, n) == depth(
            tokens,
            i + 1 + n,
        ) - depth(tokens, i + 1) by {
            lemma_depth_of_slice(tokens, i + 1, j, n);
        }
        if closes(tokens, i, j) {
            assert forall|m: int| i < m <= j implies #[trigger] depth(tokens, m) >= depth(tokens, i + 1) by {
                assert(depth(inner, m - i - 1) >= 0);
            }
            assert(depth(inner, inner.len() as int) == 0);
        }
        if closes_by_depth(tokens, i, j) {
            assert forall|n: int| 0 <= n <= inner.len() implies #[trigger] depth(inner, n) >= 0 by {
                assert(depth(tokens, i + 1 + n) >= depth(tokens, i + 1));
            }
        }
    }
}

/// An opening marker is closed by at most one marker.
pub proof fn lemma_closes_once<T>(tokens: Seq<NodeKey<T>>, i: int, j: int, k: int)
    requires
        closes(tokens, i, j),
        closes(tokens, i, k),
    ensures
        j == k,
{
    lemma_closes_by_depth(tokens, i, j);
    lemma_closes_by_depth(tokens, i, k);
    if j < k {
        assert(depth(tokens, j + 1) >= depth(tokens, i + 1));
    }
    if k < j {
        assert(depth(tokens, k + 1) >= depth(tokens, i + 1));
    }
}

/// Where a group is closed at `j`, its span is `j - i`.
pub proof fn lemma_span_of<T>(tokens: Seq<NodeKey<T>>, i: int, j: int)
    requires
        closes(tokens, i, j),
    ensures
        span_of(tokens, i) == j - i,
{
    lemma_closes_once(tokens, i, j, group_end(tokens, i));
}

/// In a balanced sequence every opening marker is closed.
pub proof fn lemma_balanced_closes<T>(tokens: Seq<NodeKey<T>>, i: int)
    requires
        balanced(tokens),
        0 <= i < tokens.len(),
        tokens[i] is LeftPar,
    ensures
        closes(tokens, i, i + span_of(tokens, i)),
        0 < span_of(tokens, i) < tokens.len() - i,
{
    let j = first_return(tokens, i, i + 1);
    lemma_first_return(tokens, i, i + 1);
    lemma_closes_by_depth(tokens, i, j);
    lemma_span_of(tokens, i, j);
}

/// The first position from `m` on at which the depth has come back to what it
/// was before the marker at `i`.
pub open spec fn first_return<T>(tokens: Seq<NodeKey<T>>, i: int, m: int) -> int
    decreases tokens.len() - m,
{
    if m >= tokens.len() {
        m
    } else if depth(tokens, m + 1) <= depth(tokens, i) {
        m
    } else {
        first_return(tokens, i, m + 1)
    }
}

proof fn lemma_first_return<T>(tokens: Seq<NodeKey<T>>, i: int, m: int)
    requires
        balanced(tokens),
        0 <= i < m <= tokens.len(),
        tokens[i] is LeftPar,
        forall|n: int| i < n <= m ==> #[trigger] depth(tokens, n) > depth(tokens, i),
    ensures
        closes_by_depth(tokens, i, first_return(tokens, i, m)),
    decreases tokens.len() - m,
{
    assert(depth(tokens, i + 1) == depth(tokens, i) + 1);
    if m >= tokens.len() {
        assert(depth(tokens, tokens.len() as int) > depth(tokens, i));
        assert(depth(tokens, i) >= 0);
    } else if depth(tokens, m + 1) <= depth(tokens, i) {
        assert(depth(tokens, m + 1) == depth(tokens, m) + nesting_step(tokens[m]));
    } else {
        assert forall|n: int| i < n <= m + 1 implies #[trigger] depth(tokens, n) > depth(tokens, i) by {}
        lemma_first_return(tokens, i, m + 1);
    }
}

/// Why a token sequence is no key.
#[derive(PartialEq, Eq, Clone, Debug)]
pub enum UnbalancedKey {
    /// The closing marker at `position` has no opening marker before it.
    RightParWithoutLeftPar { position: usize },
    /// The opening markers at `positions` are never closed.
    LeftParWithoutRightPar { positions: Vec<usize> },
}

/// `positions` lists, from the outermost in, the opening markers that nothing
/// closes.
pub open spec fn lists_unclosed<T>(tokens: Seq<NodeKey<T>>, positions: Seq<usize>) -> bool {
    &&& positions.len() == depth(tokens, tokens.len() as int)
    &&& forall|q: int|
        0 <= q < positions.len() ==> {
            &&& (#[trigger] positions[q]) < tokens.len()
            &&& tokens[positions[q] as int] is LeftPar
            &&& depth(tokens, positions[q] as int) == q
            &&& forall|m: int| positions[q] < m <= tokens.len() ==> #[trigger] depth(tokens, m) > q
        }
}

/// The spans that belong to the tokens: for an opening marker the distance to
/// the marker that closes it, for every other token zero.
pub open spec fn spans_fit<T>(tokens: Seq<NodeKey<T>>, spans: Seq<usize>) -> bool {
    &&& spans.len() == tokens.len()
    &&& forall|i: int|
        0 <= i < tokens.len() ==> if tokens[i] is LeftPar {
            closes(tokens, i, i + #[trigger] spans[i])
        } else {
            spans[i] == 0
        }
}

/// An ordered token sequence with balanced grouping markers. Each opening
/// marker knows how far away the marker is that closes it.
#[derive(PartialEq, Clone, Debug)]
pub struct TrieKey<T> {
    tokens: Vec<NodeKey<T>>,
    spans: Vec<usize>,
}

impl<T> View for TrieKey<T> {
    type V = Seq<NodeKey<T>>;

    closed spec fn view(&self) -> Seq<NodeKey<T>> {
        self.tokens@
    }
}

impl<T> TrieKey<T> {
    /// The key's invariant: balanced markers, each opening marker with its span.
    pub closed spec fn wf(&self) -> bool {
        &&& balanced(self.tokens@)
        &&& spans_fit(self.tokens@, self.spans@)
    }

    /// The span stored with token `i`.
    pub closed spec fn spec_span(&self, i: int) -> int {
        self.spans@[i] as int
    }

    /// A well-formed key is balanced, and what it stores with an opening
    /// marker is that marker's span.
    pub proof fn lemma_wf(&self)
        requires
            self.wf(),
        ensures
            balanced(self@),
            self@.len() <= usize::MAX,
            forall|i: int|
                0 <= i < self@.len() && self@[i] is LeftPar ==> {
                    &&& #[trigger] self.spec_span(i) == span_of(self@, i)
                    &&& closes(self@, i, i + span_of(self@, i))
                    &&& 0 < span_of(self@, i) < self@.len() - i
                },
    {
        assert(self.tokens@.len() == self.tokens.len());
        assert forall|i: int| 0 <= i < self@.len() && self@[i] is LeftPar implies {
            &&& #[trigger] self.spec_span(i) == span_of(self@, i)
            &&& closes(self@, i, i + span_of(self@, i))
            &&& 0 < span_of(self@, i) < self@.len() - i
        } by {
            assert(closes(self.tokens@, i, i + self.spans@[i]));
            lemma_span_of(self@, i, i + self.spans@[i]);
        }
    }

    /// Computes the span of every opening marker with a stack of the markers
    /// that are still open, or says where the balance fails.
    pub fn precalculate_par_sizes(bare_keys: &Vec<NodeKey<T>>) -> (res: Result<
        Vec<usize>,
        UnbalancedKey,
    >)
        ensures
            res is Ok <==> balanced(bare_keys@),
            res matches Ok(spans) ==> spans_fit(bare_keys@, spans@),
            res matches Err(UnbalancedKey::RightParWithoutLeftPar { position }) ==> {
                &&& position < bare_keys.len()
                &&& depth(bare_keys@, position + 1) < 0
                &&& forall|n: int| 0 <= n <= position ==> #[trigger] depth(bare_keys@, n) >= 0
            },
            res matches Err(UnbalancedKey::LeftParWithoutRightPar { positions }) ==> {
                &&& forall|n: int| 0 <= n <= bare_keys.len() ==> #[trigger] depth(bare_keys@, n) >= 0
                &&& positions.len() > 0
                &&& lists_unclosed(bare_keys@, positions@)
            },
    {
        let ghost tokens = bare_keys@;
        let mut left_par_stack: Vec<usize> = Vec::new();
        let mut spans: Vec<usize> = Vec::new();
        let mut pos: usize = 0;
        while pos < bare_keys.len()
            invariant
                tokens == bare_keys@,
                pos <= tokens.len(),
                spans.len() == pos,
                left_par_stack.len() == depth(tokens, pos as int),
                forall|n: int| 0 <= n <= pos ==> #[trigger] depth(tokens, n) >= 0,
                forall|q: int|
                    0 <= q < left_par_stack.len() ==> {
                        &&& (#[trigger] left_par_stack[q]) < pos
                        &&& tokens[left_par_stack[q] as int] is LeftPar
                        &&& depth(tokens, left_par_stack[q] as int) == q
                        &&& spans[left_par_stack[q] as int] == 0
                        &&& forall|m: int| left_par_stack[q] < m <= pos ==> #[trigger] depth(tokens, m) > q
                    },
                forall|i: int|
                    0 <= i < pos ==> if tokens[i] is LeftPar {
                        ||| closes_by_depth(tokens, i, i + #[trigger] spans[i])
                        ||| exists|q: int| 0 <= q < left_par_stack.len() && #[trigger] left_par_stack[q] == i
                    } else {
                        spans[i] == 0
                    },
            decreases tokens.len() - pos,
        {
            assert(depth(tokens, pos + 1) == depth(tokens, pos as int) + nesting_step(
                tokens[pos as int],
            ));
            let ghost stack0 = left_par_stack@;
            let ghost spans0 = spans@;
            spans.push(0);
            match &bare_keys[pos] {
                NodeKey::LeftPar => {
                    let ghost before = left_par_stack@;
                    left_par_stack.push(pos);
                    proof {
                        assert forall|i: int| 0 <= i < pos + 1 && tokens[i] is LeftPar implies (
                        closes_by_depth(tokens, i, i + #[trigger] spans[i]) || exists|q: int|
                            0 <= q < left_par_stack.len() && #[trigger] left_par_stack[q] == i) by {
                            if i < pos && !closes_by_depth(tokens, i, i + spans[i]) {
                                assert(spans[i] == spans0[i]);
                                let q = choose|q: int|
                                    0 <= q < stack0.len() && #[trigger] stack0[q] == i;
                                assert(left_par_stack[q] == i);
                            } else if i == pos {
                                assert(left_par_stack[before.len() as int] == i);
                            }
                        }
                    }
                },
                NodeKey::RightPar => {
                    match left_par_stack.pop() {
                        None => {
                            return Err(UnbalancedKey::RightParWithoutLeftPar { position: pos });
                        },
                        Some(start) => {
                            let ghost before = left_par_stack@.push(start);
                            let ghost spans_before = spans@;
                            spans[start] = pos - start;
                            proof {
                                assert(before =~= stack0);
                                assert(before[before.len() - 1] == start);
                                assert(depth(tokens, start + 1) == depth(tokens, start as int)
                                    + nesting_step(tokens[start as int]));
                                assert(closes_by_depth(tokens, start as int, pos as int));
                                assert forall|i: int|
                                    0 <= i < pos + 1 && tokens[i] is LeftPar implies (
                                closes_by_depth(tokens, i, i + #[trigger] spans[i]) || exists|
                                    q: int,
                                |
                                    0 <= q < left_par_stack.len() && #[trigger] left_par_stack[q] == i) by {
                                    if i != start {
                                        assert(spans[i] == spans0[i]);
                                        if !closes_by_depth(tokens, i, i + spans0[i]) {
                                            let q = choose|q: int|
                                                0 <= q < stack0.len() && #[trigger] stack0[q] == i;
                                            assert(q < left_par_stack.len());
                                            assert(left_par_stack[q] == i);
                                        }
                                    }
                                }
                            }
                        },
                    }
                },
                _ => {},
            }
            pos += 1;
        }
        if left_par_stack.len() == 0 {
            proof {
                assert forall|i: int| 0 <= i < tokens.len() && tokens[i] is LeftPar implies closes(
                    tokens,
                    i,
                    i + #[trigger] spans[i],
                ) by {
                    lemma_closes_by_depth(tokens, i, i + spans[i]);
                }
            }
            Ok(spans)
        } else {
            Err(UnbalancedKey::LeftParWithoutRightPar { positions: left_par_stack })
        }
    }

    /// The key made of `keys`, where they are balanced.
    pub fn try_from_list(keys: Vec<NodeKey<T>>) -> (res: Result<Self, UnbalancedKey>)
        ensures
            res is Ok <==> balanced(keys@),
            res matches Ok(key) ==> key@ == keys@ && key.wf(),
            res matches Err(UnbalancedKey::RightParWithoutLeftPar { position }) ==> {
                &&& position < keys.len()
                &&& depth(keys@, position + 1) < 0
                &&& forall|n: int| 0 <= n <= position ==> #[trigger] depth(keys@, n) >= 0
            },
            res matches Err(UnbalancedKey::LeftParWithoutRightPar { positions }) ==> {
                &&& forall|n: int| 0 <= n <= keys.len() ==> #[trigger] depth(keys@, n) >= 0
                &&& positions.len() > 0
                &&& lists_unclosed(keys@, positions@)
            },
    {
        match Self::precalculate_par_sizes(&keys) {
            Ok(spans) => Ok(TrieKey { tokens: keys, spans }),
            Err(e) => Err(e),
        }
    }

    /// The key made of `keys`, which must be balanced.
    pub fn from_list(keys: Vec<NodeKey<T>>) -> (key: Self)
        requires
            balanced(keys@),
        ensures
            key@ == keys@,
            key.wf(),
    {
        match Self::try_from_list(keys) {
            Ok(key) => key,
            Err(_) => vstd::pervasive::unreached(),
        }
    }

    /// Takes the key apart into its tokens and their spans.
    pub fn into_parts(self) -> (parts: (Vec<NodeKey<T>>, Vec<usize>))
        requires
            self.wf(),
        ensures
            parts.0@ == self@,
            balanced(parts.0@),
            spans_fit(parts.0@, parts.1@),
    {
        (self.tokens, self.spans)
    }

    /// The number of tokens.
    pub fn len(&self) -> (n: usize)
        ensures
            n == self@.len(),
    {
        self.tokens.len()
    }

    /// Whether the key has no token.
    pub fn is_empty(&self) -> (r: bool)
        ensures
            r == (self@.len() == 0),
    {
        self.tokens.len() == 0
    }

    /// Token `i`.
    pub fn token(&self, i: usize) -> (t: &NodeKey<T>)
        requires
            i < self@.len(),
        ensures
            *t == self@[i as int],
    {
        &self.tokens[i]
    }

    /// The distance from the opening marker at `i` to the marker that closes
    /// it.
    pub fn span(&self, i: usize) -> (s: usize)
        requires
            self.wf(),
            i < self@.len(),
            self@[i as int] is LeftPar,
        ensures
            s == span_of(self@, i as int),
            closes(self@, i as int, i + s),
    {
        proof {
            self.lemma_wf();
            assert(self.spec_span(i as int) == span_of(self@, i as int));
        }
        self.spans[i]
    }
}

/// Whether `text` is how a token is written: a symbol as `Exact(..)` around
/// what the symbol's own `Display` gives, a wildcard as `*`, the markers by
/// their names.
pub open spec fn token_shown<T: core::fmt::Display>(token: NodeKey<T>, text: Seq<char>) -> bool {
    match token {
        NodeKey::Exact(symbol) => exists|shown: String|
            #[trigger] to_string_from_display_ensures::<T>(&symbol, shown) && text == "Exact("@
                + shown@ + ")"@,
        NodeKey::Wildcard => text == "*"@,
        NodeKey::LeftPar => text == "LeftPar"@,
        NodeKey::RightPar => text == "RightPar"@,
    }
}

/// The first `k` of `texts`, with a comma and a blank between each two.
pub open spec fn comma_separated(texts: Seq<Seq<char>>, k: int) -> Seq<char>
    decreases k,
{
    if k <= 0 {
        Seq::empty()
    } else if k == 1 {
        texts[0]
    } else {
        comma_separated(texts, k - 1) + ", "@ + texts[k - 1]
    }
}

impl<T: core::fmt::Display> NodeKey<T> {
    /// How the token is written.
    pub fn to_string(&self) -> (text: String)
        ensures
            token_shown(*self, text@),
    {
        match self {
            NodeKey::Exact(symbol) => {
                let shown = symbol.to_string();
                let mut text = String::from_str("Exact(");
                text.append(shown.as_str());
                text.append(")");
                text
            },
            NodeKey::Wildcard => String::from_str("*"),
            NodeKey::LeftPar => String::from_str("LeftPar"),
            NodeKey::RightPar => String::from_str("RightPar"),
        }
    }
}

impl<T: core::fmt::Display> TrieKey<T> {
    /// How the key is written: `TrieKey(` and `)` around its tokens, with a
    /// comma and a blank between each two.
    pub fn to_string(&self) -> (text: String)
        ensures
            exists|texts: Seq<Seq<char>>|
                {
                    &&& texts.len() == self@.len()
                    &&& forall|i: int| 0 <= i < texts.len() ==> token_shown(self@[i], #[trigger] texts[i])
                    &&& text@ == "TrieKey("@ + comma_separated(texts, texts.len() as int) + ")"@
                },
    {
        let mut text = String::from_str("TrieKey(");
        let ghost mut texts: Seq<Seq<char>> = Seq::empty();
        let mut i: usize = 0;
        while i < self.tokens.len()
            invariant
                i <= self.tokens.len(),
                texts.len() == i,
                forall|j: int| 0 <= j < i ==> token_shown(self.tokens@[j], #[trigger] texts[j]),
                text@ == "TrieKey("@ + comma_separated(texts, i as int),
            decreases self.tokens.len() - i,
        {
            let shown = self.tokens[i].to_string();
            let ghost before = texts;
            proof {
                texts = texts.push(shown@);
                assert forall|j: int| 0 <= j < i + 1 implies token_shown(
                    self.tokens@[j],
                    #[trigger] texts[j],
                ) by {
                    if j < i {
                        assert(texts[j] == before[j]);
                    }
                }
                lemma_comma_separated_prefix(before, texts, i as int);
            }
            if i > 0 {
                text.append(", ");
            }
            text.append(shown.as_str());
            proof {
                assert(text@ =~= "TrieKey("@ + comma_separated(texts, i + 1));
            }
            i += 1;
        }
        text.append(")");
        text
    }
}

/// What is written of the first `k` texts does not depend on the texts
/// behind them.
pub proof fn lemma_comma_separated_prefix(a: Seq<Seq<char>>, b: Seq<Seq<char>>, k: int)
    requires
        0 <= k <= a.len() <= b.len(),
        forall|j: int| 0 <= j < k ==> a[j] == b[j],
    ensures
        comma_separated(a, k) == comma_separated(b, k),
    decreases k,
{
    if k > 1 {
        lemma_comma_separated_prefix(a, b, k - 1);
    }
}

} // verus!
