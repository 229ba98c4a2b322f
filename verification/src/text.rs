//! The reader for source text in S-expression syntax: it cuts the text into a
//! tree of syntax nodes.

use core::ops::Range;
use vstd::prelude::*;
use vstd::string::StringExecFns;
use vstd::string::StringSliceAdditionalSpecFns;
use vstd::utf8::{encode_scalar, encode_utf8};

verus! {

/// What `char::is_whitespace` of the standard library returns for a
/// character: whether it has the Unicode property `White_Space`.
pub uninterp spec fn white_space(c: char) -> bool;

/// `char::is_whitespace` of the standard library. The documentation says that
/// it tells whether the character has the property `White_Space` of the
/// Unicode character database; the contract gives that answer a name.
pub assume_specification[ char::is_whitespace ](c: char) -> (r: bool)
    ensures
        r == white_space(c),
;

/// `char::len_utf8` of the standard library. The documentation says that it
/// returns the number of bytes that the character needs when it is encoded in
/// UTF-8; the contract says so over the encoding that `vstd` defines.
pub assume_specification[ char::len_utf8 ](c: char) -> (n: usize)
    ensures
        n == encode_scalar(c as u32).len(),
;

/// `String::push` of the standard library. The documentation says that it
/// appends the character to the end of the string.
pub assume_specification[ String::push ](s: &mut String, c: char)
    ensures
        final(s)@ == old(s)@.push(c),
;

/// The meaning of a piece of the source text.
#[derive(Clone, Copy, Debug, PartialEq, Eq)]
pub enum SyntaxNodeType {
    /// A comment: the text from a `;` to the end of the line.
    Comment,
    /// A variable: a word that begins with `$`.
    VariableToken,
    /// A string literal: the text between two double quotes.
    StringToken,
    /// Any other word.
    WordToken,
    /// The `(` that begins an expression.
    OpenParen,
    /// The `)` that ends an expression.
    CloseParen,
    /// One whitespace character.
    Whitespace,
    /// The text that was left unread behind an error.
    LeftoverText,
    /// The nodes from a `(` to the `)` that closes it.
    ExpressionGroup,
    /// Nodes that make no expression because of an error.
    ErrorGroup,
}

impl SyntaxNodeType {
    /// Whether a node of this type can have no nodes below it.
    pub open spec fn spec_is_leaf(self) -> bool {
        !(self is ExpressionGroup || self is ErrorGroup)
    }

    /// Whether a node of this type can have no nodes below it.
    pub fn is_leaf(&self) -> (r: bool)
        ensures
            r == self.spec_is_leaf(),
    {
        match self {
            Self::ExpressionGroup | Self::ErrorGroup => false,
            _ => true,
        }
    }
}

/// A syntax node as a mathematical value.
pub struct SyntaxTree {
    pub node_type: SyntaxNodeType,
    pub start: usize,
    pub end: usize,
    pub sub_nodes: Seq<SyntaxTree>,
    pub parsed_text: Option<Seq<char>>,
    pub message: Option<Seq<char>>,
    pub is_complete: bool,
}

/// A piece of the source text with its meaning: where it lies in the text, in
/// bytes; the nodes below it; the text of a token; and, where reading
/// failed, the reason.
#[derive(Debug)]
pub struct SyntaxNode {
    pub node_type: SyntaxNodeType,
    pub src_range: Range<usize>,
    pub sub_nodes: Vec<SyntaxNode>,
    pub parsed_text: Option<String>,
    pub message: Option<String>,
    pub is_complete: bool,
}

/// The text of a string that may be missing.
pub open spec fn text_of(s: Option<String>) -> Option<Seq<char>> {
    match s {
        Some(s) => Some(s@),
        None => None,
    }
}

impl View for SyntaxNode {
    type V = SyntaxTree;

    open spec fn view(&self) -> SyntaxTree
        decreases self, 0int,
    {
        SyntaxTree {
            node_type: self.node_type,
            start: self.src_range.start,
            end: self.src_range.end,
            sub_nodes: trees_of(self.sub_nodes@, self.sub_nodes@.len() as int),
            parsed_text: text_of(self.parsed_text),
            message: text_of(self.message),
            is_complete: self.is_complete,
        }
    }
}

/// The first `k` of `nodes` as mathematical values.
pub open spec fn trees_of(nodes: Seq<SyntaxNode>, k: int) -> Seq<SyntaxTree>
    decreases nodes, k,
{
    if k <= 0 || k > nodes.len() {
        Seq::empty()
    } else {
        trees_of(nodes, k - 1).push(nodes[k - 1].view())
    }
}

/// The values of a sequence of nodes are the values of the nodes, one for
/// one.
pub proof fn lemma_trees_of(nodes: Seq<SyntaxNode>, k: int)
    requires
        0 <= k <= nodes.len(),
    ensures
        trees_of(nodes, k).len() == k,
        forall|j: int| 0 <= j < k ==> (#[trigger] trees_of(nodes, k)[j]) == nodes[j]@,
    decreases k,
{
    reveal_with_fuel(trees_of, 2);
    if k > 0 {
        lemma_trees_of(nodes, k - 1);
        assert(trees_of(nodes, k) == trees_of(nodes, k - 1).push(nodes[k - 1].view()));
    }
}

/// A copy of a string that may be missing.
fn clone_text(s: &Option<String>) -> (res: Option<String>)
    ensures
        text_of(res) == text_of(*s),
{
    match s {
        Some(s) => Some(s.clone()),
        None => None,
    }
}

impl Clone for SyntaxNode {
    fn clone(&self) -> (res: Self)
        ensures
            res.view() == (*self).view(),
        decreases self,
    {
        let mut sub_nodes: Vec<SyntaxNode> = Vec::new();
        let mut i: usize = 0;
        while i < self.sub_nodes.len()
            invariant
                i <= self.sub_nodes.len(),
                sub_nodes.len() == i,
                forall|j: int| 0 <= j < i ==> (#[trigger] sub_nodes[j])@ == self.sub_nodes[j]@,
            decreases self.sub_nodes.len() - i,
        {
            let node = self.sub_nodes[i].clone();
            sub_nodes.push(node);
            i += 1;
        }
        let res = SyntaxNode {
            node_type: self.node_type,
            src_range: self.src_range.start..self.src_range.end,
            sub_nodes,
            parsed_text: clone_text(&self.parsed_text),
            message: clone_text(&self.message),
            is_complete: self.is_complete,
        };
        proof {
            lemma_trees_of(res.sub_nodes@, res.sub_nodes@.len() as int);
            lemma_trees_of(self.sub_nodes@, self.sub_nodes@.len() as int);
            assert(res.view().sub_nodes =~= (*self).view().sub_nodes);
        }
        res
    }
}

/// All of `nodes` as mathematical values.
pub open spec fn all_trees(nodes: Seq<SyntaxNode>) -> Seq<SyntaxTree> {
    trees_of(nodes, nodes.len() as int)
}

/// The values of a sequence with one more node are the values of the
/// sequence and the value of the node.
pub proof fn lemma_trees_push(nodes: Seq<SyntaxNode>, node: SyntaxNode)
    ensures
        all_trees(nodes.push(node)) == all_trees(nodes).push(node@),
        all_trees(Seq::<SyntaxNode>::empty()) == Seq::<SyntaxTree>::empty(),
{
    let more = nodes.push(node);
    lemma_trees_of(nodes, nodes.len() as int);
    lemma_trees_of(more, more.len() as int);
    assert(all_trees(more) =~= all_trees(nodes).push(node@));
}

impl SyntaxTree {
    /// A node that read well, without nodes below it and without text.
    pub open spec fn plain(node_type: SyntaxNodeType, start: usize, end: usize) -> SyntaxTree {
        SyntaxTree {
            node_type,
            start,
            end,
            sub_nodes: Seq::empty(),
            parsed_text: None,
            message: None,
            is_complete: true,
        }
    }

    /// A node that read well, with the nodes below it.
    pub open spec fn group(
        node_type: SyntaxNodeType,
        start: usize,
        end: usize,
        sub_nodes: Seq<SyntaxTree>,
    ) -> SyntaxTree {
        SyntaxTree {
            node_type,
            start,
            end,
            sub_nodes,
            parsed_text: None,
            message: None,
            is_complete: true,
        }
    }

    /// A token with its text.
    pub open spec fn token(
        node_type: SyntaxNodeType,
        start: usize,
        end: usize,
        text: Seq<char>,
    ) -> SyntaxTree {
        SyntaxTree {
            node_type,
            start,
            end,
            sub_nodes: Seq::empty(),
            parsed_text: Some(text),
            message: None,
            is_complete: true,
        }
    }

    /// A node at which reading failed, with the reason.
    pub open spec fn incomplete(
        node_type: SyntaxNodeType,
        start: usize,
        end: usize,
        sub_nodes: Seq<SyntaxTree>,
        message: Seq<char>,
    ) -> SyntaxTree {
        SyntaxTree {
            node_type,
            start,
            end,
            sub_nodes,
            parsed_text: None,
            message: Some(message),
            is_complete: false,
        }
    }

    /// The group of nodes of which the last one failed: it fails for the same
    /// reason.
    pub open spec fn error_group(start: usize, end: usize, sub_nodes: Seq<SyntaxTree>) -> SyntaxTree {
        SyntaxTree {
            node_type: SyntaxNodeType::ErrorGroup,
            start,
            end,
            sub_nodes,
            parsed_text: None,
            message: sub_nodes.last().message,
            is_complete: false,
        }
    }

    /// Whether the node holds what its type and state promise: a node that
    /// failed has a reason, a token that read well has its text, leftover
    /// text and error groups have failed, and the same holds of the nodes
    /// below an expression that read well.
    pub open spec fn sound(self) -> bool
        decreases self,
    {
        if !self.is_complete {
            self.message is Some
        } else {
            match self.node_type {
                SyntaxNodeType::VariableToken
                | SyntaxNodeType::StringToken
                | SyntaxNodeType::WordToken => self.parsed_text is Some,
                SyntaxNodeType::LeftoverText | SyntaxNodeType::ErrorGroup => false,
                SyntaxNodeType::ExpressionGroup => forall|j: int|
                    0 <= j < self.sub_nodes.len() ==> (#[trigger] self.sub_nodes[j]).sound(),
                _ => true,
            }
        }
    }
}

impl SyntaxNode {
    /// Whether the node holds what its type and state promise.
    pub fn is_sound(&self) -> (r: bool)
        ensures
            r == self@.sound(),
        decreases self,
    {
        if !self.is_complete {
            return self.message.is_some();
        }
        match self.node_type {
            SyntaxNodeType::VariableToken
            | SyntaxNodeType::StringToken
            | SyntaxNodeType::WordToken => self.parsed_text.is_some(),
            SyntaxNodeType::LeftoverText | SyntaxNodeType::ErrorGroup => false,
            SyntaxNodeType::ExpressionGroup => {
                proof {
                    lemma_trees_of(self.sub_nodes@, self.sub_nodes@.len() as int);
                }
                let mut i: usize = 0;
                while i < self.sub_nodes.len()
                    invariant
                        i <= self.sub_nodes.len(),
                        self@.sub_nodes.len() == self.sub_nodes.len(),
                        self@.is_complete,
                        self@.node_type is ExpressionGroup,
                        forall|j: int|
                            0 <= j < self.sub_nodes.len() ==> (#[trigger] self@.sub_nodes[j])
                                == self.sub_nodes[j]@,
                        forall|j: int| 0 <= j < i ==> (#[trigger] self@.sub_nodes[j]).sound(),
                    decreases self.sub_nodes.len() - i,
                {
                    if !self.sub_nodes[i].is_sound() {
                        assert(!self@.sub_nodes[i as int].sound());
                        return false;
                    }
                    i += 1;
                }
                true
            },
            _ => true,
        }
    }

    /// A node that read well.
    pub fn new(node_type: SyntaxNodeType, src_range: Range<usize>, sub_nodes: Vec<SyntaxNode>) -> (node:
        SyntaxNode)
        ensures
            node@ == SyntaxTree::group(
                node_type,
                src_range.start,
                src_range.end,
                all_trees(sub_nodes@),
            ),
    {
        Self {
            node_type,
            src_range,
            parsed_text: None,
            sub_nodes,
            message: None,
            is_complete: true,
        }
    }

    /// A token with its text.
    pub fn new_token_node(
        node_type: SyntaxNodeType,
        src_range: Range<usize>,
        parsed_text: String,
    ) -> (node: SyntaxNode)
        ensures
            node@ == SyntaxTree::token(node_type, src_range.start, src_range.end, parsed_text@),
    {
        let mut node = SyntaxNode::new(node_type, src_range, Vec::new());
        proof {
            lemma_trees_push(Seq::empty(), node);
        }
        node.parsed_text = Some(parsed_text);
        node
    }

    /// A node at which reading failed, with the reason.
    pub fn incomplete_with_message(
        node_type: SyntaxNodeType,
        src_range: Range<usize>,
        sub_nodes: Vec<SyntaxNode>,
        message: String,
    ) -> (node: SyntaxNode)
        ensures
            node@ == SyntaxTree::incomplete(
                node_type,
                src_range.start,
                src_range.end,
                all_trees(sub_nodes@),
                message@,
            ),
    {
        let mut node = SyntaxNode::new(node_type, src_range, sub_nodes);
        node.message = Some(message);
        node.is_complete = false;
        node
    }

    /// The group of nodes of which the last one failed.
    pub fn new_error_group(src_range: Range<usize>, sub_nodes: Vec<SyntaxNode>) -> (node:
        SyntaxNode)
        requires
            sub_nodes.len() > 0,
        ensures
            node@ == SyntaxTree::error_group(
                src_range.start,
                src_range.end,
                all_trees(sub_nodes@),
            ),
    {
        proof {
            lemma_trees_of(sub_nodes@, sub_nodes@.len() as int);
        }
        let message = clone_text(&sub_nodes[sub_nodes.len() - 1].message);
        let mut node = SyntaxNode::new(SyntaxNodeType::ErrorGroup, src_range, sub_nodes);
        node.message = message;
        node.is_complete = false;
        node
    }
}

/// The number of bytes that the first `i` characters take in UTF-8.
pub open spec fn byte_offset(chars: Seq<char>, i: int) -> int
    decreases i,
{
    if i <= 0 {
        0
    } else {
        byte_offset(chars, i - 1) + encode_scalar(chars[i - 1] as u32).len()
    }
}

/// The byte offset of position `i`, as the machine holds it.
pub open spec fn at(chars: Seq<char>, i: int) -> usize {
    byte_offset(chars, i) as usize
}

/// Every character takes at least one byte, so offsets grow with positions.
pub proof fn lemma_byte_offset_grows(chars: Seq<char>, i: int, j: int)
    requires
        0 <= i <= j,
    ensures
        byte_offset(chars, i) + (j - i) <= byte_offset(chars, j),
        byte_offset(chars, i) >= 0,
    decreases j,
{
    if i < j {
        lemma_byte_offset_grows(chars, i, j - 1);
    } else if i > 0 {
        lemma_byte_offset_grows(chars, i - 1, i - 1);
    }
}

/// The byte offset behind the first character and the `i` that follow it is
/// the first character's width more than the byte offset of `i` in the rest.
pub proof fn lemma_byte_offset_front(chars: Seq<char>, i: int)
    requires
        0 <= i < chars.len(),
    ensures
        byte_offset(chars, i + 1) == encode_scalar(chars[0] as u32).len() + byte_offset(
            chars.drop_first(),
            i,
        ),
    decreases i,
{
    if i > 0 {
        lemma_byte_offset_front(chars, i - 1);
        assert(chars.drop_first()[i - 1] == chars[i]);
    } else {
        assert(byte_offset(chars, 0) == 0);
        assert(byte_offset(chars.drop_first(), 0) == 0);
    }
}

/// The byte offset of the end of a text is the length of its encoding.
pub proof fn lemma_byte_offset_of_end(chars: Seq<char>)
    ensures
        byte_offset(chars, chars.len() as int) == encode_utf8(chars).len(),
    decreases chars.len(),
{
    if chars.len() > 0 {
        lemma_byte_offset_of_end(chars.drop_first());
        lemma_byte_offset_front(chars, chars.len() - 1);
    }
}

/// Whether a character ends a word: whitespace and the two parentheses do.
pub open spec fn ends_word(c: char) -> bool {
    white_space(c) || c == '(' || c == ')'
}

/// The end of the comment that begins at `p`: the end of the line.
pub open spec fn comment_end(chars: Seq<char>, p: int) -> int
    decreases chars.len() - p,
{
    if p < 0 || p >= chars.len() || chars[p] == '\n' {
        p
    } else {
        comment_end(chars, p + 1)
    }
}

/// The end of the word that begins at `p`.
pub open spec fn word_end(chars: Seq<char>, p: int) -> int
    decreases chars.len() - p,
{
    if p < 0 || p >= chars.len() || ends_word(chars[p]) {
        p
    } else {
        word_end(chars, p + 1)
    }
}

/// The position of the first `#` from `p` on and before `e`, if there is
/// one, else `e`.
pub open spec fn first_lattice(chars: Seq<char>, p: int, e: int) -> int
    decreases e - p,
{
    if p >= e || chars[p] == '#' {
        p
    } else {
        first_lattice(chars, p + 1, e)
    }
}

/// The comment that begins at `p`, and where reading goes on.
pub open spec fn parsed_comment(chars: Seq<char>, p: int) -> (SyntaxTree, int) {
    let e = comment_end(chars, p);
    (SyntaxTree::plain(SyntaxNodeType::Comment, at(chars, p), at(chars, e)), e)
}

/// All the text from `p` on, left unread for the reason given.
pub open spec fn parsed_leftovers(chars: Seq<char>, p: int, message: Seq<char>) -> (
    SyntaxTree,
    int,
) {
    let e = chars.len() as int;
    (
        SyntaxTree::incomplete(
            SyntaxNodeType::LeftoverText,
            at(chars, p),
            at(chars, e),
            Seq::empty(),
            message,
        ),
        e,
    )
}

/// The word that begins at `p`.
pub open spec fn parsed_word(chars: Seq<char>, p: int) -> (SyntaxTree, int) {
    let e = word_end(chars, p);
    (
        SyntaxTree::token(
            SyntaxNodeType::WordToken,
            at(chars, p),
            at(chars, e),
            chars.subrange(p, e),
        ),
        e,
    )
}

/// The variable whose `$` stands at `p`: its name is the word behind the
/// `$`. A `#` in the name is an error that leaves all the text from `p` on
/// unread.
pub open spec fn parsed_variable(chars: Seq<char>, p: int) -> (SyntaxTree, int) {
    let e = word_end(chars, p + 1);
    if first_lattice(chars, p + 1, e) < e {
        parsed_leftovers(chars, p, "'#' char is reserved for internal usage"@)
    } else {
        (
            SyntaxTree::token(
                SyntaxNodeType::VariableToken,
                at(chars, p),
                at(chars, e),
                chars.subrange(p + 1, e),
            ),
            e,
        )
    }
}

/// The rest of the string literal that began at `begin`, read from `q` on,
/// where `token` is what was read of it before. A backslash takes the next
/// character as it is.
pub open spec fn string_rest(chars: Seq<char>, begin: int, q: int, token: Seq<char>) -> (
    SyntaxTree,
    int,
)
    decreases chars.len() - q,
{
    let len = chars.len() as int;
    if q < 0 || q >= len {
        (
            SyntaxTree::incomplete(
                SyntaxNodeType::StringToken,
                at(chars, begin),
                at(chars, len),
                Seq::empty(),
                "Unclosed String Literal"@,
            ),
            len,
        )
    } else if chars[q] == '"' {
        (
            SyntaxTree::token(
                SyntaxNodeType::StringToken,
                at(chars, begin),
                at(chars, q + 1),
                token.push('"'),
            ),
            q + 1,
        )
    } else if chars[q] == '\\' {
        if q + 1 >= len {
            (
                SyntaxTree::incomplete(
                    SyntaxNodeType::StringToken,
                    at(chars, begin),
                    at(chars, len),
                    Seq::empty(),
                    "Escaping sequence is not finished"@,
                ),
                len,
            )
        } else {
            string_rest(chars, begin, q + 2, token.push(chars[q + 1]))
        }
    } else {
        string_rest(chars, begin, q + 1, token.push(chars[q]))
    }
}

/// The string literal that begins at `p`. Where no double quote stands at
/// `p`, one character is taken and reading fails.
pub open spec fn parsed_string(chars: Seq<char>, p: int) -> (SyntaxTree, int) {
    if 0 <= p < chars.len() && chars[p] == '"' {
        string_rest(chars, p, p + 1, seq!['"'])
    } else {
        let e = if p < chars.len() {
            p + 1
        } else {
            p
        };
        (
            SyntaxTree::incomplete(
                SyntaxNodeType::LeftoverText,
                at(chars, p),
                at(chars, e),
                Seq::empty(),
                "Double quote expected"@,
            ),
            e,
        )
    }
}

/// The token that begins at `p`: a string literal or a word; none at the end
/// of the text.
pub open spec fn parsed_token(chars: Seq<char>, p: int) -> Option<(SyntaxTree, int)> {
    if p < 0 || p >= chars.len() {
        None
    } else if chars[p] == '"' {
        Some(parsed_string(chars, p))
    } else {
        Some(parsed_word(chars, p))
    }
}

/// The node that begins at `p`, and where reading goes on; none at the end
/// of the text. A closing parenthesis outside an expression is an error that
/// leaves the rest of the text unread.
pub open spec fn parsed_tree(chars: Seq<char>, p: int) -> Option<(SyntaxTree, int)>
    decreases chars.len() - p, 2int,
{
    if p < 0 || p >= chars.len() {
        None
    } else {
        let c = chars[p];
        if c == ';' {
            Some(parsed_comment(chars, p))
        } else if white_space(c) {
            Some(
                (
                    SyntaxTree::plain(
                        SyntaxNodeType::Whitespace,
                        at(chars, p),
                        (at(chars, p) + 1) as usize,
                    ),
                    p + 1,
                ),
            )
        } else if c == '$' {
            Some(parsed_variable(chars, p))
        } else if c == '(' {
            Some(parsed_expr(chars, p))
        } else if c == ')' {
            let close = SyntaxTree::plain(
                SyntaxNodeType::CloseParen,
                at(chars, p),
                (at(chars, p) + 1) as usize,
            );
            let (leftover, e) = parsed_leftovers(chars, p + 1, "Unexpected right bracket"@);
            Some((SyntaxTree::error_group(at(chars, p), at(chars, e), seq![close, leftover]), e))
        } else {
            parsed_token(chars, p)
        }
    }
}

/// The expression whose `(` stands at `p`.
pub open spec fn parsed_expr(chars: Seq<char>, p: int) -> (SyntaxTree, int)
    decreases chars.len() - p, 1int,
{
    if p < 0 || p >= chars.len() {
        (arbitrary(), p)
    } else {
        expr_items(
            chars,
            p,
            p + 1,
            seq![
                SyntaxTree::plain(
                    SyntaxNodeType::OpenParen,
                    at(chars, p),
                    (at(chars, p) + 1) as usize,
                ),
            ],
        )
    }
}

/// The rest of the expression that began at `begin`, read from `q` on, where
/// `items` are the nodes read of it before. The expression ends with its
/// `)`. It fails where one of its nodes fails, and at the end of the text.
pub open spec fn expr_items(chars: Seq<char>, begin: int, q: int, items: Seq<SyntaxTree>) -> (
    SyntaxTree,
    int,
)
    decreases chars.len() - q, 3int,
{
    let len = chars.len() as int;
    if q < 0 || q >= len {
        (
            SyntaxTree::incomplete(
                SyntaxNodeType::ErrorGroup,
                at(chars, begin),
                at(chars, len),
                items,
                "Unexpected end of expression"@,
            ),
            len,
        )
    } else {
        let c = chars[q];
        if c == ';' {
            let (node, e) = parsed_comment(chars, q);
            if q < e <= len {
                expr_items(chars, begin, e, items.push(node))
            } else {
                (arbitrary(), q)
            }
        } else if white_space(c) {
            expr_items(
                chars,
                begin,
                q + 1,
                items.push(
                    SyntaxTree::plain(
                        SyntaxNodeType::Whitespace,
                        at(chars, q),
                        (at(chars, q) + 1) as usize,
                    ),
                ),
            )
        } else if c == ')' {
            (
                SyntaxTree::group(
                    SyntaxNodeType::ExpressionGroup,
                    at(chars, begin),
                    at(chars, q + 1),
                    items.push(
                        SyntaxTree::plain(
                            SyntaxNodeType::CloseParen,
                            at(chars, q),
                            (at(chars, q) + 1) as usize,
                        ),
                    ),
                ),
                q + 1,
            )
        } else {
            match parsed_tree(chars, q) {
                Some((node, e)) => {
                    if !node.is_complete {
                        (
                            SyntaxTree::error_group(at(chars, begin), at(chars, e), items.push(node)),
                            e,
                        )
                    } else if q < e <= len {
                        expr_items(chars, begin, e, items.push(node))
                    } else {
                        (arbitrary(), q)
                    }
                },
                None => (
                    SyntaxTree::incomplete(
                        SyntaxNodeType::ErrorGroup,
                        at(chars, begin),
                        at(chars, q),
                        items,
                        "Unexpected end of expression member"@,
                    ),
                    q,
                ),
            }
        }
    }
}

/// A reader over a source text. It holds the text's characters, the byte
/// offset of each, and the position of the character to read next.
#[derive(Clone, Debug)]
pub struct SExprParser {
    chars: Vec<char>,
    offsets: Vec<usize>,
    pos: usize,
}

impl SExprParser {
    /// The characters of the text.
    pub closed spec fn text(&self) -> Seq<char> {
        self.chars@
    }

    /// The position of the character to read next.
    pub closed spec fn position(&self) -> int {
        self.pos as int
    }

    /// The reader's invariant: it knows the byte offset of every position,
    /// and stands inside the text or at its end.
    pub closed spec fn wf(&self) -> bool {
        &&& self.offsets.len() == self.chars.len() + 1
        &&& forall|i: int|
            0 <= i <= self.chars.len() ==> (#[trigger] self.offsets[i]) == byte_offset(
                self.chars@,
                i,
            )
        &&& self.pos <= self.chars.len()
    }

    /// The reader reads the same text as `before` and stands at `p`.
    pub open spec fn moved(&self, before: &Self, p: int) -> bool {
        &&& self.wf()
        &&& self.text() == before.text()
        &&& self.position() == p
    }

    /// A well-formed reader stands inside its text or at its end, and the
    /// byte offsets of its text fit the machine.
    pub proof fn lemma_wf(&self)
        requires
            self.wf(),
        ensures
            0 <= self.position() <= self.text().len(),
            forall|i: int|
                0 <= i <= self.text().len() ==> 0 <= #[trigger] byte_offset(self.text(), i)
                    <= usize::MAX,
    {
        assert forall|i: int| 0 <= i <= self.text().len() implies 0 <= #[trigger] byte_offset(
            self.text(),
            i,
        ) <= usize::MAX by {
            assert(self.offsets[i] == byte_offset(self.chars@, i));
        }
    }

    /// A reader at the beginning of `text`.
    pub fn new(text: &str) -> (parser: Self)
        ensures
            parser.wf(),
            parser.text() == text@,
            parser.position() == 0,
    {
        broadcast use vstd::string::group_string_axioms;

        let byte_len = text.as_bytes().len();
        proof {
            lemma_byte_offset_of_end(text@);
        }
        let mut chars: Vec<char> = Vec::with_capacity(byte_len);
        let mut offsets: Vec<usize> = Vec::with_capacity(byte_len);
        let mut offset: usize = 0;
        offsets.push(0);
        for c in it: text.chars()
            invariant
                it.seq() == text@,
                chars@ == text@.take(it.index() as int),
                offsets.len() == it.index() + 1,
                offset == byte_offset(text@, it.index() as int),
                forall|i: int|
                    0 <= i <= it.index() ==> (#[trigger] offsets[i]) == byte_offset(text@, i),
                byte_offset(text@, text@.len() as int) <= usize::MAX,
        {
            proof {
                lemma_byte_offset_grows(text@, it.index() + 1, text@.len() as int);
                lemma_byte_offset_grows(text@, 0, it.index() as int);
                assert(text@.take(it.index() + 1) =~= text@.take(it.index() as int).push(c));
            }
            chars.push(c);
            offset = offset + c.len_utf8();
            offsets.push(offset);
        }
        proof {
            assert(text@.take(text@.len() as int) =~= text@);
            Self::lemma_same_offsets(text@, chars@, chars@.len() as int);
        }
        SExprParser { chars, offsets, pos: 0 }
    }

    proof fn lemma_same_offsets(a: Seq<char>, b: Seq<char>, i: int)
        requires
            a == b,
        ensures
            byte_offset(a, i) == byte_offset(b, i),
    {
    }

    /// The character to read next, if the text has not ended.
    pub fn peek(&self) -> (c: Option<char>)
        requires
            self.wf(),
        ensures
            c == if self.position() < self.text().len() {
                Some(self.text()[self.position()])
            } else {
                None
            },
    {
        if self.pos < self.chars.len() {
            Some(self.chars[self.pos])
        } else {
            None
        }
    }

    /// Takes the next character, with its byte offset, if the text has not
    /// ended.
    pub fn next_char(&mut self) -> (c: Option<(usize, char)>)
        requires
            old(self).wf(),
        ensures
            old(self).position() < old(self).text().len() ==> final(self).moved(
                old(self),
                old(self).position() + 1,
            ) && c == Some(
                (at(old(self).text(), old(self).position()), old(self).text()[old(self).position()]),
            ),
            old(self).position() >= old(self).text().len() ==> final(self).moved(
                old(self),
                old(self).position(),
            ) && c is None,
    {
        if self.pos < self.chars.len() {
            let c = (self.offsets[self.pos], self.chars[self.pos]);
            self.pos = self.pos + 1;
            Some(c)
        } else {
            None
        }
    }

    /// The byte offset of the character to read next; at the end of the text
    /// the length of the text in bytes.
    pub fn cur_idx(&self) -> (idx: usize)
        requires
            self.wf(),
        ensures
            idx == at(self.text(), self.position()),
            idx == byte_offset(self.text(), self.position()),
    {
        self.offsets[self.pos]
    }

    /// Reads a comment: all up to the end of the line.
    pub fn parse_comment(&mut self) -> (node: Option<SyntaxNode>)
        requires
            old(self).wf(),
        ensures
            old(self).position() >= old(self).text().len() ==> node is None && final(self).moved(
                old(self),
                old(self).position(),
            ),
            old(self).position() < old(self).text().len() ==> node is Some && final(self).moved(
                old(self),
                parsed_comment(old(self).text(), old(self).position()).1,
            ) && node->0@ == parsed_comment(old(self).text(), old(self).position()).0,
            node matches Some(n) ==> n@.sound() && n@.is_complete,
    {
        if self.pos < self.chars.len() {
            let ghost begin = self.pos as int;
            let start_idx = self.offsets[self.pos];
            while self.pos < self.chars.len() && self.chars[self.pos] != '\n'
                invariant
                    self.moved(old(self), self.pos as int),
                    begin <= self.pos,
                    comment_end(self.chars@, begin) == comment_end(self.chars@, self.pos as int),
                decreases self.chars.len() - self.pos,
            {
                self.pos = self.pos + 1;
            }
            let range = start_idx..self.cur_idx();
            let node = SyntaxNode::new(SyntaxNodeType::Comment, range, Vec::new());
            proof {
                lemma_trees_push(Seq::empty(), node);
            }
            Some(node)
        } else {
            None
        }
    }

    /// Leaves all the text that is still to read unread, for the reason
    /// given.
    pub fn parse_leftovers(&mut self, message: String) -> (node: SyntaxNode)
        requires
            old(self).wf(),
        ensures
            final(self).moved(old(self), old(self).text().len() as int),
            node@ == parsed_leftovers(old(self).text(), old(self).position(), message@).0,
            node@.sound(),
            !node@.is_complete,
    {
        let start_idx = self.cur_idx();
        self.pos = self.chars.len();
        let range = start_idx..self.cur_idx();
        let node = SyntaxNode::incomplete_with_message(
            SyntaxNodeType::LeftoverText,
            range,
            Vec::new(),
            message,
        );
        proof {
            lemma_trees_push(Seq::empty(), node);
        }
        node
    }

    /// Whether a character ends a word.
    pub fn is_word_end(c: char) -> (r: bool)
        ensures
            r == ends_word(c),
    {
        c.is_whitespace() || c == '(' || c == ')'
    }

    /// Reads a word: all up to the next whitespace or parenthesis.
    pub fn parse_word(&mut self) -> (node: SyntaxNode)
        requires
            old(self).wf(),
        ensures
            final(self).moved(old(self), parsed_word(old(self).text(), old(self).position()).1),
            node@ == parsed_word(old(self).text(), old(self).position()).0,
            node@.sound(),
            node@.is_complete,
            old(self).position() < old(self).text().len() && !ends_word(
                old(self).text()[old(self).position()],
            ) ==> final(self).position() > old(self).position(),
    {
        let mut token = String::new();
        let ghost begin = self.pos as int;
        let start_idx = self.cur_idx();
        while self.pos < self.chars.len() && !Self::is_word_end(self.chars[self.pos])
            invariant
                self.moved(old(self), self.pos as int),
                0 <= begin <= self.pos,
                begin == old(self).position(),
                word_end(self.chars@, begin) == word_end(self.chars@, self.pos as int),
                token@ == self.chars@.subrange(begin, self.pos as int),
            decreases self.chars.len() - self.pos,
        {
            let c = self.chars[self.pos];
            token.push(c);
            proof {
                assert(self.chars@.subrange(begin, self.pos + 1) =~= self.chars@.subrange(
                    begin,
                    self.pos as int,
                ).push(c));
            }
            self.pos = self.pos + 1;
        }
        SyntaxNode::new_token_node(SyntaxNodeType::WordToken, start_idx..self.cur_idx(), token)
    }

    /// Reads a variable: a `$` and the word behind it, which is the
    /// variable's name.
    pub fn parse_variable(&mut self) -> (node: SyntaxNode)
        requires
            old(self).wf(),
            old(self).position() < old(self).text().len(),
        ensures
            final(self).moved(old(self), parsed_variable(old(self).text(), old(self).position()).1),
            node@ == parsed_variable(old(self).text(), old(self).position()).0,
            node@.sound(),
            final(self).position() > old(self).position(),
    {
        let ghost begin = self.pos as int;
        let start_idx = self.cur_idx();
        let mut tmp: usize = self.pos + 1;
        let mut token = String::new();
        proof {
            Self::lemma_word_end_bounds(self.chars@, begin + 1);
        }
        while tmp < self.chars.len() && !Self::is_word_end(self.chars[tmp])
            invariant
                self.moved(old(self), begin),
                0 <= begin < tmp <= self.chars.len(),
                begin == old(self).position(),
                word_end(self.chars@, begin + 1) == word_end(self.chars@, tmp as int),
                first_lattice(self.chars@, begin + 1, word_end(self.chars@, begin + 1))
                    == first_lattice(self.chars@, tmp as int, word_end(self.chars@, begin + 1)),
                tmp <= word_end(self.chars@, begin + 1),
                token@ == self.chars@.subrange(begin + 1, tmp as int),
            decreases self.chars.len() - tmp,
        {
            let c = self.chars[tmp];
            proof {
                Self::lemma_word_end_behind(self.chars@, tmp as int);
            }
            if c == '#' {
                let message = String::from_str("'#' char is reserved for internal usage");
                return self.parse_leftovers(message);
            }
            token.push(c);
            proof {
                assert(self.chars@.subrange(begin + 1, tmp + 1) =~= self.chars@.subrange(
                    begin + 1,
                    tmp as int,
                ).push(c));
            }
            tmp = tmp + 1;
        }
        self.pos = tmp;
        SyntaxNode::new_token_node(SyntaxNodeType::VariableToken, start_idx..self.cur_idx(), token)
    }

    /// A word does not end before its end.
    proof fn lemma_word_end_behind(chars: Seq<char>, p: int)
        requires
            0 <= p < chars.len(),
            !ends_word(chars[p]),
        ensures
            word_end(chars, p) > p,
            word_end(chars, p) == word_end(chars, p + 1),
        decreases chars.len() - p,
    {
        Self::lemma_word_end_bounds(chars, p + 1);
    }

    /// A word ends behind where it begins and inside the text.
    proof fn lemma_word_end_bounds(chars: Seq<char>, p: int)
        requires
            0 <= p <= chars.len(),
        ensures
            p <= word_end(chars, p) <= chars.len(),
        decreases chars.len() - p,
    {
        if p < chars.len() && !ends_word(chars[p]) {
            Self::lemma_word_end_bounds(chars, p + 1);
        }
    }

    /// Reads a string literal: from a double quote to the next one that no
    /// backslash stands before.
    pub fn parse_string(&mut self) -> (node: SyntaxNode)
        requires
            old(self).wf(),
        ensures
            final(self).moved(old(self), parsed_string(old(self).text(), old(self).position()).1),
            node@ == parsed_string(old(self).text(), old(self).position()).0,
            node@.sound(),
            old(self).position() < old(self).text().len() ==> final(self).position() > old(self).position(),
    {
        let mut token = String::new();
        let ghost begin = self.pos as int;
        let start_idx = self.cur_idx();
        let quoted = match self.next_char() {
            Some((_idx, c)) => c == '"',
            None => false,
        };
        if quoted {
            token.push('"');
            assert(token@ =~= seq!['"']);
        } else {
            let message = String::from_str("Double quote expected");
            let node = SyntaxNode::incomplete_with_message(
                SyntaxNodeType::LeftoverText,
                start_idx..self.cur_idx(),
                Vec::new(),
                message,
            );
            proof {
                lemma_trees_push(Seq::empty(), node);
            }
            return node;
        }
        while self.pos < self.chars.len()
            invariant
                self.moved(old(self), self.pos as int),
                0 <= begin < self.pos,
                begin == old(self).position(),
                start_idx == at(self.chars@, begin),
                parsed_string(self.chars@, begin) == string_rest(
                    self.chars@,
                    begin,
                    self.pos as int,
                    token@,
                ),
            decreases self.chars.len() - self.pos,
        {
            let c = self.chars[self.pos];
            self.pos = self.pos + 1;
            if c == '"' {
                token.push('"');
                return SyntaxNode::new_token_node(
                    SyntaxNodeType::StringToken,
                    start_idx..self.cur_idx(),
                    token,
                );
            }
            if c == '\\' {
                if self.pos < self.chars.len() {
                    let escaped = self.chars[self.pos];
                    self.pos = self.pos + 1;
                    token.push(escaped);
                } else {
                    let message = String::from_str("Escaping sequence is not finished");
                    let node = SyntaxNode::incomplete_with_message(
                        SyntaxNodeType::StringToken,
                        start_idx..self.cur_idx(),
                        Vec::new(),
                        message,
                    );
                    proof {
                        lemma_trees_push(Seq::empty(), node);
                    }
                    return node;
                }
            } else {
                token.push(c);
            }
        }
        let message = String::from_str("Unclosed String Literal");
        let node = SyntaxNode::incomplete_with_message(
            SyntaxNodeType::StringToken,
            start_idx..self.cur_idx(),
            Vec::new(),
            message,
        );
        proof {
            lemma_trees_push(Seq::empty(), node);
        }
        node
    }

    /// Reads a token: a string literal or a word.
    pub fn parse_token(&mut self) -> (node: Option<SyntaxNode>)
        requires
            old(self).wf(),
        ensures
            parsed_token(old(self).text(), old(self).position()) matches Some((tree, e))
                ==> node is Some && node->0@ == tree && final(self).moved(old(self), e),
            parsed_token(old(self).text(), old(self).position()) is None ==> node is None
                && final(self).moved(old(self), old(self).position()),
            node matches Some(n) ==> n@.sound(),
            old(self).position() < old(self).text().len() && !ends_word(
                old(self).text()[old(self).position()],
            ) ==> final(self).position() > old(self).position(),
    {
        match self.peek() {
            Some('"') => {
                let string_node = self.parse_string();
                Some(string_node)
            },
            Some(_) => {
                let word_node = self.parse_word();
                Some(word_node)
            },
            None => None,
        }
    }

    /// A comment that begins inside the text ends behind where it begins,
    /// unless it begins at the end of a line.
    proof fn lemma_comment_end_bounds(chars: Seq<char>, p: int)
        requires
            0 <= p <= chars.len(),
        ensures
            p <= comment_end(chars, p) <= chars.len(),
            p < chars.len() && chars[p] != '\n' ==> p < comment_end(chars, p),
        decreases chars.len() - p,
    {
        if p < chars.len() && chars[p] != '\n' {
            Self::lemma_comment_end_bounds(chars, p + 1);
        }
    }

    /// A node with one character of the text.
    fn one_char_node(&self, node_type: SyntaxNodeType) -> (node: SyntaxNode)
        requires
            self.wf(),
            self.position() < self.text().len(),
        ensures
            node@ == SyntaxTree::plain(
                node_type,
                at(self.text(), self.position()),
                (at(self.text(), self.position()) + 1) as usize,
            ),
    {
        proof {
            lemma_byte_offset_grows(self.chars@, self.pos as int, self.pos + 1);
            assert(self.offsets[self.pos + 1] == byte_offset(self.chars@, self.pos + 1));
        }
        let idx = self.cur_idx();
        let node = SyntaxNode::new(node_type, idx..idx + 1, Vec::new());
        proof {
            lemma_trees_push(Seq::empty(), node);
        }
        node
    }

    /// Reads the next node of the text; none at its end.
    pub fn parse_to_syntax_tree(&mut self) -> (node: Option<SyntaxNode>)
        requires
            old(self).wf(),
        ensures
            parsed_tree(old(self).text(), old(self).position()) matches Some((tree, e))
                ==> node is Some && node->0@ == tree && final(self).moved(old(self), e) && e
                > old(self).position(),
            parsed_tree(old(self).text(), old(self).position()) is None ==> node is None
                && final(self).moved(old(self), old(self).position()),
            node matches Some(n) ==> n@.sound(),
        decreases old(self).text().len() - old(self).position(), 2int,
    {
        proof {
            reveal_with_fuel(parsed_tree, 2);
        }
        match self.peek() {
            None => None,
            Some(c) => {
                let ghost begin = self.pos as int;
                if c == ';' {
                    proof {
                        Self::lemma_comment_end_bounds(self.chars@, begin);
                    }
                    self.parse_comment()
                } else if c.is_whitespace() {
                    let node = self.one_char_node(SyntaxNodeType::Whitespace);
                    self.next_char();
                    Some(node)
                } else if c == '$' {
                    Some(self.parse_variable())
                } else if c == '(' {
                    Some(self.parse_expr())
                } else if c == ')' {
                    let idx = self.cur_idx();
                    let close_paren_node = self.one_char_node(SyntaxNodeType::CloseParen);
                    self.next_char();
                    let message = String::from_str("Unexpected right bracket");
                    let leftover_text_node = self.parse_leftovers(message);
                    let mut sub_nodes: Vec<SyntaxNode> = Vec::new();
                    sub_nodes.push(close_paren_node);
                    sub_nodes.push(leftover_text_node);
                    proof {
                        lemma_trees_of(sub_nodes@, 2);
                        assert(all_trees(sub_nodes@) =~= seq![
                            close_paren_node@,
                            leftover_text_node@,
                        ]);
                    }
                    let node = SyntaxNode::new_error_group(idx..self.cur_idx(), sub_nodes);
                    Some(node)
                } else {
                    self.parse_token()
                }
            },
        }
    }

    /// Reads an expression: from a `(` to the `)` that closes it.
    pub fn parse_expr(&mut self) -> (node: SyntaxNode)
        requires
            old(self).wf(),
            old(self).position() < old(self).text().len(),
        ensures
            final(self).moved(old(self), parsed_expr(old(self).text(), old(self).position()).1),
            node@ == parsed_expr(old(self).text(), old(self).position()).0,
            node@.sound(),
            final(self).position() > old(self).position(),
        decreases old(self).text().len() - old(self).position(), 1int,
    {
        proof {
            reveal_with_fuel(parsed_expr, 2);
        }
        let ghost begin = self.pos as int;
        let start_idx = self.cur_idx();
        let mut child_nodes: Vec<SyntaxNode> = Vec::new();
        let open_paren_node = self.one_char_node(SyntaxNodeType::OpenParen);
        child_nodes.push(open_paren_node);
        self.next_char();
        proof {
            lemma_trees_push(Seq::empty(), open_paren_node);
            assert(child_nodes@ =~= Seq::<SyntaxNode>::empty().push(open_paren_node));
            assert(all_trees(child_nodes@) =~= seq![open_paren_node@]);
        }
        while self.pos < self.chars.len()
            invariant
                self.moved(old(self), self.pos as int),
                0 <= begin < self.pos,
                begin == old(self).position(),
                start_idx == at(self.chars@, begin),
                child_nodes.len() > 0,
                forall|j: int|
                    0 <= j < child_nodes.len() ==> (#[trigger] child_nodes[j])@.sound()
                        && child_nodes[j]@.is_complete,
                parsed_expr(self.chars@, begin) == expr_items(
                    self.chars@,
                    begin,
                    self.pos as int,
                    all_trees(child_nodes@),
                ),
            decreases self.chars.len() - self.pos,
        {
            proof {
                reveal_with_fuel(expr_items, 2);
            }
            let ghost here = self.pos as int;
            let ghost items = child_nodes@;
            let c = self.chars[self.pos];
            if c == ';' {
                proof {
                    Self::lemma_comment_end_bounds(self.chars@, here);
                }
                let comment_node = self.parse_comment().unwrap();
                proof {
                    lemma_trees_push(items, comment_node);
                }
                child_nodes.push(comment_node);
            } else if c.is_whitespace() {
                let whitespace_node = self.one_char_node(SyntaxNodeType::Whitespace);
                proof {
                    lemma_trees_push(items, whitespace_node);
                }
                child_nodes.push(whitespace_node);
                self.next_char();
            } else if c == ')' {
                let close_paren_node = self.one_char_node(SyntaxNodeType::CloseParen);
                proof {
                    lemma_trees_push(items, close_paren_node);
                }
                child_nodes.push(close_paren_node);
                self.next_char();
                proof {
                    lemma_trees_of(child_nodes@, child_nodes@.len() as int);
                }
                let ghost all = child_nodes@;
                let expr_node = SyntaxNode::new(
                    SyntaxNodeType::ExpressionGroup,
                    start_idx..self.cur_idx(),
                    child_nodes,
                );
                proof {
                    assert forall|j: int| 0 <= j < expr_node@.sub_nodes.len() implies (
                    #[trigger] expr_node@.sub_nodes[j]).sound() by {
                        assert(expr_node@.sub_nodes[j] == all[j]@);
                        if j < items.len() {
                            assert(all[j] == items[j]);
                        } else {
                            assert(all[j] == close_paren_node);
                        }
                    }
                }
                return expr_node;
            } else {
                match self.parse_to_syntax_tree() {
                    Some(parsed_node) => {
                        let is_err = !parsed_node.is_complete;
                        proof {
                            lemma_trees_push(items, parsed_node);
                        }
                        child_nodes.push(parsed_node);
                        if is_err {
                            proof {
                                lemma_trees_of(child_nodes@, child_nodes@.len() as int);
                            }
                            let error_group_node = SyntaxNode::new_error_group(
                                start_idx..self.cur_idx(),
                                child_nodes,
                            );
                            return error_group_node;
                        }
                    },
                    None => {
                        let message = String::from_str("Unexpected end of expression member");
                        let leftover_node = SyntaxNode::incomplete_with_message(
                            SyntaxNodeType::ErrorGroup,
                            start_idx..self.cur_idx(),
                            child_nodes,
                            message,
                        );
                        return leftover_node;
                    },
                }
            }
        }
        proof {
            reveal_with_fuel(expr_items, 2);
        }
        let message = String::from_str("Unexpected end of expression");
        let leftover_node = SyntaxNode::incomplete_with_message(
            SyntaxNodeType::ErrorGroup,
            start_idx..self.cur_idx(),
            child_nodes,
            message,
        );
        leftover_node
    }
}

/// The nodes of a tree in the order in which a depth-first visit meets
/// them: the nodes below a node before the node itself.
pub open spec fn depth_first(tree: SyntaxTree) -> Seq<SyntaxTree>
    decreases tree, 0int,
{
    depth_first_of(tree.sub_nodes, tree.sub_nodes.len() as int).push(tree)
}

/// The nodes of the first `k` of `trees`, depth first.
pub open spec fn depth_first_of(trees: Seq<SyntaxTree>, k: int) -> Seq<SyntaxTree>
    decreases trees, k,
{
    if k <= 0 || k > trees.len() {
        Seq::empty()
    } else {
        depth_first_of(trees, k - 1) + depth_first(trees[k - 1])
    }
}

/// The values of the nodes that a sequence of references points to.
pub open spec fn trees_behind(nodes: Seq<&SyntaxNode>) -> Seq<SyntaxTree> {
    Seq::new(nodes.len(), |i: int| (*nodes[i])@)
}

impl SyntaxNode {
    /// Appends to `out` the nodes of this tree, depth first.
    fn collect_depth_first<'a>(&'a self, out: &mut Vec<&'a SyntaxNode>)
        ensures
            trees_behind(final(out)@) == trees_behind(old(out)@) + depth_first(self@),
        decreases self,
    {
        proof {
            reveal_with_fuel(depth_first, 2);
            reveal_with_fuel(depth_first_of, 2);
            lemma_trees_of(self.sub_nodes@, self.sub_nodes@.len() as int);
        }
        let mut i: usize = 0;
        while i < self.sub_nodes.len()
            invariant
                i <= self.sub_nodes.len(),
                self@.sub_nodes.len() == self.sub_nodes.len(),
                forall|j: int|
                    0 <= j < self.sub_nodes.len() ==> (#[trigger] self@.sub_nodes[j])
                        == self.sub_nodes[j]@,
                trees_behind(out@) == trees_behind(old(out)@) + depth_first_of(
                    self@.sub_nodes,
                    i as int,
                ),
            decreases self.sub_nodes.len() - i,
        {
            proof {
                reveal_with_fuel(depth_first_of, 2);
            }
            let ghost before = out@;
            self.sub_nodes[i].collect_depth_first(out);
            proof {
                assert(trees_behind(out@) =~= trees_behind(old(out)@) + depth_first_of(
                    self@.sub_nodes,
                    i + 1,
                ));
            }
            i += 1;
        }
        let ghost before = out@;
        out.push(self);
        proof {
            assert(trees_behind(out@) =~= trees_behind(before).push(self@));
        }
    }

    /// The nodes of this tree in the order in which a depth-first visit meets
    /// them.
    pub fn depth_first_nodes(&self) -> (nodes: Vec<&SyntaxNode>)
        ensures
            trees_behind(nodes@) == depth_first(self@),
    {
        let mut nodes: Vec<&SyntaxNode> = Vec::new();
        self.collect_depth_first(&mut nodes);
        assert(trees_behind(Seq::<&SyntaxNode>::empty()) =~= Seq::<SyntaxTree>::empty());
        nodes
    }
}

/// The callback was called on each of the nodes and returned.
pub open spec fn called_on_each<C: FnMut(&SyntaxNode)>(callback: C, nodes: Seq<&SyntaxNode>) -> bool {
    forall|i: int| 0 <= i < nodes.len() ==> call_ensures(callback, (#[trigger] nodes[i],), ())
}

impl SyntaxNode {
    /// Calls `callback` on every node of the tree in the order of
    /// `depth_first_nodes`: on the nodes below a node before the node itself.
    pub fn visit_depth_first<C>(&self, callback: C) where C: FnMut(&SyntaxNode)
        requires
            forall|node: &SyntaxNode| call_requires(callback, (node,)),
        ensures
            exists|nodes: Seq<&SyntaxNode>| #[trigger]
                called_on_each(callback, nodes) && trees_behind(nodes) == depth_first(self@),
    {
        let mut callback = callback;
        let ghost initial = callback;
        let nodes = self.depth_first_nodes();
        let mut i: usize = 0;
        while i < nodes.len()
            invariant
                i <= nodes.len(),
                callback == initial,
                forall|node: &SyntaxNode| call_requires(callback, (node,)),
                forall|j: int| 0 <= j < i ==> call_ensures(callback, (#[trigger] nodes@[j],), ()),
                trees_behind(nodes@) == depth_first(self@),
            decreases nodes.len() - i,
        {
            callback(nodes[i]);
            i += 1;
        }
        proof {
            assert(called_on_each(initial, nodes@));
        }
    }
}

} // verus!
