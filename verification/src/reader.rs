//! From syntax nodes to atoms: which atom each node stands for.

use crate::text::{
    lemma_trees_of, parsed_tree, text_of, SExprParser, SyntaxNode, SyntaxNodeType, SyntaxTree,
};
use crate::tokenizer::{constructor_for, Tokenizer};
use vstd::prelude::*;

verus! {

/// An atom as a mathematical value.
pub enum AtomModel<C> {
    Variable(Seq<char>),
    Symbol(Seq<char>),
    Custom(C, Seq<char>),
    Expression(Seq<AtomModel<C>>),
}

/// The atom that a piece of the source text stands for: a variable or a
/// symbol with its name, an atom that a registered constructor makes of the
/// token's text, or an expression of atoms.
#[derive(Debug)]
pub enum ParsedAtom<'t, C> {
    Variable(String),
    Symbol(String),
    Custom(&'t C, String),
    Expression(Vec<ParsedAtom<'t, C>>),
}

impl<'t, C> View for ParsedAtom<'t, C> {
    type V = AtomModel<C>;

    open spec fn view(&self) -> AtomModel<C>
        decreases self, 0int,
    {
        match self {
            ParsedAtom::Variable(name) => AtomModel::Variable(name@),
            ParsedAtom::Symbol(name) => AtomModel::Symbol(name@),
            ParsedAtom::Custom(constr, text) => AtomModel::Custom(**constr, text@),
            ParsedAtom::Expression(children) => AtomModel::Expression(
                models_of(children@, children@.len() as int),
            ),
        }
    }
}

/// The first `k` of `atoms` as mathematical values.
pub open spec fn models_of<'t, C>(atoms: Seq<ParsedAtom<'t, C>>, k: int) -> Seq<AtomModel<C>>
    decreases atoms, k,
{
    if k <= 0 || k > atoms.len() {
        Seq::empty()
    } else {
        models_of(atoms, k - 1).push(atoms[k - 1].view())
    }
}

/// The values of a sequence of atoms are the values of the atoms, one for
/// one.
pub proof fn lemma_models_of<'t, C>(atoms: Seq<ParsedAtom<'t, C>>, k: int)
    requires
        0 <= k <= atoms.len(),
    ensures
        models_of(atoms, k).len() == k,
        forall|j: int| 0 <= j < k ==> (#[trigger] models_of(atoms, k)[j]) == atoms[j]@,
    decreases k,
{
    reveal_with_fuel(models_of, 2);
    if k > 0 {
        lemma_models_of(atoms, k - 1);
        assert(models_of(atoms, k) == models_of(atoms, k - 1).push(atoms[k - 1].view()));
    }
}

/// What reading an atom gave, as a mathematical value.
pub open spec fn outcome<'t, C>(res: Result<Option<ParsedAtom<'t, C>>, String>) -> Result<
    Option<AtomModel<C>>,
    Seq<char>,
> {
    match res {
        Ok(Some(atom)) => Ok(Some(atom@)),
        Ok(None) => Ok(None),
        Err(message) => Err(message@),
    }
}

/// The atom that a node stands for.
///
/// - A node at which reading failed stands for the failure.
/// - Comments, whitespace and parentheses stand for nothing.
/// - A variable token stands for the variable of its name.
/// - A word or a string stands for what the constructor of the last
///   registered pattern that matches it makes of it; where no pattern
///   matches, for the symbol of that name.
/// - An expression stands for the expression of the atoms of the nodes below
///   it; where nodes below it fail, for the failure of the last of them.
pub open spec fn atom_of<C>(tree: SyntaxTree, table: Seq<(Seq<char>, C)>) -> Result<
    Option<AtomModel<C>>,
    Seq<char>,
>
    decreases tree, 0int,
{
    if !tree.is_complete {
        Err(tree.message->0)
    } else {
        match tree.node_type {
            SyntaxNodeType::Comment
            | SyntaxNodeType::Whitespace
            | SyntaxNodeType::OpenParen
            | SyntaxNodeType::CloseParen => Ok(None),
            SyntaxNodeType::VariableToken => Ok(Some(AtomModel::Variable(tree.parsed_text->0))),
            SyntaxNodeType::StringToken | SyntaxNodeType::WordToken => {
                let text = tree.parsed_text->0;
                match constructor_for(table, text) {
                    Some(constr) => Ok(Some(AtomModel::Custom(constr, text))),
                    None => Ok(Some(AtomModel::Symbol(text))),
                }
            },
            SyntaxNodeType::ExpressionGroup => {
                let (atoms, failure) = atoms_under(
                    tree.sub_nodes,
                    table,
                    tree.sub_nodes.len() as int,
                );
                match failure {
                    Some(message) => Err(message),
                    None => Ok(Some(AtomModel::Expression(atoms))),
                }
            },
            SyntaxNodeType::LeftoverText | SyntaxNodeType::ErrorGroup => Ok(None),
        }
    }
}

/// The atoms that the first `k` of `trees` stand for, and the failure of the
/// last of them that fails.
pub open spec fn atoms_under<C>(trees: Seq<SyntaxTree>, table: Seq<(Seq<char>, C)>, k: int) -> (
    Seq<AtomModel<C>>,
    Option<Seq<char>>,
)
    decreases trees, k,
{
    if k <= 0 || k > trees.len() {
        (Seq::empty(), None)
    } else {
        let (atoms, failure) = atoms_under(trees, table, k - 1);
        match atom_of(trees[k - 1], table) {
            Err(message) => (atoms, Some(message)),
            Ok(Some(atom)) => (atoms.push(atom), failure),
            Ok(None) => (atoms, failure),
        }
    }
}

impl SyntaxNode {
    /// The atom that this node stands for.
    pub fn as_atom<'t, C>(&self, tokenizer: &'t Tokenizer<C>) -> (res: Result<
        Option<ParsedAtom<'t, C>>,
        String,
    >)
        requires
            self@.sound(),
        ensures
            outcome(res) == atom_of(self@, tokenizer@),
        decreases self,
    {
        proof {
            reveal_with_fuel(atom_of, 2);
            reveal_with_fuel(atoms_under, 2);
        }
        if !self.is_complete {
            return match &self.message {
                Some(message) => Err(message.clone()),
                None => vstd::pervasive::unreached(),
            };
        }
        match self.node_type {
            SyntaxNodeType::Comment | SyntaxNodeType::Whitespace => Ok(None),
            SyntaxNodeType::OpenParen | SyntaxNodeType::CloseParen => Ok(None),
            SyntaxNodeType::VariableToken => {
                match &self.parsed_text {
                    Some(token_text) => Ok(Some(ParsedAtom::Variable(token_text.clone()))),
                    None => vstd::pervasive::unreached(),
                }
            },
            SyntaxNodeType::StringToken | SyntaxNodeType::WordToken => {
                match &self.parsed_text {
                    Some(token_text) => {
                        let constr = tokenizer.find_token(token_text.as_str());
                        match constr {
                            Some(constr) => Ok(Some(ParsedAtom::Custom(constr, token_text.clone()))),
                            None => Ok(Some(ParsedAtom::Symbol(token_text.clone()))),
                        }
                    },
                    None => vstd::pervasive::unreached(),
                }
            },
            SyntaxNodeType::ExpressionGroup => {
                let mut err_encountered: Option<String> = None;
                let mut expr_children: Vec<ParsedAtom<'t, C>> = Vec::new();
                proof {
                    lemma_trees_of(self.sub_nodes@, self.sub_nodes@.len() as int);
                    lemma_models_of(expr_children@, 0);
                }
                let mut i: usize = 0;
                while i < self.sub_nodes.len()
                    invariant
                        i <= self.sub_nodes.len(),
                        self@.sub_nodes.len() == self.sub_nodes.len(),
                        forall|j: int|
                            0 <= j < self.sub_nodes.len() ==> (#[trigger] self@.sub_nodes[j])
                                == self.sub_nodes[j]@ && self@.sub_nodes[j].sound(),
                        (models_of(expr_children@, expr_children@.len() as int), text_of(err_encountered))
                            == atoms_under(self@.sub_nodes, tokenizer@, i as int),
                    decreases self.sub_nodes.len() - i,
                {
                    proof {
                        reveal_with_fuel(atoms_under, 2);
                    }
                    let ghost before = expr_children@;
                    assert(self@.sub_nodes[i as int].sound());
                    match self.sub_nodes[i].as_atom(tokenizer) {
                        Err(err) => {
                            err_encountered = Some(err);
                        },
                        Ok(Some(atom)) => {
                            expr_children.push(atom);
                            proof {
                                lemma_models_of(before, before.len() as int);
                                lemma_models_of(expr_children@, expr_children@.len() as int);
                                assert(models_of(expr_children@, expr_children@.len() as int)
                                    =~= models_of(before, before.len() as int).push(atom@));
                            }
                        },
                        Ok(None) => {},
                    }
                    i += 1;
                }
                match err_encountered {
                    None => Ok(Some(ParsedAtom::Expression(expr_children))),
                    Some(err) => Err(err),
                }
            },
            SyntaxNodeType::LeftoverText | SyntaxNodeType::ErrorGroup => {
                vstd::pervasive::unreached()
            },
        }
    }
}

/// The next atom of the text from `p` on, and where reading goes on: the
/// atom of the first node that stands for one. Reading stops at the first
/// node that fails, and at the end of the text.
pub open spec fn parsed_atom<C>(chars: Seq<char>, p: int, table: Seq<(Seq<char>, C)>) -> (
    Result<Option<AtomModel<C>>, Seq<char>>,
    int,
)
    decreases chars.len() - p,
{
    match parsed_tree(chars, p) {
        None => (Ok(None), p),
        Some((tree, e)) => match atom_of(tree, table) {
            Ok(None) => if p < e <= chars.len() {
                parsed_atom(chars, e, table)
            } else {
                (Ok(None), e)
            },
            found => (found, e),
        },
    }
}

impl SExprParser {
    /// Reads the next atom of the text; none at its end.
    pub fn parse<'t, C>(&mut self, tokenizer: &'t Tokenizer<C>) -> (res: Result<
        Option<ParsedAtom<'t, C>>,
        String,
    >)
        requires
            old(self).wf(),
        ensures
            final(self).moved(
                old(self),
                parsed_atom(old(self).text(), old(self).position(), tokenizer@).1,
            ),
            outcome(res) == parsed_atom(old(self).text(), old(self).position(), tokenizer@).0,
    {
        loop
            invariant
                self.wf(),
                self.text() == old(self).text(),
                parsed_atom(old(self).text(), old(self).position(), tokenizer@) == parsed_atom(
                    self.text(),
                    self.position(),
                    tokenizer@,
                ),
            decreases self.text().len() - self.position(),
        {
            proof {
                self.lemma_wf();
            }
            match self.parse_to_syntax_tree() {
                Some(node) => {
                    match node.as_atom(tokenizer) {
                        Err(message) => {
                            return Err(message);
                        },
                        Ok(Some(atom)) => {
                            return Ok(Some(atom));
                        },
                        Ok(None) => {
                            proof {
                                self.lemma_wf();
                            }
                        },
                    }
                },
                None => {
                    return Ok(None);
                },
            }
        }
    }
}

/// What yields atoms to read as code, most often by reading source text.
pub trait Parser<C> {
    /// Whether the parser is ready to be asked for the next atom.
    spec fn ready(&self) -> bool;

    /// The next atom; none when there is no more.
    fn next_atom<'t>(&mut self, tokenizer: &'t Tokenizer<C>) -> (res: Result<
        Option<ParsedAtom<'t, C>>,
        String,
    >)
        requires
            old(self).ready(),
        ensures
            final(self).ready(),
    ;
}

impl<C> Parser<C> for SExprParser {
    open spec fn ready(&self) -> bool {
        self.wf()
    }

    fn next_atom<'t>(&mut self, tokenizer: &'t Tokenizer<C>) -> (res: Result<
        Option<ParsedAtom<'t, C>>,
        String,
    >)
        ensures
            final(self).moved(
                old(self),
                parsed_atom(old(self).text(), old(self).position(), tokenizer@).1,
            ),
            outcome(res) == parsed_atom(old(self).text(), old(self).position(), tokenizer@).0,
    {
        self.parse(tokenizer)
    }
}

} // verus!
