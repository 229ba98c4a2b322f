//! The table of token patterns: which constructor makes the atom of a word.

use regex::Regex;
use vstd::prelude::*;
use vstd::utf8::encode_utf8;

verus! {

/// The compiled pattern of the `regex` crate. Its inside is not looked at.
#[verifier::external_type_specification]
#[verifier::external_body]
pub struct ExRegex(Regex);

/// The error of the `regex` crate for a pattern that it does not compile.
/// Its inside is not looked at.
#[verifier::external_type_specification]
#[verifier::external_body]
pub struct ExRegexError(regex::Error);

/// What `Regex::find_at` of the `regex` crate returns for a pattern that was
/// compiled with the crate's default settings, a haystack and a byte offset
/// at which the search starts: the byte offsets at which the leftmost match
/// starts and ends, or nothing where there is no match.
pub uninterp spec fn leftmost_match(pattern: Seq<char>, haystack: Seq<char>, start: usize) -> Option<
    (usize, usize),
>;

/// A pattern for tokens: a regular expression, compiled, with its text.
#[derive(Debug)]
pub struct TokenPattern {
    regex: Regex,
    pattern: String,
}

impl View for TokenPattern {
    type V = Seq<char>;

    closed spec fn view(&self) -> Seq<char> {
        self.pattern@
    }
}

/// `Regex::new` of the `regex` crate, which compiles a pattern with the
/// crate's default settings or returns an error. The contract claims one
/// thing: the pattern that comes back is the one that was handed in. When a
/// pattern compiles it leaves open.
#[verifier::external_body]
fn compile(pattern: &str) -> (compiled: Result<TokenPattern, regex::Error>)
    ensures
        compiled matches Ok(p) ==> p@ == pattern@,
{
    match Regex::new(pattern) {
        Ok(regex) => Ok(TokenPattern { regex, pattern: pattern.to_string() }),
        Err(error) => Err(error),
    }
}

/// `Regex::find_at` of the `regex` crate, with `Match::start` and
/// `Match::end` of the match that it finds. The crate documents that the
/// search panics when `start` lies more than one behind the last byte of the
/// haystack: this wrapper asks for a start within the haystack's characters,
/// of which there are no more than bytes. The contract gives the result its
/// name.
#[verifier::external_body]
fn find_at(pattern: &TokenPattern, haystack: &str, start: usize) -> (found: Option<(usize, usize)>)
    requires
        start <= haystack@.len(),
    ensures
        found == leftmost_match(pattern@, haystack@, start),
{
    match pattern.regex.find_at(haystack, start) {
        Some(m) => Some((m.start(), m.end())),
        None => None,
    }
}

/// A pattern that the `regex` crate does not compile.
#[derive(Debug, Clone, PartialEq, Eq)]
pub struct InvalidPattern {
    pub pattern: String,
}

impl TokenPattern {
    /// The pattern that a compilation gave, or the error of this library for
    /// the text that did not compile.
    pub fn from_compiled(compiled: Result<TokenPattern, regex::Error>, text: &str) -> (res: Result<
        TokenPattern,
        InvalidPattern,
    >)
        ensures
            match compiled {
                Ok(p) => res == Ok::<TokenPattern, InvalidPattern>(p),
                Err(_) => res matches Err(e) && e.pattern@ == text@,
            },
    {
        match compiled {
            Ok(pattern) => Ok(pattern),
            Err(_) => Err(InvalidPattern { pattern: text.to_owned() }),
        }
    }

    /// Compiles a pattern.
    pub fn new(pattern: &str) -> (res: Result<TokenPattern, InvalidPattern>)
        ensures
            res matches Ok(p) ==> p@ == pattern@,
            res matches Err(e) ==> e.pattern@ == pattern@,
    {
        Self::from_compiled(compile(pattern), pattern)
    }

    /// Whether the pattern matches all of `token`, and nothing less.
    pub fn matches_fully(&self, token: &str) -> (r: bool)
        ensures
            r == full_match(self@, token@),
    {
        is_full(find_at(self, token, 0), token.len())
    }
}

/// Whether a match reaches from the first byte to behind the last of `len`
/// bytes.
pub fn is_full(found: Option<(usize, usize)>, len: usize) -> (r: bool)
    ensures
        r == (found == Some((0usize, len))),
{
    match found {
        Some((start, end)) => start == 0 && end == len,
        None => false,
    }
}

/// Whether the leftmost match of a pattern in a token is all of the token.
pub open spec fn full_match(pattern: Seq<char>, token: Seq<char>) -> bool {
    leftmost_match(pattern, token, 0) == Some((0usize, encode_utf8(token).len() as usize))
}

/// The last of the first `k` entries of the table whose pattern matches all
/// of the token.
pub open spec fn last_match<C>(table: Seq<(Seq<char>, C)>, token: Seq<char>, k: int) -> Option<int>
    decreases k,
{
    if k <= 0 {
        None
    } else if full_match(table[k - 1].0, token) {
        Some(k - 1)
    } else {
        last_match(table, token, k - 1)
    }
}

/// The constructor of the last entry of the table whose pattern matches all
/// of the token.
pub open spec fn constructor_for<C>(table: Seq<(Seq<char>, C)>, token: Seq<char>) -> Option<C> {
    match last_match(table, token, table.len() as int) {
        Some(i) => Some(table[i].1),
        None => None,
    }
}

struct TokenDescr<C> {
    regex: TokenPattern,
    constr: C,
}

/// The token patterns with their constructors, in the order in which they
/// were registered. A later one goes before an earlier one.
pub struct Tokenizer<C> {
    tokens: Vec<TokenDescr<C>>,
}

impl<C> View for Tokenizer<C> {
    type V = Seq<(Seq<char>, C)>;

    /// The texts of the patterns with their constructors, in the order in
    /// which they were registered.
    closed spec fn view(&self) -> Seq<(Seq<char>, C)> {
        Seq::new(self.tokens.len() as nat, |i: int| (self.tokens[i].regex@, self.tokens[i].constr))
    }
}

impl<C> Tokenizer<C> {
    /// A table without patterns.
    pub fn new() -> (tokenizer: Self)
        ensures
            tokenizer@ == Seq::<(Seq<char>, C)>::empty(),
    {
        let tokenizer = Self { tokens: Vec::new() };
        assert(tokenizer@ =~= Seq::<(Seq<char>, C)>::empty());
        tokenizer
    }

    /// Registers a pattern with its constructor, behind those that are there.
    pub fn register_token(&mut self, regex: TokenPattern, constr: C)
        ensures
            final(self)@ == old(self)@.push((regex@, constr)),
    {
        self.tokens.push(TokenDescr { regex, constr });
        assert(self@ =~= old(self)@.push((regex@, constr)));
    }

    /// Registers the pattern that a compilation gave; where it gave none, the
    /// table stays as it is.
    pub fn register_compiled(
        &mut self,
        compiled: Result<TokenPattern, InvalidPattern>,
        constr: C,
    ) -> (res: Result<(), InvalidPattern>)
        ensures
            match compiled {
                Ok(p) => res is Ok && final(self)@ == old(self)@.push((p@, constr)),
                Err(e) => res == Err::<(), InvalidPattern>(e) && final(self)@ == old(self)@,
            },
    {
        match compiled {
            Ok(pattern) => {
                self.register_token(pattern, constr);
                Ok(())
            },
            Err(e) => Err(e),
        }
    }

    /// Compiles a pattern and registers it with its constructor. A pattern
    /// that does not compile leaves the table as it is.
    pub fn register_token_with_regex_str(&mut self, regex: &str, constr: C) -> (res: Result<
        (),
        InvalidPattern,
    >)
        ensures
            res is Ok ==> final(self)@ == old(self)@.push((regex@, constr)),
            res matches Err(e) ==> e.pattern@ == regex@ && final(self)@ == old(self)@,
    {
        self.register_compiled(TokenPattern::new(regex), constr)
    }

    /// Moves the patterns of `from` behind those of this table.
    pub fn move_back(&mut self, from: &mut Tokenizer<C>)
        ensures
            final(self)@ == old(self)@ + old(from)@,
            final(from)@ == Seq::<(Seq<char>, C)>::empty(),
    {
        self.tokens.append(&mut from.tokens);
        assert(self@ =~= old(self)@ + old(from)@);
        assert(from@ =~= Seq::<(Seq<char>, C)>::empty());
    }

    /// Moves the patterns of `from` before those of this table.
    pub fn move_front(&mut self, from: &mut Tokenizer<C>)
        ensures
            final(self)@ == old(from)@ + old(self)@,
            final(from)@ == Seq::<(Seq<char>, C)>::empty(),
    {
        from.move_back(self);
        self.move_back(from);
        assert(self@ =~= old(from)@ + old(self)@);
    }

    /// The constructor of the last registered pattern that matches all of the
    /// token.
    pub fn find_token(&self, token: &str) -> (constr: Option<&C>)
        ensures
            match constructor_for(self@, token@) {
                Some(c) => constr == Some(&c),
                None => constr is None,
            },
    {
        let mut k: usize = self.tokens.len();
        while k > 0
            invariant
                k <= self.tokens.len(),
                last_match(self@, token@, self@.len() as int) == last_match(
                    self@,
                    token@,
                    k as int,
                ),
            decreases k,
        {
            if self.tokens[k - 1].regex.matches_fully(token) {
                return Some(&self.tokens[k - 1].constr);
            }
            k = k - 1;
        }
        None
    }
}

} // verus!
