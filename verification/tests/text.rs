use hyperon::reader::ParsedAtom;
use hyperon::text::{SExprParser, SyntaxNode, SyntaxNodeType};
use hyperon::tokenizer::{InvalidPattern, TokenPattern, Tokenizer};

#[derive(Clone, Debug, PartialEq)]
enum Atom {
    Sym(String),
    Var(String),
    Value(String),
    Number(i32),
    Expr(Vec<Atom>),
}

type Constr = fn(&str) -> Atom;

fn sym(name: &str) -> Atom {
    Atom::Sym(name.to_string())
}

fn var(name: &str) -> Atom {
    Atom::Var(name.to_string())
}

fn expr(children: Vec<Atom>) -> Atom {
    Atom::Expr(children)
}

fn build(atom: ParsedAtom<Constr>) -> Atom {
    match atom {
        ParsedAtom::Variable(name) => Atom::Var(name),
        ParsedAtom::Symbol(name) => Atom::Sym(name),
        ParsedAtom::Custom(constr, text) => constr(&text),
        ParsedAtom::Expression(children) => Atom::Expr(children.into_iter().map(build).collect()),
    }
}

fn parse(parser: &mut SExprParser, tokenizer: &Tokenizer<Constr>) -> Result<Option<Atom>, String> {
    match parser.parse(tokenizer) {
        Ok(Some(atom)) => Ok(Some(build(atom))),
        Ok(None) => Ok(None),
        Err(message) => Err(message),
    }
}

fn parse_atoms(program: &str) -> Vec<Atom> {
    let tokenizer = Tokenizer::new();
    let mut parser = SExprParser::new(program);
    let mut result = Vec::new();
    while let Ok(Some(atom)) = parse(&mut parser, &tokenizer) {
        result.push(atom);
    }
    result
}

fn pattern(text: &str) -> TokenPattern {
    TokenPattern::new(text).unwrap()
}

#[test]
fn test_text_var() {
    assert_eq!(vec![var("n")], parse_atoms("$n"));
}

#[test]
fn test_text_sym() {
    assert_eq!(vec![sym("test")], parse_atoms("test"));
}

#[test]
fn test_text_quoted_string() {
    assert_eq!(vec![sym("\"te st\"")], parse_atoms("\"te st\""));
}

#[test]
fn test_text_recognize_full_token() {
    let mut tokenizer: Tokenizer<Constr> = Tokenizer::new();
    tokenizer.register_token(pattern(r"b"), |_| Atom::Value("b".to_string()));

    let mut parser = SExprParser::new("ab");

    assert_eq!(Ok(Some(sym("ab"))), parse(&mut parser, &tokenizer));
    assert_eq!(Ok(None), parse(&mut parser, &tokenizer));
}

#[test]
fn test_text_gnd() {
    let mut tokenizer: Tokenizer<Constr> = Tokenizer::new();
    tokenizer.register_token(pattern(r"\d+"), |token| Atom::Number(token.parse::<i32>().unwrap()));

    let mut parser = SExprParser::new("(3d 42)");

    assert_eq!(
        Ok(Some(expr(vec![sym("3d"), Atom::Number(42)]))),
        parse(&mut parser, &tokenizer)
    );
    assert_eq!(Ok(None), parse(&mut parser, &tokenizer));
}

#[test]
fn test_text_expr() {
    assert_eq!(
        vec![expr(vec![
            sym("="),
            expr(vec![sym("fac"), var("n")]),
            expr(vec![
                sym("*"),
                var("n"),
                expr(vec![sym("fac"), expr(vec![sym("-"), var("n"), sym("1")])])
            ])
        ])],
        parse_atoms("(= (fac $n) (* $n (fac (- $n 1))))")
    );
}

#[test]
fn test_text_few_expr() {
    assert_eq!(
        vec![expr(vec![sym("a")]), expr(vec![sym("b")])],
        parse_atoms("(a) (b)")
    );
}

#[test]
fn test_next_token() {
    let text = "n)";
    let mut parser = SExprParser::new(text);

    let node = parser.parse_token().unwrap();
    assert_eq!("n".to_string(), text[node.src_range]);
    assert_eq!(Some((1, ')')), parser.next_char());
}

#[test]
fn test_next_string_errors() {
    let mut parser = SExprParser::new("a");
    let node = parser.parse_string();
    assert!(!node.is_complete);
    assert_eq!("Double quote expected", node.message.unwrap());

    let mut parser = SExprParser::new("\"\\");
    let node = parser.parse_string();
    assert!(!node.is_complete);
    assert_eq!("Escaping sequence is not finished", node.message.unwrap());
}

#[test]
fn test_unbalanced_brackets() {
    let mut parser = SExprParser::new("(a)))");
    let _ = parse(&mut parser, &Tokenizer::new());
    assert_eq!(
        Err(String::from("Unexpected right bracket")),
        parse(&mut parser, &Tokenizer::new())
    );
}

#[test]
fn test_comment_base() {
    let program = ";(a 4)
                  (b 5)";
    let expected = vec![expr(vec![sym("b"), sym("5")])];
    let res = parse_atoms(program);
    assert_eq!(res, expected);
}

#[test]
fn test_comment_in_sexpr() {
    let program = " (a ; 4)
                  5)";
    let expected = vec![expr(vec![sym("a"), sym("5")])];
    let res = parse_atoms(program);
    assert_eq!(res, expected);
}

#[test]
fn test_comment_in_sexpr_before_closing_bracket() {
    let program = " (a 5 ; 4)
                  )";
    let expected = vec![expr(vec![sym("a"), sym("5")])];
    let res = parse_atoms(program);
    assert_eq!(res, expected);
}

#[test]
fn test_comment_endl() {
    let program = " (a 4);
                  (b 5)";
    let expected = vec![
        expr(vec![sym("a"), sym("4")]),
        expr(vec![sym("b"), sym("5")]),
    ];
    let res = parse_atoms(program);
    assert_eq!(res, expected);
}

#[test]
fn test_lattice_in_var_name() {
    let mut parser = SExprParser::new("$a#");
    assert_eq!(
        Err(String::from("'#' char is reserved for internal usage")),
        parse(&mut parser, &Tokenizer::new())
    );
}

#[test]
fn override_token_definition() {
    let mut tokenizer: Tokenizer<Constr> = Tokenizer::new();
    tokenizer.register_token(pattern(r"A"), |_| Atom::Sym("A".to_string()));
    assert_eq!(tokenizer.find_token("A").unwrap()("A"), sym("A"));
    tokenizer.register_token(pattern(r"A"), |_| Atom::Sym("B".to_string()));
    assert_eq!(tokenizer.find_token("A").unwrap()("A"), sym("B"));
}

#[test]
fn invalid_pattern_is_refused() {
    assert_eq!(
        TokenPattern::new("foo(bar").err(),
        Some(InvalidPattern { pattern: "foo(bar".to_string() })
    );
    let mut tokenizer: Tokenizer<Constr> = Tokenizer::new();
    assert!(tokenizer.register_token_with_regex_str("foo(bar", |_| Atom::Sym("x".to_string())).is_err());
    assert!(tokenizer.find_token("foo").is_none());
    assert!(tokenizer.register_token_with_regex_str("fo+", |_| Atom::Sym("x".to_string())).is_ok());
    assert!(tokenizer.find_token("foo").is_some());
}

#[test]
fn pattern_must_match_the_whole_token() {
    let p = pattern(r"\d+");
    assert!(p.matches_fully("42"));
    assert!(!p.matches_fully("42d"));
    assert!(!p.matches_fully("d42"));
    assert!(!p.matches_fully(""));
    assert!(pattern("ä+").matches_fully("ää"));
}

#[test]
fn tokenizers_move_their_patterns() {
    let mut first: Tokenizer<Constr> = Tokenizer::new();
    first.register_token(pattern("A"), |_| Atom::Sym("first".to_string()));
    let mut second: Tokenizer<Constr> = Tokenizer::new();
    second.register_token(pattern("A"), |_| Atom::Sym("second".to_string()));

    first.move_back(&mut second);
    assert_eq!(first.find_token("A").unwrap()("A"), sym("second"));
    assert!(second.find_token("A").is_none());

    let mut third: Tokenizer<Constr> = Tokenizer::new();
    third.register_token(pattern("A"), |_| Atom::Sym("third".to_string()));
    first.move_front(&mut third);
    assert_eq!(first.find_token("A").unwrap()("A"), sym("second"));
    assert!(third.find_token("A").is_none());
}

#[test]
fn node_types_are_leaves_or_groups() {
    assert!(SyntaxNodeType::Comment.is_leaf());
    assert!(SyntaxNodeType::VariableToken.is_leaf());
    assert!(SyntaxNodeType::StringToken.is_leaf());
    assert!(SyntaxNodeType::WordToken.is_leaf());
    assert!(SyntaxNodeType::OpenParen.is_leaf());
    assert!(SyntaxNodeType::CloseParen.is_leaf());
    assert!(SyntaxNodeType::Whitespace.is_leaf());
    assert!(SyntaxNodeType::LeftoverText.is_leaf());
    assert!(!SyntaxNodeType::ExpressionGroup.is_leaf());
    assert!(!SyntaxNodeType::ErrorGroup.is_leaf());
}

fn shape(node: &SyntaxNode) -> (SyntaxNodeType, usize, usize) {
    (node.node_type, node.src_range.start, node.src_range.end)
}

#[test]
fn syntax_tree_of_an_expression() {
    let mut parser = SExprParser::new("(a $b \"c\")");
    let node = parser.parse_to_syntax_tree().unwrap();
    assert!(node.is_complete);
    assert_eq!(shape(&node), (SyntaxNodeType::ExpressionGroup, 0, 10));
    let shapes: Vec<_> = node.sub_nodes.iter().map(shape).collect();
    assert_eq!(
        shapes,
        vec![
            (SyntaxNodeType::OpenParen, 0, 1),
            (SyntaxNodeType::WordToken, 1, 2),
            (SyntaxNodeType::Whitespace, 2, 3),
            (SyntaxNodeType::VariableToken, 3, 5),
            (SyntaxNodeType::Whitespace, 5, 6),
            (SyntaxNodeType::StringToken, 6, 9),
            (SyntaxNodeType::CloseParen, 9, 10),
        ]
    );
    assert_eq!(node.sub_nodes[1].parsed_text, Some("a".to_string()));
    assert_eq!(node.sub_nodes[3].parsed_text, Some("b".to_string()));
    assert_eq!(node.sub_nodes[5].parsed_text, Some("\"c\"".to_string()));
    assert!(parser.parse_to_syntax_tree().is_none());
}

#[test]
fn ranges_count_bytes() {
    let text = "äb ;é\nz";
    let mut parser = SExprParser::new(text);
    let word = parser.parse_to_syntax_tree().unwrap();
    assert_eq!(shape(&word), (SyntaxNodeType::WordToken, 0, 3));
    assert_eq!(&text[word.src_range.clone()], "äb");
    let blank = parser.parse_to_syntax_tree().unwrap();
    assert_eq!(shape(&blank), (SyntaxNodeType::Whitespace, 3, 4));
    assert_eq!(parser.cur_idx(), 4);
    let comment = parser.parse_to_syntax_tree().unwrap();
    assert_eq!(shape(&comment), (SyntaxNodeType::Comment, 4, 7));
    let newline = parser.parse_to_syntax_tree().unwrap();
    assert_eq!(shape(&newline), (SyntaxNodeType::Whitespace, 7, 8));
    let last = parser.parse_to_syntax_tree().unwrap();
    assert_eq!(shape(&last), (SyntaxNodeType::WordToken, 8, 9));
    assert_eq!(parser.cur_idx(), text.len());
    assert_eq!(parser.peek(), None);
}

#[test]
fn unicode_whitespace_ends_a_word() {
    let mut parser = SExprParser::new("a\u{2003}b");
    let word = parser.parse_word();
    assert_eq!(word.parsed_text, Some("a".to_string()));
    let blank = parser.parse_to_syntax_tree().unwrap();
    assert_eq!(shape(&blank), (SyntaxNodeType::Whitespace, 1, 2));
}

#[test]
fn strings_keep_what_a_backslash_escapes() {
    let mut parser = SExprParser::new("\"a\\\"b\" rest");
    let node = parser.parse_string();
    assert!(node.is_complete);
    assert_eq!(node.node_type, SyntaxNodeType::StringToken);
    assert_eq!(node.parsed_text, Some("\"a\"b\"".to_string()));
    assert_eq!(node.src_range, 0..6);

    let mut parser = SExprParser::new("\"abc");
    let node = parser.parse_string();
    assert!(!node.is_complete);
    assert_eq!(node.node_type, SyntaxNodeType::StringToken);
    assert_eq!(node.message, Some("Unclosed String Literal".to_string()));
    assert_eq!(node.src_range, 0..4);
}

#[test]
fn expressions_fail_at_the_end_of_the_text() {
    let mut parser = SExprParser::new("(a (b");
    let node = parser.parse_to_syntax_tree().unwrap();
    assert!(!node.is_complete);
    assert_eq!(node.node_type, SyntaxNodeType::ErrorGroup);
    assert_eq!(node.message, Some("Unexpected end of expression".to_string()));
    assert_eq!(node.src_range, 0..5);
    let inner = node.sub_nodes.last().unwrap();
    assert_eq!(inner.node_type, SyntaxNodeType::ErrorGroup);
    assert_eq!(inner.src_range, 3..5);

    let tokenizer: Tokenizer<Constr> = Tokenizer::new();
    assert_eq!(
        node.as_atom(&tokenizer).map(|atom| atom.map(build)),
        Err("Unexpected end of expression".to_string())
    );
}

#[test]
fn right_bracket_leaves_the_rest_unread() {
    let mut parser = SExprParser::new(") a b");
    let node = parser.parse_to_syntax_tree().unwrap();
    assert_eq!(shape(&node), (SyntaxNodeType::ErrorGroup, 0, 5));
    assert_eq!(node.message, Some("Unexpected right bracket".to_string()));
    let shapes: Vec<_> = node.sub_nodes.iter().map(shape).collect();
    assert_eq!(
        shapes,
        vec![(SyntaxNodeType::CloseParen, 0, 1), (SyntaxNodeType::LeftoverText, 1, 5)]
    );
    assert!(parser.parse_to_syntax_tree().is_none());
}

#[test]
fn nodes_are_visited_depth_first() {
    let mut parser = SExprParser::new("(a (b))");
    let node = parser.parse_to_syntax_tree().unwrap();
    let listed: Vec<_> = node.depth_first_nodes().into_iter().map(shape).collect();
    let mut visited = Vec::new();
    node.visit_depth_first(|n| visited.push(shape(n)));
    assert_eq!(listed, visited);
    assert_eq!(
        visited,
        vec![
            (SyntaxNodeType::OpenParen, 0, 1),
            (SyntaxNodeType::WordToken, 1, 2),
            (SyntaxNodeType::Whitespace, 2, 3),
            (SyntaxNodeType::OpenParen, 3, 4),
            (SyntaxNodeType::WordToken, 4, 5),
            (SyntaxNodeType::CloseParen, 5, 6),
            (SyntaxNodeType::ExpressionGroup, 3, 6),
            (SyntaxNodeType::CloseParen, 6, 7),
            (SyntaxNodeType::ExpressionGroup, 0, 7),
        ]
    );
    let copy = node.clone();
    assert_eq!(copy.depth_first_nodes().len(), 9);
}

#[test]
fn nodes_made_by_hand_may_be_unsound() {
    let mut parser = SExprParser::new("(a \"b c\" $d) ; rest");
    let node = parser.parse_to_syntax_tree().unwrap();
    assert!(node.is_sound());

    let mut broken = node.clone();
    broken.sub_nodes[1].parsed_text = None;
    assert!(!broken.is_sound());

    let mut silent = node.clone();
    silent.is_complete = false;
    assert!(!silent.is_sound());
    silent.message = Some("failed".to_string());
    assert!(silent.is_sound());

    let leftover = SyntaxNode::new(SyntaxNodeType::LeftoverText, 0..1, vec![]);
    assert!(!leftover.is_sound());
    let error = SyntaxNode::new_error_group(
        0..1,
        vec![SyntaxNode::incomplete_with_message(
            SyntaxNodeType::WordToken,
            0..1,
            vec![],
            "why".to_string(),
        )],
    );
    assert!(error.is_sound());
    assert_eq!(error.message, Some("why".to_string()));
    assert_eq!(error.node_type, SyntaxNodeType::ErrorGroup);
}

#[test]
fn parser_stands_where_it_stopped() {
    let mut parser = SExprParser::new("ab (c)");
    assert_eq!(parser.peek(), Some('a'));
    assert_eq!(parser.cur_idx(), 0);
    let word = parser.parse_word();
    assert_eq!(word.src_range, 0..2);
    assert_eq!(parser.peek(), Some(' '));
    assert_eq!(parser.next_char(), Some((2, ' ')));
    let expr = parser.parse_expr();
    assert_eq!(expr.src_range, 3..6);
    assert_eq!(parser.next_char(), None);
    assert!(parser.parse_comment().is_none());
    assert!(parser.parse_token().is_none());
    let rest = parser.parse_leftovers("nothing left".to_string());
    assert_eq!(rest.src_range, 6..6);
    assert!(SExprParser::is_word_end(')'));
    assert!(SExprParser::is_word_end('\t'));
    assert!(!SExprParser::is_word_end(';'));
}

#[test]
fn variables_and_comments_inside_expressions() {
    let mut parser = SExprParser::new("$x($y)");
    let first = parser.parse_variable();
    assert_eq!(first.parsed_text, Some("x".to_string()));
    assert_eq!(first.src_range, 0..2);
    let mut parser = SExprParser::new("(;c\n)");
    let node = parser.parse_to_syntax_tree().unwrap();
    let kinds: Vec<_> = node.sub_nodes.iter().map(|n| n.node_type).collect();
    assert_eq!(
        kinds,
        vec![
            SyntaxNodeType::OpenParen,
            SyntaxNodeType::Comment,
            SyntaxNodeType::Whitespace,
            SyntaxNodeType::CloseParen
        ]
    );
    let tokenizer: Tokenizer<Constr> = Tokenizer::new();
    assert_eq!(node.as_atom(&tokenizer).map(|atom| atom.map(build)), Ok(Some(expr(vec![]))));
}
