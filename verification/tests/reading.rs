use mal_core::reader::create_reader;
use mal_core::reader::start_to_ast;
use mal_core::reader::tokenize;
use mal_core::types::AST;
use mal_core::types::MalToken;
use mal_core::types::MalType;

fn parse(input: &str) -> Option<AST> {
    let tokens = tokenize(input);
    let mut reader = create_reader(tokens, 0);
    start_to_ast(&mut reader)
}

fn has_unbalanced_sentinel(t: &AST) -> bool {
    match t {
        AST::Atom(v) => *v == MalType::UnbalancedListEnd,
        AST::List(l) | AST::Vector(l) | AST::HashMap(l) => {
            l.iter().any(has_unbalanced_sentinel)
        }
    }
}

#[test]
fn tokenize_simple_form() {
    let tokens = tokenize("(+ 1 2)");
    assert_eq!(
        tokens,
        vec![
            MalToken::SpecialOne('('),
            MalToken::NonSpecial("+".to_string()),
            MalToken::NonSpecial("1".to_string()),
            MalToken::NonSpecial("2".to_string()),
            MalToken::SpecialOne(')'),
            MalToken::NonSpecial(String::new()),
        ]
    );
}

#[test]
fn tokenize_discards_whitespace_and_commas() {
    let tokens = tokenize("  a ,,, b\t");
    assert_eq!(
        tokens,
        vec![
            MalToken::NonSpecial("a".to_string()),
            MalToken::NonSpecial("b".to_string()),
            MalToken::NonSpecial(String::new()),
        ]
    );
}

#[test]
fn tokenize_discards_uncommon_whitespace() {
    // Form feed, vertical tab and Unicode spaces separate tokens too.
    let tokens = tokenize("a\u{000C}b\u{000B}c\u{2003}d");
    assert_eq!(
        tokens,
        vec![
            MalToken::NonSpecial("a".to_string()),
            MalToken::NonSpecial("b".to_string()),
            MalToken::NonSpecial("c".to_string()),
            MalToken::NonSpecial("d".to_string()),
            MalToken::NonSpecial(String::new()),
        ]
    );
}

#[test]
fn tokenize_splice_unquote_marker() {
    let tokens = tokenize("~@x");
    assert_eq!(
        tokens,
        vec![
            MalToken::SpecialTwo("~@".to_string()),
            MalToken::NonSpecial("x".to_string()),
            MalToken::NonSpecial(String::new()),
        ]
    );
}

#[test]
fn tokenize_unterminated_string_kept() {
    let tokens = tokenize("\"abc");
    assert_eq!(
        tokens,
        vec![
            MalToken::StrLiteral("\"abc".to_string()),
            MalToken::NonSpecial(String::new()),
        ]
    );
}

#[test]
fn tokenize_string_with_escapes() {
    let tokens = tokenize("\"a\\\"b\"");
    assert_eq!(
        tokens,
        vec![
            MalToken::StrLiteral("\"a\\\"b\"".to_string()),
            MalToken::NonSpecial(String::new()),
        ]
    );
}

#[test]
fn tokenize_comment_to_line_end() {
    let tokens = tokenize("; note");
    assert_eq!(
        tokens,
        vec![
            MalToken::CommentToken("; note".to_string()),
            MalToken::NonSpecial(String::new()),
        ]
    );
}

#[test]
fn parse_integer_atom() {
    assert_eq!(parse("42"), Some(AST::Atom(MalType::Integer(42))));
}

#[test]
fn parse_negative_integer_atom() {
    assert_eq!(parse("-5"), Some(AST::Atom(MalType::Integer(-5))));
}

#[test]
fn parse_symbol_atom() {
    assert_eq!(
        parse("foo"),
        Some(AST::Atom(MalType::Symbol("foo".to_string(), None)))
    );
}

#[test]
fn parse_operator_symbol() {
    assert_eq!(
        parse("+"),
        Some(AST::Atom(MalType::Symbol("+".to_string(), None)))
    );
}

#[test]
fn parse_out_of_range_numeral_degrades_to_symbol() {
    assert_eq!(
        parse("99999999999999999999"),
        Some(AST::Atom(MalType::Symbol(
            "99999999999999999999".to_string(),
            None
        )))
    );
}

#[test]
fn parse_balanced_string() {
    assert_eq!(
        parse("\"hi\""),
        Some(AST::Atom(MalType::Str("\"hi\"".to_string())))
    );
}

#[test]
fn parse_unbalanced_string_sentinel() {
    assert_eq!(
        parse("\"hi"),
        Some(AST::Atom(MalType::UnbalancedString("\"hi".to_string())))
    );
}

#[test]
fn parse_list_vector_map() {
    assert_eq!(
        parse("(1 [2] {3})"),
        Some(AST::List(vec![
            AST::Atom(MalType::Integer(1)),
            AST::Vector(vec![AST::Atom(MalType::Integer(2))]),
            AST::HashMap(vec![AST::Atom(MalType::Integer(3))]),
        ]))
    );
}

#[test]
fn parse_quote_shorthand_equals_spelled_out() {
    // Parsing 'a yields a tree equal to parsing (quote a).
    assert_eq!(parse("'a"), parse("(quote a)"));
}

#[test]
fn parse_quasiquote_and_unquote_shorthand() {
    assert_eq!(parse("`a"), parse("(quasiquote a)"));
    assert_eq!(parse("~a"), parse("(unquote a)"));
    assert_eq!(parse("~@a"), parse("(splice-unquote a)"));
}

#[test]
fn parse_quote_with_nothing_after() {
    assert_eq!(
        parse("'"),
        Some(AST::List(vec![
            AST::Atom(MalType::Quote),
            AST::Atom(MalType::UnbalancedListEnd),
        ]))
    );
}

#[test]
fn parse_deref_shorthand() {
    assert_eq!(parse("@a"), Some(AST::Atom(MalType::Deref("a".to_string()))));
}

#[test]
fn parse_incomplete_deref() {
    // Through the tokenizer a lone `@` is followed by the final empty
    // "other" token, so it derefs an empty name; only a token sequence that
    // truly ends at the marker yields the sentinel.
    assert_eq!(parse("@"), Some(AST::Atom(MalType::Deref(String::new()))));
    let mut reader = create_reader(vec![MalToken::SpecialOne('@')], 0);
    assert_eq!(
        start_to_ast(&mut reader),
        Some(AST::Atom(MalType::IncompleteDeref))
    );
}

#[test]
fn deref_before_non_name_degrades_without_loss() {
    // `@` before anything but a name yields the incomplete-deref sentinel
    // and leaves the following token in place for the next form.
    assert_eq!(
        parse("(@() 1)"),
        Some(AST::List(vec![
            AST::Atom(MalType::IncompleteDeref),
            AST::List(vec![]),
            AST::Atom(MalType::Integer(1)),
        ]))
    );
    assert_eq!(
        parse("(@)"),
        Some(AST::List(vec![AST::Atom(MalType::IncompleteDeref)]))
    );
}

#[test]
fn metadata_at_end_of_tokens_still_yields_a_node() {
    let mut reader = create_reader(vec![MalToken::SpecialOne('^')], 0);
    assert_eq!(
        start_to_ast(&mut reader),
        Some(AST::List(vec![AST::Atom(MalType::Meta)]))
    );
}

#[test]
fn empty_other_tokens_are_skipped_not_reported() {
    // None never stands for a parse failure: with real tokens after the
    // empty padding, the parser scans on to them.
    let mut reader = create_reader(
        vec![
            MalToken::NonSpecial(String::new()),
            MalToken::NonSpecial("x".to_string()),
        ],
        0,
    );
    assert_eq!(
        start_to_ast(&mut reader),
        Some(AST::Atom(MalType::Symbol("x".to_string(), None)))
    );
}

#[test]
fn parse_stray_closer_is_symbol() {
    assert_eq!(
        parse(")"),
        Some(AST::Atom(MalType::Symbol(")".to_string(), None)))
    );
}

#[test]
fn open_equals_close_on_token_text() {
    assert!(mal_core::reader::open_equals_close("\"x\""));
    assert!(!mal_core::reader::open_equals_close("\"x"));
    assert!(mal_core::reader::open_equals_close("plain"));
    assert!(mal_core::reader::open_equals_close(""));
}

#[test]
fn parse_metadata_shorthand() {
    assert_eq!(
        parse("^m"),
        Some(AST::List(vec![
            AST::Atom(MalType::Meta),
            AST::Atom(MalType::Symbol("m".to_string(), None)),
        ]))
    );
}

#[test]
fn parse_comment_atom() {
    assert_eq!(
        parse("; x"),
        Some(AST::Atom(MalType::Comment("; x".to_string())))
    );
}

#[test]
fn parse_empty_input_is_none() {
    assert_eq!(parse(""), None);
    assert_eq!(parse("   "), None);
}

#[test]
fn balanced_input_has_no_unbalanced_sentinel() {
    // For bracket-balanced input the parser never emits UnbalancedListEnd.
    for input in ["(1 (2 3) [4 5] {6})", "()", "((()))", "(a (b (c d)) e)"] {
        let tree = parse(input).expect("a tree");
        assert!(!has_unbalanced_sentinel(&tree), "sentinel in {}", input);
    }
}

#[test]
fn surplus_open_brackets_yield_exactly_one_sentinel() {
    // More opening than closing brackets: the top-level result's last child
    // is exactly one UnbalancedListEnd sentinel.
    let tree = parse("((1) 2").expect("a tree");
    match tree {
        AST::List(children) => {
            assert_eq!(
                children.last(),
                Some(&AST::Atom(MalType::UnbalancedListEnd))
            );
            let head = &children[..children.len() - 1];
            assert!(head
                .iter()
                .all(|c| *c != AST::Atom(MalType::UnbalancedListEnd)));
            assert_eq!(children.len(), 3);
        }
        other => panic!("expected a list, got {:?}", other),
    }
}

#[test]
fn nested_exhaustion_appends_sentinels_inside_out() {
    assert_eq!(
        parse("(1 (2"),
        Some(AST::List(vec![
            AST::Atom(MalType::Integer(1)),
            AST::List(vec![
                AST::Atom(MalType::Integer(2)),
                AST::Atom(MalType::UnbalancedListEnd),
            ]),
            AST::Atom(MalType::UnbalancedListEnd),
        ]))
    );
}

#[test]
fn parsing_twice_yields_identical_trees() {
    // Identical token sequence and start position always yield an identical
    // tree.
    for input in ["(+ 1 2)", "'(a b)", "\"s\"", "((1) 2"] {
        let first = parse(input);
        let second = parse(input);
        assert_eq!(first, second);
    }
}

#[test]
fn reader_peek_and_next() {
    let tokens = tokenize("a b");
    let mut reader = create_reader(tokens, 0);
    assert_eq!(
        reader.peek(),
        Some(&MalToken::NonSpecial("a".to_string()))
    );
    assert_eq!(
        reader.next(),
        Some(&MalToken::NonSpecial("a".to_string()))
    );
    assert_eq!(
        reader.peek(),
        Some(&MalToken::NonSpecial("b".to_string()))
    );
}
