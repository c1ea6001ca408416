use mal_core::printer::pr_str;
use mal_core::reader::create_reader;
use mal_core::reader::start_to_ast;
use mal_core::reader::tokenize;
use mal_core::types::AST;
use mal_core::types::MalType;

fn parse(input: &str) -> Option<AST> {
    let tokens = tokenize(input);
    let mut reader = create_reader(tokens, 0);
    start_to_ast(&mut reader)
}

#[test]
fn print_list_space_joined() {
    let tree = parse("( + 1 ( 2 ) )").expect("a tree");
    assert_eq!(pr_str(&tree), "(+ 1 (2))");
}

#[test]
fn print_vector_and_map() {
    let tree = parse("[1 {2 3}]").expect("a tree");
    assert_eq!(pr_str(&tree), "[1 {2 3}]");
}

#[test]
fn print_integers() {
    assert_eq!(pr_str(&AST::Atom(MalType::Integer(0))), "0");
    assert_eq!(pr_str(&AST::Atom(MalType::Integer(1234))), "1234");
    assert_eq!(pr_str(&AST::Atom(MalType::Integer(-56))), "-56");
    assert_eq!(
        pr_str(&AST::Atom(MalType::Integer(i64::MIN))),
        "-9223372036854775808"
    );
}

#[test]
fn print_string_literal_raw() {
    assert_eq!(pr_str(&AST::Atom(MalType::Str("\"hi\"".to_string()))), "\"hi\"");
}

#[test]
fn print_quote_family_canonical_names() {
    assert_eq!(pr_str(&parse("'a").unwrap()), "(quote a)");
    assert_eq!(pr_str(&parse("`a").unwrap()), "(quasiquote a)");
    assert_eq!(pr_str(&parse("~a").unwrap()), "(unquote a)");
    assert_eq!(pr_str(&parse("~@a").unwrap()), "(splice-unquote a)");
}

#[test]
fn print_sentinels_as_diagnostics() {
    assert_eq!(
        pr_str(&AST::Atom(MalType::UnbalancedListEnd)),
        "unbalanced list"
    );
    assert_eq!(
        pr_str(&AST::Atom(MalType::UnbalancedString("\"x".to_string()))),
        "unbalanced string"
    );
    assert_eq!(
        pr_str(&AST::Atom(MalType::IncompleteDeref)),
        "incomplete deref"
    );
}

#[test]
fn print_ignores_comments() {
    let tree = AST::List(vec![
        AST::Atom(MalType::Integer(1)),
        AST::Atom(MalType::Comment("; note".to_string())),
    ]);
    assert_eq!(pr_str(&tree), "(1 )");
}

#[test]
fn print_deref_and_meta() {
    assert_eq!(
        pr_str(&AST::Atom(MalType::Deref("a".to_string()))),
        "(deref a)"
    );
    assert_eq!(pr_str(&parse("^m").unwrap()), "(with-meta m)");
}

#[test]
fn round_trip_atoms_and_lists() {
    // Print, re-tokenize and re-parse: the tree comes back identical.
    let tree = AST::List(vec![
        AST::Atom(MalType::Integer(42)),
        AST::Atom(MalType::Symbol("foo".to_string(), None)),
        AST::Atom(MalType::Str("\"hi\"".to_string())),
        AST::List(vec![
            AST::Atom(MalType::Integer(-7)),
            AST::List(vec![]),
        ]),
    ]);
    let text = pr_str(&tree);
    let reparsed = parse(&text).expect("printed text parses");
    assert_eq!(reparsed, tree);
}

#[test]
fn round_trip_via_text() {
    for input in ["(+ 1 2)", "(a (b c) -10)", "(\"s\" ())"] {
        let tree = parse(input).expect("a tree");
        let text = pr_str(&tree);
        let reparsed = parse(&text).expect("printed text parses");
        assert_eq!(reparsed, tree, "round trip of {}", input);
    }
}
