use str_tree::parser::parse_tokens;
use str_tree::token::Token;
use str_tree::{str_tree, str_tree_simple, StrTree};

#[test]
fn leaf_in_either_notation() {
    let flat = str_tree_simple("leaf", vec![]);
    let nested = str_tree("\"leaf\"").unwrap();
    assert_eq!(flat, nested);
    assert_eq!(nested.elmt, "leaf");
    assert_eq!(nested.children.len(), 0);
}

#[test]
fn notations_agree_on_nested_shape() {
    let flat = str_tree_simple(
        "root",
        vec![
            str_tree_simple("x", vec![str_tree_simple("y", vec![])]),
            str_tree_simple("z", vec![]),
        ],
    );
    let nested = str_tree("\"root\" => { \"x\" => { \"y\" }, \"z\" }").unwrap();
    assert_eq!(flat, nested);
}

#[test]
fn trailing_comma_is_invariant() {
    let without = str_tree("\"a\" => { \"b\", \"c\" => { \"d\" } }").unwrap();
    let with_inner = str_tree("\"a\" => { \"b\", \"c\" => { \"d\", } }").unwrap();
    let with_all = str_tree("\"a\" => { \"b\", \"c\" => { \"d\", }, }").unwrap();
    assert_eq!(without, with_inner);
    assert_eq!(without, with_all);
}

#[test]
fn empty_body_equals_bare_label() {
    let bare = str_tree("\"a\"").unwrap();
    let braced = str_tree("\"a\" => {}").unwrap();
    let braced_comma_free_whitespace = str_tree("\"a\" => {  }").unwrap();
    assert_eq!(bare, braced);
    assert_eq!(bare, braced_comma_free_whitespace);
}

#[test]
fn sibling_order_is_preserved() {
    let st = str_tree("\"p\" => { \"e1\", \"e2\", \"e3\", \"e4\" }").unwrap();
    let labels: Vec<&str> = st.children.iter().map(|c| c.elmt.as_str()).collect();
    assert_eq!(labels, vec!["e1", "e2", "e3", "e4"]);
}

#[test]
fn scenario_bare_label() {
    let st = str_tree("\"a\"").unwrap();
    assert_eq!(st, StrTree::new("a", vec![]));
}

#[test]
fn scenario_single_child() {
    let st = str_tree("\"a\" => {\"b\"}").unwrap();
    assert_eq!(st, StrTree::new("a", vec![StrTree::new("b", vec![])]));
}

#[test]
fn scenario_two_children_trailing_comma() {
    let st = str_tree("\"a\" => {\"b\",\"c\",}").unwrap();
    assert_eq!(
        st,
        StrTree::new(
            "a",
            vec![StrTree::new("b", vec![]), StrTree::new("c", vec![])]
        )
    );
}

#[test]
fn scenario_full_depth() {
    let st = str_tree("\"a\" => {\"b\", \"c\" => {\"d\" => {\"e\",}}, \"f\",}").unwrap();
    let exp = StrTree::new(
        "a",
        vec![
            StrTree::new("b", vec![]),
            StrTree::new(
                "c",
                vec![StrTree::new("d", vec![StrTree::new("e", vec![])])],
            ),
            StrTree::new("f", vec![]),
        ],
    );
    assert_eq!(st, exp);
}

#[test]
fn malformed_literals_fail() {
    // unmatched opening brace
    assert!(str_tree("\"a\" => {\"b\"").is_err());
    // arrow with no following brace
    assert!(str_tree("\"a\" => \"b\"").is_err());
    // arrow at the very end
    assert!(str_tree("\"a\" =>").is_err());
    // stray separator matching no rule
    assert!(str_tree("\"a\" => {,}").is_err());
    // leading separator before an entry
    assert!(str_tree("\"a\" => {, \"b\"}").is_err());
    // nothing at all
    assert!(str_tree("").is_err());
    // tokens after a complete tree
    assert!(str_tree("\"a\" \"b\"").is_err());
    // closing brace without an opening one
    assert!(str_tree("\"a\" => {\"b\"}}").is_err());
    // unterminated label
    assert!(str_tree("\"a").is_err());
    // `=` that is not `=>`
    assert!(str_tree("\"a\" = {\"b\"}").is_err());
    // a character that starts no token
    assert!(str_tree("\"a\" => [\"b\"]").is_err());
}

#[test]
fn malformed_token_sequences_fail() {
    // label then a lone opening brace: unbalanced
    let toks = vec![Token::Label(String::from("a")), Token::LBrace];
    assert!(parse_tokens(&toks).is_err());
    // arrow without a brace body
    let toks = vec![
        Token::Label(String::from("a")),
        Token::Arrow,
        Token::Label(String::from("b")),
    ];
    assert!(parse_tokens(&toks).is_err());
    // empty sequence: no label
    let toks: Vec<Token> = vec![];
    assert!(parse_tokens(&toks).is_err());
}

#[test]
fn token_sequence_expands_like_text() {
    let toks = vec![
        Token::Label(String::from("a")),
        Token::Arrow,
        Token::LBrace,
        Token::Label(String::from("b")),
        Token::Comma,
        Token::RBrace,
    ];
    let from_tokens = parse_tokens(&toks).unwrap();
    let from_text = str_tree("\"a\" => {\"b\",}").unwrap();
    assert_eq!(from_tokens, from_text);
}

#[test]
fn structural_equality_is_recursive() {
    let a = str_tree("\"a\" => { \"b\", \"c\" => { \"d\" } }").unwrap();
    let b = str_tree_simple(
        "a",
        vec![
            str_tree_simple("b", vec![]),
            str_tree_simple("c", vec![str_tree_simple("d", vec![])]),
        ],
    );
    assert!(a.tree_eq(&b));
    // a different label deep in the tree breaks equality
    let c = str_tree("\"a\" => { \"b\", \"c\" => { \"x\" } }").unwrap();
    assert!(!a.tree_eq(&c));
    // a missing child breaks equality
    let d = str_tree("\"a\" => { \"b\" }").unwrap();
    assert!(!a.tree_eq(&d));
    // a different root label breaks equality
    let e = str_tree("\"x\" => { \"b\", \"c\" => { \"d\" } }").unwrap();
    assert!(!a.tree_eq(&e));
}

#[test]
fn labels_may_be_empty_or_odd() {
    // the empty label is a label
    let st = str_tree("\"\"").unwrap();
    assert_eq!(st, StrTree::new("", vec![]));
    // label characters are arbitrary except the quote
    let st = str_tree("\"sp ace{,}=>\" => { \"x\" }").unwrap();
    assert_eq!(
        st,
        StrTree::new("sp ace{,}=>", vec![StrTree::new("x", vec![])])
    );
}
