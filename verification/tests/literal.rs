use str_tree::{str_tree, str_tree_simple, StrTree};

fn gen_example_structure() -> StrTree {
    // Example structure
    // a
    //   b
    //   c
    //     d
    //       e
    //   f

    StrTree::new(
        "a",
        vec![
            StrTree::new("b", vec![]),
            StrTree::new(
                "c",
                vec![StrTree::new("d", vec![StrTree::new("e", vec![])])],
            ),
            StrTree::new("f", vec![]),
        ],
    )
}

#[test]
fn test_macro_simple() {
    // simple flat case
    let st = str_tree_simple("a", vec![]);
    assert_eq!(st, StrTree::new("a", vec![]));

    // one already-built child
    let st = str_tree_simple("a", vec![str_tree_simple("b", vec![])]);
    assert_eq!(st, StrTree::new("a", vec![StrTree::new("b", vec![])]));

    // complete example

    let exp = gen_example_structure();

    let macro_1 = str_tree_simple(
        "a",
        vec![
            str_tree_simple("b", vec![]),
            str_tree_simple(
                "c",
                vec![str_tree_simple(
                    "d",
                    vec![str_tree_simple("e", vec![])],
                )],
            ),
            str_tree_simple("f", vec![]),
        ],
    );

    assert_eq!(exp, macro_1);
}

#[test]
fn test_macro() {
    // simple flat case
    let st = str_tree("\"a\"").unwrap();
    assert_eq!(st, StrTree::new("a", vec![]));

    // empty braces
    let st = str_tree("\"a\" => {}").unwrap();
    assert_eq!(st, StrTree::new("a", vec![]));

    // no trailing comma
    let st = str_tree("\"a\" => { \"b\" }").unwrap();
    assert_eq!(st, StrTree::new("a", vec![StrTree::new("b", vec![])]));

    // trailing comma
    let st = str_tree("\"a\" => { \"b\", \"c\", }").unwrap();
    assert_eq!(
        st,
        StrTree::new(
            "a",
            vec![StrTree::new("b", vec![]), StrTree::new("c", vec![])]
        )
    );

    // complete example

    let exp = gen_example_structure();

    let macro_2 = str_tree(
        "\"a\" => {
            \"b\",
            \"c\" => {
                \"d\" => {
                    \"e\",
                },
            },
            \"f\",
        }",
    )
    .unwrap();

    assert_eq!(exp, macro_2);
}
