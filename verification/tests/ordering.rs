use dirtree::order::str_eq;
use dirtree::order::str_lex_lt;
use dirtree::select::ordered_indices;
use dirtree::FsNode;

#[test]
fn lexical_order_on_names() {
    assert!(str_lex_lt("apple", "banana"));
    assert!(!str_lex_lt("banana", "apple"));
    assert!(str_lex_lt("app", "apple"));
    assert!(!str_lex_lt("apple", "app"));
    assert!(!str_lex_lt("apple", "apple"));
    assert!(str_lex_lt("", "a"));
    assert!(!str_lex_lt("a", ""));
    assert!(str_lex_lt("A", "a"));
    assert!(str_lex_lt(".hidden", "visible"));
}

#[test]
fn name_equality() {
    assert!(str_eq("same", "same"));
    assert!(!str_eq("same", "samf"));
    assert!(!str_eq("same", "sam"));
    assert!(str_eq("", ""));
}

#[test]
fn listing_order_filters_and_sorts_positions() {
    let children = vec![
        FsNode::File { name: "pear".to_string() },
        FsNode::File { name: ".dot".to_string() },
        FsNode::File { name: "apple".to_string() },
    ];
    let ord = ordered_indices(&children, false);
    assert_eq!(ord, vec![2usize, 0usize]);
    let all = ordered_indices(&children, true);
    assert_eq!(all, vec![1usize, 2usize, 0usize]);
}
