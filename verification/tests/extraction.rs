use crawler::html::extract_hrefs;
use crawler::html::AnchorNode;

#[test]
fn extraction_visits_nested_and_flattened_nodes_once() {
    let tree = AnchorNode::List(vec![
        AnchorNode::Tag {
            href: Some("a1".to_string()),
            child: Box::new(AnchorNode::Tag {
                href: Some("a2".to_string()),
                child: Box::new(AnchorNode::Leaf),
            }),
        },
        AnchorNode::Leaf,
        AnchorNode::Tag {
            href: None,
            child: Box::new(AnchorNode::List(vec![AnchorNode::Tag {
                href: Some("a3".to_string()),
                child: Box::new(AnchorNode::Leaf),
            }])),
        },
    ]);
    let mut hrefs = extract_hrefs(tree);
    hrefs.sort();
    assert_eq!(hrefs, vec!["a1".to_string(), "a2".to_string(), "a3".to_string()]);
}

#[test]
fn extraction_handles_arbitrarily_deep_trees() {
    // A chain far deeper than recursion could walk: the worklist
    // traversal must not exhaust the stack.
    let mut node = AnchorNode::Tag {
        href: Some("deep".to_string()),
        child: Box::new(AnchorNode::Leaf),
    };
    let mut i: usize = 0;
    while i < 50_000 {
        node = AnchorNode::Tag { href: None, child: Box::new(node) };
        i += 1;
    }
    let hrefs = extract_hrefs(node);
    assert_eq!(hrefs, vec!["deep".to_string()]);
}

#[test]
fn duplicate_hrefs_are_both_extracted() {
    // Deduplication happens downstream, not in extraction.
    let tree = AnchorNode::List(vec![
        AnchorNode::Tag { href: Some("same".to_string()), child: Box::new(AnchorNode::Leaf) },
        AnchorNode::Tag { href: Some("same".to_string()), child: Box::new(AnchorNode::Leaf) },
    ]);
    assert_eq!(extract_hrefs(tree).len(), 2);
}
