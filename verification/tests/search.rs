use grafdag::document::{Document, Node, NodeId};
use grafdag::search::{hits, search_current, search_results};

fn id(s: &str) -> NodeId {
    return NodeId(s.to_string());
}

fn doc() -> Document {
    let mut doc = Document::default();
    for (n, t) in [("n1", "Alpha"), ("n2", "beta"), ("n3", "Gamma ray")] {
        doc.nodes.push(Node { id: id(n), text: t.to_string(), layers: vec![], parents: vec![] });
    }
    return doc;
}

#[test]
fn query_matches_text_or_id() {
    assert!(hits("", "anything", "x"));
    assert!(hits("ph", "alpha", "n1"));
    assert!(hits("n1", "alpha", "n1"));
    assert!(!hits("z", "alpha", "n1"));
    assert!(!hits("alphas", "alpha", "n1"));
}

#[test]
fn search_ignores_case() {
    let doc = doc();
    let shown = vec![id("n3"), id("n1"), id("n2")];
    // Upper case in the query or the text makes no difference.
    assert_eq!(search_results(&doc, &shown, &"ALP".to_string()), vec![(id("n1"), "Alpha".to_string())]);
    assert_eq!(search_results(&doc, &shown, &"ray".to_string()), vec![(id("n3"), "Gamma ray".to_string())]);
    // Ids are searched too.
    assert_eq!(search_results(&doc, &shown, &"N2".to_string()), vec![(id("n2"), "beta".to_string())]);
    // "a" occurs in every text, and results follow the shown order.
    let all = search_results(&doc, &shown, &"A".to_string());
    assert_eq!(all.iter().map(|h| h.0.clone()).collect::<Vec<_>>(), shown);
    assert!(search_results(&doc, &shown, &"zzz".to_string()).is_empty());
}

#[test]
fn empty_query_finds_every_shown_node() {
    let doc = doc();
    let shown = vec![id("n2"), id("gone"), id("n1")];
    let r = search_results(&doc, &shown, &"".to_string());
    assert_eq!(r, vec![(id("n2"), "beta".to_string()), (id("n1"), "Alpha".to_string())]);
    assert_eq!(search_current(&doc, &shown, &"".to_string(), 1), Some(id("n1")));
    assert_eq!(search_current(&doc, &shown, &"".to_string(), 2), None);
    assert_eq!(search_current(&doc, &shown, &"BET".to_string(), 0), Some(id("n2")));
}
