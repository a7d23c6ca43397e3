use ngram_trie::NGramTrie;
use petgraph::graph::NodeIndex;

#[test]
fn graph_of_empty_trie_is_just_root() {
    let trie = NGramTrie::new(2);
    let (graph, root) = trie.create_graph();
    assert_eq!(root, 0);
    assert_eq!(graph.node_count(), 1);
    assert_eq!(graph.edge_count(), 0);
    assert_eq!(
        graph.node_weight(NodeIndex::new(0)),
        Some(&"root".to_string())
    );
}

#[test]
fn graph_nodes_carry_tokens_and_leaf_counts() {
    let mut trie = NGramTrie::new(2);
    assert_eq!(trie.insert(&[1, 2]), Ok(()));
    assert_eq!(trie.insert(&[1, 3]), Ok(()));
    assert_eq!(trie.insert(&[1, 2]), Ok(()));
    let (graph, root) = trie.create_graph();
    // root, the inner node 1, and the leaves 2 and 3.
    assert_eq!(graph.node_count(), 4);
    assert_eq!(graph.edge_count(), 3);
    assert_eq!(
        graph.node_weight(NodeIndex::new(root)),
        Some(&"root".to_string())
    );
    let weights: Vec<&String> = graph.node_weights().collect();
    assert!(weights.contains(&&"1".to_string()));
    assert!(weights.contains(&&"2 (2)".to_string()));
    assert!(weights.contains(&&"3 (1)".to_string()));
}

#[test]
fn dot_text_lists_labels_and_edges() {
    let mut trie = NGramTrie::new(2);
    assert_eq!(trie.insert(&[7, -4]), Ok(()));
    assert_eq!(trie.insert(&[7, -4]), Ok(()));
    let dot = trie.to_dot();
    assert!(dot.contains("digraph"));
    assert!(dot.contains("root"));
    assert!(dot.contains("7"));
    assert!(dot.contains("-4 (2)"));
    assert!(dot.contains("0 -> 1"));
    assert!(dot.contains("1 -> 2"));
}

#[test]
fn depth_first_walk_keeps_insertion_order() {
    let mut trie = NGramTrie::new(1);
    assert_eq!(trie.insert(&[5]), Ok(()));
    assert_eq!(trie.insert(&[9]), Ok(()));
    assert_eq!(trie.insert(&[5]), Ok(()));
    let (graph, _) = trie.create_graph();
    assert_eq!(graph.node_count(), 3);
    assert_eq!(
        graph.node_weight(NodeIndex::new(1)),
        Some(&"5 (2)".to_string())
    );
    assert_eq!(
        graph.node_weight(NodeIndex::new(2)),
        Some(&"9 (1)".to_string())
    );
}
