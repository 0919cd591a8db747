use mcts::basic_search::depth_first_search;
use mcts::basic_search::breadth_first_search;
use mcts::basic_search::Node;

fn leaf(value: i32) -> Node<i32> {
    Node::new(value, vec![])
}

fn sample_tree() -> Node<i32> {
    Node::new(1, vec![Node::new(6, vec![leaf(5), leaf(4)]), leaf(6)])
}

#[test]
fn dfs() {
    let tree = sample_tree();

    let has_seven = depth_first_search(&tree, &7);
    let has_five = depth_first_search(&tree, &5);

    assert!(!has_seven);
    assert!(has_five);
}

#[test]
fn bfs() {
    let tree = sample_tree();

    let has_seven = breadth_first_search(&tree, &7);
    let has_five = breadth_first_search(&tree, &5);

    assert!(!has_seven);
    assert!(has_five);
}

#[test]
fn dfs_finds_root_value() {
    let tree = sample_tree();
    assert!(depth_first_search(&tree, &1));
    assert!(breadth_first_search(&tree, &1));
}

#[test]
fn searches_agree_on_every_value() {
    let tree = sample_tree();
    for v in 0..8 {
        assert_eq!(
            depth_first_search(&tree, &v),
            breadth_first_search(&tree, &v)
        );
    }
}
