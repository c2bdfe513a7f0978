use path_tree::Tree;

fn s(text: &str) -> String {
    text.to_string()
}

#[test]
fn branches_over_char_keys() {
    let mut tree = Tree::<char, String>::new();
    tree.insert_recursively(&vec!['A', 'B'], s("AB"));
    tree.insert_recursively(&vec!['A', 'C'], s("AC"));
    assert_eq!(tree.find_recursively(&vec!['A', 'B']), Some(&s("AB")));
    assert_eq!(tree.find_recursively(&vec!['A', 'C']), Some(&s("AC")));
    assert_eq!(tree.find_recursively(&vec!['A', 'Z']), None);
    assert_eq!(tree.find_recursively(&vec!['A']), None);
    assert_eq!(tree.find_recursively(&vec!['X']), None);
}

#[test]
fn empty_tree_finds_nothing() {
    let tree = Tree::<char, u32>::new();
    assert_eq!(tree.find_recursively(&vec!['A']), None);
    assert_eq!(tree.find_recursively(&vec!['A', 'B', 'C']), None);
    assert_eq!(tree.find_recursively(&vec![]), None);
}

#[test]
fn insert_then_find_same_path() {
    let mut tree = Tree::<u64, u32>::new();
    tree.insert_recursively(&vec![3, 1, 4, 1, 5], 9);
    assert_eq!(tree.find_recursively(&vec![3, 1, 4, 1, 5]), Some(&9));
    assert_eq!(tree.find_recursively(&vec![3, 1, 4, 1]), None);
    assert_eq!(tree.find_recursively(&vec![3, 1, 4, 1, 6]), None);
}

#[test]
fn second_insert_overwrites() {
    let mut tree = Tree::<char, String>::new();
    tree.insert_recursively(&vec!['A', 'B'], s("first"));
    tree.insert_recursively(&vec!['A', 'B'], s("second"));
    assert_eq!(tree.find_recursively(&vec!['A', 'B']), Some(&s("second")));
}

#[test]
fn shorter_path_shadows_longer() {
    let mut tree = Tree::<char, String>::new();
    tree.insert_recursively(&vec!['A'], s("short"));
    tree.insert_recursively(&vec!['A', 'B'], s("long"));
    assert_eq!(tree.find_recursively(&vec!['A', 'B']), Some(&s("short")));
    assert_eq!(tree.find_recursively(&vec!['A']), Some(&s("short")));
}

#[test]
fn later_shorter_insert_shadows_earlier_longer() {
    let mut tree = Tree::<char, String>::new();
    tree.insert_recursively(&vec!['A', 'B'], s("long"));
    assert_eq!(tree.find_recursively(&vec!['A', 'B']), Some(&s("long")));
    tree.insert_recursively(&vec!['A'], s("short"));
    assert_eq!(tree.find_recursively(&vec!['A', 'B']), Some(&s("short")));
    assert_eq!(tree.find_recursively(&vec!['A', 'B', 'C']), Some(&s("short")));
}

#[test]
fn independent_branches() {
    let mut tree = Tree::<char, u32>::new();
    tree.insert_recursively(&vec!['A', 'B'], 1);
    tree.insert_recursively(&vec!['A', 'C'], 2);
    assert_eq!(tree.find_recursively(&vec!['A', 'B']), Some(&1));
    assert_eq!(tree.find_recursively(&vec!['A', 'C']), Some(&2));
    assert_eq!(tree.find_recursively(&vec!['A', 'D']), None);
}

#[test]
fn empty_path_sets_root_value() {
    let mut tree = Tree::<char, u32>::new();
    tree.insert_recursively(&vec!['A', 'B'], 1);
    tree.insert_recursively(&vec![], 0);
    assert_eq!(tree.find_recursively(&vec![]), Some(&0));
    assert_eq!(tree.find_recursively(&vec!['A', 'B']), Some(&0));
    assert_eq!(tree.find_recursively(&vec!['Q']), Some(&0));
}

#[test]
fn missing_branch_finds_nothing() {
    let mut tree = Tree::<u64, u32>::new();
    tree.insert_recursively(&vec![1, 2, 3], 6);
    assert_eq!(tree.find_recursively(&vec![2, 2, 3]), None);
    assert_eq!(tree.find_recursively(&vec![1, 3, 3]), None);
    assert_eq!(tree.find_recursively(&vec![1, 2]), None);
}

#[test]
fn value_found_past_path_end_of_stored_prefix() {
    let mut tree = Tree::<u64, u32>::new();
    tree.insert_recursively(&vec![7, 8], 78);
    assert_eq!(tree.find_recursively(&vec![7, 8, 9, 10]), Some(&78));
}

#[test]
fn many_siblings_and_long_paths() {
    let mut tree = Tree::<u64, u64>::new();
    for i in 0..50u64 {
        tree.insert_recursively(&vec![0, i, i + 1], i * 10);
    }
    let long: Vec<u64> = (1000..1200u64).collect();
    tree.insert_recursively(&long, 4242);
    for i in 0..50u64 {
        assert_eq!(tree.find_recursively(&vec![0, i, i + 1]), Some(&(i * 10)));
        assert_eq!(tree.find_recursively(&vec![0, i, i + 2]), None);
    }
    assert_eq!(tree.find_recursively(&long), Some(&4242));
    assert_eq!(tree.find_recursively(&long[..199].to_vec()), None);
}
