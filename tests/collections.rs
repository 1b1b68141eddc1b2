use lisp::linked_list::List;
use lisp::search_tree::Tree;

#[test]
fn empty_list() {
    let t = List::new();
    assert_eq!(t.collect(), Vec::<i32>::new());
}

#[test]
fn non_empty_list() {
    let mut t = List::new();
    t.add(4);
    t.add(1);
    t.add(7);
    t.add(3);
    assert_eq!(t.collect(), vec![4, 1, 7, 3]);
}

#[test]
fn empty_tree() {
    let t = Tree::new();
    assert_eq!(t.collect(), Vec::<i32>::new());
}

#[test]
fn non_empty_tree() {
    let mut t = Tree::new();
    t.add(5);
    t.add(1);
    t.add(3);
    t.add(2);
    t.add(4);
    assert_eq!(t.collect(), vec![1, 2, 3, 4, 5]);
}

#[test]
fn tree_keeps_duplicates() {
    let mut t = Tree::new();
    for v in [3, -1, 3, 0, -1] {
        t.add(v);
    }
    assert_eq!(t.collect(), vec![-1, -1, 0, 3, 3]);
}
