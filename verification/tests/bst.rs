use rpn::bst::Link;
use rpn::bst::BST;

#[test]
fn first_bst_insert() {
    let mut bst = BST::new();
    assert_eq!(bst.insert(20), true);
    assert_eq!(bst.insert(10), true);
    assert_eq!(bst.insert(30), true);
    assert_eq!(bst.insert(30), false);
    assert_eq!(bst.insert(5), true);
    assert_eq!(bst.insert(40), true);
}

#[test]
fn first_bst_search() {
    let mut bst = BST::new();
    assert_eq!(bst.search(20), false);
    assert_eq!(bst.insert(20), true);
    assert_eq!(bst.search(20), true);

    assert_eq!(bst.insert(10), true);
    assert_eq!(bst.search(30), false);
    assert_eq!(bst.insert(30), true);
    assert_eq!(bst.insert(5), true);
    assert_eq!(bst.insert(40), true);
    assert_eq!(bst.search(30), true);
}

#[test]
fn first_insert_test() {
    let mut link = Link::Empty;
    assert_eq!(link.insert(2), true);
    assert_eq!(link.insert(2), false);
    assert_eq!(link.insert(3), true);
    assert_eq!(link.insert(3), false);
    assert_eq!(link.insert(1), true);
    assert_eq!(link.insert(5), true);
}

#[test]
fn first_search_test() {
    let mut link = Link::Empty;
    assert_eq!(link.search(2), false);
    assert_eq!(link.insert(5), true);
    assert_eq!(link.insert(3), true);
    assert_eq!(link.insert(10), true);
    assert_eq!(link.search(10), true);
    assert_eq!(link.search(6), false);
}
