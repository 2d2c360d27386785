use rpn::bst_generic::InsertSearch;
use rpn::bst_generic::Link;
use rpn::bst_generic::Node;
use rpn::bst_generic::BST;

#[test]
fn second_bst_insert() {
    let mut bst = BST::new();
    assert_eq!(bst.insert(20), true);
    assert_eq!(
        bst.root.as_ref(),
        Some(&Box::new(Node { elem: 20, left: None, right: None }))
    );
    assert_eq!(bst.insert(10), true);
    assert_eq!(bst.insert(30), true);
    assert_eq!(bst.insert(30), false);
    assert_eq!(bst.insert(5), true);
    assert_eq!(bst.insert(40), true);
}

#[test]
fn second_bst_search() {
    let mut bst = BST::new();
    assert_eq!(bst.search(20), false);
    assert_eq!(bst.insert(20), true);
    assert_eq!(bst.search(20), true);

    assert_eq!(bst.insert(10), true);
    assert_eq!(bst.search(30), false);
    assert_eq!(bst.insert(30), true);
    assert_eq!(bst.insert(5), true);
    assert_eq!(bst.insert(40), true);
    assert_eq!(bst.search(30), true);
}

#[test]
fn second_insert_test() {
    let mut link: Link<i32> = None;
    assert_eq!(InsertSearch::insert(&mut link, 2), true);
    assert_eq!(InsertSearch::insert(&mut link, 2), false);
    assert_eq!(InsertSearch::insert(&mut link, 3), true);
    assert_eq!(InsertSearch::insert(&mut link, 3), false);
    assert_eq!(InsertSearch::insert(&mut link, 1), true);
    assert_eq!(InsertSearch::insert(&mut link, 5), true);
}

#[test]
fn second_search_test() {
    let mut link: Link<i32> = None;
    assert_eq!(link.search(2), false);
    assert_eq!(InsertSearch::insert(&mut link, 5), true);
    assert_eq!(InsertSearch::insert(&mut link, 3), true);
    assert_eq!(InsertSearch::insert(&mut link, 10), true);
    assert_eq!(link.search(10), true);
    assert_eq!(link.search(6), false);
}

#[test]
fn into_iter_compiles() {
    let mut bst = BST::new();
    bst.insert(1);
    bst.insert(2);
    bst.insert(4);
    bst.insert(3);
    let mut iter = bst.into_iter();
    while let Some(elem) = iter.next() {
        println!("{}", elem);
    }
}

#[test]
fn into_iter() {
    let mut bst = BST::new();
    bst.insert(1);
    bst.insert(2);
    bst.insert(4);
    bst.insert(3);
    let mut iter = bst.into_iter();
    assert_eq!(iter.next(), Some(1));
    assert_eq!(iter.next(), Some(2));
    assert_eq!(iter.next(), Some(4));
    assert_eq!(iter.next(), None);
    assert_eq!(iter.next(), None);
}

#[test]
fn ref_into_iter_compiles() {
    let mut bst = BST::new();
    bst.insert(1);
    bst.insert(2);
    bst.insert(4);
    bst.insert(3);
    println!("ref iter");
    let mut iter = bst.iter();
    while let Some(elem) = iter.next() {
        println!("{}", elem);
    }
}

#[test]
fn ref_into_iter() {
    let mut bst = BST::new();
    bst.insert(1);
    bst.insert(2);
    bst.insert(4);
    bst.insert(3);
    let mut iter = bst.iter();
    assert_eq!(iter.next(), Some(&1));
    assert_eq!(iter.next(), Some(&2));
    assert_eq!(iter.next(), Some(&4));
    assert_eq!(iter.next(), None);
    assert_eq!(iter.next(), None);
}

#[test]
fn mut_into_iter_compiles() {
    let mut bst = BST::new();
    bst.insert(1);
    bst.insert(2);
    bst.insert(4);
    bst.insert(3);
    println!("ref iter");
    let mut iter = bst.iter_mut();
    while let Some(elem) = iter.next() {
        println!("{}", elem);
    }
}

#[test]
fn mut_into_iter() {
    let mut bst = BST::new();
    bst.insert(1);
    bst.insert(2);
    bst.insert(4);
    bst.insert(3);
    let mut iter = bst.iter_mut();
    assert_eq!(iter.next(), Some(&mut 1));
    assert_eq!(iter.next(), Some(&mut 2));
    assert_eq!(iter.next(), Some(&mut 4));
    assert_eq!(iter.next(), None);
    assert_eq!(iter.next(), None);
}
