use vstd::prelude::*;

verus! {

/// A node of the search tree: everything to the left is smaller than
/// `elem`, everything to the right larger.
#[derive(Debug)]
pub struct Node {
    elem: i32,
    left: Link,
    right: Link,
}

/// A subtree: empty, or a node with its two subtrees.
#[derive(Debug)]
pub enum Link {
    Empty,
    More(Box<Node>),
}

/// A binary search tree of distinct i32 elements.
#[derive(Debug)]
pub struct BST {
    root: Link,
}

impl Link {
    /// The set of elements stored in this subtree.
    pub closed spec fn as_set(self) -> Set<i32>
        decreases self,
    {
        match self {
            Link::Empty => Set::empty(),
            Link::More(node) => node.left.as_set().insert(node.elem).union(node.right.as_set()),
        }
    }

    /// The search-tree ordering: smaller elements to the left of each
    /// node, larger ones to the right, throughout.
    pub closed spec fn wf(self) -> bool
        decreases self,
    {
        match self {
            Link::Empty => true,
            Link::More(node) => {
                &&& (forall|x: i32| node.left.as_set().contains(x) ==> x < node.elem)
                &&& (forall|x: i32| node.right.as_set().contains(x) ==> x > node.elem)
                &&& node.left.wf()
                &&& node.right.wf()
            },
        }
    }

    /// Insert `value` where the ordering demands it; an element already
    /// present is left alone. Returns whether the tree grew.
    pub fn insert(&mut self, value: i32) -> (r: bool)
        requires
            old(self).wf(),
        ensures
            final(self).wf(),
            final(self).as_set() == old(self).as_set().insert(value),
            r == !old(self).as_set().contains(value),
        decreases *old(self),
    {
        match self {
            Link::Empty => {
                let new_node = Box::new(
                    Node { elem: value, left: Link::Empty, right: Link::Empty },
                );
                *self = Link::More(new_node);
                proof {
                    assert(self.as_set() =~= old(self).as_set().insert(value));
                }
                true
            },
            Link::More(boxed_node) => {
                let ghost pre = *boxed_node;
                if boxed_node.elem > value {
                    let r = boxed_node.left.insert(value);
                    proof {
                        assert(self.as_set() =~= old(self).as_set().insert(value));
                        assert forall|x: i32| boxed_node.left.as_set().contains(x) implies x
                            < boxed_node.elem by {
                            if x != value {
                                assert(pre.left.as_set().contains(x));
                            }
                        };
                        if pre.left.as_set().contains(value) {
                            assert(old(self).as_set().contains(value));
                        }
                        if old(self).as_set().contains(value) {
                            assert(pre.right.as_set().contains(value) ==> value > pre.elem);
                            assert(pre.left.as_set().contains(value));
                        }
                    }
                    r
                } else if boxed_node.elem < value {
                    let r = boxed_node.right.insert(value);
                    proof {
                        assert(self.as_set() =~= old(self).as_set().insert(value));
                        assert forall|x: i32| boxed_node.right.as_set().contains(x) implies x
                            > boxed_node.elem by {
                            if x != value {
                                assert(pre.right.as_set().contains(x));
                            }
                        };
                        if pre.right.as_set().contains(value) {
                            assert(old(self).as_set().contains(value));
                        }
                        if old(self).as_set().contains(value) {
                            assert(pre.left.as_set().contains(value) ==> value < pre.elem);
                            assert(pre.right.as_set().contains(value));
                        }
                    }
                    r
                } else {
                    proof {
                        assert(old(self).as_set().contains(value));
                        assert(self.as_set() =~= old(self).as_set().insert(value));
                    }
                    false
                }
            },
        }
    }

    /// Whether `value` is stored in this subtree.
    pub fn search(&self, value: i32) -> (r: bool)
        requires
            self.wf(),
        ensures
            r == self.as_set().contains(value),
        decreases self,
    {
        match self {
            Link::Empty => false,
            Link::More(boxed_node) => {
                if boxed_node.elem > value {
                    let r = boxed_node.left.search(value);
                    proof {
                        if self.as_set().contains(value) {
                            assert(boxed_node.right.as_set().contains(value) ==> value
                                > boxed_node.elem);
                            assert(boxed_node.left.as_set().contains(value));
                        }
                        if boxed_node.left.as_set().contains(value) {
                            assert(self.as_set().contains(value));
                        }
                    }
                    r
                } else if boxed_node.elem < value {
                    let r = boxed_node.right.search(value);
                    proof {
                        if self.as_set().contains(value) {
                            assert(boxed_node.left.as_set().contains(value) ==> value
                                < boxed_node.elem);
                            assert(boxed_node.right.as_set().contains(value));
                        }
                        if boxed_node.right.as_set().contains(value) {
                            assert(self.as_set().contains(value));
                        }
                    }
                    r
                } else {
                    proof {
                        assert(self.as_set().contains(value));
                    }
                    true
                }
            },
        }
    }
}

impl BST {
    /// The set of elements stored in the tree.
    pub closed spec fn as_set(self) -> Set<i32> {
        self.root.as_set()
    }

    /// The tree keeps the search ordering.
    pub closed spec fn wf(self) -> bool {
        self.root.wf()
    }

    /// A new, empty tree.
    pub fn new() -> (t: Self)
        ensures
            t.wf(),
            t.as_set() == Set::<i32>::empty(),
    {
        BST { root: Link::Empty }
    }

    /// Insert `value`; an element already present is left alone.
    /// Returns whether the tree grew.
    pub fn insert(&mut self, value: i32) -> (r: bool)
        requires
            old(self).wf(),
        ensures
            final(self).wf(),
            final(self).as_set() == old(self).as_set().insert(value),
            r == !old(self).as_set().contains(value),
    {
        return self.root.insert(value);
    }

    /// Whether `value` is stored in the tree.
    pub fn search(&self, value: i32) -> (r: bool)
        requires
            self.wf(),
        ensures
            r == self.as_set().contains(value),
    {
        return self.root.search(value);
    }
}

} // verus!
