use vstd::prelude::*;

verus! {

/// The answer of a three-way comparison.
#[derive(Clone, Copy, Debug, PartialEq, Eq, Structural)]
pub enum Cmp {
    Less,
    Equal,
    Greater,
}

/// A total order on a type, with an executable three-way comparison
/// that agrees with it. Equality under the order is plain equality.
pub trait TotalOrder: Sized {
    /// The order itself.
    spec fn le(self, other: Self) -> bool;

    proof fn reflexive(x: Self)
        ensures
            Self::le(x, x),
    ;

    proof fn transitive(x: Self, y: Self, z: Self)
        requires
            Self::le(x, y),
            Self::le(y, z),
        ensures
            Self::le(x, z),
    ;

    proof fn antisymmetric(x: Self, y: Self)
        requires
            Self::le(x, y),
            Self::le(y, x),
        ensures
            x == y,
    ;

    proof fn total(x: Self, y: Self)
        ensures
            Self::le(x, y) || Self::le(y, x),
    ;

    /// Decide how `self` stands to `other`.
    fn compare(&self, other: &Self) -> (c: Cmp)
        ensures
            match c {
                Cmp::Less => self.le(*other) && self != other,
                Cmp::Equal => self == other,
                Cmp::Greater => other.le(*self) && self != other,
            },
    ;
}

impl TotalOrder for i32 {
    open spec fn le(self, other: Self) -> bool {
        self <= other
    }

    proof fn reflexive(x: Self) {
    }

    proof fn transitive(x: Self, y: Self, z: Self) {
    }

    proof fn antisymmetric(x: Self, y: Self) {
    }

    proof fn total(x: Self, y: Self) {
    }

    fn compare(&self, other: &Self) -> (c: Cmp) {
        if *self < *other {
            Cmp::Less
        } else if *self > *other {
            Cmp::Greater
        } else {
            Cmp::Equal
        }
    }
}

/// A node of the search tree.
#[derive(Debug, PartialEq)]
pub struct Node<T> {
    pub elem: T,
    pub left: Link<T>,
    pub right: Link<T>,
}

/// A subtree: absent, or a node with its two subtrees.
pub type Link<T> = Option<Box<Node<T>>>;

/// A binary search tree of distinct elements of any totally ordered
/// type.
#[derive(Debug)]
pub struct BST<T> {
    pub root: Link<T>,
}

/// The set of elements stored in a subtree.
pub open spec fn link_set<T>(o: Link<T>) -> Set<T>
    decreases o,
{
    match o {
        None => Set::empty(),
        Some(node) => link_set(node.left).insert(node.elem).union(link_set(node.right)),
    }
}

/// The search-tree ordering: elements below a node on its left side,
/// elements above it on its right, throughout the subtree.
pub open spec fn link_wf<T: TotalOrder>(o: Link<T>) -> bool
    decreases o,
{
    match o {
        None => true,
        Some(node) => {
            &&& (forall|x: T|
                link_set(node.left).contains(x) ==> x.le(node.elem) && x != node.elem)
            &&& (forall|x: T|
                link_set(node.right).contains(x) ==> node.elem.le(x) && x != node.elem)
            &&& link_wf(node.left)
            &&& link_wf(node.right)
        },
    }
}

/// What a subtree offers: ordered insertion and search.
pub trait InsertSearch<T: TotalOrder>: Sized {
    /// The set of elements stored.
    spec fn as_set(&self) -> Set<T>;

    /// The ordering of the subtree holds.
    spec fn wf(&self) -> bool;

    /// Insert `value` where the ordering demands it; an element already
    /// present is left alone. Returns whether the subtree grew.
    fn insert(&mut self, value: T) -> (r: bool)
        requires
            old(self).wf(),
        ensures
            final(self).wf(),
            final(self).as_set() == old(self).as_set().insert(value),
            r == !old(self).as_set().contains(value),
    ;

    /// Whether `value` is stored in the subtree.
    fn search(&self, value: T) -> (r: bool)
        requires
            self.wf(),
        ensures
            r == self.as_set().contains(value),
    ;
}

impl<T: TotalOrder> InsertSearch<T> for Link<T> {
    open spec fn as_set(&self) -> Set<T> {
        link_set(*self)
    }

    open spec fn wf(&self) -> bool {
        link_wf(*self)
    }

    fn insert(&mut self, value: T) -> (r: bool)
        decreases *old(self),
    {
        match self {
            None => {
                let new_node = Box::new(Node { elem: value, left: None, right: None });
                *self = Some(new_node);
                proof {
                    assert(link_set(*self) =~= link_set(*old(self)).insert(value));
                }
                true
            },
            Some(boxed_node) => {
                let ghost pre = **boxed_node;
                match value.compare(&boxed_node.elem) {
                    Cmp::Less => {
                        let r = InsertSearch::insert(&mut boxed_node.left, value);
                        proof {
                            assert(link_set(*self) =~= link_set(*old(self)).insert(value));
                            assert forall|x: T| link_set(boxed_node.left).contains(x) implies x.le(
                                pre.elem,
                            ) && x != pre.elem by {
                                if x != value {
                                    assert(link_set(pre.left).contains(x));
                                }
                            };
                            if link_set(pre.right).contains(value) {
                                T::antisymmetric(value, pre.elem);
                            }
                            if link_set(pre.left).contains(value) {
                                assert(link_set(*old(self)).contains(value));
                            }
                            if link_set(*old(self)).contains(value) {
                                assert(link_set(pre.left).contains(value));
                            }
                        }
                        r
                    },
                    Cmp::Greater => {
                        let r = InsertSearch::insert(&mut boxed_node.right, value);
                        proof {
                            assert(link_set(*self) =~= link_set(*old(self)).insert(value));
                            assert forall|x: T| link_set(boxed_node.right).contains(x) implies
                                pre.elem.le(x) && x != pre.elem by {
                                if x != value {
                                    assert(link_set(pre.right).contains(x));
                                }
                            };
                            if link_set(pre.left).contains(value) {
                                T::antisymmetric(value, pre.elem);
                            }
                            if link_set(pre.right).contains(value) {
                                assert(link_set(*old(self)).contains(value));
                            }
                            if link_set(*old(self)).contains(value) {
                                assert(link_set(pre.right).contains(value));
                            }
                        }
                        r
                    },
                    Cmp::Equal => {
                        proof {
                            assert(link_set(*old(self)).contains(value));
                            assert(link_set(*self) =~= link_set(*old(self)).insert(value));
                        }
                        false
                    },
                }
            },
        }
    }

    fn search(&self, value: T) -> (r: bool)
        decreases *self,
    {
        match self {
            None => false,
            Some(boxed_node) => {
                match value.compare(&boxed_node.elem) {
                    Cmp::Less => {
                        proof {
                            if link_set(boxed_node.right).contains(value) {
                                T::antisymmetric(value, boxed_node.elem);
                            }
                        }
                        boxed_node.left.search(value)
                    },
                    Cmp::Greater => {
                        proof {
                            if link_set(boxed_node.left).contains(value) {
                                T::antisymmetric(value, boxed_node.elem);
                            }
                        }
                        boxed_node.right.search(value)
                    },
                    Cmp::Equal => {
                        proof {
                            assert(link_set(*self).contains(value));
                        }
                        true
                    },
                }
            },
        }
    }
}

impl<T: TotalOrder> BST<T> {
    /// The set of elements stored in the tree.
    pub open spec fn as_set(self) -> Set<T> {
        link_set(self.root)
    }

    /// The tree keeps the search ordering.
    pub open spec fn wf(self) -> bool {
        link_wf(self.root)
    }

    /// A new, empty tree.
    pub fn new() -> (t: Self)
        ensures
            t.wf(),
            t.as_set() == Set::<T>::empty(),
    {
        BST { root: None }
    }

    /// Insert `value`; an element already present is left alone.
    /// Returns whether the tree grew.
    pub fn insert(&mut self, value: T) -> (r: bool)
        requires
            old(self).wf(),
        ensures
            final(self).wf(),
            final(self).as_set() == old(self).as_set().insert(value),
            r == !old(self).as_set().contains(value),
    {
        return InsertSearch::insert(&mut self.root, value);
    }

    /// Whether `value` is stored in the tree.
    pub fn search(&self, value: T) -> (r: bool)
        requires
            self.wf(),
        ensures
            r == self.as_set().contains(value),
    {
        return self.root.search(value);
    }
}

/// The elements along the right spine of a subtree, top first: the
/// order in which the iterators walk a tree.
pub open spec fn spine_seq<T>(o: Link<T>) -> Seq<T>
    decreases o,
{
    match o {
        None => Seq::empty(),
        Some(node) => seq![node.elem] + spine_seq(node.right),
    }
}

/// An iterator that consumes the tree, yielding the right spine.
#[derive(Debug)]
pub struct IntoIter<T>(BST<T>);

impl<T> IntoIter<T> {
    /// The elements still to be yielded.
    pub closed spec fn remaining(self) -> Seq<T> {
        spine_seq(self.0.root)
    }

    /// The next element down the right spine, if any.
    pub fn next(&mut self) -> (r: Option<T>)
        ensures
            old(self).remaining().len() == 0 ==> r is None && final(self).remaining() == old(self).remaining(),
            old(self).remaining().len() > 0 ==> r == Some(old(self).remaining()[0]) && final(self).remaining() == old(self).remaining().drop_first(),
    {
        match self.0.root.take() {
            None => None,
            Some(boxed_node) => {
                let node = *boxed_node;
                self.0.root = node.right;
                proof {
                    assert(final(self).remaining() =~= old(self).remaining().drop_first());
                }
                Some(node.elem)
            },
        }
    }
}

impl<T: TotalOrder> BST<T> {
    /// Turn the tree into an iterator over its right spine.
    pub fn into_iter(self) -> (it: IntoIter<T>)
        ensures
            it.remaining() == spine_seq(self.root),
    {
        IntoIter(self)
    }
}

/// An iterator over references into the tree, yielding the right spine.
#[derive(Debug)]
pub struct Iter<'a, T: 'a> {
    next: Option<&'a Node<T>>,
}

impl<'a, T> Iter<'a, T> {
    /// The elements still to be yielded.
    pub closed spec fn remaining(self) -> Seq<T> {
        match self.next {
            None => Seq::empty(),
            Some(node) => seq![node.elem] + spine_seq(node.right),
        }
    }

    /// A reference to the next element down the right spine, if any.
    pub fn next(&mut self) -> (r: Option<&'a T>)
        ensures
            old(self).remaining().len() == 0 ==> r is None && final(self).remaining() == old(self).remaining(),
            old(self).remaining().len() > 0 ==> (r matches Some(x) && *x == old(self).remaining()[0]) && final(self).remaining() == old(self).remaining().drop_first(),
    {
        match self.next {
            None => None,
            Some(node) => {
                self.next = match &node.right {
                    Some(boxed_node) => Some(&**boxed_node),
                    None => None,
                };
                proof {
                    assert(final(self).remaining() =~= old(self).remaining().drop_first());
                }
                Some(&node.elem)
            },
        }
    }
}

impl<T: TotalOrder> BST<T> {
    /// An iterator over references to the right spine of the tree.
    pub fn iter(&self) -> (it: Iter<'_, T>)
        ensures
            it.remaining() == spine_seq(self.root),
    {
        Iter {
            next: match &self.root {
                Some(boxed_node) => Some(&**boxed_node),
                None => None,
            },
        }
    }
}

/// An iterator over mutable references into the tree, yielding the
/// right spine.
#[derive(Debug)]
pub struct IterMut<'a, T: 'a> {
    next: Option<&'a mut Node<T>>,
}

impl<'a, T> IterMut<'a, T> {
    /// The elements still to be yielded, as they stand behind the
    /// reference held.
    pub closed spec fn remaining(self) -> Seq<T> {
        match self.next {
            None => Seq::empty(),
            Some(node) => seq![(*node).elem] + spine_seq((*node).right),
        }
    }

    /// A mutable reference to the next element down the right spine, if
    /// any.
    pub fn next(&mut self) -> (r: Option<&'a mut T>)
        ensures
            old(self).remaining().len() == 0 ==> r is None && final(self).remaining().len() == 0,
            old(self).remaining().len() > 0 ==> (r matches Some(x) && *x == old(self).remaining()[0]) && final(self).remaining() == old(self).remaining().drop_first(),
    {
        match self.next.take() {
            None => None,
            Some(node) => {
                self.next = match &mut node.right {
                    Some(boxed_node) => Some(&mut **boxed_node),
                    None => None,
                };
                Some(&mut node.elem)
            },
        }
    }
}

impl<T: TotalOrder> BST<T> {
    /// An iterator over mutable references to the right spine of the
    /// tree.
    pub fn iter_mut(&mut self) -> (it: IterMut<'_, T>)
        ensures
            it.remaining() == spine_seq(old(self).root),
    {
        IterMut {
            next: match &mut self.root {
                Some(boxed_node) => Some(&mut **boxed_node),
                None => None,
            },
        }
    }
}

} // verus!
