use vstd::prelude::*;

verus! {

/// Error returned when an index-based operation is outside the current bounds.
#[derive(Debug, Clone, Copy, PartialEq, Eq, Structural)]
pub struct IndexError {
    pub index: usize,
    pub len: usize,
}

/// Convenience alias for results produced by [`TreeArray`] operations.
pub type IndexResult<T> = Result<T, IndexError>;

struct Node<T> {
    value: T,
    height: usize,
    size: usize,
    left: Option<Box<Node<T>>>,
    right: Option<Box<Node<T>>>,
}

/// Balanced binary tree that exposes a vector-like index.
///
/// Subtree sizes and heights are kept in every node, so that the tree stays
/// AVL-balanced while positional access, insertion and removal take `O(log n)`.
pub struct TreeArray<T> {
    root: Option<Box<Node<T>>>,
}

type Link<T> = Option<Box<Node<T>>>;

/// The elements of a subtree, in positional order.
spec fn link_seq<T>(t: Link<T>) -> Seq<T>
    decreases t,
{
    match t {
        None => Seq::empty(),
        Some(n) => link_seq(n.left) + seq![n.value] + link_seq(n.right),
    }
}

/// The number of nodes on the longest path from the root of a subtree down to a leaf.
spec fn link_height<T>(t: Link<T>) -> nat
    decreases t,
{
    match t {
        None => 0,
        Some(n) => 1 + nat_max(link_height(n.left), link_height(n.right)),
    }
}

spec fn nat_max(a: nat, b: nat) -> nat {
    if a >= b { a } else { b }
}

/// The size recorded in the root of a subtree.
spec fn lsize<T>(t: Link<T>) -> nat {
    match t {
        None => 0,
        Some(n) => n.size as nat,
    }
}

/// The height recorded in the root of a subtree.
spec fn lht<T>(t: Link<T>) -> nat {
    match t {
        None => 0,
        Some(n) => n.height as nat,
    }
}

/// The recorded size and height of a node agree with those recorded in its children.
spec fn fields_ok<T>(n: Node<T>) -> bool {
    &&& n.size == 1 + lsize(n.left) + lsize(n.right)
    &&& n.height == 1 + nat_max(lht(n.left), lht(n.right))
}

/// Every node records its size and height, and its children's heights differ by at most one.
spec fn link_wf<T>(t: Link<T>) -> bool
    decreases t,
{
    match t {
        None => true,
        Some(n) => {
            &&& link_wf(n.left)
            &&& link_wf(n.right)
            &&& fields_ok(*n)
            &&& lht(n.left) <= lht(n.right) + 1
            &&& lht(n.right) <= lht(n.left) + 1
        },
    }
}

/// `2` to the power `e`.
pub open spec fn pow2(e: nat) -> nat
    decreases e,
{
    if e == 0 { 1 } else { 2 * pow2((e - 1) as nat) }
}

proof fn lemma_wf_fields<T>(t: Link<T>)
    requires
        link_wf(t),
    ensures
        lsize(t) == link_seq(t).len(),
        lht(t) == link_height(t),
        lht(t) <= lsize(t),
    decreases t,
{
    if let Some(n) = t {
        lemma_wf_fields(n.left);
        lemma_wf_fields(n.right);
    }
}

proof fn lemma_pow2_mono(a: nat, b: nat)
    requires
        a <= b,
    ensures
        pow2(a) <= pow2(b),
    decreases b,
{
    if a < b {
        lemma_pow2_mono(a, (b - 1) as nat);
    }
}

/// An AVL tree of height `h` holds at least `2^(h/2) - 1` elements.
proof fn lemma_avl_size<T>(t: Link<T>)
    requires
        link_wf(t),
    ensures
        pow2(lht(t) / 2) <= lsize(t) + 1,
    decreases t,
{
    if let Some(n) = t {
        lemma_avl_size(n.left);
        lemma_avl_size(n.right);
        let h = lht(t);
        if h >= 2 {
            let e = ((h - 2) / 2) as nat;
            assert(h / 2 == e + 1);
            // both children have height at least h - 2
            lemma_pow2_mono(e, lht(n.left) / 2);
            lemma_pow2_mono(e, lht(n.right) / 2);
        }
    }
}

proof fn lemma_pow2_agrees(e: nat)
    ensures
        pow2(e) == vstd::arithmetic::power2::pow2(e),
    decreases e,
{
    if e > 0 {
        lemma_pow2_agrees((e - 1) as nat);
        vstd::arithmetic::power2::lemma_pow2_unfold(e);
    } else {
        vstd::arithmetic::power2::lemma2_to64();
    }
}

/// The Fibonacci numbers: `fib(0) == 0`, `fib(1) == 1`.
pub open spec fn fib(n: nat) -> nat
    decreases n,
{
    if n < 2 { n } else { fib((n - 1) as nat) + fib((n - 2) as nat) }
}

proof fn lemma_fib_mono(a: nat, b: nat)
    requires
        a <= b,
    ensures
        fib(a) <= fib(b),
    decreases b,
{
    if a < b {
        lemma_fib_mono(a, (b - 1) as nat);
        if b >= 2 {
            assert(fib(b) == fib((b - 1) as nat) + fib((b - 2) as nat));
        }
    }
}

/// An AVL tree of height `h` holds at least `fib(h + 2) - 1` elements.
proof fn lemma_avl_fib<T>(t: Link<T>)
    requires
        link_wf(t),
    ensures
        fib(lht(t) + 2) <= lsize(t) + 1,
    decreases t,
{
    reveal_with_fuel(fib, 3);
    if let Some(n) = t {
        lemma_avl_fib(n.left);
        lemma_avl_fib(n.right);
        let h = lht(t);
        // one child has height h - 1, the other at least h - 2
        lemma_fib_mono(h, lht(n.left) + 2);
        lemma_fib_mono(h, lht(n.right) + 2);
        if lht(n.left) + 1 == h {
            lemma_fib_mono(h + 1, lht(n.left) + 2);
        } else {
            lemma_fib_mono(h + 1, lht(n.right) + 2);
        }
        assert(fib(h + 2) == fib(h + 1) + fib(h));
    }
}

/// The height of a well-formed subtree is small: at most 129 for any size that fits a `usize`.
proof fn lemma_height_small<T>(t: Link<T>)
    requires
        link_wf(t),
    ensures
        lht(t) <= 129,
{
    lemma_avl_size(t);
    if lht(t) > 129 {
        lemma_pow2_mono(65, lht(t) / 2);
        lemma_pow2_agrees(64);
        vstd::arithmetic::power2::lemma2_to64();
        assert(pow2(65) == 2 * pow2(64));
    }
}

impl<T> Node<T> {
    fn new(value: T) -> (n: Self)
        ensures
            n.value == value,
            n.left.is_none(),
            n.right.is_none(),
            n.size == 1,
            n.height == 1,
    {
        Self { value, height: 1, size: 1, left: None, right: None }
    }

    fn update(&mut self)
        requires
            1 + lsize(old(self).left) + lsize(old(self).right) <= usize::MAX,
            lht(old(self).left) < usize::MAX,
            lht(old(self).right) < usize::MAX,
        ensures
            fields_ok(*final(self)),
            final(self).value == old(self).value,
            final(self).left == old(self).left,
            final(self).right == old(self).right,
    {
        let left_height: usize = match &self.left {
            Some(n) => n.height,
            None => 0,
        };
        let right_height: usize = match &self.right {
            Some(n) => n.height,
            None => 0,
        };
        self.height = 1 + if left_height >= right_height { left_height } else { right_height };
        let left_size: usize = match &self.left {
            Some(n) => n.size,
            None => 0,
        };
        let right_size: usize = match &self.right {
            Some(n) => n.size,
            None => 0,
        };
        self.size = 1 + left_size + right_size;
    }

    fn balance_factor(&self) -> (r: isize)
        requires
            lht(self.left) <= 130,
            lht(self.right) <= 130,
        ensures
            r == lht(self.left) - lht(self.right),
    {
        let left_height: isize = match &self.left {
            Some(n) => n.height as isize,
            None => 0,
        };
        let right_height: isize = match &self.right {
            Some(n) => n.height as isize,
            None => 0,
        };
        left_height - right_height
    }
}

impl<T> TreeArray<T> {
    /// The tree's internal bookkeeping is consistent and it is AVL-balanced.
    pub closed spec fn wf(&self) -> bool {
        link_wf(self.root)
    }

    /// The height of the tree: the number of nodes on its longest root-to-leaf path.
    pub closed spec fn height(&self) -> nat {
        link_height(self.root)
    }

    /// Creates an empty [`TreeArray`].
    pub fn new() -> (t: Self)
        ensures
            t.wf(),
            t@ == Seq::<T>::empty(),
    {
        Self { root: None }
    }

    /// Returns the number of elements stored in the tree.
    pub fn len(&self) -> (n: usize)
        requires
            self.wf(),
        ensures
            n == self@.len(),
    {
        proof { lemma_wf_fields(self.root); }
        match &self.root {
            Some(n) => n.size,
            None => 0,
        }
    }
}

/// The recorded size of a subtree, as an executable read.
fn size_of<T>(t: &Link<T>) -> (r: usize)
    ensures
        r == lsize(*t),
{
    match t {
        Some(n) => n.size,
        None => 0,
    }
}

impl<T> TreeArray<T> {
    fn rotate_right(mut node: Box<Node<T>>) -> (r: Box<Node<T>>)
        requires
            node.left.is_some(),
            fields_ok(*node.left.unwrap()),
            1 + lsize(node.left) + lsize(node.right) <= usize::MAX,
            lht(node.left.unwrap().left) <= 130,
            lht(node.left.unwrap().right) <= 130,
            lht(node.right) <= 130,
        ensures
            r.value == node.left.unwrap().value,
            r.left == node.left.unwrap().left,
            r.right.is_some(),
            r.right.unwrap().value == node.value,
            r.right.unwrap().left == node.left.unwrap().right,
            r.right.unwrap().right == node.right,
            fields_ok(*r.right.unwrap()),
            fields_ok(*r),
    {
        let mut left = node.left.take().unwrap();
        node.left = left.right.take();
        node.update();
        left.right = Some(node);
        left.update();
        left
    }

    fn rotate_left(mut node: Box<Node<T>>) -> (r: Box<Node<T>>)
        requires
            node.right.is_some(),
            fields_ok(*node.right.unwrap()),
            1 + lsize(node.left) + lsize(node.right) <= usize::MAX,
            lht(node.right.unwrap().left) <= 130,
            lht(node.right.unwrap().right) <= 130,
            lht(node.left) <= 130,
        ensures
            r.value == node.right.unwrap().value,
            r.right == node.right.unwrap().right,
            r.left.is_some(),
            r.left.unwrap().value == node.value,
            r.left.unwrap().right == node.right.unwrap().left,
            r.left.unwrap().left == node.left,
            fields_ok(*r.left.unwrap()),
            fields_ok(*r),
    {
        let mut right = node.right.take().unwrap();
        node.right = right.left.take();
        node.update();
        right.left = Some(node);
        right.update();
        right
    }

    /// Restores the balance of a node whose left subtree is two levels taller than its right one.
    fn fix_left_heavy(mut node: Box<Node<T>>) -> (r: Box<Node<T>>)
        requires
            link_wf(node.left),
            link_wf(node.right),
            lht(node.left) == lht(node.right) + 2,
            1 + lsize(node.left) + lsize(node.right) <= usize::MAX,
        ensures
            link_wf(Some(r)),
            link_seq(Some(r)) == link_seq(node.left) + seq![node.value] + link_seq(node.right),
            r.height == lht(node.left) || r.height == lht(node.left) + 1,
    {
        let ghost l0 = node.left.unwrap();
        let ghost v0 = node.value;
        let ghost r_0 = node.right;
        proof {
            assert(link_wf(l0.left) && link_wf(l0.right) && fields_ok(*l0));
            lemma_height_small(node.left);
            lemma_height_small(node.right);
            lemma_height_small(l0.left);
            lemma_height_small(l0.right);
            lemma_wf_fields(node.left);
            lemma_wf_fields(node.right);
            lemma_wf_fields(l0.left);
            lemma_wf_fields(l0.right);
        }
        let leans_right = match &node.left {
            Some(l) => l.balance_factor() < 0,
            None => false,
        };
        if leans_right {
            let ghost lr = l0.right.unwrap();
            proof {
                assert(link_wf(lr.left) && link_wf(lr.right) && fields_ok(*lr));
                lemma_height_small(lr.left);
                lemma_height_small(lr.right);
                lemma_wf_fields(lr.left);
                lemma_wf_fields(lr.right);
            }
            let l = node.left.take().unwrap();
            let l = Self::rotate_left(l);
            proof {
                let a = l.left.unwrap();
                assert(link_seq(l.left) == link_seq(a.left) + seq![a.value] + link_seq(a.right));
                assert(link_wf(l.left));
            }
            node.left = Some(l);
            let r = Self::rotate_right(node);
            proof {
                let a = r.left.unwrap();
                let b = r.right.unwrap();
                assert(link_seq(r.left) == link_seq(a.left) + seq![a.value] + link_seq(a.right));
                assert(link_seq(r.right) == link_seq(b.left) + seq![b.value] + link_seq(b.right));
                assert(link_seq(l0.right) == link_seq(lr.left) + seq![lr.value] + link_seq(
                    lr.right));
                assert(link_seq(Some(l0)) == link_seq(l0.left) + seq![l0.value] + link_seq(
                    l0.right));
                assert(link_wf(r.left));
                assert(link_wf(r.right));
                assert(link_seq(Some(r)) =~= link_seq(Some(l0)) + seq![v0] + link_seq(r_0));
            }
            r
        } else {
            let r = Self::rotate_right(node);
            proof {
                let b = r.right.unwrap();
                assert(link_seq(r.right) == link_seq(b.left) + seq![b.value] + link_seq(b.right));
                assert(link_seq(Some(l0)) == link_seq(l0.left) + seq![l0.value] + link_seq(
                    l0.right));
                assert(link_wf(r.right));
                assert(link_seq(Some(r)) =~= link_seq(Some(l0)) + seq![v0] + link_seq(r_0));
            }
            r
        }
    }

    /// Restores the balance of a node whose right subtree is two levels taller than its left one.
    fn fix_right_heavy(mut node: Box<Node<T>>) -> (r: Box<Node<T>>)
        requires
            link_wf(node.left),
            link_wf(node.right),
            lht(node.right) == lht(node.left) + 2,
            1 + lsize(node.left) + lsize(node.right) <= usize::MAX,
        ensures
            link_wf(Some(r)),
            link_seq(Some(r)) == link_seq(node.left) + seq![node.value] + link_seq(node.right),
            r.height == lht(node.right) || r.height == lht(node.right) + 1,
    {
        let ghost r0 = node.right.unwrap();
        let ghost v0 = node.value;
        let ghost l_0 = node.left;
        proof {
            assert(link_wf(r0.left) && link_wf(r0.right) && fields_ok(*r0));
            lemma_height_small(node.left);
            lemma_height_small(node.right);
            lemma_height_small(r0.left);
            lemma_height_small(r0.right);
            lemma_wf_fields(node.left);
            lemma_wf_fields(node.right);
            lemma_wf_fields(r0.left);
            lemma_wf_fields(r0.right);
        }
        let leans_left = match &node.right {
            Some(rt) => rt.balance_factor() > 0,
            None => false,
        };
        if leans_left {
            let ghost rl = r0.left.unwrap();
            proof {
                assert(link_wf(rl.left) && link_wf(rl.right) && fields_ok(*rl));
                lemma_height_small(rl.left);
                lemma_height_small(rl.right);
                lemma_wf_fields(rl.left);
                lemma_wf_fields(rl.right);
            }
            let rt = node.right.take().unwrap();
            let rt = Self::rotate_right(rt);
            proof {
                let b = rt.right.unwrap();
                assert(link_seq(rt.right) == link_seq(b.left) + seq![b.value] + link_seq(b.right));
                assert(link_wf(rt.right));
            }
            node.right = Some(rt);
            let r = Self::rotate_left(node);
            proof {
                let a = r.left.unwrap();
                let b = r.right.unwrap();
                assert(link_seq(r.left) == link_seq(a.left) + seq![a.value] + link_seq(a.right));
                assert(link_seq(r.right) == link_seq(b.left) + seq![b.value] + link_seq(b.right));
                assert(link_seq(r0.left) == link_seq(rl.left) + seq![rl.value] + link_seq(
                    rl.right));
                assert(link_seq(Some(r0)) == link_seq(r0.left) + seq![r0.value] + link_seq(
                    r0.right));
                assert(link_wf(r.left));
                assert(link_wf(r.right));
                assert(link_seq(Some(r)) =~= link_seq(l_0) + seq![v0] + link_seq(Some(r0)));
            }
            r
        } else {
            let r = Self::rotate_left(node);
            proof {
                let a = r.left.unwrap();
                assert(link_seq(r.left) == link_seq(a.left) + seq![a.value] + link_seq(a.right));
                assert(link_seq(Some(r0)) == link_seq(r0.left) + seq![r0.value] + link_seq(
                    r0.right));
                assert(link_wf(r.left));
                assert(link_seq(Some(r)) =~= link_seq(l_0) + seq![v0] + link_seq(Some(r0)));
            }
            r
        }
    }

    /// Recomputes the node's bookkeeping and restores the AVL balance with at most two rotations.
    fn balance(mut node: Box<Node<T>>) -> (r: Box<Node<T>>)
        requires
            link_wf(node.left),
            link_wf(node.right),
            lht(node.left) <= lht(node.right) + 2,
            lht(node.right) <= lht(node.left) + 2,
            1 + lsize(node.left) + lsize(node.right) <= usize::MAX,
        ensures
            link_wf(Some(r)),
            link_seq(Some(r)) == link_seq(node.left) + seq![node.value] + link_seq(node.right),
            ({
                let m = nat_max(lht(node.left), lht(node.right));
                if lht(node.left) <= lht(node.right) + 1 && lht(node.right) <= lht(node.left) + 1 {
                    r.height == 1 + m
                } else {
                    r.height == m || r.height == m + 1
                }
            }),
    {
        proof {
            lemma_height_small(node.left);
            lemma_height_small(node.right);
            lemma_wf_fields(node.left);
            lemma_wf_fields(node.right);
        }
        node.update();
        let balance = node.balance_factor();
        if balance > 1 {
            Self::fix_left_heavy(node)
        } else if balance < -1 {
            Self::fix_right_heavy(node)
        } else {
            node
        }
    }
}

impl<T: Copy> TreeArray<T> {
    fn get_node_ref(node: &Link<T>, index: usize) -> (r: Option<&T>)
        requires
            link_wf(*node),
        ensures
            index < link_seq(*node).len() ==> r == Some(&link_seq(*node)[index as int]),
            index >= link_seq(*node).len() ==> r.is_none(),
        decreases *node,
    {
        proof { lemma_wf_fields(*node); }
        match node {
            None => None,
            Some(n) => {
                proof {
                    lemma_wf_fields(n.left);
                    lemma_wf_fields(n.right);
                }
                let left_size = size_of(&n.left);
                if index < left_size {
                    Self::get_node_ref(&n.left, index)
                } else if index == left_size {
                    Some(&n.value)
                } else {
                    let r = Self::get_node_ref(&n.right, index - left_size - 1);
                    r
                }
            },
        }
    }

    fn set_node_mut(node: &mut Link<T>, index: usize, value: T) -> (r: bool)
        requires
            link_wf(*old(node)),
        ensures
            link_wf(*final(node)),
            lht(*final(node)) == lht(*old(node)),
            lsize(*final(node)) == lsize(*old(node)),
            r == (index < link_seq(*old(node)).len()),
            r ==> link_seq(*final(node)) == link_seq(*old(node)).update(index as int, value),
            !r ==> link_seq(*final(node)) == link_seq(*old(node)),
        decreases *old(node),
    {
        proof { lemma_wf_fields(*node); }
        match node.take() {
            None => {
                *node = None;
                false
            },
            Some(mut n) => {
                proof {
                    lemma_wf_fields(n.left);
                    lemma_wf_fields(n.right);
                }
                let ghost n0 = n;
                let left_size = size_of(&n.left);
                let r = if index < left_size {
                    Self::set_node_mut(&mut n.left, index, value)
                } else if index == left_size {
                    n.value = value;
                    true
                } else {
                    Self::set_node_mut(&mut n.right, index - left_size - 1, value)
                };
                proof {
                    if r {
                        assert(link_seq(Some(n)) =~= link_seq(Some(n0)).update(index as int, value));
                    } else {
                        assert(link_seq(Some(n)) =~= link_seq(Some(n0)));
                    }
                }
                *node = Some(n);
                r
            },
        }
    }

    fn insert_node(node: Link<T>, index: usize, value: T) -> (r: Link<T>)
        requires
            link_wf(node),
            index <= link_seq(node).len(),
            link_seq(node).len() < usize::MAX,
        ensures
            link_wf(r),
            r.is_some(),
            link_seq(r) == link_seq(node).insert(index as int, value),
            lht(r) == lht(node) || lht(r) == lht(node) + 1,
        decreases node,
    {
        proof { lemma_wf_fields(node); }
        let mut n = match node {
            None => {
                let leaf = Box::new(Node::new(value));
                proof {
                    assert(link_seq(Some(leaf)) =~= seq![value]);
                    assert(link_seq(node).insert(index as int, value) =~= seq![value]);
                }
                return Some(leaf);
            },
            Some(n) => n,
        };
        proof {
            lemma_wf_fields(n.left);
            lemma_wf_fields(n.right);
        }
        let ghost n0 = n;
        let left_size = size_of(&n.left);
        if index <= left_size {
            n.left = Self::insert_node(n.left.take(), index, value);
            proof {
                lemma_wf_fields(n.left);
                assert(link_seq(n.left) + seq![n.value] + link_seq(n.right) =~= link_seq(
                    Some(n0)).insert(index as int, value));
            }
        } else {
            n.right = Self::insert_node(n.right.take(), index - left_size - 1, value);
            proof {
                lemma_wf_fields(n.right);
                assert(link_seq(n.left) + seq![n.value] + link_seq(n.right) =~= link_seq(
                    Some(n0)).insert(index as int, value));
            }
        }
        Some(Self::balance(n))
    }

    /// Removes and returns the first element of a non-empty subtree.
    fn take_min(mut node: Box<Node<T>>) -> (r: (T, Link<T>))
        requires
            link_wf(Some(node)),
        ensures
            link_wf(r.1),
            r.0 == link_seq(Some(node))[0],
            link_seq(r.1) == link_seq(Some(node)).drop_first(),
            lht(r.1) == node.height || lht(r.1) + 1 == node.height,
        decreases node,
    {
        proof {
            lemma_wf_fields(node.left);
            lemma_wf_fields(node.right);
            lemma_wf_fields(Some(node));
        }
        let ghost n0 = node;
        match node.left.take() {
            None => {
                proof {
                    assert(link_seq(Some(n0)) =~= seq![n0.value] + link_seq(n0.right));
                }
                (node.value, node.right.take())
            },
            Some(l) => {
                let (min, new_left) = Self::take_min(l);
                node.left = new_left;
                proof {
                    lemma_wf_fields(new_left);
                    assert(link_seq(Some(n0)) =~= link_seq(n0.left) + seq![n0.value] + link_seq(
                        n0.right));
                    assert(link_seq(node.left) + seq![node.value] + link_seq(node.right) =~= link_seq(
                        Some(n0)).drop_first());
                }
                (min, Some(Self::balance(node)))
            },
        }
    }

    fn delete_node(node: Link<T>, index: usize, removed: &mut Option<T>) -> (r: Link<T>)
        requires
            link_wf(node),
            index < link_seq(node).len(),
        ensures
            link_wf(r),
            *final(removed) == Some(link_seq(node)[index as int]),
            link_seq(r) == link_seq(node).remove(index as int),
            lht(r) == lht(node) || lht(r) + 1 == lht(node),
        decreases node,
    {
        proof { lemma_wf_fields(node); }
        let mut n = node.unwrap();
        proof {
            lemma_wf_fields(n.left);
            lemma_wf_fields(n.right);
        }
        let ghost n0 = n;
        let left_size = size_of(&n.left);
        if index < left_size {
            n.left = Self::delete_node(n.left.take(), index, removed);
            proof {
                lemma_wf_fields(n.left);
                assert(link_seq(n.left) + seq![n.value] + link_seq(n.right) =~= link_seq(
                    Some(n0)).remove(index as int));
            }
        } else if index > left_size {
            n.right = Self::delete_node(n.right.take(), index - left_size - 1, removed);
            proof {
                lemma_wf_fields(n.right);
                assert(link_seq(n.left) + seq![n.value] + link_seq(n.right) =~= link_seq(
                    Some(n0)).remove(index as int));
            }
        } else {
            *removed = Some(n.value);
            let r = Self::remove_root(n);
            proof {
                assert(link_seq(r) =~= link_seq(Some(n0)).remove(index as int));
            }
            return r;
        }
        Some(Self::balance(n))
    }

    /// Joins the two subtrees of a node whose own element is dropped.
    fn remove_root(mut n: Box<Node<T>>) -> (r: Link<T>)
        requires
            link_wf(Some(n)),
        ensures
            link_wf(r),
            link_seq(r) == link_seq(n.left) + link_seq(n.right),
            lht(r) == n.height || lht(r) + 1 == n.height,
    {
        proof {
            lemma_wf_fields(n.left);
            lemma_wf_fields(n.right);
        }
        let ghost n0 = n;
        if n.left.is_none() {
            proof { assert(link_seq(n0.left) + link_seq(n0.right) =~= link_seq(n0.right)); }
            return n.right;
        }
        if n.right.is_none() {
            proof { assert(link_seq(n0.left) + link_seq(n0.right) =~= link_seq(n0.left)); }
            return n.left;
        }
        let (min, new_right) = Self::take_min(n.right.take().unwrap());
        n.value = min;
        n.right = new_right;
        proof {
            lemma_wf_fields(n.right);
            let rt = n0.right.unwrap();
            assert(link_seq(n0.right) == link_seq(rt.left) + seq![rt.value] + link_seq(rt.right));
            assert(link_seq(n.left) + seq![n.value] + link_seq(n.right) =~= link_seq(n0.left)
                + link_seq(n0.right));
        }
        Some(Self::balance(n))
    }

    /// Appends the elements of a subtree to `output`, in positional order.
    fn in_order_into(node: &Link<T>, output: &mut Vec<T>)
        requires
            link_wf(*node),
        ensures
            final(output)@ == old(output)@ + link_seq(*node),
        decreases *node,
    {
        match node {
            None => {
                proof { assert(old(output)@ + link_seq(*node) =~= old(output)@); }
            },
            Some(n) => {
                Self::in_order_into(&n.left, output);
                output.push(n.value);
                Self::in_order_into(&n.right, output);
                proof {
                    assert(final(output)@ =~= old(output)@ + link_seq(*node));
                }
            },
        }
    }
}

impl<T: Copy> TreeArray<T> {
    /// Returns `true` when no elements are stored.
    pub fn is_empty(&self) -> (r: bool)
        requires
            self.wf(),
        ensures
            r == (self@.len() == 0),
    {
        proof { lemma_wf_fields(self.root); }
        self.root.is_none()
    }

    /// Removes all elements from the container.
    pub fn clear(&mut self)
        ensures
            final(self).wf(),
            final(self)@ == Seq::<T>::empty(),
    {
        self.root = None;
    }

    /// Returns a copy of the value at `index`.
    pub fn get(&self, index: usize) -> (r: IndexResult<T>)
        requires
            self.wf(),
        ensures
            index < self@.len() ==> r == Ok::<T, IndexError>(self@[index as int]),
            index >= self@.len() ==> r == Err::<T, IndexError>(
                IndexError { index, len: self@.len() as usize },
            ),
    {
        match self.get_ref(index) {
            Ok(v) => Ok(*v),
            Err(e) => Err(e),
        }
    }

    /// Borrows the value at `index`.
    pub fn get_ref(&self, index: usize) -> (r: IndexResult<&T>)
        requires
            self.wf(),
        ensures
            index < self@.len() ==> r == Ok::<&T, IndexError>(&self@[index as int]),
            index >= self@.len() ==> r == Err::<&T, IndexError>(
                IndexError { index, len: self@.len() as usize },
            ),
    {
        match Self::get_node_ref(&self.root, index) {
            Some(v) => Ok(v),
            None => Err(IndexError { index, len: self.len() }),
        }
    }

    /// Creates an iterator that yields the elements in positional order.
    pub fn iter(&self) -> (it: TreeArrayIter<'_, T>)
        requires
            self.wf(),
        ensures
            it.wf(),
            it.remaining() == self@,
    {
        TreeArrayIter::new(self)
    }

    /// Appends `value` to the end of the tree and returns its index.
    pub fn append(&mut self, value: T) -> (r: usize)
        requires
            old(self).wf(),
            old(self)@.len() < usize::MAX,
        ensures
            final(self).wf(),
            final(self)@ == old(self)@.push(value),
            r == old(self)@.len(),
    {
        let len = self.len();
        proof { lemma_wf_fields(self.root); }
        self.root = Self::insert_node(self.root.take(), len, value);
        proof { assert(old(self)@.insert(len as int, value) =~= old(self)@.push(value)); }
        len
    }

    /// Inserts `value` at `index`, shifting the following elements up by one.
    pub fn insert(&mut self, index: usize, value: T) -> (r: IndexResult<()>)
        requires
            old(self).wf(),
            old(self)@.len() < usize::MAX,
        ensures
            final(self).wf(),
            index <= old(self)@.len() ==> r == Ok::<(), IndexError>(()) && final(self)@
                == old(self)@.insert(index as int, value),
            index > old(self)@.len() ==> r == Err::<(), IndexError>(
                IndexError { index, len: old(self)@.len() as usize },
            ) && final(self)@ == old(self)@,
    {
        let len = self.len();
        if index > len {
            return Err(IndexError { index, len });
        }
        self.root = Self::insert_node(self.root.take(), index, value);
        Ok(())
    }

    /// Overwrites the value at `index` with `value`.
    pub fn set(&mut self, index: usize, value: T) -> (r: IndexResult<()>)
        requires
            old(self).wf(),
        ensures
            final(self).wf(),
            index < old(self)@.len() ==> r == Ok::<(), IndexError>(()) && final(self)@
                == old(self)@.update(index as int, value),
            index >= old(self)@.len() ==> r == Err::<(), IndexError>(
                IndexError { index, len: old(self)@.len() as usize },
            ) && final(self)@ == old(self)@,
    {
        if Self::set_node_mut(&mut self.root, index, value) {
            Ok(())
        } else {
            Err(IndexError { index, len: self.len() })
        }
    }

    /// Removes and returns the element at `index`, shifting the following elements down by one.
    pub fn remove(&mut self, index: usize) -> (r: IndexResult<T>)
        requires
            old(self).wf(),
        ensures
            final(self).wf(),
            index < old(self)@.len() ==> r == Ok::<T, IndexError>(old(self)@[index as int])
                && final(self)@ == old(self)@.remove(index as int),
            index >= old(self)@.len() ==> r == Err::<T, IndexError>(
                IndexError { index, len: old(self)@.len() as usize },
            ) && final(self)@ == old(self)@,
    {
        let len = self.len();
        if index >= len {
            return Err(IndexError { index, len });
        }
        let mut output: Option<T> = None;
        self.root = Self::delete_node(self.root.take(), index, &mut output);
        match output {
            Some(v) => Ok(v),
            None => Err(IndexError { index, len: self.len() }),
        }
    }

    /// Removes and returns the element at `index`; the same operation as [`TreeArray::remove`].
    pub fn delete(&mut self, index: usize) -> (r: IndexResult<T>)
        requires
            old(self).wf(),
        ensures
            final(self).wf(),
            index < old(self)@.len() ==> r == Ok::<T, IndexError>(old(self)@[index as int])
                && final(self)@ == old(self)@.remove(index as int),
            index >= old(self)@.len() ==> r == Err::<T, IndexError>(
                IndexError { index, len: old(self)@.len() as usize },
            ) && final(self)@ == old(self)@,
    {
        self.remove(index)
    }

    /// Removes and returns the last element, or `None` when the tree is empty.
    pub fn pop(&mut self) -> (r: Option<T>)
        requires
            old(self).wf(),
        ensures
            final(self).wf(),
            old(self)@.len() == 0 ==> r.is_none() && final(self)@ == old(self)@,
            old(self)@.len() > 0 ==> r == Some(old(self)@.last()) && final(self)@
                == old(self)@.drop_last(),
    {
        let len = self.len();
        if len == 0 {
            return None;
        }
        let r = self.remove(len - 1);
        proof { assert(old(self)@.remove(len - 1) =~= old(self)@.drop_last()); }
        match r {
            Ok(v) => Some(v),
            Err(_) => None,
        }
    }

    /// Returns a vector containing the elements in positional order.
    pub fn in_order(&self) -> (r: Vec<T>)
        requires
            self.wf(),
        ensures
            r@ == self@,
    {
        let mut result: Vec<T> = Vec::with_capacity(self.len());
        Self::in_order_into(&self.root, &mut result);
        proof { assert(result@ =~= self@); }
        result
    }
}

/// Forward iterator over a [`TreeArray`], yielding references in positional order.
pub struct TreeArrayIter<'a, T> {
    tree: &'a TreeArray<T>,
    pos: usize,
}

impl<'a, T: Copy> TreeArrayIter<'a, T> {
    /// The iterator walks a well-formed tree and has not run past its end.
    pub closed spec fn wf(&self) -> bool {
        self.tree.wf() && self.pos <= self.tree@.len()
    }

    /// The elements that are still to be yielded, in order.
    pub closed spec fn remaining(&self) -> Seq<T> {
        self.tree@.subrange(self.pos as int, self.tree@.len() as int)
    }

    fn new(tree: &'a TreeArray<T>) -> (it: Self)
        requires
            tree.wf(),
        ensures
            it.wf(),
            it.remaining() == tree@,
    {
        let it = Self { tree, pos: 0 };
        proof { assert(it.remaining() =~= tree@); }
        it
    }

    /// Yields the next element, or `None` once every element has been yielded.
    pub fn next(&mut self) -> (r: Option<&'a T>)
        requires
            old(self).wf(),
        ensures
            final(self).wf(),
            old(self).remaining().len() == 0 ==> r.is_none() && final(self).remaining()
                == old(self).remaining(),
            old(self).remaining().len() > 0 ==> r == Some(&old(self).remaining()[0])
                && final(self).remaining() == old(self).remaining().drop_first(),
    {
        if self.pos >= self.tree.len() {
            return None;
        }
        let r = match self.tree.get_ref(self.pos) {
            Ok(v) => Some(v),
            Err(_) => None,
        };
        self.pos = self.pos + 1;
        proof { assert(final(self).remaining() =~= old(self).remaining().drop_first()); }
        r
    }
}

/// After any sequence of insertions, deletions, appends and pops, every one of which keeps the
/// tree well-formed, the height `h` of a tree of `n` elements satisfies `2^(h/2) <= n + 1`,
/// so that it stays within `2 * log2(n + 1) + 1`, and `fib(h + 2) <= n + 1`, the AVL bound,
/// which keeps it within about `1.44 * log2(n + 2)`.
pub proof fn lemma_height_logarithmic<T>(tree: &TreeArray<T>)
    requires
        tree.wf(),
    ensures
        pow2(tree.height() / 2) <= tree@.len() + 1,
        fib(tree.height() + 2) <= tree@.len() + 1,
{
    lemma_wf_fields(tree.root);
    lemma_avl_size(tree.root);
    lemma_avl_fib(tree.root);
}

/// Writing `v` at a valid position and reading that position back gives `v`, and every other
/// position keeps its element.
pub proof fn lemma_set_then_get<T>(before: Seq<T>, i: int, v: T)
    requires
        0 <= i < before.len(),
    ensures
        before.update(i, v)[i] == v,
        before.update(i, v).len() == before.len(),
        forall|j: int| 0 <= j < before.len() && j != i ==> #[trigger] before.update(i, v)[j] == before[j],
{
}

/// Inserting `v` at any position in `[0, len]` and then deleting at that position gives back
/// the sequence that was there before, and hands back `v`.
pub proof fn lemma_insert_then_delete<T>(before: Seq<T>, i: int, v: T)
    requires
        0 <= i <= before.len(),
    ensures
        before.insert(i, v)[i] == v,
        before.insert(i, v).remove(i) == before,
{
    assert(before.insert(i, v).remove(i) =~= before);
}

impl<T> View for TreeArray<T> {
    type V = Seq<T>;

    /// The elements, in positional order.
    closed spec fn view(&self) -> Seq<T> {
        link_seq(self.root)
    }
}

} // verus!
