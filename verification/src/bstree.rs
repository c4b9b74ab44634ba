//! An ordered binary search tree over any totally ordered key type.
//!
//! The tree is modelled by the set of values it stores; membership,
//! insertion and deletion are stated up to the key type's own comparison
//! (`cmp_spec`), so the contracts hold for every `Ord` key whose
//! comparison obeys the total-order laws.

use vstd::prelude::*;
use vstd::laws_cmp::obeys_cmp;
use vstd::std_specs::cmp::{OrdSpec, PartialEqSpec, PartialOrdSpec};
use core::cmp::Ordering;

verus! {

/// A node owning its value and up to two subtrees.
pub struct BstreeNode<T> {
    pub val: T,
    pub left: Option<Box<BstreeNode<T>>>,
    pub right: Option<Box<BstreeNode<T>>>,
}

/// The set of values stored in a subtree.
pub open spec fn sub_tree_vals<T>(n: Option<Box<BstreeNode<T>>>) -> Set<T>
    decreases n,
{
    match n {
        Option::None => Set::empty(),
        Option::Some(b) => sub_tree_vals(b.left).union(sub_tree_vals(b.right)).insert(b.val),
    }
}

/// The search-tree order: everything left of a node compares `Less` to
/// its value, everything right of it `Greater`, recursively.
pub open spec fn sub_tree_wf<T: Ord>(n: Option<Box<BstreeNode<T>>>) -> bool
    decreases n,
{
    match n {
        Option::None => true,
        Option::Some(b) => {
            &&& sub_tree_wf(b.left)
            &&& sub_tree_wf(b.right)
            &&& forall|x: T| #[trigger]
                sub_tree_vals(b.left).contains(x) ==> x.cmp_spec(&b.val) == Ordering::Less
            &&& forall|x: T| #[trigger]
                sub_tree_vals(b.right).contains(x) ==> x.cmp_spec(&b.val) == Ordering::Greater
        },
    }
}

/// Whether the set holds some value that compares `Equal` to `v`.
pub open spec fn set_has_equiv<T: Ord>(s: Set<T>, v: T) -> bool {
    exists|x: T| #[trigger] s.contains(x) && v.cmp_spec(&x) == Ordering::Equal
}

/// The consequences of a lawful total order, in terms of `cmp_spec`:
/// symmetry of equivalence, flipping, transitivity, and congruence of
/// equivalence with the strict orders.
pub proof fn lemma_ord_usable<T: Ord>()
    requires
        obeys_cmp::<T>(),
    ensures
        T::obeys_cmp_spec(),
        forall|x: T| #[trigger] x.cmp_spec(&x) == Ordering::Equal,
        forall|x: T, y: T| #[trigger]
            x.cmp_spec(&y) == Ordering::Equal <==> y.cmp_spec(&x) == Ordering::Equal,
        forall|x: T, y: T| #[trigger]
            x.cmp_spec(&y) == Ordering::Less <==> y.cmp_spec(&x) == Ordering::Greater,
        forall|x: T, y: T, z: T|
            x.cmp_spec(&y) == Ordering::Less && #[trigger] y.cmp_spec(&z) == Ordering::Less
                ==> #[trigger] x.cmp_spec(&z) == Ordering::Less,
        forall|x: T, y: T, z: T|
            x.cmp_spec(&y) == Ordering::Equal && #[trigger] y.cmp_spec(&z) == Ordering::Less
                ==> #[trigger] x.cmp_spec(&z) == Ordering::Less,
        forall|x: T, y: T, z: T|
            x.cmp_spec(&y) == Ordering::Less && #[trigger] y.cmp_spec(&z) == Ordering::Equal
                ==> #[trigger] x.cmp_spec(&z) == Ordering::Less,
        forall|x: T, y: T, z: T|
            x.cmp_spec(&y) == Ordering::Equal && #[trigger] y.cmp_spec(&z) == Ordering::Equal
                ==> #[trigger] x.cmp_spec(&z) == Ordering::Equal,
{
    reveal(vstd::laws_cmp::obeys_cmp_partial_ord);
    reveal(vstd::laws_cmp::obeys_cmp_ord);
    reveal(vstd::laws_cmp::obeys_partial_cmp_spec_properties);
    reveal(vstd::laws_eq::obeys_eq_spec_properties);
    assert forall|x: T| #[trigger] x.cmp_spec(&x) == Ordering::Equal by {
        assert(x.partial_cmp_spec(&x) == Some(x.cmp_spec(&x)));
        if x.cmp_spec(&x) == Ordering::Less {
            assert(x.partial_cmp_spec(&x) == Some(Ordering::Greater));
        }
        if x.cmp_spec(&x) == Ordering::Greater {
            assert(x.partial_cmp_spec(&x) == Some(Ordering::Less));
        }
    }
    assert forall|x: T, y: T| #[trigger] x.cmp_spec(&y) == Ordering::Equal implies y.cmp_spec(&x)
        == Ordering::Equal by {
        assert(x.partial_cmp_spec(&y) == Some(Ordering::Equal));
        assert(x.eq_spec(&y));
        assert(y.eq_spec(&x));
        assert(y.partial_cmp_spec(&x) == Some(y.cmp_spec(&x)));
    }
    assert forall|x: T, y: T, z: T|
        x.cmp_spec(&y) == Ordering::Equal && #[trigger] y.cmp_spec(&z)
            == Ordering::Equal implies #[trigger] x.cmp_spec(&z) == Ordering::Equal by {
        assert(x.eq_spec(&y) && y.eq_spec(&z));
        assert(x.eq_spec(&z));
        assert(x.partial_cmp_spec(&z) == Some(x.cmp_spec(&z)));
    }
    assert forall|x: T, y: T, z: T|
        x.cmp_spec(&y) == Ordering::Equal && #[trigger] y.cmp_spec(&z)
            == Ordering::Less implies #[trigger] x.cmp_spec(&z) == Ordering::Less by {
        assert(x.partial_cmp_spec(&z) == Some(x.cmp_spec(&z)));
        if x.cmp_spec(&z) == Ordering::Equal {
            assert(x.eq_spec(&z));
            assert(z.eq_spec(&x) && x.eq_spec(&y));
            assert(z.eq_spec(&y));
            assert(y.eq_spec(&z));
            assert(y.partial_cmp_spec(&z) == Some(Ordering::Equal));
        }
        if x.cmp_spec(&z) == Ordering::Greater {
            assert(z.partial_cmp_spec(&x) == Some(Ordering::Less));
            assert(y.partial_cmp_spec(&z) == Some(Ordering::Less));
            assert(y.partial_cmp_spec(&x) == Some(Ordering::Less));
            assert(x.partial_cmp_spec(&y) == Some(Ordering::Greater));
            assert(x.eq_spec(&y));
            assert(x.partial_cmp_spec(&y) == Some(Ordering::Equal));
        }
    }
    assert forall|x: T, y: T, z: T|
        x.cmp_spec(&y) == Ordering::Less && #[trigger] y.cmp_spec(&z)
            == Ordering::Equal implies #[trigger] x.cmp_spec(&z) == Ordering::Less by {
        assert(x.partial_cmp_spec(&z) == Some(x.cmp_spec(&z)));
        if x.cmp_spec(&z) == Ordering::Equal {
            assert(x.eq_spec(&z) && y.eq_spec(&z));
            assert(z.eq_spec(&y));
            assert(x.eq_spec(&y));
            assert(x.partial_cmp_spec(&y) == Some(Ordering::Equal));
        }
        if x.cmp_spec(&z) == Ordering::Greater {
            assert(z.partial_cmp_spec(&x) == Some(Ordering::Less));
            assert(x.partial_cmp_spec(&y) == Some(Ordering::Less));
            assert(z.partial_cmp_spec(&y) == Some(Ordering::Less));
            assert(y.partial_cmp_spec(&z) == Some(Ordering::Greater));
            assert(y.eq_spec(&z));
            assert(y.partial_cmp_spec(&z) == Some(Ordering::Equal));
        }
    }
}

impl<T: Ord> BstreeNode<T> {
    /// Makes a fresh leaf node holding one value.
    pub fn new(val: T) -> (r: Box<BstreeNode<T>>)
        ensures
            r.left is None,
            r.right is None,
            r.val == val,
            sub_tree_vals(Some(r)) =~= Set::<T>::empty().insert(val),
            obeys_cmp::<T>() ==> sub_tree_wf(Some(r)),
    {
        let r = Box::new(BstreeNode { val: val, left: None, right: None });
        proof {
            assert(sub_tree_vals(Option::<Box<BstreeNode<T>>>::None) =~= Set::<T>::empty());
            assert(sub_tree_wf(Option::<Box<BstreeNode<T>>>::None));
            assert(sub_tree_vals(Some(r)) =~= Set::<T>::empty().insert(val));
        }
        r
    }

    /// Whether the subtree holds a value that compares equal to `val`.
    pub fn in_sub_tree(node: &Option<Box<BstreeNode<T>>>, val: &T) -> (r: bool)
        requires
            obeys_cmp::<T>(),
            sub_tree_wf(*node),
        ensures
            r == set_has_equiv(sub_tree_vals(*node), *val),
        decreases *node,
    {
        proof {
            lemma_ord_usable::<T>();
        }
        match node {
            None => false,
            Some(n) => {
                match val.cmp(&n.val) {
                    Ordering::Less => {
                        let r = Self::in_sub_tree(&n.left, val);
                        proof {
                            lemma_branch_equiv(n, *val);
                        }
                        r
                    },
                    Ordering::Greater => {
                        let r = Self::in_sub_tree(&n.right, val);
                        proof {
                            lemma_branch_equiv(n, *val);
                        }
                        r
                    },
                    Ordering::Equal => {
                        proof {
                            assert(sub_tree_vals(*node).contains(n.val));
                        }
                        true
                    },
                }
            },
        }
    }
}

/// When a probe value compares strictly to a node's value, an equivalent
/// stored value can only sit on the matching side of that node.
proof fn lemma_branch_equiv<T: Ord>(n: &Box<BstreeNode<T>>, val: T)
    requires
        obeys_cmp::<T>(),
        sub_tree_wf(Some(*n)),
    ensures
        val.cmp_spec(&n.val) == Ordering::Less ==> set_has_equiv(sub_tree_vals(Some(*n)), val)
            == set_has_equiv(sub_tree_vals(n.left), val),
        val.cmp_spec(&n.val) == Ordering::Greater ==> set_has_equiv(sub_tree_vals(Some(*n)), val)
            == set_has_equiv(sub_tree_vals(n.right), val),
{
    lemma_ord_usable::<T>();
    let all = sub_tree_vals(Some(*n));
    if val.cmp_spec(&n.val) == Ordering::Less {
        if set_has_equiv(sub_tree_vals(n.left), val) {
            let x = choose|x: T| #[trigger]
                sub_tree_vals(n.left).contains(x) && val.cmp_spec(&x) == Ordering::Equal;
            assert(all.contains(x));
        }
        if set_has_equiv(all, val) {
            let x = choose|x: T| #[trigger] all.contains(x) && val.cmp_spec(&x) == Ordering::Equal;
            if sub_tree_vals(n.right).contains(x) {
                assert(x.cmp_spec(&n.val) == Ordering::Greater);
                assert(n.val.cmp_spec(&x) == Ordering::Less);
                assert(val.cmp_spec(&n.val) == Ordering::Less && n.val.cmp_spec(&x)
                    == Ordering::Less);
                assert(val.cmp_spec(&x) == Ordering::Less);
            }
            if x == n.val {
                assert(val.cmp_spec(&x) == Ordering::Less);
            }
            assert(sub_tree_vals(n.left).contains(x));
        }
    }
    if val.cmp_spec(&n.val) == Ordering::Greater {
        if set_has_equiv(sub_tree_vals(n.right), val) {
            let x = choose|x: T| #[trigger]
                sub_tree_vals(n.right).contains(x) && val.cmp_spec(&x) == Ordering::Equal;
            assert(all.contains(x));
        }
        if set_has_equiv(all, val) {
            let x = choose|x: T| #[trigger] all.contains(x) && val.cmp_spec(&x) == Ordering::Equal;
            if sub_tree_vals(n.left).contains(x) {
                assert(x.cmp_spec(&n.val) == Ordering::Less);
                assert(val.cmp_spec(&x) == Ordering::Equal && x.cmp_spec(&n.val) == Ordering::Less);
                assert(val.cmp_spec(&n.val) == Ordering::Less);
            }
            if x == n.val {
                assert(val.cmp_spec(&x) == Ordering::Greater);
            }
            assert(sub_tree_vals(n.right).contains(x));
        }
    }
}


impl<T: Ord> BstreeNode<T> {
    /// Inserts a value at its ordered position; returns false, changing
    /// nothing, when an equal value is already stored.
    pub fn insert(node: &mut Option<Box<BstreeNode<T>>>, val: T) -> (r: bool)
        requires
            obeys_cmp::<T>(),
            sub_tree_wf(*old(node)),
        ensures
            sub_tree_wf(*final(node)),
            r == !set_has_equiv(sub_tree_vals(*old(node)), val),
            r ==> sub_tree_vals(*final(node)) =~= sub_tree_vals(*old(node)).insert(val),
            !r ==> sub_tree_vals(*final(node)) == sub_tree_vals(*old(node)),
        decreases *old(node),
    {
        proof {
            lemma_ord_usable::<T>();
        }
        match node {
            None => {
                let ghost v = val;
                *node = Some(Self::new(val));
                proof {
                    assert(!set_has_equiv(Set::<T>::empty(), v));
                    assert(sub_tree_vals(*node) =~= Set::<T>::empty().insert(v));
                }
                true
            },
            Some(n) => {
                proof {
                    lemma_branch_equiv(n, val);
                }
                match val.cmp(&n.val) {
                    Ordering::Less => {
                        let ghost old_left = n.left;
                        let ghost old_right = n.right;
                        let ghost pivot = n.val;
                        let r = Self::insert(&mut n.left, val);
                        proof {
                            assert(sub_tree_vals(*node) =~= sub_tree_vals(n.left).union(
                                sub_tree_vals(n.right),
                            ).insert(n.val));
                            if r {
                                assert(sub_tree_vals(*node) =~= sub_tree_vals(*old(node)).insert(
                                    val,
                                ));
                                assert forall|x: T| #[trigger]
                                    sub_tree_vals(n.left).contains(x) implies x.cmp_spec(&n.val)
                                    == Ordering::Less by {
                                    if x == val {
                                    } else {
                                        assert(sub_tree_vals(old_left).contains(x));
                                    }
                                }
                            }
                        }
                        r
                    },
                    Ordering::Greater => {
                        let ghost old_right = n.right;
                        let r = Self::insert(&mut n.right, val);
                        proof {
                            assert(sub_tree_vals(*node) =~= sub_tree_vals(n.left).union(
                                sub_tree_vals(n.right),
                            ).insert(n.val));
                            if r {
                                assert(sub_tree_vals(*node) =~= sub_tree_vals(*old(node)).insert(
                                    val,
                                ));
                                assert forall|x: T| #[trigger]
                                    sub_tree_vals(n.right).contains(x) implies x.cmp_spec(&n.val)
                                    == Ordering::Greater by {
                                    if x == val {
                                    } else {
                                        assert(sub_tree_vals(old_right).contains(x));
                                    }
                                }
                            }
                        }
                        r
                    },
                    Ordering::Equal => {
                        proof {
                            assert(sub_tree_vals(*node).contains(n.val));
                        }
                        false
                    },
                }
            },
        }
    }
}


impl<T: Ord> BstreeNode<T> {
    /// Removes and returns the greatest value of a non-empty subtree.
    fn extract_max(node: &mut Option<Box<BstreeNode<T>>>) -> (r: T)
        requires
            obeys_cmp::<T>(),
            sub_tree_wf(*old(node)),
            (*old(node)) is Some,
        ensures
            sub_tree_wf(*final(node)),
            sub_tree_vals(*old(node)).contains(r),
            sub_tree_vals(*final(node)) =~= sub_tree_vals(*old(node)).remove(r),
            forall|x: T| #[trigger]
                sub_tree_vals(*final(node)).contains(x) ==> x.cmp_spec(&r) == Ordering::Less,
        decreases *old(node),
    {
        proof {
            lemma_ord_usable::<T>();
        }
        let mut boxed = match node.take() {
            Some(b) => b,
            None => {
                proof {
                    assert(false);
                }
                vstd::pervasive::unreached()
            },
        };
        if boxed.right.is_some() {
            let ghost old_left = boxed.left;
            let ghost old_right = boxed.right;
            let ghost pivot = boxed.val;
            let r = Self::extract_max(&mut boxed.right);
            proof {
                assert(old_right is Some);
                assert(sub_tree_vals(old_right).contains(r));
                assert(pivot.cmp_spec(&r) == Ordering::Less);
            }
            let ghost new_right = boxed.right;
            *node = Some(boxed);
            proof {
                let oldv = sub_tree_vals(*old(node));
                let newv = sub_tree_vals(*node);
                assert(newv =~= sub_tree_vals(old_left).union(sub_tree_vals(new_right)).insert(
                    pivot,
                ));
                assert(oldv =~= sub_tree_vals(old_left).union(sub_tree_vals(old_right)).insert(
                    pivot,
                ));
                assert forall|x: T| #[trigger] newv.contains(x) implies x.cmp_spec(&r)
                    == Ordering::Less by {
                    if sub_tree_vals(old_left).contains(x) {
                        assert(x.cmp_spec(&pivot) == Ordering::Less);
                        assert(x.cmp_spec(&r) == Ordering::Less);
                    } else if x == pivot {
                    } else {
                        assert(sub_tree_vals(new_right).contains(x));
                    }
                }
                assert forall|x: T| #[trigger] newv.contains(x) implies oldv.contains(x) && x
                    != r by {
                    assert(x.cmp_spec(&r) == Ordering::Less);
                    if x == r {
                        assert(r.cmp_spec(&r) == Ordering::Equal);
                    }
                    if sub_tree_vals(new_right).contains(x) {
                        assert(sub_tree_vals(old_right).contains(x));
                    }
                }
                assert forall|x: T| oldv.contains(x) && x != r implies #[trigger] newv.contains(
                    x,
                ) by {
                    if sub_tree_vals(old_right).contains(x) {
                        assert(sub_tree_vals(old_right).remove(r).contains(x));
                    }
                }
                assert(newv =~= oldv.remove(r));
            }
            r
        } else {
            let BstreeNode { val, left, right } = *boxed;
            *node = left;
            proof {
                assert(sub_tree_vals(right) =~= Set::<T>::empty());
                assert(sub_tree_vals(*node) =~= sub_tree_vals(*old(node)).remove(val));
            }
            val
        }
    }
}


impl<T: Ord> BstreeNode<T> {
    /// Removes the value that compares equal to `val`, if one is stored;
    /// a node with two children is replaced by the greatest value of its
    /// left subtree.
    pub fn delete(node: &mut Option<Box<BstreeNode<T>>>, val: &T) -> (r: bool)
        requires
            obeys_cmp::<T>(),
            sub_tree_wf(*old(node)),
        ensures
            sub_tree_wf(*final(node)),
            r == set_has_equiv(sub_tree_vals(*old(node)), *val),
            r ==> exists|x: T|
                {
                    &&& #[trigger] sub_tree_vals(*old(node)).contains(x)
                    &&& val.cmp_spec(&x) == Ordering::Equal
                    &&& sub_tree_vals(*final(node)) == sub_tree_vals(*old(node)).remove(x)
                },
            !r ==> sub_tree_vals(*final(node)) == sub_tree_vals(*old(node)),
        decreases *old(node),
    {
        proof {
            lemma_ord_usable::<T>();
        }
        match node {
            None => {
                proof {
                    assert(sub_tree_vals(*old(node)) =~= Set::<T>::empty());
                }
                false
            },
            Some(n) => {
                proof {
                    lemma_branch_equiv(n, *val);
                }
                match val.cmp(&n.val) {
                    Ordering::Less => {
                        let ghost old_left = n.left;
                        let ghost old_right = n.right;
                        let ghost pivot = n.val;
                        let r = Self::delete(&mut n.left, val);
                        proof {
                            assert(sub_tree_vals(*node) =~= sub_tree_vals(n.left).union(
                                sub_tree_vals(old_right),
                            ).insert(pivot));
                            if r {
                                let x = choose|x: T|
                                    {
                                        &&& #[trigger] sub_tree_vals(old_left).contains(x)
                                        &&& val.cmp_spec(&x) == Ordering::Equal
                                        &&& sub_tree_vals(n.left) == sub_tree_vals(
                                            old_left,
                                        ).remove(x)
                                    };
                                assert(x.cmp_spec(&pivot) == Ordering::Less);
                                assert(sub_tree_vals(*old(node)).contains(x));
                                if x == pivot {
                                    assert(pivot.cmp_spec(&pivot) == Ordering::Equal);
                                }
                                if sub_tree_vals(old_right).contains(x) {
                                    assert(x.cmp_spec(&pivot) == Ordering::Greater);
                                }
                                assert(sub_tree_vals(*node) =~= sub_tree_vals(*old(node)).remove(
                                    x,
                                ));
                                assert forall|y: T| #[trigger]
                                    sub_tree_vals(n.left).contains(y) implies y.cmp_spec(&pivot)
                                    == Ordering::Less by {
                                    assert(sub_tree_vals(old_left).contains(y));
                                }
                            }
                        }
                        r
                    },
                    Ordering::Greater => {
                        let ghost old_left = n.left;
                        let ghost old_right = n.right;
                        let ghost pivot = n.val;
                        let r = Self::delete(&mut n.right, val);
                        proof {
                            assert(sub_tree_vals(*node) =~= sub_tree_vals(old_left).union(
                                sub_tree_vals(n.right),
                            ).insert(pivot));
                            if r {
                                let x = choose|x: T|
                                    {
                                        &&& #[trigger] sub_tree_vals(old_right).contains(x)
                                        &&& val.cmp_spec(&x) == Ordering::Equal
                                        &&& sub_tree_vals(n.right) == sub_tree_vals(
                                            old_right,
                                        ).remove(x)
                                    };
                                assert(x.cmp_spec(&pivot) == Ordering::Greater);
                                assert(sub_tree_vals(*old(node)).contains(x));
                                if x == pivot {
                                    assert(pivot.cmp_spec(&pivot) == Ordering::Equal);
                                }
                                if sub_tree_vals(old_left).contains(x) {
                                    assert(x.cmp_spec(&pivot) == Ordering::Less);
                                }
                                assert(sub_tree_vals(*node) =~= sub_tree_vals(*old(node)).remove(
                                    x,
                                ));
                                assert forall|y: T| #[trigger]
                                    sub_tree_vals(n.right).contains(y) implies y.cmp_spec(&pivot)
                                    == Ordering::Greater by {
                                    assert(sub_tree_vals(old_right).contains(y));
                                }
                            }
                        }
                        r
                    },
                    Ordering::Equal => {
                        let mut boxed = match node.take() {
                            Some(b) => b,
                            None => {
                                proof {
                                    assert(false);
                                }
                                vstd::pervasive::unreached()
                            },
                        };
                        let ghost old_left = boxed.left;
                        let ghost old_right = boxed.right;
                        let ghost pivot = boxed.val;
                        proof {
                            assert(sub_tree_vals(*old(node)).contains(pivot));
                            if sub_tree_vals(old_left).contains(pivot) {
                                assert(pivot.cmp_spec(&pivot) == Ordering::Less);
                                assert(pivot.cmp_spec(&pivot) == Ordering::Equal);
                            }
                            if sub_tree_vals(old_right).contains(pivot) {
                                assert(pivot.cmp_spec(&pivot) == Ordering::Greater);
                                assert(pivot.cmp_spec(&pivot) == Ordering::Equal);
                            }
                        }
                        if boxed.left.is_none() {
                            proof {
                                assert(sub_tree_vals(old_left) =~= Set::<T>::empty());
                            }
                            *node = boxed.right;
                            proof {
                                assert(sub_tree_vals(*node) =~= sub_tree_vals(*old(node)).remove(
                                    pivot,
                                ));
                            }
                        } else if boxed.right.is_none() {
                            proof {
                                assert(sub_tree_vals(old_right) =~= Set::<T>::empty());
                            }
                            *node = boxed.left;
                            proof {
                                assert(sub_tree_vals(*node) =~= sub_tree_vals(*old(node)).remove(
                                    pivot,
                                ));
                            }
                        } else {
                            let predecessor_val = Self::extract_max(&mut boxed.left);
                            let ghost pred = predecessor_val;
                            proof {
                                assert(sub_tree_vals(old_left).contains(pred));
                                assert(pred.cmp_spec(&pivot) == Ordering::Less);
                            }
                            boxed.val = predecessor_val;
                            let ghost new_left = boxed.left;
                            *node = Some(boxed);
                            proof {
                                let oldv = sub_tree_vals(*old(node));
                                let newv = sub_tree_vals(*node);
                                assert(newv =~= sub_tree_vals(new_left).union(
                                    sub_tree_vals(old_right),
                                ).insert(pred));
                                assert(oldv =~= sub_tree_vals(old_left).union(
                                    sub_tree_vals(old_right),
                                ).insert(pivot));
                                assert forall|y: T| #[trigger]
                                    sub_tree_vals(old_right).contains(y) implies y.cmp_spec(&pred)
                                    == Ordering::Greater by {
                                    assert(y.cmp_spec(&pivot) == Ordering::Greater);
                                    assert(pivot.cmp_spec(&y) == Ordering::Less);
                                    assert(pred.cmp_spec(&y) == Ordering::Less);
                                    if pred == y {
                                        assert(pred.cmp_spec(&pred) == Ordering::Equal);
                                    }
                                }
                                assert forall|y: T| #[trigger] newv.contains(y) implies
                                    oldv.contains(y) && y != pivot by {
                                    if sub_tree_vals(new_left).contains(y) {
                                        assert(sub_tree_vals(old_left).contains(y));
                                        assert(y.cmp_spec(&pivot) == Ordering::Less);
                                        if y == pivot {
                                            assert(pivot.cmp_spec(&pivot) == Ordering::Equal);
                                        }
                                    } else if y == pred {
                                        if y == pivot {
                                            assert(pivot.cmp_spec(&pivot) == Ordering::Equal);
                                        }
                                    } else {
                                        assert(sub_tree_vals(old_right).contains(y));
                                        assert(y.cmp_spec(&pivot) == Ordering::Greater);
                                        if y == pivot {
                                            assert(pivot.cmp_spec(&pivot) == Ordering::Equal);
                                        }
                                    }
                                }
                                assert forall|y: T| oldv.contains(y) && y != pivot implies
                                    #[trigger] newv.contains(y) by {
                                    if sub_tree_vals(old_left).contains(y) {
                                        if y != pred {
                                            assert(sub_tree_vals(old_left).remove(pred).contains(
                                                y,
                                            ));
                                        }
                                    }
                                }
                                assert(newv =~= oldv.remove(pivot));
                            }
                        }
                        proof {
                            assert(val.cmp_spec(&pivot) == Ordering::Equal);
                            assert(set_has_equiv(sub_tree_vals(*old(node)), *val));
                        }
                        true
                    },
                }
            },
        }
    }
}


/// A value that can render itself as text, the way the tree printer
/// needs; the tree stays generic over how its values are written.
pub trait Labeled {
    /// The exact text of the rendered value.
    spec fn label_spec(&self) -> Seq<char>;

    /// Renders the value.
    fn label(&self) -> (r: String)
        ensures
            r@ == self.label_spec(),
    ;
}

/// The decimal digit character of `d`.
pub open spec fn dec_digit(d: int) -> char {
    if d == 0 {
        '0'
    } else if d == 1 {
        '1'
    } else if d == 2 {
        '2'
    } else if d == 3 {
        '3'
    } else if d == 4 {
        '4'
    } else if d == 5 {
        '5'
    } else if d == 6 {
        '6'
    } else if d == 7 {
        '7'
    } else if d == 8 {
        '8'
    } else {
        '9'
    }
}

/// The decimal rendering of a non-negative number, most significant
/// digit first.
pub open spec fn dec_digits(n: int) -> Seq<char>
    recommends
        n >= 0,
    decreases n,
{
    if n < 10 {
        seq![dec_digit(n)]
    } else {
        dec_digits(n / 10).push(dec_digit(n % 10))
    }
}

fn digit_str(d: u64) -> (r: &'static str)
    requires
        d < 10,
    ensures
        r@ == seq![dec_digit(d as int)],
{
    if d == 0 {
        proof {
            reveal_strlit("0");
            assert("0"@ =~= seq![dec_digit(0)]);
        }
        "0"
    } else if d == 1 {
        proof {
            reveal_strlit("1");
            assert("1"@ =~= seq![dec_digit(1)]);
        }
        "1"
    } else if d == 2 {
        proof {
            reveal_strlit("2");
            assert("2"@ =~= seq![dec_digit(2)]);
        }
        "2"
    } else if d == 3 {
        proof {
            reveal_strlit("3");
            assert("3"@ =~= seq![dec_digit(3)]);
        }
        "3"
    } else if d == 4 {
        proof {
            reveal_strlit("4");
            assert("4"@ =~= seq![dec_digit(4)]);
        }
        "4"
    } else if d == 5 {
        proof {
            reveal_strlit("5");
            assert("5"@ =~= seq![dec_digit(5)]);
        }
        "5"
    } else if d == 6 {
        proof {
            reveal_strlit("6");
            assert("6"@ =~= seq![dec_digit(6)]);
        }
        "6"
    } else if d == 7 {
        proof {
            reveal_strlit("7");
            assert("7"@ =~= seq![dec_digit(7)]);
        }
        "7"
    } else if d == 8 {
        proof {
            reveal_strlit("8");
            assert("8"@ =~= seq![dec_digit(8)]);
        }
        "8"
    } else {
        proof {
            reveal_strlit("9");
            assert("9"@ =~= seq![dec_digit(9)]);
        }
        "9"
    }
}

/// Renders a number in decimal, most significant digit first.
pub fn u64_dec_string(n: u64) -> (r: String)
    ensures
        r@ == dec_digits(n as int),
    decreases n,
{
    if n < 10 {
        let d = digit_str(n);
        String::from_str(d)
    } else {
        let mut s = u64_dec_string(n / 10);
        let d = digit_str(n % 10);
        s.append(d);
        proof {
            assert(dec_digits((n / 10) as int) + seq![dec_digit((n % 10) as int)] =~= dec_digits(
                (n / 10) as int,
            ).push(dec_digit((n % 10) as int)));
        }
        s
    }
}

impl Labeled for i32 {
    open spec fn label_spec(&self) -> Seq<char> {
        if *self < 0 {
            seq!['-'] + dec_digits(-(*self as int))
        } else {
            dec_digits(*self as int)
        }
    }

    fn label(&self) -> (r: String)
        ensures
            r@ == self.label_spec(),
    {
        let v = *self as i64;
        if v < 0 {
            let mut s = String::from_str("-");
            let digits = u64_dec_string((-v) as u64);
            s.append(digits.as_str());
            proof {
                reveal_strlit("-");
                assert("-"@ =~= seq!['-']);
            }
            s
        } else {
            u64_dec_string(v as u64)
        }
    }
}


/// `n` levels of four-space indentation.
pub open spec fn spaces(n: int) -> Seq<char>
    decreases n,
{
    if n <= 0 {
        Seq::empty()
    } else {
        spaces(n - 1) + "    "@
    }
}

/// The height of a subtree rooted at a node: 1 for a lone node.
pub open spec fn node_height<T>(n: BstreeNode<T>) -> nat
    decreases n,
{
    let hl: nat = match n.left {
        Option::Some(l) => node_height(*l),
        Option::None => 0,
    };
    let hr: nat = match n.right {
        Option::Some(r) => node_height(*r),
        Option::None => 0,
    };
    1 + if hl >= hr {
        hl
    } else {
        hr
    }
}

/// The header line of a rendered node: indentation, a branch marker when
/// below the root, the tag, and the value.
pub open spec fn render_header<T: Labeled>(val: T, indent: int, tag: Seq<char>) -> Seq<char> {
    spaces(indent - 1) + (if indent > 0 {
        "\\__ "@
    } else {
        Seq::<char>::empty()
    }) + tag + ": "@ + val.label_spec() + "\n"@
}

/// The placeholder line of a missing child.
pub open spec fn render_none(indent: int, left_side: bool) -> Seq<char> {
    spaces(indent) + (if left_side {
        "\\__ left: NONE\n"@
    } else {
        "\\__ right: NONE\n"@
    })
}

/// The exact text the tree printer produces for a subtree.
pub open spec fn spec_render<T: Labeled>(node: BstreeNode<T>, indent: int, tag: Seq<char>) -> Seq<
    char,
>
    decreases node,
{
    render_header(node.val, indent, tag) + (match node.left {
        Option::Some(l) => spec_render(*l, indent + 1, "left"@),
        Option::None => render_none(indent, true),
    }) + (match node.right {
        Option::Some(r) => spec_render(*r, indent + 1, "right"@),
        Option::None => render_none(indent, false),
    })
}

impl<T: Ord> BstreeNode<T> {
    /// Renders a subtree, one line per node, children indented one level
    /// below their parent and missing children shown as NONE.
    pub fn print_sub_tree(node: &Box<BstreeNode<T>>, indent: i32, tag: &str) -> (out: String)
        where T: Labeled
        requires
            0 <= indent,
            indent + node_height(**node) <= i32::MAX,
        ensures
            out@ == spec_render(**node, indent as int, tag@),
        decreases **node,
    {
        let mut out = String::new();
        let mut k: i32 = 0;
        while k < indent - 1
            invariant
                0 <= indent,
                0 <= k,
                indent > 0 ==> k <= indent - 1,
                indent <= 0 ==> k == 0,
                out@ == spaces(k as int),
            decreases indent - 1 - k,
        {
            out.append("    ");
            k += 1;
        }
        proof {
            assert(out@ == spaces(indent - 1));
        }
        if indent > 0 {
            out.append("\\__ ");
        }
        out.append(tag);
        out.append(": ");
        let lbl = node.val.label();
        out.append(lbl.as_str());
        out.append("\n");
        proof {
            assert(out@ =~= render_header(node.val, indent as int, tag@));
        }
        let ghost header = out@;
        match &node.left {
            Some(l) => {
                let sub = Self::print_sub_tree(l, indent + 1, "left");
                out.append(sub.as_str());
            },
            None => {
                let mut k2: i32 = 0;
                let ghost before = out@;
                while k2 < indent
                    invariant
                        0 <= k2,
                        k2 <= indent,
                        out@ == before + spaces(k2 as int),
                    decreases indent - k2,
                {
                    out.append("    ");
                    k2 += 1;
                    proof {
                        assert(before + spaces(k2 - 1) + "    "@ =~= before + spaces(k2 as int));
                    }
                }
                out.append("\\__ left: NONE\n");
                proof {
                    assert(before + spaces(indent as int) + "\\__ left: NONE\n"@ =~= before
                        + render_none(indent as int, true));
                }
            },
        }
        proof {
            assert(out@ =~= header + (match node.left {
                Option::Some(l) => spec_render(*l, indent + 1, "left"@),
                Option::None => render_none(indent as int, true),
            }));
        }
        let ghost with_left = out@;
        match &node.right {
            Some(r) => {
                let sub = Self::print_sub_tree(r, indent + 1, "right");
                out.append(sub.as_str());
            },
            None => {
                let mut k2: i32 = 0;
                let ghost before = out@;
                while k2 < indent
                    invariant
                        0 <= k2,
                        k2 <= indent,
                        out@ == before + spaces(k2 as int),
                    decreases indent - k2,
                {
                    out.append("    ");
                    k2 += 1;
                    proof {
                        assert(before + spaces(k2 - 1) + "    "@ =~= before + spaces(k2 as int));
                    }
                }
                out.append("\\__ right: NONE\n");
                proof {
                    assert(before + spaces(indent as int) + "\\__ right: NONE\n"@ =~= before
                        + render_none(indent as int, false));
                }
            },
        }
        proof {
            assert(out@ =~= spec_render(**node, indent as int, tag@));
        }
        out
    }
}


/// An ordered set keyed by the values' own comparison.
pub struct Bstree<T> {
    root: Option<Box<BstreeNode<T>>>,
}

impl<T: Ord> Bstree<T> {
    /// The set of stored values.
    pub closed spec fn vals(&self) -> Set<T> {
        sub_tree_vals(self.root)
    }

    /// The search-tree order holds throughout.
    pub closed spec fn wf(&self) -> bool {
        sub_tree_wf(self.root)
    }

    /// The text `render` produces: the rendered root subtree, or NONE
    /// for an empty tree.
    pub closed spec fn spec_rendered(&self) -> Seq<char>
        where T: Labeled
    {
        match self.root {
            Option::Some(r) => spec_render(*r, 0, "root"@),
            Option::None => "NONE\n"@,
        }
    }

    /// Whether the tree is shallow enough to render with bounded
    /// indentation counters.
    pub closed spec fn render_fits(&self) -> bool {
        match self.root {
            Option::Some(r) => node_height(*r) <= i32::MAX,
            Option::None => true,
        }
    }

    /// Makes an empty tree.
    pub fn new() -> (r: Self)
        ensures
            r.wf(),
            r.vals() =~= Set::<T>::empty(),
    {
        let r = Bstree { root: None };
        proof {
            assert(sub_tree_vals(r.root) =~= Set::<T>::empty());
        }
        r
    }

    /// Inserts a value; returns false, changing nothing, when an equal
    /// value is already stored.
    pub fn insert(&mut self, val: T) -> (r: bool)
        requires
            obeys_cmp::<T>(),
            old(self).wf(),
        ensures
            final(self).wf(),
            r == !set_has_equiv(old(self).vals(), val),
            r ==> final(self).vals() =~= old(self).vals().insert(val),
            !r ==> final(self).vals() == old(self).vals(),
    {
        BstreeNode::insert(&mut self.root, val)
    }

    /// Whether a value comparing equal to `val` is stored.
    pub fn exist(&self, val: &T) -> (r: bool)
        requires
            obeys_cmp::<T>(),
            self.wf(),
        ensures
            r == set_has_equiv(self.vals(), *val),
    {
        BstreeNode::in_sub_tree(&self.root, val)
    }

    /// Removes the value comparing equal to `val`, if one is stored.
    pub fn delete(&mut self, val: &T) -> (r: bool)
        requires
            obeys_cmp::<T>(),
            old(self).wf(),
        ensures
            final(self).wf(),
            r == set_has_equiv(old(self).vals(), *val),
            r ==> exists|x: T|
                {
                    &&& #[trigger] old(self).vals().contains(x)
                    &&& val.cmp_spec(&x) == Ordering::Equal
                    &&& final(self).vals() == old(self).vals().remove(x)
                },
            !r ==> final(self).vals() == old(self).vals(),
    {
        BstreeNode::delete(&mut self.root, val)
    }

    /// Renders the whole tree, the root tagged as such, or the text NONE
    /// for an empty tree.
    pub fn render(&self) -> (out: String)
        where T: Labeled
        requires
            self.render_fits(),
        ensures
            out@ == self.spec_rendered(),
    {
        match &self.root {
            Some(r) => BstreeNode::print_sub_tree(r, 0, "root"),
            None => String::from_str("NONE\n"),
        }
    }
}

} // verus!
