use vstd::prelude::*;

use crate::try_alloc::rbtree::key::{KeyOrder, TreeKey};
use crate::try_alloc::AllocError;

verus! {

/// The color of a node.
#[derive(Debug, Clone, Copy, PartialEq, Eq, Structural)]
pub enum NodeColor {
    Black,
    Red,
}

/// A key and its value.
pub struct Entry<K, V> {
    pub key: K,
    pub value: V,
}

/// A node of the tree: its entry, its color and its two subtrees.
pub struct RBNode<K, V> {
    pub entry: Entry<K, V>,
    pub color: NodeColor,
    pub left: Option<Box<RBNode<K, V>>>,
    pub right: Option<Box<RBNode<K, V>>>,
}

/// The entries of a subtree as a map.
pub open spec fn map_of<K, V>(t: Option<Box<RBNode<K, V>>>) -> Map<K, V>
    decreases t,
{
    match t {
        None => Map::empty(),
        Some(n) => map_of(n.left).union_prefer_right(map_of(n.right)).insert(n.entry.key, n.entry.value),
    }
}

/// Every key of the map ranks below `r`.
pub open spec fn all_below<K: TreeKey, V>(m: Map<K, V>, r: int) -> bool {
    forall|k: K| #[trigger] m.dom().contains(k) ==> k.rank() < r
}

/// Every key of the map ranks above `r`.
pub open spec fn all_above<K: TreeKey, V>(m: Map<K, V>, r: int) -> bool {
    forall|k: K| #[trigger] m.dom().contains(k) ==> k.rank() > r
}

/// A search tree: in every node, the keys on the left rank below the
/// node's key and those on the right above it.
pub open spec fn bst<K: TreeKey, V>(t: Option<Box<RBNode<K, V>>>) -> bool
    decreases t,
{
    match t {
        None => true,
        Some(n) => {
            &&& bst(n.left)
            &&& bst(n.right)
            &&& all_below(map_of(n.left), n.entry.key.rank())
            &&& all_above(map_of(n.right), n.entry.key.rank())
        },
    }
}

/// The color of a subtree's root; an empty subtree is black.
pub open spec fn color_of<K, V>(t: Option<Box<RBNode<K, V>>>) -> NodeColor {
    match t {
        None => NodeColor::Black,
        Some(n) => n.color,
    }
}

fn is_red<K, V>(t: &Option<Box<RBNode<K, V>>>) -> (r: bool)
    ensures
        r == (color_of(*t) == NodeColor::Red),
{
    match t {
        Some(n) => n.color == NodeColor::Red,
        None => false,
    }
}

impl<K: TreeKey, V> RBNode<K, V> {
    /// A node holding `entry`, outside any tree.
    pub fn new_detach(entry: Entry<K, V>) -> (n: Box<RBNode<K, V>>)
        ensures
            n.entry == entry,
            n.color == NodeColor::Black,
            n.left is None,
            n.right is None,
    {
        Box::new(RBNode { entry, color: NodeColor::Black, left: None, right: None })
    }
}

/// Rotates left around `x`:
///
/// ```txt
///     X                 Y
///    / \               / \
///   A   Y     ===>    X   C
///      / \           / \
///     B   C         A   B
/// ```
fn rotate_left<K: TreeKey, V>(x: Box<RBNode<K, V>>) -> (r: Box<RBNode<K, V>>)
    requires
        bst(Some(x)),
        x.right is Some,
    ensures
        bst(Some(r)),
        map_of(Some(r)) == map_of(Some(x)),
        r.entry == x.right.unwrap().entry,
        r.color == x.right.unwrap().color,
        r.right == x.right.unwrap().right,
        r.left matches Some(l) && l.entry == x.entry && l.color == x.color && l.left == x.left && l.right
            == x.right.unwrap().left,
{
    let ghost old_x = x;
    let mut x = x;
    let mut y = match x.right {
        Some(y) => y,
        None => {
            proof {
                assert(false);
            }
            return x;
        },
    };
    let ghost a = old_x.left;
    let ghost b = y.left;
    let ghost c = y.right;
    let ghost yo = y;
    proof {
        assert(old_x.right == Some(yo));
        assert(bst(Some(yo)));
        assert(map_of(old_x.right) == map_of(b).union_prefer_right(map_of(c)).insert(yo.entry.key, yo.entry.value));
        assert(all_above(map_of(old_x.right), old_x.entry.key.rank()));
        assert(all_below(map_of(b), yo.entry.key.rank()));
        assert(all_above(map_of(c), yo.entry.key.rank()));
        assert(map_of(old_x.right).dom().contains(yo.entry.key));
    }
    x.right = y.left;
    y.left = None;
    proof {
        assert(bst(Some(x))) by {
            assert forall|k: K| #[trigger] map_of(b).dom().contains(k) implies k.rank() > x.entry.key.rank() by {
                assert(map_of(old_x.right).dom().contains(k));
            }
        }
        assert(map_of(Some(x)) =~= map_of(a).union_prefer_right(map_of(b)).insert(x.entry.key, x.entry.value));
    }
    y.left = Some(x);
    proof {
        let yk = y.entry.key.rank();
        assert(all_below(map_of(y.left), yk)) by {
            assert forall|k: K| #[trigger] map_of(y.left).dom().contains(k) implies k.rank() < yk by {
                assert(map_of(y.left) == map_of(a).union_prefer_right(map_of(b)).insert(old_x.entry.key, old_x.entry.value));
                if map_of(a).dom().contains(k) {
                    assert(k.rank() < old_x.entry.key.rank());
                } else if map_of(b).dom().contains(k) {
                } else {
                    assert(k == old_x.entry.key);
                }
            }
        }
        assert(map_of(Some(y)) =~= map_of(Some(old_x)));
    }
    y
}

/// Rotates right around `x`:
///
/// ```txt
///      X                 Y
///     / \               / \
///    Y   C    ===>     A   X
///   / \                   / \
///  A   B                 B   C
/// ```
fn rotate_right<K: TreeKey, V>(x: Box<RBNode<K, V>>) -> (r: Box<RBNode<K, V>>)
    requires
        bst(Some(x)),
        x.left is Some,
    ensures
        bst(Some(r)),
        map_of(Some(r)) == map_of(Some(x)),
        r.entry == x.left.unwrap().entry,
        r.color == x.left.unwrap().color,
        r.left == x.left.unwrap().left,
        r.right matches Some(l) && l.entry == x.entry && l.color == x.color && l.right == x.right && l.left
            == x.left.unwrap().right,
{
    let ghost old_x = x;
    let mut x = x;
    let mut y = match x.left {
        Some(y) => y,
        None => {
            proof {
                assert(false);
            }
            return x;
        },
    };
    let ghost a = y.left;
    let ghost b = y.right;
    let ghost c = old_x.right;
    let ghost yo = y;
    proof {
        assert(old_x.left == Some(yo));
        assert(bst(Some(yo)));
        assert(map_of(old_x.left) == map_of(a).union_prefer_right(map_of(b)).insert(yo.entry.key, yo.entry.value));
        assert(all_below(map_of(old_x.left), old_x.entry.key.rank()));
        assert(all_below(map_of(a), yo.entry.key.rank()));
        assert(all_above(map_of(b), yo.entry.key.rank()));
        assert(map_of(old_x.left).dom().contains(yo.entry.key));
    }
    x.left = y.right;
    y.right = None;
    proof {
        assert(bst(Some(x))) by {
            assert forall|k: K| #[trigger] map_of(b).dom().contains(k) implies k.rank() < x.entry.key.rank() by {
                assert(map_of(old_x.left).dom().contains(k));
            }
        }
        assert(map_of(Some(x)) =~= map_of(b).union_prefer_right(map_of(c)).insert(x.entry.key, x.entry.value));
    }
    y.right = Some(x);
    proof {
        let yk = y.entry.key.rank();
        assert(all_above(map_of(y.right), yk)) by {
            assert forall|k: K| #[trigger] map_of(y.right).dom().contains(k) implies k.rank() > yk by {
                assert(map_of(y.right) == map_of(b).union_prefer_right(map_of(c)).insert(old_x.entry.key, old_x.entry.value));
                if map_of(c).dom().contains(k) {
                    assert(k.rank() > old_x.entry.key.rank());
                } else if map_of(b).dom().contains(k) {
                } else {
                    assert(k == old_x.entry.key);
                }
            }
        }
        assert(map_of(Some(y)) =~= map_of(Some(old_x)));
    }
    y
}

/// The subtree with its root recolored.
fn set_color<K: TreeKey, V>(t: Option<Box<RBNode<K, V>>>, c: NodeColor) -> (r: Option<Box<RBNode<K, V>>>)
    requires
        bst(t),
    ensures
        bst(r),
        map_of(r) == map_of(t),
        r is Some <==> t is Some,
        t is Some ==> color_of(r) == c,
        t matches Some(n) ==> r matches Some(m) && m.entry == n.entry && m.left == n.left && m.right == n.right,
{
    match t {
        Some(mut n) => {
            n.color = c;
            Some(n)
        },
        None => None,
    }
}

proof fn lemma_bst_parts<K: TreeKey, V>(n: Box<RBNode<K, V>>)
    requires
        bst(Some(n)),
    ensures
        bst(n.left),
        bst(n.right),
        all_below(map_of(n.left), n.entry.key.rank()),
        all_above(map_of(n.right), n.entry.key.rank()),
        map_of(Some(n)) == map_of(n.left).union_prefer_right(map_of(n.right)).insert(n.entry.key, n.entry.value),
{
}

/// A red child `side` of `g` that has a red child of its own.
pub open spec fn red_red<K, V>(c: Option<Box<RBNode<K, V>>>) -> bool {
    c matches Some(p) && p.color == NodeColor::Red && (color_of(p.left) == NodeColor::Red || color_of(p.right)
        == NodeColor::Red)
}

/// The black nodes on the leftmost path down a subtree.
pub open spec fn black_height<K, V>(t: Option<Box<RBNode<K, V>>>) -> nat
    decreases t,
{
    match t {
        None => 0,
        Some(n) => black_height(n.left) + if n.color == NodeColor::Black {
            1nat
        } else {
            0nat
        },
    }
}

/// A red-black subtree: no red node has a red child, and the two subtrees
/// of every node have the same black height, so every path down meets as
/// many black nodes.
pub open spec fn rb<K, V>(t: Option<Box<RBNode<K, V>>>) -> bool
    decreases t,
{
    match t {
        None => true,
        Some(n) => {
            &&& rb(n.left)
            &&& rb(n.right)
            &&& black_height(n.left) == black_height(n.right)
            &&& n.color == NodeColor::Red ==> color_of(n.left) == NodeColor::Black && color_of(n.right)
                == NodeColor::Black
        },
    }
}

/// The nodes on the longest path down a subtree.
pub open spec fn depth<K, V>(t: Option<Box<RBNode<K, V>>>) -> nat
    decreases t,
{
    match t {
        None => 0,
        Some(n) => 1 + if depth(n.left) >= depth(n.right) {
            depth(n.left)
        } else {
            depth(n.right)
        },
    }
}

/// A red-black subtree is balanced: no path down is longer than twice its
/// black height, plus one for a red root.
pub proof fn lemma_red_black_depth<K, V>(t: Option<Box<RBNode<K, V>>>)
    requires
        rb(t),
    ensures
        depth(t) <= 2 * black_height(t) + if color_of(t) == NodeColor::Red {
            1int
        } else {
            0int
        },
    decreases t,
{
    if let Some(n) = t {
        lemma_red_black_depth(n.left);
        lemma_red_black_depth(n.right);
    }
}

/// Red-black below the root: the two subtrees are red-black with the same
/// black height; the root may be a red node with a red child.
pub open spec fn rb_below<K, V>(n: Box<RBNode<K, V>>) -> bool {
    &&& rb(n.left)
    &&& rb(n.right)
    &&& black_height(n.left) == black_height(n.right)
}

/// A red root keeps a black child: an insertion below a red node reddens at
/// most one of its children.
pub open spec fn one_black_child<K, V>(t: Option<Box<RBNode<K, V>>>) -> bool {
    t matches Some(p) ==> (p.color == NodeColor::Red ==> color_of(p.left) == NodeColor::Black || color_of(p.right)
        == NodeColor::Black)
}

/// Restores the colors at `g` after an insertion below its left child: a red
/// child of a red left child is resolved by recoloring when the uncle is red,
/// else by rotations.
fn insert_fixup_left<K: TreeKey, V>(g: Box<RBNode<K, V>>) -> (r: Box<RBNode<K, V>>)
    requires
        bst(Some(g)),
    ensures
        red_red(g.left) && g.color == NodeColor::Black && rb(g.right) && black_height(g.left) == black_height(
            g.right,
        ) && rb_below(g.left.unwrap()) && one_black_child(g.left) ==> rb(Some(r)) && black_height(Some(r))
            == black_height(Some(g)),
        bst(Some(r)),
        map_of(Some(r)) == map_of(Some(g)),
        !red_red(g.left) ==> r == g,
        red_red(g.left) && color_of(g.right) == NodeColor::Red ==> r.entry == g.entry && r.color == NodeColor::Red
            && color_of(r.left) == NodeColor::Black && color_of(r.right) == NodeColor::Black,
        red_red(g.left) && color_of(g.right) == NodeColor::Black ==> r.color == NodeColor::Black && color_of(r.left)
            == NodeColor::Red && color_of(r.right) == NodeColor::Red,
{
    let ghost gi = g;
    let ghost ok = red_red(gi.left) && gi.color == NodeColor::Black && rb(gi.right) && black_height(gi.left)
        == black_height(gi.right) && rb_below(gi.left.unwrap()) && one_black_child(gi.left);
    let mut g = g;
    let p_red = is_red(&g.left);
    if !p_red {
        return g;
    }
    let (pl_red, pr_red) = match &g.left {
        Some(p) => (is_red(&p.left), is_red(&p.right)),
        None => (false, false),
    };
    if !pl_red && !pr_red {
        return g;
    }
    proof {
        lemma_bst_parts(g);
    }
    let ghost p0 = gi.left.unwrap();
    if is_red(&g.right) {
        let ghost u0 = gi.right.unwrap();
        g.left = set_color(g.left, NodeColor::Black);
        g.right = set_color(g.right, NodeColor::Black);
        g.color = NodeColor::Red;
        proof {
            if ok {
                let p1 = g.left.unwrap();
                let u1 = g.right.unwrap();
                assert(rb(Some(p1)));
                assert(black_height(Some(p1)) == black_height(p0.left) + 1);
                assert(rb(Some(u1)));
                assert(black_height(Some(u1)) == black_height(u0.left) + 1);
                assert(black_height(gi.left) == black_height(p0.left));
                assert(black_height(gi.right) == black_height(u0.left));
                assert(rb(Some(g)));
            }
        }
        return g;
    }
    if pr_red {
        let ghost g0 = g;
        let p = match g.left {
            Some(p) => p,
            None => {
                proof {
                    assert(false);
                }
                return g;
            },
        };
        let p2 = rotate_left(p);
        g.left = Some(p2);
        proof {
            assert(map_of(g.left) == map_of(g0.left));
        }
    }
    let ghost g1 = g;
    proof {
        assert(color_of(g.left.unwrap().left) == NodeColor::Red);
        if ok {
            let pp = g1.left.unwrap();
            let q = pp.left;
            let c = pp.right;
            let u = gi.right;
            if pr_red {
                let qq = p0.right.unwrap();
                let x = q.unwrap();
                assert(color_of(p0.left) == NodeColor::Black);
                assert(rb(Some(qq)));
                assert(black_height(p0.right) == black_height(qq.left));
                assert(rb(q));
                assert(black_height(q) == black_height(p0.left));
                assert(c == qq.right);
                assert(rb(c) && color_of(c) == NodeColor::Black);
                assert(black_height(c) == black_height(qq.left));
            } else {
                assert(q == p0.left);
                assert(c == p0.right);
                assert(color_of(c) == NodeColor::Black);
            }
            assert(rb(q) && rb(c) && color_of(c) == NodeColor::Black);
            assert(black_height(q) == black_height(c));
            assert(black_height(c) == black_height(u));
            assert(black_height(q) + 1 == black_height(Some(gi)));
        }
    }
    g.left = set_color(g.left, NodeColor::Black);
    g.color = NodeColor::Red;
    if g.left.is_some() {
        let r = rotate_right(g);
        proof {
            if ok {
                let pp = g1.left.unwrap();
                let l = r.right.unwrap();
                assert(rb(Some(l)));
                assert(black_height(Some(l)) == black_height(pp.right));
                assert(rb(Some(r)));
            }
        }
        r
    } else {
        g
    }
}

/// Restores the colors at `g` after an insertion below its right child.
fn insert_fixup_right<K: TreeKey, V>(g: Box<RBNode<K, V>>) -> (r: Box<RBNode<K, V>>)
    requires
        bst(Some(g)),
    ensures
        red_red(g.right) && g.color == NodeColor::Black && rb(g.left) && black_height(g.left) == black_height(
            g.right,
        ) && rb_below(g.right.unwrap()) && one_black_child(g.right) ==> rb(Some(r)) && black_height(Some(r))
            == black_height(Some(g)),
        bst(Some(r)),
        map_of(Some(r)) == map_of(Some(g)),
        !red_red(g.right) ==> r == g,
        red_red(g.right) && color_of(g.left) == NodeColor::Red ==> r.entry == g.entry && r.color == NodeColor::Red
            && color_of(r.left) == NodeColor::Black && color_of(r.right) == NodeColor::Black,
        red_red(g.right) && color_of(g.left) == NodeColor::Black ==> r.color == NodeColor::Black && color_of(r.left)
            == NodeColor::Red && color_of(r.right) == NodeColor::Red,
{
    let ghost gi = g;
    let ghost ok = red_red(gi.right) && gi.color == NodeColor::Black && rb(gi.left) && black_height(gi.left)
        == black_height(gi.right) && rb_below(gi.right.unwrap()) && one_black_child(gi.right);
    let mut g = g;
    let p_red = is_red(&g.right);
    if !p_red {
        return g;
    }
    let (pl_red, pr_red) = match &g.right {
        Some(p) => (is_red(&p.left), is_red(&p.right)),
        None => (false, false),
    };
    if !pl_red && !pr_red {
        return g;
    }
    proof {
        lemma_bst_parts(g);
    }
    let ghost p0 = gi.right.unwrap();
    if is_red(&g.left) {
        let ghost u0 = gi.left.unwrap();
        g.left = set_color(g.left, NodeColor::Black);
        g.right = set_color(g.right, NodeColor::Black);
        g.color = NodeColor::Red;
        proof {
            if ok {
                let p1 = g.right.unwrap();
                let u1 = g.left.unwrap();
                assert(rb(Some(p1)));
                assert(black_height(Some(p1)) == black_height(p0.left) + 1);
                assert(rb(Some(u1)));
                assert(black_height(Some(u1)) == black_height(u0.left) + 1);
                assert(black_height(gi.right) == black_height(p0.left));
                assert(black_height(gi.left) == black_height(u0.left));
                assert(rb(Some(g)));
            }
        }
        return g;
    }
    if pl_red {
        let ghost g0 = g;
        let p = match g.right {
            Some(p) => p,
            None => {
                proof {
                    assert(false);
                }
                return g;
            },
        };
        let p2 = rotate_right(p);
        g.right = Some(p2);
        proof {
            assert(map_of(g.right) == map_of(g0.right));
        }
    }
    let ghost g1 = g;
    proof {
        assert(color_of(g.right.unwrap().right) == NodeColor::Red);
        if ok {
            let pp = g1.right.unwrap();
            let q = pp.right;
            let c = pp.left;
            let u = gi.left;
            if pl_red {
                let qq = p0.left.unwrap();
                assert(color_of(p0.right) == NodeColor::Black);
                assert(rb(Some(qq)));
                assert(black_height(p0.left) == black_height(qq.left));
                assert(black_height(qq.right) == black_height(qq.left));
                assert(rb(q));
                assert(black_height(q) == black_height(qq.right));
                assert(c == qq.left);
                assert(rb(c) && color_of(c) == NodeColor::Black);
            } else {
                assert(q == p0.right);
                assert(c == p0.left);
                assert(color_of(c) == NodeColor::Black);
            }
            assert(rb(q) && rb(c) && color_of(c) == NodeColor::Black);
            assert(black_height(q) == black_height(c));
            assert(black_height(c) == black_height(u));
            assert(black_height(c) + 1 == black_height(Some(gi)));
        }
    }
    g.right = set_color(g.right, NodeColor::Black);
    g.color = NodeColor::Red;
    if g.right.is_some() {
        let r = rotate_left(g);
        proof {
            if ok {
                let pp = g1.right.unwrap();
                let l = r.left.unwrap();
                assert(rb(Some(l)));
                assert(black_height(Some(l)) == black_height(gi.left));
                assert(rb(Some(r)));
            }
        }
        r
    } else {
        g
    }
}

/// Inserts `key` with `value` into a subtree, as a red leaf or over the
/// entry of the same key, and restores the colors on the way up. Returns the
/// value the key had.
fn insert_node<K: TreeKey, V>(t: Option<Box<RBNode<K, V>>>, key: K, value: V) -> (r: (Box<RBNode<K, V>>, Option<V>))
    requires
        bst(t),
    ensures
        bst(Some(r.0)),
        map_of(Some(r.0)) == map_of(t).insert(key, value),
        r.1 == (if map_of(t).dom().contains(key) {
            Some(map_of(t)[key])
        } else {
            None
        }),
        rb(t) ==> rb_below(r.0) && black_height(Some(r.0)) == black_height(t) && one_black_child(Some(r.0)),
        rb(t) && color_of(t) == NodeColor::Black ==> rb(Some(r.0)),
    decreases t,
{
    match t {
        None => {
            let n = Box::new(RBNode { entry: Entry { key, value }, color: NodeColor::Red, left: None, right: None });
            proof {
                assert(map_of(n.left) == Map::<K, V>::empty());
                assert(map_of(n.right) == Map::<K, V>::empty());
                assert(Map::<K, V>::empty().union_prefer_right(Map::<K, V>::empty()) =~= Map::<K, V>::empty());
                assert(map_of(Some(n)) =~= Map::<K, V>::empty().insert(key, value));
            }
            (n, None)
        },
        Some(n) => {
            let mut n = n;
            let ghost n0 = n;
            proof {
                lemma_bst_parts(n0);
            }
            match key.compare(&n.entry.key) {
                KeyOrder::Less => {
                    let left = n.left;
                    let (l2, old) = insert_node(left, key, value);
                    n.left = Some(l2);
                    proof {
                        assert(!map_of(n0.right).dom().contains(key));
                        assert(key != n0.entry.key);
                        assert(all_below(map_of(n.left), n.entry.key.rank()));
                        assert(map_of(Some(n)) =~= map_of(Some(n0)).insert(key, value));
                        if rb(t) {
                            if !red_red(n.left) {
                                assert(rb(Some(l2)));
                            }
                            if n0.color == NodeColor::Red {
                                assert(rb(Some(l2)));
                                assert(!red_red(n.left));
                            }
                        }
                    }
                    let r = insert_fixup_left(n);
                    proof {
                        if rb(t) && !red_red(n.left) {
                            assert(r == n);
                            assert(rb_below(r));
                        }
                    }
                    (r, old)
                },
                KeyOrder::Greater => {
                    let right = n.right;
                    let (r2, old) = insert_node(right, key, value);
                    n.right = Some(r2);
                    proof {
                        assert(!map_of(n0.left).dom().contains(key));
                        assert(key != n0.entry.key);
                        assert(all_above(map_of(n.right), n.entry.key.rank()));
                        assert(map_of(Some(n)) =~= map_of(Some(n0)).insert(key, value));
                        if rb(t) {
                            if !red_red(n.right) {
                                assert(rb(Some(r2)));
                            }
                            if n0.color == NodeColor::Red {
                                assert(rb(Some(r2)));
                                assert(!red_red(n.right));
                            }
                        }
                    }
                    let r = insert_fixup_right(n);
                    proof {
                        if rb(t) && !red_red(n.right) {
                            assert(r == n);
                            assert(rb_below(r));
                        }
                    }
                    (r, old)
                },
                KeyOrder::Equal => {
                    proof {
                        K::lemma_rank_injective(key, n.entry.key);
                        assert(!map_of(n0.left).dom().contains(key));
                        assert(!map_of(n0.right).dom().contains(key));
                    }
                    let old = n.entry.value;
                    n.entry = Entry { key, value };
                    proof {
                        assert(map_of(Some(n)) =~= map_of(Some(n0)).insert(key, value));
                    }
                    (n, Some(old))
                },
            }
        },
    }
}

/// The left side of `n` lacks a black node: both sides are red-black, the
/// left one black-rooted and one black node short of the right one, and a
/// red `n` has a black right child.
pub open spec fn short_left<K, V>(n: Box<RBNode<K, V>>) -> bool {
    &&& rb(n.left)
    &&& rb(n.right)
    &&& color_of(n.left) == NodeColor::Black
    &&& black_height(n.left) + 1 == black_height(n.right)
    &&& n.color == NodeColor::Red ==> color_of(n.right) == NodeColor::Black
}

/// The mirror of [`short_left`]: the right side of `n` lacks a black node.
pub open spec fn short_right<K, V>(n: Box<RBNode<K, V>>) -> bool {
    &&& rb(n.left)
    &&& rb(n.right)
    &&& color_of(n.right) == NodeColor::Black
    &&& black_height(n.right) + 1 == black_height(n.left)
    &&& n.color == NodeColor::Red ==> color_of(n.left) == NodeColor::Black
}

/// `r` may stand where a red-black subtree of black height `h` and root
/// color `c` stood before a removal: it is red-black, black-rooted and one
/// black node short when `short`, else of black height `h`, and red-rooted
/// only where `c` was red.
pub open spec fn removed_ok<K, V>(r: Option<Box<RBNode<K, V>>>, short: bool, h: nat, c: NodeColor) -> bool {
    &&& rb(r)
    &&& black_height(r) + (if short {
        1nat
    } else {
        0nat
    }) == h
    &&& short ==> color_of(r) == NodeColor::Black
    &&& color_of(r) == NodeColor::Red ==> c == NodeColor::Red
}

/// The black height of a subtree whose right side has black height `h`
/// and whose root has color `c`.
pub open spec fn height_over<K, V>(n: Box<RBNode<K, V>>, h: nat) -> nat {
    h + if n.color == NodeColor::Black {
        1nat
    } else {
        0nat
    }
}

/// What the removal fixup does at `n` whose left side lost a black node and
/// whose right child, the sibling, is black: without a sibling nothing, and
/// the lack goes up; a sibling with two black children turns red, and the
/// lack is made up by `n` turning black if it was red, else goes up; a
/// sibling with a red child is rotated up, takes `n`'s color and gets two
/// black children, and the lack is made up.
pub open spec fn fixed_left_black<K, V>(n: Box<RBNode<K, V>>, r: (Box<RBNode<K, V>>, bool)) -> bool {
    match n.right {
        None => r.0 == n && r.1,
        Some(s) => if color_of(s.left) == NodeColor::Black && color_of(s.right) == NodeColor::Black {
            &&& r.1 == (n.color == NodeColor::Black)
            &&& r.0.entry == n.entry
            &&& r.0.left == n.left
            &&& r.0.color == NodeColor::Black
            &&& r.0.right matches Some(s2) && s2.entry == s.entry && s2.left == s.left && s2.right == s.right
                && s2.color == NodeColor::Red
        } else {
            &&& !r.1
            &&& r.0.color == n.color
            &&& color_of(r.0.left) == NodeColor::Black
            &&& color_of(r.0.right) == NodeColor::Black
        },
    }
}

/// The mirror of [`fixed_left_black`], for a lack on the right side.
pub open spec fn fixed_right_black<K, V>(n: Box<RBNode<K, V>>, r: (Box<RBNode<K, V>>, bool)) -> bool {
    match n.left {
        None => r.0 == n && r.1,
        Some(s) => if color_of(s.left) == NodeColor::Black && color_of(s.right) == NodeColor::Black {
            &&& r.1 == (n.color == NodeColor::Black)
            &&& r.0.entry == n.entry
            &&& r.0.right == n.right
            &&& r.0.color == NodeColor::Black
            &&& r.0.left matches Some(s2) && s2.entry == s.entry && s2.left == s.left && s2.right == s.right
                && s2.color == NodeColor::Red
        } else {
            &&& !r.1
            &&& r.0.color == n.color
            &&& color_of(r.0.left) == NodeColor::Black
            &&& color_of(r.0.right) == NodeColor::Black
        },
    }
}

/// Cases 2 to 4 of the removal fixup when the left side of `n` lost a black
/// node and its right child (the sibling) is black. Returns whether the
/// subtree still lacks a black node.
fn delete_fixup_left_black<K: TreeKey, V>(n: Box<RBNode<K, V>>) -> (r: (Box<RBNode<K, V>>, bool))
    requires
        bst(Some(n)),
    ensures
        bst(Some(r.0)),
        map_of(Some(r.0)) == map_of(Some(n)),
        fixed_left_black(n, r),
        short_left(n) && color_of(n.right) == NodeColor::Black ==> removed_ok(
            Some(r.0),
            r.1,
            height_over(n, black_height(n.right)),
            n.color,
        ) && (r.1 ==> n.color == NodeColor::Black),
{
    let ghost ok = short_left(n) && color_of(n.right) == NodeColor::Black;
    let mut n = n;
    let ghost n0 = n;
    proof {
        lemma_bst_parts(n0);
    }
    let mut s = match n.right {
        Some(s) => s,
        None => return (n, true),
    };
    let ghost s0 = s;
    proof {
        lemma_bst_parts(s);
    }
    if !is_red(&s.left) && !is_red(&s.right) {
        s.color = NodeColor::Red;
        proof {
            lemma_bst_parts(s0);
            assert(map_of(Some(s)) =~= map_of(Some(s0)));
            assert(bst(Some(s)));
        }
        n.right = Some(s);
        proof {
            assert(map_of(Some(n)) =~= map_of(Some(n0)));
        }
        proof {
            if ok {
                assert(rb(Some(s)));
                assert(black_height(Some(s)) == black_height(n0.left));
            }
        }
        if n.color == NodeColor::Red {
            n.color = NodeColor::Black;
            proof {
                if ok {
                    assert(rb(Some(n)));
                }
            }
            return (n, false);
        }
        proof {
            if ok {
                assert(rb(Some(n)));
            }
        }
        return (n, true);
    }
    let ghost right_red = color_of(s.right) == NodeColor::Red;
    if is_red(&s.left) && !is_red(&s.right) {
        let ghost sl = s0.left.unwrap();
        s.color = NodeColor::Red;
        s.left = set_color(s.left, NodeColor::Black);
        proof {
            assert(map_of(Some(s)) =~= map_of(Some(s0)));
            assert(bst(Some(s)));
        }
        if s.left.is_some() {
            s = rotate_right(s);
        }
        proof {
            if ok {
                let h = black_height(n0.left);
                assert(black_height(s0.left) == h);
                assert(black_height(s0.right) == h);
                assert(rb(Some(sl)));
                assert(black_height(sl.left) == h);
                assert(black_height(sl.right) == h);
                assert(s.left == sl.left);
                let x = s.right.unwrap();
                assert(x.left == sl.right && x.right == s0.right && x.color == NodeColor::Red);
            }
        }
    }
    let ghost s1 = s;
    proof {
        lemma_bst_parts(s1);
        if ok {
            let h = black_height(n0.left);
            if right_red {
                assert(s1 == s0);
                assert(black_height(s0.left) == h);
                assert(black_height(s0.right) == h);
                let x0 = s0.right.unwrap();
                assert(rb(Some(x0)));
                assert(black_height(Some(x0)) == black_height(x0.left));
            } else {
                let sl = s0.left.unwrap();
                assert(rb(Some(sl)));
                assert(rb(s0.right));
            }
            let x = s1.right.unwrap();
            assert(rb(s1.left) && black_height(s1.left) == h);
            assert(rb(x.left) && rb(x.right) && black_height(x.left) == h && black_height(x.right) == h);
        }
    }
    s.color = n.color;
    s.right = set_color(s.right, NodeColor::Black);
    proof {
        assert(map_of(Some(s)) =~= map_of(Some(s1)));
        assert(bst(Some(s)));
        assert(map_of(Some(s)) == map_of(Some(s0)));
    }
    n.color = NodeColor::Black;
    n.right = Some(s);
    proof {
        assert(map_of(Some(n)) =~= map_of(Some(n0)));
    }
    let top = rotate_left(n);
    proof {
        if ok {
            let h = black_height(n0.left);
            let l = top.left.unwrap();
            let rr = top.right.unwrap();
            let x = s1.right.unwrap();
            assert(l.left == n0.left && l.right == s1.left && l.color == NodeColor::Black);
            assert(rb(Some(l)));
            assert(black_height(Some(l)) == h + 1);
            assert(rr.left == x.left && rr.right == x.right && rr.color == NodeColor::Black);
            assert(rb(Some(rr)));
            assert(black_height(Some(rr)) == h + 1);
            assert(rb(Some(top)));
        }
    }
    (top, false)
}

/// Restores the colors at `n` after its left side lost a black node: a red
/// sibling is first rotated up (case 1), then cases 2 to 4 apply. Returns
/// whether the subtree still lacks a black node.
fn delete_fixup_left<K: TreeKey, V>(n: Box<RBNode<K, V>>) -> (r: (Box<RBNode<K, V>>, bool))
    requires
        bst(Some(n)),
    ensures
        bst(Some(r.0)),
        map_of(Some(r.0)) == map_of(Some(n)),
        color_of(n.right) == NodeColor::Black ==> fixed_left_black(n, r),
        n.right matches Some(s) ==> (s.color == NodeColor::Red && s.left is Some ==> !r.1 && r.0.entry == s.entry
            && r.0.color == n.color && r.0.right == s.right),
        short_left(n) ==> removed_ok(Some(r.0), r.1, height_over(n, black_height(n.right)), n.color),
{
    if !is_red(&n.right) {
        return delete_fixup_left_black(n);
    }
    let ghost ok = short_left(n);
    let mut n = n;
    let ghost n0 = n;
    proof {
        lemma_bst_parts(n0);
    }
    n.right = set_color(n.right, n.color);
    n.color = NodeColor::Red;
    proof {
        assert(map_of(Some(n)) =~= map_of(Some(n0)));
    }
    let mut top = rotate_left(n);
    let ghost t0 = top;
    proof {
        lemma_bst_parts(t0);
    }
    match top.left {
        Some(l) => {
            proof {
                if ok {
                    let sib = n0.right.unwrap();
                    assert(rb(Some(sib)));
                    assert(l.left == n0.left && l.right == sib.left && l.color == NodeColor::Red);
                    assert(black_height(sib.left) == black_height(n0.right));
                    assert(short_left(l));
                }
            }
            let (l2, short) = delete_fixup_left_black(l);
            top.left = Some(l2);
            proof {
                assert(map_of(Some(top)) =~= map_of(Some(t0)));
                if ok {
                    let sib = n0.right.unwrap();
                    assert(!short);
                    assert(t0.right == sib.right);
                    assert(rb(sib.right));
                    assert(black_height(sib.right) == black_height(sib.left));
                    assert(black_height(Some(l2)) == black_height(sib.left));
                    assert(top.color == NodeColor::Black);
                    assert(rb(Some(top)));
                }
            }
            if short {
                delete_fixup_left_black(top)
            } else {
                (top, false)
            }
        },
        None => {
            proof {
                assert(map_of(Some(top)) =~= map_of(Some(t0)));
            }
            (top, true)
        },
    }
}

/// Cases 2 to 4 of the removal fixup when the right side of `n` lost a
/// black node and its left child (the sibling) is black.
fn delete_fixup_right_black<K: TreeKey, V>(n: Box<RBNode<K, V>>) -> (r: (Box<RBNode<K, V>>, bool))
    requires
        bst(Some(n)),
    ensures
        bst(Some(r.0)),
        map_of(Some(r.0)) == map_of(Some(n)),
        fixed_right_black(n, r),
        short_right(n) && color_of(n.left) == NodeColor::Black ==> removed_ok(
            Some(r.0),
            r.1,
            height_over(n, black_height(n.left)),
            n.color,
        ) && (r.1 ==> n.color == NodeColor::Black),
{
    let ghost ok = short_right(n) && color_of(n.left) == NodeColor::Black;
    let mut n = n;
    let ghost n0 = n;
    proof {
        lemma_bst_parts(n0);
    }
    let mut s = match n.left {
        Some(s) => s,
        None => return (n, true),
    };
    let ghost s0 = s;
    proof {
        lemma_bst_parts(s);
    }
    if !is_red(&s.left) && !is_red(&s.right) {
        s.color = NodeColor::Red;
        proof {
            lemma_bst_parts(s0);
            assert(map_of(Some(s)) =~= map_of(Some(s0)));
            assert(bst(Some(s)));
        }
        n.left = Some(s);
        proof {
            assert(map_of(Some(n)) =~= map_of(Some(n0)));
            if ok {
                assert(rb(Some(s)));
                assert(black_height(Some(s)) == black_height(n0.right));
            }
        }
        if n.color == NodeColor::Red {
            n.color = NodeColor::Black;
            proof {
                if ok {
                    assert(rb(Some(n)));
                }
            }
            return (n, false);
        }
        proof {
            if ok {
                assert(rb(Some(n)));
            }
        }
        return (n, true);
    }
    let ghost left_red = color_of(s.left) == NodeColor::Red;
    if is_red(&s.right) && !is_red(&s.left) {
        let ghost sr = s0.right.unwrap();
        s.color = NodeColor::Red;
        s.right = set_color(s.right, NodeColor::Black);
        proof {
            assert(map_of(Some(s)) =~= map_of(Some(s0)));
            assert(bst(Some(s)));
        }
        if s.right.is_some() {
            s = rotate_left(s);
        }
        proof {
            if ok {
                let h = black_height(n0.right);
                assert(black_height(s0.left) == h);
                assert(black_height(s0.right) == h);
                assert(rb(Some(sr)));
                assert(black_height(sr.left) == h);
                assert(black_height(sr.right) == h);
                assert(s.right == sr.right);
                let x = s.left.unwrap();
                assert(x.right == sr.left && x.left == s0.left && x.color == NodeColor::Red);
            }
        }
    }
    let ghost s1 = s;
    proof {
        lemma_bst_parts(s1);
        if ok {
            let h = black_height(n0.right);
            if left_red {
                assert(s1 == s0);
                assert(black_height(s0.left) == h);
                assert(black_height(s0.right) == h);
                let x0 = s0.left.unwrap();
                assert(rb(Some(x0)));
                assert(black_height(Some(x0)) == black_height(x0.left));
            } else {
                let sr = s0.right.unwrap();
                assert(rb(Some(sr)));
                assert(rb(s0.left));
            }
            let x = s1.left.unwrap();
            assert(rb(s1.right) && black_height(s1.right) == h);
            assert(rb(x.left) && rb(x.right) && black_height(x.left) == h && black_height(x.right) == h);
        }
    }
    s.color = n.color;
    s.left = set_color(s.left, NodeColor::Black);
    proof {
        assert(map_of(Some(s)) =~= map_of(Some(s1)));
        assert(bst(Some(s)));
        assert(map_of(Some(s)) == map_of(Some(s0)));
    }
    n.color = NodeColor::Black;
    n.left = Some(s);
    proof {
        assert(map_of(Some(n)) =~= map_of(Some(n0)));
    }
    let top = rotate_right(n);
    proof {
        if ok {
            let h = black_height(n0.right);
            let rr = top.right.unwrap();
            let l = top.left.unwrap();
            let x = s1.left.unwrap();
            assert(rr.right == n0.right && rr.left == s1.right && rr.color == NodeColor::Black);
            assert(rb(Some(rr)));
            assert(black_height(Some(rr)) == h + 1);
            assert(l.left == x.left && l.right == x.right && l.color == NodeColor::Black);
            assert(rb(Some(l)));
            assert(black_height(Some(l)) == h + 1);
            assert(rb(Some(top)));
        }
    }
    (top, false)
}

/// Restores the colors at `n` after its right side lost a black node.
fn delete_fixup_right<K: TreeKey, V>(n: Box<RBNode<K, V>>) -> (r: (Box<RBNode<K, V>>, bool))
    requires
        bst(Some(n)),
    ensures
        bst(Some(r.0)),
        map_of(Some(r.0)) == map_of(Some(n)),
        color_of(n.left) == NodeColor::Black ==> fixed_right_black(n, r),
        n.left matches Some(s) ==> (s.color == NodeColor::Red && s.right is Some ==> !r.1 && r.0.entry == s.entry
            && r.0.color == n.color && r.0.left == s.left),
        short_right(n) ==> removed_ok(Some(r.0), r.1, height_over(n, black_height(n.left)), n.color),
{
    if !is_red(&n.left) {
        return delete_fixup_right_black(n);
    }
    let ghost ok = short_right(n);
    let mut n = n;
    let ghost n0 = n;
    proof {
        lemma_bst_parts(n0);
    }
    n.left = set_color(n.left, n.color);
    n.color = NodeColor::Red;
    proof {
        assert(map_of(Some(n)) =~= map_of(Some(n0)));
    }
    let mut top = rotate_right(n);
    let ghost t0 = top;
    proof {
        lemma_bst_parts(t0);
    }
    match top.right {
        Some(rt) => {
            proof {
                if ok {
                    let sib = n0.left.unwrap();
                    assert(rb(Some(sib)));
                    assert(rt.right == n0.right && rt.left == sib.right && rt.color == NodeColor::Red);
                    assert(black_height(sib.right) == black_height(n0.left));
                    assert(short_right(rt));
                }
            }
            let (r2, short) = delete_fixup_right_black(rt);
            top.right = Some(r2);
            proof {
                assert(map_of(Some(top)) =~= map_of(Some(t0)));
                if ok {
                    let sib = n0.left.unwrap();
                    assert(!short);
                    assert(t0.left == sib.left);
                    assert(rb(sib.left));
                    assert(black_height(sib.right) == black_height(sib.left));
                    assert(black_height(Some(r2)) == black_height(sib.right));
                    assert(top.color == NodeColor::Black);
                    assert(rb(Some(top)));
                }
            }
            if short {
                delete_fixup_right_black(top)
            } else {
                (top, false)
            }
        },
        None => {
            proof {
                assert(map_of(Some(top)) =~= map_of(Some(t0)));
            }
            (top, true)
        },
    }
}

/// The subtree that replaces a removed node with one child `c`: a red child
/// turns black; else the subtree lacks a black node when the removed one was
/// black.
fn splice<K: TreeKey, V>(removed_color: NodeColor, c: Option<Box<RBNode<K, V>>>) -> (r: (Option<Box<RBNode<K, V>>>, bool))
    requires
        bst(c),
    ensures
        bst(r.0),
        map_of(r.0) == map_of(c),
        rb(c) && (removed_color == NodeColor::Red ==> color_of(c) == NodeColor::Black) ==> rb(r.0) && color_of(r.0)
            == NodeColor::Black && black_height(r.0) + (if r.1 {
            1nat
        } else {
            0nat
        }) == black_height(c) + (if removed_color == NodeColor::Black {
            1nat
        } else {
            0nat
        }),
{
    if removed_color == NodeColor::Black {
        if is_red(&c) {
            (set_color(c, NodeColor::Black), false)
        } else {
            (c, true)
        }
    } else {
        (c, false)
    }
}

/// Removes the least entry of a subtree and returns it.
fn delete_min<K: TreeKey, V>(n: Box<RBNode<K, V>>) -> (r: (Option<Box<RBNode<K, V>>>, Entry<K, V>, bool))
    requires
        bst(Some(n)),
    ensures
        bst(r.0),
        map_of(Some(n)).dom().contains(r.1.key),
        map_of(Some(n))[r.1.key] == r.1.value,
        map_of(r.0) == map_of(Some(n)).remove(r.1.key),
        all_above(map_of(r.0), r.1.key.rank()),
        rb(Some(n)) ==> removed_ok(r.0, r.2, black_height(Some(n)), n.color),
    decreases n,
{
    let mut n = n;
    let ghost n0 = n;
    proof {
        lemma_bst_parts(n0);
    }
    match n.left {
        None => {
            proof {
                assert(map_of(n0.left) == Map::<K, V>::empty());
                assert(!map_of(n0.right).dom().contains(n0.entry.key));
                assert(map_of(n0.right) =~= map_of(Some(n0)).remove(n0.entry.key));
            }
            let color = n.color;
            let (rest, short) = splice(color, n.right);
            (rest, n.entry, short)
        },
        Some(l) => {
            let (l2, e, short) = delete_min(l);
            n.left = l2;
            let ghost n1 = n;
            proof {
                assert(e.key.rank() < n0.entry.key.rank());
                assert(!map_of(n0.right).dom().contains(e.key));
                assert(e.key != n0.entry.key);
                assert(all_below(map_of(n.left), n.entry.key.rank()));
                assert(map_of(Some(n)) =~= map_of(Some(n0)).remove(e.key));
                assert(all_above(map_of(Some(n)), e.key.rank())) by {
                    assert forall|k: K| #[trigger] map_of(Some(n)).dom().contains(k) implies k.rank() > e.key.rank() by {
                        if map_of(n0.right).dom().contains(k) {
                            assert(k.rank() > n0.entry.key.rank());
                        }
                    }
                }
            }
            if short {
                let (n2, s2) = delete_fixup_left(n);
                (Some(n2), e, s2)
            } else {
                (Some(n), e, false)
            }
        },
    }
}

/// Removes `key` from a subtree, restoring the colors on the way up.
/// Returns the new subtree, the value the key had, and whether the subtree
/// lacks a black node.
fn delete_node<K: TreeKey, V>(t: Option<Box<RBNode<K, V>>>, key: K) -> (r: (Option<Box<RBNode<K, V>>>, Option<V>, bool))
    requires
        bst(t),
    ensures
        bst(r.0),
        map_of(r.0) == map_of(t).remove(key),
        r.1 == (if map_of(t).dom().contains(key) {
            Some(map_of(t)[key])
        } else {
            None
        }),
        rb(t) ==> removed_ok(r.0, r.2, black_height(t), color_of(t)),
    decreases t,
{
    match t {
        None => {
            proof {
                assert(Map::<K, V>::empty().remove(key) =~= Map::<K, V>::empty());
            }
            (None, None, false)
        },
        Some(n) => {
            let mut n = n;
            let ghost n0 = n;
            proof {
                lemma_bst_parts(n0);
            }
            match key.compare(&n.entry.key) {
                KeyOrder::Less => {
                    let (l2, v, short) = delete_node(n.left, key);
                    n.left = l2;
                    proof {
                        assert(!map_of(n0.right).dom().contains(key));
                        assert(key != n0.entry.key);
                        assert(all_below(map_of(n.left), n.entry.key.rank()));
                        assert(map_of(Some(n)) =~= map_of(Some(n0)).remove(key));
                    }
                    if short {
                        let (n2, s2) = delete_fixup_left(n);
                        (Some(n2), v, s2)
                    } else {
                        (Some(n), v, false)
                    }
                },
                KeyOrder::Greater => {
                    let (r2, v, short) = delete_node(n.right, key);
                    n.right = r2;
                    proof {
                        assert(!map_of(n0.left).dom().contains(key));
                        assert(key != n0.entry.key);
                        assert(all_above(map_of(n.right), n.entry.key.rank()));
                        assert(map_of(Some(n)) =~= map_of(Some(n0)).remove(key));
                    }
                    if short {
                        let (n2, s2) = delete_fixup_right(n);
                        (Some(n2), v, s2)
                    } else {
                        (Some(n), v, false)
                    }
                },
                KeyOrder::Equal => {
                    proof {
                        K::lemma_rank_injective(key, n.entry.key);
                        assert(!map_of(n0.left).dom().contains(key));
                        assert(!map_of(n0.right).dom().contains(key));
                    }
                    if n.left.is_none() {
                        proof {
                            assert(map_of(n0.left) == Map::<K, V>::empty());
                            assert(map_of(n0.right) =~= map_of(Some(n0)).remove(key));
                        }
                        let color = n.color;
                        let (rest, short) = splice(color, n.right);
                        return (rest, Some(n.entry.value), short);
                    }
                    if n.right.is_none() {
                        proof {
                            assert(map_of(n0.right) == Map::<K, V>::empty());
                            assert(map_of(n0.left) =~= map_of(Some(n0)).remove(key));
                        }
                        let color = n.color;
                        let (rest, short) = splice(color, n.left);
                        return (rest, Some(n.entry.value), short);
                    }
                    let right = match n.right {
                        Some(r) => r,
                        None => {
                            proof {
                                assert(false);
                            }
                            return (None, None, false);
                        },
                    };
                    let (r2, min, short) = delete_min(right);
                    let old = n.entry.value;
                    let ghost mk = min.key;
                    let ghost mv = min.value;
                    n.entry = min;
                    n.right = r2;
                    proof {
                        assert(mk.rank() > n0.entry.key.rank());
                        assert(all_below(map_of(n.left), mk.rank())) by {
                            assert forall|k: K| #[trigger] map_of(n.left).dom().contains(k) implies k.rank() < mk.rank() by {
                                assert(k.rank() < n0.entry.key.rank());
                            }
                        }
                        assert(map_of(Some(n)) =~= map_of(Some(n0)).remove(key));
                    }
                    if short {
                        let (n2, s2) = delete_fixup_right(n);
                        (Some(n2), Some(old), s2)
                    } else {
                        (Some(n), Some(old), false)
                    }
                },
            }
        },
    }
}

/// The value of `key` in a subtree.
fn find_node<'a, K: TreeKey, V>(t: &'a Option<Box<RBNode<K, V>>>, key: &K) -> (r: Option<&'a V>)
    requires
        bst(*t),
    ensures
        r == (if map_of(*t).dom().contains(*key) {
            Some(&map_of(*t)[*key])
        } else {
            None
        }),
    decreases *t,
{
    match t {
        None => None,
        Some(n) => {
            proof {
                lemma_bst_parts(*n);
            }
            match key.compare(&n.entry.key) {
                KeyOrder::Equal => {
                    proof {
                        K::lemma_rank_injective(*key, n.entry.key);
                    }
                    Some(&n.entry.value)
                },
                KeyOrder::Less => {
                    proof {
                        assert(!map_of(n.right).dom().contains(*key));
                    }
                    find_node(&n.left, key)
                },
                KeyOrder::Greater => {
                    proof {
                        assert(!map_of(n.left).dom().contains(*key));
                    }
                    find_node(&n.right, key)
                },
            }
        },
    }
}

/// A map kept as a red-black tree: a search tree whose nodes are red or
/// black, the root black, no red node under a red one, and as many black
/// nodes on every path down; so it stays about balanced.
pub struct RBTreeMap<K: TreeKey, V> {
    root: Option<Box<RBNode<K, V>>>,
}

impl<K: TreeKey, V> RBTreeMap<K, V> {
    #[verifier::type_invariant]
    spec fn wf(&self) -> bool {
        &&& bst(self.root)
        &&& rb(self.root)
        &&& color_of(self.root) == NodeColor::Black
    }

    /// The entries.
    pub closed spec fn view(&self) -> Map<K, V> {
        map_of(self.root)
    }

    /// The tree is red-black with a black root, so that no path down is
    /// more than twice as long as another.
    pub closed spec fn is_red_black(&self) -> bool {
        rb(self.root) && color_of(self.root) == NodeColor::Black
    }

    /// The nodes on the longest path down the tree.
    pub closed spec fn spec_depth(&self) -> nat {
        depth(self.root)
    }

    /// The black nodes on every path down the tree.
    pub closed spec fn spec_black_height(&self) -> nat {
        black_height(self.root)
    }

    /// A red-black tree is balanced: its depth is at most twice its black
    /// height.
    pub proof fn lemma_balanced(&self)
        requires
            self.is_red_black(),
        ensures
            self.spec_depth() <= 2 * self.spec_black_height(),
    {
        lemma_red_black_depth(self.root);
    }

    /// An empty tree.
    pub fn const_new() -> (t: Self)
        ensures
            t.view() == Map::<K, V>::empty(),
            t.is_red_black(),
    {
        RBTreeMap { root: None }
    }

    /// An empty tree.
    pub fn new() -> (r: Result<Self, AllocError>)
        ensures
            r matches Ok(t) && t.view() == Map::<K, V>::empty() && t.is_red_black(),
    {
        Ok(RBTreeMap { root: None })
    }

    /// Readies the tree for use; a tree is always ready here.
    pub fn init(&mut self) -> (r: Result<(), AllocError>)
        ensures
            r is Ok,
            final(self).view() == old(self).view(),
            final(self).is_red_black(),
    {
        proof {
            use_type_invariant(&*self);
        }
        Ok(())
    }

    /// The value of `key`, if it has one.
    pub fn get(&self, key: K) -> (r: Option<&V>)
        ensures
            r == (if self.view().dom().contains(key) {
                Some(&self.view()[key])
            } else {
                None
            }),
    {
        proof {
            use_type_invariant(self);
        }
        find_node(&self.root, &key)
    }

    /// Sets the value of `key`; returns the value it had.
    pub fn try_insert(&mut self, key: K, value: V) -> (r: Result<Option<V>, AllocError>)
        ensures
            final(self).view() == old(self).view().insert(key, value),
            r == Ok::<Option<V>, AllocError>(
                if old(self).view().dom().contains(key) {
                    Some(old(self).view()[key])
                } else {
                    None
                },
            ),
            final(self).is_red_black(),
    {
        proof {
            use_type_invariant(&*self);
        }
        let mut root: Option<Box<RBNode<K, V>>> = None;
        std::mem::swap(&mut root, &mut self.root);
        let ghost r0 = root;
        let (n, old) = insert_node(root, key, value);
        self.root = set_color(Some(n), NodeColor::Black);
        proof {
            if rb(r0) && color_of(r0) == NodeColor::Black {
                assert(rb(Some(n)));
                let m = self.root.unwrap();
                assert(m.left == n.left && m.right == n.right);
                assert(rb(self.root));
            }
        }
        Ok(old)
    }

    /// Removes `key`; returns the value it had.
    pub fn remove(&mut self, key: K) -> (r: Option<V>)
        ensures
            final(self).view() == old(self).view().remove(key),
            r == (if old(self).view().dom().contains(key) {
                Some(old(self).view()[key])
            } else {
                None
            }),
            final(self).is_red_black(),
    {
        proof {
            use_type_invariant(&*self);
        }
        let mut root: Option<Box<RBNode<K, V>>> = None;
        std::mem::swap(&mut root, &mut self.root);
        let (rest, old, _short) = delete_node(root, key);
        self.root = set_color(rest, NodeColor::Black);
        proof {
            if rest is Some {
                let m = self.root.unwrap();
                let n = rest.unwrap();
                assert(m.left == n.left && m.right == n.right);
            }
        }
        old
    }
}

/// After an insertion of `v` at `k`, `k` reads back `v` and every other key
/// keeps its value.
pub proof fn lemma_insert_then_get<K: TreeKey, V>(
    before: RBTreeMap<K, V>,
    after: RBTreeMap<K, V>,
    k: K,
    v: V,
    other: K,
)
    requires
        after@ == before@.insert(k, v),
        other != k,
    ensures
        after@.dom().contains(k),
        after@[k] == v,
        after@.dom().contains(other) == before@.dom().contains(other),
        before@.dom().contains(other) ==> after@[other] == before@[other],
{
}

/// After a removal of `k`, `k` reads back nothing and every other key keeps
/// its value.
pub proof fn lemma_remove_then_get<K: TreeKey, V>(
    before: RBTreeMap<K, V>,
    after: RBTreeMap<K, V>,
    k: K,
    other: K,
)
    requires
        after@ == before@.remove(k),
        other != k,
    ensures
        !after@.dom().contains(k),
        after@.dom().contains(other) == before@.dom().contains(other),
        before@.dom().contains(other) ==> after@[other] == before@[other],
{
}

} // verus!
