use vstd::prelude::*;
use vstd::arithmetic::power2::{pow2, lemma_pow2_unfold, lemma_pow2_strictly_increases, lemma2_to64};

verus! {

/// A node of a persistent AA tree over `u32` values. A tree is never changed
/// in place: `put` builds a new root and leaves the receiver as it was.
pub struct Node {
    pub value: u32,
    pub level: u32,
    pub left: Option<Box<Node>>,
    pub right: Option<Box<Node>>,
}

/// The values of an optional subtree, in order.
pub open spec fn opt_values(t: Option<Box<Node>>) -> Seq<u32>
    decreases t,
{
    match t {
        Some(n) => opt_values(n.left) + seq![n.value] + opt_values(n.right),
        None => Seq::empty(),
    }
}

/// The levels of an optional subtree, in the order of its values.
pub open spec fn opt_levels(t: Option<Box<Node>>) -> Seq<u32>
    decreases t,
{
    match t {
        Some(n) => opt_levels(n.left) + seq![n.level] + opt_levels(n.right),
        None => Seq::empty(),
    }
}

/// Length of the longest path from the root of an optional subtree to a leaf.
pub open spec fn opt_depth(t: Option<Box<Node>>) -> nat
    decreases t,
{
    match t {
        Some(n) => {
            let l = opt_depth(n.left);
            let r = opt_depth(n.right);
            if l >= r { l + 1 } else { r + 1 }
        },
        None => 0,
    }
}

/// The largest level of an optional subtree (0 for an empty one).
pub open spec fn opt_max_level(t: Option<Box<Node>>) -> nat
    decreases t,
{
    match t {
        Some(n) => {
            let l = opt_max_level(n.left);
            let r = opt_max_level(n.right);
            let m = if l >= r { l } else { r };
            if m >= n.level { m } else { n.level as nat }
        },
        None => 0,
    }
}

/// A sequence in strictly ascending order.
pub open spec fn strictly_ascending(s: Seq<u32>) -> bool {
    forall|i: int, j: int| 0 <= i < j < s.len() ==> s[i] < s[j]
}

/// Right rotation when the left child has the same level as the node.
pub open spec fn skewed(n: Node) -> Node {
    match n.left {
        Some(l) => if l.level == n.level {
            Node {
                value: l.value,
                level: l.level,
                left: l.left,
                right: Some(Box::new(Node { value: n.value, level: n.level, left: l.right, right: n.right })),
            }
        } else {
            n
        },
        None => n,
    }
}

/// Left rotation, raising the new root by one level, when the right child and
/// the right grandchild have the same level as the node.
pub open spec fn split_off(n: Node) -> Node {
    match n.right {
        Some(r) => match r.right {
            Some(rr) => if n.level == r.level && r.level == rr.level {
                Node {
                    value: r.value,
                    level: (r.level + 1) as u32,
                    left: Some(Box::new(Node { value: n.value, level: n.level, left: n.left, right: r.left })),
                    right: r.right,
                }
            } else {
                n
            },
            None => n,
        },
        None => n,
    }
}

/// The tree that inserting `v` into the tree rooted at `n` yields.
pub open spec fn inserted(n: Node, v: u32) -> Node
    decreases n,
{
    if n.value == v {
        n
    } else if v < n.value {
        let l = match n.left {
            Some(c) => inserted(*c, v),
            None => Node { value: v, level: n.level, left: None, right: None },
        };
        split_off(skewed(Node { value: n.value, level: n.level, left: Some(Box::new(l)), right: n.right }))
    } else {
        let r = match n.right {
            Some(c) => inserted(*c, v),
            None => Node { value: v, level: n.level, left: None, right: None },
        };
        split_off(skewed(Node { value: n.value, level: n.level, left: n.left, right: Some(Box::new(r)) }))
    }
}

proof fn lemma_skewed_values(n: Node)
    ensures
        skewed(n).values() == n.values(),
{
    if let Some(l) = n.left {
        if l.level == n.level {
            let inner = Node { value: n.value, level: n.level, left: l.right, right: n.right };
            assert(opt_values(Some(Box::new(inner))) == opt_values(l.right) + seq![n.value] + opt_values(n.right));
            assert(opt_values(n.left) == opt_values(l.left) + seq![l.value] + opt_values(l.right));
            assert(skewed(n).values() =~= n.values());
        }
    }
}

proof fn lemma_split_off_values(n: Node)
    ensures
        split_off(n).values() == n.values(),
{
    if let Some(r) = n.right {
        if let Some(rr) = r.right {
            if n.level == r.level && r.level == rr.level {
                let inner = Node { value: n.value, level: n.level, left: n.left, right: r.left };
                assert(opt_values(Some(Box::new(inner))) == opt_values(n.left) + seq![n.value] + opt_values(r.left));
                assert(opt_values(n.right) == opt_values(r.left) + seq![r.value] + opt_values(r.right));
                assert(split_off(n).values() =~= n.values());
            }
        }
    }
}

proof fn lemma_ascending_join(a: Seq<u32>, v: u32, b: Seq<u32>)
    requires
        strictly_ascending(a),
        strictly_ascending(b),
        forall|x: u32| a.contains(x) ==> x < v,
        forall|x: u32| b.contains(x) ==> v < x,
    ensures
        strictly_ascending(a + seq![v] + b),
{
    let s = a + seq![v] + b;
    assert forall|i: int, j: int| 0 <= i < j < s.len() implies s[i] < s[j] by {
        if i < a.len() {
            assert(a.contains(s[i]));
            if j > a.len() {
                assert(b.contains(s[j]));
            }
        } else if i == a.len() {
            assert(b.contains(s[j]));
        }
    }
}

proof fn lemma_ascending_parts(a: Seq<u32>, v: u32, b: Seq<u32>)
    requires
        strictly_ascending(a + seq![v] + b),
    ensures
        strictly_ascending(a),
        strictly_ascending(b),
        forall|x: u32| a.contains(x) ==> x < v,
        forall|x: u32| b.contains(x) ==> v < x,
{
    let s = a + seq![v] + b;
    assert forall|i: int, j: int| 0 <= i < j < a.len() implies a[i] < a[j] by {
        assert(s[i] == a[i] && s[j] == a[j]);
    }
    assert forall|i: int, j: int| 0 <= i < j < b.len() implies b[i] < b[j] by {
        assert(s[a.len() + 1 + i] == b[i] && s[a.len() + 1 + j] == b[j]);
    }
    assert forall|x: u32| a.contains(x) implies x < v by {
        let i = choose|i: int| 0 <= i < a.len() && a[i] == x;
        assert(s[i] == x && s[a.len() as int] == v);
    }
    assert forall|x: u32| b.contains(x) implies v < x by {
        let i = choose|i: int| 0 <= i < b.len() && b[i] == x;
        assert(s[a.len() + 1 + i] == x && s[a.len() as int] == v);
    }
}

proof fn lemma_join_set(a: Seq<u32>, v: u32, b: Seq<u32>)
    ensures
        (a + seq![v] + b).to_set() == a.to_set().union(b.to_set()).insert(v),
{
    let s = a + seq![v] + b;
    assert forall|x: u32| s.to_set().contains(x) == a.to_set().union(b.to_set()).insert(v).contains(x) by {
        if s.contains(x) {
            let i = choose|i: int| 0 <= i < s.len() && s[i] == x;
            if i < a.len() {
                assert(a[i] == x);
            } else if i > a.len() {
                assert(b[i - a.len() - 1] == x);
            }
        }
        if a.contains(x) {
            let i = choose|i: int| 0 <= i < a.len() && a[i] == x;
            assert(s[i] == x);
        }
        if b.contains(x) {
            let i = choose|i: int| 0 <= i < b.len() && b[i] == x;
            assert(s[a.len() + 1 + i] == x);
        }
        if x == v {
            assert(s[a.len() as int] == v);
        }
    }
    assert(s.to_set() =~= a.to_set().union(b.to_set()).insert(v));
}

/// Inserting keeps the values ascending and adds exactly `v` to them.
pub proof fn lemma_inserted_values(n: Node, v: u32)
    ensures
        strictly_ascending(n.values()) ==> strictly_ascending(inserted(n, v).values()),
        inserted(n, v).values().to_set() == n.values().to_set().insert(v),
    decreases n,
{
    let lv = opt_values(n.left);
    let rv = opt_values(n.right);
    assert(n.values() == lv + seq![n.value] + rv);
    if n.value == v {
        lemma_join_set(lv, v, rv);
        assert(n.values().to_set().insert(v) =~= n.values().to_set());
    } else {
        let m = if v < n.value {
            let l = match n.left {
                Some(c) => inserted(*c, v),
                None => Node { value: v, level: n.level, left: None, right: None },
            };
            let nl = match n.left {
                Some(c) => {
                    lemma_inserted_values(*c, v);
                    assert(c.values() == lv);
                    l.values()
                },
                None => {
                    assert(opt_values(None) =~= Seq::<u32>::empty());
                    assert(l.values() =~= seq![v]);
                    lemma_join_set(Seq::<u32>::empty(), v, Seq::<u32>::empty());
                    assert(lv.to_set() =~= Set::<u32>::empty());
                    assert(l.values().to_set() =~= lv.to_set().insert(v));
                    l.values()
                },
            };
            assert(nl.to_set() == lv.to_set().insert(v));
            let m = Node { value: n.value, level: n.level, left: Some(Box::new(l)), right: n.right };
            assert(m.values() == nl + seq![n.value] + rv);
            if strictly_ascending(n.values()) {
                lemma_ascending_parts(lv, n.value, rv);
                assert forall|x: u32| nl.contains(x) implies x < n.value by {
                    assert(nl.to_set().contains(x));
                    if x != v {
                        assert(lv.to_set().contains(x));
                    }
                }
                lemma_ascending_join(nl, n.value, rv);
            }
            m
        } else {
            let r = match n.right {
                Some(c) => inserted(*c, v),
                None => Node { value: v, level: n.level, left: None, right: None },
            };
            let nr = match n.right {
                Some(c) => {
                    lemma_inserted_values(*c, v);
                    assert(c.values() == rv);
                    r.values()
                },
                None => {
                    assert(opt_values(None) =~= Seq::<u32>::empty());
                    assert(r.values() =~= seq![v]);
                    lemma_join_set(Seq::<u32>::empty(), v, Seq::<u32>::empty());
                    assert(rv.to_set() =~= Set::<u32>::empty());
                    assert(r.values().to_set() =~= rv.to_set().insert(v));
                    r.values()
                },
            };
            assert(nr.to_set() == rv.to_set().insert(v));
            let m = Node { value: n.value, level: n.level, left: n.left, right: Some(Box::new(r)) };
            assert(m.values() == lv + seq![n.value] + nr);
            if strictly_ascending(n.values()) {
                lemma_ascending_parts(lv, n.value, rv);
                assert forall|x: u32| nr.contains(x) implies n.value < x by {
                    assert(nr.to_set().contains(x));
                    if x != v {
                        assert(rv.to_set().contains(x));
                    }
                }
                lemma_ascending_join(lv, n.value, nr);
            }
            m
        };
        lemma_skewed_values(m);
        lemma_split_off_values(skewed(m));
        assert(inserted(n, v) == split_off(skewed(m)));
        lemma_join_set(lv, n.value, rv);
        if v < n.value {
            lemma_join_set(opt_values(m.left), n.value, rv);
        } else {
            lemma_join_set(lv, n.value, opt_values(m.right));
        }
        assert(m.values().to_set() =~= n.values().to_set().insert(v));
    }
}

/// The tree that starts as a leaf holding `first` and receives the elements of
/// `rest` one after another.
pub open spec fn built_from(first: u32, rest: Seq<u32>) -> Node
    decreases rest.len(),
{
    if rest.len() == 0 {
        Node { value: first, level: 1, left: None, right: None }
    } else {
        inserted(built_from(first, rest.drop_last()), rest.last())
    }
}

/// Walking in order the tree built by inserting `first` and then each element
/// of `rest` gives those elements, each once, in ascending order.
pub proof fn lemma_built_in_order(first: u32, rest: Seq<u32>)
    ensures
        strictly_ascending(built_from(first, rest).values()),
        built_from(first, rest).values().to_set() == (seq![first] + rest).to_set(),
    decreases rest.len(),
{
    if rest.len() == 0 {
        let t = built_from(first, rest);
        assert(opt_values(None) =~= Seq::<u32>::empty());
        assert(t.values() =~= seq![first]);
        assert(seq![first] + rest =~= seq![first]);
    } else {
        let prev = built_from(first, rest.drop_last());
        lemma_built_in_order(first, rest.drop_last());
        lemma_inserted_values(prev, rest.last());
        assert(seq![first] + rest =~= (seq![first] + rest.drop_last()).push(rest.last()));
        (seq![first] + rest.drop_last()).lemma_push_to_set_commute(rest.last());
    }
}

/// The level of an optional subtree; an empty one has level 0.
pub open spec fn opt_level(t: Option<Box<Node>>) -> nat {
    match t {
        Some(n) => n.level as nat,
        None => 0,
    }
}

/// The AA rules at one node: the left child is one level below, the right
/// child one level below or level with it, and the right grandchild below
/// it. With empty subtrees at level 0, every leaf then has level 1.
pub open spec fn node_balanced(n: Node) -> bool {
    &&& opt_level(n.left) + 1 == n.level
    &&& (opt_level(n.right) + 1 == n.level || opt_level(n.right) == n.level)
    &&& match n.right {
        Some(r) => opt_level(r.right) < n.level,
        None => true,
    }
}

/// Every node of the subtree keeps the AA rules.
pub open spec fn is_aa(t: Option<Box<Node>>) -> bool
    decreases t,
{
    match t {
        Some(n) => node_balanced(*n) && is_aa(n.left) && is_aa(n.right),
        None => true,
    }
}

/// Inserting into an AA tree gives an AA tree. Its level stays, or rises by
/// one with both children at the old level; it stays where the root has no
/// right child at its own level.
pub proof fn lemma_inserted_aa(n: Node, v: u32)
    requires
        is_aa(Some(Box::new(n))),
        n.level < u32::MAX,
    ensures
        is_aa(Some(Box::new(inserted(n, v)))),
        inserted(n, v).level == n.level || (inserted(n, v).level == n.level + 1
            && opt_level(inserted(n, v).left) == n.level && opt_level(inserted(n, v).right) == n.level),
        opt_level(n.right) < n.level ==> inserted(n, v).level == n.level,
    decreases n,
{
    let lv = n.level;
    assert(node_balanced(n) && is_aa(n.left) && is_aa(n.right));
    if n.value == v {
    } else if v < n.value {
        let l = match n.left {
            Some(c) => inserted(*c, v),
            None => Node { value: v, level: n.level, left: None, right: None },
        };
        match n.left {
            Some(c) => {
                lemma_inserted_aa(*c, v);
            },
            None => {
                assert(is_aa(l.left) && is_aa(l.right));
            },
        }
        assert(is_aa(Some(Box::new(l))));
        assert(is_aa(l.left) && is_aa(l.right));
        let m = Node { value: n.value, level: n.level, left: Some(Box::new(l)), right: n.right };
        assert(inserted(n, v) == split_off(skewed(m)));
        if l.level + 1 == lv {
            assert(skewed(m) == m);
            assert(split_off(m) == m);
            assert(node_balanced(m));
        } else {
            assert(l.level == lv);
            assert(opt_level(l.left) + 1 == lv && opt_level(l.right) + 1 == lv);
            let inner = Node { value: n.value, level: lv, left: l.right, right: n.right };
            assert(node_balanced(inner));
            assert(is_aa(Some(Box::new(inner))));
            let sk = Node { value: l.value, level: lv, left: l.left, right: Some(Box::new(inner)) };
            assert(skewed(m) == sk);
            if opt_level(n.right) == lv {
                let nr = n.right->0;
                assert(is_aa(nr.left) && is_aa(nr.right) && node_balanced(*nr));
                let low = Node { value: l.value, level: lv, left: l.left, right: l.right };
                assert(node_balanced(low));
                assert(is_aa(Some(Box::new(low))));
                let top = Node { value: n.value, level: (lv + 1) as u32, left: Some(Box::new(low)), right: n.right };
                assert(split_off(sk) == top);
                assert(node_balanced(top));
            } else {
                assert(split_off(sk) == sk);
                assert(node_balanced(sk));
            }
        }
    } else {
        let r = match n.right {
            Some(c) => inserted(*c, v),
            None => Node { value: v, level: n.level, left: None, right: None },
        };
        match n.right {
            Some(c) => {
                assert(is_aa(c.left) && is_aa(c.right) && node_balanced(*c));
                lemma_inserted_aa(*c, v);
            },
            None => {
                assert(is_aa(r.left) && is_aa(r.right));
            },
        }
        assert(is_aa(Some(Box::new(r))));
        assert(is_aa(r.left) && is_aa(r.right));
        assert(r.level + 1 == lv || r.level == lv);
        let m = Node { value: n.value, level: n.level, left: n.left, right: Some(Box::new(r)) };
        assert(inserted(n, v) == split_off(skewed(m)));
        assert(skewed(m) == m);
        if r.level == lv && opt_level(r.right) == lv {
            assert(node_balanced(r));
            let low = Node { value: n.value, level: lv, left: n.left, right: r.left };
            assert(node_balanced(low));
            assert(is_aa(Some(Box::new(low))));
            let top = Node { value: r.value, level: (lv + 1) as u32, left: Some(Box::new(low)), right: r.right };
            assert(split_off(m) == top);
            assert(node_balanced(top));
        } else {
            assert(split_off(m) == m);
            assert(node_balanced(r));
            assert(node_balanced(m));
        }
    }
}

proof fn lemma_pow2_monotone(a: nat, b: nat)
    requires
        a <= b,
    ensures
        pow2(a) <= pow2(b),
{
    if a < b {
        lemma_pow2_strictly_increases(a, b);
    }
}

/// An AA subtree of level `L` holds at least `2^L - 1` values, and at least
/// `2^L` when its root's right child is level with it.
proof fn lemma_aa_size(t: Option<Box<Node>>)
    requires
        is_aa(t),
    ensures
        opt_values(t).len() + 1 >= pow2(opt_level(t)),
        t matches Some(n) && opt_level(n.right) == n.level ==> opt_values(t).len() >= pow2(opt_level(t)),
    decreases t,
{
    match t {
        Some(n) => {
            let lvl = n.level as nat;
            lemma_aa_size(n.left);
            lemma_aa_size(n.right);
            lemma_pow2_unfold(lvl);
            lemma_pow2_monotone((lvl - 1) as nat, opt_level(n.right));
            assert(opt_values(t).len() == opt_values(n.left).len() + 1 + opt_values(n.right).len());
        },
        None => {
            assert(pow2(0) == 1) by { lemma2_to64(); }
        },
    }
}

/// An AA subtree is at most twice as deep as its level, and one less where
/// its root's right child is a level below.
proof fn lemma_aa_depth(t: Option<Box<Node>>)
    requires
        is_aa(t),
    ensures
        opt_depth(t) <= 2 * opt_level(t),
        t matches Some(n) && opt_level(n.right) < n.level ==> opt_depth(t) + 1 <= 2 * opt_level(t),
    decreases t,
{
    if let Some(n) = t {
        lemma_aa_depth(n.left);
        lemma_aa_depth(n.right);
        if let Some(r) = n.right {
            assert(is_aa(r.left) && is_aa(r.right) && node_balanced(*r));
        }
    }
}

proof fn lemma_ascending_at_least_index(s: Seq<u32>, i: int)
    requires
        strictly_ascending(s),
        0 <= i < s.len(),
    ensures
        s[i] >= i,
    decreases i,
{
    if i > 0 {
        lemma_ascending_at_least_index(s, i - 1);
    }
}

/// Distinct `u32` values number at most `2^32`.
proof fn lemma_ascending_len(s: Seq<u32>)
    requires
        strictly_ascending(s),
    ensures
        s.len() <= 0x1_0000_0000,
{
    if s.len() > 0 {
        lemma_ascending_at_least_index(s, s.len() - 1);
    }
}

/// An AA tree of distinct `u32` values has level at most 32, and no node
/// in it has a higher level than its root.
pub proof fn lemma_aa_level_bound(t: Node)
    requires
        is_aa(Some(Box::new(t))),
        strictly_ascending(t.values()),
    ensures
        t.level <= 32,
        t.max_level() == t.level,
{
    lemma_ascending_len(t.values());
    lemma_aa_size(Some(Box::new(t)));
    lemma_aa_max_level(Some(Box::new(t)));
    if t.level > 32 {
        lemma_pow2_monotone(33, t.level as nat);
        lemma2_to64();
        lemma_pow2_unfold(33);
    }
}

proof fn lemma_aa_max_level(t: Option<Box<Node>>)
    requires
        is_aa(t),
    ensures
        opt_max_level(t) == opt_level(t),
    decreases t,
{
    if let Some(n) = t {
        lemma_aa_max_level(n.left);
        lemma_aa_max_level(n.right);
    }
}

/// Every tree built by inserting `first` and then each element of `rest`
/// keeps the AA rules at every node.
pub proof fn lemma_built_aa(first: u32, rest: Seq<u32>)
    ensures
        is_aa(Some(Box::new(built_from(first, rest)))),
        built_from(first, rest).level <= 32,
    decreases rest.len(),
{
    if rest.len() == 0 {
        let t = built_from(first, rest);
        assert(is_aa(t.left) && is_aa(t.right));
    } else {
        let prev = built_from(first, rest.drop_last());
        lemma_built_aa(first, rest.drop_last());
        lemma_inserted_aa(prev, rest.last());
        let t = built_from(first, rest);
        lemma_built_in_order(first, rest);
        lemma_aa_level_bound(t);
    }
}

/// The largest `k` with `2^k <= n` (0 for `n <= 1`).
pub open spec fn floor_log2(n: nat) -> nat
    decreases n,
{
    if n <= 1 {
        0
    } else {
        1 + floor_log2(n / 2)
    }
}

proof fn lemma_floor_log2_at_least(k: nat, n: nat)
    requires
        pow2(k) <= n,
    ensures
        k <= floor_log2(n),
    decreases k,
{
    if k > 0 {
        lemma_pow2_unfold(k);
        lemma_pow2_monotone(0, (k - 1) as nat);
        lemma2_to64();
        lemma_floor_log2_at_least((k - 1) as nat, n / 2);
    }
}

/// A tree built by inserting `first` and then each element of `rest`, which
/// holds `n` distinct values, has depth at most `2 * floor(log2(n)) + 1`.
pub proof fn lemma_built_depth(first: u32, rest: Seq<u32>)
    ensures
        built_from(first, rest).spec_depth() >= 1,
        built_from(first, rest).spec_depth() <= 2 * floor_log2(built_from(first, rest).values().len()) + 1,
{
    let t = built_from(first, rest);
    let ot = Some(Box::new(t));
    let n = t.values().len();
    lemma_built_aa(first, rest);
    lemma_aa_size(ot);
    lemma_aa_depth(ot);
    let h = t.spec_depth();
    let lvl = t.level as nat;
    assert(opt_level(ot) == lvl);
    assert(node_balanced(t));
    lemma_pow2_unfold(lvl);
    lemma_pow2_monotone(0, (lvl - 1) as nat);
    lemma2_to64();
    if h + 1 <= 2 * lvl {
        lemma_floor_log2_at_least((lvl - 1) as nat, n);
    } else {
        assert(opt_level(t.right) == lvl);
        lemma_floor_log2_at_least(lvl, n);
    }
}

/// A deep copy of an optional subtree.
fn copy_subtree(t: &Option<Box<Node>>) -> (r: Option<Box<Node>>)
    ensures
        r == *t,
    decreases *t,
{
    match t {
        Some(n) => {
            let left = copy_subtree(&n.left);
            let right = copy_subtree(&n.right);
            Some(Box::new(Node { value: n.value, level: n.level, left, right }))
        },
        None => None,
    }
}

fn skew(node: Node) -> (r: Node)
    ensures
        r == skewed(node),
{
    let Node { value, level, left, right } = node;
    match left {
        None => Node { value, level, left: None, right },
        Some(l) => {
            if l.level == level {
                let Node { value: lv, level: ll, left: lleft, right: lright } = *l;
                Node {
                    value: lv,
                    level: ll,
                    left: lleft,
                    right: Some(Box::new(Node { value, level, left: lright, right })),
                }
            } else {
                Node { value, level, left: Some(l), right }
            }
        },
    }
}

fn split(node: Node) -> (r: Node)
    requires
        node.level < u32::MAX,
    ensures
        r == split_off(node),
{
    let Node { value, level, left, right } = node;
    match right {
        None => Node { value, level, left, right: None },
        Some(r) => {
            let raise = match &r.right {
                Some(rr) => level == r.level && r.level == rr.level,
                None => false,
            };
            if raise {
                let Node { value: rv, level: rl, left: rleft, right: rright } = *r;
                Node {
                    value: rv,
                    level: rl + 1,
                    left: Some(Box::new(Node { value, level, left, right: rleft })),
                    right: rright,
                }
            } else {
                Node { value, level, left, right: Some(r) }
            }
        },
    }
}

fn insert_into(current: &Node, value: u32) -> (r: Node)
    requires
        current.max_level() < u32::MAX,
    ensures
        r == inserted(*current, value),
    decreases *current,
{
    if current.value == value {
        Node {
            value: current.value,
            level: current.level,
            left: copy_subtree(&current.left),
            right: copy_subtree(&current.right),
        }
    } else if value < current.value {
        let l = match &current.left {
            Some(c) => insert_into(c, value),
            None => Node::new(value, current.level),
        };
        let n = Node { value: current.value, level: current.level, left: Some(Box::new(l)), right: copy_subtree(&current.right) };
        split(skew(n))
    } else {
        let r = match &current.right {
            Some(c) => insert_into(c, value),
            None => Node::new(value, current.level),
        };
        let n = Node { value: current.value, level: current.level, left: copy_subtree(&current.left), right: Some(Box::new(r)) };
        split(skew(n))
    }
}

fn traverse(t: &Option<Box<Node>>, values: &mut Vec<u32>, levels: &mut Vec<u32>)
    ensures
        final(values)@ == old(values)@ + opt_values(*t),
        final(levels)@ == old(levels)@ + opt_levels(*t),
    decreases *t,
{
    if let Some(n) = t {
        traverse(&n.left, values, levels);
        values.push(n.value);
        levels.push(n.level);
        traverse(&n.right, values, levels);
    }
}

fn depth_of(t: &Option<Box<Node>>) -> (r: u32)
    requires
        opt_depth(*t) <= u32::MAX,
    ensures
        r == opt_depth(*t),
    decreases *t,
{
    match t {
        Some(n) => {
            let l = depth_of(&n.left);
            let r = depth_of(&n.right);
            if l >= r { l + 1 } else { r + 1 }
        },
        None => 0,
    }
}

impl Node {
    /// The values of the tree, in order.
    pub open spec fn values(self) -> Seq<u32> {
        opt_values(Some(Box::new(self)))
    }

    /// The levels of the tree, in the order of its values.
    pub open spec fn levels(self) -> Seq<u32> {
        opt_levels(Some(Box::new(self)))
    }

    pub open spec fn max_level(self) -> nat {
        opt_max_level(Some(Box::new(self)))
    }

    pub open spec fn spec_depth(self) -> nat {
        opt_depth(Some(Box::new(self)))
    }

    pub fn new_leaf(value: u32) -> (r: Node)
        ensures
            r == (Node { value, level: 1, left: None, right: None }),
            r.values() == seq![value],
            strictly_ascending(r.values()),
            is_aa(Some(Box::new(r))),
            r.max_level() == 1,
            r.spec_depth() == 1,
    {
        proof {
            let t = Node { value, level: 1, left: None, right: None };
            assert(is_aa(t.left) && is_aa(t.right));
            assert(opt_values(None) =~= Seq::<u32>::empty());
            assert(opt_values(Some(Box::new(t))) == opt_values(t.left) + seq![value] + opt_values(t.right));
            assert(t.values() =~= seq![value]);
            assert(opt_max_level(None) == 0);
            assert(opt_max_level(Some(Box::new(t))) == 1);
            assert(opt_depth(None) == 0);
            assert(opt_depth(Some(Box::new(t))) == 1);
        }
        Node::new(value, 1)
    }

    pub fn new(value: u32, level: u32) -> (r: Node)
        ensures
            r == (Node { value, level, left: None, right: None }),
    {
        Node { value, level, left: None, right: None }
    }

    /// The tree holding the values of `self` and `value`; `self` is left as
    /// it was.
    pub fn put(&self, value: u32) -> (r: Node)
        requires
            self.max_level() < u32::MAX,
        ensures
            r == inserted(*self, value),
            strictly_ascending(self.values()) ==> strictly_ascending(r.values()),
            r.values().to_set() == self.values().to_set().insert(value),
            is_aa(Some(Box::new(*self))) ==> is_aa(Some(Box::new(r))),
            is_aa(Some(Box::new(*self))) && strictly_ascending(self.values())
                ==> r.max_level() <= 32 && r.spec_depth() <= 64,
    {
        proof {
            lemma_inserted_values(*self, value);
            if is_aa(Some(Box::new(*self))) {
                lemma_inserted_aa(*self, value);
                if strictly_ascending(self.values()) {
                    lemma_aa_level_bound(inserted(*self, value));
                    lemma_aa_depth(Some(Box::new(inserted(*self, value))));
                }
            }
        }
        insert_into(self, value)
    }

    /// The values and the levels of the tree, in order.
    pub fn collect_to_vec(&self) -> (r: (Vec<u32>, Vec<u32>))
        ensures
            r.0@ == self.values(),
            r.1@ == self.levels(),
    {
        let mut values: Vec<u32> = Vec::new();
        let mut levels: Vec<u32> = Vec::new();
        traverse(&self.left, &mut values, &mut levels);
        values.push(self.value);
        levels.push(self.level);
        traverse(&self.right, &mut values, &mut levels);
        (values, levels)
    }

    /// Length of the longest path from the root to a leaf; a leaf has depth 1.
    pub fn depth(&self) -> (r: u32)
        requires
            self.spec_depth() <= u32::MAX,
        ensures
            r == self.spec_depth(),
    {
        let l = depth_of(&self.left);
        let r = depth_of(&self.right);
        if l >= r { l + 1 } else { r + 1 }
    }
}

} // verus!
