//! A balanced ordered map (AVL tree) intended as the in-memory buffering
//! layer of a storage engine.
//!
//! Keys are `u64`; values are any type. Every public operation is specified
//! against the abstract view of the tree as a `Map<u64, V>`; well-formedness
//! (`AvlTree::wf`) pins down the search-tree ordering, the cached heights,
//! the AVL balance of every node, and the stored element count.

use vstd::prelude::*;

verus! {

/// One stored key-value pair plus structural metadata: the cached height of
/// the subtree rooted here, and the exclusively owned child subtrees.
pub struct AvlNode<V> {
    pub key: u64,
    pub value: V,
    pub height: usize,
    pub left: Option<Box<AvlNode<V>>>,
    pub right: Option<Box<AvlNode<V>>>,
}

/// The map itself: an optional root node and a running count of distinct keys.
///
/// The fields (here and in `AvlNode`) are public so that the specification
/// functions stating the tree's invariants can be public too; every
/// operation requires and preserves `wf`, which pins the fields down.
pub struct AvlTree<V> {
    pub root: Option<Box<AvlNode<V>>>,
    pub size: usize,
}

/// Height of an optional subtree: 0 when absent, else the node's cached height.
pub open spec fn opt_height<V>(o: Option<Box<AvlNode<V>>>) -> int {
    match o {
        None => 0,
        Some(n) => n.height as int,
    }
}

/// Number of nodes in an optional subtree.
pub open spec fn opt_count<V>(o: Option<Box<AvlNode<V>>>) -> nat
    decreases o,
{
    match o {
        None => 0,
        Some(n) => n.count(),
    }
}

/// The key-value pairs held in an optional subtree, as a map.
pub open spec fn opt_map<V>(o: Option<Box<AvlNode<V>>>) -> Map<u64, V>
    decreases o,
{
    match o {
        None => Map::empty(),
        Some(n) => n.as_map(),
    }
}

/// The keys of an optional subtree, in symmetric (in-order) order.
pub open spec fn opt_keys<V>(o: Option<Box<AvlNode<V>>>) -> Seq<u64>
    decreases o,
{
    match o {
        None => Seq::empty(),
        Some(n) => n.keys_in_order(),
    }
}

/// Search-tree ordering and height bookkeeping hold everywhere in the
/// optional subtree (balance is not required; see `opt_balanced`).
pub open spec fn opt_shape_wf<V>(o: Option<Box<AvlNode<V>>>) -> bool
    decreases o,
{
    match o {
        None => true,
        Some(n) => n.shape_wf(),
    }
}

/// Every node of the optional subtree is AVL-balanced: the heights of its
/// two children differ by at most one.
pub open spec fn opt_balanced<V>(o: Option<Box<AvlNode<V>>>) -> bool
    decreases o,
{
    match o {
        None => true,
        Some(n) => n.balanced(),
    }
}

/// Full well-formedness of an optional subtree.
pub open spec fn opt_wf<V>(o: Option<Box<AvlNode<V>>>) -> bool {
    opt_shape_wf(o) && opt_balanced(o)
}

impl<V> AvlNode<V> {
    /// Number of nodes in the subtree rooted here.
    pub open spec fn count(self) -> nat
        decreases self,
    {
        1 + opt_count(self.left) + opt_count(self.right)
    }

    /// The key-value pairs of the subtree rooted here, as a map.
    pub open spec fn as_map(self) -> Map<u64, V>
        decreases self,
    {
        opt_map(self.left).union_prefer_right(opt_map(self.right)).insert(self.key, self.value)
    }

    /// The keys of the subtree rooted here, in symmetric (in-order) order.
    pub open spec fn keys_in_order(self) -> Seq<u64>
        decreases self,
    {
        opt_keys(self.left) + seq![self.key] + opt_keys(self.right)
    }

    /// The search-tree ordering condition at this node alone: every key to
    /// the left is smaller, every key to the right is greater.
    pub open spec fn bst_here(self) -> bool {
        &&& forall|k: u64| opt_map(self.left).dom().contains(k) ==> k < self.key
        &&& forall|k: u64| opt_map(self.right).dom().contains(k) ==> k > self.key
    }

    /// Search-tree ordering holds at every node, and every cached height
    /// equals one more than the taller child's height.
    pub open spec fn shape_wf(self) -> bool
        decreases self,
    {
        &&& self.bst_here()
        &&& self.height as int == 1 + vstd::math::max(opt_height(self.left), opt_height(self.right))
        &&& opt_shape_wf(self.left)
        &&& opt_shape_wf(self.right)
    }

    /// The AVL balance condition at this node and everywhere below:
    /// `|height(left) - height(right)| <= 1`.
    pub open spec fn balanced(self) -> bool
        decreases self,
    {
        &&& -1 <= opt_height(self.left) - opt_height(self.right) <= 1
        &&& opt_balanced(self.left)
        &&& opt_balanced(self.right)
    }

    /// Full well-formedness of the subtree rooted here.
    pub open spec fn wf(self) -> bool {
        self.shape_wf() && self.balanced()
    }
}

impl<V> AvlTree<V> {
    /// Well-formedness: the root subtree is a balanced search tree with
    /// correct cached heights, and `size` counts its nodes exactly.
    pub open spec fn wf(self) -> bool {
        opt_wf(self.root) && self.size == opt_count(self.root)
    }

    /// The abstract contents of the tree.
    pub open spec fn as_map(self) -> Map<u64, V> {
        opt_map(self.root)
    }

    /// The height of the tree: 0 when empty, else the root's height.
    pub open spec fn height_spec(self) -> int {
        opt_height(self.root)
    }
}

impl<V> View for AvlTree<V> {
    type V = Map<u64, V>;

    open spec fn view(&self) -> Map<u64, V> {
        self.as_map()
    }
}

impl<V> AvlNode<V> {
    /// A fresh leaf: height 1, no children.
    fn new(key: u64, value: V) -> (n: Self)
        ensures
            n.key == key,
            n.value == value,
            n.height == 1,
            n.left is None,
            n.right is None,
            n.wf(),
            n.as_map() == Map::<u64, V>::empty().insert(key, value),
            n.count() == 1,
    {
        let n = AvlNode { key, value, height: 1, left: None, right: None };
        proof {
            assert(n.as_map() =~= Map::<u64, V>::empty().insert(key, value));
        }
        n
    }

    /// Cached height of an optional subtree; 0 for an absent subtree.
    fn height(node: &Option<Box<AvlNode<V>>>) -> (h: usize)
        ensures
            h as int == opt_height(*node),
    {
        match node {
            Some(n) => n.height,
            None => 0,
        }
    }

    /// Recomputes this node's cached height from its children's.
    fn update_height(&mut self)
        requires
            opt_height(old(self).left) < usize::MAX,
            opt_height(old(self).right) < usize::MAX,
        ensures
            final(self).key == old(self).key,
            final(self).value == old(self).value,
            final(self).left == old(self).left,
            final(self).right == old(self).right,
            final(self).height as int == 1 + vstd::math::max(
                opt_height(old(self).left),
                opt_height(old(self).right),
            ),
    {
        let hl = Self::height(&self.left);
        let hr = Self::height(&self.right);
        self.height = 1 + (if hl > hr { hl } else { hr });
    }

    /// The balance factor: height of the left subtree minus height of the
    /// right one. Wide signed arithmetic, so it is defined for every pair
    /// of heights.
    fn balance_factor(&self) -> (b: i128)
        ensures
            b == opt_height(self.left) - opt_height(self.right),
    {
        let hl = Self::height(&self.left);
        let hr = Self::height(&self.right);
        (hl as i128) - (hr as i128)
    }

    /// Left rotation: the right child becomes the subtree root; its former
    /// left subtree moves under the old root, and both touched nodes get
    /// their heights recomputed bottom-up. Preserves the stored map.
    fn rotate_left(root: Box<AvlNode<V>>) -> (res: Box<AvlNode<V>>)
        requires
            root.right is Some,
            root.bst_here(),
            opt_shape_wf(root.left),
            root.right.unwrap().shape_wf(),
            root.count() <= usize::MAX,
        ensures
            res.shape_wf(),
            res.as_map() == root.as_map(),
            res.count() == root.count(),
            res.key == root.right.unwrap().key,
            res.value == root.right.unwrap().value,
            res.right == root.right.unwrap().right,
            res.left is Some,
            res.left.unwrap().key == root.key,
            res.left.unwrap().value == root.value,
            res.left.unwrap().left == root.left,
            res.left.unwrap().right == root.right.unwrap().left,
            res.left.unwrap().height as int == 1 + vstd::math::max(
                opt_height(root.left),
                opt_height(root.right.unwrap().left),
            ),
            res.height as int == 1 + vstd::math::max(
                res.left.unwrap().height as int,
                opt_height(root.right.unwrap().right),
            ),
    {
        let ghost orig = *root;
        let mut root = root;
        let mut new_root = root.right.take().unwrap();
        proof {
            let b = orig.right.unwrap();
            lemma_height_le_count(orig.left);
            lemma_height_le_count(b.left);
            lemma_height_le_count(b.right);
            assert(opt_count(orig.right) == b.count());
            assert(orig.count() == 1 + opt_count(orig.left) + 1 + opt_count(b.left)
                + opt_count(b.right));
        }
        root.right = new_root.left.take();
        root.update_height();
        new_root.left = Some(root);
        new_root.update_height();
        proof {
            let b = orig.right.unwrap();
            let a1 = new_root.left.unwrap();
            assert(opt_map(orig.right) == b.as_map());
            assert(opt_map(new_root.left) == a1.as_map());
            assert(opt_count(new_root.left) == a1.count());
            lemma_as_map_dom(*b);
            lemma_as_map_dom(*a1);
            lemma_as_map_dom(orig);
            lemma_as_map_dom(*new_root);
            assert(orig.key < b.key);
            assert forall|k: u64| opt_map(b.left).dom().contains(k) implies k > orig.key by {
                assert(b.as_map().dom().contains(k));
            }
            assert forall|k: u64| opt_map(b.right).dom().contains(k) implies k > orig.key by {
                assert(b.as_map().dom().contains(k));
            }
            assert(a1.shape_wf());
            assert(new_root.shape_wf());
            assert(new_root.as_map() =~= orig.as_map());
        }
        new_root
    }

    /// Right rotation: the mirror image of `rotate_left`.
    fn rotate_right(root: Box<AvlNode<V>>) -> (res: Box<AvlNode<V>>)
        requires
            root.left is Some,
            root.bst_here(),
            opt_shape_wf(root.right),
            root.left.unwrap().shape_wf(),
            root.count() <= usize::MAX,
        ensures
            res.shape_wf(),
            res.as_map() == root.as_map(),
            res.count() == root.count(),
            res.key == root.left.unwrap().key,
            res.value == root.left.unwrap().value,
            res.left == root.left.unwrap().left,
            res.right is Some,
            res.right.unwrap().key == root.key,
            res.right.unwrap().value == root.value,
            res.right.unwrap().right == root.right,
            res.right.unwrap().left == root.left.unwrap().right,
            res.right.unwrap().height as int == 1 + vstd::math::max(
                opt_height(root.left.unwrap().right),
                opt_height(root.right),
            ),
            res.height as int == 1 + vstd::math::max(
                opt_height(root.left.unwrap().left),
                res.right.unwrap().height as int,
            ),
    {
        let ghost orig = *root;
        let mut root = root;
        let mut new_root = root.left.take().unwrap();
        proof {
            let b = orig.left.unwrap();
            lemma_height_le_count(orig.right);
            lemma_height_le_count(b.left);
            lemma_height_le_count(b.right);
            assert(opt_count(orig.left) == b.count());
            assert(orig.count() == 1 + opt_count(orig.right) + 1 + opt_count(b.left)
                + opt_count(b.right));
        }
        root.left = new_root.right.take();
        root.update_height();
        new_root.right = Some(root);
        new_root.update_height();
        proof {
            let b = orig.left.unwrap();
            let a2 = new_root.right.unwrap();
            assert(opt_map(orig.left) == b.as_map());
            assert(opt_map(new_root.right) == a2.as_map());
            assert(opt_count(new_root.right) == a2.count());
            lemma_as_map_dom(*b);
            lemma_as_map_dom(*a2);
            lemma_as_map_dom(orig);
            lemma_as_map_dom(*new_root);
            assert(b.key < orig.key);
            assert forall|k: u64| opt_map(b.right).dom().contains(k) implies k < orig.key by {
                assert(b.as_map().dom().contains(k));
            }
            assert forall|k: u64| opt_map(b.left).dom().contains(k) implies k < orig.key by {
                assert(b.as_map().dom().contains(k));
            }
            assert(a2.shape_wf());
            assert(new_root.shape_wf());
            assert(new_root.as_map() =~= orig.as_map());
        }
        new_root
    }
}

impl<V> AvlNode<V> {
    /// Restores the AVL balance at this node after an insertion below it.
    /// The children are balanced AVL trees whose heights differ by at most
    /// two; one or two rotations make the whole subtree balanced again.
    fn rebalance(node: Box<AvlNode<V>>) -> (res: Box<AvlNode<V>>)
        requires
            node.bst_here(),
            node.height as int == 1 + vstd::math::max(
                opt_height(node.left),
                opt_height(node.right),
            ),
            opt_wf(node.left),
            opt_wf(node.right),
            -2 <= opt_height(node.left) - opt_height(node.right) <= 2,
            node.count() <= usize::MAX,
        ensures
            res.wf(),
            res.as_map() == node.as_map(),
            res.count() == node.count(),
            node.height as int - 1 <= res.height as int <= node.height as int,
            -1 <= opt_height(node.left) - opt_height(node.right) <= 1 ==> res == node,
    {
        let ghost orig = *node;
        let balance = node.balance_factor();
        proof {
            lemma_height_le_count(orig.left);
            lemma_height_le_count(orig.right);
        }
        if balance > 1 {
            // heavy on the left: the left child exists and is two taller
            let mut node = node;
            let mut left = node.left.take().unwrap();
            let ghost lorig = *left;
            proof {
                assert(lorig.shape_wf() && lorig.balanced());
                assert(opt_shape_wf(lorig.left) && opt_balanced(lorig.left));
                assert(opt_shape_wf(lorig.right) && opt_balanced(lorig.right));
            }
            if left.balance_factor() < 0 {
                // left-right: first rotate the left child left
                proof {
                    assert(left.right is Some);
                    assert(lorig.right.unwrap().shape_wf());
                    assert(left.count() < orig.count());
                }
                left = Self::rotate_left(left);
                proof {
                    let r = lorig.right.unwrap();
                    assert(r.balanced());
                    assert(opt_balanced(r.left) && opt_balanced(r.right));
                    assert(left.left.unwrap().balanced());
                }
            }
            node.left = Some(left);
            proof {
                assert(opt_map(node.left) == left.as_map());
                assert(left.as_map() == lorig.as_map());
                assert(opt_map(orig.left) == lorig.as_map());
                assert(node.count() == orig.count());
                assert(node.bst_here());
                assert(opt_height(node.left) == opt_height(orig.left));
            }
            let res = Self::rotate_right(node);
            proof {
                assert(res.right.unwrap().balanced());
                assert(res.balanced());
                assert(res.wf());
            }
            res
        } else if balance < -1 {
            // heavy on the right: mirror image
            let mut node = node;
            let mut right = node.right.take().unwrap();
            let ghost rorig = *right;
            proof {
                assert(rorig.shape_wf() && rorig.balanced());
                assert(opt_shape_wf(rorig.left) && opt_balanced(rorig.left));
                assert(opt_shape_wf(rorig.right) && opt_balanced(rorig.right));
            }
            if right.balance_factor() > 0 {
                // right-left: first rotate the right child right
                proof {
                    assert(right.left is Some);
                    assert(rorig.left.unwrap().shape_wf());
                    assert(right.count() < orig.count());
                }
                right = Self::rotate_right(right);
                proof {
                    let l = rorig.left.unwrap();
                    assert(l.balanced());
                    assert(opt_balanced(l.left) && opt_balanced(l.right));
                    assert(right.right.unwrap().balanced());
                }
            }
            node.right = Some(right);
            proof {
                assert(opt_map(node.right) == right.as_map());
                assert(right.as_map() == rorig.as_map());
                assert(opt_map(orig.right) == rorig.as_map());
                assert(node.count() == orig.count());
                assert(node.bst_here());
                assert(opt_height(node.right) == opt_height(orig.right));
            }
            let res = Self::rotate_left(node);
            proof {
                assert(res.left.unwrap().balanced());
                assert(res.balanced());
                assert(res.wf());
            }
            res
        } else {
            node
        }
    }
}

impl<V> AvlNode<V> {
    /// Recursive insertion: adds the key or overwrites its value, then
    /// restores heights and balance on the way back up. The subtree's
    /// height never shrinks and grows by at most one.
    fn insert(node: Option<Box<AvlNode<V>>>, key: u64, value: V) -> (res: Box<AvlNode<V>>)
        requires
            opt_wf(node),
            opt_count(node) <= usize::MAX,
            !opt_map(node).dom().contains(key) ==> opt_count(node) < usize::MAX,
        ensures
            res.wf(),
            res.as_map() == opt_map(node).insert(key, value),
            res.count() == opt_count(node) + (if opt_map(node).dom().contains(key) {
                0int
            } else {
                1int
            }),
            opt_height(node) <= res.height as int <= opt_height(node) + 1,
            opt_map(node).dom().contains(key) ==> res.height as int == opt_height(node),
        decreases node,
    {
        let mut n = match node {
            Some(n) => n,
            None => {
                let leaf = Box::new(AvlNode::new(key, value));
                proof {
                    assert(leaf.as_map() =~= opt_map(node).insert(key, value));
                }
                return leaf;
            },
        };
        let ghost orig = *n;
        proof {
            assert(orig.shape_wf() && orig.balanced());
            lemma_as_map_dom(orig);
            lemma_height_le_count(orig.left);
            lemma_height_le_count(orig.right);
        }
        if key < n.key {
            let l = n.left.take();
            proof {
                assert(opt_wf(l));
                assert(forall|k: u64| opt_map(l).dom().contains(k) ==> k < orig.key);
            }
            let nl = Self::insert(l, key, value);
            n.left = Some(nl);
            proof {
                assert(opt_map(n.left) == nl.as_map());
                assert(opt_count(n.left) == nl.count());
                assert(forall|k: u64| #[trigger] opt_map(n.left).dom().contains(k)
                    ==> opt_map(orig.left).dom().contains(k) || k == key);
                assert(n.bst_here());
                lemma_as_map_dom(*n);
                assert(!opt_map(orig.right).dom().contains(key));
                assert(opt_map(n.right) == opt_map(orig.right));
                assert(n.as_map() =~= orig.as_map().insert(key, value));
            }
        } else if key > n.key {
            let r = n.right.take();
            proof {
                assert(opt_wf(r));
                assert(forall|k: u64| opt_map(r).dom().contains(k) ==> k > orig.key);
            }
            let nr = Self::insert(r, key, value);
            n.right = Some(nr);
            proof {
                assert(opt_map(n.right) == nr.as_map());
                assert(opt_count(n.right) == nr.count());
                assert(forall|k: u64| #[trigger] opt_map(n.right).dom().contains(k)
                    ==> opt_map(orig.right).dom().contains(k) || k == key);
                assert(n.bst_here());
                lemma_as_map_dom(*n);
                assert(!opt_map(orig.left).dom().contains(key));
                assert(opt_map(n.left) == opt_map(orig.left));
                assert(n.as_map() =~= orig.as_map().insert(key, value));
            }
        } else {
            // the key is already present: overwrite the value in place;
            // no structural change, so no height update and no rebalance
            n.value = value;
            proof {
                assert(n.shape_wf() && n.balanced());
                assert(orig.as_map().dom().contains(key));
                assert(n.as_map() =~= orig.as_map().insert(key, value));
            }
            return n;
        }
        let ghost mid = *n;
        n.update_height();
        proof {
            assert(n.as_map() =~= mid.as_map());
            assert(n.as_map() == orig.as_map().insert(key, value));
            assert(n.count() == orig.count() + (if orig.as_map().dom().contains(key) {
                0int
            } else {
                1int
            }));
            assert(n.count() <= usize::MAX);
        }
        let res = Self::rebalance(n);
        proof {
            assert(res.as_map() == orig.as_map().insert(key, value));
            assert(orig.height <= res.height && res.height as int <= orig.height + 1);
        }
        res
    }

    /// Recursive lookup by search-tree descent.
    fn get(&self, key: &u64) -> (r: Option<&V>)
        requires
            self.wf(),
        ensures
            (match r {
                Some(v) => self.as_map().dom().contains(*key) && *v == self.as_map()[*key],
                None => !self.as_map().dom().contains(*key),
            }),
        decreases *self,
    {
        proof {
            lemma_as_map_dom(*self);
            assert(opt_shape_wf(self.left) && opt_balanced(self.left));
            assert(opt_shape_wf(self.right) && opt_balanced(self.right));
        }
        if *key < self.key {
            match &self.left {
                Some(l) => l.get(key),
                None => None,
            }
        } else if *key > self.key {
            match &self.right {
                Some(r) => r.get(key),
                None => None,
            }
        } else {
            Some(&self.value)
        }
    }
}

impl<V> AvlTree<V> {
    /// An empty tree.
    pub fn new() -> (t: Self)
        ensures
            t.wf(),
            t@ == Map::<u64, V>::empty(),
            t.height_spec() == 0,
    {
        AvlTree { root: None, size: 0 }
    }

    /// True iff the tree holds no keys.
    pub fn is_empty(&self) -> (r: bool)
        requires
            self.wf(),
        ensures
            r <==> self@.dom().len() == 0,
            r <==> self@ == Map::<u64, V>::empty(),
    {
        proof {
            lemma_map_props(self.root);
            if self.root is None {
                assert(self@ =~= Map::<u64, V>::empty());
            } else {
                assert(self@.dom().contains(self.root.unwrap().key));
                assert(self@ !~= Map::<u64, V>::empty());
            }
        }
        self.root.is_none()
    }

    /// The exact number of distinct keys stored.
    pub fn len(&self) -> (n: usize)
        requires
            self.wf(),
        ensures
            n == self@.dom().len(),
    {
        proof {
            lemma_map_props(self.root);
        }
        self.size
    }

    /// The height of the tree: 0 when empty.
    pub fn height(&self) -> (h: usize)
        requires
            self.wf(),
        ensures
            h as int == self.height_spec(),
            self@.dom().len() == 0 ==> h == 0,
    {
        proof {
            lemma_map_props(self.root);
            if self.root is Some {
                assert(self@.dom().contains(self.root.unwrap().key));
            }
        }
        AvlNode::height(&self.root)
    }

    /// Adds `key` with `value`, or overwrites the value if the key is
    /// already present; the count grows by one exactly when the key was new.
    /// The tree stays a balanced search tree.
    pub fn insert(&mut self, key: u64, value: V)
        requires
            old(self).wf(),
            old(self)@.dom().contains(key) || old(self)@.dom().len() < usize::MAX,
        ensures
            final(self).wf(),
            final(self)@ == old(self)@.insert(key, value),
            final(self)@[key] == value,
            final(self)@.dom().len() == old(self)@.dom().len() + (if old(
                self,
            )@.dom().contains(key) {
                0int
            } else {
                1int
            }),
    {
        let key_exists = self.get(&key).is_some();
        let root = self.root.take();
        proof {
            lemma_map_props(root);
        }
        self.root = Some(AvlNode::insert(root, key, value));
        if !key_exists {
            self.size = self.size + 1;
        }
        proof {
            assert(opt_map(self.root) == self.root.unwrap().as_map());
            assert(opt_count(self.root) == self.root.unwrap().count());
            lemma_map_props(self.root);
        }
    }

    /// Looks the key up: the stored value when present, absent otherwise.
    pub fn get(&self, key: &u64) -> (r: Option<&V>)
        requires
            self.wf(),
        ensures
            (match r {
                Some(v) => self@.dom().contains(*key) && *v == self@[*key],
                None => !self@.dom().contains(*key),
            }),
    {
        match &self.root {
            Some(root) => root.get(key),
            None => {
                proof {
                    assert(!self@.dom().contains(*key));
                }
                None
            },
        }
    }

    /// Discards all entries: afterwards the tree is empty, its height is 0,
    /// and every key is absent. Infallible and idempotent.
    pub fn clear(&mut self)
        ensures
            final(self).wf(),
            final(self)@ == Map::<u64, V>::empty(),
            final(self).height_spec() == 0,
            final(self)@.dom().len() == 0,
    {
        self.root = None;
        self.size = 0;
        proof {
            assert(self@ =~= Map::<u64, V>::empty());
        }
    }

    /// True iff the tree holds at least `max_size` keys: the advisory
    /// signal that the buffer is due to be persisted and cleared.
    pub fn should_flush(&self, max_size: usize) -> (r: bool)
        requires
            self.wf(),
        ensures
            r <==> self@.dom().len() >= max_size,
    {
        proof {
            lemma_map_props(self.root);
        }
        self.size >= max_size
    }
}

impl<V> Default for AvlTree<V> {
    /// Same as `AvlTree::new`: an empty tree.
    fn default() -> (t: Self)
        ensures
            t.wf(),
            t@ == Map::<u64, V>::empty(),
    {
        Self::new()
    }
}

/// How a node's map decomposes: a key is present iff it is the node's own
/// key or lies in a child, and lookups go to the child that holds the key
/// (the node's own binding wins for its own key).
pub proof fn lemma_as_map_dom<V>(n: AvlNode<V>)
    ensures
        forall|k: u64| #[trigger] n.as_map().dom().contains(k) <==> (opt_map(
            n.left,
        ).dom().contains(k) || opt_map(n.right).dom().contains(k) || k == n.key),
        forall|k: u64| #[trigger] opt_map(n.right).dom().contains(k) && k != n.key
            ==> n.as_map()[k] == opt_map(n.right)[k],
        forall|k: u64| #[trigger] opt_map(n.left).dom().contains(k) && !opt_map(
            n.right,
        ).dom().contains(k) && k != n.key ==> n.as_map()[k] == opt_map(n.left)[k],
        n.as_map().dom().contains(n.key),
        n.as_map()[n.key] == n.value,
{
}

/// A subtree's height never exceeds its node count.
pub proof fn lemma_height_le_count<V>(o: Option<Box<AvlNode<V>>>)
    requires
        opt_shape_wf(o),
    ensures
        opt_height(o) <= opt_count(o),
    decreases o,
{
    match o {
        None => {}
        Some(n) => {
            lemma_height_le_count(n.left);
            lemma_height_le_count(n.right);
        }
    }
}

/// The map of a well-shaped subtree is finite and has exactly as many keys
/// as the subtree has nodes.
pub proof fn lemma_map_props<V>(o: Option<Box<AvlNode<V>>>)
    requires
        opt_shape_wf(o),
    ensures
        opt_map(o).dom().finite(),
        opt_map(o).dom().len() == opt_count(o),
    decreases o,
{
    broadcast use vstd::set_lib::lemma_set_disjoint_lens;

    match o {
        None => {
            assert(opt_map(o) =~= Map::<u64, V>::empty());
        }
        Some(n) => {
            lemma_map_props(n.left);
            lemma_map_props(n.right);
            let lm = opt_map(n.left);
            let rm = opt_map(n.right);
            let u = lm.union_prefer_right(rm);
            assert(u.dom() =~= lm.dom() + rm.dom());
            assert(lm.dom().disjoint(rm.dom()));
            assert(u.dom().len() == lm.dom().len() + rm.dom().len());
            assert(!u.dom().contains(n.key));
            assert(n.as_map().dom() =~= u.dom().insert(n.key));
        }
    }
}

impl<V: Clone> AvlNode<V> {
    /// In-order traversal, appending `(key, value)` pairs to `result`:
    /// left subtree, this node, right subtree. The appended keys are exactly
    /// this subtree's keys in ascending order; each appended value is a
    /// clone of the value stored under its key.
    fn collect_all(&self, result: &mut Vec<(u64, V)>)
        requires
            self.wf(),
        ensures
            final(result)@.len() == old(result)@.len() + self.count(),
            forall|i: int| 0 <= i < old(result)@.len() ==> final(result)@[i] == old(
                result,
            )@[i],
            forall|i: int| 0 <= i < self.count() ==> (#[trigger] final(result)@[old(
                result,
            )@.len() + i]).0 == self.keys_in_order()[i],
            forall|i: int| 0 <= i < self.count() ==> cloned::<V>(
                self.as_map()[self.keys_in_order()[i]],
                final(result)@[old(result)@.len() + i].1,
            ),
        decreases *self,
    {
        let ghost base = result@.len() as int;
        let ghost lcount = opt_count(self.left) as int;
        proof {
            assert(self.shape_wf() && self.balanced());
            assert(opt_shape_wf(self.left) && opt_balanced(self.left));
            assert(opt_shape_wf(self.right) && opt_balanced(self.right));
            lemma_as_map_dom(*self);
            lemma_keys_in_order(self.left);
            lemma_keys_in_order(self.right);
        }
        if let Some(left) = &self.left {
            left.collect_all(result);
            proof {
                assert(opt_keys(self.left) == left.keys_in_order());
                assert(opt_map(self.left) == left.as_map());
                assert(opt_count(self.left) == left.count());
            }
        }
        let ghost r1 = result@;
        result.push((self.key, self.value.clone()));
        let ghost r2 = result@;
        if let Some(right) = &self.right {
            right.collect_all(result);
            proof {
                assert(opt_keys(self.right) == right.keys_in_order());
                assert(opt_map(self.right) == right.as_map());
                assert(opt_count(self.right) == right.count());
            }
        }
        proof {
            let s = self.keys_in_order();
            let ls = opt_keys(self.left);
            let rs = opt_keys(self.right);
            assert(r1.len() == base + lcount);
            assert(r2.len() == base + lcount + 1);
            assert(result@.len() == base + self.count());
            assert forall|i: int| 0 <= i < self.count() implies (#[trigger] result@[base
                + i]).0 == s[i] && cloned::<V>(self.as_map()[s[i]], result@[base + i].1) by {
                if i < lcount {
                    assert(result@[base + i] == r2[base + i]);
                    assert(r2[base + i] == r1[base + i]);
                    assert((r1[base + i]).0 == ls[i]);
                    assert(cloned::<V>(opt_map(self.left)[ls[i]], r1[base + i].1));
                    assert(s[i] == ls[i]);
                    assert(opt_map(self.left).dom().contains(ls[i]));
                    assert(ls[i] < self.key);
                    assert(!opt_map(self.right).dom().contains(ls[i]));
                    assert(self.as_map()[s[i]] == opt_map(self.left)[ls[i]]);
                } else if i == lcount {
                    assert(result@[base + i] == r2[base + i]);
                    assert(r2[base + i] == (self.key, r2[base + i].1));
                    assert(cloned::<V>(self.value, r2[base + i].1));
                    assert(s[i] == self.key);
                    assert(self.as_map()[self.key] == self.value);
                } else {
                    assert(result@[r2.len() + (i - lcount - 1)].0 == rs[i - lcount - 1]);
                    assert(cloned::<V>(
                        opt_map(self.right)[rs[i - lcount - 1]],
                        result@[r2.len() + (i - lcount - 1)].1,
                    ));
                    assert(result@[base + i] == result@[r2.len() + (i - lcount - 1)]);
                    assert(s[i] == rs[i - lcount - 1]);
                    assert(opt_map(self.right).dom().contains(rs[i - lcount - 1]));
                    assert(rs[i - lcount - 1] > self.key);
                    assert(self.as_map()[s[i]] == opt_map(self.right)[rs[i - lcount - 1]]);
                }
            }
        }
    }
}

impl<V: Clone> AvlTree<V> {
    /// Exports every stored pair in ascending key order, without changing
    /// the tree (the buffer is read through a shared reference; persisting
    /// and then resetting it is the caller's `flush`-then-`clear` sequence).
    /// Values are clones of the stored ones.
    pub fn flush(&self) -> (r: Vec<(u64, V)>)
        requires
            self.wf(),
        ensures
            flush_post(*self, r@),
            r@.len() == self@.dom().len(),
            forall|i: int, j: int| 0 <= i < j < r@.len() ==> r@[i].0 < r@[j].0,
            forall|i: int| 0 <= i < r@.len() ==> (#[trigger] r@[i]).0 == opt_keys(
                self.root,
            )[i],
            forall|i: int| 0 <= i < r@.len() ==> self@.dom().contains(#[trigger] r@[i].0)
                && cloned::<V>(self@[r@[i].0], r@[i].1),
            forall|k: u64| #[trigger] self@.dom().contains(k) ==> opt_keys(
                self.root,
            ).contains(k),
    {
        let mut result = Vec::new();
        proof {
            lemma_map_props(self.root);
            lemma_keys_in_order(self.root);
        }
        if let Some(root) = &self.root {
            root.collect_all(&mut result);
            proof {
                assert(opt_keys(self.root) == root.keys_in_order());
                assert(opt_map(self.root) == root.as_map());
                assert(opt_count(self.root) == root.count());
                assert forall|i: int| 0 <= i < result@.len() implies (#[trigger] result@[i]).0
                    == opt_keys(self.root)[i] && self@.dom().contains(result@[i].0)
                    && cloned::<V>(self@[result@[i].0], result@[i].1) by {
                    assert((result@[0 + i]).0 == root.keys_in_order()[i]);
                    assert(cloned::<V>(
                        root.as_map()[root.keys_in_order()[i]],
                        result@[0 + i].1,
                    ));
                    assert(opt_map(self.root).dom().contains(opt_keys(self.root)[i]));
                }
            }
        }
        result
    }
}

/// Everything `flush` promises of its result, as one predicate: as many
/// pairs as there are keys, the keys in ascending order (the tree's own
/// in-order key sequence, so every stored key appears), and each value a
/// clone of the value stored under its key.
pub open spec fn flush_post<V: Clone>(t: AvlTree<V>, r: Seq<(u64, V)>) -> bool {
    &&& r.len() == t@.dom().len()
    &&& forall|i: int| 0 <= i < r.len() ==> (#[trigger] r[i]).0 == opt_keys(t.root)[i]
    &&& forall|i: int| 0 <= i < r.len() ==> t@.dom().contains(#[trigger] r[i].0)
        && cloned::<V>(t@[r[i].0], r[i].1)
}

/// The in-order key sequence of a well-shaped subtree lists each stored key
/// exactly once, in strictly ascending order.
pub proof fn lemma_keys_in_order<V>(o: Option<Box<AvlNode<V>>>)
    requires
        opt_shape_wf(o),
    ensures
        opt_keys(o).len() == opt_count(o),
        forall|i: int, j: int| 0 <= i < j < opt_keys(o).len() ==> opt_keys(o)[i] < opt_keys(
            o,
        )[j],
        forall|i: int| 0 <= i < opt_keys(o).len() ==> opt_map(o).dom().contains(
            #[trigger] opt_keys(o)[i],
        ),
        forall|k: u64| #[trigger] opt_map(o).dom().contains(k) ==> opt_keys(o).contains(k),
    decreases o,
{
    match o {
        None => {}
        Some(n) => {
            lemma_keys_in_order(n.left);
            lemma_keys_in_order(n.right);
            lemma_as_map_dom(*n);
            let s = n.keys_in_order();
            let ls = opt_keys(n.left);
            let rs = opt_keys(n.right);
            let ll = ls.len() as int;
            assert(opt_keys(o) == s);
            assert(opt_map(o) == n.as_map());
            assert(s.len() == ls.len() + 1 + rs.len());
            assert(opt_count(o) == n.count());
            assert forall|i: int| 0 <= i < s.len() implies n.as_map().dom().contains(
                #[trigger] s[i],
            ) && (i < ll ==> s[i] < n.key) && (i == ll ==> s[i] == n.key) && (i > ll ==> s[i]
                > n.key) by {
                if i < ll {
                    assert(s[i] == ls[i]);
                    assert(opt_map(n.left).dom().contains(ls[i]));
                } else if i == ll {
                    assert(s[i] == n.key);
                } else {
                    assert(s[i] == rs[i - ll - 1]);
                    assert(opt_map(n.right).dom().contains(rs[i - ll - 1]));
                }
            }
            assert forall|i: int, j: int| 0 <= i < j < s.len() implies s[i] < s[j] by {
                if j < ll {
                    assert(s[i] == ls[i] && s[j] == ls[j]);
                } else if i > ll {
                    assert(s[i] == rs[i - ll - 1] && s[j] == rs[j - ll - 1]);
                }
            }
            assert forall|k: u64| #[trigger] n.as_map().dom().contains(k) implies s.contains(
                k,
            ) by {
                if opt_map(n.left).dom().contains(k) {
                    assert(ls.contains(k));
                    let i = choose|i: int| 0 <= i < ls.len() && ls[i] == k;
                    assert(s[i] == k);
                } else if opt_map(n.right).dom().contains(k) {
                    assert(rs.contains(k));
                    let i = choose|i: int| 0 <= i < rs.len() && rs[i] == k;
                    assert(s[ll + 1 + i] == k);
                } else {
                    assert(k == n.key);
                    assert(s[ll] == k);
                }
            }
        }
    }
}

/// The Fibonacci numbers, used to state how fast a balanced tree's node
/// count grows with its height.
pub open spec fn fib(n: nat) -> nat
    decreases n,
{
    if n == 0 {
        0
    } else if n == 1 {
        1
    } else {
        fib((n - 1) as nat) + fib((n - 2) as nat)
    }
}

/// Fibonacci numbers never decrease.
pub proof fn lemma_fib_monotonic(a: nat, b: nat)
    requires
        a <= b,
    ensures
        fib(a) <= fib(b),
    decreases b,
{
    if a < b {
        if b == 1 {
            assert(fib(a) == 0);
        } else {
            lemma_fib_monotonic(a, (b - 1) as nat);
            assert(fib(b) == fib((b - 1) as nat) + fib((b - 2) as nat));
        }
    }
}

/// A balanced subtree of height `h` holds at least `fib(h + 2) - 1` nodes:
/// the count grows at least exponentially with the height.
pub proof fn lemma_count_fib<V>(o: Option<Box<AvlNode<V>>>)
    requires
        opt_wf(o),
    ensures
        fib((opt_height(o) + 2) as nat) <= opt_count(o) + 1,
    decreases o,
{
    match o {
        None => {
            assert(fib(0) == 0 && fib(1) == 1);
            assert(fib(2) == 1);
        }
        Some(n) => {
            assert(n.shape_wf() && n.balanced());
            assert(opt_shape_wf(n.left) && opt_balanced(n.left));
            assert(opt_shape_wf(n.right) && opt_balanced(n.right));
            lemma_count_fib(n.left);
            lemma_count_fib(n.right);
            let h = n.height as int;
            let hl = opt_height(n.left);
            let hr = opt_height(n.right);
            assert(opt_count(o) == 1 + opt_count(n.left) + opt_count(n.right));
            assert(fib((h + 2) as nat) == fib((h + 1) as nat) + fib(h as nat));
            if hl >= hr {
                assert(h == hl + 1);
                lemma_fib_monotonic(h as nat, (hr + 2) as nat);
            } else {
                assert(h == hr + 1);
                lemma_fib_monotonic(h as nat, (hl + 2) as nat);
            }
        }
    }
}

/// The Fibonacci numbers grow at least like powers of two:
/// `2^(n / 2) <= fib(n + 2)`.
pub proof fn lemma_fib_exponential(n: nat)
    ensures
        vstd::arithmetic::power2::pow2(n / 2) <= fib(n + 2),
    decreases n,
{
    if n == 0 {
        assert(fib(0) == 0 && fib(1) == 1);
        assert(fib(2) == 1);
        vstd::arithmetic::power2::lemma2_to64();
    } else if n == 1 {
        assert(fib(0) == 0 && fib(1) == 1);
        assert(fib(2) == 1);
        assert(fib(3) == 2);
        vstd::arithmetic::power2::lemma2_to64();
    } else {
        vstd::arithmetic::power2::lemma_pow2_unfold(n / 2);
        lemma_fib_exponential((n - 2) as nat);
        lemma_fib_monotonic(n, n + 1);
        assert(fib(n + 2) == fib(n + 1) + fib(n));
        assert(n / 2 == (n - 2) as nat / 2 + 1);
        assert(vstd::arithmetic::power2::pow2(n / 2) == 2 * vstd::arithmetic::power2::pow2(
            ((n - 2) as nat) / 2,
        ));
    }
}

/// The height of a well-formed tree is logarithmic in its length:
/// `fib(height + 2)` never exceeds `len() + 1`, and since `fib` grows at
/// least exponentially, `2^(height / 2) <= len() + 1` too. An empty tree
/// has height 0.
pub proof fn lemma_height_logarithmic<V>(t: AvlTree<V>)
    requires
        t.wf(),
    ensures
        fib((t.height_spec() + 2) as nat) <= t@.dom().len() + 1,
        vstd::arithmetic::power2::pow2((t.height_spec() / 2) as nat) <= t@.dom().len() + 1,
        t@.dom().len() == 0 ==> t.height_spec() == 0,
{
    lemma_count_fib(t.root);
    lemma_map_props(t.root);
    lemma_fib_exponential(t.height_spec() as nat);
    if t.root is Some {
        assert(opt_count(t.root) == t.root.unwrap().count());
        assert(opt_count(t.root) >= 1);
    }
}

/// Two `flush` calls with no mutation in between return identical
/// sequences, provided cloning a value of `V` always yields a value equal
/// to the original (`flush` pins the keys exactly; only the values go
/// through `Clone`).
pub proof fn lemma_flush_deterministic<V: Clone>(
    t: AvlTree<V>,
    r1: Seq<(u64, V)>,
    r2: Seq<(u64, V)>,
)
    requires
        flush_post(t, r1),
        flush_post(t, r2),
        forall|a: V, b: V| cloned::<V>(a, b) ==> a == b,
    ensures
        r1 == r2,
{
    assert forall|i: int| 0 <= i < r1.len() implies r1[i] == r2[i] by {
        assert((r1[i]).0 == opt_keys(t.root)[i]);
        assert((r2[i]).0 == opt_keys(t.root)[i]);
        assert(cloned::<V>(t@[r1[i].0], r1[i].1));
        assert(cloned::<V>(t@[r2[i].0], r2[i].1));
        assert(r1[i].1 == t@[r1[i].0]);
        assert(r2[i].1 == t@[r2[i].0]);
    }
    assert(r1 =~= r2);
}

/// After `clear` the tree's map is empty, and the empty map holds no key:
/// together with `get`'s contract, every previously inserted key returns
/// absent once the tree is cleared.
pub proof fn lemma_empty_map_absent<V>(k: u64)
    ensures
        !Map::<u64, V>::empty().dom().contains(k),
{
}

} // verus!
