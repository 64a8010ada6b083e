use vstd::prelude::*;

use crate::order::{
    count_le, lemma_count_le_all, lemma_count_le_bound, lemma_count_le_concat, lemma_count_le_none,
    sorted, sorted_insert, TotalOrder,
};

verus! {

/// One stored value, the number of values in its subtree, and its children.
struct Node<T> {
    data: T,
    size: usize,
    left: Option<Box<Node<T>>>,
    right: Option<Box<Node<T>>>,
}

impl<T: TotalOrder> Node<T> {
    /// The values of an optional subtree, in order.
    spec fn values_of(link: Option<Box<Node<T>>>) -> Seq<T>
        decreases link,
    {
        match link {
            None => Seq::empty(),
            Some(n) => n.values(),
        }
    }

    /// The values of this subtree, in order: left subtree, own value, right subtree.
    spec fn values(self) -> Seq<T>
        decreases self,
    {
        Self::values_of(self.left) + seq![self.data] + Self::values_of(self.right)
    }

    spec fn link_wf(link: Option<Box<Node<T>>>) -> bool
        decreases link,
    {
        match link {
            None => true,
            Some(n) => n.wf(),
        }
    }

    /// The size counter is exact, values on the left are ordered strictly
    /// before this node's value, values on the right at or after it, and the
    /// same holds of both children.
    spec fn wf(self) -> bool
        decreases self,
    {
        &&& self.size as nat == self.values().len()
        &&& forall|i: int|
            0 <= i < Self::values_of(self.left).len() ==> !self.data.le(
                #[trigger] Self::values_of(self.left)[i],
            )
        &&& forall|i: int|
            0 <= i < Self::values_of(self.right).len() ==> self.data.le(
                #[trigger] Self::values_of(self.right)[i],
            )
        &&& Self::link_wf(self.left)
        &&& Self::link_wf(self.right)
    }

    proof fn lemma_sorted(self)
        requires
            self.wf(),
        ensures
            sorted(self.values()),
        decreases self,
    {
        let l = Self::values_of(self.left);
        let r = Self::values_of(self.right);
        if let Some(n) = self.left {
            n.lemma_sorted();
        }
        if let Some(n) = self.right {
            n.lemma_sorted();
        }
        let s = self.values();
        let d = self.data;
        assert forall|i: int, j: int| 0 <= i < j < s.len() implies #[trigger] s[i].le(s[j]) by {
            let nl = l.len() as int;
            if j < nl {
                assert(l[i].le(l[j]));
            } else if i < nl {
                T::lemma_total(l[i], d);
                if j > nl {
                    assert(d.le(r[j - nl - 1]));
                    T::lemma_transitive(l[i], d, r[j - nl - 1]);
                }
            } else if i == nl {
                assert(d.le(r[j - nl - 1]));
            } else {
                assert(r[i - nl - 1].le(r[j - nl - 1]));
            }
        }
    }

    fn new(data: T) -> (n: Self)
        ensures
            n.wf(),
            n.data == data,
            n.values() == seq![data],
            n.left.is_none(),
            n.right.is_none(),
    {
        let n = Node { data: data, size: 1, left: None, right: None };
        assert(n.values() =~= seq![data]);
        n
    }

    /// The number of values in an optional subtree.
    fn link_size(link: &Option<Box<Node<T>>>) -> (n: usize)
        requires
            Self::link_wf(*link),
        ensures
            n == Self::values_of(*link).len(),
    {
        match link {
            Some(node) => node.size,
            None => 0,
        }
    }

    /// Places the leaf `leaf` in the subtree of `node`: left of a node whose
    /// value is ordered strictly after the new one, right of any other,
    /// counting it in the size of every node on the way down.
    fn push_node(node: &mut Box<Node<T>>, leaf: Box<Node<T>>)
        requires
            old(node).wf(),
            leaf.wf(),
            leaf.left.is_none(),
            leaf.right.is_none(),
            old(node).values().len() < usize::MAX,
        ensures
            final(node).wf(),
            final(node).values() == sorted_insert(old(node).values(), leaf.data),
        decreases old(node).values().len(),
    {
        let ghost l = Self::values_of(node.left);
        let ghost r = Self::values_of(node.right);
        let ghost d = node.data;
        let ghost v = leaf.data;
        proof {
            assert(leaf.values() =~= seq![v]);
            lemma_count_le_concat(l + seq![d], r, v);
            lemma_count_le_concat(l, seq![d], v);
            assert((l + seq![d]).drop_last() =~= l);
            assert(seq![d].drop_last() =~= Seq::<T>::empty());
        }
        node.size = node.size + 1;
        if leaf.data.less_than(&node.data) {
            match node.left.take() {
                Some(mut left) => {
                    Self::push_node(&mut left, leaf);
                    node.left = Some(left);
                },
                None => {
                    node.left = Some(leaf);
                },
            }
            proof {
                assert forall|i: int| 0 <= i < r.len() implies !(#[trigger] r[i]).le(v) by {
                    if r[i].le(v) {
                        T::lemma_transitive(d, r[i], v);
                    }
                }
                lemma_count_le_none(r, v);
                lemma_count_le_bound(l, v);
                let k = count_le(l, v) as int;
                l.insert_ensures(k, v);
                let nl = Self::values_of(node.left);
                assert(nl =~= l.insert(k, v));
                assert forall|i: int| 0 <= i < nl.len() implies !d.le(#[trigger] nl[i]) by {
                    if i > k {
                        assert(nl[i] == l[i - 1]);
                    }
                }
                assert(node.values() =~= (l + seq![d] + r).insert(k, v));
            }
        } else {
            match node.right.take() {
                Some(mut right) => {
                    Self::push_node(&mut right, leaf);
                    node.right = Some(right);
                },
                None => {
                    node.right = Some(leaf);
                },
            }
            proof {
                assert forall|i: int| 0 <= i < l.len() implies (#[trigger] l[i]).le(v) by {
                    T::lemma_total(l[i], d);
                    T::lemma_transitive(l[i], d, v);
                }
                lemma_count_le_all(l, v);
                lemma_count_le_bound(r, v);
                let k = count_le(r, v) as int;
                r.insert_ensures(k, v);
                let nr = Self::values_of(node.right);
                assert(nr =~= r.insert(k, v));
                assert forall|i: int| 0 <= i < nr.len() implies d.le(#[trigger] nr[i]) by {
                    if i > k {
                        assert(nr[i] == r[i - 1]);
                    }
                }
                assert(node.values() =~= (l + seq![d] + r).insert(l.len() + 1 + k, v));
            }
        }
    }

    /// The value of rank `index` (counted from 1) in the subtree of `node`.
    fn find(node: &Box<Node<T>>, index: usize) -> (r: Option<T>)
        requires
            node.wf(),
        ensures
            r == (if 1 <= index <= node.values().len() {
                Some(node.values()[index - 1])
            } else {
                None
            }),
        decreases node.values().len(),
    {
        let p: usize = Self::link_size(&node.left) + 1;
        if p == index {
            Some(node.data.duplicate())
        } else if index < p {
            match &node.left {
                Some(left) => Self::find(left, index),
                None => None,
            }
        } else {
            match &node.right {
                Some(right) => Self::find(right, index - p),
                None => None,
            }
        }
    }

    /// Takes the value of rank `index` (counted from 1) out of the subtree in
    /// `link`, decreasing the size of every node on the way down. A node with
    /// two children keeps its place and takes the value of its successor,
    /// which is taken out of its right subtree in turn.
    fn remove(link: &mut Option<Box<Node<T>>>, index: usize) -> (r: T)
        requires
            Self::link_wf(*old(link)),
            1 <= index <= Self::values_of(*old(link)).len(),
        ensures
            Self::link_wf(*final(link)),
            r == Self::values_of(*old(link))[index - 1],
            Self::values_of(*final(link)) == Self::values_of(*old(link)).remove(index - 1),
        decreases Self::values_of(*old(link)).len(),
    {
        let mut node = link.take().unwrap();
        proof {
            node.lemma_sorted();
        }
        let ghost l = Self::values_of(node.left);
        let ghost r = Self::values_of(node.right);
        let ghost d = node.data;
        let p: usize = Self::link_size(&node.left) + 1;
        if node.left.is_some() && index < p {
            node.size = node.size - 1;
            let removed = Self::remove(&mut node.left, index);
            proof {
                l.remove_ensures(index - 1);
                let nl = Self::values_of(node.left);
                assert forall|i: int| 0 <= i < nl.len() implies !d.le(#[trigger] nl[i]) by {
                    if i < index - 1 {
                        assert(nl[i] == l[i]);
                    } else {
                        assert(nl[i] == l[i + 1]);
                    }
                }
                assert(node.values() =~= (l + seq![d] + r).remove(index - 1));
            }
            *link = Some(node);
            removed
        } else if node.right.is_some() && index > p {
            node.size = node.size - 1;
            let removed = Self::remove(&mut node.right, index - p);
            proof {
                r.remove_ensures(index - p - 1);
                let nr = Self::values_of(node.right);
                assert forall|i: int| 0 <= i < nr.len() implies d.le(#[trigger] nr[i]) by {
                    if i < index - p - 1 {
                        assert(nr[i] == r[i]);
                    } else {
                        assert(nr[i] == r[i + 1]);
                    }
                }
                assert(node.values() =~= (l + seq![d] + r).remove(index - 1));
            }
            *link = Some(node);
            removed
        } else if node.left.is_some() && node.right.is_some() {
            node.size = node.size - 1;
            let mut successor = Self::remove(&mut node.right, 1);
            std::mem::swap(&mut node.data, &mut successor);
            proof {
                r.remove_ensures(0);
                let nr = Self::values_of(node.right);
                let m = node.data;
                assert(m == r[0]);
                assert forall|i: int| 0 <= i < l.len() implies !m.le(#[trigger] l[i]) by {
                    assert(d.le(m));
                    if m.le(l[i]) {
                        T::lemma_transitive(d, m, l[i]);
                    }
                }
                let whole = l + seq![d] + r;
                assert forall|i: int| 0 <= i < nr.len() implies m.le(#[trigger] nr[i]) by {
                    assert(nr[i] == r[i + 1]);
                    assert(whole[l.len() as int + 1].le(whole[l.len() as int + 2 + i]));
                }
                assert(node.values() =~= (l + seq![d] + r).remove(index - 1));
            }
            *link = Some(node);
            successor
        } else {
            let Node { data, size: _, left, right } = *node;
            if left.is_some() {
                *link = left;
                assert(Self::values_of(*link) =~= (l + seq![d] + r).remove(index - 1));
            } else {
                *link = right;
                assert(Self::values_of(*link) =~= (l + seq![d] + r).remove(index - 1));
            }
            data
        }
    }
}

/// A container of ordered values that are read and removed by their rank,
/// counted from zero in sorted order. Its view is the sequence of the stored
/// values in rank order.
pub trait Container<T: TotalOrder>: View<V = Seq<T>> + Sized {
    /// The structural invariant that every operation keeps.
    spec fn well_formed(&self) -> bool;

    /// Stores `data` after every value ordered at or before it: an equal
    /// value already stored keeps the lower rank.
    fn insert(&mut self, data: T)
        requires
            old(self).well_formed(),
            old(self)@.len() < usize::MAX,
        ensures
            final(self).well_formed(),
            final(self)@ == sorted_insert(old(self)@, data),
    ;

    /// A copy of the value of rank `index`, or `None` where there is none.
    fn get(&self, index: u64) -> (r: Option<T>)
        requires
            self.well_formed(),
        ensures
            r == (if index < self@.len() {
                Some(self@[index as int])
            } else {
                None
            }),
    ;

    /// Removes the value of rank `index`; `false`, with nothing changed,
    /// where `index` is not below the size.
    fn remove(&mut self, index: u64) -> (r: bool)
        requires
            old(self).well_formed(),
        ensures
            final(self).well_formed(),
            r == (index < old(self)@.len()),
            r ==> final(self)@ == old(self)@.remove(index as int),
            !r ==> final(self)@ == old(self)@,
    ;

    /// The number of stored values.
    fn size(&self) -> (n: usize)
        requires
            self.well_formed(),
        ensures
            n == self@.len(),
    ;
}

/// A binary search tree whose nodes count the values in their subtree. It is
/// not rebalanced: values inserted in sorted order make a path.
pub struct OrderStatisticTree<T> {
    root: Option<Box<Node<T>>>,
}

impl<T: TotalOrder> View for OrderStatisticTree<T> {
    type V = Seq<T>;

    closed spec fn view(&self) -> Seq<T> {
        Node::values_of(self.root)
    }
}

impl<T: TotalOrder> OrderStatisticTree<T> {
    /// An empty tree.
    pub fn new() -> (t: Self)
        ensures
            t.well_formed(),
            t@ == Seq::<T>::empty(),
    {
        OrderStatisticTree { root: None }
    }

    /// The values of a well-formed tree are in order of rank: each is
    /// ordered at or before the next, whatever was inserted and removed.
    pub proof fn lemma_rank_order(&self)
        requires
            self.well_formed(),
        ensures
            sorted(self@),
            forall|i: int| 0 <= i < self@.len() - 1 ==> #[trigger] self@[i].le(self@[i + 1]),
    {
        if let Some(root) = self.root {
            root.lemma_sorted();
        }
    }
}

impl<T: TotalOrder> Container<T> for OrderStatisticTree<T> {
    closed spec fn well_formed(&self) -> bool {
        Node::link_wf(self.root)
    }

    fn insert(&mut self, data: T) {
        let node = Box::new(Node::new(data));
        match self.root.take() {
            Some(mut root) => {
                Node::push_node(&mut root, node);
                self.root = Some(root);
            },
            None => {
                self.root = Some(node);
                assert(self@ =~= sorted_insert(Seq::<T>::empty(), data));
            },
        }
    }

    fn get(&self, index: u64) -> (r: Option<T>) {
        let n = self.size();
        if index >= n as u64 {
            return None;
        }
        match &self.root {
            Some(root) => Node::find(root, index as usize + 1),
            None => None,
        }
    }

    fn remove(&mut self, index: u64) -> (r: bool) {
        let n = self.size();
        if index >= n as u64 {
            return false;
        }
        let _removed = Node::remove(&mut self.root, index as usize + 1);
        true
    }

    fn size(&self) -> (n: usize) {
        Node::link_size(&self.root)
    }
}

} // verus!
