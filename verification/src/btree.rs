pub mod node;

use vstd::prelude::*;

use crate::error::Error;
use node::{KeyValue, Node, NodeType};
use node::{child_hi, child_lo, children_wf, entry_keys, flat_entries, head_pair_seq, pair_keys, pairs_seq};
use node::{keys_between, sorted_keys};
use node::{
    lemma_child_height, lemma_flat_member, lemma_keys_member, lemma_pairs_seq_keys,
    lemma_wf_entries_sorted, lemma_wf_no_undefined,
};

verus! {

/// Exclusive lower bound below every `u64` key.
pub open spec fn key_min() -> int {
    -1
}

/// Exclusive upper bound above every `u64` key.
pub open spec fn key_max() -> int {
    u64::MAX as int + 1
}

/// A balanced multiway search tree mapping unique `u64` keys to values.
///
/// `t` is the minimum degree: every node except the root holds between
/// `t - 1` and `2t - 1` key-value pairs, and an internal node always has one
/// more child than pairs. There is no removal operation.
pub struct BTree<V> {
    root: Node<V>,
    t: usize,
}

impl<V> BTree<V> {
    /// The tree's well-formedness invariant: bounds on the minimum degree
    /// and a well-formed root over the full key range.
    pub closed spec fn wf(self) -> bool {
        &&& 2 <= self.t
        &&& self.t <= usize::MAX / 2
        &&& self.root.wf(self.t as nat, key_min(), key_max(), true)
    }

    /// The key-value pairs of the tree in ascending key order.
    pub closed spec fn entries(self) -> Seq<(u64, V)> {
        self.root.entries()
    }

    pub open spec fn spec_keys(self) -> Seq<u64> {
        entry_keys(self.entries())
    }

    pub open spec fn spec_contains(self, key: u64) -> bool {
        self.spec_keys().contains(key)
    }

    pub closed spec fn spec_min_degree(self) -> usize {
        self.t
    }

    pub closed spec fn spec_root(self) -> Node<V> {
        self.root
    }

    /// Creates an empty tree with minimum degree `t`.
    pub fn new(t: usize) -> (r: BTree<V>)
        requires
            2 <= t,
            t <= usize::MAX / 2,
        ensures
            r.wf(),
            r.entries() == Seq::<(u64, V)>::empty(),
            r.spec_min_degree() == t,
    {
        let r = BTree { root: Node { node_type: NodeType::Leaf(Vec::new()) }, t };
        proof {
            assert(pairs_seq(Seq::<KeyValue<V>>::empty()) =~= Seq::<(u64, V)>::empty());
        }
        r
    }

    /// The node structure of the tree, for read-only inspection.
    pub fn root(&self) -> (r: &Node<V>)
        ensures
            *r == self.spec_root(),
    {
        &self.root
    }

    /// The tree's minimum degree.
    pub fn min_degree(&self) -> (r: usize)
        ensures
            r == self.spec_min_degree(),
    {
        self.t
    }

    /// Point lookup: a borrow of the value stored under `key`, or
    /// `KeyWasNotFound`.
    pub fn search(&self, key: u64) -> (r: Result<&V, Error>)
        requires
            self.wf(),
        ensures
            match r {
                Ok(v) => self.entries().contains((key, *v)) && self.spec_contains(key),
                Err(e) => e == Error::KeyWasNotFound && !self.spec_contains(key),
            },
    {
        let found = search_in(
            &self.root,
            key,
            Ghost(self.t as nat),
            Ghost(key_min()),
            Ghost(key_max()),
            Ghost(true),
        );
        match found {
            Some(v) => {
                proof {
                    let es = self.entries();
                    let j = choose|j: int| 0 <= j < es.len() && es[j] == (key, *v);
                    assert(entry_keys(es)[j] == key);
                }
                Ok(v)
            },
            None => Err(Error::KeyWasNotFound),
        }
    }

    /// Membership test; never fails.
    pub fn contains(&self, key: u64) -> (r: bool)
        requires
            self.wf(),
        ensures
            r == self.spec_contains(key),
    {
        let found = search_in(
            &self.root,
            key,
            Ghost(self.t as nat),
            Ghost(key_min()),
            Ghost(key_max()),
            Ghost(true),
        );
        match found {
            Some(v) => {
                proof {
                    let es = self.entries();
                    let j = choose|j: int| 0 <= j < es.len() && es[j] == (key, *v);
                    assert(entry_keys(es)[j] == key);
                }
                true
            },
            None => false,
        }
    }
}

impl<V> BTree<V> {
    /// Inserts `key` mapped to `value`, splitting full nodes on the way down
    /// (including the root, which grows the tree by one level). Fails with
    /// `KeyAlreadyExists`, leaving the tree untouched, if the key is present;
    /// otherwise the entries gain exactly the new pair.
    #[verifier::rlimit(60)]
    pub fn insert(&mut self, key: u64, value: V) -> (r: Result<(), Error>)
        requires
            old(self).wf(),
        ensures
            final(self).wf(),
            match r {
                Err(e) => {
                    &&& e == Error::KeyAlreadyExists
                    &&& old(self).spec_contains(key)
                    &&& *final(self) == *old(self)
                },
                Ok(u) => {
                    &&& !old(self).spec_contains(key)
                    &&& final(self).entries().to_multiset() == old(
                        self,
                    ).entries().to_multiset().insert((key, value))
                    &&& final(self).spec_contains(key)
                    &&& final(self).spec_min_degree() == old(self).spec_min_degree()
                },
            },
    {
        broadcast use vstd::seq_lib::group_to_multiset_ensures;

        if self.contains(key) {
            return Err(Error::KeyAlreadyExists);
        }
        let full = match self.root.is_full(self.t) {
            Ok(b) => b,
            Err(_) => {
                proof {
                    assert(false);
                }
                false
            },
        };
        if full {
            let ghost oroot = self.root;
            proof {
                assert(oroot.num_pairs() == 2 * (self.t as nat) - 1);
                match oroot.node_type {
                    NodeType::Internal(cp, cc) => {
                        assert(cc@.len() == cp@.len() + 1);
                    },
                    _ => {},
                }
            }
            let mut old_root = Node { node_type: NodeType::Undefined };
            core::mem::swap(&mut self.root, &mut old_root);
            let sres = old_root.split(self.t);
            let sp = match sres {
                Ok(sp) => sp,
                Err(_) => {
                    proof {
                        assert(false);
                    }
                    return Err(Error::UnexpectedError);
                },
            };
            let ghost med = sp.pair;
            let ghost gsib = sp.new_node;
            let ghost glower = old_root;
            proof {
                lemma_split_node(
                    oroot,
                    glower,
                    med,
                    gsib,
                    self.t as nat,
                    key_min(),
                    key_max(),
                    true,
                );
            }
            let mut new_pairs: Vec<KeyValue<V>> = Vec::new();
            new_pairs.push(sp.pair);
            let mut new_children: Vec<Node<V>> = Vec::new();
            new_children.push(old_root);
            new_children.push(sp.new_node);
            self.root = Node { node_type: NodeType::Internal(new_pairs, new_children) };
            proof {
                let np = self.root.node_type->Internal_0@;
                let ncs = self.root.node_type->Internal_1@;
                assert(np =~= seq![med]);
                assert(ncs =~= seq![glower, gsib]);
                assert(pair_keys(np) =~= seq![med.key]);
                assert forall|m: int| 0 <= m < ncs.len() implies (#[trigger] ncs[m]).wf(
                    self.t as nat,
                    child_lo(np, key_min(), m),
                    child_hi(np, key_max(), m),
                    false,
                ) by {
                    assert(np[0] == med);
                    if m == 0 {
                        assert(ncs[0] == glower);
                    } else {
                        assert(ncs[1] == gsib);
                    }
                }
                reveal_with_fuel(flat_entries, 3);
                assert(node::tail_pairs(np).len() == 0);
                assert(ncs.drop_first() =~= seq![gsib]);
                assert(ncs.drop_first().drop_first().len() == 0);
                assert(head_pair_seq(np) =~= seq![(med.key, med.value)]);
                assert(flat_entries(node::tail_pairs(np), ncs.drop_first()) =~= gsib.entries());
                assert(flat_entries(np, ncs) =~= ncs[0].entries() + head_pair_seq(np)
                    + flat_entries(node::tail_pairs(np), ncs.drop_first()));
                assert(self.root.entries() =~= glower.entries() + seq![(med.key, med.value)]
                    + gsib.entries());
                assert(self.root.entries() == oroot.entries());
            }
        }
        insert_non_full(
            &mut self.root,
            self.t,
            key,
            value,
            Ghost(key_min()),
            Ghost(key_max()),
            Ghost(true),
        );
        proof {
            let es = self.entries();
            assert(es.to_multiset().count((key, value)) > 0);
            assert(es.contains((key, value)));
            let j = choose|j: int| 0 <= j < es.len() && es[j] == (key, value);
            assert(entry_keys(es)[j] == key);
        }
        Ok(())
    }
}

impl<V> Default for BTree<V> {
    /// An empty tree with the smallest legal minimum degree.
    fn default() -> (r: BTree<V>)
        ensures
            r.wf(),
            r.entries() == Seq::<(u64, V)>::empty(),
    {
        BTree::new(2)
    }
}

impl<V: Copy> BTree<V> {
    /// In-order export: every pair of the index, sorted ascending by key.
    pub fn export_ordered(&self) -> (r: Result<Vec<(u64, V)>, Error>)
        requires
            self.wf(),
        ensures
            match r {
                Ok(v) => v@ == self.entries(),
                Err(_) => false,
            },
    {
        proof {
            lemma_wf_no_undefined(self.root, self.t as nat, key_min(), key_max(), true);
        }
        self.root.into_vec()
    }
}

/// The size invariant of the index, visible through the tree's otherwise
/// opaque invariant: the root node is well formed over the full key range,
/// so (by `Node::wf`, which unfolds publicly) every node below it except the
/// root holds between `t - 1` and `2t - 1` pairs, and every internal node
/// has exactly one more child than pairs. `insert` preserves this.
pub proof fn lemma_size_invariant<V>(tree: BTree<V>)
    requires
        tree.wf(),
    ensures
        tree.spec_root().wf(tree.spec_min_degree() as nat, key_min(), key_max(), true),
        2 <= tree.spec_min_degree(),
        tree.spec_root().entries() == tree.entries(),
{
}

/// The exported key run of a well-formed tree is strictly sorted: any set of
/// unique keys comes back out in ascending order, without duplicates.
pub proof fn lemma_export_sorted<V>(tree: BTree<V>)
    requires
        tree.wf(),
    ensures
        sorted_keys(tree.spec_keys()),
{
    lemma_wf_entries_sorted(tree.spec_root(), tree.spec_min_degree() as nat, key_min(), key_max(), true);
}

/// Recursive descent for `search` and `contains`.
#[verifier::loop_isolation(false)]
fn search_in<'a, V>(
    node: &'a Node<V>,
    key: u64,
    Ghost(t): Ghost<nat>,
    Ghost(lo): Ghost<int>,
    Ghost(hi): Ghost<int>,
    Ghost(root): Ghost<bool>,
) -> (r: Option<&'a V>)
    requires
        node.wf(t, lo, hi, root),
        lo < key < hi,
    ensures
        match r {
            Some(v) => node.entries().contains((key, *v)),
            None => !entry_keys(node.entries()).contains(key),
        },
    decreases node.height(),
{
    match &node.node_type {
        NodeType::Undefined => {
            proof {
                assert(false);
            }
            None
        },
        NodeType::Leaf(pairs) => {
            let mut i: usize = 0;
            while i < pairs.len() && pairs[i].key < key
                invariant
                    0 <= i <= pairs@.len(),
                    forall|m: int| 0 <= m < i ==> (#[trigger] pairs@[m]).key < key,
                decreases pairs@.len() - i,
            {
                i += 1;
            }
            if i < pairs.len() && pairs[i].key == key {
                proof {
                    assert(node.entries()[i as int] == (key, pairs@[i as int].value));
                }
                Some(&pairs[i].value)
            } else {
                proof {
                    lemma_pairs_seq_keys(pairs@);
                    if entry_keys(node.entries()).contains(key) {
                        let j = choose|j: int|
                            0 <= j < pair_keys(pairs@).len() && pair_keys(pairs@)[j] == key;
                        assert(pairs@[j].key == key);
                        if j >= i {
                            assert(pair_keys(pairs@)[i as int] <= pair_keys(pairs@)[j]);
                        }
                    }
                }
                None
            }
        },
        NodeType::Internal(pairs, children) => {
            let mut i: usize = 0;
            while i < pairs.len() && pairs[i].key < key
                invariant
                    0 <= i <= pairs@.len(),
                    forall|m: int| 0 <= m < i ==> (#[trigger] pairs@[m]).key < key,
                decreases pairs@.len() - i,
            {
                i += 1;
            }
            if i < pairs.len() && pairs[i].key == key {
                proof {
                    assert(pairs_seq(pairs@)[i as int] == (key, pairs@[i as int].value));
                    lemma_flat_member(pairs@, children@, (key, pairs@[i as int].value));
                }
                Some(&pairs[i].value)
            } else {
                proof {
                    assert(children@[i as int].wf(
                        t,
                        child_lo(pairs@, lo, i as int),
                        child_hi(pairs@, hi, i as int),
                        false,
                    ));
                    lemma_child_height(*node, i as int);
                }
                let r = search_in(
                    &children[i],
                    key,
                    Ghost(t),
                    Ghost(child_lo(pairs@, lo, i as int)),
                    Ghost(child_hi(pairs@, hi, i as int)),
                    Ghost(false),
                );
                proof {
                    match r {
                        Some(v) => {
                            lemma_flat_member(pairs@, children@, (key, *v));
                        },
                        None => {
                            assert forall|m: int|
                                i as int <= m < pairs@.len() implies (#[trigger] pairs@[m]).key
                                > key by {
                                if m > i as int {
                                    assert(pair_keys(pairs@)[i as int] < pair_keys(pairs@)[m]);
                                }
                            }
                            lemma_key_absent(*node, t, lo, hi, root, key, i as int);
                        },
                    }
                }
                r
            }
        },
    }
}

/// If a key is neither among an internal node's own pairs nor in the one
/// child whose range admits it, it is nowhere in the subtree.
proof fn lemma_key_absent<V>(
    node: Node<V>,
    t: nat,
    lo: int,
    hi: int,
    root: bool,
    key: u64,
    i: int,
)
    requires
        node.wf(t, lo, hi, root),
        node.node_type is Internal,
        0 <= i <= node.node_type->Internal_0@.len(),
        forall|m: int|
            0 <= m < i ==> (#[trigger] node.node_type->Internal_0@[m]).key < key,
        forall|m: int|
            i <= m < node.node_type->Internal_0@.len() ==> (
            #[trigger] node.node_type->Internal_0@[m]).key > key,
        !entry_keys(node.node_type->Internal_1@[i].entries()).contains(key),
    ensures
        !entry_keys(node.entries()).contains(key),
{
    let pairs = node.node_type->Internal_0;
    let children = node.node_type->Internal_1;
    if entry_keys(node.entries()).contains(key) {
        lemma_keys_member(node.entries(), key);
        let j = choose|j: int| 0 <= j < node.entries().len() && (#[trigger] node.entries()[j]).0 == key;
        let e = node.entries()[j];
        assert(node.entries().contains(e));
        lemma_flat_member(pairs@, children@, e);
        if pairs_seq(pairs@).contains(e) {
            let m = choose|m: int| 0 <= m < pairs_seq(pairs@).len() && pairs_seq(pairs@)[m] == e;
            assert(pairs@[m].key == key);
        } else {
            let m = choose|m: int|
                0 <= m < children@.len() && (#[trigger] children@[m]).entries().contains(e);
            assert(children@[m].wf(t, child_lo(pairs@, lo, m), child_hi(pairs@, hi, m), false));
            lemma_wf_entries_sorted(
                children@[m],
                t,
                child_lo(pairs@, lo, m),
                child_hi(pairs@, hi, m),
                false,
            );
            let ks = entry_keys(children@[m].entries());
            let x = choose|x: int| 0 <= x < children@[m].entries().len() && children@[m].entries()[x] == e;
            assert(ks[x] == key);
            assert(child_lo(pairs@, lo, m) < key < child_hi(pairs@, hi, m));
            if m < i {
                assert(pairs@[m].key > key);
            } else if m > i {
                assert(pairs@[m - 1].key < key);
            } else {
                lemma_keys_member(children@[i].entries(), key);
            }
        }
    }
}

/// Decomposition of a flattening around child `i`: the part left of the
/// child, the child itself, the pair at `i` (when it exists), and the rest.
proof fn lemma_flat_decompose_child<V>(pairs: Seq<KeyValue<V>>, children: Seq<Node<V>>, i: int)
    requires
        0 <= i < children.len(),
        children.len() == pairs.len() + 1,
    ensures
        i < pairs.len() ==> flat_entries(pairs, children) == flat_entries(
            pairs.subrange(0, i),
            children.subrange(0, i),
        ) + children[i].entries() + seq![(pairs[i].key, pairs[i].value)] + flat_entries(
            pairs.subrange(i + 1, pairs.len() as int),
            children.subrange(i + 1, children.len() as int),
        ),
        i == pairs.len() ==> flat_entries(pairs, children) == flat_entries(
            pairs.subrange(0, i),
            children.subrange(0, i),
        ) + children[i].entries(),
{
    node::lemma_flat_split_at(pairs, children, i);
    let pr = pairs.subrange(i, pairs.len() as int);
    let cr = children.subrange(i, children.len() as int);
    assert(cr[0] == children[i]);
    if i < pairs.len() {
        assert(node::head_pair_seq(pr) =~= seq![(pairs[i].key, pairs[i].value)]);
        assert(node::tail_pairs(pr) =~= pairs.subrange(i + 1, pairs.len() as int));
        assert(cr.drop_first() =~= children.subrange(i + 1, children.len() as int));
        assert(flat_entries(pairs, children) =~= flat_entries(
            pairs.subrange(0, i),
            children.subrange(0, i),
        ) + children[i].entries() + seq![(pairs[i].key, pairs[i].value)] + flat_entries(
            pairs.subrange(i + 1, pairs.len() as int),
            children.subrange(i + 1, children.len() as int),
        ));
    } else {
        reveal_with_fuel(flat_entries, 2);
        assert(cr.drop_first().len() == 0);
        assert(flat_entries(node::tail_pairs(pr), cr.drop_first()).len() == 0);
        assert(node::head_pair_seq(pr).len() == 0);
        assert(flat_entries(pairs, children) =~= flat_entries(
            pairs.subrange(0, i),
            children.subrange(0, i),
        ) + children[i].entries());
    }
}

/// Inserting a pair at the partition point of a strictly sorted run keeps it
/// strictly sorted and within the enclosing bounds.
proof fn lemma_sorted_keys_insert<V>(
    pairs: Seq<KeyValue<V>>,
    i: int,
    kv: KeyValue<V>,
    lo: int,
    hi: int,
)
    requires
        sorted_keys(pair_keys(pairs)),
        keys_between(pair_keys(pairs), lo, hi),
        0 <= i <= pairs.len(),
        lo < kv.key < hi,
        forall|m: int| 0 <= m < i ==> (#[trigger] pairs[m]).key < kv.key,
        forall|m: int| i <= m < pairs.len() ==> (#[trigger] pairs[m]).key > kv.key,
    ensures
        sorted_keys(pair_keys(pairs.insert(i, kv))),
        keys_between(pair_keys(pairs.insert(i, kv)), lo, hi),
{
    let np = pairs.insert(i, kv);
    pairs.insert_ensures(i, kv);
    assert forall|x: int, y: int| 0 <= x < y < np.len() implies pair_keys(np)[x] < pair_keys(
        np,
    )[y] by {
        assert(pair_keys(np)[x] == np[x].key);
        assert(pair_keys(np)[y] == np[y].key);
        if x != i && y != i {
            let ox: int = if x < i {
                x
            } else {
                x - 1
            };
            let oy: int = if y < i {
                y
            } else {
                y - 1
            };
            assert(np[x] == pairs[ox]);
            assert(np[y] == pairs[oy]);
            assert(pair_keys(pairs)[ox] < pair_keys(pairs)[oy]);
        }
    }
    assert forall|x: int| 0 <= x < np.len() implies lo < #[trigger] pair_keys(np)[x] < hi by {
        assert(pair_keys(np)[x] == np[x].key);
        if x != i {
            let ox: int = if x < i {
                x
            } else {
                x - 1
            };
            assert(np[x] == pairs[ox]);
            assert(pair_keys(pairs)[ox] == pairs[ox].key);
        }
    }
}

/// Concatenation with a singleton in the middle inserts one element into the
/// multiset of the outer parts.
proof fn lemma_ms_insert_mid<V>(a: Seq<(u64, V)>, e: (u64, V), b: Seq<(u64, V)>)
    ensures
        (a + seq![e] + b).to_multiset() == (a + b).to_multiset().insert(e),
{
    broadcast use vstd::seq_lib::group_to_multiset_ensures;

    vstd::seq_lib::lemma_multiset_commutative(a, seq![e]);
    vstd::seq_lib::lemma_multiset_commutative(a + seq![e], b);
    vstd::seq_lib::lemma_multiset_commutative(a, b);
    assert(seq![e] =~= Seq::<(u64, V)>::empty().push(e));
    assert((a + seq![e] + b).to_multiset() =~= (a + b).to_multiset().insert(e));
}

/// A run of nodes each no taller than `bound` has maximum height at most
/// `bound`.
proof fn lemma_max_height_le<V>(children: Seq<Node<V>>, bound: nat)
    requires
        forall|m: int| 0 <= m < children.len() ==> (#[trigger] children[m]).height() <= bound,
    ensures
        node::max_height(children) <= bound,
    decreases children.len(),
{
    if children.len() > 0 {
        assert forall|m: int|
            0 <= m < children.drop_first().len() implies (
        #[trigger] children.drop_first()[m]).height() <= bound by {
            assert(children.drop_first()[m] == children[m + 1]);
        }
        lemma_max_height_le(children.drop_first(), bound);
    }
}

/// Correctness of splitting a full node: both halves are well formed on the
/// two sides of the promoted median, the halves are not taller than the
/// original, and the in-order entries are preserved around the median.
proof fn lemma_split_node<V>(
    oldn: Node<V>,
    newn: Node<V>,
    med: KeyValue<V>,
    sib: Node<V>,
    t: nat,
    lo: int,
    hi: int,
    rt: bool,
)
    requires
        oldn.wf(t, lo, hi, rt),
        oldn.num_pairs() == 2 * t - 1,
        t >= 2,
        match oldn.node_type {
            NodeType::Leaf(pairs) => {
                &&& newn.node_type matches NodeType::Leaf(p2) && p2@ == pairs@.subrange(
                    0,
                    t as int - 1,
                )
                &&& med == pairs@[t as int - 1]
                &&& sib.node_type matches NodeType::Leaf(p3) && p3@ == pairs@.subrange(
                    t as int,
                    pairs@.len() as int,
                )
            },
            NodeType::Internal(pairs, children) => {
                &&& newn.node_type matches NodeType::Internal(p2, c2) && p2@ == pairs@.subrange(
                    0,
                    t as int - 1,
                ) && c2@ == children@.subrange(0, t as int)
                &&& med == pairs@[t as int - 1]
                &&& sib.node_type matches NodeType::Internal(p3, c3) && p3@ == pairs@.subrange(
                    t as int,
                    pairs@.len() as int,
                ) && c3@ == children@.subrange(t as int, children@.len() as int)
            },
            NodeType::Undefined => false,
        },
    ensures
        newn.wf(t, lo, med.key as int, false),
        sib.wf(t, med.key as int, hi, false),
        lo < med.key < hi,
        oldn.entries() == newn.entries() + seq![(med.key, med.value)] + sib.entries(),
        newn.height() <= oldn.height(),
        sib.height() <= oldn.height(),
{
    match oldn.node_type {
        NodeType::Undefined => {},
        NodeType::Leaf(pairs) => {
            let op = pairs@;
            let p2 = newn.node_type->Leaf_0@;
            let p3 = sib.node_type->Leaf_0@;
            assert(pair_keys(op)[t as int - 1] == med.key);
            assert forall|x: int| 0 <= x < p2.len() implies lo < #[trigger] pair_keys(p2)[x]
                < med.key as int by {
                assert(p2[x] == op[x]);
                assert(pair_keys(op)[x] < pair_keys(op)[t as int - 1]);
            }
            assert forall|x: int, y: int| 0 <= x < y < p2.len() implies pair_keys(p2)[x]
                < pair_keys(p2)[y] by {
                assert(p2[x] == op[x] && p2[y] == op[y]);
                assert(pair_keys(op)[x] < pair_keys(op)[y]);
            }
            assert forall|x: int| 0 <= x < p3.len() implies (med.key as int) < #[trigger] pair_keys(
                p3,
            )[x] < hi by {
                assert(p3[x] == op[t as int + x]);
                assert(pair_keys(op)[t as int - 1] < pair_keys(op)[t as int + x]);
            }
            assert forall|x: int, y: int| 0 <= x < y < p3.len() implies pair_keys(p3)[x]
                < pair_keys(p3)[y] by {
                assert(p3[x] == op[t as int + x] && p3[y] == op[t as int + y]);
                assert(pair_keys(op)[t as int + x] < pair_keys(op)[t as int + y]);
            }
            assert(pair_keys(op)[t as int - 1] == med.key && lo < pair_keys(op)[t as int - 1]
                < hi);
            assert(pairs_seq(op) =~= pairs_seq(p2) + seq![(med.key, med.value)] + pairs_seq(p3));
        },
        NodeType::Internal(pairs, children) => {
            let op = pairs@;
            let oc = children@;
            let p2 = newn.node_type->Internal_0@;
            let c2 = newn.node_type->Internal_1@;
            let p3 = sib.node_type->Internal_0@;
            let c3 = sib.node_type->Internal_1@;
            assert(children_wf(t, op, oc, lo, hi));
            assert(pair_keys(op)[t as int - 1] == med.key);
            // sortedness and bounds of both halves' own pairs
            assert forall|x: int| 0 <= x < p2.len() implies lo < #[trigger] pair_keys(p2)[x]
                < med.key as int by {
                assert(p2[x] == op[x]);
                assert(pair_keys(op)[x] < pair_keys(op)[t as int - 1]);
            }
            assert forall|x: int, y: int| 0 <= x < y < p2.len() implies pair_keys(p2)[x]
                < pair_keys(p2)[y] by {
                assert(p2[x] == op[x] && p2[y] == op[y]);
                assert(pair_keys(op)[x] < pair_keys(op)[y]);
            }
            assert forall|x: int| 0 <= x < p3.len() implies (med.key as int) < #[trigger] pair_keys(
                p3,
            )[x] < hi by {
                assert(p3[x] == op[t as int + x]);
                assert(pair_keys(op)[t as int - 1] < pair_keys(op)[t as int + x]);
            }
            assert forall|x: int, y: int| 0 <= x < y < p3.len() implies pair_keys(p3)[x]
                < pair_keys(p3)[y] by {
                assert(p3[x] == op[t as int + x] && p3[y] == op[t as int + y]);
                assert(pair_keys(op)[t as int + x] < pair_keys(op)[t as int + y]);
            }
            // children of the lower half
            assert forall|m: int| 0 <= m < c2.len() implies (#[trigger] c2[m]).wf(
                t,
                child_lo(p2, lo, m),
                child_hi(p2, med.key as int, m),
                false,
            ) by {
                assert(c2[m] == oc[m]);
                assert(oc[m].wf(t, child_lo(op, lo, m), child_hi(op, hi, m), false));
                assert(child_lo(p2, lo, m) == child_lo(op, lo, m));
                if m == p2.len() {
                    assert(child_hi(op, hi, m) == op[t as int - 1].key as int);
                } else {
                    assert(p2[m] == op[m]);
                }
            }
            // children of the sibling
            assert forall|m: int| 0 <= m < c3.len() implies (#[trigger] c3[m]).wf(
                t,
                child_lo(p3, med.key as int, m),
                child_hi(p3, hi, m),
                false,
            ) by {
                assert(c3[m] == oc[t as int + m]);
                assert(oc[t as int + m].wf(
                    t,
                    child_lo(op, lo, t as int + m),
                    child_hi(op, hi, t as int + m),
                    false,
                ));
                if m == 0 {
                    assert(child_lo(op, lo, t as int) == op[t as int - 1].key as int);
                } else {
                    assert(p3[m - 1] == op[t as int + m - 1]);
                }
                if m == p3.len() {
                    assert(t as int + m == op.len());
                } else {
                    assert(p3[m] == op[t as int + m]);
                }
            }
            // heights
            assert forall|m: int| 0 <= m < c2.len() implies (#[trigger] c2[m]).height()
                <= node::max_height(oc) by {
                assert(c2[m] == oc[m]);
                node::lemma_max_height(oc, m);
            }
            lemma_max_height_le(c2, node::max_height(oc));
            assert forall|m: int| 0 <= m < c3.len() implies (#[trigger] c3[m]).height()
                <= node::max_height(oc) by {
                assert(c3[m] == oc[t as int + m]);
                node::lemma_max_height(oc, t as int + m);
            }
            lemma_max_height_le(c3, node::max_height(oc));
            // entries around the median
            node::lemma_flat_split_at(op, oc, t as int - 1);
            let pr = op.subrange(t as int - 1, op.len() as int);
            let cr = oc.subrange(t as int - 1, oc.len() as int);
            assert(cr[0] == oc[t as int - 1]);
            assert(node::head_pair_seq(pr) =~= seq![(med.key, med.value)]);
            assert(node::tail_pairs(pr) =~= p3);
            assert(cr.drop_first() =~= c3);
            // lower half's entries: its own split at its last child
            node::lemma_flat_split_at(p2, c2, t as int - 1);
            assert(p2.subrange(0, t as int - 1) =~= op.subrange(0, t as int - 1));
            assert(c2.subrange(0, t as int - 1) =~= oc.subrange(0, t as int - 1));
            assert(p2.subrange(t as int - 1, p2.len() as int).len() == 0);
            let c2r = c2.subrange(t as int - 1, c2.len() as int);
            assert(c2r.len() == 1 && c2r[0] == oc[t as int - 1]);
            reveal_with_fuel(flat_entries, 2);
            assert(c2r.drop_first().len() == 0);
            assert(flat_entries(p2.subrange(t as int - 1, p2.len() as int), c2r)
                =~= oc[t as int - 1].entries());
            assert(newn.entries() =~= flat_entries(
                op.subrange(0, t as int - 1),
                oc.subrange(0, t as int - 1),
            ) + oc[t as int - 1].entries());
            assert(oldn.entries() =~= newn.entries() + seq![(med.key, med.value)]
                + sib.entries());
        },
    }
}

/// Promoting a median into a parent keeps every child well formed: the old
/// children keep their ranges and the split child's halves take the two
/// ranges on either side of the median.
proof fn lemma_promote_wf<V>(
    t: nat,
    op: Seq<KeyValue<V>>,
    oc: Seq<Node<V>>,
    i: int,
    med: KeyValue<V>,
    lower: Node<V>,
    sib: Node<V>,
    lo: int,
    hi: int,
)
    requires
        oc.len() == op.len() + 1,
        0 <= i < oc.len(),
        children_wf(t, op, oc, lo, hi),
        sorted_keys(pair_keys(op)),
        keys_between(pair_keys(op), lo, hi),
        child_lo(op, lo, i) < med.key as int,
        (med.key as int) < child_hi(op, hi, i),
        lo < hi,
        lower.wf(t, child_lo(op, lo, i), med.key as int, false),
        sib.wf(t, med.key as int, child_hi(op, hi, i), false),
    ensures
        children_wf(t, op.insert(i, med), oc.update(i, lower).insert(i + 1, sib), lo, hi),
        sorted_keys(pair_keys(op.insert(i, med))),
        keys_between(pair_keys(op.insert(i, med)), lo, hi),
{
    let np = op.insert(i, med);
    let nc = oc.update(i, lower).insert(i + 1, sib);
    op.insert_ensures(i, med);
    oc.update(i, lower).insert_ensures(i + 1, sib);
    assert forall|m: int| 0 <= m < i implies (#[trigger] op[m]).key < med.key by {
        if m < i - 1 {
            assert(pair_keys(op)[m] < pair_keys(op)[i - 1]);
        }
        assert(pair_keys(op)[m] == op[m].key);
    }
    assert forall|m: int| i <= m < op.len() implies (#[trigger] op[m]).key > med.key by {
        if m > i {
            assert(pair_keys(op)[i] < pair_keys(op)[m]);
        }
        assert(pair_keys(op)[m] == op[m].key);
    }
    assert(lo < med.key as int && (med.key as int) < hi) by {
        if i > 0 {
            assert(lo < pair_keys(op)[i - 1] < hi);
        }
        if i < op.len() {
            assert(lo < pair_keys(op)[i] < hi);
        }
    }
    lemma_sorted_keys_insert(op, i, med, lo, hi);
    assert forall|m: int| 0 <= m < nc.len() implies (#[trigger] nc[m]).wf(
        t,
        child_lo(np, lo, m),
        child_hi(np, hi, m),
        false,
    ) by {
        if m < i {
            assert(nc[m] == oc[m]);
            assert(oc[m].wf(t, child_lo(op, lo, m), child_hi(op, hi, m), false));
            assert(child_lo(np, lo, m) == child_lo(op, lo, m));
            assert(np[m] == op[m]);
        } else if m == i {
            assert(nc[m] == lower);
            assert(child_lo(np, lo, m) == child_lo(op, lo, m));
            assert(np[i] == med);
        } else if m == i + 1 {
            assert(nc[m] == sib);
            assert(np[i] == med);
            if m == np.len() {
                assert(i == op.len());
            } else {
                assert(np[m] == op[m - 1]);
            }
        } else {
            assert(nc[m] == oc[m - 1]);
            assert(oc[m - 1].wf(t, child_lo(op, lo, m - 1), child_hi(op, hi, m - 1), false));
            assert(np[m - 1] == op[m - 2]);
            if m == np.len() {
                assert(m - 1 == op.len());
            } else {
                assert(np[m] == op[m - 1]);
            }
        }
    }
}

/// Promoting a median into a parent leaves the flattened entries unchanged.
#[verifier::rlimit(60)]
proof fn lemma_promote_entries<V>(
    op: Seq<KeyValue<V>>,
    oc: Seq<Node<V>>,
    i: int,
    med: KeyValue<V>,
    lower: Node<V>,
    sib: Node<V>,
)
    requires
        oc.len() == op.len() + 1,
        0 <= i < oc.len(),
        oc[i].entries() == lower.entries() + seq![(med.key, med.value)] + sib.entries(),
    ensures
        flat_entries(op.insert(i, med), oc.update(i, lower).insert(i + 1, sib)) == flat_entries(
            op,
            oc,
        ),
{
    let np = op.insert(i, med);
    let nc = oc.update(i, lower).insert(i + 1, sib);
    op.insert_ensures(i, med);
    oc.update(i, lower).insert_ensures(i + 1, sib);
    lemma_flat_decompose_child(op, oc, i);
    lemma_flat_decompose_child(np, nc, i);
    assert(np.subrange(0, i) =~= op.subrange(0, i));
    assert(nc.subrange(0, i) =~= oc.subrange(0, i));
    assert(nc[i] == lower);
    assert(np[i] == med);
    // decompose the tail of the new run around the sibling at i + 1
    let np1 = np.subrange(i + 1, np.len() as int);
    let nc1 = nc.subrange(i + 1, nc.len() as int);
    assert(nc1[0] == sib);
    if i < op.len() {
        assert(node::head_pair_seq(np1) =~= seq![(op[i].key, op[i].value)]);
        assert(node::tail_pairs(np1) =~= op.subrange(i + 1, op.len() as int));
        assert(nc1.drop_first() =~= oc.subrange(i + 1, oc.len() as int));
        assert(flat_entries(np1, nc1) =~= sib.entries() + seq![(op[i].key, op[i].value)]
            + flat_entries(
            op.subrange(i + 1, op.len() as int),
            oc.subrange(i + 1, oc.len() as int),
        ));
        assert(flat_entries(np, nc) =~= flat_entries(op, oc));
    } else {
        reveal_with_fuel(flat_entries, 2);
        assert(np1.len() == 0 && nc1.len() == 1);
        assert(nc1.drop_first().len() == 0);
        assert(flat_entries(np1, nc1) =~= sib.entries());
        assert(flat_entries(np, nc) =~= flat_entries(op, oc));
    }
}

/// Replacing the part after `a` by one whose multiset gained `kv` adds `kv`
/// to the whole concatenation's multiset.
proof fn lemma_ms_update2<V>(a: Seq<(u64, V)>, e1: Seq<(u64, V)>, e2: Seq<(u64, V)>, kv: (u64, V))
    requires
        e2.to_multiset() == e1.to_multiset().insert(kv),
    ensures
        (a + e2).to_multiset() == (a + e1).to_multiset().insert(kv),
{
    vstd::seq_lib::lemma_multiset_commutative(a, e1);
    vstd::seq_lib::lemma_multiset_commutative(a, e2);
    assert((a + e2).to_multiset() =~= (a + e1).to_multiset().insert(kv));
}

/// The same, for a four-part concatenation whose second part is replaced.
proof fn lemma_ms_update4<V>(
    a: Seq<(u64, V)>,
    e1: Seq<(u64, V)>,
    e2: Seq<(u64, V)>,
    s: Seq<(u64, V)>,
    r: Seq<(u64, V)>,
    kv: (u64, V),
)
    requires
        e2.to_multiset() == e1.to_multiset().insert(kv),
    ensures
        (a + e2 + s + r).to_multiset() == (a + e1 + s + r).to_multiset().insert(kv),
{
    vstd::seq_lib::lemma_multiset_commutative(a, e1);
    vstd::seq_lib::lemma_multiset_commutative(a + e1, s);
    vstd::seq_lib::lemma_multiset_commutative(a + e1 + s, r);
    vstd::seq_lib::lemma_multiset_commutative(a, e2);
    vstd::seq_lib::lemma_multiset_commutative(a + e2, s);
    vstd::seq_lib::lemma_multiset_commutative(a + e2 + s, r);
    assert((a + e2 + s + r).to_multiset() =~= (a + e1 + s + r).to_multiset().insert(kv));
}

/// Replacing one child by a node whose entries gained one pair adds that pair
/// to the multiset of the whole flattening.
#[verifier::rlimit(60)]
proof fn lemma_child_replaced<V>(
    pcur: Seq<KeyValue<V>>,
    ccur: Seq<Node<V>>,
    target: int,
    newchild: Node<V>,
    kv: (u64, V),
)
    requires
        ccur.len() == pcur.len() + 1,
        0 <= target < ccur.len(),
        newchild.entries().to_multiset() == ccur[target].entries().to_multiset().insert(kv),
    ensures
        flat_entries(pcur, ccur.update(target, newchild)).to_multiset() == flat_entries(
            pcur,
            ccur,
        ).to_multiset().insert(kv),
{
    let nc = ccur.update(target, newchild);
    lemma_flat_decompose_child(pcur, ccur, target);
    lemma_flat_decompose_child(pcur, nc, target);
    assert(nc.subrange(0, target) =~= ccur.subrange(0, target));
    assert(nc.subrange(target + 1, nc.len() as int) =~= ccur.subrange(
        target + 1,
        ccur.len() as int,
    ));
    let a = flat_entries(pcur.subrange(0, target), ccur.subrange(0, target));
    let e1 = ccur[target].entries();
    let e2 = nc[target].entries();
    if target < pcur.len() {
        let s = seq![(pcur[target].key, pcur[target].value)];
        let r = flat_entries(
            pcur.subrange(target + 1, pcur.len() as int),
            ccur.subrange(target + 1, ccur.len() as int),
        );
        lemma_ms_update4(a, e1, e2, s, r, kv);
    } else {
        lemma_ms_update2(a, e1, e2, kv);
    }
}

/// Recursive insertion into a subtree whose top node is not yet full; the key
/// is known to be absent from the whole subtree. Splits any full child
/// before descending through it.
#[verifier::loop_isolation(false)]
#[verifier::rlimit(100)]
fn insert_non_full<V>(
    node: &mut Node<V>,
    t: usize,
    key: u64,
    value: V,
    Ghost(lo): Ghost<int>,
    Ghost(hi): Ghost<int>,
    Ghost(rt): Ghost<bool>,
)
    requires
        old(node).wf(t as nat, lo, hi, rt),
        old(node).num_pairs() + 2 <= 2 * t,
        lo < key < hi,
        !entry_keys(old(node).entries()).contains(key),
        2 <= t,
        t <= usize::MAX / 2,
    ensures
        final(node).wf(t as nat, lo, hi, rt),
        final(node).entries().to_multiset() == old(node).entries().to_multiset().insert(
            (key, value),
        ),
    decreases old(node).height(),
{
    broadcast use vstd::seq_lib::group_to_multiset_ensures;

    match &mut node.node_type {
        NodeType::Undefined => {
            proof {
                assert(false);
            }
        },
        NodeType::Leaf(pairs) => {
            let ghost opairs = pairs@;
            let mut i: usize = 0;
            while i < pairs.len() && pairs[i].key < key
                invariant
                    0 <= i <= pairs@.len(),
                    pairs@ == opairs,
                    forall|m: int| 0 <= m < i ==> (#[trigger] pairs@[m]).key < key,
                decreases pairs@.len() - i,
            {
                i += 1;
            }
            proof {
                lemma_pairs_seq_keys(opairs);
                if i < opairs.len() && opairs[i as int].key == key {
                    assert(pair_keys(opairs)[i as int] == key);
                    assert(false);
                }
                assert forall|m: int| i <= m < opairs.len() implies (#[trigger] opairs[m]).key
                    > key by {
                    if m > i {
                        assert(pair_keys(opairs)[i as int] < pair_keys(opairs)[m]);
                    }
                    assert(pair_keys(opairs)[m] == opairs[m].key);
                }
            }
            pairs.insert(i, KeyValue { key, value });
            proof {
                let kv = KeyValue { key, value };
                lemma_sorted_keys_insert(opairs, i as int, kv, lo, hi);
                let sub1 = opairs.subrange(0, i as int);
                let sub2 = opairs.subrange(i as int, opairs.len() as int);
                assert(pairs_seq(opairs.insert(i as int, kv)) =~= pairs_seq(sub1) + seq![
                    (key, value),
                ] + pairs_seq(sub2));
                assert(pairs_seq(opairs) =~= pairs_seq(sub1) + pairs_seq(sub2));
                lemma_ms_insert_mid(pairs_seq(sub1), (key, value), pairs_seq(sub2));
            }
        },
        NodeType::Internal(pairs, children) => {
            let ghost op0 = pairs@;
            let ghost oc0 = children@;
            let mut i: usize = 0;
            while i < pairs.len() && pairs[i].key < key
                invariant
                    0 <= i <= pairs@.len(),
                    pairs@ == op0,
                    children@ == oc0,
                    forall|m: int| 0 <= m < i ==> (#[trigger] pairs@[m]).key < key,
                decreases pairs@.len() - i,
            {
                i += 1;
            }
            proof {
                if i < op0.len() && op0[i as int].key == key {
                    let e = pairs_seq(op0)[i as int];
                    assert(pairs_seq(op0).contains(e));
                    lemma_flat_member(op0, oc0, e);
                    let es = old(node).entries();
                    let j = choose|j: int| 0 <= j < es.len() && es[j] == e;
                    assert(entry_keys(es)[j] == key);
                    assert(false);
                }
                assert forall|m: int| i <= m < op0.len() implies (#[trigger] op0[m]).key > key by {
                    if m > i {
                        assert(pair_keys(op0)[i as int] < pair_keys(op0)[m]);
                    }
                    assert(pair_keys(op0)[m] == op0[m].key);
                }
            }
            proof {
                assert(children_wf(t as nat, op0, oc0, lo, hi));
                assert(oc0[i as int].wf(
                    t as nat,
                    child_lo(op0, lo, i as int),
                    child_hi(op0, hi, i as int),
                    false,
                ));
            }
            let must_split = match children[i].is_full(t) {
                Ok(b) => b,
                Err(_) => {
                    proof {
                        assert(false);
                    }
                    false
                },
            };
            let mut target: usize = i;
            if must_split {
                let ghost oldchild = children@[i as int];
                proof {
                    assert(oldchild.num_pairs() + 1 >= 2 * t);
                    assert(oldchild.num_pairs() + 1 <= 2 * (t as nat));
                    assert(oldchild.num_pairs() == 2 * t - 1);
                    match oldchild.node_type {
                        NodeType::Internal(cp, cc) => {
                            assert(cc@.len() == cp@.len() + 1);
                            assert(cp@.len() >= t && cc@.len() >= t);
                        },
                        NodeType::Leaf(cp) => {
                            assert(cp@.len() >= t);
                        },
                        NodeType::Undefined => {
                            assert(false);
                        },
                    }
                }
                let sres = children[i].split(t);
                let sp = match sres {
                    Ok(sp) => sp,
                    Err(_) => {
                        proof {
                            assert(false);
                        }
                        return;
                    },
                };
                let ghost glower = children@[i as int];
                let ghost med = sp.pair;
                let ghost gsib = sp.new_node;
                let medkey = sp.pair.key;
                proof {
                    lemma_split_node(
                        oldchild,
                        glower,
                        med,
                        gsib,
                        t as nat,
                        child_lo(op0, lo, i as int),
                        child_hi(op0, hi, i as int),
                        false,
                    );
                }
                pairs.insert(i, sp.pair);
                children.insert(i + 1, sp.new_node);
                proof {
                    assert(pairs@ == op0.insert(i as int, med));
                    assert(children@ == oc0.update(i as int, glower).insert(i as int + 1, gsib));
                    lemma_promote_wf(
                        t as nat,
                        op0,
                        oc0,
                        i as int,
                        med,
                        glower,
                        gsib,
                        lo,
                        hi,
                    );
                    lemma_promote_entries(op0, oc0, i as int, med, glower, gsib);
                    // the key cannot equal the promoted median
                    let e = (med.key, med.value);
                    assert(oldchild.entries()[glower.entries().len() as int] == e);
                    assert(oldchild.entries().contains(e));
                    lemma_flat_member(op0, oc0, e);
                    let es = old(node).entries();
                    let j = choose|j: int| 0 <= j < es.len() && es[j] == e;
                    assert(entry_keys(es)[j] == med.key);
                    assert(key != med.key);
                }
                if key > medkey {
                    target = i + 1;
                }
            }
            let ghost pcur = pairs@;
            let ghost ccur = children@;
            proof {
                assert(children_wf(t as nat, pcur, ccur, lo, hi));
                assert(ccur[target as int].wf(
                    t as nat,
                    child_lo(pcur, lo, target as int),
                    child_hi(pcur, hi, target as int),
                    false,
                ));
                // bounds admit the key
                if target > 0 {
                    assert(child_lo(pcur, lo, target as int) == pcur[target as int - 1].key as int);
                }
                // the child is not full
                if must_split {
                    assert(ccur[target as int].num_pairs() == t - 1);
                } else {
                    assert(ccur[target as int].num_pairs() + 1 < 2 * t);
                }
                // the key is absent from the child
                if entry_keys(ccur[target as int].entries()).contains(key) {
                    lemma_keys_member(ccur[target as int].entries(), key);
                    let j = choose|j: int|
                        0 <= j < ccur[target as int].entries().len() && (
                        #[trigger] ccur[target as int].entries()[j]).0 == key;
                    let e = ccur[target as int].entries()[j];
                    if must_split {
                        let oldchild = oc0[i as int];
                        let oe = oldchild.entries();
                        let lower = ccur[i as int];
                        let sib = ccur[i as int + 1];
                        if target == i {
                            assert(oe[j] == e);
                        } else {
                            assert(oe[lower.entries().len() + 1 + j] == e);
                        }
                        assert(oe.contains(e));
                        lemma_flat_member(op0, oc0, e);
                    } else {
                        lemma_flat_member(op0, oc0, e);
                    }
                    let es = old(node).entries();
                    let w = choose|w: int| 0 <= w < es.len() && es[w] == e;
                    assert(entry_keys(es)[w] == key);
                    assert(false);
                }
                // termination: the child is strictly below the original node
                lemma_child_height(*old(node), i as int);
                if must_split {
                    assert(ccur[target as int].height() <= oc0[i as int].height());
                } else {
                    assert(ccur[target as int] == oc0[i as int]);
                }
            }
            insert_non_full(
                &mut children[target],
                t,
                key,
                value,
                Ghost(child_lo(pcur, lo, target as int)),
                Ghost(child_hi(pcur, hi, target as int)),
                Ghost(false),
            );
            proof {
                let nc = ccur.update(target as int, children@[target as int]);
                assert(children@ == nc);
                // every child is still well formed in its range
                assert forall|m: int| 0 <= m < nc.len() implies (#[trigger] nc[m]).wf(
                    t as nat,
                    child_lo(pcur, lo, m),
                    child_hi(pcur, hi, m),
                    false,
                ) by {
                    if m != target as int {
                        assert(nc[m] == ccur[m]);
                        assert(ccur[m].wf(
                            t as nat,
                            child_lo(pcur, lo, m),
                            child_hi(pcur, hi, m),
                            false,
                        ));
                    }
                }
                // reassemble the entries and account for the new pair
                lemma_child_replaced(pcur, ccur, target as int, children@[target as int], (key, value));
            }
        },
    }
}

} // verus!
