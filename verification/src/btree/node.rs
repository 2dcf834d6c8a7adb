use vstd::prelude::*;

use crate::error::Error;

verus! {

/// One key together with its value; keys are unique within an index.
pub struct KeyValue<V> {
    pub key: u64,
    pub value: V,
}

/// A node of the balanced multiway search tree.
///
/// `Undefined` is a transient placeholder that is swapped in while a node is
/// moved during a root split; a well-formed tree never holds one.
pub enum NodeType<V> {
    Internal(Vec<KeyValue<V>>, Vec<Node<V>>),
    Leaf(Vec<KeyValue<V>>),
    Undefined,
}

pub struct Node<V> {
    pub node_type: NodeType<V>,
}

/// The median pair promoted out of a split together with the new right sibling.
pub struct Split<V> {
    pub pair: KeyValue<V>,
    pub new_node: Node<V>,
}

pub open spec fn pairs_seq<V>(pairs: Seq<KeyValue<V>>) -> Seq<(u64, V)> {
    pairs.map_values(|kv: KeyValue<V>| (kv.key, kv.value))
}

pub open spec fn pair_keys<V>(pairs: Seq<KeyValue<V>>) -> Seq<u64> {
    pairs.map_values(|kv: KeyValue<V>| kv.key)
}

pub open spec fn entry_keys<V>(es: Seq<(u64, V)>) -> Seq<u64> {
    es.map_values(|e: (u64, V)| e.0)
}

/// Strictly increasing keys: sorted and free of duplicates.
pub open spec fn sorted_keys(ks: Seq<u64>) -> bool {
    forall|i: int, j: int| 0 <= i < j < ks.len() ==> ks[i] < ks[j]
}

/// All keys lie strictly between the exclusive bounds `lo` and `hi`.
pub open spec fn keys_between(ks: Seq<u64>, lo: int, hi: int) -> bool {
    forall|i: int| 0 <= i < ks.len() ==> lo < #[trigger] ks[i] < hi
}

pub open spec fn head_pair_seq<V>(pairs: Seq<KeyValue<V>>) -> Seq<(u64, V)> {
    if pairs.len() > 0 {
        seq![(pairs[0].key, pairs[0].value)]
    } else {
        Seq::<(u64, V)>::empty()
    }
}

pub open spec fn tail_pairs<V>(pairs: Seq<KeyValue<V>>) -> Seq<KeyValue<V>> {
    if pairs.len() > 0 {
        pairs.drop_first()
    } else {
        pairs
    }
}

/// In-order flattening of an internal node's children interleaved with its
/// own pairs: child 0, pair 0, child 1, pair 1, ..., last child.
pub open spec fn flat_entries<V>(pairs: Seq<KeyValue<V>>, children: Seq<Node<V>>) -> Seq<(u64, V)>
    decreases children,
{
    if children.len() == 0 {
        Seq::<(u64, V)>::empty()
    } else {
        children[0].entries() + head_pair_seq(pairs) + flat_entries(
            tail_pairs(pairs),
            children.drop_first(),
        )
    }
}

/// Exclusive lower bound of child `i` of an internal node.
pub open spec fn child_lo<V>(pairs: Seq<KeyValue<V>>, lo: int, i: int) -> int {
    if i == 0 {
        lo
    } else {
        pairs[i - 1].key as int
    }
}

/// Exclusive upper bound of child `i` of an internal node.
pub open spec fn child_hi<V>(pairs: Seq<KeyValue<V>>, hi: int, i: int) -> int {
    if i == pairs.len() {
        hi
    } else {
        pairs[i].key as int
    }
}

impl<V> Node<V> {
    /// The key-value pairs of the subtree, in symmetric (in-order) order.
    pub open spec fn entries(self) -> Seq<(u64, V)>
        decreases self,
    {
        match self.node_type {
            NodeType::Leaf(pairs) => pairs_seq(pairs@),
            NodeType::Internal(pairs, children) => flat_entries(pairs@, children@),
            NodeType::Undefined => Seq::<(u64, V)>::empty(),
        }
    }

    pub open spec fn is_undefined(self) -> bool {
        self.node_type is Undefined
    }

    pub open spec fn has_undefined(self) -> bool
        decreases self,
    {
        match self.node_type {
            NodeType::Leaf(_) => false,
            NodeType::Undefined => true,
            NodeType::Internal(_, children) => exists|i: int|
                0 <= i < children@.len() && (#[trigger] children@[i]).has_undefined(),
        }
    }

    pub open spec fn num_pairs(self) -> nat {
        match self.node_type {
            NodeType::Leaf(pairs) => pairs@.len(),
            NodeType::Internal(pairs, _) => pairs@.len(),
            NodeType::Undefined => 0,
        }
    }

    /// Well-formedness of a subtree with minimum degree `t`, all keys lying
    /// strictly between `lo` and `hi`. Non-root nodes hold between `t - 1`
    /// and `2t - 1` pairs; an internal node has one more child than pairs.
    pub open spec fn wf(self, t: nat, lo: int, hi: int, root: bool) -> bool
        decreases self,
    {
        match self.node_type {
            NodeType::Undefined => false,
            NodeType::Leaf(pairs) => {
                &&& (root || pairs@.len() + 1 >= t)
                &&& pairs@.len() + 1 <= 2 * t
                &&& sorted_keys(pair_keys(pairs@))
                &&& keys_between(pair_keys(pairs@), lo, hi)
            },
            NodeType::Internal(pairs, children) => {
                &&& children@.len() == pairs@.len() + 1
                &&& (if root {
                    pairs@.len() >= 1
                } else {
                    pairs@.len() + 1 >= t
                })
                &&& pairs@.len() + 1 <= 2 * t
                &&& sorted_keys(pair_keys(pairs@))
                &&& keys_between(pair_keys(pairs@), lo, hi)
                &&& children_wf(t, pairs@, children@, lo, hi)
            },
        }
    }
}

/// Every child of an internal node is well formed within the key range that
/// the parent's pairs carve out for it.
pub open spec fn children_wf<V>(
    t: nat,
    pairs: Seq<KeyValue<V>>,
    children: Seq<Node<V>>,
    lo: int,
    hi: int,
) -> bool
    decreases children,
{
    forall|i: int|
        0 <= i < children.len() ==> (#[trigger] children[i]).wf(
            t,
            child_lo(pairs, lo, i),
            child_hi(pairs, hi, i),
            false,
        )
}

impl<V> Node<V> {
    /// Height of the subtree: leaves (and placeholders) have height zero.
    pub open spec fn height(self) -> nat
        decreases self,
    {
        match self.node_type {
            NodeType::Internal(_, children) => 1 + max_height(children@),
            _ => 0,
        }
    }
}

/// The largest height among a run of sibling nodes.
pub open spec fn max_height<V>(children: Seq<Node<V>>) -> nat
    decreases children,
{
    if children.len() == 0 {
        0
    } else {
        let h0 = children[0].height();
        let hr = max_height(children.drop_first());
        if h0 > hr {
            h0
        } else {
            hr
        }
    }
}

/// Every sibling's height is bounded by the run's maximum height.
pub proof fn lemma_max_height<V>(children: Seq<Node<V>>, i: int)
    requires
        0 <= i < children.len(),
    ensures
        children[i].height() <= max_height(children),
    decreases children.len(),
{
    if i > 0 {
        lemma_max_height(children.drop_first(), i - 1);
        assert(children.drop_first()[i - 1] == children[i]);
    }
}

/// A child of an internal node has a strictly smaller height.
pub proof fn lemma_child_height<V>(node: Node<V>, i: int)
    requires
        node.node_type is Internal,
        0 <= i < node.node_type->Internal_1@.len(),
    ensures
        node.node_type->Internal_1@[i].height() < node.height(),
{
    lemma_max_height(node.node_type->Internal_1@, i);
}

/// All keys are strictly below `m`.
pub open spec fn keys_below(ks: Seq<u64>, m: int) -> bool {
    forall|i: int| 0 <= i < ks.len() ==> #[trigger] ks[i] < m
}

/// All keys are strictly above `m`.
pub open spec fn keys_above(ks: Seq<u64>, m: int) -> bool {
    forall|i: int| 0 <= i < ks.len() ==> #[trigger] ks[i] > m
}

pub proof fn lemma_entry_keys_concat<V>(a: Seq<(u64, V)>, b: Seq<(u64, V)>)
    ensures
        entry_keys(a + b) == entry_keys(a) + entry_keys(b),
{
    assert(entry_keys(a + b) =~= entry_keys(a) + entry_keys(b));
}

pub proof fn lemma_pairs_seq_keys<V>(pairs: Seq<KeyValue<V>>)
    ensures
        entry_keys(pairs_seq(pairs)) == pair_keys(pairs),
{
    assert(entry_keys(pairs_seq(pairs)) =~= pair_keys(pairs));
}

/// Concatenating a run of keys below `m`, the key `m` itself, and a run of
/// keys above `m` yields a strictly sorted run.
pub proof fn lemma_sorted_mid(a: Seq<u64>, m: u64, b: Seq<u64>)
    requires
        sorted_keys(a),
        sorted_keys(b),
        keys_below(a, m as int),
        keys_above(b, m as int),
    ensures
        sorted_keys(a + seq![m] + b),
{
    let s = a + seq![m] + b;
    assert forall|i: int, j: int| 0 <= i < j < s.len() implies s[i] < s[j] by {
        assert(forall|x: int| 0 <= x < a.len() ==> s[x] == a[x]);
        assert(s[a.len() as int] == m);
        assert(forall|x: int|
            a.len() + 1 <= x < s.len() ==> s[x] == b[x - a.len() - 1]);
    }
}

/// The flattening of a run of children and pairs splits at any position `i`
/// into the flattening of the first `i` children-and-pairs and the rest.
pub proof fn lemma_flat_split_at<V>(pairs: Seq<KeyValue<V>>, children: Seq<Node<V>>, i: int)
    requires
        0 <= i <= pairs.len(),
        i <= children.len(),
    ensures
        flat_entries(pairs, children) == flat_entries(
            pairs.subrange(0, i),
            children.subrange(0, i),
        ) + flat_entries(
            pairs.subrange(i, pairs.len() as int),
            children.subrange(i, children.len() as int),
        ),
    decreases i,
{
    if i == 0 {
        assert(children.subrange(0, 0) =~= Seq::<Node<V>>::empty());
        assert(pairs.subrange(0, pairs.len() as int) =~= pairs);
        assert(children.subrange(0, children.len() as int) =~= children);
        assert(flat_entries(pairs.subrange(0, 0), children.subrange(0, 0)) + flat_entries(
            pairs,
            children,
        ) =~= flat_entries(pairs, children));
    } else {
        let tp = tail_pairs(pairs);
        let tc = children.drop_first();
        lemma_flat_split_at(tp, tc, i - 1);
        let hp = pairs.subrange(0, i);
        let hc = children.subrange(0, i);
        assert(tail_pairs(hp) =~= tp.subrange(0, i - 1));
        assert(hc.drop_first() =~= tc.subrange(0, i - 1));
        assert(hc[0] == children[0]);
        assert(head_pair_seq(hp) =~= head_pair_seq(pairs));
        assert(tp.subrange(i - 1, tp.len() as int) =~= pairs.subrange(i, pairs.len() as int));
        assert(tc.subrange(i - 1, tc.len() as int) =~= children.subrange(
            i,
            children.len() as int,
        ));
        assert(flat_entries(pairs, children) =~= flat_entries(hp, hc) + flat_entries(
            pairs.subrange(i, pairs.len() as int),
            children.subrange(i, children.len() as int),
        ));
    }
}

/// A well-formed subtree never contains the `Undefined` placeholder.
pub proof fn lemma_wf_no_undefined<V>(node: Node<V>, t: nat, lo: int, hi: int, root: bool)
    requires
        node.wf(t, lo, hi, root),
    ensures
        !node.has_undefined(),
    decreases node,
{
    if node.node_type is Internal {
        let pairs = node.node_type.arrow_Internal_0();
        let children = node.node_type.arrow_Internal_1();
        assert(children_wf(t, pairs@, children@, lo, hi));
        assert forall|i: int| 0 <= i < children@.len() implies !(#[trigger] children@[i]).has_undefined() by {
            assert(children@[i].wf(t, child_lo(pairs@, lo, i), child_hi(pairs@, hi, i), false));
            lemma_wf_no_undefined(
                children@[i],
                t,
                child_lo(pairs@, lo, i),
                child_hi(pairs@, hi, i),
                false,
            );
        }
    }
}

/// The in-order entries of a well-formed subtree have strictly sorted keys,
/// all lying strictly between the subtree's bounds.
pub proof fn lemma_wf_entries_sorted<V>(node: Node<V>, t: nat, lo: int, hi: int, root: bool)
    requires
        node.wf(t, lo, hi, root),
    ensures
        sorted_keys(entry_keys(node.entries())),
        keys_between(entry_keys(node.entries()), lo, hi),
    decreases node, 1int,
{
    match node.node_type {
        NodeType::Leaf(pairs) => {
            lemma_pairs_seq_keys(pairs@);
        },
        NodeType::Internal(pairs, children) => {
            lemma_flat_sorted(t, pairs@, children@, lo, hi);
        },
        NodeType::Undefined => {},
    }
}

/// Helper for `lemma_wf_entries_sorted`, walking the children of an internal
/// node front to back.
pub proof fn lemma_flat_sorted<V>(
    t: nat,
    pairs: Seq<KeyValue<V>>,
    children: Seq<Node<V>>,
    lo: int,
    hi: int,
)
    requires
        children.len() == pairs.len() + 1,
        sorted_keys(pair_keys(pairs)),
        keys_between(pair_keys(pairs), lo, hi),
        children_wf(t, pairs, children, lo, hi),
    ensures
        sorted_keys(entry_keys(flat_entries(pairs, children))),
        keys_between(entry_keys(flat_entries(pairs, children)), lo, hi),
    decreases children, 0int,
{
    assert(children[0].wf(t, child_lo(pairs, lo, 0), child_hi(pairs, hi, 0), false));
    if pairs.len() == 0 {
        lemma_wf_entries_sorted(children[0], t, lo, hi, false);
        assert(children.drop_first().len() == 0);
        reveal_with_fuel(flat_entries, 2);
        assert(flat_entries(pairs, children) =~= children[0].entries());
    } else {
        let m = pairs[0].key;
        assert(pair_keys(pairs)[0] == m);
        lemma_wf_entries_sorted(children[0], t, lo, m as int, false);
        let tp = tail_pairs(pairs);
        let tc = children.drop_first();
        assert(sorted_keys(pair_keys(tp))) by {
            assert(forall|i: int| 0 <= i < tp.len() ==> pair_keys(tp)[i] == pair_keys(pairs)[i + 1]);
        }
        assert(keys_between(pair_keys(tp), m as int, hi)) by {
            assert(forall|i: int| 0 <= i < tp.len() ==> pair_keys(tp)[i] == pair_keys(pairs)[i + 1]);
        }
        assert forall|i: int| 0 <= i < tc.len() implies (#[trigger] tc[i]).wf(
            t,
            child_lo(tp, m as int, i),
            child_hi(tp, hi, i),
            false,
        ) by {
            assert(tc[i] == children[i + 1]);
            assert(children[i + 1].wf(t, child_lo(pairs, lo, i + 1), child_hi(pairs, hi, i + 1), false));
            assert(child_lo(tp, m as int, i) == child_lo(pairs, lo, i + 1));
            assert(child_hi(tp, hi, i) == child_hi(pairs, hi, i + 1));
        }
        assert(children_wf(t, tp, tc, m as int, hi));
        lemma_flat_sorted(t, tp, tc, m as int, hi);
        let ka = entry_keys(children[0].entries());
        let kb = entry_keys(flat_entries(tp, tc));
        lemma_entry_keys_concat(children[0].entries(), head_pair_seq(pairs));
        lemma_entry_keys_concat(children[0].entries() + head_pair_seq(pairs), flat_entries(tp, tc));
        assert(entry_keys(head_pair_seq(pairs)) =~= seq![m]);
        assert(entry_keys(flat_entries(pairs, children)) =~= ka + seq![m] + kb);
        lemma_sorted_mid(ka, m, kb);
    }
}

pub proof fn lemma_concat_contains<T>(a: Seq<T>, b: Seq<T>, x: T)
    ensures
        (a + b).contains(x) <==> (a.contains(x) || b.contains(x)),
{
    if a.contains(x) {
        let j = choose|j: int| 0 <= j < a.len() && a[j] == x;
        assert((a + b)[j] == x);
    }
    if b.contains(x) {
        let j = choose|j: int| 0 <= j < b.len() && b[j] == x;
        assert((a + b)[a.len() + j] == x);
    }
    if (a + b).contains(x) {
        let j = choose|j: int| 0 <= j < (a + b).len() && (a + b)[j] == x;
        if j < a.len() {
            assert(a[j] == x);
        } else {
            assert(b[j - a.len()] == x);
        }
    }
}

pub proof fn lemma_keys_member<V>(es: Seq<(u64, V)>, k: u64)
    ensures
        entry_keys(es).contains(k) <==> exists|j: int| 0 <= j < es.len() && (#[trigger] es[j]).0 == k,
{
    if entry_keys(es).contains(k) {
        let j = choose|j: int| 0 <= j < entry_keys(es).len() && entry_keys(es)[j] == k;
        assert(es[j].0 == k);
    }
    if exists|j: int| 0 <= j < es.len() && (#[trigger] es[j]).0 == k {
        let j = choose|j: int| 0 <= j < es.len() && (#[trigger] es[j]).0 == k;
        assert(entry_keys(es)[j] == k);
    }
}

/// An entry occurs in the flattening of an internal node exactly when it
/// occurs in one of the node's own pairs or in one of its children.
pub proof fn lemma_flat_member<V>(pairs: Seq<KeyValue<V>>, children: Seq<Node<V>>, e: (u64, V))
    requires
        children.len() == pairs.len() + 1,
    ensures
        flat_entries(pairs, children).contains(e) <==> (pairs_seq(pairs).contains(e) || exists|i: int|
            0 <= i < children.len() && (#[trigger] children[i]).entries().contains(e)),
    decreases children,
{
    let tp = tail_pairs(pairs);
    let tc = children.drop_first();
    lemma_concat_contains(children[0].entries() + head_pair_seq(pairs), flat_entries(tp, tc), e);
    lemma_concat_contains(children[0].entries(), head_pair_seq(pairs), e);
    if pairs.len() == 0 {
        reveal_with_fuel(flat_entries, 2);
        assert(flat_entries(tp, tc).len() == 0);
        assert(pairs_seq(pairs).len() == 0);
        if children[0].entries().contains(e) {
            assert(flat_entries(pairs, children).contains(e));
        }
        if exists|i: int| 0 <= i < children.len() && (#[trigger] children[i]).entries().contains(e) {
            let i = choose|i: int|
                0 <= i < children.len() && (#[trigger] children[i]).entries().contains(e);
            assert(i == 0);
        }
    } else {
        lemma_flat_member(tp, tc, e);
        assert(pairs_seq(pairs) =~= head_pair_seq(pairs) + pairs_seq(tp));
        lemma_concat_contains(head_pair_seq(pairs), pairs_seq(tp), e);
        if exists|i: int| 0 <= i < tc.len() && (#[trigger] tc[i]).entries().contains(e) {
            let i = choose|i: int| 0 <= i < tc.len() && (#[trigger] tc[i]).entries().contains(e);
            assert(children[i + 1] == tc[i]);
            assert(children[i + 1].entries().contains(e));
        }
        if exists|i: int| 0 <= i < children.len() && (#[trigger] children[i]).entries().contains(e) {
            let i = choose|i: int|
                0 <= i < children.len() && (#[trigger] children[i]).entries().contains(e);
            if i > 0 {
                assert(tc[i - 1] == children[i]);
                assert(tc[i - 1].entries().contains(e));
            }
        }
    }
}

impl<V> Split<V> {
    pub fn new(pair: KeyValue<V>, new_node: Node<V>) -> (r: Split<V>)
        ensures
            r.pair == pair,
            r.new_node == new_node,
    {
        Split { pair, new_node }
    }
}

impl<V> Node<V> {
    pub fn new(node_type: NodeType<V>) -> (r: Node<V>)
        ensures
            r.node_type == node_type,
    {
        Node { node_type }
    }

    /// Splits off the upper half of this node. The pairs at indices `t..`
    /// move to a new right sibling, the pair at `t - 1` is removed and
    /// returned as the median to promote, and for an internal node the
    /// children at indices `t..` move to the sibling as well.
    pub fn split(&mut self, t: usize) -> (r: Result<Split<V>, Error>)
        requires
            1 <= t,
            match old(self).node_type {
                NodeType::Internal(pairs, children) => pairs@.len() >= t && children@.len() >= t,
                NodeType::Leaf(pairs) => pairs@.len() >= t,
                NodeType::Undefined => true,
            },
        ensures
            match old(self).node_type {
                NodeType::Undefined => {
                    &&& r matches Err(e) && e == Error::UnexpectedError
                    &&& *final(self) == *old(self)
                },
                NodeType::Leaf(pairs) => r matches Ok(sp) && {
                    &&& final(self).node_type matches NodeType::Leaf(p2) && p2@ == pairs@.subrange(
                        0,
                        t as int - 1,
                    )
                    &&& sp.pair == pairs@[t as int - 1]
                    &&& sp.new_node.node_type matches NodeType::Leaf(p3) && p3@ == pairs@.subrange(
                        t as int,
                        pairs@.len() as int,
                    )
                },
                NodeType::Internal(pairs, children) => r matches Ok(sp) && {
                    &&& final(self).node_type matches NodeType::Internal(p2, c2) && p2@ == pairs@.subrange(
                        0,
                        t as int - 1,
                    ) && c2@ == children@.subrange(0, t as int)
                    &&& sp.pair == pairs@[t as int - 1]
                    &&& sp.new_node.node_type matches NodeType::Internal(p3, c3) && p3@
                        == pairs@.subrange(t as int, pairs@.len() as int) && c3@
                        == children@.subrange(t as int, children@.len() as int)
                },
            },
    {
        match &mut self.node_type {
            NodeType::Internal(key_val_pairs, children) => {
                let mut sibling_pairs = key_val_pairs.split_off(t - 1);
                let median = sibling_pairs.remove(0);
                let sibling_children = children.split_off(t);
                proof {
                    assert(sibling_pairs@ =~= old(self).node_type.arrow_Internal_0()@.subrange(
                        t as int,
                        old(self).node_type.arrow_Internal_0()@.len() as int,
                    ));
                }
                Ok(
                    Split::new(
                        median,
                        Node::new(NodeType::Internal(sibling_pairs, sibling_children)),
                    ),
                )
            },
            NodeType::Leaf(key_val_pairs) => {
                let sibling_pairs = key_val_pairs.split_off(t);
                let median = key_val_pairs.remove(t - 1);
                Ok(Split::new(median, Node::new(NodeType::Leaf(sibling_pairs))))
            },
            NodeType::Undefined => Err(Error::UnexpectedError),
        }
    }

    /// Inserts a promoted pair and the accompanying new right child into an
    /// internal node, keeping the pairs sorted. Fails with `KeyAlreadyExists`
    /// if the key is already present in this node and with `UnexpectedError`
    /// on a non-internal node.
    pub fn insert(&mut self, pair: KeyValue<V>, child: Node<V>) -> (r: Result<(), Error>)
        requires
            match old(self).node_type {
                NodeType::Internal(pairs, children) => sorted_keys(pair_keys(pairs@))
                    && children@.len() == pairs@.len() + 1,
                _ => true,
            },
        ensures
            match old(self).node_type {
                NodeType::Internal(pairs, children) => {
                    if pair_keys(pairs@).contains(pair.key) {
                        &&& r matches Err(e) && e == Error::KeyAlreadyExists
                        &&& *final(self) == *old(self)
                    } else {
                        &&& r matches Ok(u)
                        &&& exists|idx: int|
                            {
                                &&& 0 <= idx <= pairs@.len()
                                &&& (forall|m: int|
                                    0 <= m < idx ==> (#[trigger] pairs@[m]).key < pair.key)
                                &&& (forall|m: int|
                                    idx <= m < pairs@.len() ==> (#[trigger] pairs@[m]).key
                                        > pair.key)
                                &&& final(self).node_type matches NodeType::Internal(p2, c2) && p2@
                                    == #[trigger] pairs@.insert(idx, pair) && c2@
                                    == children@.insert(idx + 1, child)
                            }
                    }
                },
                _ => {
                    &&& r matches Err(e) && e == Error::UnexpectedError
                    &&& *final(self) == *old(self)
                },
            },
    {
        match &mut self.node_type {
            NodeType::Internal(pairs, children) => {
                let ghost opairs = pairs@;
                let mut index: usize = 0;
                while index < pairs.len() && pairs[index].key < pair.key
                    invariant
                        pairs@ == opairs,
                        0 <= index <= pairs@.len(),
                        forall|m: int| 0 <= m < index ==> (#[trigger] pairs@[m]).key < pair.key,
                        sorted_keys(pair_keys(pairs@)),
                    decreases pairs@.len() - index,
                {
                    index += 1;
                }
                if index < pairs.len() && pairs[index].key == pair.key {
                    proof {
                        assert(pair_keys(pairs@)[index as int] == pair.key);
                    }
                    return Err(Error::KeyAlreadyExists);
                }
                proof {
                    assert forall|m: int| index <= m < pairs@.len() implies (#[trigger] pairs@[m]).key
                        > pair.key by {
                        if m > index {
                            assert(pair_keys(pairs@)[index as int] < pair_keys(pairs@)[m]);
                        }
                    }
                    if pair_keys(opairs).contains(pair.key) {
                        let w = choose|w: int|
                            0 <= w < pair_keys(opairs).len() && pair_keys(opairs)[w] == pair.key;
                        assert(opairs[w].key == pair.key);
                    }
                }
                let clen = children.len();
                proof {
                    assert(clen == opairs.len() + 1);
                    assert(index + 1 <= clen);
                }
                pairs.insert(index, pair);
                children.insert(index + 1, child);
                Ok(())
            },
            _ => Err(Error::UnexpectedError),
        }
    }

    /// A node is full once it holds `2t - 1` pairs; a full node must be split
    /// before an insertion may descend through it.
    pub fn is_full(&self, t: usize) -> (r: Result<bool, Error>)
        requires
            1 <= t,
            t <= usize::MAX / 2,
        ensures
            match r {
                Ok(b) => !self.is_undefined() && (b <==> self.num_pairs() + 1 >= 2 * t),
                Err(e) => e == Error::UnexpectedError && self.is_undefined(),
            },
    {
        match &self.node_type {
            NodeType::Internal(pairs, _) => Ok(pairs.len() >= 2 * t - 1),
            NodeType::Leaf(pairs) => Ok(pairs.len() >= 2 * t - 1),
            NodeType::Undefined => Err(Error::UnexpectedError),
        }
    }
}

impl<V: Copy> Node<V> {
    /// In-order export of the subtree as key-value pairs: each internal
    /// node's children are interleaved with its own pairs in key order.
    /// Fails with `UnexpectedError` on a subtree holding an `Undefined` node.
    #[verifier::loop_isolation(false)]
    pub fn into_vec(&self) -> (r: Result<Vec<(u64, V)>, Error>)
        ensures
            match r {
                Ok(v) => !self.has_undefined() && v@ == self.entries(),
                Err(e) => e == Error::UnexpectedError && self.has_undefined(),
            },
        decreases self.height(),
    {
        match &self.node_type {
            NodeType::Undefined => Err(Error::UnexpectedError),
            NodeType::Leaf(pairs) => {
                let mut out: Vec<(u64, V)> = Vec::new();
                let mut i: usize = 0;
                while i < pairs.len()
                    invariant
                        0 <= i <= pairs@.len(),
                        out@ == pairs_seq(pairs@.subrange(0, i as int)),
                    decreases pairs@.len() - i,
                {
                    let kv = &pairs[i];
                    out.push((kv.key, kv.value));
                    proof {
                        assert(out@ =~= pairs_seq(pairs@.subrange(0, i as int + 1)));
                    }
                    i += 1;
                }
                proof {
                    assert(pairs@.subrange(0, pairs@.len() as int) =~= pairs@);
                }
                Ok(out)
            },
            NodeType::Internal(pairs, children) => {
                let mut out: Vec<(u64, V)> = Vec::new();
                let mut i: usize = 0;
                let ghost mut jj: int = 0;
                proof {
                    assert(pairs@.subrange(0, pairs@.len() as int) =~= pairs@);
                    assert(children@.subrange(0, children@.len() as int) =~= children@);
                    assert(Seq::<(u64, V)>::empty() + flat_entries(pairs@, children@)
                        =~= flat_entries(pairs@, children@));
                }
                while i < children.len()
                    invariant
                        0 <= i <= children@.len(),
                        jj == if i as int <= pairs@.len() {
                            i as int
                        } else {
                            pairs@.len() as int
                        },
                        out@ + flat_entries(
                            pairs@.subrange(jj, pairs@.len() as int),
                            children@.subrange(i as int, children@.len() as int),
                        ) == flat_entries(pairs@, children@),
                        forall|m: int| 0 <= m < i ==> !(#[trigger] children@[m]).has_undefined(),
                    decreases children@.len() - i,
                {
                    let ghost p_rest = pairs@.subrange(jj, pairs@.len() as int);
                    let ghost c_rest = children@.subrange(i as int, children@.len() as int);
                    proof {
                        lemma_child_height(*self, i as int);
                    }
                    let sub = children[i].into_vec();
                    match sub {
                        Err(_) => {
                            proof {
                                assert(children@[i as int].has_undefined());
                            }
                            return Err(Error::UnexpectedError);
                        },
                        Ok(mut v) => {
                            out.append(&mut v);
                        },
                    }
                    if i < pairs.len() {
                        let kv = &pairs[i];
                        out.push((kv.key, kv.value));
                        proof {
                            jj = jj + 1;
                        }
                    }
                    proof {
                        assert(c_rest[0] == children@[i as int]);
                        assert(tail_pairs(p_rest) =~= pairs@.subrange(jj, pairs@.len() as int));
                        assert(c_rest.drop_first() =~= children@.subrange(
                            i as int + 1,
                            children@.len() as int,
                        ));
                        if p_rest.len() > 0 {
                            assert(head_pair_seq(p_rest) =~= seq![
                                (pairs@[i as int].key, pairs@[i as int].value),
                            ]);
                        }
                        assert(out@ + flat_entries(
                            pairs@.subrange(jj, pairs@.len() as int),
                            children@.subrange(i as int + 1, children@.len() as int),
                        ) =~= flat_entries(pairs@, children@));
                    }
                    i += 1;
                }
                proof {
                    assert(children@.subrange(
                        children@.len() as int,
                        children@.len() as int,
                    ).len() == 0);
                    assert(out@ =~= flat_entries(pairs@, children@));
                    assert(!self.has_undefined());
                }
                Ok(out)
            },
        }
    }
}

} // verus!
