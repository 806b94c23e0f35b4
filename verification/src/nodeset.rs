//! The stored record set: value-keyed membership over the four retained
//! fields, with insertion-order iteration for persistence.

use vstd::prelude::*;
use vstd::seq_lib::*;
use vstd::set_lib::*;

use crate::nodestructs::{Node, NodeView};

verus! {

/// The views of a record sequence.
pub open spec fn nodes_seq_view(s: Seq<Node>) -> Seq<NodeView> {
    s.map_values(|n: Node| n@)
}

/// Pushing an element inserts exactly it into the element set.
pub proof fn lemma_to_set_push<A>(s: Seq<A>, x: A)
    ensures
        s.push(x).to_set() == s.to_set().insert(x),
{
    let pushed = s.push(x);
    assert forall|e: A| pushed.to_set().contains(e) implies s.to_set().insert(x).contains(
        e,
    ) by {
        let j = choose|j: int| 0 <= j < pushed.len() && pushed[j] == e;
        if j < s.len() {
            assert(s[j] == e);
        }
    }
    assert forall|e: A| s.to_set().insert(x).contains(e) implies pushed.to_set().contains(
        e,
    ) by {
        if s.to_set().contains(e) {
            let j = choose|j: int| 0 <= j < s.len() && s[j] == e;
            assert(pushed[j] == e);
        } else {
            assert(pushed[s.len() as int] == e);
        }
    }
    assert(pushed.to_set() =~= s.to_set().insert(x));
}

/// Every element of a filtered record sequence stands in the original.
proof fn lemma_filter_member<A>(s: Seq<A>, pred: spec_fn(A) -> bool, i: int)
    requires
        0 <= i < s.filter(pred).len(),
    ensures
        exists|k: int| 0 <= k < s.len() && s[k] == s.filter(pred)[i],
    decreases s.len(),
{
    reveal(Seq::filter);
    if s.len() > 0 {
        let sub = s.drop_last().filter(pred);
        if i < sub.len() {
            lemma_filter_member(s.drop_last(), pred, i);
            let k = choose|k: int| 0 <= k < s.drop_last().len() && s.drop_last()[k] == sub[i];
            assert(s[k] == s.filter(pred)[i]);
        } else {
            assert(s[s.len() - 1] == s.filter(pred)[i]);
        }
    }
}

/// Filtering a sequence filters its element set.
pub proof fn lemma_filter_to_set<A>(s: Seq<A>, pred: spec_fn(A) -> bool)
    ensures
        s.filter(pred).to_set() == s.to_set().filter(pred),
{
    let fin = s.filter(pred);
    assert forall|e: A| fin.to_set().contains(e) implies s.to_set().filter(pred).contains(
        e,
    ) by {
        let i = choose|i: int| 0 <= i < fin.len() && fin[i] == e;
        s.lemma_filter_pred(pred, i);
        lemma_filter_member(s, pred, i);
        let k = choose|k: int| 0 <= k < s.len() && s[k] == fin[i];
    }
    assert forall|e: A| s.to_set().filter(pred).contains(e) implies fin.to_set().contains(
        e,
    ) by {
        let k = choose|k: int| 0 <= k < s.len() && s[k] == e;
        s.lemma_filter_contains(pred, k);
        assert(fin.contains(e));
    }
    assert(fin.to_set() =~= s.to_set().filter(pred));
}

/// Identity is structural over all four retained fields: two records
/// differing only in creation time are distinct members, so a set that
/// holds both has at least two elements.
pub proof fn lemma_distinct_created_utc_distinct_members(a: NodeView, b: NodeView, s: Set<NodeView>)
    requires
        a.created_utc != b.created_utc,
        s.finite(),
        s.contains(a),
        s.contains(b),
    ensures
        a != b,
        s.len() >= 2,
{
    let rest = s.remove(a);
    assert(rest.contains(b));
    assert(rest.len() >= 1) by {
        if rest.len() == 0 {
            rest.lemma_len0_is_empty();
        }
    }
    assert(s.len() == rest.len() + 1);
}

/// The live set of collected records, deduplicated by structural
/// equality across all four fields.
#[derive(Debug)]
pub struct NodeSet {
    items: Vec<Node>,
}

impl View for NodeSet {
    type V = Set<NodeView>;

    closed spec fn view(&self) -> Set<NodeView> {
        nodes_seq_view(self.items@).to_set()
    }
}

impl NodeSet {
    /// The records in insertion order.
    pub closed spec fn as_seq(&self) -> Seq<NodeView> {
        nodes_seq_view(self.items@)
    }

    /// Well-formedness: no record stands in the set twice.
    pub open spec fn wf(&self) -> bool {
        self.as_seq().no_duplicates()
    }

    /// The set is exactly the elements of the insertion order.
    pub proof fn lemma_view_is_seq(&self)
        ensures
            self@ == self.as_seq().to_set(),
    {
    }

    /// An empty set.
    pub fn new() -> (r: NodeSet)
        ensures
            r@ =~= Set::<NodeView>::empty(),
            r.as_seq() =~= Seq::<NodeView>::empty(),
            r.wf(),
    {
        let items: Vec<Node> = Vec::new();
        assert(nodes_seq_view(items@) =~= Seq::<NodeView>::empty());
        assert(nodes_seq_view(items@).to_set() =~= Set::<NodeView>::empty());
        NodeSet { items }
    }

    /// How many records are stored.
    pub fn len(&self) -> (r: usize)
        requires
            self.wf(),
        ensures
            r == self@.len(),
            r == self.as_seq().len(),
    {
        proof {
            self.as_seq().unique_seq_to_set();
        }
        self.items.len()
    }

    /// Whether `node` is a member, by value.
    pub fn contains(&self, node: &Node) -> (r: bool)
        ensures
            r == self@.contains(node@),
    {
        let n = self.items.len();
        for i in 0..n
            invariant
                n == self.items.len(),
                forall|j: int| 0 <= j < i ==> #[trigger] self.as_seq()[j] != node@,
        {
            if self.items[i] == *node {
                assert(self.as_seq()[i as int] == node@);
                assert(self.as_seq().contains(node@));
                return true;
            }
        }
        proof {
            if self@.contains(node@) {
                let j = choose|j: int|
                    0 <= j < self.as_seq().len() && #[trigger] self.as_seq()[j] == node@;
            }
        }
        false
    }

    /// The record at position `i` of the insertion order.
    pub fn get(&self, i: usize) -> (r: &Node)
        requires
            i < self.as_seq().len(),
        ensures
            r@ == self.as_seq()[i as int],
    {
        &self.items[i]
    }

    /// Adds `node` unless an equal record is already stored.
    pub fn insert(&mut self, node: Node)
        requires
            old(self).wf(),
        ensures
            final(self)@ == old(self)@.insert(node@),
            final(self).wf(),
            final(self).as_seq() == if old(self)@.contains(node@) {
                old(self).as_seq()
            } else {
                old(self).as_seq().push(node@)
            },
    {
        if self.contains(&node) {
            proof {
                assert(old(self)@.insert(node@) =~= old(self)@);
            }
        } else {
            self.items.push(node);
            proof {
                assert(self.as_seq() =~= old(self).as_seq().push(node@));
                lemma_to_set_push(old(self).as_seq(), node@);
                assert(!old(self).as_seq().contains(node@));
                assert(self.as_seq().no_duplicates()) by {
                    let s = self.as_seq();
                    let o = old(self).as_seq();
                    assert forall|i: int, j: int| 0 <= i < j < s.len() implies s[i] != s[j] by {
                        if j == s.len() - 1 {
                            assert(o[i] == s[i]);
                            if s[i] == node@ {
                                assert(o.contains(node@));
                            }
                        }
                    }
                }
            }
        }
    }
}

} // verus!
