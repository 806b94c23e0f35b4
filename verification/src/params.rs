//! A write-once parameter mapping: ordered key/value pairs with unique
//! keys and an insert-or-fail operation, as the query builder needs.

use vstd::prelude::*;

use crate::pserror::PSError;
use crate::strutil::str_eq;

verus! {

/// A key/value pair sequence as specifications see it.
pub type PairsView = Seq<(Seq<char>, Seq<char>)>;

/// Whether `pairs` holds the key `key`.
pub open spec fn has_key(pairs: PairsView, key: Seq<char>) -> bool {
    exists|i: int| 0 <= i < pairs.len() && #[trigger] pairs[i].0 == key
}

/// Whether no two pairs of `pairs` share a key.
pub open spec fn keys_unique(pairs: PairsView) -> bool {
    forall|i: int, j: int|
        0 <= i < j < pairs.len() ==> (#[trigger] pairs[i]).0 != (#[trigger] pairs[j]).0
}

/// The predicate selecting the pairs not keyed `key`.
pub open spec fn other_key_pred(key: Seq<char>) -> spec_fn((Seq<char>, Seq<char>)) -> bool {
    |p: (Seq<char>, Seq<char>)| p.0 != key
}

/// `pairs` without every pair keyed `key`.
pub open spec fn remove_key(pairs: PairsView, key: Seq<char>) -> PairsView {
    pairs.filter(other_key_pred(key))
}

/// The value stored under `key`: the first match, scanning in order.
pub open spec fn lookup(pairs: PairsView, key: Seq<char>) -> Option<Seq<char>>
    decreases pairs.len(),
{
    if pairs.len() == 0 {
        None
    } else if pairs[0].0 == key {
        Some(pairs[0].1)
    } else {
        lookup(pairs.drop_first(), key)
    }
}

/// A key is present exactly when a lookup finds a value.
pub proof fn lemma_lookup_some_iff_has_key(pairs: PairsView, key: Seq<char>)
    ensures
        has_key(pairs, key) <==> lookup(pairs, key) is Some,
    decreases pairs.len(),
{
    if pairs.len() > 0 && pairs[0].0 != key {
        lemma_lookup_some_iff_has_key(pairs.drop_first(), key);
        assert(has_key(pairs.drop_first(), key) ==> has_key(pairs, key)) by {
            if has_key(pairs.drop_first(), key) {
                let i = choose|i: int|
                    0 <= i < pairs.drop_first().len() && #[trigger] pairs.drop_first()[i].0 == key;
                assert(pairs[i + 1].0 == key);
            }
        }
        assert(has_key(pairs, key) ==> has_key(pairs.drop_first(), key)) by {
            if has_key(pairs, key) {
                let i = choose|i: int| 0 <= i < pairs.len() && #[trigger] pairs[i].0 == key;
                assert(pairs.drop_first()[i - 1].0 == key);
            }
        }
    }
}

/// Appending a pair under a fresh key makes a lookup of that key find its
/// value.
pub proof fn lemma_lookup_pushed(pairs: PairsView, key: Seq<char>, value: Seq<char>)
    requires
        !has_key(pairs, key),
    ensures
        lookup(pairs.push((key, value)), key) == Some(value),
    decreases pairs.len(),
{
    if pairs.len() == 0 {
        assert(pairs.push((key, value))[0] == (key, value));
    } else {
        assert(pairs[0].0 != key);
        assert(pairs.push((key, value)).drop_first() =~= pairs.drop_first().push((key, value)));
        assert(!has_key(pairs.drop_first(), key)) by {
            if has_key(pairs.drop_first(), key) {
                let i = choose|i: int|
                    0 <= i < pairs.drop_first().len() && #[trigger] pairs.drop_first()[i].0 == key;
                assert(pairs[i + 1].0 == key);
            }
        }
        lemma_lookup_pushed(pairs.drop_first(), key, value);
    }
}

/// The pair of views of one key/value pair.
pub open spec fn pair_view(p: (String, String)) -> (Seq<char>, Seq<char>) {
    (p.0@, p.1@)
}

/// The view of a vector of key/value pairs.
pub open spec fn vec_pairs_view(v: Seq<(String, String)>) -> PairsView {
    v.map_values(|p: (String, String)| pair_view(p))
}

/// The ordered, unique-keyed parameter mapping of one query.
#[derive(Debug)]
pub struct ParamList {
    pairs: Vec<(String, String)>,
}

impl View for ParamList {
    type V = PairsView;

    closed spec fn view(&self) -> PairsView {
        vec_pairs_view(self.pairs@)
    }
}

impl ParamList {
    /// Whether no two parameters share a key.
    pub open spec fn wf(&self) -> bool {
        keys_unique(self@)
    }

    /// An empty mapping.
    pub fn new() -> (r: ParamList)
        ensures
            r@ =~= Seq::<(Seq<char>, Seq<char>)>::empty(),
            r.wf(),
    {
        ParamList { pairs: Vec::new() }
    }

    /// How many parameters are set.
    pub fn len(&self) -> (r: usize)
        ensures
            r == self@.len(),
    {
        self.pairs.len()
    }

    /// The pairs in insertion order.
    pub fn pairs(&self) -> (r: &Vec<(String, String)>)
        ensures
            vec_pairs_view(r@) == self@,
    {
        &self.pairs
    }

    /// Whether `key` is already set.
    pub fn contains_key(&self, key: &str) -> (r: bool)
        ensures
            r == has_key(self@, key@),
    {
        let n = self.pairs.len();
        for i in 0..n
            invariant
                n == self.pairs.len(),
                forall|j: int| 0 <= j < i ==> #[trigger] self@[j].0 != key@,
        {
            if str_eq(self.pairs[i].0.as_str(), key) {
                assert(self@[i as int].0 == key@);
                return true;
            }
        }
        false
    }

    /// The value set under `key`, if any.
    pub fn get(&self, key: &str) -> (r: Option<&String>)
        ensures
            match r {
                Some(v) => lookup(self@, key@) == Some(v@),
                None => lookup(self@, key@) is None,
            },
    {
        let n = self.pairs.len();
        assert(self@.skip(0) =~= self@);
        for i in 0..n
            invariant
                n == self.pairs.len(),
                lookup(self@, key@) == lookup(self@.skip(i as int), key@),
                forall|j: int| 0 <= j < i ==> #[trigger] self@[j].0 != key@,
        {
            proof {
                assert(self@.skip(i as int)[0] == self@[i as int]);
                assert(self@.skip(i as int).drop_first() =~= self@.skip(i + 1));
            }
            if str_eq(self.pairs[i].0.as_str(), key) {
                return Some(&self.pairs[i].1);
            }
        }
        None
    }

    /// Sets `key` to `value`; fails with `AlreadyAdded`, leaving the
    /// mapping unchanged, when `key` was set before.
    pub fn insert(&mut self, key: &str, value: &str) -> (r: Result<(), PSError>)
        ensures
            match r {
                Ok(()) => !has_key(old(self)@, key@) && final(self)@ == old(self)@.push(
                    (key@, value@),
                ),
                Err(e) => has_key(old(self)@, key@) && final(self)@ == old(self)@ && (e matches
                    PSError::AlreadyAdded(p) && p@ == key@),
            },
            old(self).wf() ==> final(self).wf(),
    {
        if self.contains_key(key) {
            Err(PSError::AlreadyAdded(key.to_owned()))
        } else {
            self.pairs.push((key.to_owned(), value.to_owned()));
            assert(final(self)@ =~= old(self)@.push((key@, value@)));
            Ok(())
        }
    }

    /// Replaces whatever was set under `key` by `value`: removes the key
    /// and appends the new pair.
    pub fn set(&mut self, key: &str, value: &str)
        ensures
            final(self)@ == remove_key(old(self)@, key@).push((key@, value@)),
            old(self).wf() ==> final(self).wf(),
    {
        self.remove(key);
        proof {
            let removed = remove_key(old(self)@, key@);
            if old(self).wf() {
                assert(keys_unique(removed.push((key@, value@)))) by {
                    let fin = removed.push((key@, value@));
                    assert forall|i: int, j: int| 0 <= i < j < fin.len() implies (
                    #[trigger] fin[i]).0 != (#[trigger] fin[j]).0 by {
                        if j == fin.len() - 1 {
                            assert(!has_key(removed, key@));
                            assert(removed[i].0 != key@);
                        }
                    }
                }
            }
        }
        self.pairs.push((key.to_owned(), value.to_owned()));
        assert(final(self)@ =~= remove_key(old(self)@, key@).push((key@, value@)));
    }

    /// Removes every pair keyed `key` (at most one, when well formed).
    pub fn remove(&mut self, key: &str)
        ensures
            final(self)@ == remove_key(old(self)@, key@),
            old(self).wf() ==> final(self).wf(),
            !has_key(final(self)@, key@),
    {
        let ghost pred = other_key_pred(key@);
        let n = self.pairs.len();
        let mut kept: Vec<(String, String)> = Vec::new();
        assert(old(self)@.take(0).filter(pred) =~= Seq::<(Seq<char>, Seq<char>)>::empty());
        for i in 0..n
            invariant
                pred == other_key_pred(key@),
                n == self.pairs.len(),
                self.pairs == old(self).pairs,
                vec_pairs_view(kept@) =~= old(self)@.take(i as int).filter(pred),
        {
            proof {
                reveal(Seq::filter);
                assert(self.pairs@ == old(self).pairs@);
                assert(old(self)@[i as int] == pair_view(old(self).pairs@[i as int]));
                assert(old(self)@.take(i + 1).drop_last() =~= old(self)@.take(i as int));
                assert(old(self)@.take(i + 1).last() == old(self)@[i as int]);
            }
            if !str_eq(self.pairs[i].0.as_str(), key) {
                let pair = (self.pairs[i].0.clone(), self.pairs[i].1.clone());
                assert((pair.0@, pair.1@) == old(self)@[i as int]);
                kept.push(pair);
                assert(vec_pairs_view(kept@) =~= old(self)@.take(i + 1).filter(pred));
            } else {
                assert(old(self)@[i as int].0 == key@);
                assert(!pred(old(self)@[i as int]));
                assert(old(self)@.take(i + 1).filter(pred) =~= old(self)@.take(i as int).filter(
                    pred,
                ));
            }
        }
        assert(old(self)@.take(n as int) =~= old(self)@);
        self.pairs = kept;
        proof {
            let fin = final(self)@;
            assert forall|i: int| 0 <= i < fin.len() implies (#[trigger] fin[i]).0 != key@ by {
                old(self)@.lemma_filter_pred(pred, i);
            }
            assert(old(self).wf() ==> final(self).wf()) by {
                if old(self).wf() {
                    lemma_filter_keys_unique(old(self)@, pred);
                }
            }
        }
    }
}

/// A pushed pair adds exactly its own key.
pub proof fn lemma_has_key_push(pairs: PairsView, key: Seq<char>, p: (Seq<char>, Seq<char>))
    ensures
        has_key(pairs.push(p), key) <==> (has_key(pairs, key) || p.0 == key),
{
    let pushed = pairs.push(p);
    if has_key(pairs, key) {
        let i = choose|i: int| 0 <= i < pairs.len() && #[trigger] pairs[i].0 == key;
        assert(pushed[i].0 == key);
    }
    if p.0 == key {
        assert(pushed[pairs.len() as int].0 == key);
    }
    if has_key(pushed, key) {
        let i = choose|i: int| 0 <= i < pushed.len() && #[trigger] pushed[i].0 == key;
        if i < pairs.len() {
            assert(pairs[i].0 == key);
        }
    }
}

/// In a unique-keyed pair sequence, looking a key up finds the pair that
/// holds it.
pub proof fn lemma_lookup_unique(pairs: PairsView, k: int)
    requires
        keys_unique(pairs),
        0 <= k < pairs.len(),
    ensures
        lookup(pairs, pairs[k].0) == Some(pairs[k].1),
    decreases pairs.len(),
{
    if k > 0 {
        assert(pairs[0].0 != pairs[k].0);
        assert(keys_unique(pairs.drop_first())) by {
            assert(forall|i: int|
                0 <= i < pairs.drop_first().len() ==> pairs.drop_first()[i] == pairs[i + 1]);
        }
        lemma_lookup_unique(pairs.drop_first(), k - 1);
    }
}

/// Removing one key keeps every other key present.
pub proof fn lemma_has_key_remove_other(pairs: PairsView, removed: Seq<char>, key: Seq<char>)
    requires
        has_key(pairs, key),
        key != removed,
    ensures
        has_key(remove_key(pairs, removed), key),
{
    let pred = other_key_pred(removed);
    let i = choose|i: int| 0 <= i < pairs.len() && #[trigger] pairs[i].0 == key;
    pairs.lemma_filter_contains(pred, i);
    let fin = pairs.filter(pred);
    assert(fin.contains(pairs[i]));
    let j = choose|j: int| 0 <= j < fin.len() && fin[j] == pairs[i];
    assert(fin[j].0 == key);
}

/// Removing a key distributes over appending a pair under another key.
pub proof fn lemma_remove_key_push_other(pairs: PairsView, key: Seq<char>, p: (Seq<char>, Seq<char>))
    requires
        p.0 != key,
    ensures
        remove_key(pairs.push(p), key) == remove_key(pairs, key).push(p),
{
    let pred = other_key_pred(key);
    assert(pairs.push(p) =~= pairs + seq![p]);
    Seq::filter_distributes_over_add(pairs, seq![p], pred);
    reveal(Seq::filter);
    assert(seq![p].drop_last() =~= Seq::<(Seq<char>, Seq<char>)>::empty());
    assert(seq![p].filter(pred) =~= seq![p]);
    assert(remove_key(pairs, key) + seq![p] =~= remove_key(pairs, key).push(p));
}

/// Appending a pair under `key` vanishes when `key` is then removed.
pub proof fn lemma_remove_key_push_same(pairs: PairsView, key: Seq<char>, p: (Seq<char>, Seq<char>))
    requires
        p.0 == key,
    ensures
        remove_key(pairs.push(p), key) == remove_key(pairs, key),
{
    let pred = other_key_pred(key);
    assert(pairs.push(p) =~= pairs + seq![p]);
    Seq::filter_distributes_over_add(pairs, seq![p], pred);
    reveal_with_fuel(Seq::filter, 2);
    assert(seq![p].drop_last() =~= Seq::<(Seq<char>, Seq<char>)>::empty());
    assert(seq![p].last() == p);
    assert(!pred(p));
    assert(Seq::<(Seq<char>, Seq<char>)>::empty().filter(pred) =~= Seq::<(
        Seq<char>,
        Seq<char>,
    )>::empty());
    assert(seq![p].filter(pred) =~= Seq::<(Seq<char>, Seq<char>)>::empty());
    assert(remove_key(pairs, key) + Seq::<(Seq<char>, Seq<char>)>::empty() =~= remove_key(
        pairs,
        key,
    ));
}

/// A pair sequence that already lacks `key` is unchanged by removing it.
pub proof fn lemma_remove_key_absent(pairs: PairsView, key: Seq<char>)
    requires
        !has_key(pairs, key),
    ensures
        remove_key(pairs, key) == pairs,
    decreases pairs.len(),
{
    let pred = other_key_pred(key);
    reveal(Seq::filter);
    if pairs.len() > 0 {
        assert(!has_key(pairs.drop_last(), key)) by {
            if has_key(pairs.drop_last(), key) {
                let i = choose|i: int|
                    0 <= i < pairs.drop_last().len() && #[trigger] pairs.drop_last()[i].0 == key;
                assert(pairs[i].0 == key);
            }
        }
        lemma_remove_key_absent(pairs.drop_last(), key);
        assert(pairs[pairs.len() - 1].0 != key);
        assert(pred(pairs.last()));
        assert(pairs.drop_last().push(pairs.last()) =~= pairs);
    }
}

/// Removing a key twice is the same as removing it once.
pub proof fn lemma_remove_key_idem(pairs: PairsView, key: Seq<char>)
    ensures
        remove_key(remove_key(pairs, key), key) == remove_key(pairs, key),
{
    let removed = remove_key(pairs, key);
    assert(!has_key(removed, key)) by {
        assert forall|i: int| 0 <= i < removed.len() implies (#[trigger] removed[i]).0 != key by {
            pairs.lemma_filter_pred(other_key_pred(key), i);
        }
    }
    lemma_remove_key_absent(removed, key);
}

impl ParamList {
    /// A copy with the same pairs.
    pub fn duplicate(&self) -> (r: ParamList)
        ensures
            r@ == self@,
    {
        let n = self.pairs.len();
        let mut pairs: Vec<(String, String)> = Vec::new();
        for i in 0..n
            invariant
                n == self.pairs.len(),
                vec_pairs_view(pairs@) =~= self@.take(i as int),
        {
            let pair = (self.pairs[i].0.clone(), self.pairs[i].1.clone());
            assert((pair.0@, pair.1@) == self@[i as int]);
            pairs.push(pair);
            assert(self@.take(i + 1) =~= self@.take(i as int).push(self@[i as int]));
            assert(vec_pairs_view(pairs@) =~= self@.take(i + 1));
        }
        assert(self@.take(n as int) =~= self@);
        ParamList { pairs }
    }
}

/// Every element of a filtered pair sequence stands in the original.
proof fn lemma_filter_member(pairs: PairsView, pred: spec_fn((Seq<char>, Seq<char>)) -> bool, i: int)
    requires
        0 <= i < pairs.filter(pred).len(),
    ensures
        exists|k: int| 0 <= k < pairs.len() && pairs[k] == pairs.filter(pred)[i],
    decreases pairs.len(),
{
    reveal(Seq::filter);
    if pairs.len() > 0 {
        let sub = pairs.drop_last().filter(pred);
        if i < sub.len() {
            lemma_filter_member(pairs.drop_last(), pred, i);
            let k = choose|k: int|
                0 <= k < pairs.drop_last().len() && pairs.drop_last()[k] == sub[i];
            assert(pairs[k] == pairs.filter(pred)[i]);
        } else {
            assert(pairs[pairs.len() - 1] == pairs.filter(pred)[i]);
        }
    }
}

/// Filtering a unique-keyed pair sequence keeps its keys unique.
proof fn lemma_filter_keys_unique(pairs: PairsView, pred: spec_fn((Seq<char>, Seq<char>)) -> bool)
    requires
        keys_unique(pairs),
    ensures
        keys_unique(pairs.filter(pred)),
    decreases pairs.len(),
{
    reveal(Seq::filter);
    if pairs.len() > 0 {
        assert(keys_unique(pairs.drop_last())) by {
            assert(forall|i: int|
                0 <= i < pairs.drop_last().len() ==> pairs.drop_last()[i] == pairs[i]);
        }
        lemma_filter_keys_unique(pairs.drop_last(), pred);
        if pred(pairs.last()) {
            let fin = pairs.filter(pred);
            let sub = pairs.drop_last().filter(pred);
            assert(fin =~= sub.push(pairs.last()));
            assert forall|i: int, j: int| 0 <= i < j < fin.len() implies (#[trigger] fin[i]).0 != (
            #[trigger] fin[j]).0 by {
                if j < fin.len() - 1 {
                    assert(sub[i] == fin[i] && sub[j] == fin[j]);
                } else {
                    lemma_filter_member(pairs.drop_last(), pred, i);
                    let k = choose|k: int|
                        0 <= k < pairs.drop_last().len() && pairs.drop_last()[k] == sub[i];
                    assert(pairs[k] == sub[i]);
                    assert(pairs[k].0 != pairs.last().0);
                }
            }
        }
    }
}

} // verus!

