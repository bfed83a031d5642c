//! Insertion-ordered collections keyed by strings.
//!
//! The resolver's maps (qualified name to node, file to package, file to
//! imports) and sets (dependency edges) are association lists: lookups compare
//! key views, and iteration follows insertion order, so every observable
//! result of the resolver is a function of its input batch alone.

use vstd::prelude::*;
use vstd::pervasive::VecAdditionalExecFns;
use crate::text::{str_eq, copy_string};

verus! {

/// The first index at which `k` occurs in `keys`, or `-1` when it does not.
pub open spec fn first_index(keys: Seq<Seq<char>>, k: Seq<char>) -> int
    decreases keys.len(),
{
    if keys.len() == 0 {
        -1
    } else if keys[0] == k {
        0
    } else {
        let rest = first_index(keys.subrange(1, keys.len() as int), k);
        if rest < 0 {
            -1
        } else {
            rest + 1
        }
    }
}

/// What `first_index` returns: a position holding `k` with no earlier
/// occurrence, or `-1` when `k` does not occur at all.
pub proof fn lemma_first_index_props(keys: Seq<Seq<char>>, k: Seq<char>)
    ensures
        first_index(keys, k) >= 0 ==> {
            &&& first_index(keys, k) < keys.len()
            &&& keys[first_index(keys, k)] == k
            &&& forall|j: int| 0 <= j < first_index(keys, k) ==> keys[j] != k
        },
        first_index(keys, k) < 0 ==> (forall|j: int| 0 <= j < keys.len() ==> keys[j] != k),
    decreases keys.len(),
{
    if keys.len() == 0 {
    } else if keys[0] == k {
    } else {
        let rest = keys.subrange(1, keys.len() as int);
        lemma_first_index_props(rest, k);
        let rfi = first_index(rest, k);
        if rfi >= 0 {
            assert(first_index(keys, k) == rfi + 1);
            assert(keys[rfi + 1] == rest[rfi]);
            assert forall|j: int| 0 <= j < rfi + 1 implies keys[j] != k by {
                if j > 0 {
                    assert(keys[j] == rest[j - 1]);
                }
            }
        } else {
            assert forall|j: int| 0 <= j < keys.len() implies keys[j] != k by {
                if j > 0 {
                    assert(keys[j] == rest[j - 1]);
                }
            }
        }
    }
}

/// `first_index` finds exactly the position that has `k` first.
pub proof fn lemma_first_index_at(keys: Seq<Seq<char>>, k: Seq<char>, i: int)
    requires
        0 <= i < keys.len(),
        keys[i] == k,
        forall|j: int| 0 <= j < i ==> keys[j] != k,
    ensures
        first_index(keys, k) == i,
    decreases keys.len(),
{
    if keys[0] == k {
    } else {
        let rest = keys.subrange(1, keys.len() as int);
        assert(forall|j: int| 0 <= j < rest.len() ==> rest[j] == keys[j + 1]);
        lemma_first_index_at(rest, k, i - 1);
    }
}

/// When `k` occurs nowhere, `first_index` is `-1`.
pub proof fn lemma_first_index_absent(keys: Seq<Seq<char>>, k: Seq<char>)
    requires
        forall|j: int| 0 <= j < keys.len() ==> keys[j] != k,
    ensures
        first_index(keys, k) == -1,
{
    lemma_first_index_props(keys, k);
    if first_index(keys, k) >= 0 {
        assert(keys[first_index(keys, k)] == k);
    }
}

/// `first_index` is unchanged by appending entries behind an occurrence, and
/// appending a fresh key puts its first occurrence at the end.
pub proof fn lemma_first_index_push(keys: Seq<Seq<char>>, k: Seq<char>, new: Seq<char>)
    ensures
        first_index(keys, k) >= 0 ==> first_index(keys.push(new), k) == first_index(keys, k),
        first_index(keys, k) < 0 && new == k ==> first_index(keys.push(new), k) == keys.len(),
        first_index(keys, k) < 0 && new != k ==> first_index(keys.push(new), k) == -1,
{
    lemma_first_index_props(keys, k);
    let pushed = keys.push(new);
    if first_index(keys, k) >= 0 {
        lemma_first_index_at(pushed, k, first_index(keys, k));
    } else if new == k {
        lemma_first_index_at(pushed, k, keys.len() as int);
    } else {
        lemma_first_index_absent(pushed, k);
    }
}

/// A non-negative `first_index` is the same thing as containment.
pub proof fn lemma_first_index_contains(keys: Seq<Seq<char>>, k: Seq<char>)
    ensures
        (first_index(keys, k) >= 0) == keys.contains(k),
{
    lemma_first_index_props(keys, k);
    if first_index(keys, k) >= 0 {
        assert(keys[first_index(keys, k)] == k);
    }
}

/// Where `first_index` lands in a concatenation: the left part wins when it
/// has the key, else the right part decides, shifted.
pub proof fn lemma_first_index_concat(a: Seq<Seq<char>>, b: Seq<Seq<char>>, x: Seq<char>)
    ensures
        first_index(a, x) >= 0 ==> first_index(a + b, x) == first_index(a, x),
        first_index(a, x) < 0 && first_index(b, x) >= 0 ==> first_index(a + b, x) == a.len()
            + first_index(b, x),
        first_index(a, x) < 0 && first_index(b, x) < 0 ==> first_index(a + b, x) == -1,
{
    lemma_first_index_props(a, x);
    lemma_first_index_props(b, x);
    if first_index(a, x) >= 0 {
        let i = first_index(a, x);
        assert((a + b)[i] == a[i]);
        assert forall|j: int| 0 <= j < i implies (a + b)[j] != x by {
            assert((a + b)[j] == a[j]);
        }
        lemma_first_index_at(a + b, x, i);
    } else if first_index(b, x) >= 0 {
        let i = a.len() + first_index(b, x);
        assert((a + b)[i] == b[first_index(b, x)]);
        assert forall|j: int| 0 <= j < i implies (a + b)[j] != x by {
            if j < a.len() {
                assert((a + b)[j] == a[j]);
            } else {
                assert((a + b)[j] == b[j - a.len()]);
            }
        }
        lemma_first_index_at(a + b, x, i);
    } else {
        assert forall|j: int| 0 <= j < (a + b).len() implies (a + b)[j] != x by {
            if j < a.len() {
                assert((a + b)[j] == a[j]);
            } else {
                assert((a + b)[j] == b[j - a.len()]);
            }
        }
        lemma_first_index_absent(a + b, x);
    }
}

/// A map from strings to values that remembers insertion order. Inserting an
/// existing key replaces its value in place; iteration by index walks the
/// keys in the order they were first inserted.
pub struct NameMap<V> {
    entries: Vec<(String, V)>,
}

impl<V> NameMap<V> {
    /// The key views, in insertion order.
    pub closed spec fn key_seq(self) -> Seq<Seq<char>> {
        self.entries@.map_values(|e: (String, V)| e.0@)
    }

    /// The values, in the same order as `key_seq`.
    pub closed spec fn val_seq(self) -> Seq<V> {
        self.entries@.map_values(|e: (String, V)| e.1)
    }

    /// Keys are distinct: each key view occurs once.
    pub open spec fn wf(self) -> bool {
        forall|i: int, j: int|
            0 <= i < j < self.key_seq().len() ==> self.key_seq()[i] != self.key_seq()[j]
    }

    pub open spec fn spec_len(self) -> nat {
        self.key_seq().len()
    }

    pub open spec fn spec_contains_key(self, k: Seq<char>) -> bool {
        first_index(self.key_seq(), k) >= 0
    }

    /// The value stored under `k`, if any.
    pub open spec fn spec_get(self, k: Seq<char>) -> Option<V> {
        if first_index(self.key_seq(), k) >= 0 {
            Option::Some(self.val_seq()[first_index(self.key_seq(), k)])
        } else {
            Option::None
        }
    }

    /// There are as many values as keys.
    pub proof fn lemma_val_len(self)
        ensures
            self.val_seq().len() == self.key_seq().len(),
    {
    }

    pub fn new() -> (r: NameMap<V>)
        ensures
            r.key_seq() =~= Seq::<Seq<char>>::empty(),
            r.val_seq() =~= Seq::<V>::empty(),
            r.wf(),
    {
        NameMap { entries: Vec::new() }
    }

    pub fn len(&self) -> (r: usize)
        ensures
            r == self.spec_len(),
    {
        self.entries.len()
    }

    pub fn is_empty(&self) -> (r: bool)
        ensures
            r == (self.spec_len() == 0),
    {
        self.entries.is_empty()
    }

    /// The position of `k` among the entries, or `None` when it is absent.
    pub fn position_of(&self, k: &str) -> (r: Option<usize>)
        ensures
            match r {
                Option::Some(i) => {
                    &&& first_index(self.key_seq(), k@) == i as int
                    &&& i < self.spec_len()
                    &&& self.key_seq()[i as int] == k@
                },
                Option::None => first_index(self.key_seq(), k@) == -1,
            },
    {
        let n = self.entries.len();
        let mut i: usize = 0;
        while i < n
            invariant
                0 <= i <= n,
                n == self.key_seq().len(),
                forall|j: int| 0 <= j < i ==> self.key_seq()[j] != k@,
            decreases n - i,
        {
            if str_eq(self.entries[i].0.as_str(), k) {
                proof {
                    lemma_first_index_at(self.key_seq(), k@, i as int);
                }
                return Option::Some(i);
            }
            i += 1;
        }
        proof {
            lemma_first_index_absent(self.key_seq(), k@);
        }
        Option::None
    }

    pub fn contains_key(&self, k: &str) -> (r: bool)
        ensures
            r == self.spec_contains_key(k@),
    {
        self.position_of(k).is_some()
    }

    pub fn get(&self, k: &str) -> (r: Option<&V>)
        ensures
            match r {
                Option::Some(v) => self.spec_get(k@) == Option::Some(*v),
                Option::None => self.spec_get(k@) is None,
            },
    {
        match self.position_of(k) {
            Option::Some(i) => {
                proof {
                    assert(self.val_seq()[i as int] == self.entries@[i as int].1);
                }
                Option::Some(&self.entries[i].1)
            },
            Option::None => Option::None,
        }
    }

    /// Stores `v` under `k`: replaces the value of an existing key in place,
    /// or appends a new entry.
    pub fn insert(&mut self, k: String, v: V)
        ensures
            final(self).spec_get(k@) == Option::Some(v),
            old(self).spec_contains_key(k@) ==> {
                &&& final(self).key_seq() == old(self).key_seq()
                &&& final(self).spec_len() == old(self).spec_len()
                &&& final(self).val_seq() =~= old(self).val_seq().update(
                    first_index(old(self).key_seq(), k@),
                    v,
                )
                &&& final(self).val_seq()[first_index(old(self).key_seq(), k@)] == v
                &&& forall|m: int|
                    0 <= m < old(self).spec_len() && m != first_index(old(self).key_seq(), k@)
                        ==> #[trigger] final(self).val_seq()[m] == old(self).val_seq()[m]
            },
            !old(self).spec_contains_key(k@) ==> {
                &&& final(self).key_seq() =~= old(self).key_seq().push(k@)
                &&& final(self).spec_len() == old(self).spec_len() + 1
                &&& final(self).val_seq() =~= old(self).val_seq().push(v)
                &&& final(self).val_seq()[old(self).spec_len() as int] == v
                &&& forall|m: int|
                    0 <= m < old(self).spec_len() ==> #[trigger] final(self).val_seq()[m] == old(self).val_seq()[m]
            },
            forall|q: Seq<char>|
                q != k@ ==> #[trigger] final(self).spec_get(q) == old(self).spec_get(q),
            forall|q: Seq<char>|
                #[trigger] final(self).spec_contains_key(q) == (old(self).spec_contains_key(q)
                    || q == k@),
            old(self).wf() ==> final(self).wf(),
    {
        let ghost old_keys = self.key_seq();
        let ghost old_vals = self.val_seq();
        let pos = self.position_of(k.as_str());
        proof {
            lemma_first_index_props(old_keys, k@);
        }
        match pos {
            Option::Some(i) => {
                let ghost fi = first_index(old_keys, k@);
                self.entries.set(i, (k, v));
                proof {
                    assert(self.key_seq() =~= old_keys);
                    assert(self.val_seq() =~= old_vals.update(fi, v));
                    lemma_first_index_props(self.key_seq(), k@);
                    assert forall|q: Seq<char>| q != k@ implies #[trigger] self.spec_get(q) == old(self).spec_get(q) by {
                        assert(self.key_seq() == old_keys);
                        lemma_first_index_props(old_keys, q);
                    }
                }
            },
            Option::None => {
                self.entries.push((k, v));
                proof {
                    assert(self.key_seq() =~= old_keys.push(k@));
                    assert(self.val_seq() =~= old_vals.push(v));
                    lemma_first_index_push(old_keys, k@, k@);
                    assert forall|q: Seq<char>| q != k@ implies #[trigger] self.spec_get(q) == old(self).spec_get(q) by {
                        lemma_first_index_push(old_keys, q, k@);
                        lemma_first_index_props(old_keys, q);
                        if first_index(old_keys, q) >= 0 {
                            assert(self.val_seq()[first_index(old_keys, q)] == old_vals[first_index(
                                old_keys,
                                q,
                            )]);
                        }
                    }
                    assert forall|q: Seq<char>|
                        #[trigger] self.spec_contains_key(q) == (old(self).spec_contains_key(q)
                            || q == k@) by {
                        lemma_first_index_push(old_keys, q, k@);
                        lemma_first_index_props(old_keys, q);
                        lemma_first_index_props(self.key_seq(), q);
                    }
                    if old(self).wf() {
                        assert forall|i: int, j: int|
                            0 <= i < j < self.key_seq().len() implies self.key_seq()[i]
                            != self.key_seq()[j] by {
                            if j == old_keys.len() as int {
                                lemma_first_index_props(old_keys, k@);
                                assert(old_keys[i] != k@);
                            }
                        }
                    }
                }
            },
        }
    }

    /// The key at position `i`, in insertion order.
    pub fn key_at(&self, i: usize) -> (r: &String)
        requires
            i < self.spec_len(),
        ensures
            r@ == self.key_seq()[i as int],
    {
        &self.entries[i].0
    }

    /// The value at position `i`, in insertion order.
    pub fn val_at(&self, i: usize) -> (r: &V)
        requires
            i < self.spec_len(),
        ensures
            *r == self.val_seq()[i as int],
    {
        &self.entries[i].1
    }
}

/// A set of strings that remembers first-insertion order. Adding an element
/// already present leaves the set unchanged.
#[derive(Debug)]
pub struct NameSet {
    items: Vec<String>,
}

impl NameSet {
    /// The element views, in first-insertion order.
    pub closed spec fn seq_view(self) -> Seq<Seq<char>> {
        self.items@.map_values(|s: String| s@)
    }

    pub open spec fn spec_contains(self, k: Seq<char>) -> bool {
        first_index(self.seq_view(), k) >= 0
    }

    /// Elements are distinct.
    pub open spec fn wf(self) -> bool {
        forall|i: int, j: int|
            0 <= i < j < self.seq_view().len() ==> self.seq_view()[i] != self.seq_view()[j]
    }

    pub open spec fn spec_len(self) -> nat {
        self.seq_view().len()
    }

    pub fn new() -> (r: NameSet)
        ensures
            r.seq_view() =~= Seq::<Seq<char>>::empty(),
            r.wf(),
    {
        NameSet { items: Vec::new() }
    }

    pub fn len(&self) -> (r: usize)
        ensures
            r == self.spec_len(),
    {
        self.items.len()
    }

    pub fn is_empty(&self) -> (r: bool)
        ensures
            r == (self.spec_len() == 0),
    {
        self.items.is_empty()
    }

    pub fn contains(&self, k: &str) -> (r: bool)
        ensures
            r == self.spec_contains(k@),
    {
        let n = self.items.len();
        let mut i: usize = 0;
        while i < n
            invariant
                0 <= i <= n,
                n == self.seq_view().len(),
                forall|j: int| 0 <= j < i ==> self.seq_view()[j] != k@,
            decreases n - i,
        {
            if str_eq(self.items[i].as_str(), k) {
                proof {
                    lemma_first_index_at(self.seq_view(), k@, i as int);
                }
                return true;
            }
            i += 1;
        }
        proof {
            lemma_first_index_absent(self.seq_view(), k@);
        }
        false
    }

    /// Adds `k` unless an equal string is already present.
    pub fn add(&mut self, k: String)
        ensures
            old(self).spec_contains(k@) ==> final(self).seq_view() == old(self).seq_view(),
            !old(self).spec_contains(k@) ==> final(self).seq_view() =~= old(self).seq_view().push(
                k@,
            ),
            final(self).spec_contains(k@),
            forall|q: Seq<char>|
                #[trigger] final(self).spec_contains(q) == (old(self).spec_contains(q) || q == k@),
            old(self).wf() ==> final(self).wf(),
    {
        let ghost old_items = self.seq_view();
        if !self.contains(k.as_str()) {
            self.items.push(k);
            proof {
                assert(self.seq_view() =~= old_items.push(k@));
                lemma_first_index_push(old_items, k@, k@);
                assert forall|q: Seq<char>|
                    #[trigger] self.spec_contains(q) == (old(self).spec_contains(q) || q == k@) by {
                    lemma_first_index_push(old_items, q, k@);
                    lemma_first_index_props(old_items, q);
                    lemma_first_index_props(self.seq_view(), q);
                }
                if old(self).wf() {
                    assert forall|i: int, j: int|
                        0 <= i < j < self.seq_view().len() implies self.seq_view()[i]
                        != self.seq_view()[j] by {
                        if j == old_items.len() as int {
                            lemma_first_index_props(old_items, k@);
                            assert(old_items[i] != k@);
                        }
                    }
                }
            }
        } else {
            proof {
                lemma_first_index_props(old_items, k@);
            }
        }
    }

    /// The element at position `i`, in first-insertion order.
    pub fn at(&self, i: usize) -> (r: &String)
        requires
            i < self.spec_len(),
        ensures
            r@ == self.seq_view()[i as int],
    {
        &self.items[i]
    }

    /// A copy of the elements as a plain vector, in first-insertion order.
    pub fn to_vec(&self) -> (r: Vec<String>)
        ensures
            r@.map_values(|s: String| s@) =~= self.seq_view(),
    {
        let mut out: Vec<String> = Vec::new();
        let n = self.items.len();
        let mut i: usize = 0;
        while i < n
            invariant
                0 <= i <= n,
                n == self.seq_view().len(),
                out@.len() == i,
                forall|j: int| 0 <= j < i ==> out@[j]@ == self.seq_view()[j],
            decreases n - i,
        {
            out.push(copy_string(&self.items[i]));
            i += 1;
        }
        out
    }
}

} // verus!
