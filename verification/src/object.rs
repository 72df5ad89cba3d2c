//! Object data: an ordered mapping from byte-string keys to values, used
//! both for objects on the heap and for lexical scopes. Insertion order is
//! kept; writing an existing key updates it in place.
use vstd::prelude::*;
use crate::value::{Value, ValueV};

verus! {

/// The entries of an object, in insertion order.
#[derive(Debug)]
pub struct ObjectData {
    pub entries: Vec<(Vec<u8>, Value)>,
}

impl View for ObjectData {
    type V = Seq<(Seq<u8>, ValueV)>;

    open spec fn view(&self) -> Seq<(Seq<u8>, ValueV)> {
        self.entries@.map(|i: int, e: (Vec<u8>, Value)| (e.0@, e.1@))
    }
}

/// The value bound to `k` at or after position `i`, scanning forward.
pub open spec fn lookup_from(es: Seq<(Seq<u8>, ValueV)>, k: Seq<u8>, i: int) -> Option<ValueV>
    decreases es.len() - i,
{
    if i < 0 || i >= es.len() {
        None
    } else if es[i].0 == k {
        Some(es[i].1)
    } else {
        lookup_from(es, k, i + 1)
    }
}

/// The value bound to `k`, if any.
pub open spec fn lookup_entries(es: Seq<(Seq<u8>, ValueV)>, k: Seq<u8>) -> Option<ValueV> {
    lookup_from(es, k, 0)
}

/// The entries after binding `k` to `v`: the first binding of `k` at or
/// after `i` is replaced, else the pair is appended.
pub open spec fn set_from(
    es: Seq<(Seq<u8>, ValueV)>,
    k: Seq<u8>,
    v: ValueV,
    i: int,
) -> Seq<(Seq<u8>, ValueV)>
    decreases es.len() - i,
{
    if i < 0 || i >= es.len() {
        es.push((k, v))
    } else if es[i].0 == k {
        es.update(i, (k, v))
    } else {
        set_from(es, k, v, i + 1)
    }
}

/// The entries after binding `k` to `v`.
pub open spec fn set_entries(
    es: Seq<(Seq<u8>, ValueV)>,
    k: Seq<u8>,
    v: ValueV,
) -> Seq<(Seq<u8>, ValueV)> {
    set_from(es, k, v, 0)
}

/// Every entry of `set_from(es, k, v, i)` is `(k, v)` or an entry of `es`.
pub proof fn lemma_set_from_membership(es: Seq<(Seq<u8>, ValueV)>, k: Seq<u8>, v: ValueV, i: int)
    ensures
        forall|j: int|
            0 <= j < set_from(es, k, v, i).len() ==> (#[trigger] set_from(es, k, v, i)[j] == (k, v)
                || es.contains(set_from(es, k, v, i)[j])),
    decreases es.len() - i,
{
    if i < 0 || i >= es.len() {
        assert forall|j: int| 0 <= j < set_from(es, k, v, i).len() implies (#[trigger] set_from(
            es,
            k,
            v,
            i,
        )[j] == (k, v) || es.contains(set_from(es, k, v, i)[j])) by {
            if j < es.len() {
                assert(es[j] == set_from(es, k, v, i)[j]);
            }
        }
    } else if es[i].0 == k {
        assert forall|j: int| 0 <= j < set_from(es, k, v, i).len() implies (#[trigger] set_from(
            es,
            k,
            v,
            i,
        )[j] == (k, v) || es.contains(set_from(es, k, v, i)[j])) by {
            if j != i {
                assert(es[j] == set_from(es, k, v, i)[j]);
            }
        }
    } else {
        lemma_set_from_membership(es, k, v, i + 1);
        assert(set_from(es, k, v, i) == set_from(es, k, v, i + 1));
        assert forall|j: int| 0 <= j < set_from(es, k, v, i).len() implies (#[trigger] set_from(
            es,
            k,
            v,
            i,
        )[j] == (k, v) || es.contains(set_from(es, k, v, i)[j])) by {
            assert(set_from(es, k, v, i)[j] == set_from(es, k, v, i + 1)[j]);
        }
    }
}

/// Whatever a lookup finds is an entry's value.
pub proof fn lemma_lookup_from_membership(es: Seq<(Seq<u8>, ValueV)>, k: Seq<u8>, i: int)
    ensures
        lookup_from(es, k, i) matches Some(v) ==> exists|j: int|
            0 <= j < es.len() && #[trigger] es[j].1 == v,
    decreases es.len() - i,
{
    if i < 0 || i >= es.len() {
    } else if es[i].0 == k {
        assert(es[i].1 == es[i].1);
    } else {
        lemma_lookup_from_membership(es, k, i + 1);
    }
}

impl ObjectData {
    /// A fresh object with no entries.
    pub fn new() -> (o: ObjectData)
        ensures
            o@ =~= Seq::<(Seq<u8>, ValueV)>::empty(),
    {
        ObjectData { entries: Vec::new() }
    }

    /// Read the local binding of `k`, if any.
    pub fn get(&self, k: &Vec<u8>) -> (r: Option<Value>)
        ensures
            match r {
                Some(v) => lookup_entries(self@, k@) == Some(v@),
                None => lookup_entries(self@, k@) is None,
            },
    {
        let mut i: usize = 0;
        while i < self.entries.len()
            invariant
                i <= self.entries.len(),
                lookup_from(self@, k@, 0) == lookup_from(self@, k@, i as int),
            decreases self.entries.len() - i,
        {
            proof {
                assert(self@[i as int] == (self.entries@[i as int].0@, self.entries@[i as int].1@));
            }
            if crate::value::bytes_eq(&self.entries[i].0, k) {
                let v = self.entries[i].1.duplicate();
                return Some(v);
            }
            i = i + 1;
        }
        None
    }

    /// Bind `k` to `v` in the local entries.
    pub fn set(&mut self, k: Vec<u8>, v: Value)
        ensures
            final(self)@ == set_entries(old(self)@, k@, v@),
    {
        let ghost k0 = k@;
        let ghost v0 = v@;
        let mut i: usize = 0;
        while i < self.entries.len()
            invariant
                i <= self.entries.len(),
                self@ == old(self)@,
                k@ == k0,
                v@ == v0,
                set_from(self@, k0, v0, 0) == set_from(self@, k0, v0, i as int),
            decreases self.entries.len() - i,
        {
            proof {
                assert(self@[i as int] == (self.entries@[i as int].0@, self.entries@[i as int].1@));
            }
            if crate::value::bytes_eq(&self.entries[i].0, &k) {
                self.entries.set(i, (k, v));
                proof {
                    assert(self@ =~= set_from(old(self)@, k0, v0, i as int));
                }
                return;
            }
            i = i + 1;
        }
        self.entries.push((k, v));
        proof {
            assert(self@ =~= old(self)@.push((k0, v0)));
        }
    }
}

/// After binding `k`, `k` reads as `v`.
pub proof fn lemma_lookup_after_set(es: Seq<(Seq<u8>, ValueV)>, k: Seq<u8>, v: ValueV)
    ensures
        lookup_entries(set_entries(es, k, v), k) == Some(v),
{
    lemma_lookup_after_set_from(es, k, v, 0);
}

proof fn lemma_lookup_after_set_from(es: Seq<(Seq<u8>, ValueV)>, k: Seq<u8>, v: ValueV, i: int)
    requires
        0 <= i,
        forall|j: int| 0 <= j < i && j < es.len() ==> (#[trigger] es[j]).0 != k,
    ensures
        lookup_from(set_from(es, k, v, i), k, 0) == Some(v),
    decreases es.len() - i,
{
    if i >= es.len() {
        lemma_lookup_push_finds(es, k, v, 0);
    } else if es[i].0 == k {
        lemma_lookup_update_finds(es, k, v, i, 0);
    } else {
        lemma_lookup_after_set_from(es, k, v, i + 1);
    }
}

proof fn lemma_lookup_push_finds(es: Seq<(Seq<u8>, ValueV)>, k: Seq<u8>, v: ValueV, j: int)
    requires
        0 <= j <= es.len(),
        forall|l: int| 0 <= l < es.len() ==> (#[trigger] es[l]).0 != k,
    ensures
        lookup_from(es.push((k, v)), k, j) == Some(v),
    decreases es.len() - j,
{
    if j < es.len() {
        lemma_lookup_push_finds(es, k, v, j + 1);
    }
}

proof fn lemma_lookup_update_finds(
    es: Seq<(Seq<u8>, ValueV)>,
    k: Seq<u8>,
    v: ValueV,
    i: int,
    j: int,
)
    requires
        0 <= j <= i < es.len(),
        forall|l: int| 0 <= l < i ==> (#[trigger] es[l]).0 != k,
    ensures
        lookup_from(es.update(i, (k, v)), k, j) == Some(v),
    decreases i - j,
{
    if j < i {
        lemma_lookup_update_finds(es, k, v, i, j + 1);
    }
}

/// Binding `k2` leaves the binding of a different `k1` as it was.
pub proof fn lemma_lookup_set_other(
    es: Seq<(Seq<u8>, ValueV)>,
    k1: Seq<u8>,
    k2: Seq<u8>,
    v: ValueV,
)
    requires
        k1 != k2,
    ensures
        lookup_entries(set_entries(es, k2, v), k1) == lookup_entries(es, k1),
{
    lemma_lookup_set_other_from(es, k1, k2, v, 0);
}

proof fn lemma_lookup_set_other_from(
    es: Seq<(Seq<u8>, ValueV)>,
    k1: Seq<u8>,
    k2: Seq<u8>,
    v: ValueV,
    i: int,
)
    requires
        k1 != k2,
        0 <= i,
    ensures
        lookup_from(set_from(es, k2, v, i), k1, 0) == lookup_from(es, k1, 0),
    decreases es.len() - i,
{
    if i >= es.len() {
        lemma_lookup_push_other(es, k1, k2, v, 0);
    } else if es[i].0 == k2 {
        lemma_lookup_update_other(es, k1, k2, v, i, 0);
    } else {
        lemma_lookup_set_other_from(es, k1, k2, v, i + 1);
    }
}

proof fn lemma_lookup_push_other(
    es: Seq<(Seq<u8>, ValueV)>,
    k1: Seq<u8>,
    k2: Seq<u8>,
    v: ValueV,
    j: int,
)
    requires
        k1 != k2,
        0 <= j <= es.len(),
    ensures
        lookup_from(es.push((k2, v)), k1, j) == lookup_from(es, k1, j),
    decreases es.len() - j,
{
    if j < es.len() {
        lemma_lookup_push_other(es, k1, k2, v, j + 1);
    } else {
        assert(lookup_from(es.push((k2, v)), k1, j + 1) is None);
    }
}

proof fn lemma_lookup_update_other(
    es: Seq<(Seq<u8>, ValueV)>,
    k1: Seq<u8>,
    k2: Seq<u8>,
    v: ValueV,
    i: int,
    j: int,
)
    requires
        k1 != k2,
        0 <= j <= es.len(),
        0 <= i < es.len(),
        es[i].0 == k2,
    ensures
        lookup_from(es.update(i, (k2, v)), k1, j) == lookup_from(es, k1, j),
    decreases es.len() - j,
{
    if j < es.len() {
        lemma_lookup_update_other(es, k1, k2, v, i, j + 1);
    }
}

} // verus!
