//! A map from strings to values, kept sorted by key in the order of `str`'s
//! `Ord` (code point by code point), as `BTreeMap<String, V>` iterates.
use vstd::prelude::*;
use crate::text::chars_of;

verus! {

/// Lexicographic order on character sequences: the order of `String`'s `Ord`.
pub open spec fn seq_lt(a: Seq<char>, b: Seq<char>) -> bool
    decreases a.len(),
{
    if b.len() == 0 {
        false
    } else if a.len() == 0 {
        true
    } else if a[0] != b[0] {
        a[0] < b[0]
    } else {
        seq_lt(a.drop_first(), b.drop_first())
    }
}

pub proof fn lemma_seq_lt_irreflexive(a: Seq<char>)
    ensures
        !seq_lt(a, a),
    decreases a.len(),
{
    if a.len() > 0 {
        lemma_seq_lt_irreflexive(a.drop_first());
    }
}

pub proof fn lemma_seq_lt_transitive(a: Seq<char>, b: Seq<char>, c: Seq<char>)
    requires
        seq_lt(a, b),
        seq_lt(b, c),
    ensures
        seq_lt(a, c),
    decreases a.len(),
{
    if a.len() > 0 && b.len() > 0 && c.len() > 0 && a[0] == b[0] && b[0] == c[0] {
        lemma_seq_lt_transitive(a.drop_first(), b.drop_first(), c.drop_first());
    }
}

pub proof fn lemma_seq_lt_total(a: Seq<char>, b: Seq<char>)
    ensures
        a == b || seq_lt(a, b) || seq_lt(b, a),
    decreases a.len(),
{
    if a.len() > 0 && b.len() > 0 && a[0] == b[0] {
        lemma_seq_lt_total(a.drop_first(), b.drop_first());
        if a.drop_first() == b.drop_first() {
            assert(a =~= seq![a[0]] + a.drop_first());
            assert(b =~= seq![b[0]] + b.drop_first());
        }
    } else if a.len() == 0 && b.len() == 0 {
        assert(a =~= b);
    }
}

pub proof fn lemma_seq_lt_asymmetric(a: Seq<char>, b: Seq<char>)
    requires
        seq_lt(a, b),
    ensures
        !seq_lt(b, a),
{
    if seq_lt(b, a) {
        lemma_seq_lt_transitive(a, b, a);
        lemma_seq_lt_irreflexive(a);
    }
}

/// Compares two strings in `str`'s order.
pub fn str_less(a: &str, b: &str) -> (r: bool)
    ensures
        r == seq_lt(a@, b@),
{
    let x = chars_of(a);
    let y = chars_of(b);
    let mut i: usize = 0;
    assert(x@.skip(0) =~= x@);
    assert(y@.skip(0) =~= y@);
    while i < x.len() && i < y.len()
        invariant
            0 <= i <= x@.len(),
            i <= y@.len(),
            x@ == a@,
            y@ == b@,
            seq_lt(x@, y@) == seq_lt(x@.skip(i as int), y@.skip(i as int)),
        decreases x@.len() - i,
    {
        if x[i] != y[i] {
            assert(x@.skip(i as int)[0] == x@[i as int]);
            assert(y@.skip(i as int)[0] == y@[i as int]);
            assert(seq_lt(x@.skip(i as int), y@.skip(i as int)) == (x@[i as int] < y@[i as int]));
            return x[i] < y[i];
        }
        assert(x@.skip(i as int).drop_first() =~= x@.skip(i + 1));
        assert(y@.skip(i as int).drop_first() =~= y@.skip(i + 1));
        i += 1;
    }
    i < y.len()
}

/// Strictly ascending keys.
pub open spec fn keys_sorted<V>(es: Seq<(Seq<char>, V)>) -> bool {
    forall|i: int, j: int| 0 <= i < j < es.len() ==> seq_lt(#[trigger] es[i].0, #[trigger] es[j].0)
}

/// The value stored under `k`, if any.
pub open spec fn lookup<V>(es: Seq<(Seq<char>, V)>, k: Seq<char>) -> Option<V>
    decreases es.len(),
{
    if es.len() == 0 {
        None
    } else if es[0].0 == k {
        Some(es[0].1)
    } else {
        lookup(es.drop_first(), k)
    }
}

/// The entries after storing `v` under `k`: the value is replaced where the key
/// is present, else the entry goes in before the first greater key.
pub open spec fn insert_entry<V>(es: Seq<(Seq<char>, V)>, k: Seq<char>, v: V) -> Seq<(Seq<char>, V)>
    decreases es.len(),
{
    if es.len() == 0 {
        seq![(k, v)]
    } else if es[0].0 == k {
        seq![(k, v)] + es.drop_first()
    } else if seq_lt(k, es[0].0) {
        seq![(k, v)] + es
    } else {
        seq![es[0]] + insert_entry(es.drop_first(), k, v)
    }
}

pub proof fn lemma_lookup_index<V>(es: Seq<(Seq<char>, V)>, k: Seq<char>)
    ensures
        lookup(es, k) is Some <==> exists|i: int| 0 <= i < es.len() && #[trigger] es[i].0 == k,
        keys_sorted(es) ==> forall|i: int| 0 <= i < es.len() && #[trigger] es[i].0 == k ==> lookup(es, k) == Some(es[i].1),
    decreases es.len(),
{
    if es.len() > 0 {
        lemma_lookup_index(es.drop_first(), k);
        if lookup(es, k) is Some && es[0].0 != k {
            let j = choose|j: int| 0 <= j < es.drop_first().len() && #[trigger] es.drop_first()[j].0 == k;
            assert(es[j + 1].0 == k);
        }
        if exists|i: int| 0 <= i < es.len() && #[trigger] es[i].0 == k {
            let i = choose|i: int| 0 <= i < es.len() && #[trigger] es[i].0 == k;
            if i > 0 && es[0].0 != k {
                assert(es.drop_first()[i - 1].0 == k);
            }
        }
        if keys_sorted(es) {
            assert forall|i: int| 0 <= i < es.len() && #[trigger] es[i].0 == k implies lookup(es, k) == Some(es[i].1) by {
                if i > 0 {
                    if es[0].0 == k {
                        lemma_seq_lt_irreflexive(k);
                        assert(seq_lt(es[0].0, es[i].0));
                    }
                    assert(keys_sorted(es.drop_first()));
                    assert(es.drop_first()[i - 1].0 == k);
                }
            }
        }
    }
}

pub proof fn lemma_insert_entry<V>(es: Seq<(Seq<char>, V)>, k: Seq<char>, v: V)
    requires
        keys_sorted(es),
    ensures
        keys_sorted(insert_entry(es, k, v)),
        lookup(insert_entry(es, k, v), k) == Some(v),
        forall|k2: Seq<char>| k2 != k ==> lookup(insert_entry(es, k, v), k2) == lookup(es, k2),
        insert_entry(es, k, v).len() == es.len() + (if lookup(es, k) is Some { 0int } else { 1int }),
        forall|i: int| 0 <= i < insert_entry(es, k, v).len() ==>
            (#[trigger] insert_entry(es, k, v)[i].0 == k || lookup(es, insert_entry(es, k, v)[i].0) is Some),
    decreases es.len(),
{
    let r = insert_entry(es, k, v);
    if es.len() == 0 {
        assert forall|k2: Seq<char>| k2 != k implies lookup(r, k2) == lookup(es, k2) by {
            assert(r[0] == (k, v));
            assert(r.drop_first() =~= es);
        }
    } else if es[0].0 == k {
        assert(r.drop_first() =~= es.drop_first());
        assert forall|i: int, j: int| 0 <= i < j < r.len() implies seq_lt(#[trigger] r[i].0, #[trigger] r[j].0) by {
            assert(r[j] == es[j]);
            if i > 0 {
                assert(r[i] == es[i]);
            }
        }
        assert forall|k2: Seq<char>| k2 != k implies lookup(r, k2) == lookup(es, k2) by {
            assert(r.drop_first() =~= es.drop_first());
        }
        assert forall|i: int| 0 <= i < r.len() implies (#[trigger] r[i].0 == k || lookup(es, r[i].0) is Some) by {
            if i > 0 {
                assert(r[i] == es[i]);
                lemma_lookup_index(es, r[i].0);
            }
        }
    } else if seq_lt(k, es[0].0) {
        assert(r.drop_first() =~= es);
        assert forall|k2: Seq<char>| k2 != k implies lookup(r, k2) == lookup(es, k2) by {
            assert(r[0] == (k, v));
            assert(r.drop_first() =~= es);
        }
        assert forall|i: int, j: int| 0 <= i < j < r.len() implies seq_lt(#[trigger] r[i].0, #[trigger] r[j].0) by {
            assert(r[j] == es[j - 1]);
            if i > 0 {
                assert(r[i] == es[i - 1]);
            } else if j - 1 > 0 {
                lemma_seq_lt_transitive(k, es[0].0, es[j - 1].0);
            }
        }
        lemma_lookup_index(es, k);
        assert(lookup(es, k) is None) by {
            if lookup(es, k) is Some {
                let i = choose|i: int| 0 <= i < es.len() && #[trigger] es[i].0 == k;
                if i > 0 {
                    lemma_seq_lt_transitive(k, es[0].0, es[i].0);
                }
                lemma_seq_lt_irreflexive(k);
            }
        }
        assert forall|i: int| 0 <= i < r.len() implies (#[trigger] r[i].0 == k || lookup(es, r[i].0) is Some) by {
            if i > 0 {
                assert(r[i] == es[i - 1]);
                lemma_lookup_index(es, r[i].0);
            }
        }
    } else {
        let rest = insert_entry(es.drop_first(), k, v);
        assert(keys_sorted(es.drop_first()));
        lemma_insert_entry(es.drop_first(), k, v);
        assert(r.drop_first() =~= rest);
        assert forall|k2: Seq<char>| k2 != k implies lookup(r, k2) == lookup(es, k2) by {
            assert(r.drop_first() =~= rest);
            assert(r[0] == es[0]);
            assert(lookup(rest, k2) == lookup(es.drop_first(), k2));
        }
        lemma_seq_lt_total(k, es[0].0);
        assert forall|i: int, j: int| 0 <= i < j < r.len() implies seq_lt(#[trigger] r[i].0, #[trigger] r[j].0) by {
            if i == 0 {
                assert(r[0] == es[0]);
                assert(rest[j - 1].0 == k || lookup(es.drop_first(), rest[j - 1].0) is Some);
                if rest[j - 1].0 != k {
                    lemma_lookup_index(es.drop_first(), rest[j - 1].0);
                    let m = choose|m: int| 0 <= m < es.drop_first().len() && #[trigger] es.drop_first()[m].0 == rest[j - 1].0;
                    assert(es[m + 1].0 == rest[j - 1].0);
                }
            } else {
                assert(r[i] == rest[i - 1]);
                assert(r[j] == rest[j - 1]);
            }
        }
        assert forall|i: int| 0 <= i < r.len() implies (#[trigger] r[i].0 == k || lookup(es, r[i].0) is Some) by {
            if i > 0 {
                assert(r[i] == rest[i - 1]);
                if rest[i - 1].0 != k {
                    lemma_lookup_index(es.drop_first(), rest[i - 1].0);
                    let m = choose|m: int| 0 <= m < es.drop_first().len() && #[trigger] es.drop_first()[m].0 == rest[i - 1].0;
                    assert(es[m + 1].0 == rest[i - 1].0);
                    lemma_lookup_index(es, rest[i - 1].0);
                }
            }
        }
    }
}

/// A string-keyed map whose entries are kept in ascending key order.
#[derive(Debug)]
pub struct StrMap<V: View> {
    keys: Vec<String>,
    vals: Vec<V>,
}

impl<V: View> StrMap<V> {
    /// The entries, keys and values taken by their views, in ascending key order.
    pub closed spec fn entries(&self) -> Seq<(Seq<char>, V::V)> {
        Seq::new(self.keys@.len(), |i: int| (self.keys@[i]@, self.vals@[i]@))
    }

    #[verifier::type_invariant]
    spec fn inv(self) -> bool {
        &&& self.keys@.len() == self.vals@.len()
        &&& keys_sorted(self.entries())
    }

    pub fn new() -> (m: Self)
        ensures
            m.entries() == Seq::<(Seq<char>, V::V)>::empty(),
    {
        let m = StrMap { keys: Vec::new(), vals: Vec::new() };
        assert(m.entries() =~= Seq::<(Seq<char>, V::V)>::empty());
        m
    }

    pub fn len(&self) -> (n: usize)
        ensures
            n == self.entries().len(),
            keys_sorted(self.entries()),
    {
        proof { use_type_invariant(self); }
        self.keys.len()
    }

    pub fn key_at(&self, i: usize) -> (k: &String)
        requires
            i < self.entries().len(),
        ensures
            k@ == self.entries()[i as int].0,
    {
        proof { use_type_invariant(self); }
        &self.keys[i]
    }

    pub fn value_at(&self, i: usize) -> (v: &V)
        requires
            i < self.entries().len(),
        ensures
            v@ == self.entries()[i as int].1,
    {
        proof { use_type_invariant(self); }
        &self.vals[i]
    }

    /// Position of the first key not below `key`, and whether it equals `key`.
    fn locate(&self, key: &str) -> (r: (usize, bool))
        ensures
            r.0 <= self.entries().len(),
            forall|i: int| 0 <= i < r.0 ==> seq_lt(#[trigger] self.entries()[i].0, key@),
            r.1 ==> r.0 < self.entries().len() && self.entries()[r.0 as int].0 == key@,
            !r.1 && r.0 < self.entries().len() ==> seq_lt(key@, self.entries()[r.0 as int].0),
    {
        proof { use_type_invariant(self); }
        let mut i: usize = 0;
        while i < self.keys.len()
            invariant
                0 <= i <= self.keys@.len(),
                self.keys@.len() == self.vals@.len(),
                forall|j: int| 0 <= j < i ==> seq_lt(#[trigger] self.entries()[j].0, key@),
            decreases self.keys@.len() - i,
        {
            if !str_less(self.keys[i].as_str(), key) {
                let eq = !str_less(key, self.keys[i].as_str());
                proof { lemma_seq_lt_total(key@, self.keys@[i as int]@); }
                return (i, eq);
            }
            i += 1;
        }
        (i, false)
    }

    /// The value stored under `key`.
    pub fn get(&self, key: &str) -> (r: Option<&V>)
        ensures
            match lookup(self.entries(), key@) {
                Some(v) => r matches Some(x) && x@ == v,
                None => r is None,
            },
    {
        proof {
            use_type_invariant(self);
            lemma_lookup_index(self.entries(), key@);
        }
        let (i, found) = self.locate(key);
        if found {
            Some(&self.vals[i])
        } else {
            proof {
                if lookup(self.entries(), key@) is Some {
                    let j = choose|j: int| 0 <= j < self.entries().len() && #[trigger] self.entries()[j].0 == key@;
                    if j < i {
                        lemma_seq_lt_irreflexive(key@);
                    } else if j > i {
                        lemma_seq_lt_transitive(key@, self.entries()[i as int].0, key@);
                        lemma_seq_lt_irreflexive(key@);
                    } else {
                        lemma_seq_lt_irreflexive(key@);
                    }
                }
            }
            None
        }
    }

    /// Stores `value` under `key`, replacing what was there.
    pub fn insert(&mut self, key: String, value: V)
        ensures
            final(self).entries() == insert_entry(old(self).entries(), key@, value@),
    {
        proof { use_type_invariant(&*self); }
        let ghost es = self.entries();
        let (i, found) = self.locate(key.as_str());
        let mut tmp = StrMap::new();
        std::mem::swap(self, &mut tmp);
        let StrMap { mut keys, mut vals } = tmp;
        let ghost k = key@;
        let ghost ok = keys@;
        let ghost ov = vals@;
        let ghost vv = value@;
        assert(es =~= Seq::new(ok.len(), |j: int| (ok[j]@, ov[j]@)));
        proof { lemma_insert_at(es, k, vv, i as int, found); }
        if found {
            keys.set(i, key);
            vals.set(i, value);
        } else {
            keys.insert(i, key);
            vals.insert(i, value);
        }
        proof {
            lemma_insert_entry(es, k, vv);
            let ne = Seq::new(keys@.len(), |j: int| (keys@[j]@, vals@[j]@));
            if found {
                assert(ne =~= es.update(i as int, (k, vv)));
            } else {
                assert(ne =~= es.insert(i as int, (k, vv)));
            }
            assert(keys_sorted(ne));
        }
        let m = StrMap { keys, vals };
        assert(m.entries() =~= insert_entry(es, k, vv));
        *self = m;
    }
}

impl<V: Clone + View> Clone for StrMap<V> {
    fn clone(&self) -> (r: Self)
        ensures
            r.entries().len() == self.entries().len(),
            forall|i: int| 0 <= i < self.entries().len() ==> #[trigger] r.entries()[i].0 == self.entries()[i].0,
    {
        proof { use_type_invariant(self); }
        let keys = self.keys.clone();
        let vals = self.vals.clone();
        proof {
            let ne = Seq::new(keys@.len(), |j: int| (keys@[j]@, vals@[j]@));
            assert forall|i: int, j: int| 0 <= i < j < ne.len() implies seq_lt(#[trigger] ne[i].0, #[trigger] ne[j].0) by {
                assert(self.entries()[i].0 == ne[i].0);
                assert(self.entries()[j].0 == ne[j].0);
            }
        }
        StrMap { keys, vals }
    }
}

impl StrMap<String> {
    /// A copy with the same entries.
    pub fn duplicate(&self) -> (r: Self)
        ensures
            r.entries() == self.entries(),
    {
        proof { use_type_invariant(self); }
        let mut keys: Vec<String> = Vec::new();
        let mut vals: Vec<String> = Vec::new();
        let mut i: usize = 0;
        while i < self.keys.len()
            invariant
                0 <= i <= self.keys@.len(),
                self.keys@.len() == self.vals@.len(),
                keys@.len() == i,
                vals@.len() == i,
                forall|j: int| 0 <= j < i ==> keys@[j] == self.keys@[j] && vals@[j] == self.vals@[j],
            decreases self.keys@.len() - i,
        {
            keys.push(self.keys[i].clone());
            vals.push(self.vals[i].clone());
            i += 1;
        }
        proof {
            let ne = Seq::new(keys@.len(), |j: int| (keys@[j]@, vals@[j]@));
            assert(ne =~= self.entries());
        }
        StrMap { keys, vals }
    }
}

proof fn lemma_insert_at<V>(es: Seq<(Seq<char>, V)>, k: Seq<char>, v: V, i: int, found: bool)
    requires
        keys_sorted(es),
        0 <= i <= es.len(),
        forall|j: int| 0 <= j < i ==> seq_lt(#[trigger] es[j].0, k),
        found ==> i < es.len() && es[i].0 == k,
        !found && i < es.len() ==> seq_lt(k, es[i].0),
    ensures
        found ==> insert_entry(es, k, v) == es.update(i, (k, v)),
        !found ==> insert_entry(es, k, v) == es.insert(i, (k, v)),
    decreases es.len(),
{
    if i == 0 {
        if es.len() > 0 {
            if found {
                assert(es.update(0, (k, v)) =~= seq![(k, v)] + es.drop_first());
            } else {
                lemma_seq_lt_irreflexive(k);
                assert(es.insert(0, (k, v)) =~= seq![(k, v)] + es);
            }
        } else {
            assert(es.insert(0, (k, v)) =~= seq![(k, v)]);
        }
    } else {
        assert(seq_lt(es[0].0, k));
        lemma_seq_lt_asymmetric(es[0].0, k);
        lemma_seq_lt_irreflexive(k);
        let t = es.drop_first();
        assert(keys_sorted(t));
        assert forall|j: int| 0 <= j < i - 1 implies seq_lt(#[trigger] t[j].0, k) by {
            assert(t[j] == es[j + 1]);
        }
        lemma_insert_at(t, k, v, i - 1, found);
        if found {
            assert(es.update(i, (k, v)) =~= seq![es[0]] + t.update(i - 1, (k, v)));
        } else {
            assert(es.insert(i, (k, v)) =~= seq![es[0]] + t.insert(i - 1, (k, v)));
        }
    }
}

} // verus!
