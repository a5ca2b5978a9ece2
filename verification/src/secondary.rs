use vstd::prelude::*;
use crate::doc::{Doc, FieldValue, FieldValueV, doc_has_field, value_eq};

verus! {

/// One indexed triple: a field name, the value the field has, and the key of
/// the document that has it.
pub type EntryV = (Seq<char>, FieldValueV, Seq<char>);

/// The models of a vector of owned keys, in order.
pub open spec fn keys_view(s: Seq<String>) -> Seq<Seq<char>> {
    Seq::new(s.len(), |i: int| s[i]@)
}

/// The keys of the entries of `s` whose field is `f` and whose value is `v`,
/// in entry order.
pub open spec fn bucket_of(s: Seq<EntryV>, f: Seq<char>, v: FieldValueV) -> Seq<Seq<char>>
    decreases s.len(),
{
    if s.len() == 0 {
        Seq::empty()
    } else {
        let rest = bucket_of(s.drop_last(), f, v);
        if s.last().0 == f && s.last().1 == v {
            rest.push(s.last().2)
        } else {
            rest
        }
    }
}

/// A key stands in a bucket exactly when the entries hold its triple.
pub proof fn lemma_bucket_of_membership(s: Seq<EntryV>, f: Seq<char>, v: FieldValueV, k: Seq<char>)
    ensures
        bucket_of(s, f, v).contains(k) <==> exists|i: int|
            0 <= i < s.len() && s[i] == (f, v, k),
    decreases s.len(),
{
    if s.len() > 0 {
        lemma_bucket_of_membership(s.drop_last(), f, v, k);
        let rest = bucket_of(s.drop_last(), f, v);
        if exists|i: int| 0 <= i < s.drop_last().len() && s.drop_last()[i] == (f, v, k) {
            let i = choose|i: int| 0 <= i < s.drop_last().len() && s.drop_last()[i] == (f, v, k);
            assert(s[i] == (f, v, k));
        }
        if s.last().0 == f && s.last().1 == v && s.last().2 == k {
            assert(s[s.len() - 1] == (f, v, k));
            assert(bucket_of(s, f, v).last() == k);
            assert(bucket_of(s, f, v).contains(k));
        }
        if bucket_of(s, f, v).contains(k) {
            let j = choose|j: int| 0 <= j < bucket_of(s, f, v).len() && bucket_of(s, f, v)[j] == k;
            if s.last().0 == f && s.last().1 == v {
                if j < rest.len() {
                    assert(rest.contains(k));
                } else {
                    assert(s.last().2 == k);
                    assert(s[s.len() - 1] == (f, v, k));
                }
            } else {
                assert(rest.contains(k));
            }
        }
        if exists|i: int| 0 <= i < s.len() && s[i] == (f, v, k) {
            let i = choose|i: int| 0 <= i < s.len() && s[i] == (f, v, k);
            if i < s.len() - 1 {
                assert(s.drop_last()[i] == (f, v, k));
                assert(rest.contains(k));
                let j = choose|j: int| 0 <= j < rest.len() && rest[j] == k;
                assert(bucket_of(s, f, v)[j] == k);
            }
        }
    }
}

/// When the entries are pairwise distinct, the keys of a bucket are pairwise
/// distinct.
pub proof fn lemma_bucket_of_distinct(s: Seq<EntryV>, f: Seq<char>, v: FieldValueV)
    requires
        forall|i: int, j: int| 0 <= i < j < s.len() ==> s[i] != s[j],
    ensures
        forall|i: int, j: int|
            0 <= i < j < bucket_of(s, f, v).len() ==> bucket_of(s, f, v)[i] != bucket_of(
                s,
                f,
                v,
            )[j],
    decreases s.len(),
{
    if s.len() > 0 {
        let rest = bucket_of(s.drop_last(), f, v);
        assert(forall|i: int, j: int|
            0 <= i < j < s.drop_last().len() ==> s.drop_last()[i] != s.drop_last()[j]);
        lemma_bucket_of_distinct(s.drop_last(), f, v);
        if s.last().0 == f && s.last().1 == v {
            let k = s.last().2;
            if rest.contains(k) {
                lemma_bucket_of_membership(s.drop_last(), f, v, k);
                let i = choose|i: int|
                    0 <= i < s.drop_last().len() && s.drop_last()[i] == (f, v, k);
                assert(s[i] == s[s.len() - 1]);
                assert(false);
            }
            assert forall|i: int, j: int|
                0 <= i < j < bucket_of(s, f, v).len() implies bucket_of(s, f, v)[i] != bucket_of(
                s,
                f,
                v,
            )[j] by {
                if j < rest.len() {
                } else {
                    assert(bucket_of(s, f, v)[j] == k);
                    assert(bucket_of(s, f, v)[i] == rest[i]);
                    if rest[i] == k {
                        assert(rest.contains(k));
                    }
                }
            }
        }
    }
}

/// The secondary index set: for every document field currently reachable
/// through the primary index, the triple of its name, its value, and the
/// document's key.
pub struct SecondaryIndexSet {
    entries: Vec<(String, FieldValue, String)>,
}

impl SecondaryIndexSet {
    /// The models of the entries, in order.
    pub closed spec fn entries_view(self) -> Seq<EntryV> {
        Seq::new(
            self.entries@.len(),
            |i: int| (self.entries@[i].0@, self.entries@[i].1@, self.entries@[i].2@),
        )
    }

    /// Whether key `k` stands in the bucket of field `f` with value `v`.
    pub closed spec fn contains(self, f: Seq<char>, v: FieldValueV, k: Seq<char>) -> bool {
        exists|i: int|
            0 <= i < self.entries_view().len() && #[trigger] self.entries_view()[i] == (f, v, k)
    }

    /// The entries are pairwise distinct.
    pub closed spec fn wf(self) -> bool {
        forall|i: int, j: int|
            0 <= i < j < self.entries_view().len() ==> (#[trigger] self.entries_view()[i])
                != (#[trigger] self.entries_view()[j])
    }

    /// The keys of the bucket of field `f` with value `v`, in entry order.
    pub closed spec fn bucket_seq(self, f: Seq<char>, v: FieldValueV) -> Seq<Seq<char>> {
        bucket_of(self.entries_view(), f, v)
    }

    /// A bucket holds exactly the keys of its triples, each once.
    pub proof fn lemma_bucket_seq_props(self, f: Seq<char>, v: FieldValueV)
        requires
            self.wf(),
        ensures
            forall|k: Seq<char>| #[trigger]
                self.bucket_seq(f, v).contains(k) <==> self.contains(f, v, k),
            forall|i: int, j: int|
                0 <= i < j < self.bucket_seq(f, v).len() ==> self.bucket_seq(f, v)[i]
                    != self.bucket_seq(f, v)[j],
    {
        assert forall|k: Seq<char>| #[trigger]
            self.bucket_seq(f, v).contains(k) <==> self.contains(f, v, k) by {
            lemma_bucket_of_membership(self.entries_view(), f, v, k);
        }
        lemma_bucket_of_distinct(self.entries_view(), f, v);
    }

    /// The empty index.
    pub fn new() -> (s: SecondaryIndexSet)
        ensures
            s.wf(),
            forall|f: Seq<char>, v: FieldValueV, k: Seq<char>| !s.contains(f, v, k),
    {
        let s = SecondaryIndexSet { entries: Vec::new() };
        proof {
            assert(s.entries_view() =~= Seq::<EntryV>::empty());
        }
        s
    }

    /// The keys in the bucket of field `field` with value `value`, in entry
    /// order.
    pub fn lookup(&self, field: &str, value: &FieldValue) -> (r: Vec<String>)
        ensures
            keys_view(r@) == self.bucket_seq(field@, value@),
    {
        let f_owned = field.to_owned();
        let n = self.entries.len();
        let mut r: Vec<String> = Vec::new();
        let mut i: usize = 0;
        proof {
            assert(self.entries_view().subrange(0, 0) =~= Seq::<EntryV>::empty());
            assert(Seq::new(r@.len(), |j: int| r@[j]@) =~= Seq::<Seq<char>>::empty());
        }
        while i < n
            invariant
                f_owned@ == field@,
                n == self.entries@.len(),
                i <= n,
                Seq::new(r@.len(), |j: int| r@[j]@) == bucket_of(
                    self.entries_view().subrange(0, i as int),
                    field@,
                    value@,
                ),
            decreases n - i,
        {
            let e = &self.entries[i];
            let ghost prev = r@;
            if e.0 == f_owned && value_eq(&e.1, value) {
                r.push(e.2.clone());
            }
            i += 1;
            proof {
                let sub = self.entries_view().subrange(0, i as int);
                assert(sub.drop_last() =~= self.entries_view().subrange(0, i as int - 1));
                assert(sub.last() == self.entries_view()[i as int - 1]);
                if self.entries_view()[i as int - 1].0 == field@ && self.entries_view()[
                    i as int - 1
                ].1 == value@ {
                    assert(Seq::new(r@.len(), |j: int| r@[j]@) =~= Seq::new(
                        prev.len(),
                        |j: int| prev[j]@,
                    ).push(self.entries_view()[i as int - 1].2));
                } else {
                    assert(Seq::new(r@.len(), |j: int| r@[j]@) =~= Seq::new(
                        prev.len(),
                        |j: int| prev[j]@,
                    ));
                }
            }
        }
        proof {
            assert(self.entries_view().subrange(0, n as int) =~= self.entries_view());
            assert(keys_view(r@) =~= Seq::new(r@.len(), |i: int| r@[i]@));
        }
        r
    }

    /// Adds the triple `(field, value, key)` to the index if it is not there.
    pub fn insert(&mut self, field: &str, value: &FieldValue, key: &str)
        requires
            old(self).wf(),
        ensures
            final(self).wf(),
            forall|f2: Seq<char>, v2: FieldValueV, k2: Seq<char>|
                final(self).contains(f2, v2, k2) <==> old(self).contains(f2, v2, k2) || (f2 == field@
                    && v2 == value@ && k2 == key@),
    {
        let f_owned = field.to_owned();
        let k_owned = key.to_owned();
        let n = self.entries.len();
        let mut i: usize = 0;
        while i < n
            invariant
                f_owned@ == field@,
                k_owned@ == key@,
                n == self.entries@.len(),
                i <= n,
                *self == *old(self),
                old(self).wf(),
                forall|j: int|
                    0 <= j < i ==> (#[trigger] self.entries_view()[j]) != (field@, value@, key@),
            decreases n - i,
        {
            let e = &self.entries[i];
            if e.0 == f_owned && value_eq(&e.1, value) && e.2 == k_owned {
                proof {
                    assert(self.entries_view()[i as int] == (field@, value@, key@));
                    assert(old(self).contains(field@, value@, key@));
                }
                return ;
            }
            i += 1;
        }
        let entry = (f_owned, value.clone(), k_owned);
        let ghost gentry = entry;
        proof {
            assert(gentry.0@ == field@ && gentry.1@ == value@ && gentry.2@ == key@);
        }
        self.entries.push(entry);
        proof {
            assert(self.entries_view() =~= old(self).entries_view().push(
                (field@, value@, key@),
            ));
            let ev = self.entries_view();
            assert forall|f2: Seq<char>, v2: FieldValueV, k2: Seq<char>|
                self.contains(f2, v2, k2) <==> old(self).contains(f2, v2, k2) || (f2 == field@ && v2
                    == value@ && k2 == key@) by {
                if old(self).contains(f2, v2, k2) {
                    let j = choose|j: int|
                        0 <= j < old(self).entries_view().len() && old(self).entries_view()[j] == (
                            f2,
                            v2,
                            k2,
                        );
                    assert(ev[j] == (f2, v2, k2));
                }
                if f2 == field@ && v2 == value@ && k2 == key@ {
                    assert(ev[ev.len() - 1] == (f2, v2, k2));
                }
                if self.contains(f2, v2, k2) {
                    let j = choose|j: int| 0 <= j < ev.len() && ev[j] == (f2, v2, k2);
                    if j < ev.len() - 1 {
                        assert(old(self).entries_view()[j] == (f2, v2, k2));
                    }
                }
            }
        }
    }

    /// Removes the triple `(field, value, key)` from the index if it is there.
    pub fn remove(&mut self, field: &str, value: &FieldValue, key: &str)
        requires
            old(self).wf(),
        ensures
            final(self).wf(),
            forall|f2: Seq<char>, v2: FieldValueV, k2: Seq<char>|
                final(self).contains(f2, v2, k2) <==> old(self).contains(f2, v2, k2) && !(f2
                    == field@ && v2 == value@ && k2 == key@),
    {
        let f_owned = field.to_owned();
        let k_owned = key.to_owned();
        let n = self.entries.len();
        let mut i: usize = 0;
        while i < n
            invariant
                f_owned@ == field@,
                k_owned@ == key@,
                n == self.entries@.len(),
                i <= n,
                *self == *old(self),
                old(self).wf(),
                forall|j: int|
                    0 <= j < i ==> (#[trigger] self.entries_view()[j]) != (field@, value@, key@),
            decreases n - i,
        {
            let e = &self.entries[i];
            if e.0 == f_owned && value_eq(&e.1, value) && e.2 == k_owned {
                proof {
                    assert(self.entries_view()[i as int] == (field@, value@, key@));
                }
                self.entries.remove(i);
                proof {
                    assert(self.entries_view() =~= old(self).entries_view().remove(i as int));
                    let ev = self.entries_view();
                    let old_ev = old(self).entries_view();
                    assert forall|j: int| 0 <= j < ev.len() implies (#[trigger] ev[j]) == (
                    if j < i {
                        old_ev[j]
                    } else {
                        old_ev[j + 1]
                    }) by {
                        assert(ev[j] == old_ev.remove(i as int)[j]);
                    }
                    assert forall|a: int, b: int| 0 <= a < b < ev.len() implies ev[a] != ev[b] by {
                        let a2: int = if a < i {
                            a
                        } else {
                            a + 1
                        };
                        let b2: int = if b < i {
                            b
                        } else {
                            b + 1
                        };
                        assert(ev[a] == old_ev[a2] && ev[b] == old_ev[b2]);
                        assert(old_ev[a2] != old_ev[b2]);
                    }
                    assert(self.wf());
                    assert forall|f2: Seq<char>, v2: FieldValueV, k2: Seq<char>|
                        self.contains(f2, v2, k2) <==> old(self).contains(f2, v2, k2) && !(f2
                            == field@ && v2 == value@ && k2 == key@) by {
                        if self.contains(f2, v2, k2) {
                            let j = choose|j: int| 0 <= j < ev.len() && ev[j] == (f2, v2, k2);
                            if j < i {
                                assert(old_ev[j] == (f2, v2, k2));
                            } else {
                                assert(old_ev[j + 1] == (f2, v2, k2));
                            }
                        }
                        if old(self).contains(f2, v2, k2) && !(f2 == field@ && v2 == value@ && k2
                            == key@) {
                            let j = choose|j: int|
                                0 <= j < old_ev.len() && old_ev[j] == (f2, v2, k2);
                            assert(j != i);
                            if j < i {
                                assert(ev[j] == (f2, v2, k2));
                            } else {
                                assert(ev[j - 1] == (f2, v2, k2));
                            }
                        }
                    }
                }
                return ;
            }
            i += 1;
        }
        proof {
            assert forall|f2: Seq<char>, v2: FieldValueV, k2: Seq<char>|
                self.contains(f2, v2, k2) <==> old(self).contains(f2, v2, k2) && !(f2 == field@
                    && v2 == value@ && k2 == key@) by {
                if self.contains(f2, v2, k2) && f2 == field@ && v2 == value@ && k2 == key@ {
                    let j = choose|j: int|
                        0 <= j < self.entries_view().len() && self.entries_view()[j] == (
                            f2,
                            v2,
                            k2,
                        );
                    assert(self.entries_view()[j] != (field@, value@, key@));
                }
            }
        }
    }

    /// Adds every field of `d` to the index for key `key`.
    pub fn index_document(&mut self, key: &str, d: &Doc)
        requires
            old(self).wf(),
        ensures
            final(self).wf(),
            forall|f2: Seq<char>, v2: FieldValueV, k2: Seq<char>|
                final(self).contains(f2, v2, k2) <==> old(self).contains(f2, v2, k2) || (k2 == key@
                    && doc_has_field(d@, f2, v2)),
    {
        let n = d.field_count();
        let mut i: usize = 0;
        while i < n
            invariant
                n == d@.len(),
                i <= n,
                self.wf(),
                forall|f2: Seq<char>, v2: FieldValueV, k2: Seq<char>|
                    self.contains(f2, v2, k2) <==> old(self).contains(f2, v2, k2) || (k2 == key@
                        && exists|j: int| 0 <= j < i && #[trigger] d@[j] == (f2, v2)),
            decreases n - i,
        {
            let ghost mid = *self;
            let (f, v) = d.field_at(i);
            self.insert(f.as_str(), v, key);
            i += 1;
            proof {
                assert forall|f2: Seq<char>, v2: FieldValueV, k2: Seq<char>|
                    self.contains(f2, v2, k2) <==> old(self).contains(f2, v2, k2) || (k2 == key@
                        && exists|j: int| 0 <= j < i && #[trigger] d@[j] == (f2, v2)) by {
                    if self.contains(f2, v2, k2) {
                        if !(mid.contains(f2, v2, k2)) {
                            assert(d@[i as int - 1] == (f2, v2));
                        }
                    }
                    if k2 == key@ && exists|j: int| 0 <= j < i && #[trigger] d@[j] == (f2, v2) {
                        let j = choose|j: int| 0 <= j < i && #[trigger] d@[j] == (f2, v2);
                        if j == i - 1 {
                            assert(self.contains(f2, v2, k2));
                        }
                    }
                }
            }
        }
    }

    /// Removes every field of `d` from the index for key `key`.
    pub fn unindex_document(&mut self, key: &str, d: &Doc)
        requires
            old(self).wf(),
        ensures
            final(self).wf(),
            forall|f2: Seq<char>, v2: FieldValueV, k2: Seq<char>|
                final(self).contains(f2, v2, k2) <==> old(self).contains(f2, v2, k2) && !(k2 == key@
                    && doc_has_field(d@, f2, v2)),
    {
        let n = d.field_count();
        let mut i: usize = 0;
        while i < n
            invariant
                n == d@.len(),
                i <= n,
                self.wf(),
                forall|f2: Seq<char>, v2: FieldValueV, k2: Seq<char>|
                    self.contains(f2, v2, k2) <==> old(self).contains(f2, v2, k2) && !(k2 == key@
                        && exists|j: int| 0 <= j < i && #[trigger] d@[j] == (f2, v2)),
            decreases n - i,
        {
            let ghost mid = *self;
            let (f, v) = d.field_at(i);
            self.remove(f.as_str(), v, key);
            i += 1;
            proof {
                assert forall|f2: Seq<char>, v2: FieldValueV, k2: Seq<char>|
                    self.contains(f2, v2, k2) <==> old(self).contains(f2, v2, k2) && !(k2 == key@
                        && exists|j: int| 0 <= j < i && #[trigger] d@[j] == (f2, v2)) by {
                    if self.contains(f2, v2, k2) {
                        assert(mid.contains(f2, v2, k2));
                        if k2 == key@ && exists|j: int| 0 <= j < i && #[trigger] d@[j] == (
                            f2,
                            v2,
                        ) {
                            let j = choose|j: int| 0 <= j < i && #[trigger] d@[j] == (f2, v2);
                            if j == i - 1 {
                                assert(false);
                            }
                        }
                    }
                    if old(self).contains(f2, v2, k2) && !(k2 == key@ && exists|j: int|
                        0 <= j < i && #[trigger] d@[j] == (f2, v2)) {
                        assert(mid.contains(f2, v2, k2));
                        assert(!(f2 == d@[i as int - 1].0 && v2 == d@[i as int - 1].1 && k2
                            == key@));
                        assert(self.contains(f2, v2, k2));
                    }
                }
            }
        }
    }
}

} // verus!
