use vstd::prelude::*;

verus! {

/// A scalar field value of a document: the values the engine can index and
/// compare for equality.
#[derive(Debug, PartialEq, Eq)]
pub enum FieldValue {
    Null,
    Bool(bool),
    Int(i64),
    Text(String),
}

/// The mathematical model of a `FieldValue`.
pub enum FieldValueV {
    Null,
    Bool(bool),
    Int(int),
    Text(Seq<char>),
}

impl View for FieldValue {
    type V = FieldValueV;

    open spec fn view(&self) -> FieldValueV {
        match self {
            FieldValue::Null => FieldValueV::Null,
            FieldValue::Bool(b) => FieldValueV::Bool(*b),
            FieldValue::Int(i) => FieldValueV::Int(*i as int),
            FieldValue::Text(s) => FieldValueV::Text(s@),
        }
    }
}

impl Clone for FieldValue {
    fn clone(&self) -> (r: Self)
        ensures
            r == *self,
    {
        match self {
            FieldValue::Null => FieldValue::Null,
            FieldValue::Bool(b) => FieldValue::Bool(*b),
            FieldValue::Int(i) => FieldValue::Int(*i),
            FieldValue::Text(s) => FieldValue::Text(s.clone()),
        }
    }
}

/// Returns whether two field values are equal, at the level of their models.
pub fn value_eq(a: &FieldValue, b: &FieldValue) -> (r: bool)
    ensures
        r == (a@ == b@),
{
    match (a, b) {
        (FieldValue::Null, FieldValue::Null) => true,
        (FieldValue::Bool(x), FieldValue::Bool(y)) => *x == *y,
        (FieldValue::Int(x), FieldValue::Int(y)) => *x == *y,
        (FieldValue::Text(x), FieldValue::Text(y)) => *x == *y,
        _ => false,
    }
}

/// The mathematical model of a document: its fields in order.
pub type DocModel = Seq<(Seq<char>, FieldValueV)>;

/// A document is well formed when its field names are pairwise distinct.
pub open spec fn doc_wf(d: DocModel) -> bool {
    forall|i: int, j: int| 0 <= i < j < d.len() ==> (#[trigger] d[i]).0 != (#[trigger] d[j]).0
}

/// Whether the document has a field named `f` whose value is `v`.
pub open spec fn doc_has_field(d: DocModel, f: Seq<char>, v: FieldValueV) -> bool {
    exists|i: int| 0 <= i < d.len() && #[trigger] d[i] == (f, v)
}

/// The value of the field named `f`, if the document has one.
pub open spec fn doc_field(d: DocModel, f: Seq<char>) -> Option<FieldValueV> {
    if exists|i: int| 0 <= i < d.len() && (#[trigger] d[i]).0 == f {
        let i = choose|i: int| 0 <= i < d.len() && (#[trigger] d[i]).0 == f;
        Some(d[i].1)
    } else {
        None
    }
}

/// In a well-formed document, the field at any position is the one `doc_field`
/// returns for its name.
pub proof fn lemma_doc_field_at(d: DocModel, i: int)
    requires
        doc_wf(d),
        0 <= i < d.len(),
    ensures
        doc_field(d, d[i].0) == Some(d[i].1),
{
    let f = d[i].0;
    assert(exists|j: int| 0 <= j < d.len() && (#[trigger] d[j]).0 == f);
    let j = choose|j: int| 0 <= j < d.len() && (#[trigger] d[j]).0 == f;
    if i < j {
        assert(d[i].0 != d[j].0);
    } else if j < i {
        assert(d[j].0 != d[i].0);
    }
}

/// In a well-formed document, having a field with value `v` is the same as
/// `doc_field` returning `v`.
pub proof fn lemma_doc_has_field_equiv(d: DocModel, f: Seq<char>, v: FieldValueV)
    requires
        doc_wf(d),
    ensures
        doc_has_field(d, f, v) <==> doc_field(d, f) == Some(v),
{
    if doc_has_field(d, f, v) {
        let i = choose|i: int| 0 <= i < d.len() && #[trigger] d[i] == (f, v);
        lemma_doc_field_at(d, i);
    }
    if doc_field(d, f) == Some(v) {
        let i = choose|i: int| 0 <= i < d.len() && (#[trigger] d[i]).0 == f;
        assert(d[i] == (f, v));
    }
}

/// A structured document: an object with named scalar fields, in insertion
/// order, with pairwise-distinct field names.
#[derive(Debug, PartialEq, Eq)]
pub struct Doc {
    pub(crate) fields: Vec<(String, FieldValue)>,
}

impl View for Doc {
    type V = DocModel;

    closed spec fn view(&self) -> DocModel {
        Seq::new(self.fields@.len(), |i: int| (self.fields@[i].0@, self.fields@[i].1@))
    }
}

impl Clone for Doc {
    fn clone(&self) -> (r: Self)
        ensures
            r@ == self@,
    {
        let mut fields: Vec<(String, FieldValue)> = Vec::new();
        let n = self.fields.len();
        let mut i: usize = 0;
        while i < n
            invariant
                n == self.fields.len(),
                i <= n,
                fields@.len() == i,
                forall|j: int| #![all_triggers] 0 <= j < i ==> fields@[j].0@ == self.fields@[j].0@
                    && fields@[j].1@ == self.fields@[j].1@,
            decreases n - i,
        {
            let pair = &self.fields[i];
            fields.push((pair.0.clone(), pair.1.clone()));
            i += 1;
        }
        let r = Doc { fields };
        proof {
            assert(r@ =~= self@);
        }
        r
    }
}

impl Doc {
    /// The empty document.
    pub fn new() -> (d: Doc)
        ensures
            d@ == Seq::<(Seq<char>, FieldValueV)>::empty(),
            doc_wf(d@),
    {
        let d = Doc { fields: Vec::new() };
        proof {
            assert(d@ =~= Seq::<(Seq<char>, FieldValueV)>::empty());
        }
        d
    }

    /// The number of fields.
    pub fn field_count(&self) -> (n: usize)
        ensures
            n == self@.len(),
    {
        self.fields.len()
    }

    /// The name and value of the field at position `i`.
    pub fn field_at(&self, i: usize) -> (p: (&String, &FieldValue))
        requires
            i < self@.len(),
        ensures
            p.0@ == self@[i as int].0,
            p.1@ == self@[i as int].1,
    {
        let pair = &self.fields[i];
        (&pair.0, &pair.1)
    }

    /// The value of the field named `field`, if the document has one.
    pub fn get(&self, field: &str) -> (r: Option<&FieldValue>)
        requires
            doc_wf(self@),
        ensures
            match r {
                Some(v) => doc_field(self@, field@) == Some(v@),
                None => doc_field(self@, field@) is None,
            },
    {
        let owned = field.to_owned();
        let n = self.fields.len();
        let mut i: usize = 0;
        while i < n
            invariant
                owned@ == field@,
                n == self.fields.len(),
                i <= n,
                doc_wf(self@),
                forall|j: int| 0 <= j < i ==> (#[trigger] self@[j]).0 != field@,
            decreases n - i,
        {
            if self.fields[i].0 == owned {
                proof {
                    lemma_doc_field_at(self@, i as int);
                }
                return Some(&self.fields[i].1);
            }
            i += 1;
        }
        None
    }

    /// Sets the field named `field` to `value`: replaces the value in place if
    /// the field exists, appends the field otherwise.
    pub fn set(&mut self, field: &str, value: FieldValue)
        requires
            doc_wf(old(self)@),
        ensures
            doc_wf(final(self)@),
            doc_field(final(self)@, field@) == Some(value@),
            forall|g: Seq<char>| g != field@ ==> doc_field(final(self)@, g) == doc_field(
                old(self)@,
                g,
            ),
    {
        let ghost value_v = value@;
        let owned = field.to_owned();
        let n = self.fields.len();
        let mut i: usize = 0;
        while i < n
            invariant
                owned@ == field@,
                value@ == value_v,
                n == self.fields.len(),
                i <= n,
                doc_wf(self@),
                *self == *old(self),
                forall|j: int| 0 <= j < i ==> (#[trigger] self@[j]).0 != field@,
            decreases n - i,
        {
            if self.fields[i].0 == owned {
                let pair = (owned, value);
                let ghost gpair = pair;
                proof {
                    assert(gpair.0@ == field@);
                    assert(gpair.1@ == value_v);
                }
                self.fields.remove(i);
                self.fields.insert(i, pair);
                proof {
                    assert(self.fields@ =~= old(self).fields@.update(i as int, gpair));
                    assert(self@.len() == old(self)@.len());
                    assert forall|j: int| 0 <= j < self@.len() implies self@[j] == old(self)@.update(
                        i as int,
                        (field@, value_v),
                    )[j] by {
                        assert(self@[j] == (self.fields@[j].0@, self.fields@[j].1@));
                        if j != i {
                            assert(self.fields@[j] == old(self).fields@[j]);
                            assert(old(self)@[j] == (old(self).fields@[j].0@, old(self).fields@[j].1@));
                        } else {
                            assert(self.fields@[j] == gpair);
                        }
                    }
                    assert(self@ =~= old(self)@.update(i as int, (field@, value_v)));
                    Self::lemma_update_field(old(self)@, self@, i as int, field@, value_v);
                }
                return ;
            }
            i += 1;
        }
        self.fields.push((owned, value));
        proof {
            assert(self@ =~= old(self)@.push((field@, value_v)));
            Self::lemma_append_field(old(self)@, self@, field@, value_v);
        }
    }

    /// Replacing the element at a position whose name is the one replaced
    /// keeps the document well formed and changes only that field.
    proof fn lemma_update_field(d0: DocModel, d1: DocModel, i: int, f: Seq<char>, v: FieldValueV)
        requires
            doc_wf(d0),
            0 <= i < d0.len(),
            d0[i].0 == f,
            d1 == d0.update(i, (f, v)),
        ensures
            doc_wf(d1),
            doc_field(d1, f) == Some(v),
            forall|g: Seq<char>| g != f ==> doc_field(d1, g) == doc_field(d0, g),
    {
        assert(forall|j: int| 0 <= j < d1.len() && j != i ==> #[trigger] d1[j] == d0[j]);
        assert(doc_wf(d1));
        lemma_doc_field_at(d1, i);
        assert forall|g: Seq<char>| g != f implies doc_field(d1, g) == doc_field(d0, g) by {
            assert(forall|j: int| 0 <= j < d1.len() ==> (#[trigger] d1[j]).0 == d0[j].0);
            if exists|j: int| 0 <= j < d0.len() && (#[trigger] d0[j]).0 == g {
                let j = choose|j: int| 0 <= j < d0.len() && (#[trigger] d0[j]).0 == g;
                assert(j != i);
                lemma_doc_field_at(d0, j);
                lemma_doc_field_at(d1, j);
            }
        }
    }

    /// Appending a field with a fresh name keeps the document well formed and
    /// changes only that field.
    proof fn lemma_append_field(d0: DocModel, d1: DocModel, f: Seq<char>, v: FieldValueV)
        requires
            doc_wf(d0),
            forall|j: int| 0 <= j < d0.len() ==> (#[trigger] d0[j]).0 != f,
            d1 == d0.push((f, v)),
        ensures
            doc_wf(d1),
            doc_field(d1, f) == Some(v),
            forall|g: Seq<char>| g != f ==> doc_field(d1, g) == doc_field(d0, g),
    {
        assert(forall|j: int| 0 <= j < d0.len() ==> #[trigger] d1[j] == d0[j]);
        assert(d1[d0.len() as int] == (f, v));
        assert(doc_wf(d1));
        lemma_doc_field_at(d1, d0.len() as int);
        assert forall|g: Seq<char>| g != f implies doc_field(d1, g) == doc_field(d0, g) by {
            if exists|j: int| 0 <= j < d0.len() && (#[trigger] d0[j]).0 == g {
                let j = choose|j: int| 0 <= j < d0.len() && (#[trigger] d0[j]).0 == g;
                lemma_doc_field_at(d0, j);
                lemma_doc_field_at(d1, j);
            }
        }
    }
}

} // verus!
