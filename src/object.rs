use vstd::prelude::*;
use vstd::slice::slice_to_vec;
use crate::error::Error;

verus! {

/// The fields of a document: field name to raw bytes.
pub type Fields = Map<Seq<char>, Seq<u8>>;

/// A document: a bag of named byte-string fields, used both as a request
/// (filter, key, update) and as a response.
pub struct Object {
    db: Option<usize>,
    names: Vec<String>,
    values: Vec<Vec<u8>>,
    fields: Ghost<Fields>,
}

impl View for Object {
    type V = Fields;

    closed spec fn view(&self) -> Fields {
        self.fields@
    }
}

/// A field name that a document accepts: a non-empty one.
pub open spec fn valid_field(field: Seq<char>) -> bool {
    field.len() > 0
}

/// Writing a field and reading it back gives the written bytes, unchanged.
pub proof fn lemma_field_round_trip(d: Fields, field: Seq<char>, value: Seq<u8>)
    ensures
        d.insert(field, value).contains_key(field),
        d.insert(field, value)[field] == value,
{
}

/// Of two writes to one field, a read sees the later one; other fields keep
/// what they held.
pub proof fn lemma_field_last_write_wins(
    d: Fields,
    field: Seq<char>,
    first: Seq<u8>,
    second: Seq<u8>,
    other: Seq<char>,
)
    requires
        other != field,
    ensures
        d.insert(field, first).insert(field, second)[field] == second,
        d.insert(field, first).insert(field, second).contains_key(other) == d.contains_key(other),
        d.contains_key(other) ==> d.insert(field, first).insert(field, second)[other] == d[other],
{
}

/// A document matches a filter when it holds every field of the filter, with
/// the same bytes; the empty filter matches every document.
pub open spec fn matches_filter(d: Fields, filter: Fields) -> bool {
    forall|k: Seq<char>| #[trigger] filter.contains_key(k) ==> d.contains_key(k) && d[k] == filter[k]
}

/// Whether two byte strings are equal.
pub(crate) fn same_bytes(a: &[u8], b: &[u8]) -> (r: bool)
    ensures
        r == (a@ == b@),
{
    if a.len() != b.len() {
        return false;
    }
    let mut i: usize = 0;
    while i < a.len()
        invariant
            a@.len() == b@.len(),
            i <= a@.len(),
            a@.subrange(0, i as int) == b@.subrange(0, i as int),
        decreases a@.len() - i,
    {
        if a[i] != b[i] {
            assert(a@.subrange(0, i as int + 1)[i as int] != b@.subrange(0, i as int + 1)[i as int]);
            return false;
        }
        assert(a@.subrange(0, i as int + 1) =~= a@.subrange(0, i as int).push(a@[i as int]));
        assert(b@.subrange(0, i as int + 1) =~= b@.subrange(0, i as int).push(b@[i as int]));
        i = i + 1;
    }
    assert(a@ =~= a@.subrange(0, a@.len() as int));
    assert(b@ =~= b@.subrange(0, b@.len() as int));
    true
}

impl Object {
    /// Names and values agree with the field map.
    pub closed spec fn wf(&self) -> bool {
        &&& self.names.len() == self.values.len()
        &&& forall|i: int|
            0 <= i < self.names.len() ==> #[trigger] self.fields@.contains_key(self.names[i]@)
                && self.fields@[self.names[i]@] == self.values[i]@
        &&& forall|k: Seq<char>| #[trigger]
            self.fields@.contains_key(k) ==> exists|i: int|
                0 <= i < self.names.len() && self.names[i]@ == k
        &&& forall|i: int, j: int|
            0 <= i < j < self.names.len() ==> #[trigger] self.names[i]@ != #[trigger] self.names[j]@
    }

    /// The database this document was made for, if any.
    pub closed spec fn database(&self) -> Option<usize> {
        self.db
    }

    /// An empty document, made for database `db`.
    pub(crate) fn empty(db: Option<usize>) -> (r: Object)
        ensures
            r.wf(),
            r@ == Fields::empty(),
            r.database() == db,
    {
        Object { db, names: Vec::new(), values: Vec::new(), fields: Ghost(Map::empty()) }
    }

    fn position(&self, field: &str) -> (r: Option<usize>)
        requires
            self.wf(),
        ensures
            r matches Some(i) ==> i < self.names.len() && self.names[i as int]@ == field@,
            r is None ==> !self@.contains_key(field@),
    {
        let wanted = field.to_owned();
        let mut i: usize = 0;
        while i < self.names.len()
            invariant
                self.wf(),
                wanted@ == field@,
                i <= self.names.len(),
                forall|j: int| 0 <= j < i ==> self.names[j]@ != field@,
            decreases self.names.len() - i,
        {
            if self.names[i] == wanted {
                return Some(i);
            }
            i = i + 1;
        }
        None
    }

    /// Stores `value` under `field`, replacing what the field held.
    pub fn set(&mut self, field: &str, value: &[u8]) -> (r: Result<(), Error>)
        requires
            old(self).wf(),
        ensures
            final(self).wf(),
            final(self).database() == old(self).database(),
            r is Ok <==> valid_field(field@),
            r is Ok ==> final(self)@ == old(self)@.insert(field@, value@),
            r is Err ==> final(self)@ == old(self)@,
    {
        if field.unicode_len() == 0 {
            return Err(Error::Defined("field name is empty".to_owned()));
        }
        let bytes = slice_to_vec(value);
        let ghost fields = self.fields@.insert(field@, value@);
        match self.position(field) {
            Some(i) => {
                self.values.set(i, bytes);
            },
            None => {
                self.names.push(field.to_owned());
                self.values.push(bytes);
            },
        }
        self.fields = Ghost(fields);
        proof {
            assert forall|k: Seq<char>| #[trigger] self.fields@.contains_key(k) implies exists|i: int|
                0 <= i < self.names.len() && self.names[i]@ == k by {
                if k != field@ {
                    let i = choose|i: int| 0 <= i < old(self).names.len() && old(self).names[i]@ == k;
                    assert(self.names[i]@ == k);
                } else if self.names.len() > old(self).names.len() {
                    assert(self.names[self.names.len() - 1]@ == k);
                } else {
                    let i = choose|i: int| 0 <= i < old(self).names.len() && old(self).names[i]@ == k;
                    assert(self.names[i]@ == k);
                }
            }
        }
        Ok(())
    }

    /// The bytes held by `field`.
    pub fn get(&self, field: &str) -> (r: Result<&[u8], Error>)
        requires
            self.wf(),
        ensures
            r is Ok <==> self@.contains_key(field@),
            r matches Ok(v) ==> v@ == self@[field@],
    {
        match self.position(field) {
            Some(i) => {
                proof {
                    assert(self.fields@.contains_key(self.names[i as int]@));
                }
                Ok(self.values[i].as_slice())
            },
            None => Err(Error::Defined("field is not set".to_owned())),
        }
    }

    /// The database this document was made for, if any.
    pub fn db(&self) -> (r: Option<usize>)
        ensures
            r == self.database(),
    {
        self.db
    }

    /// Makes this document one of database `db`, keeping its fields.
    pub(crate) fn bind(&mut self, db: Option<usize>)
        requires
            old(self).wf(),
        ensures
            final(self).wf(),
            final(self)@ == old(self)@,
            final(self).database() == db,
    {
        self.db = db;
    }

    /// Whether this document matches `filter`.
    pub fn matches(&self, filter: &Object) -> (r: bool)
        requires
            self.wf(),
            filter.wf(),
        ensures
            r == matches_filter(self@, filter@),
    {
        let mut j: usize = 0;
        while j < filter.names.len()
            invariant
                self.wf(),
                filter.wf(),
                j <= filter.names.len(),
                forall|m: int| 0 <= m < j ==> #[trigger] self@.contains_key(filter.names[m]@)
                    && self@[filter.names[m]@] == filter.values[m]@,
            decreases filter.names.len() - j,
        {
            let found = self.get(filter.names[j].as_str());
            proof {
                assert(filter@.contains_key(filter.names[j as int]@));
            }
            match found {
                Ok(v) => {
                    if !same_bytes(v, filter.values[j].as_slice()) {
                        return false;
                    }
                },
                Err(_) => {
                    return false;
                },
            }
            j = j + 1;
        }
        proof {
            assert forall|k: Seq<char>| #[trigger] filter@.contains_key(k) implies self@.contains_key(k)
                && self@[k] == filter@[k] by {
                let m = choose|m: int| 0 <= m < filter.names.len() && filter.names[m]@ == k;
                assert(filter@.contains_key(filter.names[m]@));
            }
        }
        true
    }

    /// A copy of this document, with the same fields and database.
    pub fn duplicate(&self) -> (r: Object)
        requires
            self.wf(),
        ensures
            r.wf(),
            r@ == self@,
            r.database() == self.database(),
    {
        let mut names: Vec<String> = Vec::new();
        let mut values: Vec<Vec<u8>> = Vec::new();
        let mut i: usize = 0;
        while i < self.names.len()
            invariant
                self.wf(),
                i <= self.names.len(),
                names.len() == i,
                values.len() == i,
                forall|j: int| 0 <= j < i ==> #[trigger] names[j]@ == self.names[j]@ && values[j]@ == self.values[j]@,
            decreases self.names.len() - i,
        {
            names.push(self.names[i].clone());
            values.push(slice_to_vec(self.values[i].as_slice()));
            i = i + 1;
        }
        let r = Object { db: self.db, names, values, fields: Ghost(self.fields@) };
        proof {
            assert forall|k: Seq<char>| #[trigger] r.fields@.contains_key(k) implies exists|i: int|
                0 <= i < r.names.len() && r.names[i]@ == k by {
                let i = choose|i: int| 0 <= i < self.names.len() && self.names[i]@ == k;
                assert(r.names[i]@ == k);
            }
        }
        r
    }
}

} // verus!
