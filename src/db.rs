use vstd::prelude::*;
use crate::ctl::{Ctl, Rows, key_field, scan_of};
use crate::error::Error;
use crate::object::{Fields, Object, matches_filter};

verus! {

/// A database: the handle of one named collection of the control interface.
/// Its operations take the control interface, which holds the documents and
/// the diagnostic of the last failure.
pub struct Db {
    index: usize,
}

impl Db {
    /// Which collection of the control interface this handle stands for.
    pub closed spec fn index(&self) -> usize {
        self.index
    }

    /// Which collection of the control interface this handle stands for.
    pub fn collection_index(&self) -> (r: usize)
        ensures
            r == self.index(),
    {
        self.index
    }

    pub(crate) fn at(index: usize) -> (r: Db)
        ensures
            r.index() == index,
    {
        Db { index }
    }

    /// An empty document for this database.
    pub fn object(&self) -> (r: Result<Object, Error>)
        ensures
            r matches Ok(o) && o.wf() && o@ == Fields::empty() && o.database() == Some(self.index()),
    {
        Ok(Object::empty(Some(self.index)))
    }

    /// Stores `object` under its `key` field, replacing the document held
    /// under that key.
    pub fn set(&self, ctl: &mut Ctl, object: &Object) -> (r: Result<(), Error>)
        requires
            old(ctl).wf(),
            object.wf(),
        ensures
            final(ctl).wf(),
            r is Ok <==> self.index() < old(ctl).count() && object@.contains_key(key_field()),
            r is Ok ==> final(ctl).with_rows(
                old(ctl),
                self.index() as int,
                old(ctl).rows(self.index() as int).insert(object@[key_field()], object@),
            ),
            r is Err ==> final(ctl).same_data(old(ctl)) && final(ctl).reports(r->Err_0),
    {
        if self.index >= ctl.collections() {
            return Err(ctl.fail("no such database"));
        }
        if object.get("key").is_err() {
            return Err(ctl.fail("document has no key"));
        }
        let mut doc = object.duplicate();
        doc.bind(Some(self.index));
        ctl.put(self.index, doc);
        Ok(())
    }

    /// The stored document whose key is the `key` field of `object`.
    pub fn get(&self, ctl: &mut Ctl, object: &Object) -> (r: Result<Object, Error>)
        requires
            old(ctl).wf(),
            object.wf(),
        ensures
            final(ctl).wf(),
            r is Ok <==> self.index() < old(ctl).count() && object@.contains_key(key_field())
                && old(ctl).rows(self.index() as int).contains_key(object@[key_field()]),
            r matches Ok(o) ==> o.wf() && o@ == old(ctl).rows(self.index() as int)[object@[key_field()]]
                && o.database() == Some(self.index()) && *final(ctl) == *old(ctl),
            r is Err ==> final(ctl).same_data(old(ctl)) && final(ctl).reports(r->Err_0),
    {
        if self.index >= ctl.collections() {
            return Err(ctl.fail("no such database"));
        }
        let found = match object.get("key") {
            Ok(key) => ctl.fetch(self.index, key),
            Err(_) => {
                return Err(ctl.fail("document has no key"));
            },
        };
        match found {
            Some(doc) => Ok(doc),
            None => Err(ctl.fail("document not found")),
        }
    }

    /// Removes the stored document whose key is the `key` field of `object`.
    pub fn delete(&self, ctl: &mut Ctl, object: &Object) -> (r: Result<(), Error>)
        requires
            old(ctl).wf(),
            object.wf(),
        ensures
            final(ctl).wf(),
            r is Ok <==> self.index() < old(ctl).count() && object@.contains_key(key_field())
                && old(ctl).rows(self.index() as int).contains_key(object@[key_field()]),
            r is Ok ==> final(ctl).with_rows(
                old(ctl),
                self.index() as int,
                old(ctl).rows(self.index() as int).remove(object@[key_field()]),
            ),
            r is Err ==> final(ctl).same_data(old(ctl)) && final(ctl).reports(r->Err_0),
    {
        if self.index >= ctl.collections() {
            return Err(ctl.fail("no such database"));
        }
        let removed = match object.get("key") {
            Ok(key) => ctl.take(self.index, key),
            Err(_) => {
                return Err(ctl.fail("document has no key"));
            },
        };
        if removed {
            Ok(())
        } else {
            proof {
                let rows = old(ctl).rows(self.index() as int);
                assert(rows.remove(object@[key_field()]) =~= rows);
            }
            Err(ctl.fail("document not found"))
        }
    }

    /// Opens an iteration over the stored documents that match `filter`;
    /// the empty filter matches them all.
    pub fn cursor(&self, ctl: &mut Ctl, filter: &Object) -> (r: Result<Cursor, Error>)
        requires
            old(ctl).wf(),
            filter.wf(),
        ensures
            final(ctl).wf(),
            r is Ok <==> self.index() < old(ctl).count(),
            r matches Ok(c) ==> {
                &&& c.wf()
                &&& scan_of(old(ctl).rows(self.index() as int), filter@, c.keys())
                &&& c.documents().len() == c.keys().len()
                &&& forall|j: int| 0 <= j < c.keys().len() ==> #[trigger] c.documents()[j]
                    == old(ctl).rows(self.index() as int)[c.keys()[j]]
                &&& c.position() == 0
                &&& !c.is_exhausted()
                &&& *final(ctl) == *old(ctl)
            },
            r is Err ==> final(ctl).same_data(old(ctl)) && final(ctl).reports(r->Err_0),
    {
        if self.index >= ctl.collections() {
            return Err(ctl.fail("no such database"));
        }
        let (items, keys) = ctl.scan(self.index, filter);
        let c = Cursor { items, position: 0, exhausted: false, keys };
        proof {
            assert forall|j: int| 0 <= j < c.keys().len() implies #[trigger] c.documents()[j]
                == old(ctl).rows(self.index() as int)[c.keys()[j]] by {
                assert(c.items[j]@ == old(ctl).rows(self.index() as int)[keys@[j]]);
            }
        }
        Ok(c)
    }
}

/// After a document is stored, a lookup with a request holding the same key
/// finds it, with every field as stored.
pub proof fn lemma_set_then_get(before: Ctl, after: Ctl, index: int, d: Fields, request: Fields)
    requires
        0 <= index < before.count(),
        d.contains_key(key_field()),
        request.contains_key(key_field()),
        request[key_field()] == d[key_field()],
        after.with_rows(&before, index, before.rows(index).insert(d[key_field()], d)),
    ensures
        after.rows(index).contains_key(request[key_field()]),
        after.rows(index)[request[key_field()]] == d,
{
    assert(after.collection(index) == before.collection(index));
}

/// After the document with a key is deleted, a lookup of that key finds
/// nothing.
pub proof fn lemma_delete_then_get(before: Ctl, after: Ctl, index: int, request: Fields)
    requires
        0 <= index < before.count(),
        request.contains_key(key_field()),
        after.with_rows(&before, index, before.rows(index).remove(request[key_field()])),
    ensures
        !after.rows(index).contains_key(request[key_field()]),
{
    assert(after.collection(index) == before.collection(index));
}

/// The collection after storing `docs` in order.
pub open spec fn stored_all(rows: Rows, docs: Seq<Fields>) -> Rows
    decreases docs.len(),
{
    if docs.len() == 0 {
        rows
    } else {
        let r = stored_all(rows, docs.drop_last());
        r.insert(docs.last()[key_field()], docs.last())
    }
}

/// Storing documents with distinct keys in an empty collection leaves as
/// many documents as were stored.
pub proof fn lemma_stored_count(docs: Seq<Fields>)
    requires
        forall|i: int| 0 <= i < docs.len() ==> (#[trigger] docs[i]).contains_key(key_field()),
        forall|i: int, j: int| 0 <= i < j < docs.len() ==> (#[trigger] docs[i])[key_field()] != (#[trigger] docs[j])[key_field()],
    ensures
        stored_all(Rows::empty(), docs).dom().finite(),
        stored_all(Rows::empty(), docs).dom().len() == docs.len(),
        forall|i: int| 0 <= i < docs.len() ==> #[trigger] stored_all(Rows::empty(), docs).contains_key(docs[i][key_field()]),
    decreases docs.len(),
{
    if docs.len() > 0 {
        let init = docs.drop_last();
        lemma_stored_count(init);
        let r = stored_all(Rows::empty(), init);
        let k = docs.last()[key_field()];
        assert(!r.contains_key(k)) by {
            if r.contains_key(k) {
                lemma_stored_keys(init, k);
                let i = choose|i: int| 0 <= i < init.len() && init[i][key_field()] == k;
                assert(docs[i][key_field()] != docs[docs.len() - 1][key_field()]);
            }
        }
        assert forall|i: int| 0 <= i < docs.len() implies #[trigger] stored_all(Rows::empty(), docs).contains_key(
            docs[i][key_field()],
        ) by {
            if i < docs.len() - 1 {
                assert(init[i] == docs[i]);
                assert(r.contains_key(init[i][key_field()]));
            }
        }
    }
}

/// Every key of the collection after storing `docs` in an empty one is the
/// key of one of them.
proof fn lemma_stored_keys(docs: Seq<Fields>, k: Seq<u8>)
    requires
        stored_all(Rows::empty(), docs).contains_key(k),
    ensures
        exists|i: int| 0 <= i < docs.len() && docs[i][key_field()] == k,
    decreases docs.len(),
{
    if docs.len() > 0 {
        let init = docs.drop_last();
        if k != docs.last()[key_field()] {
            lemma_stored_keys(init, k);
            let i = choose|i: int| 0 <= i < init.len() && init[i][key_field()] == k;
            assert(docs[i][key_field()] == k);
        } else {
            assert(docs[docs.len() - 1][key_field()] == k);
        }
    }
}

/// A scan with the empty filter lists each document of a collection once:
/// as many keys as the collection holds documents.
pub proof fn lemma_full_scan_count(rows: Rows, keys: Seq<Seq<u8>>)
    requires
        rows.dom().finite(),
        scan_of(rows, Fields::empty(), keys),
    ensures
        keys.len() == rows.dom().len(),
        keys.to_set() == rows.dom(),
{
    assert forall|k: Seq<u8>| keys.to_set().contains(k) <==> rows.dom().contains(k) by {
        if rows.contains_key(k) {
            assert(matches_filter(rows[k], Fields::empty()));
        }
    }
    assert(keys.to_set() =~= rows.dom());
    keys.unique_seq_to_set();
}

/// After documents with distinct keys are stored in an empty collection, a
/// scan with the empty filter lists exactly as many documents as were stored.
pub proof fn lemma_scan_after_stores(docs: Seq<Fields>, keys: Seq<Seq<u8>>)
    requires
        forall|i: int| 0 <= i < docs.len() ==> (#[trigger] docs[i]).contains_key(key_field()),
        forall|i: int, j: int| 0 <= i < j < docs.len() ==> (#[trigger] docs[i])[key_field()] != (#[trigger] docs[j])[key_field()],
        scan_of(stored_all(Rows::empty(), docs), Fields::empty(), keys),
    ensures
        keys.len() == docs.len(),
{
    lemma_stored_count(docs);
    lemma_full_scan_count(stored_all(Rows::empty(), docs), keys);
}

/// An iteration over documents: each `get` hands out the next one, until
/// the cursor is exhausted for good.
pub struct Cursor {
    items: Vec<Object>,
    position: usize,
    exhausted: bool,
    keys: Ghost<Seq<Seq<u8>>>,
}

impl Cursor {
    /// The documents of the iteration, in the order they are handed out.
    pub closed spec fn documents(&self) -> Seq<Fields> {
        Seq::new(self.items.len() as nat, |i: int| self.items[i]@)
    }

    /// The keys of those documents.
    pub closed spec fn keys(&self) -> Seq<Seq<u8>> {
        self.keys@
    }

    /// How many documents have been handed out.
    pub closed spec fn position(&self) -> nat {
        self.position as nat
    }

    /// Whether a `get` has found no more documents.
    pub closed spec fn is_exhausted(&self) -> bool {
        self.exhausted
    }

    pub closed spec fn wf(&self) -> bool {
        &&& forall|i: int| 0 <= i < self.items.len() ==> (#[trigger] self.items[i]).wf()
        &&& self.position <= self.items.len()
        &&& self.exhausted ==> self.position == self.items.len()
    }

    /// The next document, or `Exhausted` once there is none; an exhausted
    /// cursor stays exhausted.
    pub fn get(&mut self) -> (r: Result<Object, Error>)
        requires
            old(self).wf(),
        ensures
            final(self).wf(),
            final(self).documents() == old(self).documents(),
            final(self).keys() == old(self).keys(),
            old(self).position() < old(self).documents().len() ==> {
                &&& r matches Ok(o) && o.wf() && o@ == old(self).documents()[old(self).position() as int]
                &&& final(self).position() == old(self).position() + 1
                &&& !final(self).is_exhausted()
            },
            old(self).is_exhausted() ==> (r matches Err(Error::Exhausted)) && final(self).is_exhausted(),
            old(self).position() >= old(self).documents().len() ==> {
                &&& r matches Err(Error::Exhausted)
                &&& final(self).position() == old(self).position()
                &&& final(self).is_exhausted()
            },
    {
        if self.position < self.items.len() {
            let o = self.items[self.position].duplicate();
            self.position = self.position + 1;
            Ok(o)
        } else {
            self.exhausted = true;
            Err(Error::Exhausted)
        }
    }
}

} // verus!
