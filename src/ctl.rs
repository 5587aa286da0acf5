use vstd::prelude::*;
use crate::error::{Error, lossy_text};
use crate::object::{Fields, Object, same_bytes, matches_filter};
use crate::db::Db;
use vstd::string::StringSliceAdditionalSpecFns;

verus! {

/// Stored documents of one collection, by the bytes of their `key` field.
pub type Rows = Map<Seq<u8>, Fields>;

/// The field that identifies a stored document.
pub open spec fn key_field() -> Seq<char> {
    "key"@
}

/// The field through which a resolved path hands out its value.
pub open spec fn value_field() -> Seq<char> {
    "value"@
}

/// The path at which the last diagnostic is read.
pub open spec fn error_path() -> Seq<char> {
    "sophia.error"@
}

/// The path that names the storage location.
pub open spec fn storage_path() -> Seq<char> {
    "sophia.path"@
}

/// The path that declares a collection.
pub open spec fn declare_path() -> Seq<char> {
    "db"@
}

/// The path at which collection `name` is resolved.
pub open spec fn db_path(name: Seq<char>) -> Seq<char> {
    "db."@ + name
}

/// Paths that may only be set before the environment is opened.
pub open spec fn configuration_only(path: Seq<char>) -> bool {
    path == storage_path() || path == declare_path()
}

/// Whether `set(path, value)` is accepted in the given phase.
pub open spec fn set_allowed(path: Seq<char>, value: Seq<char>, opened: bool) -> bool {
    &&& path.len() > 0
    &&& path != error_path()
    &&& !(opened && configuration_only(path))
    &&& (path == declare_path() ==> value.len() > 0)
}

/// A document with one field, `value`.
pub open spec fn value_document(v: Seq<u8>) -> Fields {
    Fields::empty().insert(value_field(), v)
}

/// One collection: its name and its documents.
pub(crate) struct Store {
    name: String,
    docs: Vec<Object>,
    rows: Ghost<Rows>,
}

impl Store {
    pub(crate) closed spec fn wf(&self, index: usize) -> bool {
        &&& self.rows@.dom().finite()
        &&& forall|i: int| 0 <= i < self.docs.len() ==> {
            &&& (#[trigger] self.docs[i]).wf()
            &&& self.docs[i].database() == Some(index)
            &&& self.docs[i]@.contains_key(key_field())
            &&& self.rows@.contains_key(self.docs[i]@[key_field()])
            &&& self.rows@[self.docs[i]@[key_field()]] == self.docs[i]@
        }
        &&& forall|k: Seq<u8>| #[trigger]
            self.rows@.contains_key(k) ==> exists|i: int|
                0 <= i < self.docs.len() && self.docs[i]@[key_field()] == k
        &&& forall|i: int, j: int|
            0 <= i < j < self.docs.len() ==> (#[trigger] self.docs[i])@[key_field()]
                != (#[trigger] self.docs[j])@[key_field()]
    }

    fn new(name: String) -> (r: Store)
        ensures
            r.name@ == name@,
            r.rows@ == Rows::empty(),
            forall|index: usize| r.wf(index),
    {
        Store { name, docs: Vec::new(), rows: Ghost(Map::empty()) }
    }

    /// Where the document with key `key` stands.
    fn find(&self, key: &[u8], Ghost(index): Ghost<usize>) -> (r: Option<usize>)
        requires
            self.wf(index),
        ensures
            r matches Some(i) ==> i < self.docs.len() && self.docs[i as int]@[key_field()] == key@,
            r is None ==> !self.rows@.contains_key(key@),
    {
        let mut i: usize = 0;
        while i < self.docs.len()
            invariant
                self.wf(index),
                i <= self.docs.len(),
                forall|j: int| 0 <= j < i ==> (#[trigger] self.docs[j])@[key_field()] != key@,
            decreases self.docs.len() - i,
        {
            let stored = self.docs[i].get("key");
            proof {
                assert(self.docs[i as int].wf());
            }
            match stored {
                Ok(k) => {
                    if same_bytes(k, key) {
                        return Some(i);
                    }
                },
                Err(_) => {},
            }
            i = i + 1;
        }
        None
    }
}

impl Store {
    /// Stores `doc` under its key, replacing the document held there.
    fn upsert(&mut self, doc: Object, Ghost(index): Ghost<usize>)
        requires
            old(self).wf(index),
            doc.wf(),
            doc.database() == Some(index),
            doc@.contains_key(key_field()),
        ensures
            final(self).wf(index),
            final(self).name == old(self).name,
            final(self).rows@ == old(self).rows@.insert(doc@[key_field()], doc@),
    {
        proof {
            reveal_strlit("key");
        }
        let key = match doc.get("key") {
            Ok(k) => copy_bytes(k),
            Err(_) => {
                return;
            },
        };
        let ghost k = key@;
        let ghost before = self.docs@;
        let found = self.find(key.as_slice(), Ghost(index));
        self.rows = Ghost(self.rows@.insert(k, doc@));
        match found {
            Some(i) => {
                self.docs.set(i, doc);
                proof {
                    assert forall|m: Seq<u8>| #[trigger] self.rows@.contains_key(m) implies exists|j: int|
                        0 <= j < self.docs.len() && self.docs[j]@[key_field()] == m by {
                        if m != k {
                            let j = choose|j: int| 0 <= j < before.len() && before[j]@[key_field()] == m;
                            assert(self.docs[j]@[key_field()] == m);
                        } else {
                            assert(self.docs[i as int]@[key_field()] == m);
                        }
                    }
                }
            },
            None => {
                self.docs.push(doc);
                proof {
                    assert forall|j: int| 0 <= j < before.len() implies (#[trigger] before[j])@[key_field()] != k by {
                        assert(old(self).rows@.contains_key(before[j]@[key_field()]));
                    }
                    assert forall|m: Seq<u8>| #[trigger] self.rows@.contains_key(m) implies exists|j: int|
                        0 <= j < self.docs.len() && self.docs[j]@[key_field()] == m by {
                        if m != k {
                            let j = choose|j: int| 0 <= j < before.len() && before[j]@[key_field()] == m;
                            assert(self.docs[j]@[key_field()] == m);
                        } else {
                            assert(self.docs[before.len() as int]@[key_field()] == m);
                        }
                    }
                }
            },
        }
    }

    /// Removes the document with key `key`; false where there is none.
    fn remove(&mut self, key: &[u8], Ghost(index): Ghost<usize>) -> (r: bool)
        requires
            old(self).wf(index),
        ensures
            final(self).wf(index),
            final(self).name == old(self).name,
            r == old(self).rows@.contains_key(key@),
            final(self).rows@ == old(self).rows@.remove(key@),
    {
        match self.find(key, Ghost(index)) {
            Some(i) => {
                let ghost before = self.docs@;
                self.rows = Ghost(self.rows@.remove(key@));
                let _ = self.docs.remove(i);
                proof {
                    assert(old(self).rows@.contains_key(before[i as int]@[key_field()]));
                    assert forall|j: int| 0 <= j < self.docs.len() implies #[trigger] self.docs[j]
                        == if j < i { before[j] } else { before[j + 1] } by {}
                    assert forall|m: Seq<u8>| #[trigger] self.rows@.contains_key(m) implies exists|j: int|
                        0 <= j < self.docs.len() && self.docs[j]@[key_field()] == m by {
                        let j = choose|j: int| 0 <= j < before.len() && before[j]@[key_field()] == m;
                        if j < i {
                            assert(self.docs[j]@[key_field()] == m);
                        } else {
                            assert(self.docs[j - 1]@[key_field()] == m);
                        }
                    }
                }
                true
            },
            None => {
                proof {
                    assert(self.rows@.remove(key@) =~= self.rows@);
                }
                false
            },
        }
    }

    /// A copy of the document with key `key`.
    fn fetch(&self, key: &[u8], Ghost(index): Ghost<usize>) -> (r: Option<Object>)
        requires
            self.wf(index),
        ensures
            r is Some <==> self.rows@.contains_key(key@),
            r matches Some(o) ==> o.wf() && o@ == self.rows@[key@] && o.database() == Some(index),
    {
        match self.find(key, Ghost(index)) {
            Some(i) => {
                proof {
                    assert(self.docs[i as int].wf());
                }
                Some(self.docs[i].duplicate())
            },
            None => None,
        }
    }

    /// Copies of the documents that match `filter`, with their keys.
    fn scan(&self, filter: &Object, Ghost(index): Ghost<usize>) -> (r: (Vec<Object>, Ghost<Seq<Seq<u8>>>))
        requires
            self.wf(index),
            filter.wf(),
        ensures
            scan_of(self.rows@, filter@, r.1@),
            r.0.len() == r.1@.len(),
            forall|j: int| 0 <= j < r.0.len() ==> (#[trigger] r.0[j]).wf() && r.0[j]@ == self.rows@[r.1@[j]]
                && r.0[j].database() == Some(index),
    {
        let mut out: Vec<Object> = Vec::new();
        let ghost mut keys: Seq<Seq<u8>> = Seq::empty();
        let mut i: usize = 0;
        while i < self.docs.len()
            invariant
                self.wf(index),
                filter.wf(),
                i <= self.docs.len(),
                out.len() == keys.len(),
                keys.no_duplicates(),
                forall|j: int| 0 <= j < out.len() ==> (#[trigger] out[j]).wf() && out[j]@ == self.rows@[keys[j]]
                    && out[j].database() == Some(index),
                forall|k: Seq<u8>| keys.contains(k) <==> exists|j: int|
                    0 <= j < i && (#[trigger] self.docs[j])@[key_field()] == k && matches_filter(self.docs[j]@, filter@),
            decreases self.docs.len() - i,
        {
            proof {
                assert(self.docs[i as int].wf());
            }
            if self.docs[i].matches(filter) {
                let ghost k = self.docs[i as int]@[key_field()];
                proof {
                    if keys.contains(k) {
                        let j = choose|j: int| 0 <= j < i && (#[trigger] self.docs[j])@[key_field()] == k
                            && matches_filter(self.docs[j]@, filter@);
                        assert(self.docs[j]@[key_field()] != self.docs[i as int]@[key_field()]);
                    }
                }
                out.push(self.docs[i].duplicate());
                proof {
                    let old_keys = keys;
                    keys = keys.push(k);
                    assert forall|a: int, b: int| 0 <= a < b < keys.len() implies keys[a] != keys[b] by {
                        if b == keys.len() - 1 {
                            assert(old_keys.contains(keys[a]));
                        } else {
                            assert(old_keys[a] != old_keys[b]);
                        }
                    }
                    assert forall|m: Seq<u8>| keys.contains(m) <==> exists|j: int|
                        0 <= j < i + 1 && (#[trigger] self.docs[j])@[key_field()] == m && matches_filter(self.docs[j]@, filter@) by {
                        if keys.contains(m) {
                            let a = choose|a: int| 0 <= a < keys.len() && keys[a] == m;
                            if a < old_keys.len() {
                                assert(old_keys.contains(m));
                            }
                        }
                        if exists|j: int| 0 <= j < i + 1 && (#[trigger] self.docs[j])@[key_field()] == m && matches_filter(self.docs[j]@, filter@) {
                            if m != k {
                                let j = choose|j: int| 0 <= j < i + 1 && (#[trigger] self.docs[j])@[key_field()] == m && matches_filter(self.docs[j]@, filter@);
                                assert(old_keys.contains(m));
                                let a = choose|a: int| 0 <= a < old_keys.len() && old_keys[a] == m;
                                assert(keys[a] == m);
                            } else {
                                assert(keys[keys.len() - 1] == m);
                            }
                        }
                    }
                }
            }
            i = i + 1;
        }
        proof {
            assert forall|k: Seq<u8>| keys.contains(k) <==> self.rows@.contains_key(k) && matches_filter(self.rows@[k], filter@) by {
                if self.rows@.contains_key(k) && matches_filter(self.rows@[k], filter@) {
                    let j = choose|j: int| 0 <= j < self.docs.len() && self.docs[j]@[key_field()] == k;
                    assert(self.docs[j].wf());
                }
                if keys.contains(k) {
                    let j = choose|j: int| 0 <= j < i && (#[trigger] self.docs[j])@[key_field()] == k && matches_filter(self.docs[j]@, filter@);
                    assert(self.docs[j].wf());
                }
            }
        }
        (out, Ghost(keys))
    }
}

/// `keys` lists, each once, the keys of the documents of `rows` that match `filter`.
pub open spec fn scan_of(rows: Rows, filter: Fields, keys: Seq<Seq<u8>>) -> bool {
    &&& keys.no_duplicates()
    &&& forall|k: Seq<u8>| keys.contains(k) <==> rows.contains_key(k) && matches_filter(rows[k], filter)
}

/// The control interface: configuration paths, the phase of the environment,
/// the collections and their documents, and the last diagnostic.
pub struct Ctl {
    settings: Object,
    opened: bool,
    stores: Vec<Store>,
    diagnostic: Vec<u8>,
}

impl Ctl {
    /// Configuration values set so far, by path.
    pub closed spec fn settings(&self) -> Fields {
        self.settings@
    }

    /// Whether the environment has been opened.
    pub closed spec fn is_open(&self) -> bool {
        self.opened
    }

    /// How many collections have been declared.
    pub closed spec fn count(&self) -> nat {
        self.stores@.len()
    }

    /// The name of collection `i`.
    pub closed spec fn collection(&self, i: int) -> Seq<char> {
        self.stores[i].name@
    }

    /// The documents of collection `i`.
    pub closed spec fn rows(&self, i: int) -> Rows {
        self.stores[i].rows@
    }

    /// The bytes of the last diagnostic, empty while nothing failed.
    pub closed spec fn diagnostic(&self) -> Seq<u8> {
        self.diagnostic@
    }

    pub closed spec fn wf(&self) -> bool {
        &&& self.settings.wf()
        &&& forall|i: int| 0 <= i < self.stores.len() ==> (#[trigger] self.stores[i]).wf(i as usize)
        &&& forall|i: int, j: int|
            0 <= i < j < self.stores.len() ==> (#[trigger] self.stores[i]).name@
                != (#[trigger] self.stores[j]).name@
    }

    /// Each collection holds finitely many documents.
    pub proof fn lemma_rows_finite(&self, i: int)
        requires
            self.wf(),
            0 <= i < self.count(),
        ensures
            self.rows(i).dom().finite(),
    {
        assert(self.stores[i].wf(i as usize));
    }

    /// Everything but the diagnostic is as in `other`.
    pub open spec fn same_data(&self, other: &Ctl) -> bool {
        &&& self.settings() == other.settings()
        &&& self.is_open() == other.is_open()
        &&& self.count() == other.count()
        &&& forall|i: int| #![trigger self.collection(i)] #![trigger self.rows(i)] 0 <= i < self.count() ==> self.collection(i) == other.collection(i)
            && self.rows(i) == other.rows(i)
    }

    /// `e` is what the error path reports: the diagnostic, decoded.
    pub open spec fn reports(&self, e: Error) -> bool {
        e matches Error::Defined(s) && s@ == lossy_text(self.diagnostic())
    }

    /// What `path` resolves to as a document, if anything.
    pub open spec fn resolution(&self, path: Seq<char>) -> Option<Fields> {
        if path == error_path() {
            Some(value_document(self.diagnostic()))
        } else if self.settings().contains_key(path) {
            Some(value_document(self.settings()[path]))
        } else {
            None
        }
    }

    /// Whether `path` names a declared collection, once the environment is open.
    pub open spec fn resolves_db(&self, path: Seq<char>) -> bool {
        self.is_open() && exists|i: int| 0 <= i < self.count() && db_path(#[trigger] self.collection(i)) == path
    }

    /// `self` is `old` with collection `name` declared, where `name` is given
    /// and not yet declared; the collections declared before are unchanged.
    pub open spec fn declares(&self, old: &Ctl, name: Option<Seq<char>>) -> bool {
        &&& forall|i: int| #![trigger self.collection(i)] #![trigger self.rows(i)] 0 <= i < old.count() ==> self.collection(i) == old.collection(i)
            && self.rows(i) == old.rows(i)
        &&& match name {
            Some(n) => if exists|i: int| 0 <= i < old.count() && #[trigger] old.collection(i) == n {
                self.count() == old.count()
            } else {
                &&& self.count() == old.count() + 1
                &&& self.collection(old.count() as int) == n
                &&& self.rows(old.count() as int) == Rows::empty()
            },
            None => self.count() == old.count(),
        }
    }

    /// A fresh control interface: nothing set, closed, no collection, no diagnostic.
    pub(crate) fn new() -> (r: Ctl)
        ensures
            r.wf(),
            r.settings() == Fields::empty(),
            !r.is_open(),
            r.count() == 0,
            r.diagnostic().len() == 0,
    {
        Ctl { settings: Object::empty(None), opened: false, stores: Vec::new(), diagnostic: Vec::new() }
    }

    /// Records `message` as the diagnostic and returns the error read back
    /// for it.
    pub(crate) fn fail(&mut self, message: &str) -> (r: Error)
        requires
            old(self).wf(),
        ensures
            final(self).wf(),
            final(self).same_data(old(self)),
            final(self).reports(r),
    {
        self.diagnostic = copy_bytes(message.as_bytes());
        Error::from_ctl(self)
    }

    /// Writes a configuration value at `path`. Setting `db` also declares
    /// the collection named by `value`.
    pub fn set(&mut self, path: &str, value: &str) -> (r: Result<(), Error>)
        requires
            old(self).wf(),
        ensures
            final(self).wf(),
            r is Ok <==> set_allowed(path@, value@, old(self).is_open()),
            r is Ok ==> {
                &&& final(self).settings() == old(self).settings().insert(path@, value.spec_bytes())
                &&& final(self).is_open() == old(self).is_open()
                &&& final(self).diagnostic() == old(self).diagnostic()
                &&& final(self).declares(
                    old(self),
                    if path@ == declare_path() { Some(value@) } else { None },
                )
            },
            r is Err ==> final(self).same_data(old(self)) && final(self).reports(r->Err_0),
    {
        let p = path.to_owned();
        if path.unicode_len() == 0 || p == "sophia.error".to_owned() {
            return Err(self.fail("path cannot be set"));
        }
        let declaring = p == "db".to_owned();
        if self.opened && (declaring || p == "sophia.path".to_owned()) {
            return Err(self.fail("path can only be set before open"));
        }
        let ghost before = *self;
        if declaring {
            if value.unicode_len() == 0 {
                return Err(self.fail("collection name is empty"));
            }
            self.declare(value);
        }
        let ghost declared = *self;
        let _ = self.settings.set(path, value.as_bytes());
        proof {
            assert(self.stores == declared.stores);
            assert forall|i: int| 0 <= i < old(self).count() implies #[trigger] self.collection(i)
                == old(self).collection(i) && self.rows(i) == old(self).rows(i) by {
                assert(declared.collection(i) == before.collection(i));
            }
        }
        Ok(())
    }

    fn declare(&mut self, name: &str)
        requires
            old(self).wf(),
        ensures
            final(self).wf(),
            final(self).settings == old(self).settings,
            final(self).opened == old(self).opened,
            final(self).diagnostic == old(self).diagnostic,
            final(self).declares(old(self), Some(name@)),
    {
        let wanted = name.to_owned();
        let mut i: usize = 0;
        while i < self.stores.len()
            invariant
                self.wf(),
                wanted@ == name@,
                *self == *old(self),
                i <= self.stores.len(),
                forall|j: int| 0 <= j < i ==> (#[trigger] self.stores[j]).name@ != name@,
            decreases self.stores.len() - i,
        {
            if self.stores[i].name == wanted {
                proof {
                    assert(old(self).collection(i as int) == name@);
                }
                return;
            }
            i = i + 1;
        }
        let ghost before = self.stores@;
        self.stores.push(Store::new(wanted));
        proof {
            assert(forall|j: int| 0 <= j < before.len() ==> #[trigger] self.stores[j] == before[j]);
            assert(forall|j: int| 0 <= j < before.len() ==> #[trigger] old(self).collection(j) == before[j].name@);
        }
    }

    /// Resolves `path` to a document whose `value` field holds what the path
    /// holds: a configuration value, or the diagnostic at `sophia.error`.
    pub fn get(&mut self, path: &str) -> (r: Result<Object, Error>)
        requires
            old(self).wf(),
        ensures
            final(self).wf(),
            r is Ok <==> old(self).resolution(path@) is Some,
            r matches Ok(o) ==> o.wf() && o@ == old(self).resolution(path@)->Some_0
                && o.database() is None && *final(self) == *old(self),
            r is Err ==> final(self).same_data(old(self)) && final(self).reports(r->Err_0),
    {
        match self.resolve(path) {
            Some(object) => Ok(object),
            None => Err(self.fail("path does not resolve to a document")),
        }
    }

    /// Resolves `db.<name>` to the database of collection `name`.
    pub fn get_db(&mut self, path: &str) -> (r: Result<Db, Error>)
        requires
            old(self).wf(),
        ensures
            final(self).wf(),
            r is Ok <==> old(self).resolves_db(path@),
            r matches Ok(db) ==> db.index() < old(self).count()
                && db_path(old(self).collection(db.index() as int)) == path@
                && *final(self) == *old(self),
            r is Err ==> final(self).same_data(old(self)) && final(self).reports(r->Err_0),
    {
        if !self.opened {
            return Err(self.fail("environment is not open"));
        }
        proof {
            reveal_strlit("db.");
        }
        let n = path.unicode_len();
        if n < 3 || path.get_char(0) != 'd' || path.get_char(1) != 'b' || path.get_char(2) != '.' {
            proof {
                assert forall|i: int| 0 <= i < self.count() implies db_path(#[trigger] self.collection(i)) != path@ by {
                    if db_path(self.collection(i)) == path@ {
                        assert(path@[0] == 'd' && path@[1] == 'b' && path@[2] == '.');
                    }
                }
            }
            return Err(self.fail("path does not name a database"));
        }
        let rest = path.substring_char(3, n).to_owned();
        proof {
            assert(path@ =~= "db."@ + rest@);
        }
        let mut i: usize = 0;
        while i < self.stores.len()
            invariant
                self.wf(),
                path@ == "db."@ + rest@,
                *self == *old(self),
                self.opened,
                i <= self.stores.len(),
                forall|j: int| 0 <= j < i ==> (#[trigger] self.stores[j]).name@ != rest@,
            decreases self.stores.len() - i,
        {
            if self.stores[i].name == rest {
                proof {
                    assert(self.collection(i as int) == rest@);
                    assert(db_path(old(self).collection(i as int)) == path@);
                    assert(old(self).is_open());
                    assert(0 <= i < old(self).count());
                    assert(old(self).resolves_db(path@));
                }
                return Ok(Db::at(i));
            }
            i = i + 1;
        }
        proof {
            assert forall|i: int| 0 <= i < self.count() implies db_path(#[trigger] self.collection(i)) != path@ by {
                if db_path(self.collection(i)) == path@ {
                    assert(self.collection(i) =~= path@.subrange(3, path@.len() as int));
                    assert(rest@ =~= path@.subrange(3, path@.len() as int));
                }
            }
        }
        Err(self.fail("no database at this path"))
    }

    /// The documents of every collection, by index.
    pub open spec fn tables(&self) -> Seq<Rows> {
        Seq::new(self.count(), |i: int| self.rows(i))
    }

    /// `self` is `old` with the documents of collection `index` replaced by
    /// `rows`; nothing else differs.
    pub open spec fn with_rows(&self, old: &Ctl, index: int, rows: Rows) -> bool {
        &&& self.settings() == old.settings()
        &&& self.is_open() == old.is_open()
        &&& self.diagnostic() == old.diagnostic()
        &&& self.count() == old.count()
        &&& forall|i: int| #![trigger self.collection(i)] #![trigger self.rows(i)] 0 <= i < self.count() ==> self.collection(i) == old.collection(i)
            && self.rows(i) == if i == index { rows } else { old.rows(i) }
    }

    /// Moves the environment into its operating phase.
    pub(crate) fn open(&mut self) -> (r: Result<(), Error>)
        requires
            old(self).wf(),
        ensures
            final(self).wf(),
            r is Ok <==> !old(self).is_open(),
            final(self).is_open(),
            r is Ok ==> {
                &&& final(self).settings() == old(self).settings()
                &&& final(self).diagnostic() == old(self).diagnostic()
                &&& final(self).count() == old(self).count()
                &&& final(self).tables() == old(self).tables()
                &&& forall|i: int| 0 <= i < old(self).count() ==> #[trigger] final(self).collection(i)
                    == old(self).collection(i)
            },
            r is Err ==> final(self).same_data(old(self)) && final(self).reports(r->Err_0),
    {
        if self.opened {
            return Err(self.fail("environment is already open"));
        }
        self.opened = true;
        proof {
            assert(self.tables() =~= old(self).tables());
        }
        Ok(())
    }

    /// Stores `doc` in collection `index`, under its key.
    pub(crate) fn put(&mut self, index: usize, doc: Object)
        requires
            old(self).wf(),
            index < old(self).count(),
            doc.wf(),
            doc.database() == Some(index),
            doc@.contains_key(key_field()),
        ensures
            final(self).wf(),
            final(self).with_rows(old(self), index as int, old(self).rows(index as int).insert(doc@[key_field()], doc@)),
    {
        self.stores[index].upsert(doc, Ghost(index));
    }

    /// Removes the document with key `key` from collection `index`.
    pub(crate) fn take(&mut self, index: usize, key: &[u8]) -> (r: bool)
        requires
            old(self).wf(),
            index < old(self).count(),
        ensures
            final(self).wf(),
            r == old(self).rows(index as int).contains_key(key@),
            final(self).with_rows(old(self), index as int, old(self).rows(index as int).remove(key@)),
    {
        self.stores[index].remove(key, Ghost(index))
    }

    /// A copy of the document with key `key` in collection `index`.
    pub(crate) fn fetch(&self, index: usize, key: &[u8]) -> (r: Option<Object>)
        requires
            self.wf(),
            index < self.count(),
        ensures
            r is Some <==> self.rows(index as int).contains_key(key@),
            r matches Some(o) ==> o.wf() && o@ == self.rows(index as int)[key@] && o.database() == Some(index),
    {
        self.stores[index].fetch(key, Ghost(index))
    }

    /// Copies of the documents of collection `index` that match `filter`, with their keys.
    pub(crate) fn scan(&self, index: usize, filter: &Object) -> (r: (Vec<Object>, Ghost<Seq<Seq<u8>>>))
        requires
            self.wf(),
            index < self.count(),
            filter.wf(),
        ensures
            scan_of(self.rows(index as int), filter@, r.1@),
            r.0.len() == r.1@.len(),
            forall|j: int| 0 <= j < r.0.len() ==> (#[trigger] r.0[j]).wf()
                && r.0[j]@ == self.rows(index as int)[r.1@[j]] && r.0[j].database() == Some(index),
    {
        self.stores[index].scan(filter, Ghost(index))
    }

    /// Whether the environment has been opened.
    pub fn opened(&self) -> (r: bool)
        ensures
            r == self.is_open(),
    {
        self.opened
    }

    /// The number of declared collections.
    pub(crate) fn collections(&self) -> (r: usize)
        ensures
            r == self.count(),
    {
        self.stores.len()
    }

    pub(crate) fn resolve(&self, path: &str) -> (r: Option<Object>)
        requires
            self.wf(),
        ensures
            r is Some <==> self.resolution(path@) is Some,
            r matches Some(o) ==> o.wf() && o@ == self.resolution(path@)->Some_0 && o.database() is None,
    {
        proof {
            reveal_strlit("sophia.error");
            reveal_strlit("value");
        }
        let mut object = Object::empty(None);
        if path.to_owned() == "sophia.error".to_owned() {
            let _ = object.set("value", self.diagnostic.as_slice());
            return Some(object);
        }
        match self.settings.get(path) {
            Ok(v) => {
                let _ = object.set("value", v);
                Some(object)
            },
            Err(_) => None,
        }
    }
}

fn copy_bytes(b: &[u8]) -> (r: Vec<u8>)
    ensures
        r@ == b@,
{
    vstd::slice::slice_to_vec(b)
}

} // verus!
