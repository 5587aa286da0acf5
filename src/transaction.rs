use vstd::prelude::*;
use crate::ctl::{Ctl, Rows, key_field};
use crate::error::Error;
use crate::object::{Fields, Object, same_bytes};

verus! {

/// A pending change, as the contracts see it: a document to store in a
/// collection, or a key to remove from one.
pub enum Change {
    Put(usize, Fields),
    Remove(usize, Seq<u8>),
}

/// The collections after one change.
pub open spec fn apply_change(t: Seq<Rows>, c: Change) -> Seq<Rows> {
    match c {
        Change::Put(i, d) => if i < t.len() { t.update(i as int, t[i as int].insert(d[key_field()], d)) } else { t },
        Change::Remove(i, k) => if i < t.len() { t.update(i as int, t[i as int].remove(k)) } else { t },
    }
}

/// The collections after a list of changes, applied in order.
pub open spec fn apply_all(t: Seq<Rows>, cs: Seq<Change>) -> Seq<Rows>
    decreases cs.len(),
{
    if cs.len() == 0 {
        t
    } else {
        apply_change(apply_all(t, cs.drop_last()), cs.last())
    }
}

/// The collection a change is for.
pub open spec fn target(c: Change) -> usize {
    match c {
        Change::Put(i, _) => i,
        Change::Remove(i, _) => i,
    }
}

proof fn lemma_with_rows_tables(c: &Ctl, p: &Ctl, index: int, rows: Rows)
    requires
        c.with_rows(p, index, rows),
        0 <= index < p.count(),
    ensures
        c.tables() == p.tables().update(index, rows),
{
    assert forall|j: int| 0 <= j < c.count() implies #[trigger] c.tables()[j] == p.tables().update(index, rows)[j] by {
        assert(c.rows(j) == if j == index { rows } else { p.rows(j) });
    }
    assert(c.tables() =~= p.tables().update(index, rows));
}

/// Committing two stores makes both documents visible, unless the second
/// replaces the first (same collection, same key).
pub proof fn lemma_commit_two(t: Seq<Rows>, a_db: usize, a: Fields, b_db: usize, b: Fields)
    requires
        a_db < t.len(),
        b_db < t.len(),
        a.contains_key(key_field()),
        b.contains_key(key_field()),
        !(a_db == b_db && a[key_field()] == b[key_field()]),
    ensures
        ({
            let after = apply_all(t, seq![Change::Put(a_db, a), Change::Put(b_db, b)]);
            &&& after[a_db as int].contains_key(a[key_field()])
            &&& after[a_db as int][a[key_field()]] == a
            &&& after[b_db as int].contains_key(b[key_field()])
            &&& after[b_db as int][b[key_field()]] == b
        }),
{
    let cs = seq![Change::Put(a_db, a), Change::Put(b_db, b)];
    let first = seq![Change::Put(a_db, a)];
    assert(cs.drop_last() =~= first);
    assert(first.drop_last() =~= Seq::<Change>::empty());
    assert(apply_all(t, first.drop_last()) == t);
    let t1 = apply_all(t, first);
    assert(t1 == apply_change(t, Change::Put(a_db, a)));
    assert(apply_all(t, cs) == apply_change(t1, Change::Put(b_db, b)));
}

/// Whether change `c` is about the document with key `k` in collection `i`.
pub open spec fn touches(c: Change, i: usize, k: Seq<u8>) -> bool {
    match c {
        Change::Put(j, d) => j == i && d[key_field()] == k,
        Change::Remove(j, m) => j == i && m == k,
    }
}

proof fn lemma_apply_len(t: Seq<Rows>, cs: Seq<Change>)
    ensures
        apply_all(t, cs).len() == t.len(),
    decreases cs.len(),
{
    if cs.len() > 0 {
        lemma_apply_len(t, cs.drop_last());
    }
}

/// Changes after position `p` that are not about key `k` of collection `i`
/// leave that entry as the first `p` changes made it.
proof fn lemma_untouched(t: Seq<Rows>, cs: Seq<Change>, p: int, i: usize, k: Seq<u8>)
    requires
        0 <= p <= cs.len(),
        i < t.len(),
        forall|q: int| p <= q < cs.len() ==> !touches(#[trigger] cs[q], i, k),
    ensures
        apply_all(t, cs)[i as int].contains_key(k) == apply_all(t, cs.subrange(0, p))[i as int].contains_key(k),
        apply_all(t, cs)[i as int].contains_key(k) ==> apply_all(t, cs)[i as int][k]
            == apply_all(t, cs.subrange(0, p))[i as int][k],
    decreases cs.len() - p,
{
    if p == cs.len() {
        assert(cs.subrange(0, p) =~= cs);
    } else {
        let init = cs.drop_last();
        assert(init.subrange(0, p) =~= cs.subrange(0, p));
        assert forall|q: int| p <= q < init.len() implies !touches(#[trigger] init[q], i, k) by {
            assert(init[q] == cs[q]);
        }
        lemma_untouched(t, init, p, i, k);
        lemma_apply_len(t, init);
        assert(!touches(cs[cs.len() - 1], i, k));
    }
}

enum Op {
    Put(Object),
    Remove(usize, Vec<u8>),
}

/// A batch of document operations, applied together by `commit`. Until then
/// the collections do not change; a transaction that is dropped has no effect.
pub struct Transaction {
    ops: Vec<Op>,
    done: bool,
}

spec fn change_of(op: Op) -> Change {
    match op {
        Op::Put(o) => Change::Put(o.database()->Some_0, o@),
        Op::Remove(i, k) => Change::Remove(i, k@),
    }
}

spec fn op_wf(op: Op) -> bool {
    match op {
        Op::Put(o) => o.wf() && o.database() is Some && o@.contains_key(key_field()),
        Op::Remove(_, _) => true,
    }
}

impl Transaction {
    /// The pending changes, in the order they were made.
    pub closed spec fn changes(&self) -> Seq<Change> {
        Seq::new(self.ops.len() as nat, |i: int| change_of(self.ops[i]))
    }

    /// Whether `commit` has been called.
    pub closed spec fn is_done(&self) -> bool {
        self.done
    }

    pub closed spec fn wf(&self) -> bool {
        forall|i: int| 0 <= i < self.ops.len() ==> op_wf(#[trigger] self.ops[i])
    }

    /// A transaction with no pending change.
    pub(crate) fn begin() -> (r: Transaction)
        ensures
            r.wf(),
            r.changes() == Seq::<Change>::empty(),
            !r.is_done(),
    {
        Transaction { ops: Vec::new(), done: false }
    }

    /// Adds storing `object` in its database to the batch.
    pub fn set(&mut self, ctl: &mut Ctl, object: &Object) -> (r: Result<(), Error>)
        requires
            old(self).wf(),
            old(ctl).wf(),
            object.wf(),
        ensures
            final(self).wf(),
            final(ctl).wf(),
            final(self).is_done() == old(self).is_done(),
            r is Ok <==> !old(self).is_done() && object@.contains_key(key_field())
                && object.database() is Some && object.database()->Some_0 < old(ctl).count(),
            r is Ok ==> final(self).changes() == old(self).changes().push(
                Change::Put(object.database()->Some_0, object@),
            ) && *final(ctl) == *old(ctl),
            r is Err ==> final(self).changes() == old(self).changes() && final(ctl).same_data(old(ctl))
                && final(ctl).reports(r->Err_0),
    {
        if self.done {
            return Err(ctl.fail("transaction is complete"));
        }
        if object.get("key").is_err() {
            return Err(ctl.fail("document has no key"));
        }
        match object.db() {
            Some(i) => {
                if i >= ctl.collections() {
                    return Err(ctl.fail("no such database"));
                }
            },
            None => {
                return Err(ctl.fail("document belongs to no database"));
            },
        }
        let ghost before = self.changes();
        self.ops.push(Op::Put(object.duplicate()));
        proof {
            assert(self.changes() =~= before.push(Change::Put(object.database()->Some_0, object@)));
        }
        Ok(())
    }

    /// Adds removing the document with `object`'s key from its database to
    /// the batch.
    pub fn delete(&mut self, ctl: &mut Ctl, object: &Object) -> (r: Result<(), Error>)
        requires
            old(self).wf(),
            old(ctl).wf(),
            object.wf(),
        ensures
            final(self).wf(),
            final(ctl).wf(),
            final(self).is_done() == old(self).is_done(),
            r is Ok <==> !old(self).is_done() && object@.contains_key(key_field())
                && object.database() is Some && object.database()->Some_0 < old(ctl).count(),
            r is Ok ==> final(self).changes() == old(self).changes().push(
                Change::Remove(object.database()->Some_0, object@[key_field()]),
            ) && *final(ctl) == *old(ctl),
            r is Err ==> final(self).changes() == old(self).changes() && final(ctl).same_data(old(ctl))
                && final(ctl).reports(r->Err_0),
    {
        if self.done {
            return Err(ctl.fail("transaction is complete"));
        }
        let key = match object.get("key") {
            Ok(k) => vstd::slice::slice_to_vec(k),
            Err(_) => {
                return Err(ctl.fail("document has no key"));
            },
        };
        let index = match object.db() {
            Some(i) => {
                if i >= ctl.collections() {
                    return Err(ctl.fail("no such database"));
                }
                i
            },
            None => {
                return Err(ctl.fail("document belongs to no database"));
            },
        };
        let ghost before = self.changes();
        self.ops.push(Op::Remove(index, key));
        proof {
            assert(self.changes() =~= before.push(Change::Remove(index, object@[key_field()])));
        }
        Ok(())
    }

    /// The document with `object`'s key in `object`'s database, as it will
    /// be once the pending changes are applied.
    pub fn get(&self, ctl: &mut Ctl, object: &Object) -> (r: Result<Object, Error>)
        requires
            self.wf(),
            old(ctl).wf(),
            object.wf(),
        ensures
            final(ctl).wf(),
            r is Ok <==> !self.is_done() && object@.contains_key(key_field()) && object.database() is Some
                && object.database()->Some_0 < old(ctl).count() && apply_all(old(ctl).tables(), self.changes())[
                object.database()->Some_0 as int].contains_key(object@[key_field()]),
            r matches Ok(o) ==> o.wf() && *final(ctl) == *old(ctl) && o@ == apply_all(old(ctl).tables(), self.changes())[
                object.database()->Some_0 as int][object@[key_field()]],
            r is Err ==> final(ctl).same_data(old(ctl)) && final(ctl).reports(r->Err_0),
    {
        if self.done {
            return Err(ctl.fail("transaction is complete"));
        }
        let key = match object.get("key") {
            Ok(k) => k,
            Err(_) => {
                return Err(ctl.fail("document has no key"));
            },
        };
        let index = match object.db() {
            Some(i) => {
                if i >= ctl.collections() {
                    return Err(ctl.fail("no such database"));
                }
                i
            },
            None => {
                return Err(ctl.fail("document belongs to no database"));
            },
        };
        let ghost t = ctl.tables();
        let ghost cs = self.changes();
        let ghost k = key@;
        let mut j: usize = self.ops.len();
        while j > 0
            invariant
                self.wf(),
                ctl.wf(),
                *ctl == *old(ctl),
                t == ctl.tables(),
                cs == self.changes(),
                j <= self.ops.len(),
                index < ctl.count(),
                key@ == k,
                !self.done,
                object.database() == Some(index),
                object@.contains_key(key_field()),
                k == object@[key_field()],
                forall|q: int| j <= q < cs.len() ==> !touches(#[trigger] cs[q], index, k),
            decreases j,
        {
            j = j - 1;
            proof {
                assert(op_wf(self.ops[j as int]));
                assert(cs[j as int] == change_of(self.ops[j as int]));
                lemma_untouched(t, cs, j + 1, index, k);
                assert(cs.subrange(0, j + 1).drop_last() =~= cs.subrange(0, j as int));
                assert(cs.subrange(0, j + 1).last() == cs[j as int]);
                lemma_apply_len(t, cs.subrange(0, j as int));
                assert(apply_all(t, cs.subrange(0, j + 1)) == apply_change(
                    apply_all(t, cs.subrange(0, j as int)),
                    cs[j as int],
                ));
            }
            match &self.ops[j] {
                Op::Put(o) => {
                    if o.db() == Some(index) {
                        let here = o.get("key");
                        if let Ok(h) = here {
                            if same_bytes(h, key) {
                                proof {
                                    assert(touches(cs[j as int], index, k));
                                }
                                return Ok(o.duplicate());
                            }
                        }
                    }
                },
                Op::Remove(d, m) => {
                    if *d == index && same_bytes(m.as_slice(), key) {
                        proof {
                            assert(touches(cs[j as int], index, k));
                        }
                        return Err(ctl.fail("document not found"));
                    }
                },
            }
        }
        proof {
            lemma_untouched(t, cs, 0, index, k);
            assert(cs.subrange(0, 0) =~= Seq::<Change>::empty());
        }
        match ctl.fetch(index, key) {
            Some(doc) => Ok(doc),
            None => Err(ctl.fail("document not found")),
        }
    }

    /// Applies every pending change, in order, or none of them; afterwards
    /// the transaction is complete either way.
    pub fn commit(&mut self, ctl: &mut Ctl) -> (r: Result<isize, Error>)
        requires
            old(self).wf(),
            old(ctl).wf(),
        ensures
            final(self).wf(),
            final(ctl).wf(),
            final(self).is_done(),
            final(self).changes() == old(self).changes(),
            r is Ok <==> !old(self).is_done() && forall|j: int| 0 <= j < old(self).changes().len()
                ==> #[trigger] target(old(self).changes()[j]) < old(ctl).count(),
            r is Ok ==> {
                &&& r == Ok::<isize, Error>(0)
                &&& final(ctl).tables() == apply_all(old(ctl).tables(), old(self).changes())
                &&& final(ctl).settings() == old(ctl).settings()
                &&& final(ctl).is_open() == old(ctl).is_open()
                &&& final(ctl).diagnostic() == old(ctl).diagnostic()
                &&& forall|i: int| 0 <= i < old(ctl).count() ==> #[trigger] final(ctl).collection(i)
                    == old(ctl).collection(i)
            },
            r is Err ==> final(ctl).same_data(old(ctl)) && final(ctl).reports(r->Err_0),
    {
        if self.done {
            return Err(ctl.fail("transaction is complete"));
        }
        self.done = true;
        let n = ctl.collections();
        let mut i: usize = 0;
        while i < self.ops.len()
            invariant
                self.wf(),
                self.done,
                self.ops == old(self).ops,
                ctl.wf(),
                *ctl == *old(ctl),
                i <= self.ops.len(),
                n == ctl.count(),
                forall|j: int| 0 <= j < i ==> #[trigger] target(self.changes()[j]) < n,
            decreases self.ops.len() - i,
        {
            proof {
                assert(op_wf(self.ops[i as int]));
                assert(self.changes()[i as int] == change_of(self.ops[i as int]));
            }
            let index = match &self.ops[i] {
                Op::Put(o) => o.db().unwrap_or(n),
                Op::Remove(d, _) => *d,
            };
            if index >= n {
                proof {
                    assert(old(self).changes()[i as int] == change_of(self.ops[i as int]));
                    assert(target(old(self).changes()[i as int]) >= old(ctl).count());
                }
                return Err(ctl.fail("no such database"));
            }
            i = i + 1;
        }
        let ghost t0 = ctl.tables();
        let ghost cs = self.changes();
        let mut i: usize = 0;
        while i < self.ops.len()
            invariant
                self.wf(),
                ctl.wf(),
                cs == self.changes(),
                i <= self.ops.len(),
                n == ctl.count(),
                n == old(ctl).count(),
                forall|j: int| 0 <= j < cs.len() ==> #[trigger] target(cs[j]) < n,
                ctl.tables() == apply_all(t0, cs.subrange(0, i as int)),
                ctl.settings() == old(ctl).settings(),
                ctl.is_open() == old(ctl).is_open(),
                ctl.diagnostic() == old(ctl).diagnostic(),
                forall|k: int| 0 <= k < old(ctl).count() ==> #[trigger] ctl.collection(k) == old(ctl).collection(k),
            decreases self.ops.len() - i,
        {
            let ghost before = ctl.tables();
            let ghost prior = *ctl;
            proof {
                assert(op_wf(self.ops[i as int]));
                assert(cs[i as int] == change_of(self.ops[i as int]));
                assert(target(cs[i as int]) < n);
                assert(cs.subrange(0, i as int + 1).drop_last() =~= cs.subrange(0, i as int));
            }
            match &self.ops[i] {
                Op::Put(o) => {
                    let index = o.db().unwrap_or(n);
                    ctl.put(index, o.duplicate());
                    proof {
                        assert(before[index as int] == prior.rows(index as int));
                        assert(ctl.with_rows(&prior, index as int, apply_change(before, cs[i as int])[index as int]));
                        lemma_with_rows_tables(ctl, &prior, index as int, apply_change(before, cs[i as int])[index as int]);
                        assert(ctl.tables() =~= apply_change(before, cs[i as int]));
                    }
                },
                Op::Remove(d, k) => {
                    let _ = ctl.take(*d, k.as_slice());
                    proof {
                        assert(before[*d as int] == prior.rows(*d as int));
                        assert(ctl.with_rows(&prior, *d as int, apply_change(before, cs[i as int])[*d as int]));
                        lemma_with_rows_tables(ctl, &prior, *d as int, apply_change(before, cs[i as int])[*d as int]);
                        assert(ctl.tables() =~= apply_change(before, cs[i as int]));
                    }
                },
            }
            proof {
                assert forall|k: int| 0 <= k < old(ctl).count() implies #[trigger] ctl.collection(k)
                    == old(ctl).collection(k) by {
                    assert(prior.collection(k) == old(ctl).collection(k));
                }
                assert(ctl.tables() =~= apply_change(before, cs[i as int]));
            }
            i = i + 1;
        }
        proof {
            assert(cs.subrange(0, cs.len() as int) =~= cs);
        }
        Ok(0)
    }
}

} // verus!
