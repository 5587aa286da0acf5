use sophia::{Cursor, Db, Error, Native, Object, Sophia};

fn opened(names: &[&str]) -> Sophia {
    let mut env = Sophia::new().unwrap();
    env.ctl_mut().set("sophia.path", "./data").unwrap();
    for n in names {
        env.ctl_mut().set("db", n).unwrap();
    }
    env.open().unwrap();
    env
}

fn doc(db: &Db, key: &str, value: &str) -> Object {
    let mut o = db.object().unwrap();
    o.set("key", key.as_bytes()).unwrap();
    o.set("value", value.as_bytes()).unwrap();
    o
}

fn request(db: &Db, key: &str) -> Object {
    let mut o = db.object().unwrap();
    o.set("key", key.as_bytes()).unwrap();
    o
}

fn drain(cursor: &mut Cursor) -> Vec<Object> {
    let mut out = Vec::new();
    loop {
        match cursor.get() {
            Ok(o) => out.push(o),
            Err(Error::Exhausted) => break,
            Err(e) => panic!("cursor failed: {:?}", e),
        }
    }
    out
}

fn failure<T>(r: Result<T, Error>) -> Error {
    match r {
        Ok(_) => panic!("expected a failure"),
        Err(e) => e,
    }
}

fn message(e: Error) -> String {
    e.describe()
}

#[test]
fn field_round_trip_keeps_bytes() {
    let mut env = opened(&["items"]);
    let db = env.ctl_mut().get_db("db.items").unwrap();
    let mut o = db.object().unwrap();
    let raw = [0u8, 255, 10, 13, 128];
    o.set("blob", &raw).unwrap();
    assert_eq!(o.get("blob").unwrap(), &raw[..]);
    o.set("empty", &[]).unwrap();
    assert_eq!(o.get("empty").unwrap(), &[] as &[u8]);
}

#[test]
fn field_last_write_wins() {
    let mut env = opened(&["items"]);
    let db = env.ctl_mut().get_db("db.items").unwrap();
    let mut o = db.object().unwrap();
    o.set("value", b"first").unwrap();
    o.set("other", b"x").unwrap();
    o.set("value", b"second").unwrap();
    assert_eq!(o.get("value").unwrap(), b"second");
    assert_eq!(o.get("other").unwrap(), b"x");
}

#[test]
fn field_errors() {
    let mut env = opened(&["items"]);
    let db = env.ctl_mut().get_db("db.items").unwrap();
    let mut o = db.object().unwrap();
    assert!(o.set("", b"v").is_err());
    assert!(o.get("missing").is_err());
    assert!(o.get("").is_err());
}

#[test]
fn set_then_get_returns_document() {
    let mut env = opened(&["items"]);
    let db = env.ctl_mut().get_db("db.items").unwrap();
    let mut d = doc(&db, "k", "v");
    d.set("extra", b"e").unwrap();
    db.set(env.ctl_mut(), &d).unwrap();
    let got = db.get(env.ctl_mut(), &request(&db, "k")).unwrap();
    assert_eq!(got.get("key").unwrap(), b"k");
    assert_eq!(got.get("value").unwrap(), b"v");
    assert_eq!(got.get("extra").unwrap(), b"e");
    assert_eq!(got.db(), Some(0));
}

#[test]
fn set_replaces_document_with_same_key() {
    let mut env = opened(&["items"]);
    let db = env.ctl_mut().get_db("db.items").unwrap();
    db.set(env.ctl_mut(), &doc(&db, "k", "old")).unwrap();
    db.set(env.ctl_mut(), &doc(&db, "k", "new")).unwrap();
    let got = db.get(env.ctl_mut(), &request(&db, "k")).unwrap();
    assert_eq!(got.get("value").unwrap(), b"new");
    let all = drain(&mut db.cursor(env.ctl_mut(), &db.object().unwrap()).unwrap());
    assert_eq!(all.len(), 1);
}

#[test]
fn delete_then_get_fails() {
    let mut env = opened(&["items"]);
    let db = env.ctl_mut().get_db("db.items").unwrap();
    db.set(env.ctl_mut(), &doc(&db, "k", "v")).unwrap();
    db.delete(env.ctl_mut(), &request(&db, "k")).unwrap();
    let e = failure(db.get(env.ctl_mut(), &request(&db, "k")));
    assert_eq!(message(e), "document not found");
    let e = failure(db.delete(env.ctl_mut(), &request(&db, "k")));
    assert_eq!(message(e), "document not found");
}

#[test]
fn document_without_key_is_refused() {
    let mut env = opened(&["items"]);
    let db = env.ctl_mut().get_db("db.items").unwrap();
    let mut o = db.object().unwrap();
    o.set("value", b"v").unwrap();
    assert_eq!(message(failure(db.set(env.ctl_mut(), &o))), "document has no key");
    assert!(db.get(env.ctl_mut(), &o).is_err());
    assert!(db.delete(env.ctl_mut(), &o).is_err());
}

#[test]
fn cursor_yields_every_document_then_stays_exhausted() {
    let mut env = opened(&["items"]);
    let db = env.ctl_mut().get_db("db.items").unwrap();
    let n = 5;
    for i in 0..n {
        db.set(env.ctl_mut(), &doc(&db, &format!("k{}", i), &format!("v{}", i))).unwrap();
    }
    let mut cursor = db.cursor(env.ctl_mut(), &db.object().unwrap()).unwrap();
    let all = drain(&mut cursor);
    assert_eq!(all.len(), n);
    let mut keys: Vec<Vec<u8>> = all.iter().map(|o| o.get("key").unwrap().to_vec()).collect();
    keys.sort();
    keys.dedup();
    assert_eq!(keys.len(), n);
    assert!(matches!(cursor.get(), Err(Error::Exhausted)));
    assert!(matches!(cursor.get(), Err(Error::Exhausted)));
}

#[test]
fn cursor_on_empty_collection_is_exhausted_at_once() {
    let mut env = opened(&["items"]);
    let db = env.ctl_mut().get_db("db.items").unwrap();
    let mut cursor = db.cursor(env.ctl_mut(), &db.object().unwrap()).unwrap();
    assert!(matches!(cursor.get(), Err(Error::Exhausted)));
}

#[test]
fn cursor_filter_selects_matching_documents() {
    let mut env = opened(&["items"]);
    let db = env.ctl_mut().get_db("db.items").unwrap();
    db.set(env.ctl_mut(), &doc(&db, "a", "red")).unwrap();
    db.set(env.ctl_mut(), &doc(&db, "b", "blue")).unwrap();
    db.set(env.ctl_mut(), &doc(&db, "c", "red")).unwrap();
    let mut filter = db.object().unwrap();
    filter.set("value", b"red").unwrap();
    let found = drain(&mut db.cursor(env.ctl_mut(), &filter).unwrap());
    assert_eq!(found.len(), 2);
    assert!(found.iter().all(|o| o.get("value").unwrap() == b"red"));
}

#[test]
fn transaction_commit_makes_both_visible() {
    let mut env = opened(&["items"]);
    let db = env.ctl_mut().get_db("db.items").unwrap();
    let mut t = env.transaction().unwrap();
    t.set(env.ctl_mut(), &doc(&db, "a", "1")).unwrap();
    t.set(env.ctl_mut(), &doc(&db, "b", "2")).unwrap();
    assert!(db.get(env.ctl_mut(), &request(&db, "a")).is_err());
    assert_eq!(t.commit(env.ctl_mut()).unwrap(), 0);
    let a = db.get(env.ctl_mut(), &request(&db, "a")).unwrap();
    let b = db.get(env.ctl_mut(), &request(&db, "b")).unwrap();
    assert_eq!(a.get("value").unwrap(), b"1");
    assert_eq!(b.get("value").unwrap(), b"2");
}

#[test]
fn transaction_discarded_has_no_effect() {
    let mut env = opened(&["items"]);
    let db = env.ctl_mut().get_db("db.items").unwrap();
    db.set(env.ctl_mut(), &doc(&db, "kept", "v")).unwrap();
    {
        let mut t = env.transaction().unwrap();
        t.set(env.ctl_mut(), &doc(&db, "a", "1")).unwrap();
        t.delete(env.ctl_mut(), &request(&db, "kept")).unwrap();
    }
    assert!(db.get(env.ctl_mut(), &request(&db, "a")).is_err());
    assert!(db.get(env.ctl_mut(), &request(&db, "kept")).is_ok());
}

#[test]
fn transaction_delete_and_terminal_state() {
    let mut env = opened(&["items"]);
    let db = env.ctl_mut().get_db("db.items").unwrap();
    db.set(env.ctl_mut(), &doc(&db, "k", "v")).unwrap();
    let mut t = env.transaction().unwrap();
    t.delete(env.ctl_mut(), &request(&db, "k")).unwrap();
    t.commit(env.ctl_mut()).unwrap();
    assert!(db.get(env.ctl_mut(), &request(&db, "k")).is_err());
    assert_eq!(message(failure(t.commit(env.ctl_mut()))), "transaction is complete");
    assert!(t.set(env.ctl_mut(), &doc(&db, "x", "y")).is_err());
}

#[test]
fn transaction_refuses_document_of_no_database() {
    let mut env = opened(&["items"]);
    let mut t = env.transaction().unwrap();
    let mut o = env.ctl_mut().get("sophia.path").unwrap();
    o.set("key", b"k").unwrap();
    assert_eq!(message(failure(t.set(env.ctl_mut(), &o))), "document belongs to no database");
}

#[test]
fn scenario_items_round_trip() {
    let mut env = Sophia::new().unwrap();
    env.ctl_mut().set("sophia.path", "./data").unwrap();
    env.ctl_mut().set("db", "items").unwrap();
    env.open().unwrap();
    let db = env.ctl_mut().get_db("db.items").unwrap();
    let mut o = db.object().unwrap();
    o.set("key", b"k1").unwrap();
    o.set("value", b"v1").unwrap();
    db.set(env.ctl_mut(), &o).unwrap();
    let mut req = db.object().unwrap();
    req.set("key", b"k1").unwrap();
    let got = db.get(env.ctl_mut(), &req).unwrap();
    assert_eq!(got.get("value").unwrap(), b"v1");
}

#[test]
fn error_path_on_fresh_environment_is_empty() {
    let mut env = opened(&["items"]);
    let e = env.ctl_mut().get("sophia.error").unwrap();
    assert_eq!(e.get("value").unwrap(), b"");
    assert!(env.error().is_none());
}

#[test]
fn error_channel_reports_last_diagnostic() {
    let mut env = opened(&["items"]);
    let e = failure(env.ctl_mut().get_db("db.nothing"));
    assert_eq!(message(e), "no database at this path");
    let diag = env.ctl_mut().get("sophia.error").unwrap();
    assert_eq!(diag.get("value").unwrap(), b"no database at this path");
    match Error::from_ctl(env.ctl()) {
        Error::Defined(s) => assert_eq!(s, "no database at this path"),
        other => panic!("unexpected {:?}", other),
    }
}

#[test]
fn configuration_only_paths_are_refused_after_open() {
    let mut env = opened(&["items"]);
    let e = failure(env.ctl_mut().set("sophia.path", "./elsewhere"));
    assert_eq!(message(e), "path can only be set before open");
    assert!(env.ctl_mut().set("db", "more").is_err());
    env.ctl_mut().set("scheduler.threads", "2").unwrap();
    let v = env.ctl_mut().get("scheduler.threads").unwrap();
    assert_eq!(v.get("value").unwrap(), b"2");
    let p = env.ctl_mut().get("sophia.path").unwrap();
    assert_eq!(p.get("value").unwrap(), b"./data");
}

#[test]
fn control_paths_that_cannot_be_set() {
    let mut env = Sophia::new().unwrap();
    assert!(env.ctl_mut().set("", "x").is_err());
    assert!(env.ctl_mut().set("sophia.error", "x").is_err());
    assert_eq!(message(failure(env.ctl_mut().set("db", ""))), "collection name is empty");
}

#[test]
fn databases_resolve_only_after_open() {
    let mut env = Sophia::new().unwrap();
    env.ctl_mut().set("db", "items").unwrap();
    assert_eq!(message(failure(env.ctl_mut().get_db("db.items"))), "environment is not open");
    assert!(env.transaction().is_err());
    env.open().unwrap();
    assert!(env.open().is_err());
    assert!(env.ctl_mut().get_db("db.items").is_ok());
    assert!(env.ctl_mut().get_db("items").is_err());
    assert!(env.ctl_mut().get_db("db.").is_err());
    assert!(env.ctl_mut().get("db.items").is_err());
    assert!(env.ctl_mut().get("nothing.here").is_err());
}

#[test]
fn collections_are_separate() {
    let mut env = opened(&["one", "two", "one"]);
    let one = env.ctl_mut().get_db("db.one").unwrap();
    let two = env.ctl_mut().get_db("db.two").unwrap();
    assert_eq!(one.collection_index(), 0);
    assert_eq!(two.collection_index(), 1);
    one.set(env.ctl_mut(), &doc(&one, "k", "in one")).unwrap();
    assert!(two.get(env.ctl_mut(), &request(&two, "k")).is_err());
    let got = one.get(env.ctl_mut(), &request(&one, "k")).unwrap();
    assert_eq!(got.get("value").unwrap(), b"in one");
}

#[test]
fn describe_gives_words() {
    assert_eq!(Error::Undefined.describe(), "undefined");
    assert_eq!(Error::Exhausted.describe(), "exhausted");
    assert_eq!(Error::Defined("boom".to_string()).describe(), "boom");
    assert!(matches!(Error::from_diagnostic("x".to_string()), Error::Defined(s) if s == "x"));
}

#[test]
fn duplicate_and_matches() {
    let mut env = opened(&["items"]);
    let db = env.ctl_mut().get_db("db.items").unwrap();
    let d = doc(&db, "k", "v");
    let c = d.duplicate();
    assert_eq!(c.get("value").unwrap(), b"v");
    assert!(c.matches(&d));
    assert!(c.matches(&db.object().unwrap()));
    let mut f = db.object().unwrap();
    f.set("value", b"w").unwrap();
    assert!(!c.matches(&f));
}

#[test]
fn handles_name_their_kind() {
    let mut env = opened(&["items"]);
    assert_eq!(env.get_type().unwrap(), "env");
    assert_eq!(env.ctl().get_type().unwrap(), "ctl");
    let db = env.ctl_mut().get_db("db.items").unwrap();
    assert_eq!(db.get_type().unwrap(), "database");
    let o = db.object().unwrap();
    assert_eq!(o.get_type().unwrap(), "object");
    let c = db.cursor(env.ctl_mut(), &o).unwrap();
    assert_eq!(c.get_type().unwrap(), "cursor");
    let t = env.transaction().unwrap();
    assert_eq!(t.get_type().unwrap(), "transaction");
}

#[test]
fn transaction_get_reads_pending_changes() {
    let mut env = opened(&["items"]);
    let db = env.ctl_mut().get_db("db.items").unwrap();
    db.set(env.ctl_mut(), &doc(&db, "stored", "s")).unwrap();
    db.set(env.ctl_mut(), &doc(&db, "gone", "g")).unwrap();
    let mut t = env.transaction().unwrap();
    t.set(env.ctl_mut(), &doc(&db, "new", "first")).unwrap();
    t.set(env.ctl_mut(), &doc(&db, "new", "second")).unwrap();
    t.delete(env.ctl_mut(), &request(&db, "gone")).unwrap();
    let got = t.get(env.ctl_mut(), &request(&db, "new")).unwrap();
    assert_eq!(got.get("value").unwrap(), b"second");
    let got = t.get(env.ctl_mut(), &request(&db, "stored")).unwrap();
    assert_eq!(got.get("value").unwrap(), b"s");
    assert_eq!(message(failure(t.get(env.ctl_mut(), &request(&db, "gone")))), "document not found");
    assert!(db.get(env.ctl_mut(), &request(&db, "gone")).is_ok());
    t.commit(env.ctl_mut()).unwrap();
    assert!(t.get(env.ctl_mut(), &request(&db, "new")).is_err());
    let got = db.get(env.ctl_mut(), &request(&db, "new")).unwrap();
    assert_eq!(got.get("value").unwrap(), b"second");
}

#[test]
fn commit_with_unknown_database_changes_nothing() {
    let mut one = opened(&["items"]);
    let mut two = opened(&["a", "b"]);
    let db_b = two.ctl_mut().get_db("db.b").unwrap();
    let db = one.ctl_mut().get_db("db.items").unwrap();
    let mut t = one.transaction().unwrap();
    t.set(one.ctl_mut(), &doc(&db, "k", "v")).unwrap();
    let mut t2 = two.transaction().unwrap();
    t2.set(two.ctl_mut(), &doc(&db_b, "x", "y")).unwrap();
    assert!(t2.commit(one.ctl_mut()).is_err());
    assert!(db.get(one.ctl_mut(), &request(&db, "x")).is_err());
    assert_eq!(t.commit(one.ctl_mut()).unwrap(), 0);
}
