use vstd::prelude::*;
use crate::ctl::Ctl;
use crate::db::{Cursor, Db};
use crate::env::Sophia;
use crate::error::Error;
use crate::object::Object;
use crate::transaction::Transaction;

verus! {

/// What every handle answers: the name of its kind.
pub trait Native {
    /// The kind name of this handle.
    spec fn kind(&self) -> Seq<char>;

    fn get_type(&self) -> (r: Result<&'static str, Error>)
        ensures
            r matches Ok(s) && s@ == self.kind();
}

impl Native for Sophia {
    open spec fn kind(&self) -> Seq<char> {
        "env"@
    }

    fn get_type(&self) -> (r: Result<&'static str, Error>) {
        Ok("env")
    }
}

impl Native for Ctl {
    open spec fn kind(&self) -> Seq<char> {
        "ctl"@
    }

    fn get_type(&self) -> (r: Result<&'static str, Error>) {
        Ok("ctl")
    }
}

impl Native for Db {
    open spec fn kind(&self) -> Seq<char> {
        "database"@
    }

    fn get_type(&self) -> (r: Result<&'static str, Error>) {
        Ok("database")
    }
}

impl Native for Object {
    open spec fn kind(&self) -> Seq<char> {
        "object"@
    }

    fn get_type(&self) -> (r: Result<&'static str, Error>) {
        Ok("object")
    }
}

impl Native for Cursor {
    open spec fn kind(&self) -> Seq<char> {
        "cursor"@
    }

    fn get_type(&self) -> (r: Result<&'static str, Error>) {
        Ok("cursor")
    }
}

impl Native for Transaction {
    open spec fn kind(&self) -> Seq<char> {
        "transaction"@
    }

    fn get_type(&self) -> (r: Result<&'static str, Error>) {
        Ok("transaction")
    }
}

} // verus!
