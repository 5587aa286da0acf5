use vstd::prelude::*;
use crate::ctl::Ctl;
use crate::error::Error;
use crate::object::Fields;
use crate::transaction::{Change, Transaction};

verus! {

/// The environment: the root of the handle graph, which owns the control
/// interface.
pub struct Sophia {
    ctl: Ctl,
}

impl Sophia {
    /// The control interface this environment owns.
    pub closed spec fn control(&self) -> Ctl {
        self.ctl
    }

    pub open spec fn wf(&self) -> bool {
        self.control().wf()
    }

    /// A new environment in its configuration phase, with nothing set and no
    /// collection.
    pub fn new() -> (r: Result<Sophia, Error>)
        ensures
            r matches Ok(env) && {
                &&& env.wf()
                &&& env.control().settings() == Fields::empty()
                &&& !env.control().is_open()
                &&& env.control().count() == 0
                &&& env.control().diagnostic().len() == 0
            },
    {
        Ok(Sophia { ctl: Ctl::new() })
    }

    /// The control interface, for reading.
    pub fn ctl(&self) -> (r: &Ctl)
        ensures
            *r == self.control(),
    {
        &self.ctl
    }

    /// The control interface, for configuration and data operations.
    pub fn ctl_mut(&mut self) -> (r: &mut Ctl)
        ensures
            *r == old(self).control(),
            final(self).control() == *final(r),
    {
        &mut self.ctl
    }

    /// Moves the environment from configuration to operation; fails where it
    /// is open already.
    pub fn open(&mut self) -> (r: Result<(), Error>)
        requires
            old(self).wf(),
        ensures
            final(self).wf(),
            r is Ok <==> !old(self).control().is_open(),
            final(self).control().is_open(),
            r is Ok ==> {
                &&& final(self).control().settings() == old(self).control().settings()
                &&& final(self).control().diagnostic() == old(self).control().diagnostic()
                &&& final(self).control().count() == old(self).control().count()
                &&& final(self).control().tables() == old(self).control().tables()
                &&& forall|i: int| 0 <= i < old(self).control().count() ==> #[trigger] final(self).control().collection(i)
                    == old(self).control().collection(i)
            },
            r is Err ==> final(self).control().same_data(&old(self).control())
                && final(self).control().reports(r->Err_0),
    {
        self.ctl.open()
    }

    /// Begins a transaction; the environment must be open.
    pub fn transaction(&mut self) -> (r: Result<Transaction, Error>)
        requires
            old(self).wf(),
        ensures
            final(self).wf(),
            r is Ok <==> old(self).control().is_open(),
            r matches Ok(t) ==> t.wf() && t.changes() == Seq::<Change>::empty() && !t.is_done()
                && *final(self) == *old(self),
            r is Err ==> final(self).control().same_data(&old(self).control())
                && final(self).control().reports(r->Err_0),
    {
        if !self.ctl.opened() {
            return Err(self.ctl.fail("environment is not open"));
        }
        Ok(Transaction::begin())
    }

    /// A pending condition that forces a shutdown, if any. This engine keeps
    /// its state in memory and raises no such condition.
    pub fn error(&self) -> (r: Option<isize>)
        ensures
            r is None,
    {
        None
    }
}

} // verus!
