//! The player's clients of the three services: each knows its service's address.
use vstd::prelude::*;

verus! {

broadcast use vstd::string::group_string_axioms;

/// Client of the problem service.
pub struct RemoteProblemClient {
    addr: String,
}

impl RemoteProblemClient {
    pub fn new(addr: String) -> (res: Self)
        ensures
            res.addr() == addr@,
    {
        Self { addr }
    }

    pub closed spec fn addr(&self) -> Seq<char> {
        self.addr@
    }

    pub fn get_addr(&self) -> (res: &str)
        ensures
            res@ == self.addr(),
    {
        self.addr.as_str()
    }
}

/// Client of the user service.
pub struct RemoteUserClient {
    addr: String,
}

impl RemoteUserClient {
    pub fn new(addr: String) -> (res: Self)
        ensures
            res.addr() == addr@,
    {
        Self { addr }
    }

    pub closed spec fn addr(&self) -> Seq<char> {
        self.addr@
    }

    pub fn get_addr(&self) -> (res: &str)
        ensures
            res@ == self.addr(),
    {
        self.addr.as_str()
    }
}

/// The player's client of the solver service.
pub struct RemoteSolverClient {
    addr: &'static str,
}

impl RemoteSolverClient {
    pub fn new(addr: &'static str) -> (res: Self)
        ensures
            res.addr() == addr@,
    {
        Self { addr }
    }

    pub closed spec fn addr(&self) -> Seq<char> {
        self.addr@
    }

    pub fn get_addr(&self) -> (res: &str)
        ensures
            res@ == self.addr(),
    {
        self.addr
    }
}

impl Default for RemoteSolverClient {
    /// The solver service on this machine, port 4000.
    fn default() -> (res: Self)
        ensures
            res.addr() == "127.0.0.1:4000"@,
    {
        Self { addr: "127.0.0.1:4000" }
    }
}

} // verus!
