//! Messages of the user service, and its address.
use vstd::prelude::*;
use crate::address::{address, address_text, or_default};

verus! {

/// Environment variable that names the user service's host.
pub const HOST_VAR: &'static str = "USER_HOST";

/// Environment variable that names the user service's port.
pub const PORT_VAR: &'static str = "USER_PORT";

/// The address of the user service; a missing host is `127.0.0.1`, a missing port `4002`.
pub fn url(host: Option<String>, port: Option<String>) -> (res: String)
    ensures
        res@ == address_text(or_default(host, "127.0.0.1"@), or_default(port, "4002"@)),
{
    address(host, port, "127.0.0.1", "4002")
}

/// A logged-in user and the token handed to it.
#[derive(Clone, Debug, PartialEq)]
pub struct User {
    pub name: String,
    pub token: String,
}

/// A user's name and the hash of its password.
#[derive(Clone, Debug, PartialEq)]
pub struct UserCredentials {
    pub name: String,
    pub hash: String,
}

#[derive(Clone, Debug, PartialEq)]
pub enum UserRequest {
    Login(UserCredentials),
    Create(UserCredentials),
}

#[derive(Clone, Debug, PartialEq)]
pub enum UserResponse {
    Valid(User),
    Invalid,
    Fault(String),
}

} // verus!
