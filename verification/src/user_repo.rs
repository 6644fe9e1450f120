//! Stored users, and the decisions of the user service around them.
use vstd::prelude::*;
use crate::decimal::{i64_text, i64_to_text};
use crate::user::{User, UserResponse};

verus! {

broadcast use vstd::string::group_string_axioms;

/// A stored user: id, name and credentials.
#[derive(Debug)]
pub struct UserRow {
    pub id: i64,
    pub name: String,
    credentials: String,
}

/// A row seen as its id, its name and its credentials.
impl View for UserRow {
    type V = (i64, Seq<char>, Seq<char>);

    closed spec fn view(&self) -> (i64, Seq<char>, Seq<char>) {
        (self.id, self.name@, self.credentials@)
    }
}

impl UserRow {
    pub fn new(id: i64, name: String, credentials: String) -> (res: Self)
        ensures
            res@ == (id, name@, credentials@),
    {
        Self { id, name, credentials }
    }

    /// A sample row: number `num`, named `user<num>`, with a fixed strong password.
    pub fn test_row(num: i64) -> (res: Self)
        ensures
            res@ == (num, "user"@ + i64_text(num as int), "verystrongand-secretpasswoerd!!!9"@),
    {
        let mut name = "user".to_string();
        let digits = i64_to_text(num);
        name.append(digits.as_str());
        Self { id: num, name, credentials: "verystrongand-secretpasswoerd!!!9".to_string() }
    }
}

/// Why a user could not be stored: the name is taken, or the database failed with a message.
#[derive(Debug, Clone, PartialEq)]
pub enum UserRepoError {
    DuplicateName,
    Sqlx(String),
}

/// How the error reads.
pub open spec fn repo_error_text(e: UserRepoError) -> Seq<char> {
    match e {
        UserRepoError::DuplicateName => "user with that name already exists"@,
        UserRepoError::Sqlx(m) => "database error: "@ + m@,
    }
}

impl UserRepoError {
    pub fn message(&self) -> (res: String)
        ensures
            res@ == repo_error_text(*self),
    {
        match self {
            UserRepoError::DuplicateName => "user with that name already exists".to_string(),
            UserRepoError::Sqlx(m) => {
                let mut out = "database error: ".to_string();
                out.append(m.as_str());
                out
            },
        }
    }
}

/// A new user may be stored only under a name that no stored user has.
pub fn admit_new_user(name_in_use: bool) -> (res: Result<(), UserRepoError>)
    ensures
        name_in_use ==> res == Err::<(), UserRepoError>(UserRepoError::DuplicateName),
        !name_in_use ==> res is Ok,
{
    if name_in_use {
        Err(UserRepoError::DuplicateName)
    } else {
        Ok(())
    }
}

/// The token handed to users.
pub open spec fn session_token() -> Seq<char> {
    "aaaaaaaa"@
}

/// The reply to a new user: valid with its token, `Invalid` for a taken name, or the fault.
pub fn create_reply(name: String, result: Result<(), UserRepoError>) -> (res: UserResponse)
    ensures
        result is Ok ==> (res matches UserResponse::Valid(u) && u.name == name && u.token@
            == session_token()),
        result == Err::<(), UserRepoError>(UserRepoError::DuplicateName) ==> res
            == UserResponse::Invalid,
        result matches Err(UserRepoError::Sqlx(m)) ==> (res matches UserResponse::Fault(t) && t@
            == repo_error_text(UserRepoError::Sqlx(m))),
{
    match result {
        Ok(()) => {
            let token = "aaaaaaaa".to_string();
            UserResponse::Valid(User { name, token })
        },
        Err(UserRepoError::DuplicateName) => UserResponse::Invalid,
        Err(e) => UserResponse::Fault(e.message()),
    }
}

/// The reply to a login: valid with the token found, or the database's message.
pub fn login_reply(name: String, result: Result<String, String>) -> (res: UserResponse)
    ensures
        result matches Ok(t) ==> res == UserResponse::Valid(User { name, token: t }),
        result matches Err(e) ==> (res matches UserResponse::Fault(m) && m@ == e@),
{
    match result {
        Ok(token) => UserResponse::Valid(User { name, token }),
        Err(e) => UserResponse::Fault(e),
    }
}

} // verus!
