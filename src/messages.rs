use vstd::prelude::*;

verus! {

/// A request to open an account.
pub struct CreateUserRequest {
    pub username: String,
    pub email: String,
    pub password: String,
}

/// The reply to a registration or deletion: the account it was about.
pub struct UserCreatedMessage {
    pub username: String,
}

/// A request to remove the account of `username`.
pub struct DeleteUserrequest {
    pub username: String,
}

/// A request to authenticate with a username and a password.
pub struct UserLogin {
    pub username: String,
    pub password: String,
}

/// The reply to a login: the session token, empty when none was issued.
pub struct Token {
    pub token: String,
}

/// A failed login; `parent_error` carries the underlying cause, if any.
#[derive(Debug, Clone)]
pub struct AuthenticationError {
    pub parent_error: String,
}

impl AuthenticationError {
    /// The text shown to a caller: it never tells which part was wrong.
    pub fn message(&self) -> (r: String)
        ensures
            r@ == "username or password error"@,
    {
        let r = String::from_str("username or password error");
        proof {
            reveal_strlit("username or password error");
        }
        r
    }
}

} // verus!
