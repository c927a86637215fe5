use vstd::prelude::*;
use crate::messages::{CreateUserRequest, DeleteUserrequest, Token, UserLogin};
use crate::credential::credential_hash;
use crate::store::{
    account_added, create_refusal, credentials_match, delete_spec, email_taken, keeps_row, rows_valid,
    username_taken, with_account, AccountTable, Row, StoreError,
};
use crate::token::{issued_token, SigningFailure, TokenIssuer};

verus! {

/// The status reported for a use case that succeeded.
pub const STATUS_CREATED: u16 = 201;

/// The status reported for a use case that failed, whatever the reason.
pub const STATUS_INTERNAL_ERROR: u16 = 500;

/// What a registration reports, as the contracts see it.
pub enum RegisterVerdict {
    Created(Seq<char>),
    AccountAlreadyExists,
    InvalidAccount,
    ServiceUnavailable,
}

/// What a deletion reports, as the contracts see it.
pub enum DeleteVerdict {
    Deleted(Seq<char>),
    ServiceUnavailable,
}

/// What a login reports, as the contracts see it.
pub enum LoginVerdict {
    Authenticated(Seq<char>),
    AuthenticationFailed,
    IntegrityFault,
    ServiceUnavailable,
}

/// The outcome of a registration.
#[derive(Debug)]
pub enum RegisterOutcome {
    /// The account of this username was created.
    Created(String),
    /// The username or the email is held by another account.
    AccountAlreadyExists,
    /// The username or the email is empty.
    InvalidAccount,
    /// The store could not be used.
    ServiceUnavailable,
}

/// The outcome of a deletion.
#[derive(Debug)]
pub enum DeleteOutcome {
    /// No account of this username is left; there may have been none.
    Deleted(String),
    /// The store could not be used.
    ServiceUnavailable,
}

/// The outcome of a login.
#[derive(Debug)]
pub enum LoginOutcome {
    /// The credentials matched; here is the session token.
    Authenticated(String),
    /// No account holds these credentials. Which part was wrong is not told.
    AuthenticationFailed,
    /// More than one account matched, which the uniqueness of usernames
    /// rules out: the store is inconsistent.
    IntegrityFault,
    /// The store or the signer could not be used.
    ServiceUnavailable,
}

/// The first decision of a login, taken on what the credentials query found.
#[derive(Debug)]
pub enum LoginStep {
    /// Exactly one account matched: a token is to be issued.
    IssueToken,
    /// The login ends here, with this outcome.
    Finish(LoginOutcome),
}

impl View for RegisterOutcome {
    type V = RegisterVerdict;

    open spec fn view(&self) -> RegisterVerdict {
        match self {
            RegisterOutcome::Created(u) => RegisterVerdict::Created(u@),
            RegisterOutcome::AccountAlreadyExists => RegisterVerdict::AccountAlreadyExists,
            RegisterOutcome::InvalidAccount => RegisterVerdict::InvalidAccount,
            RegisterOutcome::ServiceUnavailable => RegisterVerdict::ServiceUnavailable,
        }
    }
}

impl View for DeleteOutcome {
    type V = DeleteVerdict;

    open spec fn view(&self) -> DeleteVerdict {
        match self {
            DeleteOutcome::Deleted(u) => DeleteVerdict::Deleted(u@),
            DeleteOutcome::ServiceUnavailable => DeleteVerdict::ServiceUnavailable,
        }
    }
}

impl View for LoginOutcome {
    type V = LoginVerdict;

    open spec fn view(&self) -> LoginVerdict {
        match self {
            LoginOutcome::Authenticated(t) => LoginVerdict::Authenticated(t@),
            LoginOutcome::AuthenticationFailed => LoginVerdict::AuthenticationFailed,
            LoginOutcome::IntegrityFault => LoginVerdict::IntegrityFault,
            LoginOutcome::ServiceUnavailable => LoginVerdict::ServiceUnavailable,
        }
    }
}

pub open spec fn register_verdict(username: Seq<char>, stored: Result<(), StoreError>) -> RegisterVerdict {
    match stored {
        Ok(_) => RegisterVerdict::Created(username),
        Err(StoreError::Conflict) => RegisterVerdict::AccountAlreadyExists,
        Err(StoreError::Invalid) => RegisterVerdict::InvalidAccount,
        Err(StoreError::Unavailable) => RegisterVerdict::ServiceUnavailable,
    }
}

pub open spec fn delete_verdict(username: Seq<char>, stored: Result<(), StoreError>) -> DeleteVerdict {
    match stored {
        Ok(_) => DeleteVerdict::Deleted(username),
        Err(_) => DeleteVerdict::ServiceUnavailable,
    }
}

/// The login decision on the number of accounts the credentials query
/// matched: `None` means a token is to be issued.
pub open spec fn login_step_verdict(matched: Result<usize, StoreError>) -> Option<LoginVerdict> {
    match matched {
        Err(_) => Some(LoginVerdict::ServiceUnavailable),
        Ok(n) => if n == 0 {
            Some(LoginVerdict::AuthenticationFailed)
        } else if n == 1 {
            None
        } else {
            Some(LoginVerdict::IntegrityFault)
        },
    }
}

pub open spec fn signed_verdict(signed: Result<String, SigningFailure>) -> LoginVerdict {
    match signed {
        Ok(t) => LoginVerdict::Authenticated(t@),
        Err(_) => LoginVerdict::ServiceUnavailable,
    }
}

/// Reports a registration from what the store answered.
pub fn register_outcome(username: String, stored: Result<(), StoreError>) -> (r: RegisterOutcome)
    ensures
        r@ == register_verdict(username@, stored),
{
    match stored {
        Ok(()) => RegisterOutcome::Created(username),
        Err(StoreError::Conflict) => RegisterOutcome::AccountAlreadyExists,
        Err(StoreError::Invalid) => RegisterOutcome::InvalidAccount,
        Err(StoreError::Unavailable) => RegisterOutcome::ServiceUnavailable,
    }
}

/// Reports a deletion from what the store answered. Success does not say
/// that the account existed.
pub fn delete_outcome(username: String, stored: Result<(), StoreError>) -> (r: DeleteOutcome)
    ensures
        r@ == delete_verdict(username@, stored),
{
    match stored {
        Ok(()) => DeleteOutcome::Deleted(username),
        Err(_) => DeleteOutcome::ServiceUnavailable,
    }
}

/// Decides how a login goes on from the number of accounts that matched
/// both the username and the credential.
pub fn login_step(matched: Result<usize, StoreError>) -> (r: LoginStep)
    ensures
        match login_step_verdict(matched) {
            None => r is IssueToken,
            Some(v) => r matches LoginStep::Finish(o) && o@ == v,
        },
{
    match matched {
        Err(_) => LoginStep::Finish(LoginOutcome::ServiceUnavailable),
        Ok(n) => if n == 0 {
            LoginStep::Finish(LoginOutcome::AuthenticationFailed)
        } else if n == 1 {
            LoginStep::IssueToken
        } else {
            LoginStep::Finish(LoginOutcome::IntegrityFault)
        },
    }
}

/// Reports a login whose credentials matched, from what the signer answered.
pub fn signed_outcome(signed: Result<String, SigningFailure>) -> (r: LoginOutcome)
    ensures
        r@ == signed_verdict(signed),
{
    match signed {
        Ok(t) => LoginOutcome::Authenticated(t),
        Err(_) => LoginOutcome::ServiceUnavailable,
    }
}

impl RegisterOutcome {
    pub fn status_code(&self) -> (r: u16)
        ensures
            r == (if self is Created { STATUS_CREATED } else { STATUS_INTERNAL_ERROR }),
    {
        match self {
            RegisterOutcome::Created(_) => STATUS_CREATED,
            _ => STATUS_INTERNAL_ERROR,
        }
    }
}

impl DeleteOutcome {
    pub fn status_code(&self) -> (r: u16)
        ensures
            r == (if self is Deleted { STATUS_CREATED } else { STATUS_INTERNAL_ERROR }),
    {
        match self {
            DeleteOutcome::Deleted(_) => STATUS_CREATED,
            _ => STATUS_INTERNAL_ERROR,
        }
    }
}

impl LoginOutcome {
    pub fn status_code(&self) -> (r: u16)
        ensures
            r == (if self is Authenticated { STATUS_CREATED } else { STATUS_INTERNAL_ERROR }),
    {
        match self {
            LoginOutcome::Authenticated(_) => STATUS_CREATED,
            _ => STATUS_INTERNAL_ERROR,
        }
    }

    /// The reply body: the token when one was issued, else an empty one.
    pub fn into_token(self) -> (r: Token)
        ensures
            r.token@ == (match self@ {
                LoginVerdict::Authenticated(t) => t,
                _ => Seq::<char>::empty(),
            }),
    {
        match self {
            LoginOutcome::Authenticated(t) => Token { token: t },
            _ => Token { token: String::new() },
        }
    }
}

/// The verdict of a login at time `now` against the table `rows`.
pub open spec fn login_spec(rows: Seq<Row>, key: Seq<u8>, username: Seq<char>, credential: Seq<char>, now: u64) -> LoginVerdict {
    if !credentials_match(rows, username, credential) {
        LoginVerdict::AuthenticationFailed
    } else if key.len() == 0 {
        LoginVerdict::ServiceUnavailable
    } else {
        LoginVerdict::Authenticated(issued_token(key, username, now))
    }
}

/// Registration, deletion and login over an account table held in memory,
/// with tokens signed by `issuer`.
pub struct AuthService {
    pub store: AccountTable,
    pub issuer: TokenIssuer,
}

impl AuthService {
    pub open spec fn wf(&self) -> bool {
        self.store.wf()
    }

    /// A service with no accounts that signs tokens with `key`.
    pub fn new(key: Vec<u8>) -> (r: AuthService)
        ensures
            r.wf(),
            r.store@ == Seq::<Row>::empty(),
            r.issuer.signing_key() == key@,
    {
        AuthService { store: AccountTable::new(), issuer: TokenIssuer::new(key) }
    }

    /// Opens the account of `req`, keeping its password only as a salted
    /// hash, unless its username or email is taken or empty.
    pub fn register_user(&mut self, req: &CreateUserRequest) -> (r: RegisterOutcome)
        requires
            old(self).wf(),
        ensures
            final(self).wf(),
            final(self).issuer == old(self).issuer,
            match create_refusal(old(self).store@, req.username@, req.email@) {
                Some(e) => r@ == register_verdict(req.username@, Err(e)) && final(self).store@ == old(self).store@,
                None => (r@ == RegisterVerdict::Created(req.username@) && account_added(
                    old(self).store@,
                    final(self).store@,
                    req.username@,
                    req.email@,
                    req.password@,
                )) || (r@ == RegisterVerdict::ServiceUnavailable && final(self).store@ == old(self).store@),
            },
    {
        let stored = self.store.create(req.username.clone(), req.email.clone(), req.password.as_str());
        register_outcome(req.username.clone(), stored)
    }

    /// Removes the account of `req.username`; removing one that does not
    /// exist succeeds as well.
    pub fn delete_user(&mut self, req: &DeleteUserrequest) -> (r: DeleteOutcome)
        requires
            old(self).wf(),
        ensures
            final(self).wf(),
            final(self).issuer == old(self).issuer,
            final(self).store@ == delete_spec(old(self).store@, req.username@),
            r@ == DeleteVerdict::Deleted(req.username@),
    {
        let stored = self.store.delete(&req.username);
        delete_outcome(req.username.clone(), stored)
    }

    /// Checks the credentials of `req` and, when one account holds both,
    /// issues a token for its username at time `now`.
    pub fn login_user(&self, req: &UserLogin, now: u64) -> (r: LoginOutcome)
        requires
            self.wf(),
        ensures
            r@ == login_spec(self.store@, self.issuer.signing_key(), req.username@, req.password@, now),
    {
        let found = self.store.find_by_credentials(&req.username, req.password.as_str());
        let matched: usize = match found {
            Some(_) => 1,
            None => 0,
        };
        match login_step(Ok(matched)) {
            LoginStep::Finish(o) => o,
            LoginStep::IssueToken => signed_outcome(self.issuer.issue(req.username.as_str(), now)),
        }
    }
}

proof fn lemma_filter_keeps_all(rows: Seq<Row>, username: Seq<char>)
    requires
        !username_taken(rows, username),
    ensures
        delete_spec(rows, username) == rows,
    decreases rows.len(),
{
    if rows.len() > 0 {
        let p = rows.drop_last();
        assert(!username_taken(p, username)) by {
            if username_taken(p, username) {
                let i = choose|i: int| 0 <= i < p.len() && (#[trigger] p[i]).0 == username;
                assert(rows[i] == p[i]);
            }
        }
        lemma_filter_keeps_all(p, username);
        assert(rows[rows.len() - 1].0 != username);
        p.lemma_filter_push(rows.last(), keeps_row(username));
        assert(p.push(rows.last()) =~= rows);
    }
}

/// Registering an unused, non-empty username and email is not refused,
/// and once it has succeeded, under whatever salt, registering the same
/// username again, with any email, is refused as taken.
pub proof fn lemma_register_once(
    rows: Seq<Row>,
    username: Seq<char>,
    email: Seq<char>,
    salt: Seq<u8>,
    credential: Seq<char>,
    other_email: Seq<char>,
)
    requires
        username.len() > 0,
        email.len() > 0,
        !username_taken(rows, username),
        !email_taken(rows, email),
    ensures
        create_refusal(rows, username, email) is None,
        create_refusal(with_account(rows, username, email, salt, credential), username, other_email)
            == Some(StoreError::Conflict),
{
    let next = with_account(rows, username, email, salt, credential);
    assert(next[rows.len() as int].0 == username);
}

/// Deleting a username that holds no account succeeds and changes nothing.
pub proof fn lemma_delete_absent(rows: Seq<Row>, username: Seq<char>)
    requires
        !username_taken(rows, username),
    ensures
        delete_spec(rows, username) == rows,
        delete_verdict(username, Ok(())) == DeleteVerdict::Deleted(username),
{
    lemma_filter_keeps_all(rows, username);
}

/// After a registration, logging in with its credentials yields a non-empty
/// token, while a wrong credential and an unknown username both give the
/// same failure. A wrong credential whose salted hash collides with the
/// right one's would be accepted, so such credentials are left out.
pub proof fn lemma_login_after_register(
    rows: Seq<Row>,
    key: Seq<u8>,
    username: Seq<char>,
    email: Seq<char>,
    salt: Seq<u8>,
    credential: Seq<char>,
    wrong: Seq<char>,
    stranger: Seq<char>,
    any: Seq<char>,
    now: u64,
)
    requires
        rows_valid(rows),
        key.len() > 0,
        !username_taken(rows, username),
        credential_hash(salt, wrong) != credential_hash(salt, credential),
        stranger != username,
        !username_taken(rows, stranger),
    ensures
        ({
            let next = with_account(rows, username, email, salt, credential);
            &&& login_spec(next, key, username, credential, now) == LoginVerdict::Authenticated(
                issued_token(key, username, now),
            )
            &&& issued_token(key, username, now).len() > 0
            &&& login_spec(next, key, username, wrong, now) == LoginVerdict::AuthenticationFailed
            &&& login_spec(next, key, stranger, any, now) == login_spec(next, key, username, wrong, now)
        }),
{
    let next = with_account(rows, username, email, salt, credential);
    let n = rows.len() as int;
    assert(next[n] == (username, email, salt, credential_hash(salt, credential)));
    assert(!credentials_match(next, username, wrong)) by {
        if credentials_match(next, username, wrong) {
            let i = choose|i: int|
                0 <= i < next.len() && (#[trigger] next[i]).0 == username && credential_hash(next[i].2, wrong)
                    == next[i].3;
            if i < n {
                assert(next[i] == rows[i]);
            }
        }
    }
    assert(!credentials_match(next, stranger, any)) by {
        if credentials_match(next, stranger, any) {
            let i = choose|i: int|
                0 <= i < next.len() && (#[trigger] next[i]).0 == stranger && credential_hash(next[i].2, any)
                    == next[i].3;
            if i < n {
                assert(next[i] == rows[i]);
            }
        }
    }
}

/// Two registrations of the same username never both succeed. Every
/// operation on the table takes it by `&mut`, so of two calls one completes
/// before the other starts; once either has added the account, under any
/// salt, the other is refused as taken and the table keeps exactly one
/// account of that username. From a valid table where the username and the
/// first email are unused and non-empty, the first one is not refused.
pub proof fn lemma_same_username_one_success(
    rows: Seq<Row>,
    username: Seq<char>,
    first_email: Seq<char>,
    salt: Seq<u8>,
    first_credential: Seq<char>,
    second_email: Seq<char>,
)
    ensures
        create_refusal(with_account(rows, username, first_email, salt, first_credential), username, second_email)
            == Some(StoreError::Conflict),
        (rows_valid(rows) && username.len() > 0 && first_email.len() > 0 && !username_taken(rows, username)
            && !email_taken(rows, first_email)) ==> {
            &&& create_refusal(rows, username, first_email) is None
            &&& rows_valid(with_account(rows, username, first_email, salt, first_credential))
        },
{
    let next = with_account(rows, username, first_email, salt, first_credential);
    let n = rows.len() as int;
    assert(next[n].0 == username);
    if rows_valid(rows) && username.len() > 0 && first_email.len() > 0 && !username_taken(rows, username)
        && !email_taken(rows, first_email) {
        assert forall|i: int, j: int|
            0 <= i < next.len() && 0 <= j < next.len() && i != j implies (#[trigger] next[i]).0 != (
            #[trigger] next[j]).0 && next[i].1 != next[j].1 by {
            if i < n {
                assert(next[i] == rows[i]);
            }
            if j < n {
                assert(next[j] == rows[j]);
            }
        }
        assert forall|i: int| 0 <= i < next.len() implies (#[trigger] next[i]).0.len() > 0 && next[i].1.len()
            > 0 by {
            if i < n {
                assert(next[i] == rows[i]);
            }
        }
    }
}

} // verus!
