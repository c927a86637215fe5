use account_auth::messages::{AuthenticationError, CreateUserRequest, DeleteUserrequest, UserLogin};
use account_auth::service::{
    delete_outcome, login_step, register_outcome, signed_outcome, AuthService, DeleteOutcome, LoginOutcome,
    LoginStep, RegisterOutcome,
};
use account_auth::store::StoreError;
use account_auth::token::{SigningFailure, TokenIssuer};

const KEY: &[u8] = b"service key";

fn register(svc: &mut AuthService, u: &str, e: &str, p: &str) -> RegisterOutcome {
    svc.register_user(&CreateUserRequest { username: u.to_string(), email: e.to_string(), password: p.to_string() })
}

fn login(svc: &AuthService, u: &str, p: &str) -> LoginOutcome {
    svc.login_user(&UserLogin { username: u.to_string(), password: p.to_string() }, 100)
}

fn delete(svc: &mut AuthService, u: &str) -> DeleteOutcome {
    svc.delete_user(&DeleteUserrequest { username: u.to_string() })
}

#[test]
fn bob_scenario() {
    let mut svc = AuthService::new(KEY.to_vec());
    let r = register(&mut svc, "bob", "bob@x.com", "pw1");
    assert!(matches!(&r, RegisterOutcome::Created(u) if u == "bob"));
    assert_eq!(r.status_code(), 201);
    let r = register(&mut svc, "bob", "bob2@x.com", "pw1");
    assert!(matches!(r, RegisterOutcome::AccountAlreadyExists));
    assert_eq!(r.status_code(), 500);
    match login(&svc, "bob", "pw1") {
        LoginOutcome::Authenticated(t) => {
            assert!(!t.is_empty());
            assert_eq!(TokenIssuer::new(KEY.to_vec()).verify(&t, 100), Some(String::from("bob")));
        }
        other => panic!("expected a token, got {:?}", other),
    }
    assert!(matches!(login(&svc, "bob", "wrong"), LoginOutcome::AuthenticationFailed));
    let d = delete(&mut svc, "bob");
    assert!(matches!(&d, DeleteOutcome::Deleted(u) if u == "bob"));
    assert_eq!(d.status_code(), 201);
    assert!(matches!(login(&svc, "bob", "pw1"), LoginOutcome::AuthenticationFailed));
}

#[test]
fn register_succeeds_once() {
    let mut svc = AuthService::new(KEY.to_vec());
    assert!(matches!(register(&mut svc, "alice", "a@x.com", "pw"), RegisterOutcome::Created(_)));
    assert!(matches!(register(&mut svc, "alice", "other@x.com", "pw2"), RegisterOutcome::AccountAlreadyExists));
    assert!(matches!(register(&mut svc, "carol", "a@x.com", "pw2"), RegisterOutcome::AccountAlreadyExists));
}

#[test]
fn same_username_twice_gives_one_success() {
    let mut svc = AuthService::new(KEY.to_vec());
    let first = register(&mut svc, "dave", "d1@x.com", "pw");
    let second = register(&mut svc, "dave", "d2@x.com", "pw");
    let successes = [&first, &second].iter().filter(|r| matches!(r, RegisterOutcome::Created(_))).count();
    assert_eq!(successes, 1);
    assert!(matches!(second, RegisterOutcome::AccountAlreadyExists));
}

#[test]
fn empty_fields_are_refused() {
    let mut svc = AuthService::new(KEY.to_vec());
    let r = register(&mut svc, "", "e@x.com", "pw");
    assert!(matches!(r, RegisterOutcome::InvalidAccount));
    assert_eq!(r.status_code(), 500);
    assert!(matches!(register(&mut svc, "ivy", "", "pw"), RegisterOutcome::InvalidAccount));
    assert!(matches!(register_outcome("a".to_string(), Err(StoreError::Invalid)), RegisterOutcome::InvalidAccount));
}

#[test]
fn delete_ghost_succeeds() {
    let mut svc = AuthService::new(KEY.to_vec());
    assert!(matches!(delete(&mut svc, "ghost"), DeleteOutcome::Deleted(u) if u == "ghost"));
    assert!(matches!(register(&mut svc, "ghost", "g@x.com", "pw"), RegisterOutcome::Created(_)));
}

#[test]
fn wrong_password_and_unknown_user_look_the_same() {
    let mut svc = AuthService::new(KEY.to_vec());
    register(&mut svc, "erin", "e@x.com", "right");
    let wrong = login(&svc, "erin", "wrong");
    let unknown = login(&svc, "frank", "right");
    assert!(matches!(wrong, LoginOutcome::AuthenticationFailed));
    assert!(matches!(unknown, LoginOutcome::AuthenticationFailed));
    assert_eq!(wrong.status_code(), unknown.status_code());
    assert_eq!(wrong.into_token().token, "");
}

#[test]
fn login_without_key_is_unavailable() {
    let mut svc = AuthService::new(Vec::new());
    register(&mut svc, "gina", "g@x.com", "pw");
    let r = login(&svc, "gina", "pw");
    assert!(matches!(r, LoginOutcome::ServiceUnavailable));
    assert_eq!(r.status_code(), 500);
}

#[test]
fn login_token_is_reply_body() {
    let mut svc = AuthService::new(KEY.to_vec());
    register(&mut svc, "hal", "h@x.com", "pw");
    let expected = TokenIssuer::new(KEY.to_vec()).issue("hal", 100).unwrap();
    let r = login(&svc, "hal", "pw");
    assert_eq!(r.status_code(), 201);
    assert_eq!(r.into_token().token, expected);
}

#[test]
fn store_answers_become_outcomes() {
    assert!(matches!(register_outcome("a".to_string(), Ok(())), RegisterOutcome::Created(u) if u == "a"));
    assert!(matches!(register_outcome("a".to_string(), Err(StoreError::Conflict)), RegisterOutcome::AccountAlreadyExists));
    assert!(matches!(
        register_outcome("a".to_string(), Err(StoreError::Unavailable)),
        RegisterOutcome::ServiceUnavailable
    ));
    assert!(matches!(delete_outcome("a".to_string(), Ok(())), DeleteOutcome::Deleted(u) if u == "a"));
    assert!(matches!(delete_outcome("a".to_string(), Err(StoreError::Unavailable)), DeleteOutcome::ServiceUnavailable));
}

#[test]
fn login_steps_follow_match_count() {
    assert!(matches!(login_step(Ok(0)), LoginStep::Finish(LoginOutcome::AuthenticationFailed)));
    assert!(matches!(login_step(Ok(1)), LoginStep::IssueToken));
    assert!(matches!(login_step(Ok(2)), LoginStep::Finish(LoginOutcome::IntegrityFault)));
    assert!(matches!(login_step(Err(StoreError::Unavailable)), LoginStep::Finish(LoginOutcome::ServiceUnavailable)));
    assert!(matches!(signed_outcome(Ok("t".to_string())), LoginOutcome::Authenticated(t) if t == "t"));
    assert!(matches!(signed_outcome(Err(SigningFailure)), LoginOutcome::ServiceUnavailable));
}

#[test]
fn authentication_error_message_hides_cause() {
    let e = AuthenticationError { parent_error: "db down".to_string() };
    assert_eq!(e.message(), "username or password error");
}
