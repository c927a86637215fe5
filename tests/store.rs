use account_auth::store::{check_account_fields, AccountTable, StoreError};

fn s(x: &str) -> String {
    String::from(x)
}

#[test]
fn create_then_conflict_on_username_or_email() {
    let mut t = AccountTable::new();
    assert_eq!(t.create(s("bob"), s("bob@x.com"), "pw1"), Ok(()));
    assert_eq!(t.create(s("bob"), s("bob2@x.com"), "pw2"), Err(StoreError::Conflict));
    assert_eq!(t.create(s("rob"), s("bob@x.com"), "pw2"), Err(StoreError::Conflict));
    assert_eq!(t.len(), 1);
    assert_eq!(t.create(s("rob"), s("rob@x.com"), "pw2"), Ok(()));
    assert_eq!(t.len(), 2);
}

#[test]
fn delete_missing_username_succeeds() {
    let mut t = AccountTable::new();
    assert_eq!(t.delete(&s("ghost")), Ok(()));
    assert_eq!(t.len(), 0);
    t.create(s("alice"), s("a@x.com"), "pw").unwrap();
    assert_eq!(t.delete(&s("ghost")), Ok(()));
    assert_eq!(t.len(), 1);
}

#[test]
fn delete_removes_only_that_account() {
    let mut t = AccountTable::new();
    t.create(s("alice"), s("a@x.com"), "pw").unwrap();
    t.create(s("bob"), s("b@x.com"), "pw").unwrap();
    t.create(s("carol"), s("c@x.com"), "pw").unwrap();
    assert_eq!(t.delete(&s("bob")), Ok(()));
    assert_eq!(t.len(), 2);
    assert_eq!(t.find_by_credentials(&s("bob"), "pw"), None);
    assert_eq!(t.find_by_credentials(&s("alice"), "pw"), Some(0));
    assert_eq!(t.find_by_credentials(&s("carol"), "pw"), Some(1));
    // the freed username and email can be taken again
    assert_eq!(t.create(s("bob"), s("b@x.com"), "new"), Ok(()));
}

#[test]
fn find_needs_both_fields() {
    let mut t = AccountTable::new();
    t.create(s("alice"), s("a@x.com"), "secret").unwrap();
    assert_eq!(t.find_by_credentials(&s("alice"), "secret"), Some(0));
    assert_eq!(t.find_by_credentials(&s("alice"), "wrong"), None);
    assert_eq!(t.find_by_credentials(&s("secret"), "alice"), None);
    assert_eq!(t.find_by_credentials(&s("nobody"), "secret"), None);
}

#[test]
fn empty_username_or_email_is_invalid() {
    let mut t = AccountTable::new();
    assert_eq!(t.create(s(""), s("a@x.com"), "pw"), Err(StoreError::Invalid));
    assert_eq!(t.create(s("alice"), s(""), "pw"), Err(StoreError::Invalid));
    assert_eq!(t.len(), 0);
    assert_eq!(check_account_fields("", "a@x.com"), Err(StoreError::Invalid));
    assert_eq!(check_account_fields("alice", ""), Err(StoreError::Invalid));
    assert_eq!(check_account_fields("alice", "a@x.com"), Ok(()));
}

#[test]
fn sql_state_classification() {
    assert_eq!(StoreError::from_sql_state(Some("23505")), StoreError::Conflict);
    assert_eq!(StoreError::from_sql_state(Some("23503")), StoreError::Unavailable);
    assert_eq!(StoreError::from_sql_state(Some("2350")), StoreError::Unavailable);
    assert_eq!(StoreError::from_sql_state(Some("235050")), StoreError::Unavailable);
    assert_eq!(StoreError::from_sql_state(Some("")), StoreError::Unavailable);
    assert_eq!(StoreError::from_sql_state(None), StoreError::Unavailable);
}
