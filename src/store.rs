use vstd::prelude::*;
use crate::credential::{credential_hash, credential_matches, new_stored_credential, SALT_BYTES};

verus! {

broadcast use vstd::seq_lib::group_seq_properties;

/// An account as the contracts see it: (username, email, salt, hash of the
/// credential under the salt).
pub type Row = (Seq<char>, Seq<char>, Seq<u8>, Seq<u8>);

/// Why a store operation failed.
#[derive(Debug, Clone, Copy, PartialEq, Eq, Structural)]
pub enum StoreError {
    /// The username or the email is already held by another account.
    Conflict,
    /// The storage could not be reached or did not answer.
    Unavailable,
    /// The username or the email is empty.
    Invalid,
}

/// The SQLSTATE code with which a relational store reports a violated
/// uniqueness constraint.
pub open spec fn unique_violation_code() -> Seq<char> {
    seq!['2', '3', '5', '0', '5']
}

impl StoreError {
    /// Classifies a failed statement by the SQLSTATE code it carried, if
    /// any: a uniqueness violation is a conflict, anything else means the
    /// store was unavailable.
    pub fn from_sql_state(code: Option<&str>) -> (r: StoreError)
        ensures
            r == StoreError::Conflict <==> (code is Some && code->0@ == unique_violation_code()),
            r == StoreError::Conflict || r == StoreError::Unavailable,
    {
        match code {
            Some(c) => {
                let n = c.unicode_len();
                if n != 5 {
                    assert(c@.len() != unique_violation_code().len());
                    return StoreError::Unavailable;
                }
                let digits = ['2', '3', '5', '0', '5'];
                let mut i: usize = 0;
                while i < 5
                    invariant
                        code == Some(c),
                        c@.len() == 5,
                        0 <= i <= 5,
                        digits@ == unique_violation_code(),
                        forall|k: int| 0 <= k < i ==> c@[k] == digits@[k],
                    decreases 5 - i,
                {
                    if c.get_char(i) != digits[i] {
                        assert(c@[i as int] != unique_violation_code()[i as int]);
                        return StoreError::Unavailable;
                    }
                    i += 1;
                }
                assert(c@ =~= unique_violation_code());
                StoreError::Conflict
            },
            None => StoreError::Unavailable,
        }
    }
}

/// Refuses an account whose username or email is empty; the uniqueness of
/// both is left to the store.
pub fn check_account_fields(username: &str, email: &str) -> (r: Result<(), StoreError>)
    ensures
        r is Err <==> username@.len() == 0 || email@.len() == 0,
        r is Err ==> r == Err::<(), StoreError>(StoreError::Invalid),
{
    if username.unicode_len() == 0 || email.unicode_len() == 0 {
        Err(StoreError::Invalid)
    } else {
        Ok(())
    }
}

/// One account of the table. The credential is kept only as a salted hash.
pub struct Account {
    pub username: String,
    pub email: String,
    pub salt: Vec<u8>,
    pub hash: Vec<u8>,
}

impl View for Account {
    type V = Row;

    open spec fn view(&self) -> Row {
        (self.username@, self.email@, self.salt@, self.hash@)
    }
}

pub open spec fn rows_of(accounts: Seq<Account>) -> Seq<Row> {
    accounts.map_values(|a: Account| a@)
}

pub open spec fn username_taken(rows: Seq<Row>, username: Seq<char>) -> bool {
    exists|i: int| 0 <= i < rows.len() && (#[trigger] rows[i]).0 == username
}

pub open spec fn email_taken(rows: Seq<Row>, email: Seq<char>) -> bool {
    exists|i: int| 0 <= i < rows.len() && (#[trigger] rows[i]).1 == email
}

/// The account of `username` holds the hash of `credential` under its salt.
pub open spec fn credentials_match(rows: Seq<Row>, username: Seq<char>, credential: Seq<char>) -> bool {
    exists|i: int|
        0 <= i < rows.len() && (#[trigger] rows[i]).0 == username && credential_hash(rows[i].2, credential)
            == rows[i].3
}

/// No two accounts share a username or an email, and none has an empty one.
pub open spec fn rows_valid(rows: Seq<Row>) -> bool {
    &&& forall|i: int|
        0 <= i < rows.len() ==> (#[trigger] rows[i]).0.len() > 0 && rows[i].1.len() > 0
    &&& forall|i: int, j: int|
        0 <= i < rows.len() && 0 <= j < rows.len() && i != j ==> (#[trigger] rows[i]).0 != (
        #[trigger] rows[j]).0 && rows[i].1 != rows[j].1
}

/// Why `create` refuses an account outright, if it does: a taken username
/// or email first, then an empty one.
pub open spec fn create_refusal(rows: Seq<Row>, username: Seq<char>, email: Seq<char>) -> Option<StoreError> {
    if username_taken(rows, username) || email_taken(rows, email) {
        Some(StoreError::Conflict)
    } else if username.len() == 0 || email.len() == 0 {
        Some(StoreError::Invalid)
    } else {
        None
    }
}

/// The table with one more account, whose credential is stored as its hash
/// under `salt`.
pub open spec fn with_account(rows: Seq<Row>, username: Seq<char>, email: Seq<char>, salt: Seq<u8>, credential: Seq<char>) -> Seq<Row> {
    rows.push((username, email, salt, credential_hash(salt, credential)))
}

/// `after` is `before` with the account added under a salt of the right size.
pub open spec fn account_added(before: Seq<Row>, after: Seq<Row>, username: Seq<char>, email: Seq<char>, credential: Seq<char>) -> bool {
    &&& after.len() == before.len() + 1
    &&& after.last().2.len() == SALT_BYTES
    &&& after == with_account(before, username, email, after.last().2, credential)
}

pub open spec fn keeps_row(username: Seq<char>) -> spec_fn(Row) -> bool {
    |r: Row| r.0 != username
}

/// The table after `delete`: every account but the one of `username`.
pub open spec fn delete_spec(rows: Seq<Row>, username: Seq<char>) -> Seq<Row> {
    rows.filter(keeps_row(username))
}

/// The table of accounts, in the order they were created.
pub struct AccountTable {
    accounts: Vec<Account>,
}

impl View for AccountTable {
    type V = Seq<Row>;

    closed spec fn view(&self) -> Seq<Row> {
        rows_of(self.accounts@)
    }
}

impl AccountTable {
    pub open spec fn wf(&self) -> bool {
        rows_valid(self@)
    }

    /// An empty table.
    pub fn new() -> (r: AccountTable)
        ensures
            r@ == Seq::<Row>::empty(),
            r.wf(),
    {
        let r = AccountTable { accounts: Vec::new() };
        assert(r@ =~= Seq::<Row>::empty());
        r
    }

    /// The number of accounts.
    pub fn len(&self) -> (r: usize)
        ensures
            r == self@.len(),
    {
        self.accounts.len()
    }

    /// Adds an account that keeps a fresh random salt and the hash of
    /// `credential` under it. A taken or empty username or email is refused,
    /// and so is the account when no random salt could be drawn; a refused
    /// account leaves the table alone.
    pub fn create(&mut self, username: String, email: String, credential: &str) -> (r: Result<(), StoreError>)
        requires
            old(self).wf(),
        ensures
            final(self).wf(),
            match create_refusal(old(self)@, username@, email@) {
                Some(e) => r == Err::<(), StoreError>(e) && final(self)@ == old(self)@,
                None => (r is Ok && account_added(old(self)@, final(self)@, username@, email@, credential@)) || (r
                    == Err::<(), StoreError>(StoreError::Unavailable) && final(self)@ == old(self)@),
            },
    {
        let n = self.accounts.len();
        let mut i: usize = 0;
        while i < n
            invariant
                n == self.accounts@.len(),
                self@ == old(self)@,
                rows_valid(self@),
                0 <= i <= n,
                forall|k: int| 0 <= k < i ==> (#[trigger] self@[k]).0 != username@ && self@[k].1 != email@,
            decreases n - i,
        {
            if self.accounts[i].username == username || self.accounts[i].email == email {
                assert(self@[i as int] == self.accounts@[i as int]@);
                return Err(StoreError::Conflict);
            }
            i += 1;
        }
        if username.unicode_len() == 0 || email.unicode_len() == 0 {
            return Err(StoreError::Invalid);
        }
        let stored = match new_stored_credential(credential) {
            Some(s) => s,
            None => {
                return Err(StoreError::Unavailable);
            },
        };
        let ghost before = self@;
        let ghost row = (username@, email@, stored.salt@, stored.hash@);
        self.accounts.push(Account { username, email, salt: stored.salt, hash: stored.hash });
        assert(self@ =~= before.push(row));
        assert(self@[before.len() as int] == row);
        Ok(())
    }

    /// Removes the account of `username`, if there is one. Removing an
    /// account that does not exist is no error.
    pub fn delete(&mut self, username: &String) -> (r: Result<(), StoreError>)
        requires
            old(self).wf(),
        ensures
            final(self).wf(),
            final(self)@ == delete_spec(old(self)@, username@),
            r is Ok,
    {
        let ghost old_rows = self@;
        let ghost keep = keeps_row(username@);
        let n = self.accounts.len();
        let mut kept: Vec<Account> = Vec::new();
        let mut i: usize = 0;
        while i < n
            invariant
                n == self.accounts@.len(),
                self@ == old_rows,
                rows_valid(old_rows),
                keep == keeps_row(username@),
                0 <= i <= n,
                rows_of(kept@) == old_rows.subrange(0, i as int).filter(keep),
                rows_valid(rows_of(kept@)),
                forall|k: int|
                    0 <= k < kept@.len() ==> exists|m: int|
                        0 <= m < i && #[trigger] rows_of(kept@)[k] == old_rows[m],
            decreases n - i,
        {
            assert(old_rows.subrange(0, i + 1) =~= old_rows.subrange(0, i as int).push(old_rows[i as int]));
            proof {
                old_rows.subrange(0, i as int).lemma_filter_push(old_rows[i as int], keep);
            }
            if self.accounts[i].username != *username {
                let a = &self.accounts[i];
                let copy = Account {
                    username: a.username.clone(),
                    email: a.email.clone(),
                    salt: a.salt.clone(),
                    hash: a.hash.clone(),
                };
                let ghost before = kept@;
                kept.push(copy);
                assert(rows_of(kept@) =~= rows_of(before).push(old_rows[i as int]));
                assert forall|p: int| 0 <= p < rows_of(kept@).len() implies (#[trigger] rows_of(kept@)[p]).0.len()
                    > 0 && rows_of(kept@)[p].1.len() > 0 by {
                    if p < before.len() {
                        assert(rows_of(before)[p] == rows_of(kept@)[p]);
                    }
                }
                assert forall|p: int, q: int|
                    0 <= p < rows_of(kept@).len() && 0 <= q < rows_of(kept@).len() && p != q
                    implies (#[trigger] rows_of(kept@)[p]).0 != (#[trigger] rows_of(kept@)[q]).0
                    && rows_of(kept@)[p].1 != rows_of(kept@)[q].1 by {
                    if p < before.len() && q < before.len() {
                        assert(rows_of(before)[p] == rows_of(kept@)[p]);
                        assert(rows_of(before)[q] == rows_of(kept@)[q]);
                    } else if p < before.len() {
                        assert(rows_of(before)[p] == rows_of(kept@)[p]);
                        let m = choose|m: int| 0 <= m < i && rows_of(before)[p] == old_rows[m];
                        assert(old_rows[m] == rows_of(kept@)[p]);
                    } else {
                        assert(rows_of(before)[q] == rows_of(kept@)[q]);
                        let m = choose|m: int| 0 <= m < i && rows_of(before)[q] == old_rows[m];
                        assert(old_rows[m] == rows_of(kept@)[q]);
                    }
                }
                assert forall|k: int| 0 <= k < kept@.len() implies exists|m: int|
                    0 <= m < i + 1 && #[trigger] rows_of(kept@)[k] == old_rows[m] by {
                    if k < before.len() {
                        assert(rows_of(before)[k] == rows_of(kept@)[k]);
                    } else {
                        assert(rows_of(kept@)[k] == old_rows[i as int]);
                    }
                }
            } else {
                assert(old_rows[i as int].0 == username@);
            }
            i += 1;
        }
        assert(old_rows.subrange(0, n as int) =~= old_rows);
        self.accounts = kept;
        Ok(())
    }

    /// The position of the account of `username` whose stored hash is that
    /// of `credential` under its salt, or `None` when there is none. A
    /// username alone never matches; hashes are compared in constant time.
    pub fn find_by_credentials(&self, username: &String, credential: &str) -> (r: Option<usize>)
        ensures
            r is None <==> !credentials_match(self@, username@, credential@),
            r matches Some(i) ==> i < self@.len() && self@[i as int].0 == username@
                && credential_hash(self@[i as int].2, credential@) == self@[i as int].3,
    {
        let n = self.accounts.len();
        let mut i: usize = 0;
        while i < n
            invariant
                n == self.accounts@.len(),
                0 <= i <= n,
                forall|k: int|
                    0 <= k < i ==> !((#[trigger] self@[k]).0 == username@ && credential_hash(self@[k].2, credential@)
                        == self@[k].3),
            decreases n - i,
        {
            let a = &self.accounts[i];
            assert(self@[i as int] == a@);
            if a.username == *username && credential_matches(a.salt.as_slice(), a.hash.as_slice(), credential) {
                return Some(i);
            }
            i += 1;
        }
        None
    }
}

} // verus!
