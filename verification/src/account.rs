use vstd::prelude::*;

use crate::db::Database;
use crate::db::DbView;
use crate::db::account_present;
use crate::db::account_present_kind;
use crate::db::credit_row_present;
use crate::db::currency_present;
use crate::db::index_of_account;
use crate::db::index_of_credit_row;
use crate::db::index_of_invest_row;
use crate::db::invest_row_present;
use crate::db::lemma_account_present_kind_push;
use crate::db::lemma_account_present_push;
use crate::db::lemma_filter_element_origin;
use crate::db::lemma_filter_keeps_distinct_key;
use crate::db::lemma_filter_keeps_matching;
use crate::db::lemma_filter_take_step;
use crate::error::StoreError;

verus! {

/// The tagged-union kind of an account. `Credit` and `Invest` carry a
/// type-specific extension row in their own table; `Debit` and `Member` do not.
#[derive(Clone, Copy, Debug, PartialEq, Eq, Structural)]
pub enum AccountKind {
    Debit,
    Member,
    Credit,
    Invest,
}

/// A row of the base `accounts` table. Monetary amounts are fixed-point
/// decimals with four fractional digits, held as a count of 1/10000 units.
pub struct AccountRow {
    pub id: i64,
    pub name: String,
    pub kind: AccountKind,
    pub balance: i64,
    pub currency: String,
    pub note: Option<String>,
    pub count_in_asset: bool,
}

/// The extension row of a credit account, linked 1:1 to its base row.
pub struct CreditRow {
    pub account_id: i64,
    pub credit_limit: i64,
    pub owed: i64,
    pub billing_date: String,
    pub due_date: String,
}

/// The extension row of an investment account, linked 1:1 to its base row.
#[derive(Clone, Copy, Debug, PartialEq, Eq, Structural)]
pub struct InvestRow {
    pub account_id: i64,
    pub avg_cost: i64,
    pub quantity: i64,
    pub total_cap: i64,
}

/// The caller's payload for creating or updating an account. The
/// variant-specific fields are optional: whether the ones the chosen kind
/// requires are all present is exactly what validation checks.
pub struct NewAccount {
    pub name: String,
    pub kind: AccountKind,
    pub balance: i64,
    pub currency: String,
    pub note: Option<String>,
    pub count_in_asset: bool,
    pub credit_limit: Option<i64>,
    pub owed: Option<i64>,
    pub billing_date: Option<String>,
    pub due_date: Option<String>,
    pub avg_cost: Option<i64>,
    pub quantity: Option<i64>,
    pub total_cap: Option<i64>,
}

/// A fully hydrated account as the read operation returns it: the base fields
/// joined with the extension fields of the account's own variant, every other
/// extension field absent.
pub struct Account {
    pub id: i64,
    pub name: String,
    pub account_type: AccountKind,
    pub balance: i64,
    pub currency: String,
    pub note: Option<String>,
    pub count_in_asset: bool,
    pub credit_limit: Option<i64>,
    pub owed: Option<i64>,
    pub billing_date: Option<String>,
    pub due_date: Option<String>,
    pub avg_cost: Option<i64>,
    pub quantity: Option<i64>,
    pub total_cap: Option<i64>,
}

/// Validation of the create/update payload: the fields that the chosen
/// variant requires must all be present. Fields of other variants are ignored.
pub open spec fn new_account_valid(a: NewAccount) -> bool {
    match a.kind {
        AccountKind::Credit => a.credit_limit is Some && a.owed is Some && a.billing_date is Some
            && a.due_date is Some,
        AccountKind::Invest => a.avg_cost is Some && a.quantity is Some && a.total_cap is Some,
        _ => true,
    }
}

/// Keeps every account row but the one with the given id.
pub open spec fn account_row_kept(id: i64) -> spec_fn(AccountRow) -> bool {
    |a: AccountRow| a.id != id
}

/// Keeps every credit extension row not belonging to the given account.
pub open spec fn credit_row_kept(id: i64) -> spec_fn(CreditRow) -> bool {
    |c: CreditRow| c.account_id != id
}

/// Keeps every invest extension row not belonging to the given account.
pub open spec fn invest_row_kept(id: i64) -> spec_fn(InvestRow) -> bool {
    |c: InvestRow| c.account_id != id
}

impl AccountRow {
    /// An equal copy of the row.
    pub fn duplicate(&self) -> (r: AccountRow)
        ensures
            r == *self,
    {
        AccountRow {
            id: self.id,
            name: self.name.clone(),
            kind: self.kind,
            balance: self.balance,
            currency: self.currency.clone(),
            note: crate::db::copy_opt_string(&self.note),
            count_in_asset: self.count_in_asset,
        }
    }
}

impl CreditRow {
    /// An equal copy of the row.
    pub fn duplicate(&self) -> (r: CreditRow)
        ensures
            r == *self,
    {
        CreditRow {
            account_id: self.account_id,
            credit_limit: self.credit_limit,
            owed: self.owed,
            billing_date: self.billing_date.clone(),
            due_date: self.due_date.clone(),
        }
    }
}

impl Database {
    /// The position of the account row carrying this id, if any.
    pub(crate) fn account_index_by_id(&self, id: i64) -> (r: Option<usize>)
        ensures
            match r {
                Some(i) => i < self@.accounts.len() && self@.accounts[i as int].id == id,
                None => !account_present(self@.accounts, id),
            },
    {
        let mut i: usize = 0;
        while i < self.accounts.len()
            invariant
                i <= self.accounts@.len(),
                forall|k: int| 0 <= k < i ==> self.accounts@[k].id != id,
            decreases self.accounts@.len() - i,
        {
            if self.accounts[i].id == id {
                return Some(i);
            }
            i = i + 1;
        }
        None
    }

    /// The position of the credit extension row for this account, if any.
    pub(crate) fn credit_index_by_id(&self, id: i64) -> (r: Option<usize>)
        ensures
            match r {
                Some(i) => i < self@.credit_rows.len() && self@.credit_rows[i as int].account_id
                    == id,
                None => !credit_row_present(self@.credit_rows, id),
            },
    {
        let mut i: usize = 0;
        while i < self.credit_rows.len()
            invariant
                i <= self.credit_rows@.len(),
                forall|k: int| 0 <= k < i ==> self.credit_rows@[k].account_id != id,
            decreases self.credit_rows@.len() - i,
        {
            if self.credit_rows[i].account_id == id {
                return Some(i);
            }
            i = i + 1;
        }
        None
    }

    /// The position of the invest extension row for this account, if any.
    pub(crate) fn invest_index_by_id(&self, id: i64) -> (r: Option<usize>)
        ensures
            match r {
                Some(i) => i < self@.invest_rows.len() && self@.invest_rows[i as int].account_id
                    == id,
                None => !invest_row_present(self@.invest_rows, id),
            },
    {
        let mut i: usize = 0;
        while i < self.invest_rows.len()
            invariant
                i <= self.invest_rows@.len(),
                forall|k: int| 0 <= k < i ==> self.invest_rows@[k].account_id != id,
            decreases self.invest_rows@.len() - i,
        {
            if self.invest_rows[i].account_id == id {
                return Some(i);
            }
            i = i + 1;
        }
        None
    }

    /// Removes every account row with this id (one at most, under the
    /// invariant).
    pub(crate) fn remove_account_rows(&mut self, id: i64)
        ensures
            final(self)@ == (DbView {
                accounts: old(self)@.accounts.filter(account_row_kept(id)),
                ..old(self)@
            }),
    {
        let mut kept: Vec<AccountRow> = Vec::new();
        let mut i: usize = 0;
        while i < self.accounts.len()
            invariant
                i <= self.accounts@.len(),
                kept@ == self.accounts@.take(i as int).filter(account_row_kept(id)),
            decreases self.accounts@.len() - i,
        {
            proof {
                lemma_filter_take_step(self.accounts@, account_row_kept(id), i as int);
            }
            if self.accounts[i].id != id {
                kept.push(self.accounts[i].duplicate());
            }
            i = i + 1;
        }
        proof {
            assert(self.accounts@.take(self.accounts@.len() as int) =~= self.accounts@);
        }
        self.accounts = kept;
        proof {
            assert(self@ =~= (DbView {
                accounts: old(self)@.accounts.filter(account_row_kept(id)),
                ..old(self)@
            }));
        }
    }

    /// Removes every credit extension row of this account (one at most).
    pub(crate) fn remove_credit_rows(&mut self, id: i64)
        ensures
            final(self)@ == (DbView {
                credit_rows: old(self)@.credit_rows.filter(credit_row_kept(id)),
                ..old(self)@
            }),
    {
        let mut kept: Vec<CreditRow> = Vec::new();
        let mut i: usize = 0;
        while i < self.credit_rows.len()
            invariant
                i <= self.credit_rows@.len(),
                kept@ == self.credit_rows@.take(i as int).filter(credit_row_kept(id)),
            decreases self.credit_rows@.len() - i,
        {
            proof {
                lemma_filter_take_step(self.credit_rows@, credit_row_kept(id), i as int);
            }
            if self.credit_rows[i].account_id != id {
                kept.push(self.credit_rows[i].duplicate());
            }
            i = i + 1;
        }
        proof {
            assert(self.credit_rows@.take(self.credit_rows@.len() as int) =~= self.credit_rows@);
        }
        self.credit_rows = kept;
        proof {
            assert(self@ =~= (DbView {
                credit_rows: old(self)@.credit_rows.filter(credit_row_kept(id)),
                ..old(self)@
            }));
        }
    }

    /// Removes every invest extension row of this account (one at most).
    pub(crate) fn remove_invest_rows(&mut self, id: i64)
        ensures
            final(self)@ == (DbView {
                invest_rows: old(self)@.invest_rows.filter(invest_row_kept(id)),
                ..old(self)@
            }),
    {
        let mut kept: Vec<InvestRow> = Vec::new();
        let mut i: usize = 0;
        while i < self.invest_rows.len()
            invariant
                i <= self.invest_rows@.len(),
                kept@ == self.invest_rows@.take(i as int).filter(invest_row_kept(id)),
            decreases self.invest_rows@.len() - i,
        {
            proof {
                lemma_filter_take_step(self.invest_rows@, invest_row_kept(id), i as int);
            }
            if self.invest_rows[i].account_id != id {
                kept.push(self.invest_rows[i]);
            }
            i = i + 1;
        }
        proof {
            assert(self.invest_rows@.take(self.invest_rows@.len() as int) =~= self.invest_rows@);
        }
        self.invest_rows = kept;
        proof {
            assert(self@ =~= (DbView {
                invest_rows: old(self)@.invest_rows.filter(invest_row_kept(id)),
                ..old(self)@
            }));
        }
    }
}

/// The base-table row a payload writes under a given id.
pub open spec fn base_row_of(input: NewAccount, id: i64) -> AccountRow {
    AccountRow {
        id,
        name: input.name,
        kind: input.kind,
        balance: input.balance,
        currency: input.currency,
        note: input.note,
        count_in_asset: input.count_in_asset,
    }
}

/// The credit extension row a valid credit payload writes.
pub open spec fn credit_row_of(input: NewAccount, id: i64) -> CreditRow {
    CreditRow {
        account_id: id,
        credit_limit: input.credit_limit.unwrap(),
        owed: input.owed.unwrap(),
        billing_date: input.billing_date.unwrap(),
        due_date: input.due_date.unwrap(),
    }
}

/// The invest extension row a valid invest payload writes.
pub open spec fn invest_row_of(input: NewAccount, id: i64) -> InvestRow {
    InvestRow {
        account_id: id,
        avg_cost: input.avg_cost.unwrap(),
        quantity: input.quantity.unwrap(),
        total_cap: input.total_cap.unwrap(),
    }
}

/// The credit table after an update: the matching extension row replaced or
/// inserted for the credit variant, and any stale row of this account removed
/// for every other variant.
pub open spec fn credit_rows_after(rows: Seq<CreditRow>, input: NewAccount, id: i64) -> Seq<
    CreditRow,
> {
    if input.kind == AccountKind::Credit {
        if credit_row_present(rows, id) {
            rows.update(index_of_credit_row(rows, id), credit_row_of(input, id))
        } else {
            rows.push(credit_row_of(input, id))
        }
    } else {
        rows.filter(credit_row_kept(id))
    }
}

/// The invest table after an update, as `credit_rows_after` for its variant.
pub open spec fn invest_rows_after(rows: Seq<InvestRow>, input: NewAccount, id: i64) -> Seq<
    InvestRow,
> {
    if input.kind == AccountKind::Invest {
        if invest_row_present(rows, id) {
            rows.update(index_of_invest_row(rows, id), invest_row_of(input, id))
        } else {
            rows.push(invest_row_of(input, id))
        }
    } else {
        rows.filter(invest_row_kept(id))
    }
}

/// How a returned account relates to its base row: the base fields equal, the
/// extension fields of the row's own variant populated from its extension
/// row, and every other extension field absent.
pub open spec fn account_hydrated(v: DbView, row: AccountRow, a: Account) -> bool {
    &&& a.id == row.id
    &&& a.name == row.name
    &&& a.account_type == row.kind
    &&& a.balance == row.balance
    &&& a.currency == row.currency
    &&& a.note == row.note
    &&& a.count_in_asset == row.count_in_asset
    &&& match row.kind {
        AccountKind::Credit => {
            let c = v.credit_rows[index_of_credit_row(v.credit_rows, row.id)];
            a.credit_limit == Some(c.credit_limit) && a.owed == Some(c.owed) && a.billing_date
                == Some(c.billing_date) && a.due_date == Some(c.due_date) && a.avg_cost is None
                && a.quantity is None && a.total_cap is None
        },
        AccountKind::Invest => {
            let iv = v.invest_rows[index_of_invest_row(v.invest_rows, row.id)];
            a.avg_cost == Some(iv.avg_cost) && a.quantity == Some(iv.quantity) && a.total_cap
                == Some(iv.total_cap) && a.credit_limit is None && a.owed is None
                && a.billing_date is None && a.due_date is None
        },
        _ => {
            a.credit_limit is None && a.owed is None && a.billing_date is None && a.due_date
                is None && a.avg_cost is None && a.quantity is None && a.total_cap is None
        },
    }
}

impl Database {
    /// Creates an account. A payload whose variant misses any required field
    /// fails with `Validation` and writes nothing at all; an unknown currency
    /// fails with `Constraint` the same way, and an exhausted id counter with
    /// `Storage`. On success exactly one base row is written and, for the
    /// credit and invest variants, exactly one matching extension row under
    /// the same fresh id.
    pub fn create_account(&mut self, input: NewAccount) -> (r: Result<i64, StoreError>)
        requires
            old(self)@.inv(),
        ensures
            final(self)@.inv(),
            match r {
                Ok(id) => new_account_valid(input) && currency_present(
                    old(self)@.currencies,
                    input.currency@,
                ) && old(self)@.next_account_id < i64::MAX && id as int == old(
                    self,
                )@.next_account_id && final(self)@ == (DbView {
                    accounts: old(self)@.accounts.push(base_row_of(input, id)),
                    credit_rows: if input.kind == AccountKind::Credit {
                        old(self)@.credit_rows.push(credit_row_of(input, id))
                    } else {
                        old(self)@.credit_rows
                    },
                    invest_rows: if input.kind == AccountKind::Invest {
                        old(self)@.invest_rows.push(invest_row_of(input, id))
                    } else {
                        old(self)@.invest_rows
                    },
                    next_account_id: old(self)@.next_account_id + 1,
                    ..old(self)@
                }),
                Err(e) => final(self)@ == old(self)@ && ((e == StoreError::Validation
                    && !new_account_valid(input)) || (e == StoreError::Storage
                    && new_account_valid(input) && old(self)@.next_account_id == i64::MAX) || (e
                    == StoreError::Constraint && new_account_valid(input) && old(
                    self,
                )@.next_account_id < i64::MAX && !currency_present(
                    old(self)@.currencies,
                    input.currency@,
                ))),
            },
    {
        let valid = match input.kind {
            AccountKind::Credit => input.credit_limit.is_some() && input.owed.is_some()
                && input.billing_date.is_some() && input.due_date.is_some(),
            AccountKind::Invest => input.avg_cost.is_some() && input.quantity.is_some()
                && input.total_cap.is_some(),
            _ => true,
        };
        if !valid {
            return Err(StoreError::Validation);
        }
        if self.next_account_id == i64::MAX {
            return Err(StoreError::Storage);
        }
        if !self.currency_exists(&input.currency) {
            return Err(StoreError::Constraint);
        }
        let ghost pre = self@;
        let ghost inputg = input;
        let NewAccount {
            name,
            kind,
            balance,
            currency,
            note,
            count_in_asset,
            credit_limit,
            owed,
            billing_date,
            due_date,
            avg_cost,
            quantity,
            total_cap,
        } = input;
        let id = self.next_account_id;
        self.accounts.push(
            AccountRow { id, name, kind, balance, currency, note, count_in_asset },
        );
        self.next_account_id = id + 1;
        match kind {
            AccountKind::Credit => {
                match (credit_limit, owed, billing_date, due_date) {
                    (Some(cl), Some(ow), Some(bd), Some(dd)) => {
                        self.credit_rows.push(
                            CreditRow {
                                account_id: id,
                                credit_limit: cl,
                                owed: ow,
                                billing_date: bd,
                                due_date: dd,
                            },
                        );
                    },
                    _ => {
                        proof {
                            assert(false);
                        }
                    },
                }
            },
            AccountKind::Invest => {
                match (avg_cost, quantity, total_cap) {
                    (Some(ac), Some(qt), Some(tc)) => {
                        self.invest_rows.push(
                            InvestRow { account_id: id, avg_cost: ac, quantity: qt, total_cap: tc },
                        );
                    },
                    _ => {
                        proof {
                            assert(false);
                        }
                    },
                }
            },
            _ => {},
        }
        proof {
            self.lemma_create_account_inv(pre, inputg, id);
        }
        Ok(id)
    }

    /// The invariant is restored after the pushes of account creation.
    proof fn lemma_create_account_inv(&self, pre: DbView, input: NewAccount, id: i64)
        requires
            pre.inv(),
            new_account_valid(input),
            currency_present(pre.currencies, input.currency@),
            id as int == pre.next_account_id,
            pre.next_account_id < i64::MAX,
            self@ == (DbView {
                accounts: pre.accounts.push(base_row_of(input, id)),
                credit_rows: if input.kind == AccountKind::Credit {
                    pre.credit_rows.push(credit_row_of(input, id))
                } else {
                    pre.credit_rows
                },
                invest_rows: if input.kind == AccountKind::Invest {
                    pre.invest_rows.push(invest_row_of(input, id))
                } else {
                    pre.invest_rows
                },
                next_account_id: pre.next_account_id + 1,
                ..pre
            }),
        ensures
            self@.inv(),
    {
        let post = self@;
        let n = post.accounts.len();
        // every old extension row belongs to an old account, whose id is below
        // the fresh one
        assert forall|w: int|
            0 <= w < pre.credit_rows.len() implies pre.credit_rows[w].account_id != id by {
            let v = choose|v: int|
                0 <= v < pre.accounts.len() && pre.accounts[v].id == pre.credit_rows[w].account_id
                    && pre.accounts[v].kind == AccountKind::Credit;
        }
        assert forall|w: int|
            0 <= w < pre.invest_rows.len() implies pre.invest_rows[w].account_id != id by {
            let v = choose|v: int|
                0 <= v < pre.accounts.len() && pre.accounts[v].id == pre.invest_rows[w].account_id
                    && pre.accounts[v].kind == AccountKind::Invest;
        }
        assert forall|i: int, j: int|
            0 <= i < j < n implies post.accounts[i].id != post.accounts[j].id by {
            if j == n - 1 {
                assert(post.accounts[i] == pre.accounts[i]);
            }
        }
        assert forall|i: int| 0 <= i < n implies 1 <= (#[trigger] post.accounts[i].id)
            < post.next_account_id by {
            if i < n - 1 {
                assert(post.accounts[i] == pre.accounts[i]);
            }
        }
        assert forall|i: int| 0 <= i < n implies currency_present(
            post.currencies,
            #[trigger] post.accounts[i].currency@,
        ) by {
            if i < n - 1 {
                assert(post.accounts[i] == pre.accounts[i]);
            }
        }
        assert forall|i: int|
            0 <= i < n implies ((#[trigger] post.accounts[i].kind) == AccountKind::Credit
            <==> credit_row_present(post.credit_rows, post.accounts[i].id)) by {
            if i < n - 1 {
                assert(post.accounts[i] == pre.accounts[i]);
                if pre.accounts[i].kind == AccountKind::Credit {
                    let w = choose|w: int|
                        0 <= w < pre.credit_rows.len() && pre.credit_rows[w].account_id
                            == pre.accounts[i].id;
                    assert(post.credit_rows[w].account_id == pre.accounts[i].id);
                }
                if credit_row_present(post.credit_rows, post.accounts[i].id) {
                    let w = choose|w: int|
                        0 <= w < post.credit_rows.len() && post.credit_rows[w].account_id
                            == post.accounts[i].id;
                    if w < pre.credit_rows.len() {
                        assert(credit_row_present(pre.credit_rows, pre.accounts[i].id));
                    } else {
                        assert(post.credit_rows[w].account_id == id);
                        assert(pre.accounts[i].id < pre.next_account_id);
                    }
                }
            } else {
                if input.kind == AccountKind::Credit {
                    assert(post.credit_rows[post.credit_rows.len() - 1].account_id == id);
                }
                if credit_row_present(post.credit_rows, id) {
                    let w = choose|w: int|
                        0 <= w < post.credit_rows.len() && post.credit_rows[w].account_id == id;
                    if w < pre.credit_rows.len() {
                        assert(pre.credit_rows[w].account_id != id);
                    }
                }
            }
        }
        assert forall|i: int|
            0 <= i < n implies ((#[trigger] post.accounts[i].kind) == AccountKind::Invest
            <==> invest_row_present(post.invest_rows, post.accounts[i].id)) by {
            if i < n - 1 {
                assert(post.accounts[i] == pre.accounts[i]);
                if pre.accounts[i].kind == AccountKind::Invest {
                    let w = choose|w: int|
                        0 <= w < pre.invest_rows.len() && pre.invest_rows[w].account_id
                            == pre.accounts[i].id;
                    assert(post.invest_rows[w].account_id == pre.accounts[i].id);
                }
                if invest_row_present(post.invest_rows, post.accounts[i].id) {
                    let w = choose|w: int|
                        0 <= w < post.invest_rows.len() && post.invest_rows[w].account_id
                            == post.accounts[i].id;
                    if w < pre.invest_rows.len() {
                        assert(invest_row_present(pre.invest_rows, pre.accounts[i].id));
                    } else {
                        assert(post.invest_rows[w].account_id == id);
                        assert(pre.accounts[i].id < pre.next_account_id);
                    }
                }
            } else {
                if input.kind == AccountKind::Invest {
                    assert(post.invest_rows[post.invest_rows.len() - 1].account_id == id);
                }
                if invest_row_present(post.invest_rows, id) {
                    let w = choose|w: int|
                        0 <= w < post.invest_rows.len() && post.invest_rows[w].account_id == id;
                    if w < pre.invest_rows.len() {
                        assert(pre.invest_rows[w].account_id != id);
                    }
                }
            }
        }
        assert forall|i: int, j: int|
            0 <= i < j < post.credit_rows.len() implies post.credit_rows[i].account_id
            != post.credit_rows[j].account_id by {
            if j < pre.credit_rows.len() {
            } else {
                assert(post.credit_rows[i] == pre.credit_rows[i]);
            }
        }
        assert forall|i: int| 0 <= i < post.credit_rows.len() implies account_present_kind(
            post.accounts,
            #[trigger] post.credit_rows[i].account_id,
            AccountKind::Credit,
        ) by {
            if i < pre.credit_rows.len() {
                assert(post.credit_rows[i] == pre.credit_rows[i]);
                lemma_account_present_kind_push(
                    pre.accounts,
                    base_row_of(input, id),
                    pre.credit_rows[i].account_id,
                    AccountKind::Credit,
                );
            } else {
                assert(post.accounts[n - 1].id == id && post.accounts[n - 1].kind
                    == AccountKind::Credit);
            }
        }
        assert forall|i: int, j: int|
            0 <= i < j < post.invest_rows.len() implies post.invest_rows[i].account_id
            != post.invest_rows[j].account_id by {
            if j < pre.invest_rows.len() {
            } else {
                assert(post.invest_rows[i] == pre.invest_rows[i]);
            }
        }
        assert forall|i: int| 0 <= i < post.invest_rows.len() implies account_present_kind(
            post.accounts,
            #[trigger] post.invest_rows[i].account_id,
            AccountKind::Invest,
        ) by {
            if i < pre.invest_rows.len() {
                assert(post.invest_rows[i] == pre.invest_rows[i]);
                lemma_account_present_kind_push(
                    pre.accounts,
                    base_row_of(input, id),
                    pre.invest_rows[i].account_id,
                    AccountKind::Invest,
                );
            } else {
                assert(post.accounts[n - 1].id == id && post.accounts[n - 1].kind
                    == AccountKind::Invest);
            }
        }
        assert forall|i: int|
            0 <= i < post.ledgers.len() && (#[trigger] post.ledgers[i].base_account) is Some implies
            account_present(post.accounts, post.ledgers[i].base_account.unwrap()) by {
            lemma_account_present_push(
                pre.accounts,
                base_row_of(input, id),
                post.ledgers[i].base_account.unwrap(),
            );
        }
        assert forall|i: int| 0 <= i < post.transactions.len() implies account_present(
            post.accounts,
            #[trigger] post.transactions[i].account_id,
        ) by {
            lemma_account_present_push(
                pre.accounts,
                base_row_of(input, id),
                post.transactions[i].account_id,
            );
        }
    }

    /// Reads every account, the base fields joined with the extension fields
    /// of each account's own variant; extension columns of a non-matching
    /// variant never leak into the result.
    pub fn read_accounts(&self) -> (r: Vec<Account>)
        requires
            self@.inv(),
        ensures
            r@.len() == self@.accounts.len(),
            forall|i: int|
                0 <= i < r@.len() ==> account_hydrated(self@, self@.accounts[i], #[trigger] r@[i]),
    {
        let mut out: Vec<Account> = Vec::new();
        let mut i: usize = 0;
        while i < self.accounts.len()
            invariant
                self@.inv(),
                i <= self.accounts@.len(),
                out@.len() == i,
                forall|j: int|
                    0 <= j < i ==> account_hydrated(
                        self@,
                        self@.accounts[j],
                        #[trigger] out@[j],
                    ),
            decreases self.accounts@.len() - i,
        {
            let row = self.accounts[i].duplicate();
            let mut credit_limit: Option<i64> = None;
            let mut owed: Option<i64> = None;
            let mut billing_date: Option<String> = None;
            let mut due_date: Option<String> = None;
            let mut avg_cost: Option<i64> = None;
            let mut quantity: Option<i64> = None;
            let mut total_cap: Option<i64> = None;
            match row.kind {
                AccountKind::Credit => {
                    match self.credit_index_by_id(row.id) {
                        Some(ci) => {
                            proof {
                                let w = index_of_credit_row(self@.credit_rows, row.id);
                                assert(self@.credit_rows[w].account_id == row.id);
                                if w != ci as int {
                                    assert(false);
                                }
                            }
                            let c = &self.credit_rows[ci];
                            credit_limit = Some(c.credit_limit);
                            owed = Some(c.owed);
                            billing_date = Some(c.billing_date.clone());
                            due_date = Some(c.due_date.clone());
                        },
                        None => {
                            proof {
                                assert(false);
                            }
                        },
                    }
                },
                AccountKind::Invest => {
                    match self.invest_index_by_id(row.id) {
                        Some(vi) => {
                            proof {
                                let w = index_of_invest_row(self@.invest_rows, row.id);
                                assert(self@.invest_rows[w].account_id == row.id);
                                if w != vi as int {
                                    assert(false);
                                }
                            }
                            let c = self.invest_rows[vi];
                            avg_cost = Some(c.avg_cost);
                            quantity = Some(c.quantity);
                            total_cap = Some(c.total_cap);
                        },
                        None => {
                            proof {
                                assert(false);
                            }
                        },
                    }
                },
                _ => {},
            }
            out.push(
                Account {
                    id: row.id,
                    name: row.name,
                    account_type: row.kind,
                    balance: row.balance,
                    currency: row.currency,
                    note: row.note,
                    count_in_asset: row.count_in_asset,
                    credit_limit,
                    owed,
                    billing_date,
                    due_date,
                    avg_cost,
                    quantity,
                    total_cap,
                },
            );
            i = i + 1;
        }
        out
    }

    /// Replaces the base fields of an account and brings the extension tables
    /// in line with the new variant: the matching row is replaced or
    /// inserted, and a stale row of any other variant is deleted in the same
    /// step. A payload with missing variant fields fails with `Validation`
    /// leaving the previous state fully intact; updating an absent id
    /// succeeds and changes nothing, as an update of no rows does at the
    /// storage layer.
    pub fn update_account(&mut self, account_id: i64, input: NewAccount) -> (r: Result<
        (),
        StoreError,
    >)
        requires
            old(self)@.inv(),
        ensures
            final(self)@.inv(),
            match r {
                Ok(()) => new_account_valid(input) && (if account_present(
                    old(self)@.accounts,
                    account_id,
                ) {
                    currency_present(old(self)@.currencies, input.currency@) && final(self)@ == (
                    DbView {
                        accounts: old(self)@.accounts.update(
                            index_of_account(old(self)@.accounts, account_id),
                            base_row_of(input, account_id),
                        ),
                        credit_rows: credit_rows_after(old(self)@.credit_rows, input, account_id),
                        invest_rows: invest_rows_after(old(self)@.invest_rows, input, account_id),
                        ..old(self)@
                    })
                } else {
                    final(self)@ == old(self)@
                }),
                Err(e) => final(self)@ == old(self)@ && ((e == StoreError::Validation
                    && !new_account_valid(input)) || (e == StoreError::Constraint
                    && new_account_valid(input) && account_present(
                    old(self)@.accounts,
                    account_id,
                ) && !currency_present(old(self)@.currencies, input.currency@))),
            },
    {
        let valid = match input.kind {
            AccountKind::Credit => input.credit_limit.is_some() && input.owed.is_some()
                && input.billing_date.is_some() && input.due_date.is_some(),
            AccountKind::Invest => input.avg_cost.is_some() && input.quantity.is_some()
                && input.total_cap.is_some(),
            _ => true,
        };
        if !valid {
            return Err(StoreError::Validation);
        }
        let idx = match self.account_index_by_id(account_id) {
            Some(i) => i,
            None => {
                return Ok(());
            },
        };
        if !self.currency_exists(&input.currency) {
            return Err(StoreError::Constraint);
        }
        let ghost pre = self@;
        let ghost inputg = input;
        let NewAccount {
            name,
            kind,
            balance,
            currency,
            note,
            count_in_asset,
            credit_limit,
            owed,
            billing_date,
            due_date,
            avg_cost,
            quantity,
            total_cap,
        } = input;
        self.accounts[idx] = AccountRow {
            id: account_id,
            name,
            kind,
            balance,
            currency,
            note,
            count_in_asset,
        };
        proof {
            let w = index_of_account(pre.accounts, account_id);
            assert(pre.accounts[idx as int].id == account_id);
            if w != idx as int {
                assert(false);
            }
        }
        match kind {
            AccountKind::Credit => {
                match (credit_limit, owed, billing_date, due_date) {
                    (Some(cl), Some(ow), Some(bd), Some(dd)) => {
                        let newc = CreditRow {
                            account_id,
                            credit_limit: cl,
                            owed: ow,
                            billing_date: bd,
                            due_date: dd,
                        };
                        match self.credit_index_by_id(account_id) {
                            Some(ci) => {
                                proof {
                                    let v = index_of_credit_row(pre.credit_rows, account_id);
                                    assert(pre.credit_rows[ci as int].account_id == account_id);
                                    if v != ci as int {
                                        assert(false);
                                    }
                                }
                                self.credit_rows[ci] = newc;
                            },
                            None => {
                                self.credit_rows.push(newc);
                            },
                        }
                    },
                    _ => {
                        proof {
                            assert(false);
                        }
                    },
                }
                self.remove_invest_rows(account_id);
            },
            AccountKind::Invest => {
                match (avg_cost, quantity, total_cap) {
                    (Some(ac), Some(qt), Some(tc)) => {
                        let newv = InvestRow {
                            account_id,
                            avg_cost: ac,
                            quantity: qt,
                            total_cap: tc,
                        };
                        match self.invest_index_by_id(account_id) {
                            Some(vi) => {
                                proof {
                                    let v = index_of_invest_row(pre.invest_rows, account_id);
                                    assert(pre.invest_rows[vi as int].account_id == account_id);
                                    if v != vi as int {
                                        assert(false);
                                    }
                                }
                                self.invest_rows[vi] = newv;
                            },
                            None => {
                                self.invest_rows.push(newv);
                            },
                        }
                    },
                    _ => {
                        proof {
                            assert(false);
                        }
                    },
                }
                self.remove_credit_rows(account_id);
            },
            _ => {
                self.remove_credit_rows(account_id);
                self.remove_invest_rows(account_id);
            },
        }
        proof {
            assert(self@ =~= (DbView {
                accounts: pre.accounts.update(
                    index_of_account(pre.accounts, account_id),
                    base_row_of(inputg, account_id),
                ),
                credit_rows: credit_rows_after(pre.credit_rows, inputg, account_id),
                invest_rows: invest_rows_after(pre.invest_rows, inputg, account_id),
                ..pre
            }));
            self.lemma_update_account_inv(pre, inputg, account_id, idx as int);
        }
        Ok(())
    }

    /// The invariant is restored after the writes of an account update.
    proof fn lemma_update_account_inv(&self, pre: DbView, input: NewAccount, account_id: i64, idx: int)
        requires
            pre.inv(),
            new_account_valid(input),
            currency_present(pre.currencies, input.currency@),
            0 <= idx < pre.accounts.len(),
            pre.accounts[idx].id == account_id,
            idx == index_of_account(pre.accounts, account_id),
            self@ == (DbView {
                accounts: pre.accounts.update(idx, base_row_of(input, account_id)),
                credit_rows: credit_rows_after(pre.credit_rows, input, account_id),
                invest_rows: invest_rows_after(pre.invest_rows, input, account_id),
                ..pre
            }),
        ensures
            self@.inv(),
    {
        let post = self@;
        let n = post.accounts.len();
        let ckept = pre.credit_rows.filter(credit_row_kept(account_id));
        let vkept = pre.invest_rows.filter(invest_row_kept(account_id));
        // account ids are unchanged position by position
        assert forall|k: int| 0 <= k < n implies post.accounts[k].id == pre.accounts[k].id by {}
        // other accounts reference other extension rows; ours are rebuilt
        if input.kind != AccountKind::Credit {
            lemma_filter_keeps_distinct_key(
                pre.credit_rows,
                credit_row_kept(account_id),
                |c: CreditRow| c.account_id,
            );
            assert forall|i: int| 0 <= i < ckept.len() implies (#[trigger] ckept[i].account_id)
                != account_id && credit_row_present(pre.credit_rows, ckept[i].account_id) by {
                lemma_filter_element_origin(pre.credit_rows, credit_row_kept(account_id), i);
                let w = choose|w: int|
                    0 <= w < pre.credit_rows.len() && pre.credit_rows[w] == ckept[i];
            }
        }
        if input.kind != AccountKind::Invest {
            lemma_filter_keeps_distinct_key(
                pre.invest_rows,
                invest_row_kept(account_id),
                |c: InvestRow| c.account_id,
            );
            assert forall|i: int| 0 <= i < vkept.len() implies (#[trigger] vkept[i].account_id)
                != account_id && invest_row_present(pre.invest_rows, vkept[i].account_id) by {
                lemma_filter_element_origin(pre.invest_rows, invest_row_kept(account_id), i);
                let w = choose|w: int|
                    0 <= w < pre.invest_rows.len() && pre.invest_rows[w] == vkept[i];
            }
        }
        // the credit table after the write holds an entry for an id exactly
        // when the old one did for other ids, and for ours exactly under the
        // credit variant
        assert forall|a: i64|
            a != account_id implies (credit_row_present(post.credit_rows, a)
            <==> credit_row_present(pre.credit_rows, a)) by {
            if credit_row_present(pre.credit_rows, a) {
                let w = choose|w: int|
                    0 <= w < pre.credit_rows.len() && pre.credit_rows[w].account_id == a;
                if input.kind == AccountKind::Credit {
                    assert(post.credit_rows[w].account_id == a);
                } else {
                    assert(credit_row_kept(account_id)(pre.credit_rows[w]));
                    lemma_filter_keeps_matching(pre.credit_rows, credit_row_kept(account_id), w);
                }
            }
            if credit_row_present(post.credit_rows, a) {
                let w = choose|w: int|
                    0 <= w < post.credit_rows.len() && post.credit_rows[w].account_id == a;
                if input.kind == AccountKind::Credit {
                    if credit_row_present(pre.credit_rows, account_id) {
                        assert(pre.credit_rows[w].account_id == a);
                    } else {
                        if w < pre.credit_rows.len() {
                            assert(pre.credit_rows[w].account_id == a);
                        }
                    }
                } else {
                    lemma_filter_element_origin(pre.credit_rows, credit_row_kept(account_id), w);
                    let v = choose|v: int|
                        0 <= v < pre.credit_rows.len() && pre.credit_rows[v]
                            == post.credit_rows[w];
                }
            }
        }
        assert forall|a: i64|
            a != account_id implies (invest_row_present(post.invest_rows, a)
            <==> invest_row_present(pre.invest_rows, a)) by {
            if invest_row_present(pre.invest_rows, a) {
                let w = choose|w: int|
                    0 <= w < pre.invest_rows.len() && pre.invest_rows[w].account_id == a;
                if input.kind == AccountKind::Invest {
                    assert(post.invest_rows[w].account_id == a);
                } else {
                    assert(invest_row_kept(account_id)(pre.invest_rows[w]));
                    lemma_filter_keeps_matching(pre.invest_rows, invest_row_kept(account_id), w);
                }
            }
            if invest_row_present(post.invest_rows, a) {
                let w = choose|w: int|
                    0 <= w < post.invest_rows.len() && post.invest_rows[w].account_id == a;
                if input.kind == AccountKind::Invest {
                    if invest_row_present(pre.invest_rows, account_id) {
                        assert(pre.invest_rows[w].account_id == a);
                    } else {
                        if w < pre.invest_rows.len() {
                            assert(pre.invest_rows[w].account_id == a);
                        }
                    }
                } else {
                    lemma_filter_element_origin(pre.invest_rows, invest_row_kept(account_id), w);
                    let v = choose|v: int|
                        0 <= v < pre.invest_rows.len() && pre.invest_rows[v]
                            == post.invest_rows[w];
                }
            }
        }
        // presence of an entry for our id matches the new variant
        assert(credit_row_present(post.credit_rows, account_id) <==> input.kind
            == AccountKind::Credit) by {
            if input.kind == AccountKind::Credit {
                if credit_row_present(pre.credit_rows, account_id) {
                    let v = index_of_credit_row(pre.credit_rows, account_id);
                    assert(post.credit_rows[v].account_id == account_id);
                } else {
                    assert(post.credit_rows[post.credit_rows.len() - 1].account_id == account_id);
                }
            } else {
                if credit_row_present(post.credit_rows, account_id) {
                    let w = choose|w: int|
                        0 <= w < post.credit_rows.len() && post.credit_rows[w].account_id
                            == account_id;
                }
            }
        }
        assert(invest_row_present(post.invest_rows, account_id) <==> input.kind
            == AccountKind::Invest) by {
            if input.kind == AccountKind::Invest {
                if invest_row_present(pre.invest_rows, account_id) {
                    let v = index_of_invest_row(pre.invest_rows, account_id);
                    assert(post.invest_rows[v].account_id == account_id);
                } else {
                    assert(post.invest_rows[post.invest_rows.len() - 1].account_id == account_id);
                }
            } else {
                if invest_row_present(post.invest_rows, account_id) {
                    let w = choose|w: int|
                        0 <= w < post.invest_rows.len() && post.invest_rows[w].account_id
                            == account_id;
                }
            }
        }
        // accounts_wf
        assert forall|i: int, j: int|
            0 <= i < j < n implies post.accounts[i].id != post.accounts[j].id by {}
        assert forall|i: int| 0 <= i < n implies 1 <= (#[trigger] post.accounts[i].id)
            < post.next_account_id by {}
        assert forall|i: int| 0 <= i < n implies currency_present(
            post.currencies,
            #[trigger] post.accounts[i].currency@,
        ) by {
            if i != idx {
                assert(post.accounts[i] == pre.accounts[i]);
            }
        }
        assert forall|i: int|
            0 <= i < n implies ((#[trigger] post.accounts[i].kind) == AccountKind::Credit
            <==> credit_row_present(post.credit_rows, post.accounts[i].id)) by {
            if i != idx {
                assert(post.accounts[i] == pre.accounts[i]);
                assert(post.accounts[i].id != account_id);
            }
        }
        assert forall|i: int|
            0 <= i < n implies ((#[trigger] post.accounts[i].kind) == AccountKind::Invest
            <==> invest_row_present(post.invest_rows, post.accounts[i].id)) by {
            if i != idx {
                assert(post.accounts[i] == pre.accounts[i]);
                assert(post.accounts[i].id != account_id);
            }
        }
        // credit_rows_wf
        assert forall|i: int, j: int|
            0 <= i < j < post.credit_rows.len() implies post.credit_rows[i].account_id
            != post.credit_rows[j].account_id by {
            if input.kind == AccountKind::Credit {
                if !credit_row_present(pre.credit_rows, account_id) && j == post.credit_rows.len()
                    - 1 {
                    assert(post.credit_rows[i] == pre.credit_rows[i]);
                }
            }
        }
        assert forall|i: int| 0 <= i < post.credit_rows.len() implies account_present_kind(
            post.accounts,
            #[trigger] post.credit_rows[i].account_id,
            AccountKind::Credit,
        ) by {
            if post.credit_rows[i].account_id == account_id {
                assert(post.accounts[idx].id == account_id && post.accounts[idx].kind
                    == AccountKind::Credit);
            } else {
                let a = post.credit_rows[i].account_id;
                assert(credit_row_present(post.credit_rows, a));
                assert(credit_row_present(pre.credit_rows, a));
                let w = choose|w: int|
                    0 <= w < pre.credit_rows.len() && pre.credit_rows[w].account_id == a;
                let v = choose|v: int|
                    0 <= v < pre.accounts.len() && pre.accounts[v].id == a && pre.accounts[v].kind
                        == AccountKind::Credit;
                assert(v != idx);
                assert(post.accounts[v] == pre.accounts[v]);
            }
        }
        // invest_rows_wf
        assert forall|i: int, j: int|
            0 <= i < j < post.invest_rows.len() implies post.invest_rows[i].account_id
            != post.invest_rows[j].account_id by {
            if input.kind == AccountKind::Invest {
                if !invest_row_present(pre.invest_rows, account_id) && j == post.invest_rows.len()
                    - 1 {
                    assert(post.invest_rows[i] == pre.invest_rows[i]);
                }
            }
        }
        assert forall|i: int| 0 <= i < post.invest_rows.len() implies account_present_kind(
            post.accounts,
            #[trigger] post.invest_rows[i].account_id,
            AccountKind::Invest,
        ) by {
            if post.invest_rows[i].account_id == account_id {
                assert(post.accounts[idx].id == account_id && post.accounts[idx].kind
                    == AccountKind::Invest);
            } else {
                let a = post.invest_rows[i].account_id;
                assert(invest_row_present(post.invest_rows, a));
                assert(invest_row_present(pre.invest_rows, a));
                let w = choose|w: int|
                    0 <= w < pre.invest_rows.len() && pre.invest_rows[w].account_id == a;
                let v = choose|v: int|
                    0 <= v < pre.accounts.len() && pre.accounts[v].id == a && pre.accounts[v].kind
                        == AccountKind::Invest;
                assert(v != idx);
                assert(post.accounts[v] == pre.accounts[v]);
            }
        }
        // references into the account table survive: ids did not move
        assert forall|i: int|
            0 <= i < post.ledgers.len() && (#[trigger] post.ledgers[i].base_account) is Some implies
            account_present(post.accounts, post.ledgers[i].base_account.unwrap()) by {
            let v = choose|v: int|
                0 <= v < pre.accounts.len() && pre.accounts[v].id
                    == post.ledgers[i].base_account.unwrap();
            assert(post.accounts[v].id == pre.accounts[v].id);
        }
        assert forall|i: int| 0 <= i < post.transactions.len() implies account_present(
            post.accounts,
            #[trigger] post.transactions[i].account_id,
        ) by {
            let v = choose|v: int|
                0 <= v < pre.accounts.len() && pre.accounts[v].id
                    == post.transactions[i].account_id;
            assert(post.accounts[v].id == pre.accounts[v].id);
        }
    }

    /// Deletes an account: its extension rows across both variant tables, the
    /// base row, every transaction that references it (with their tag
    /// associations), and every ledger's base-account reference to it, in one
    /// step. Idempotent: deleting an absent id succeeds.
    pub fn delete_account(&mut self, account_id: i64) -> (r: Result<(), StoreError>)
        requires
            old(self)@.inv(),
        ensures
            final(self)@.inv(),
            r == Ok::<(), StoreError>(()),
            final(self)@ == (DbView {
                accounts: old(self)@.accounts.filter(account_row_kept(account_id)),
                credit_rows: old(self)@.credit_rows.filter(credit_row_kept(account_id)),
                invest_rows: old(self)@.invest_rows.filter(invest_row_kept(account_id)),
                ledgers: old(self)@.ledgers.map_values(
                    crate::ledger::ledger_with_cleared_base(account_id),
                ),
                transactions: old(self)@.transactions.filter(
                    crate::transaction::transaction_kept_for_account(account_id),
                ),
                links: old(self)@.links.filter(
                    crate::transaction::link_kept_with(
                        old(self)@.transactions.filter(
                            crate::transaction::transaction_kept_for_account(account_id),
                        ),
                    ),
                ),
                ..old(self)@
            }),
    {
        let ghost pre = self@;
        self.remove_transactions_by_account(account_id);
        self.prune_links();
        self.clear_ledger_base_accounts(account_id);
        self.remove_credit_rows(account_id);
        self.remove_invest_rows(account_id);
        self.remove_account_rows(account_id);
        proof {
            let akept = pre.accounts.filter(account_row_kept(account_id));
            let ckept = pre.credit_rows.filter(credit_row_kept(account_id));
            let vkept = pre.invest_rows.filter(invest_row_kept(account_id));
            let lmap = pre.ledgers.map_values(crate::ledger::ledger_with_cleared_base(account_id));
            let tkept = pre.transactions.filter(
                crate::transaction::transaction_kept_for_account(account_id),
            );
            let kkept = pre.links.filter(crate::transaction::link_kept_with(tkept));
            assert(self@ =~= (DbView {
                accounts: akept,
                credit_rows: ckept,
                invest_rows: vkept,
                ledgers: lmap,
                transactions: tkept,
                links: kkept,
                ..pre
            }));
            self.lemma_delete_account_inv(pre, account_id);
        }
        Ok(())
    }

    /// The invariant is restored after the cascading removals of an account
    /// deletion.
    proof fn lemma_delete_account_inv(&self, pre: DbView, account_id: i64)
        requires
            pre.inv(),
            self@ == (DbView {
                accounts: pre.accounts.filter(account_row_kept(account_id)),
                credit_rows: pre.credit_rows.filter(credit_row_kept(account_id)),
                invest_rows: pre.invest_rows.filter(invest_row_kept(account_id)),
                ledgers: pre.ledgers.map_values(
                    crate::ledger::ledger_with_cleared_base(account_id),
                ),
                transactions: pre.transactions.filter(
                    crate::transaction::transaction_kept_for_account(account_id),
                ),
                links: pre.links.filter(
                    crate::transaction::link_kept_with(
                        pre.transactions.filter(
                            crate::transaction::transaction_kept_for_account(account_id),
                        ),
                    ),
                ),
                ..pre
            }),
        ensures
            self@.inv(),
    {
        let post = self@;
        let akept = pre.accounts.filter(account_row_kept(account_id));
        let ckept = pre.credit_rows.filter(credit_row_kept(account_id));
        let vkept = pre.invest_rows.filter(invest_row_kept(account_id));
        let tkept = pre.transactions.filter(
            crate::transaction::transaction_kept_for_account(account_id),
        );
        let kkept = pre.links.filter(crate::transaction::link_kept_with(tkept));
        lemma_filter_keeps_distinct_key(
            pre.accounts,
            account_row_kept(account_id),
            |a: AccountRow| a.id,
        );
        lemma_filter_keeps_distinct_key(
            pre.credit_rows,
            credit_row_kept(account_id),
            |c: CreditRow| c.account_id,
        );
        lemma_filter_keeps_distinct_key(
            pre.invest_rows,
            invest_row_kept(account_id),
            |c: InvestRow| c.account_id,
        );
        lemma_filter_keeps_distinct_key(
            pre.transactions,
            crate::transaction::transaction_kept_for_account(account_id),
            |t: crate::transaction::TransactionRow| t.id,
        );
        lemma_filter_keeps_distinct_key(
            pre.links,
            crate::transaction::link_kept_with(tkept),
            |l: crate::transaction::TagLink| (l.transaction_id, l.tag_id),
        );
        // presence of an extension row carries over in both directions for
        // every surviving account
        assert forall|a: i64|
            a != account_id implies (credit_row_present(ckept, a) <==> credit_row_present(
            pre.credit_rows,
            a,
        )) by {
            if credit_row_present(pre.credit_rows, a) {
                let w = choose|w: int|
                    0 <= w < pre.credit_rows.len() && pre.credit_rows[w].account_id == a;
                assert(credit_row_kept(account_id)(pre.credit_rows[w]));
                lemma_filter_keeps_matching(pre.credit_rows, credit_row_kept(account_id), w);
            }
            if credit_row_present(ckept, a) {
                let w = choose|w: int| 0 <= w < ckept.len() && ckept[w].account_id == a;
                lemma_filter_element_origin(pre.credit_rows, credit_row_kept(account_id), w);
                let v = choose|v: int|
                    0 <= v < pre.credit_rows.len() && pre.credit_rows[v] == ckept[w];
            }
        }
        assert forall|a: i64|
            a != account_id implies (invest_row_present(vkept, a) <==> invest_row_present(
            pre.invest_rows,
            a,
        )) by {
            if invest_row_present(pre.invest_rows, a) {
                let w = choose|w: int|
                    0 <= w < pre.invest_rows.len() && pre.invest_rows[w].account_id == a;
                assert(invest_row_kept(account_id)(pre.invest_rows[w]));
                lemma_filter_keeps_matching(pre.invest_rows, invest_row_kept(account_id), w);
            }
            if invest_row_present(vkept, a) {
                let w = choose|w: int| 0 <= w < vkept.len() && vkept[w].account_id == a;
                lemma_filter_element_origin(pre.invest_rows, invest_row_kept(account_id), w);
                let v = choose|v: int|
                    0 <= v < pre.invest_rows.len() && pre.invest_rows[v] == vkept[w];
            }
        }
        // accounts_wf
        assert forall|i: int| 0 <= i < akept.len() implies 1 <= (#[trigger] akept[i].id)
            < post.next_account_id by {
            lemma_filter_element_origin(pre.accounts, account_row_kept(account_id), i);
            let w = choose|w: int| 0 <= w < pre.accounts.len() && pre.accounts[w] == akept[i];
        }
        assert forall|i: int| 0 <= i < akept.len() implies currency_present(
            post.currencies,
            #[trigger] akept[i].currency@,
        ) by {
            lemma_filter_element_origin(pre.accounts, account_row_kept(account_id), i);
            let w = choose|w: int| 0 <= w < pre.accounts.len() && pre.accounts[w] == akept[i];
        }
        assert forall|i: int|
            0 <= i < akept.len() implies ((#[trigger] akept[i].kind) == AccountKind::Credit
            <==> credit_row_present(ckept, akept[i].id)) by {
            lemma_filter_element_origin(pre.accounts, account_row_kept(account_id), i);
            let w = choose|w: int| 0 <= w < pre.accounts.len() && pre.accounts[w] == akept[i];
            assert(akept[i].id != account_id);
            assert(pre.accounts[w].kind == AccountKind::Credit <==> credit_row_present(
                pre.credit_rows,
                pre.accounts[w].id,
            ));
        }
        assert forall|i: int|
            0 <= i < akept.len() implies ((#[trigger] akept[i].kind) == AccountKind::Invest
            <==> invest_row_present(vkept, akept[i].id)) by {
            lemma_filter_element_origin(pre.accounts, account_row_kept(account_id), i);
            let w = choose|w: int| 0 <= w < pre.accounts.len() && pre.accounts[w] == akept[i];
            assert(akept[i].id != account_id);
            assert(pre.accounts[w].kind == AccountKind::Invest <==> invest_row_present(
                pre.invest_rows,
                pre.accounts[w].id,
            ));
        }
        // extension tables still point at surviving credit/invest accounts
        assert forall|i: int| 0 <= i < ckept.len() implies account_present_kind(
            post.accounts,
            #[trigger] ckept[i].account_id,
            AccountKind::Credit,
        ) by {
            lemma_filter_element_origin(pre.credit_rows, credit_row_kept(account_id), i);
            let w = choose|w: int| 0 <= w < pre.credit_rows.len() && pre.credit_rows[w] == ckept[i];
            let v = choose|v: int|
                0 <= v < pre.accounts.len() && pre.accounts[v].id == ckept[i].account_id
                    && pre.accounts[v].kind == AccountKind::Credit;
            assert(account_row_kept(account_id)(pre.accounts[v]));
            lemma_filter_keeps_matching(pre.accounts, account_row_kept(account_id), v);
        }
        assert forall|i: int| 0 <= i < vkept.len() implies account_present_kind(
            post.accounts,
            #[trigger] vkept[i].account_id,
            AccountKind::Invest,
        ) by {
            lemma_filter_element_origin(pre.invest_rows, invest_row_kept(account_id), i);
            let w = choose|w: int| 0 <= w < pre.invest_rows.len() && pre.invest_rows[w] == vkept[i];
            let v = choose|v: int|
                0 <= v < pre.accounts.len() && pre.accounts[v].id == vkept[i].account_id
                    && pre.accounts[v].kind == AccountKind::Invest;
            assert(account_row_kept(account_id)(pre.accounts[v]));
            lemma_filter_keeps_matching(pre.accounts, account_row_kept(account_id), v);
        }
        // ledgers_wf: rows keep their ids and currencies; a kept reference is
        // to a surviving account
        assert forall|k: int|
            0 <= k < post.ledgers.len() implies post.ledgers[k].id == pre.ledgers[k].id
            && post.ledgers[k].base_currency == pre.ledgers[k].base_currency by {}
        assert forall|i: int, j: int|
            0 <= i < j < post.ledgers.len() implies post.ledgers[i].id != post.ledgers[j].id by {}
        assert forall|i: int| 0 <= i < post.ledgers.len() implies 1 <= (
        #[trigger] post.ledgers[i].id) < post.next_ledger_id by {}
        assert forall|i: int| 0 <= i < post.ledgers.len() implies currency_present(
            post.currencies,
            #[trigger] post.ledgers[i].base_currency@,
        ) by {}
        assert forall|i: int|
            0 <= i < post.ledgers.len() && (#[trigger] post.ledgers[i].base_account) is Some implies
            account_present(post.accounts, post.ledgers[i].base_account.unwrap()) by {
            assert(pre.ledgers[i].base_account is Some);
            assert(post.ledgers[i].base_account == pre.ledgers[i].base_account);
            assert(pre.ledgers[i].base_account.unwrap() != account_id);
            let v = choose|v: int|
                0 <= v < pre.accounts.len() && pre.accounts[v].id
                    == pre.ledgers[i].base_account.unwrap();
            assert(account_row_kept(account_id)(pre.accounts[v]));
            lemma_filter_keeps_matching(pre.accounts, account_row_kept(account_id), v);
        }
        // categories still point at ledgers whose ids did not move
        assert forall|i: int| 0 <= i < post.categories.len() implies crate::db::ledger_present(
            post.ledgers,
            #[trigger] post.categories[i].ledger_id,
        ) by {
            let v = choose|v: int|
                0 <= v < pre.ledgers.len() && pre.ledgers[v].id == post.categories[i].ledger_id;
            assert(post.ledgers[v].id == pre.ledgers[v].id);
        }
        // transactions_wf
        assert forall|i: int| 0 <= i < tkept.len() implies 1 <= (#[trigger] tkept[i].id)
            < post.next_transaction_id by {
            lemma_filter_element_origin(
                pre.transactions,
                crate::transaction::transaction_kept_for_account(account_id),
                i,
            );
            let w = choose|w: int|
                0 <= w < pre.transactions.len() && pre.transactions[w] == tkept[i];
        }
        assert forall|i: int| 0 <= i < tkept.len() implies crate::db::ledger_present(
            post.ledgers,
            #[trigger] tkept[i].ledger_id,
        ) by {
            lemma_filter_element_origin(
                pre.transactions,
                crate::transaction::transaction_kept_for_account(account_id),
                i,
            );
            let w = choose|w: int|
                0 <= w < pre.transactions.len() && pre.transactions[w] == tkept[i];
            let v = choose|v: int|
                0 <= v < pre.ledgers.len() && pre.ledgers[v].id == tkept[i].ledger_id;
            assert(post.ledgers[v].id == pre.ledgers[v].id);
        }
        assert forall|i: int| 0 <= i < tkept.len() implies account_present(
            post.accounts,
            #[trigger] tkept[i].account_id,
        ) by {
            lemma_filter_element_origin(
                pre.transactions,
                crate::transaction::transaction_kept_for_account(account_id),
                i,
            );
            let w = choose|w: int|
                0 <= w < pre.transactions.len() && pre.transactions[w] == tkept[i];
            assert(tkept[i].account_id != account_id);
            let v = choose|v: int|
                0 <= v < pre.accounts.len() && pre.accounts[v].id == tkept[i].account_id;
            assert(account_row_kept(account_id)(pre.accounts[v]));
            lemma_filter_keeps_matching(pre.accounts, account_row_kept(account_id), v);
        }
        // links_wf
        assert forall|i: int, j: int|
            0 <= i < j < kkept.len() implies !(kkept[i].transaction_id == kkept[j].transaction_id
            && kkept[i].tag_id == kkept[j].tag_id) by {
            let key = |l: crate::transaction::TagLink| (l.transaction_id, l.tag_id);
            assert(key(kkept[i]) != key(kkept[j]));
        }
        assert forall|i: int| 0 <= i < kkept.len() implies crate::db::transaction_present(
            post.transactions,
            #[trigger] kkept[i].transaction_id,
        ) by {
            lemma_filter_element_origin(pre.links, crate::transaction::link_kept_with(tkept), i);
        }
        assert forall|i: int| 0 <= i < kkept.len() implies crate::db::tag_present(
            post.tags,
            #[trigger] kkept[i].tag_id,
        ) by {
            lemma_filter_element_origin(pre.links, crate::transaction::link_kept_with(tkept), i);
            let w = choose|w: int| 0 <= w < pre.links.len() && pre.links[w] == kkept[i];
        }
    }
}

} // verus!
