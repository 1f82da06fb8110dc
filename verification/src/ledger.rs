use vstd::prelude::*;

use crate::db::Database;
use crate::db::DbView;
use crate::db::account_present;
use crate::db::currency_present;
use crate::db::index_of_ledger;
use crate::db::ledger_present;
use crate::db::lemma_filter_element_origin;
use crate::db::lemma_filter_keeps_distinct_key;
use crate::db::lemma_filter_keeps_matching;
use crate::db::lemma_filter_take_step;
use crate::db::lemma_ledger_present_push;
use crate::error::StoreError;

verus! {

/// A ledger row. `base_currency` must reference a currency; `base_account`
/// optionally references an account and is cleared when that account is
/// deleted.
pub struct Ledger {
    pub id: i64,
    pub name: String,
    pub base_currency: String,
    pub base_account: Option<i64>,
    pub is_archived: bool,
}

impl Ledger {
    /// An equal copy of the row.
    pub fn duplicate(&self) -> (r: Ledger)
        ensures
            r == *self,
    {
        Ledger {
            id: self.id,
            name: self.name.clone(),
            base_currency: self.base_currency.clone(),
            base_account: self.base_account,
            is_archived: self.is_archived,
        }
    }
}

/// Keeps every ledger row but the one with the given id.
pub open spec fn ledger_row_kept(id: i64) -> spec_fn(Ledger) -> bool {
    |l: Ledger| l.id != id
}

/// Clears a base-account reference to the given account, leaving every other
/// row as it is: the effect of deleting the referenced account.
pub open spec fn ledger_with_cleared_base(account_id: i64) -> spec_fn(Ledger) -> Ledger {
    |l: Ledger|
        if l.base_account == Some(account_id) {
            Ledger { base_account: None, ..l }
        } else {
            l
        }
}

impl Database {
    /// The position of the ledger row carrying this id, if any.
    pub(crate) fn ledger_index_by_id(&self, id: i64) -> (r: Option<usize>)
        ensures
            match r {
                Some(i) => i < self@.ledgers.len() && self@.ledgers[i as int].id == id,
                None => !ledger_present(self@.ledgers, id),
            },
    {
        let mut i: usize = 0;
        while i < self.ledgers.len()
            invariant
                i <= self.ledgers@.len(),
                forall|k: int| 0 <= k < i ==> self.ledgers@[k].id != id,
            decreases self.ledgers@.len() - i,
        {
            if self.ledgers[i].id == id {
                return Some(i);
            }
            i = i + 1;
        }
        None
    }

    /// Creates a ledger under a fresh id, validating the currency reference
    /// and, where one is given, the account reference. An exhausted id
    /// counter is a storage-layer failure.
    pub fn create_ledger(
        &mut self,
        name: String,
        base_currency: String,
        base_account: Option<i64>,
        is_archived: bool,
    ) -> (r: Result<i64, StoreError>)
        requires
            old(self)@.inv(),
        ensures
            final(self)@.inv(),
            match r {
                Ok(id) => currency_present(old(self)@.currencies, base_currency@) && (base_account
                    is Some ==> account_present(old(self)@.accounts, base_account.unwrap())) && old(
                    self,
                )@.next_ledger_id < i64::MAX && id as int == old(self)@.next_ledger_id && final(self)@ == (DbView {
                    ledgers: old(self)@.ledgers.push(
                        (Ledger { id, name, base_currency, base_account, is_archived }),
                    ),
                    next_ledger_id: old(self)@.next_ledger_id + 1,
                    ..old(self)@
                }),
                Err(e) => final(self)@ == old(self)@ && ((e == StoreError::Storage && old(
                    self,
                )@.next_ledger_id == i64::MAX) || (e == StoreError::Constraint && old(
                    self,
                )@.next_ledger_id < i64::MAX && (!currency_present(
                    old(self)@.currencies,
                    base_currency@,
                ) || (base_account is Some && !account_present(
                    old(self)@.accounts,
                    base_account.unwrap(),
                ))))),
            },
    {
        if self.next_ledger_id == i64::MAX {
            return Err(StoreError::Storage);
        }
        if !self.currency_exists(&base_currency) {
            return Err(StoreError::Constraint);
        }
        match base_account {
            Some(a) => {
                match self.account_index_by_id(a) {
                    Some(_) => {},
                    None => {
                        return Err(StoreError::Constraint);
                    },
                }
            },
            None => {},
        }
        let ghost pre = self@;
        let id = self.next_ledger_id;
        let row = Ledger { id, name, base_currency, base_account, is_archived };
        let ghost rowg = row;
        self.ledgers.push(row);
        self.next_ledger_id = self.next_ledger_id + 1;
        proof {
            assert(self@ =~= (DbView {
                ledgers: pre.ledgers.push(rowg),
                next_ledger_id: pre.next_ledger_id + 1,
                ..pre
            }));
            let n = self@.ledgers.len();
            assert forall|i: int, j: int|
                0 <= i < j < n implies self@.ledgers[i].id != self@.ledgers[j].id by {
                if j == n - 1 {
                    assert(self@.ledgers[i] == pre.ledgers[i]);
                }
            }
            assert forall|i: int| 0 <= i < n implies 1 <= (#[trigger] self@.ledgers[i].id)
                < self@.next_ledger_id by {
                if i < n - 1 {
                    assert(self@.ledgers[i] == pre.ledgers[i]);
                }
            }
            assert forall|i: int| 0 <= i < n implies currency_present(
                self@.currencies,
                #[trigger] self@.ledgers[i].base_currency@,
            ) by {
                if i < n - 1 {
                    assert(self@.ledgers[i] == pre.ledgers[i]);
                }
            }
            assert forall|i: int|
                0 <= i < n && (#[trigger] self@.ledgers[i].base_account) is Some implies
                account_present(self@.accounts, self@.ledgers[i].base_account.unwrap()) by {
                if i < n - 1 {
                    assert(self@.ledgers[i] == pre.ledgers[i]);
                }
            }
            assert forall|i: int| 0 <= i < self@.categories.len() implies ledger_present(
                self@.ledgers,
                #[trigger] self@.categories[i].ledger_id,
            ) by {
                lemma_ledger_present_push(pre.ledgers, rowg, self@.categories[i].ledger_id);
            }
            assert forall|i: int| 0 <= i < self@.transactions.len() implies ledger_present(
                self@.ledgers,
                #[trigger] self@.transactions[i].ledger_id,
            ) by {
                lemma_ledger_present_push(pre.ledgers, rowg, self@.transactions[i].ledger_id);
            }
        }
        Ok(id)
    }

    /// All ledgers, as equal copies of the stored rows.
    pub fn get_ledgers(&self) -> (r: Vec<Ledger>)
        ensures
            r@ == self@.ledgers,
    {
        let mut out: Vec<Ledger> = Vec::new();
        let mut i: usize = 0;
        while i < self.ledgers.len()
            invariant
                i <= self.ledgers@.len(),
                out@ == self.ledgers@.take(i as int),
            decreases self.ledgers@.len() - i,
        {
            out.push(self.ledgers[i].duplicate());
            proof {
                assert(self.ledgers@.take(i as int + 1) =~= self.ledgers@.take(i as int).push(
                    self.ledgers@[i as int],
                ));
            }
            i = i + 1;
        }
        proof {
            assert(self.ledgers@.take(self.ledgers@.len() as int) =~= self.ledgers@);
        }
        out
    }

    /// The ledger with this id, or `NotFound` where none exists.
    pub fn get_ledger(&self, ledger_id: i64) -> (r: Result<Ledger, StoreError>)
        requires
            self@.inv(),
        ensures
            match r {
                Ok(l) => ledger_present(self@.ledgers, ledger_id) && l == self@.ledgers[
                    index_of_ledger(self@.ledgers, ledger_id)],
                Err(e) => e == StoreError::NotFound && !ledger_present(self@.ledgers, ledger_id),
            },
    {
        match self.ledger_index_by_id(ledger_id) {
            Some(i) => {
                proof {
                    let w = index_of_ledger(self@.ledgers, ledger_id);
                    assert(self@.ledgers[w].id == ledger_id);
                    if w != i as int {
                        assert(false);
                    }
                }
                Ok(self.ledgers[i].duplicate())
            },
            None => Err(StoreError::NotFound),
        }
    }

    /// Replaces every field of a ledger but its id, validating the references
    /// as creation does. Updating an absent id succeeds and changes nothing,
    /// as an update of no rows does at the storage layer.
    pub fn update_ledger(
        &mut self,
        ledger_id: i64,
        name: String,
        base_currency: String,
        base_account: Option<i64>,
        is_archived: bool,
    ) -> (r: Result<(), StoreError>)
        requires
            old(self)@.inv(),
        ensures
            final(self)@.inv(),
            match r {
                Ok(()) => if ledger_present(old(self)@.ledgers, ledger_id) {
                    currency_present(old(self)@.currencies, base_currency@) && (base_account
                        is Some ==> account_present(old(self)@.accounts, base_account.unwrap()))
                        && final(self)@ == (DbView {
                        ledgers: old(self)@.ledgers.update(
                            index_of_ledger(old(self)@.ledgers, ledger_id),
                            (Ledger {
                                id: ledger_id,
                                name,
                                base_currency,
                                base_account,
                                is_archived,
                            }),
                        ),
                        ..old(self)@
                    })
                } else {
                    final(self)@ == old(self)@
                },
                Err(e) => final(self)@ == old(self)@ && e == StoreError::Constraint
                    && ledger_present(old(self)@.ledgers, ledger_id) && (!currency_present(
                    old(self)@.currencies,
                    base_currency@,
                ) || (base_account is Some && !account_present(
                    old(self)@.accounts,
                    base_account.unwrap(),
                ))),
            },
    {
        let idx = match self.ledger_index_by_id(ledger_id) {
            Some(i) => i,
            None => {
                return Ok(());
            },
        };
        if !self.currency_exists(&base_currency) {
            return Err(StoreError::Constraint);
        }
        match base_account {
            Some(a) => {
                match self.account_index_by_id(a) {
                    Some(_) => {},
                    None => {
                        return Err(StoreError::Constraint);
                    },
                }
            },
            None => {},
        }
        let ghost pre = self@;
        let row = Ledger { id: ledger_id, name, base_currency, base_account, is_archived };
        let ghost rowg = row;
        self.ledgers[idx] = row;
        proof {
            assert(self@ =~= (DbView { ledgers: pre.ledgers.update(idx as int, rowg), ..pre }));
            let w = index_of_ledger(pre.ledgers, ledger_id);
            assert(pre.ledgers[idx as int].id == ledger_id);
            if w != idx as int {
                assert(false);
            }
            let n = self@.ledgers.len();
            assert forall|k: int| 0 <= k < n implies self@.ledgers[k].id == pre.ledgers[k].id by {}
            assert forall|i: int| 0 <= i < self@.categories.len() implies ledger_present(
                self@.ledgers,
                #[trigger] self@.categories[i].ledger_id,
            ) by {
                let v = choose|v: int|
                    0 <= v < pre.ledgers.len() && pre.ledgers[v].id == self@.categories[i].ledger_id;
                assert(self@.ledgers[v].id == self@.categories[i].ledger_id);
            }
            assert forall|i: int| 0 <= i < self@.transactions.len() implies ledger_present(
                self@.ledgers,
                #[trigger] self@.transactions[i].ledger_id,
            ) by {
                let v = choose|v: int|
                    0 <= v < pre.ledgers.len() && pre.ledgers[v].id
                        == self@.transactions[i].ledger_id;
                assert(self@.ledgers[v].id == self@.transactions[i].ledger_id);
            }
        }
        Ok(())
    }

    /// Deletes a ledger and, as the schema's cascade policy says, every
    /// category and transaction of it, with the deleted transactions'
    /// tag associations. Idempotent: deleting an absent id succeeds.
    pub fn delete_ledger(&mut self, ledger_id: i64) -> (r: Result<(), StoreError>)
        requires
            old(self)@.inv(),
        ensures
            final(self)@.inv(),
            r == Ok::<(), StoreError>(()),
            final(self)@ == (DbView {
                ledgers: old(self)@.ledgers.filter(ledger_row_kept(ledger_id)),
                categories: old(self)@.categories.filter(
                    crate::category::category_kept_for_ledger(ledger_id),
                ),
                transactions: old(self)@.transactions.filter(
                    crate::transaction::transaction_kept_for_ledger(ledger_id),
                ),
                links: old(self)@.links.filter(
                    crate::transaction::link_kept_with(
                        old(self)@.transactions.filter(
                            crate::transaction::transaction_kept_for_ledger(ledger_id),
                        ),
                    ),
                ),
                ..old(self)@
            }),
    {
        let ghost pre = self@;
        self.remove_transactions_by_ledger(ledger_id);
        self.prune_links();
        self.remove_categories_by_ledger(ledger_id);
        self.remove_ledger_rows(ledger_id);
        proof {
            let lkept = pre.ledgers.filter(ledger_row_kept(ledger_id));
            let ckept = pre.categories.filter(crate::category::category_kept_for_ledger(ledger_id));
            let tkept = pre.transactions.filter(
                crate::transaction::transaction_kept_for_ledger(ledger_id),
            );
            let kkept = pre.links.filter(crate::transaction::link_kept_with(tkept));
            assert(self@ =~= (DbView {
                ledgers: lkept,
                categories: ckept,
                transactions: tkept,
                links: kkept,
                ..pre
            }));
            // ledgers: distinctness survives, and each kept row keeps its old facts
            lemma_filter_keeps_distinct_key(pre.ledgers, ledger_row_kept(ledger_id), |l: Ledger| l.id);
            assert forall|i: int| 0 <= i < lkept.len() implies 1 <= (#[trigger] lkept[i].id)
                < self@.next_ledger_id by {
                lemma_filter_element_origin(pre.ledgers, ledger_row_kept(ledger_id), i);
                let w = choose|w: int| 0 <= w < pre.ledgers.len() && pre.ledgers[w] == lkept[i];
            }
            assert forall|i: int| 0 <= i < lkept.len() implies currency_present(
                self@.currencies,
                #[trigger] lkept[i].base_currency@,
            ) by {
                lemma_filter_element_origin(pre.ledgers, ledger_row_kept(ledger_id), i);
                let w = choose|w: int| 0 <= w < pre.ledgers.len() && pre.ledgers[w] == lkept[i];
            }
            assert forall|i: int|
                0 <= i < lkept.len() && (#[trigger] lkept[i].base_account) is Some implies
                account_present(self@.accounts, lkept[i].base_account.unwrap()) by {
                lemma_filter_element_origin(pre.ledgers, ledger_row_kept(ledger_id), i);
                let w = choose|w: int| 0 <= w < pre.ledgers.len() && pre.ledgers[w] == lkept[i];
            }
            // categories: kept rows reference ledgers that survive
            lemma_filter_keeps_distinct_key(
                pre.categories,
                crate::category::category_kept_for_ledger(ledger_id),
                |c: crate::category::CategoryRow| c.id,
            );
            assert forall|i: int| 0 <= i < ckept.len() implies 1 <= (#[trigger] ckept[i].id)
                < self@.next_category_id by {
                lemma_filter_element_origin(
                    pre.categories,
                    crate::category::category_kept_for_ledger(ledger_id),
                    i,
                );
                let w = choose|w: int| 0 <= w < pre.categories.len() && pre.categories[w] == ckept[i];
            }
            assert forall|i: int| 0 <= i < ckept.len() implies ledger_present(
                self@.ledgers,
                #[trigger] ckept[i].ledger_id,
            ) by {
                lemma_filter_element_origin(
                    pre.categories,
                    crate::category::category_kept_for_ledger(ledger_id),
                    i,
                );
                let w = choose|w: int| 0 <= w < pre.categories.len() && pre.categories[w] == ckept[i];
                let v = choose|v: int|
                    0 <= v < pre.ledgers.len() && pre.ledgers[v].id == ckept[i].ledger_id;
                assert(ledger_row_kept(ledger_id)(pre.ledgers[v]));
                lemma_filter_keeps_matching(pre.ledgers, ledger_row_kept(ledger_id), v);
            }
            // transactions: kept rows reference ledgers that survive and
            // accounts that are untouched
            lemma_filter_keeps_distinct_key(
                pre.transactions,
                crate::transaction::transaction_kept_for_ledger(ledger_id),
                |t: crate::transaction::TransactionRow| t.id,
            );
            assert forall|i: int| 0 <= i < tkept.len() implies 1 <= (#[trigger] tkept[i].id)
                < self@.next_transaction_id by {
                lemma_filter_element_origin(
                    pre.transactions,
                    crate::transaction::transaction_kept_for_ledger(ledger_id),
                    i,
                );
                let w = choose|w: int|
                    0 <= w < pre.transactions.len() && pre.transactions[w] == tkept[i];
            }
            assert forall|i: int| 0 <= i < tkept.len() implies ledger_present(
                self@.ledgers,
                #[trigger] tkept[i].ledger_id,
            ) by {
                lemma_filter_element_origin(
                    pre.transactions,
                    crate::transaction::transaction_kept_for_ledger(ledger_id),
                    i,
                );
                let w = choose|w: int|
                    0 <= w < pre.transactions.len() && pre.transactions[w] == tkept[i];
                let v = choose|v: int|
                    0 <= v < pre.ledgers.len() && pre.ledgers[v].id == tkept[i].ledger_id;
                assert(ledger_row_kept(ledger_id)(pre.ledgers[v]));
                lemma_filter_keeps_matching(pre.ledgers, ledger_row_kept(ledger_id), v);
            }
            assert forall|i: int| 0 <= i < tkept.len() implies account_present(
                self@.accounts,
                #[trigger] tkept[i].account_id,
            ) by {
                lemma_filter_element_origin(
                    pre.transactions,
                    crate::transaction::transaction_kept_for_ledger(ledger_id),
                    i,
                );
                let w = choose|w: int|
                    0 <= w < pre.transactions.len() && pre.transactions[w] == tkept[i];
            }
            // links: kept rows point at surviving transactions and untouched tags
            lemma_filter_keeps_distinct_key(
                pre.links,
                crate::transaction::link_kept_with(tkept),
                |l: crate::transaction::TagLink| (l.transaction_id, l.tag_id),
            );
            assert forall|i: int, j: int|
                0 <= i < j < kkept.len() implies !(kkept[i].transaction_id
                == kkept[j].transaction_id && kkept[i].tag_id == kkept[j].tag_id) by {
                let key = |l: crate::transaction::TagLink| (l.transaction_id, l.tag_id);
                assert(key(kkept[i]) != key(kkept[j]));
            }
            assert forall|i: int| 0 <= i < kkept.len() implies crate::db::transaction_present(
                self@.transactions,
                #[trigger] kkept[i].transaction_id,
            ) by {
                lemma_filter_element_origin(pre.links, crate::transaction::link_kept_with(tkept), i);
            }
            assert forall|i: int| 0 <= i < kkept.len() implies crate::db::tag_present(
                self@.tags,
                #[trigger] kkept[i].tag_id,
            ) by {
                lemma_filter_element_origin(pre.links, crate::transaction::link_kept_with(tkept), i);
                let w = choose|w: int| 0 <= w < pre.links.len() && pre.links[w] == kkept[i];
            }
        }
        Ok(())
    }

    /// Removes every ledger row with this id (one at most, under the
    /// invariant).
    pub(crate) fn remove_ledger_rows(&mut self, id: i64)
        ensures
            final(self)@ == (DbView {
                ledgers: old(self)@.ledgers.filter(ledger_row_kept(id)),
                ..old(self)@
            }),
    {
        let mut kept: Vec<Ledger> = Vec::new();
        let mut i: usize = 0;
        while i < self.ledgers.len()
            invariant
                i <= self.ledgers@.len(),
                kept@ == self.ledgers@.take(i as int).filter(ledger_row_kept(id)),
            decreases self.ledgers@.len() - i,
        {
            proof {
                lemma_filter_take_step(self.ledgers@, ledger_row_kept(id), i as int);
            }
            if self.ledgers[i].id != id {
                kept.push(self.ledgers[i].duplicate());
            }
            i = i + 1;
        }
        proof {
            assert(self.ledgers@.take(self.ledgers@.len() as int) =~= self.ledgers@);
        }
        self.ledgers = kept;
        proof {
            assert(self@ =~= (DbView {
                ledgers: old(self)@.ledgers.filter(ledger_row_kept(id)),
                ..old(self)@
            }));
        }
    }

    /// Clears every base-account reference to this account, as the schema's
    /// set-null policy says when the account goes away.
    pub(crate) fn clear_ledger_base_accounts(&mut self, account_id: i64)
        ensures
            final(self)@ == (DbView {
                ledgers: old(self)@.ledgers.map_values(ledger_with_cleared_base(account_id)),
                ..old(self)@
            }),
    {
        let mut out: Vec<Ledger> = Vec::new();
        let mut i: usize = 0;
        while i < self.ledgers.len()
            invariant
                i <= self.ledgers@.len(),
                out@ == self.ledgers@.take(i as int).map_values(
                    ledger_with_cleared_base(account_id),
                ),
            decreases self.ledgers@.len() - i,
        {
            let row = self.ledgers[i].duplicate();
            let cleared = match row.base_account {
                Some(a) => {
                    if a == account_id {
                        Ledger { base_account: None, ..row }
                    } else {
                        row
                    }
                },
                None => row,
            };
            out.push(cleared);
            proof {
                assert(self.ledgers@.take(i as int + 1).map_values(
                    ledger_with_cleared_base(account_id),
                ) =~= self.ledgers@.take(i as int).map_values(
                    ledger_with_cleared_base(account_id),
                ).push(ledger_with_cleared_base(account_id)(self.ledgers@[i as int])));
            }
            i = i + 1;
        }
        proof {
            assert(self.ledgers@.take(self.ledgers@.len() as int) =~= self.ledgers@);
        }
        self.ledgers = out;
        proof {
            assert(self@ =~= (DbView {
                ledgers: old(self)@.ledgers.map_values(ledger_with_cleared_base(account_id)),
                ..old(self)@
            }));
        }
    }
}

} // verus!
