use vstd::prelude::*;

use crate::db::Database;

verus! {

/// Immutable currency reference data, keyed by its globally unique code.
pub struct Currency {
    pub code: String,
    pub name: String,
    pub symbol: String,
}

impl Currency {
    /// An equal copy of the row.
    pub fn duplicate(&self) -> (r: Currency)
        ensures
            r == *self,
    {
        Currency { code: self.code.clone(), name: self.name.clone(), symbol: self.symbol.clone() }
    }
}

impl Database {
    /// Whether a currency with this code is present: the foreign-key test for
    /// every `currency` column of the schema.
    pub fn currency_exists(&self, code: &String) -> (r: bool)
        ensures
            r == self@.has_currency(code@),
    {
        let mut i: usize = 0;
        while i < self.currencies.len()
            invariant
                i <= self.currencies@.len(),
                forall|k: int| 0 <= k < i ==> self.currencies@[k].code@ != code@,
            decreases self.currencies@.len() - i,
        {
            if self.currencies[i].code == *code {
                proof {
                    assert(0 <= i < self@.currencies.len() && self@.currencies[i as int].code@
                        == code@);
                }
                return true;
            }
            i = i + 1;
        }
        false
    }

    /// Adds one currency to the reference table, refusing a duplicate code.
    /// The seed data is inserted through this on process start.
    pub fn insert_currency(&mut self, currency: Currency) -> (r: Result<(), crate::error::StoreError>)
        requires
            old(self)@.inv(),
        ensures
            final(self)@.inv(),
            match r {
                Ok(()) => !old(self)@.has_currency(currency.code@) && final(self)@ == (
                crate::db::DbView { currencies: old(self)@.currencies.push(currency), ..old(self)@ }),
                Err(e) => e == crate::error::StoreError::Constraint && old(self)@.has_currency(
                    currency.code@,
                ) && final(self)@ == old(self)@,
            },
    {
        if self.currency_exists(&currency.code) {
            return Err(crate::error::StoreError::Constraint);
        }
        let ghost pre = self@;
        self.currencies.push(currency);
        proof {
            assert(self@ =~= (crate::db::DbView { currencies: pre.currencies.push(currency), ..pre }));
            assert forall|i: int, j: int|
                0 <= i < j < self@.currencies.len() implies self@.currencies[i].code@
                != self@.currencies[j].code@ by {
                if j == self@.currencies.len() - 1 {
                    assert(self@.currencies[i] == pre.currencies[i]);
                    assert(!crate::db::currency_present(pre.currencies, currency.code@));
                }
            }
            assert forall|i: int|
                0 <= i < self@.accounts.len() implies crate::db::currency_present(
                self@.currencies,
                #[trigger] self@.accounts[i].currency@,
            ) by {
                crate::db::lemma_currency_present_push(
                    pre.currencies,
                    currency,
                    self@.accounts[i].currency@,
                );
            }
            assert forall|i: int|
                0 <= i < self@.ledgers.len() implies crate::db::currency_present(
                self@.currencies,
                #[trigger] self@.ledgers[i].base_currency@,
            ) by {
                crate::db::lemma_currency_present_push(
                    pre.currencies,
                    currency,
                    self@.ledgers[i].base_currency@,
                );
            }
        }
        Ok(())
    }

    /// All currencies, as equal copies of the stored rows.
    pub fn get_currencies(&self) -> (r: Vec<Currency>)
        ensures
            r@ == self@.currencies,
    {
        let mut out: Vec<Currency> = Vec::new();
        let mut i: usize = 0;
        while i < self.currencies.len()
            invariant
                i <= self.currencies@.len(),
                out@ == self.currencies@.take(i as int),
            decreases self.currencies@.len() - i,
        {
            out.push(self.currencies[i].duplicate());
            proof {
                assert(self.currencies@.take(i + 1 as int) =~= self.currencies@.take(i as int).push(
                    self.currencies@[i as int],
                ));
            }
            i = i + 1;
        }
        proof {
            assert(self.currencies@.take(self.currencies@.len() as int) =~= self.currencies@);
        }
        out
    }
}

} // verus!
