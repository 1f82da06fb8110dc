use vstd::prelude::*;

use crate::account::AccountKind;
use crate::account::AccountRow;
use crate::account::CreditRow;
use crate::account::InvestRow;
use crate::category::CategoryRow;
use crate::currency::Currency;
use crate::ledger::Ledger;
use crate::tag::Tag;
use crate::transaction::TagLink;
use crate::transaction::TransactionRow;

verus! {

/// The domain store: every table of the persisted schema held as a vector of
/// rows, together with the id counter that stands for each table's
/// autoincrement key. A handle to it is passed explicitly into each operation;
/// there is no process-wide mutable state.
pub struct Database {
    pub currencies: Vec<Currency>,
    pub accounts: Vec<AccountRow>,
    pub credit_rows: Vec<CreditRow>,
    pub invest_rows: Vec<InvestRow>,
    pub ledgers: Vec<Ledger>,
    pub categories: Vec<CategoryRow>,
    pub tags: Vec<Tag>,
    pub transactions: Vec<TransactionRow>,
    pub links: Vec<TagLink>,
    pub next_account_id: i64,
    pub next_ledger_id: i64,
    pub next_category_id: i64,
    pub next_tag_id: i64,
    pub next_transaction_id: i64,
}

/// The mathematical content of a `Database`: each table as a sequence of rows
/// and each id counter as an unbounded integer. Every contract of the store is
/// stated over this view.
#[verifier::ext_equal]
pub ghost struct DbView {
    pub currencies: Seq<Currency>,
    pub accounts: Seq<AccountRow>,
    pub credit_rows: Seq<CreditRow>,
    pub invest_rows: Seq<InvestRow>,
    pub ledgers: Seq<Ledger>,
    pub categories: Seq<CategoryRow>,
    pub tags: Seq<Tag>,
    pub transactions: Seq<TransactionRow>,
    pub links: Seq<TagLink>,
    pub next_account_id: int,
    pub next_ledger_id: int,
    pub next_category_id: int,
    pub next_tag_id: int,
    pub next_transaction_id: int,
}

impl View for Database {
    type V = DbView;

    open spec fn view(&self) -> DbView {
        DbView {
            currencies: self.currencies@,
            accounts: self.accounts@,
            credit_rows: self.credit_rows@,
            invest_rows: self.invest_rows@,
            ledgers: self.ledgers@,
            categories: self.categories@,
            tags: self.tags@,
            transactions: self.transactions@,
            links: self.links@,
            next_account_id: self.next_account_id as int,
            next_ledger_id: self.next_ledger_id as int,
            next_category_id: self.next_category_id as int,
            next_tag_id: self.next_tag_id as int,
            next_transaction_id: self.next_transaction_id as int,
        }
    }
}

/// Some currency with this code is present.
pub open spec fn currency_present(currencies: Seq<Currency>, code: Seq<char>) -> bool {
    exists|i: int| 0 <= i < currencies.len() && currencies[i].code@ == code
}

/// Some account row with this id is present.
pub open spec fn account_present(accounts: Seq<AccountRow>, id: i64) -> bool {
    exists|i: int| 0 <= i < accounts.len() && accounts[i].id == id
}

/// Some account row with this id and this kind is present.
pub open spec fn account_present_kind(accounts: Seq<AccountRow>, id: i64, kind: AccountKind) -> bool {
    exists|i: int| 0 <= i < accounts.len() && accounts[i].id == id && accounts[i].kind == kind
}

/// Some credit extension row for this account id is present.
pub open spec fn credit_row_present(credit_rows: Seq<CreditRow>, id: i64) -> bool {
    exists|i: int| 0 <= i < credit_rows.len() && credit_rows[i].account_id == id
}

/// Some invest extension row for this account id is present.
pub open spec fn invest_row_present(invest_rows: Seq<InvestRow>, id: i64) -> bool {
    exists|i: int| 0 <= i < invest_rows.len() && invest_rows[i].account_id == id
}

/// Some ledger row with this id is present.
pub open spec fn ledger_present(ledgers: Seq<Ledger>, id: i64) -> bool {
    exists|i: int| 0 <= i < ledgers.len() && ledgers[i].id == id
}

/// Some category row with this id is present.
pub open spec fn category_present(categories: Seq<CategoryRow>, id: i64) -> bool {
    exists|i: int| 0 <= i < categories.len() && categories[i].id == id
}

/// Some tag row with this id is present.
pub open spec fn tag_present(tags: Seq<Tag>, id: i64) -> bool {
    exists|i: int| 0 <= i < tags.len() && tags[i].id == id
}

/// Some tag row with this name is present.
pub open spec fn tag_named_present(tags: Seq<Tag>, name: Seq<char>) -> bool {
    exists|i: int| 0 <= i < tags.len() && tags[i].name@ == name
}

/// The index of the tag row with this name, where one exists; under the
/// invariant the name is unique, so the row is determined.
pub open spec fn tag_index_named(tags: Seq<Tag>, name: Seq<char>) -> int {
    choose|i: int| 0 <= i < tags.len() && tags[i].name@ == name
}

/// The id of the tag row with this name, where one exists.
pub open spec fn tag_id_named(tags: Seq<Tag>, name: Seq<char>) -> i64 {
    tags[tag_index_named(tags, name)].id
}

/// The index of the tag row with this id, where one exists; unique ids make
/// it determined.
pub open spec fn index_of_tag(tags: Seq<Tag>, id: i64) -> int {
    choose|i: int| 0 <= i < tags.len() && tags[i].id == id
}

/// The index of the ledger row with this id, where one exists.
pub open spec fn index_of_ledger(ledgers: Seq<Ledger>, id: i64) -> int {
    choose|i: int| 0 <= i < ledgers.len() && ledgers[i].id == id
}

/// The index of the category row with this id, where one exists.
pub open spec fn index_of_category(categories: Seq<CategoryRow>, id: i64) -> int {
    choose|i: int| 0 <= i < categories.len() && categories[i].id == id
}

/// The index of the account row with this id, where one exists.
pub open spec fn index_of_account(accounts: Seq<AccountRow>, id: i64) -> int {
    choose|i: int| 0 <= i < accounts.len() && accounts[i].id == id
}

/// The index of the credit extension row for this account, where one exists.
pub open spec fn index_of_credit_row(credit_rows: Seq<CreditRow>, id: i64) -> int {
    choose|i: int| 0 <= i < credit_rows.len() && credit_rows[i].account_id == id
}

/// The index of the invest extension row for this account, where one exists.
pub open spec fn index_of_invest_row(invest_rows: Seq<InvestRow>, id: i64) -> int {
    choose|i: int| 0 <= i < invest_rows.len() && invest_rows[i].account_id == id
}

/// The index of the transaction row with this id, where one exists.
pub open spec fn index_of_transaction(transactions: Seq<TransactionRow>, id: i64) -> int {
    choose|i: int| 0 <= i < transactions.len() && transactions[i].id == id
}

/// Some transaction row with this id is present.
pub open spec fn transaction_present(transactions: Seq<TransactionRow>, id: i64) -> bool {
    exists|i: int| 0 <= i < transactions.len() && transactions[i].id == id
}

/// An association row linking this transaction to this tag is present.
pub open spec fn link_present(links: Seq<TagLink>, transaction_id: i64, tag_id: i64) -> bool {
    exists|i: int|
        0 <= i < links.len() && links[i].transaction_id == transaction_id && links[i].tag_id
            == tag_id
}

/// Currency codes are unique keys.
pub open spec fn currencies_wf(currencies: Seq<Currency>) -> bool {
    forall|i: int, j: int|
        0 <= i < j < currencies.len() ==> currencies[i].code@ != currencies[j].code@
}

/// Base account rows: unique ids drawn below the counter, a valid currency
/// reference, and an extension row if and only if the variant carries one.
pub open spec fn accounts_wf(
    accounts: Seq<AccountRow>,
    credit_rows: Seq<CreditRow>,
    invest_rows: Seq<InvestRow>,
    currencies: Seq<Currency>,
    next_account_id: int,
) -> bool {
    &&& forall|i: int, j: int| 0 <= i < j < accounts.len() ==> accounts[i].id != accounts[j].id
    &&& forall|i: int|
        0 <= i < accounts.len() ==> 1 <= #[trigger] accounts[i].id < next_account_id
    &&& forall|i: int|
        0 <= i < accounts.len() ==> currency_present(currencies, #[trigger] accounts[i].currency@)
    &&& forall|i: int|
        0 <= i < accounts.len() ==> ((#[trigger] accounts[i].kind) == AccountKind::Credit
            <==> credit_row_present(credit_rows, accounts[i].id))
    &&& forall|i: int|
        0 <= i < accounts.len() ==> ((#[trigger] accounts[i].kind) == AccountKind::Invest
            <==> invest_row_present(invest_rows, accounts[i].id))
}

/// Credit extension rows: at most one per account, each linked to a base row
/// of the credit variant.
pub open spec fn credit_rows_wf(credit_rows: Seq<CreditRow>, accounts: Seq<AccountRow>) -> bool {
    &&& forall|i: int, j: int|
        0 <= i < j < credit_rows.len() ==> credit_rows[i].account_id != credit_rows[j].account_id
    &&& forall|i: int|
        0 <= i < credit_rows.len() ==> account_present_kind(
            accounts,
            #[trigger] credit_rows[i].account_id,
            AccountKind::Credit,
        )
}

/// Invest extension rows: at most one per account, each linked to a base row
/// of the invest variant.
pub open spec fn invest_rows_wf(invest_rows: Seq<InvestRow>, accounts: Seq<AccountRow>) -> bool {
    &&& forall|i: int, j: int|
        0 <= i < j < invest_rows.len() ==> invest_rows[i].account_id != invest_rows[j].account_id
    &&& forall|i: int|
        0 <= i < invest_rows.len() ==> account_present_kind(
            accounts,
            #[trigger] invest_rows[i].account_id,
            AccountKind::Invest,
        )
}

/// Ledger rows: unique ids drawn below the counter, a valid currency
/// reference, and a valid account reference where one is set.
pub open spec fn ledgers_wf(
    ledgers: Seq<Ledger>,
    currencies: Seq<Currency>,
    accounts: Seq<AccountRow>,
    next_ledger_id: int,
) -> bool {
    &&& forall|i: int, j: int| 0 <= i < j < ledgers.len() ==> ledgers[i].id != ledgers[j].id
    &&& forall|i: int| 0 <= i < ledgers.len() ==> 1 <= #[trigger] ledgers[i].id < next_ledger_id
    &&& forall|i: int|
        0 <= i < ledgers.len() ==> currency_present(
            currencies,
            #[trigger] ledgers[i].base_currency@,
        )
    &&& forall|i: int|
        0 <= i < ledgers.len() ==> ((#[trigger] ledgers[i].base_account) is Some
            ==> account_present(accounts, ledgers[i].base_account.unwrap()))
}

/// Category rows: unique ids drawn below the counter and a valid ledger
/// reference.
pub open spec fn categories_wf(
    categories: Seq<CategoryRow>,
    ledgers: Seq<Ledger>,
    next_category_id: int,
) -> bool {
    &&& forall|i: int, j: int|
        0 <= i < j < categories.len() ==> categories[i].id != categories[j].id
    &&& forall|i: int|
        0 <= i < categories.len() ==> 1 <= #[trigger] categories[i].id < next_category_id
    &&& forall|i: int|
        0 <= i < categories.len() ==> ledger_present(ledgers, #[trigger] categories[i].ledger_id)
}

/// Tag rows: unique ids drawn below the counter and globally unique names.
pub open spec fn tags_wf(tags: Seq<Tag>, next_tag_id: int) -> bool {
    &&& forall|i: int, j: int| 0 <= i < j < tags.len() ==> tags[i].id != tags[j].id
    &&& forall|i: int| 0 <= i < tags.len() ==> 1 <= #[trigger] tags[i].id < next_tag_id
    &&& forall|i: int, j: int| 0 <= i < j < tags.len() ==> tags[i].name@ != tags[j].name@
}

/// Transaction rows: unique ids drawn below the counter and valid ledger and
/// account references.
pub open spec fn transactions_wf(
    transactions: Seq<TransactionRow>,
    ledgers: Seq<Ledger>,
    accounts: Seq<AccountRow>,
    next_transaction_id: int,
) -> bool {
    &&& forall|i: int, j: int|
        0 <= i < j < transactions.len() ==> transactions[i].id != transactions[j].id
    &&& forall|i: int|
        0 <= i < transactions.len() ==> 1 <= #[trigger] transactions[i].id < next_transaction_id
    &&& forall|i: int|
        0 <= i < transactions.len() ==> ledger_present(
            ledgers,
            #[trigger] transactions[i].ledger_id,
        )
    &&& forall|i: int|
        0 <= i < transactions.len() ==> account_present(
            accounts,
            #[trigger] transactions[i].account_id,
        )
}

/// Association rows: unique `(transaction, tag)` pairs, each side a valid
/// reference.
pub open spec fn links_wf(
    links: Seq<TagLink>,
    transactions: Seq<TransactionRow>,
    tags: Seq<Tag>,
) -> bool {
    &&& forall|i: int, j: int|
        0 <= i < j < links.len() ==> !(links[i].transaction_id == links[j].transaction_id
            && links[i].tag_id == links[j].tag_id)
    &&& forall|i: int|
        0 <= i < links.len() ==> transaction_present(
            transactions,
            #[trigger] links[i].transaction_id,
        )
    &&& forall|i: int| 0 <= i < links.len() ==> tag_present(tags, #[trigger] links[i].tag_id)
}

impl DbView {
    /// Some currency with this code is present.
    pub open spec fn has_currency(self, code: Seq<char>) -> bool {
        currency_present(self.currencies, code)
    }

    /// Some account row with this id is present.
    pub open spec fn has_account(self, id: i64) -> bool {
        account_present(self.accounts, id)
    }

    /// Some credit extension row for this account id is present.
    pub open spec fn has_credit_row(self, id: i64) -> bool {
        credit_row_present(self.credit_rows, id)
    }

    /// Some invest extension row for this account id is present.
    pub open spec fn has_invest_row(self, id: i64) -> bool {
        invest_row_present(self.invest_rows, id)
    }

    /// Some ledger row with this id is present.
    pub open spec fn has_ledger(self, id: i64) -> bool {
        ledger_present(self.ledgers, id)
    }

    /// Some category row with this id is present.
    pub open spec fn has_category(self, id: i64) -> bool {
        category_present(self.categories, id)
    }

    /// Some tag row with this id is present.
    pub open spec fn has_tag(self, id: i64) -> bool {
        tag_present(self.tags, id)
    }

    /// Some tag row with this name is present.
    pub open spec fn has_tag_named(self, name: Seq<char>) -> bool {
        tag_named_present(self.tags, name)
    }

    /// The id of the tag row with this name, where one exists.
    pub open spec fn tag_id_named(self, name: Seq<char>) -> i64 {
        tag_id_named(self.tags, name)
    }

    /// Some transaction row with this id is present.
    pub open spec fn has_transaction(self, id: i64) -> bool {
        transaction_present(self.transactions, id)
    }

    /// An association row linking this transaction to this tag is present.
    pub open spec fn has_link(self, transaction_id: i64, tag_id: i64) -> bool {
        link_present(self.links, transaction_id, tag_id)
    }

    /// The store invariant: referential integrity across all tables, the 1:1
    /// variant-extension property, and uniqueness of every key.
    pub open spec fn inv(self) -> bool {
        &&& currencies_wf(self.currencies)
        &&& accounts_wf(
            self.accounts,
            self.credit_rows,
            self.invest_rows,
            self.currencies,
            self.next_account_id,
        )
        &&& credit_rows_wf(self.credit_rows, self.accounts)
        &&& invest_rows_wf(self.invest_rows, self.accounts)
        &&& ledgers_wf(self.ledgers, self.currencies, self.accounts, self.next_ledger_id)
        &&& categories_wf(self.categories, self.ledgers, self.next_category_id)
        &&& tags_wf(self.tags, self.next_tag_id)
        &&& transactions_wf(
            self.transactions,
            self.ledgers,
            self.accounts,
            self.next_transaction_id,
        )
        &&& links_wf(self.links, self.transactions, self.tags)
        &&& 1 <= self.next_account_id
        &&& 1 <= self.next_ledger_id
        &&& 1 <= self.next_category_id
        &&& 1 <= self.next_tag_id
        &&& 1 <= self.next_transaction_id
    }
}

/// The view of an empty store.
pub open spec fn empty_view() -> DbView {
    DbView {
        currencies: Seq::empty(),
        accounts: Seq::empty(),
        credit_rows: Seq::empty(),
        invest_rows: Seq::empty(),
        ledgers: Seq::empty(),
        categories: Seq::empty(),
        tags: Seq::empty(),
        transactions: Seq::empty(),
        links: Seq::empty(),
        next_account_id: 1,
        next_ledger_id: 1,
        next_category_id: 1,
        next_tag_id: 1,
        next_transaction_id: 1,
    }
}

impl Database {
    /// A fresh, empty store; the schema with no rows. Every id counter starts
    /// at one, as the autoincrement keys of the persisted schema do.
    pub fn new() -> (db: Database)
        ensures
            db@ == empty_view(),
            db@.inv(),
    {
        let db = Database {
            currencies: Vec::new(),
            accounts: Vec::new(),
            credit_rows: Vec::new(),
            invest_rows: Vec::new(),
            ledgers: Vec::new(),
            categories: Vec::new(),
            tags: Vec::new(),
            transactions: Vec::new(),
            links: Vec::new(),
            next_account_id: 1,
            next_ledger_id: 1,
            next_category_id: 1,
            next_tag_id: 1,
            next_transaction_id: 1,
        };
        proof {
            assert(db@ =~= empty_view());
        }
        db
    }
}

/// An equal copy of an optional string.
pub fn copy_opt_string(s: &Option<String>) -> (r: Option<String>)
    ensures
        r == *s,
{
    match s {
        Some(x) => Some(x.clone()),
        None => None,
    }
}

/// Presence of a row survives extending the table by one more row.
pub proof fn lemma_currency_present_push(currencies: Seq<Currency>, c: Currency, code: Seq<char>)
    requires
        currency_present(currencies, code),
    ensures
        currency_present(currencies.push(c), code),
{
    let w = choose|i: int| 0 <= i < currencies.len() && currencies[i].code@ == code;
    assert(currencies.push(c)[w].code@ == code);
}

/// Presence of an account survives extending the table by one more row.
pub proof fn lemma_account_present_push(accounts: Seq<AccountRow>, a: AccountRow, id: i64)
    requires
        account_present(accounts, id),
    ensures
        account_present(accounts.push(a), id),
{
    let w = choose|i: int| 0 <= i < accounts.len() && accounts[i].id == id;
    assert(accounts.push(a)[w].id == id);
}

/// Presence of an account of a given kind survives extending the table.
pub proof fn lemma_account_present_kind_push(
    accounts: Seq<AccountRow>,
    a: AccountRow,
    id: i64,
    kind: AccountKind,
)
    requires
        account_present_kind(accounts, id, kind),
    ensures
        account_present_kind(accounts.push(a), id, kind),
{
    let w = choose|i: int| 0 <= i < accounts.len() && accounts[i].id == id && accounts[i].kind == kind;
    assert(accounts.push(a)[w].id == id && accounts.push(a)[w].kind == kind);
}

/// Presence of a ledger survives extending the table by one more row.
pub proof fn lemma_ledger_present_push(ledgers: Seq<Ledger>, l: Ledger, id: i64)
    requires
        ledger_present(ledgers, id),
    ensures
        ledger_present(ledgers.push(l), id),
{
    let w = choose|i: int| 0 <= i < ledgers.len() && ledgers[i].id == id;
    assert(ledgers.push(l)[w].id == id);
}

/// Presence of a tag survives extending the table by one more row.
pub proof fn lemma_tag_present_push(tags: Seq<Tag>, t: Tag, id: i64)
    requires
        tag_present(tags, id),
    ensures
        tag_present(tags.push(t), id),
{
    let w = choose|i: int| 0 <= i < tags.len() && tags[i].id == id;
    assert(tags.push(t)[w].id == id);
}

/// Extending the tag table by a row with a fresh name moves no existing
/// name: the id a name resolves to is stable.
pub proof fn lemma_tag_id_named_push_stable(tags: Seq<Tag>, t: Tag, n: Seq<char>)
    requires
        forall|i: int, j: int| 0 <= i < j < tags.len() ==> tags[i].name@ != tags[j].name@,
        tag_named_present(tags, n),
        t.name@ != n,
    ensures
        tag_named_present(tags.push(t), n),
        tag_id_named(tags.push(t), n) == tag_id_named(tags, n),
{
    let w = tag_index_named(tags, n);
    assert(tags[w].name@ == n);
    assert(tags.push(t)[w].name@ == n);
    let v = tag_index_named(tags.push(t), n);
    assert(tags.push(t)[v].name@ == n);
    if v == tags.len() {
        assert(false);
    }
    if v != w {
        assert(false);
    }
}

/// In any well-formed store an account carries an extension row exactly when
/// its variant demands one, and each extension table holds at most one row
/// per account.
pub proof fn lemma_extension_rows_match_variant(v: DbView, i: int)
    requires
        v.inv(),
        0 <= i < v.accounts.len(),
    ensures
        v.accounts[i].kind == AccountKind::Credit <==> credit_row_present(
            v.credit_rows,
            v.accounts[i].id,
        ),
        v.accounts[i].kind == AccountKind::Invest <==> invest_row_present(
            v.invest_rows,
            v.accounts[i].id,
        ),
        forall|a: int, b: int|
            0 <= a < b < v.credit_rows.len() ==> v.credit_rows[a].account_id
                != v.credit_rows[b].account_id,
        forall|a: int, b: int|
            0 <= a < b < v.invest_rows.len() ==> v.invest_rows[a].account_id
                != v.invest_rows[b].account_id,
{
}

/// In any well-formed store a tag name identifies at most one row: the
/// uniqueness half of idempotent tag resolution.
pub proof fn lemma_tag_name_unique(v: DbView, i: int, j: int)
    requires
        v.inv(),
        0 <= i < v.tags.len(),
        0 <= j < v.tags.len(),
        v.tags[i].name@ == v.tags[j].name@,
    ensures
        i == j,
{
}

/// Presence of a transaction survives extending the table by one more row.
pub proof fn lemma_transaction_present_push(
    transactions: Seq<TransactionRow>,
    t: TransactionRow,
    id: i64,
)
    requires
        transaction_present(transactions, id),
    ensures
        transaction_present(transactions.push(t), id),
{
    let w = choose|i: int| 0 <= i < transactions.len() && transactions[i].id == id;
    assert(transactions.push(t)[w].id == id);
}

/// Filtering a sequence commutes with extending the taken prefix by one
/// element: the step lemma behind every row-removal loop.
pub proof fn lemma_filter_take_step<A>(s: Seq<A>, pred: spec_fn(A) -> bool, i: int)
    requires
        0 <= i < s.len(),
    ensures
        s.take(i + 1).filter(pred) == if pred(s[i]) {
            s.take(i).filter(pred).push(s[i])
        } else {
            s.take(i).filter(pred)
        },
{
    reveal(Seq::filter);
    assert(s.take(i + 1).drop_last() =~= s.take(i));
    assert(s.take(i + 1).last() == s[i]);
}

/// A filtered sequence keeps the pairwise distinctness of any key.
pub proof fn lemma_filter_keeps_distinct_key<A, K>(
    s: Seq<A>,
    pred: spec_fn(A) -> bool,
    key: spec_fn(A) -> K,
)
    requires
        forall|i: int, j: int| 0 <= i < j < s.len() ==> key(s[i]) != key(s[j]),
    ensures
        forall|i: int, j: int|
            0 <= i < j < s.filter(pred).len() ==> key(s.filter(pred)[i]) != key(s.filter(pred)[j]),
    decreases s.len(),
{
    reveal(Seq::filter);
    if s.len() > 0 {
        let rest = s.drop_last();
        lemma_filter_keeps_distinct_key(rest, pred, key);
        assert forall|i: int, j: int|
            0 <= i < j < s.filter(pred).len() implies key(s.filter(pred)[i]) != key(
            s.filter(pred)[j],
        ) by {
            if pred(s.last()) && j == s.filter(pred).len() - 1 {
                // the last filtered element is the last of `s`; anything before
                // it comes from `rest`, whose keys all differ from the last key
                assert(s.filter(pred) == rest.filter(pred).push(s.last()));
                assert(s.filter(pred)[j] == s.last());
                assert(s.filter(pred)[i] == rest.filter(pred)[i]);
                lemma_filter_element_origin(rest, pred, i);
                let w = choose|w: int| 0 <= w < rest.len() && rest[w] == rest.filter(pred)[i];
                assert(rest[w] == s[w]);
                assert(key(s[w]) != key(s[s.len() - 1]));
            } else {
                assert(s.filter(pred)[i] == rest.filter(pred)[i]);
                assert(s.filter(pred)[j] == rest.filter(pred)[j]);
            }
        }
    }
}

/// Every element of a filtered sequence comes from the original sequence and
/// satisfies the predicate.
pub proof fn lemma_filter_element_origin<A>(s: Seq<A>, pred: spec_fn(A) -> bool, i: int)
    requires
        0 <= i < s.filter(pred).len(),
    ensures
        pred(s.filter(pred)[i]),
        exists|w: int| 0 <= w < s.len() && s[w] == s.filter(pred)[i],
    decreases s.len(),
{
    reveal(Seq::filter);
    broadcast use vstd::seq_lib::group_filter_ensures;

    if s.len() > 0 {
        let rest = s.drop_last();
        if pred(s.last()) && i == s.filter(pred).len() - 1 {
            assert(s[s.len() - 1] == s.filter(pred)[i]);
        } else {
            lemma_filter_element_origin(rest, pred, i);
            let w = choose|w: int| 0 <= w < rest.len() && rest[w] == rest.filter(pred)[i];
            assert(s[w] == s.filter(pred)[i]);
        }
    }
}

/// A row that satisfies the predicate is kept by the filter.
pub proof fn lemma_filter_keeps_matching<A>(s: Seq<A>, pred: spec_fn(A) -> bool, w: int)
    requires
        0 <= w < s.len(),
        pred(s[w]),
    ensures
        exists|i: int| 0 <= i < s.filter(pred).len() && s.filter(pred)[i] == s[w],
    decreases s.len(),
{
    reveal(Seq::filter);
    broadcast use vstd::seq_lib::group_filter_ensures;

    if s.len() > 0 {
        let rest = s.drop_last();
        if w == s.len() - 1 {
            assert(s.filter(pred)[s.filter(pred).len() - 1] == s[w]);
        } else {
            lemma_filter_keeps_matching(rest, pred, w);
            let i = choose|i: int|
                0 <= i < rest.filter(pred).len() && rest.filter(pred)[i] == rest[w];
            assert(s.filter(pred)[i] == s[w]);
        }
    }
}

} // verus!
