use finledger::account::{AccountKind, NewAccount};
use finledger::category::CategoryType;
use finledger::currency::Currency;
use finledger::db::Database;
use finledger::error::StoreError;

fn usd() -> Currency {
    Currency { code: "USD".to_string(), name: "United States Dollar".to_string(), symbol: "$".to_string() }
}

fn db_with_usd() -> Database {
    let mut db = Database::new();
    db.insert_currency(usd()).unwrap();
    db
}

fn debit_input(name: &str) -> NewAccount {
    NewAccount {
        name: name.to_string(),
        kind: AccountKind::Debit,
        balance: 50_0000,
        currency: "USD".to_string(),
        note: None,
        count_in_asset: true,
        credit_limit: None,
        owed: None,
        billing_date: None,
        due_date: None,
        avg_cost: None,
        quantity: None,
        total_cap: None,
    }
}

fn credit_input(name: &str) -> NewAccount {
    NewAccount {
        name: name.to_string(),
        kind: AccountKind::Credit,
        balance: 0,
        currency: "USD".to_string(),
        note: Some("card".to_string()),
        count_in_asset: true,
        credit_limit: Some(1000_0000),
        owed: Some(200_0000),
        billing_date: Some("2024-01-01".to_string()),
        due_date: Some("2024-01-15".to_string()),
        avg_cost: None,
        quantity: None,
        total_cap: None,
    }
}

fn invest_input(name: &str) -> NewAccount {
    NewAccount {
        name: name.to_string(),
        kind: AccountKind::Invest,
        balance: 0,
        currency: "USD".to_string(),
        note: None,
        count_in_asset: false,
        credit_limit: None,
        owed: None,
        billing_date: None,
        due_date: None,
        avg_cost: Some(12_5000),
        quantity: Some(8_0000),
        total_cap: Some(100_0000),
    }
}

#[test]
fn create_credit_account_missing_any_field_is_validation_error() {
    for missing in 0..4 {
        let mut db = db_with_usd();
        let mut input = credit_input("card");
        match missing {
            0 => input.credit_limit = None,
            1 => input.owed = None,
            2 => input.billing_date = None,
            _ => input.due_date = None,
        }
        assert_eq!(db.create_account(input), Err(StoreError::Validation));
        assert_eq!(db.accounts.len(), 0);
        assert_eq!(db.credit_rows.len(), 0);
        assert_eq!(db.invest_rows.len(), 0);
    }
}

#[test]
fn create_invest_account_missing_any_field_is_validation_error() {
    for missing in 0..3 {
        let mut db = db_with_usd();
        let mut input = invest_input("stocks");
        match missing {
            0 => input.avg_cost = None,
            1 => input.quantity = None,
            _ => input.total_cap = None,
        }
        assert_eq!(db.create_account(input), Err(StoreError::Validation));
        assert_eq!(db.accounts.len(), 0);
        assert_eq!(db.credit_rows.len(), 0);
        assert_eq!(db.invest_rows.len(), 0);
    }
}

#[test]
fn create_account_unknown_currency_is_constraint_error() {
    let mut db = Database::new();
    assert_eq!(db.create_account(debit_input("cash")), Err(StoreError::Constraint));
    assert_eq!(db.accounts.len(), 0);
}

#[test]
fn created_credit_account_reads_back_exactly() {
    let mut db = db_with_usd();
    let id = db.create_account(credit_input("card")).unwrap();
    let accounts = db.read_accounts();
    assert_eq!(accounts.len(), 1);
    let a = &accounts[0];
    assert_eq!(a.id, id);
    assert_eq!(a.name, "card");
    assert_eq!(a.account_type, AccountKind::Credit);
    assert_eq!(a.balance, 0);
    assert_eq!(a.currency, "USD");
    assert_eq!(a.note, Some("card".to_string()));
    assert_eq!(a.credit_limit, Some(1000_0000));
    assert_eq!(a.owed, Some(200_0000));
    assert_eq!(a.billing_date, Some("2024-01-01".to_string()));
    assert_eq!(a.due_date, Some("2024-01-15".to_string()));
    assert_eq!(a.avg_cost, None);
    assert_eq!(a.quantity, None);
    assert_eq!(a.total_cap, None);
}

#[test]
fn created_debit_account_has_no_extension_fields() {
    let mut db = db_with_usd();
    db.create_account(debit_input("cash")).unwrap();
    let accounts = db.read_accounts();
    assert_eq!(accounts.len(), 1);
    let a = &accounts[0];
    assert_eq!(a.account_type, AccountKind::Debit);
    assert_eq!(a.credit_limit, None);
    assert_eq!(a.owed, None);
    assert_eq!(a.billing_date, None);
    assert_eq!(a.due_date, None);
    assert_eq!(a.avg_cost, None);
    assert_eq!(a.quantity, None);
    assert_eq!(a.total_cap, None);
    assert_eq!(db.credit_rows.len(), 0);
    assert_eq!(db.invest_rows.len(), 0);
}

#[test]
fn created_member_account_has_no_extension_rows() {
    let mut db = db_with_usd();
    let mut input = debit_input("friend");
    input.kind = AccountKind::Member;
    // stray extension fields of other variants are ignored, not persisted
    input.credit_limit = Some(7);
    db.create_account(input).unwrap();
    let accounts = db.read_accounts();
    assert_eq!(accounts[0].account_type, AccountKind::Member);
    assert_eq!(accounts[0].credit_limit, None);
    assert_eq!(db.credit_rows.len(), 0);
    assert_eq!(db.invest_rows.len(), 0);
}

#[test]
fn delete_account_removes_credit_extension_row() {
    let mut db = db_with_usd();
    let id = db.create_account(credit_input("card")).unwrap();
    assert_eq!(db.credit_rows.len(), 1);
    db.delete_account(id).unwrap();
    assert_eq!(db.read_accounts().len(), 0);
    assert!(db.credit_rows.iter().all(|c| c.account_id != id));
    assert_eq!(db.credit_rows.len(), 0);
}

#[test]
fn delete_account_is_idempotent() {
    let mut db = db_with_usd();
    assert_eq!(db.delete_account(42), Ok(()));
    let id = db.create_account(debit_input("cash")).unwrap();
    db.delete_account(id).unwrap();
    assert_eq!(db.delete_account(id), Ok(()));
}

#[test]
fn delete_account_cascades_to_transactions_and_clears_ledger_base() {
    let mut db = db_with_usd();
    let aid = db.create_account(debit_input("cash")).unwrap();
    let lid = db.create_ledger("home".to_string(), "USD".to_string(), Some(aid), false).unwrap();
    db.create_transaction(lid, aid, 5_0000, "USD".to_string(), "2024-02-02".to_string(), vec!["food".to_string()], None)
        .unwrap();
    assert_eq!(db.transactions.len(), 1);
    assert_eq!(db.links.len(), 1);
    db.delete_account(aid).unwrap();
    assert_eq!(db.transactions.len(), 0);
    assert_eq!(db.links.len(), 0);
    let ledgers = db.get_ledgers();
    assert_eq!(ledgers.len(), 1);
    assert_eq!(ledgers[0].base_account, None);
    // the tag itself persists
    assert_eq!(db.tags.len(), 1);
}

#[test]
fn update_account_variant_change_replaces_extension_rows() {
    let mut db = db_with_usd();
    let id = db.create_account(debit_input("cash")).unwrap();
    assert_eq!(db.update_account(id, credit_input("card")), Ok(()));
    assert_eq!(db.credit_rows.len(), 1);
    assert_eq!(db.credit_rows[0].account_id, id);
    assert_eq!(db.credit_rows[0].credit_limit, 1000_0000);
    // and back: the stale credit row is deleted in the same step
    assert_eq!(db.update_account(id, debit_input("cash")), Ok(()));
    assert_eq!(db.credit_rows.len(), 0);
    assert_eq!(db.invest_rows.len(), 0);
    let accounts = db.read_accounts();
    assert_eq!(accounts[0].account_type, AccountKind::Debit);
}

#[test]
fn update_account_missing_fields_leaves_state_intact() {
    let mut db = db_with_usd();
    let id = db.create_account(credit_input("card")).unwrap();
    let mut bad = credit_input("changed");
    bad.credit_limit = None;
    assert_eq!(db.update_account(id, bad), Err(StoreError::Validation));
    let accounts = db.read_accounts();
    assert_eq!(accounts[0].name, "card");
    assert_eq!(accounts[0].credit_limit, Some(1000_0000));
}

#[test]
fn update_account_unknown_id_is_a_no_op() {
    let mut db = db_with_usd();
    let id = db.create_account(debit_input("cash")).unwrap();
    assert_eq!(db.update_account(id + 7, credit_input("ghost")), Ok(()));
    assert_eq!(db.accounts.len(), 1);
    assert_eq!(db.credit_rows.len(), 0);
    let accounts = db.read_accounts();
    assert_eq!(accounts[0].name, "cash");
}

#[test]
fn update_ledger_unknown_id_is_a_no_op() {
    let mut db = db_with_usd();
    let id = db.create_ledger("home".to_string(), "USD".to_string(), None, false).unwrap();
    assert_eq!(db.update_ledger(id + 7, "ghost".to_string(), "USD".to_string(), None, true), Ok(()));
    let ledgers = db.get_ledgers();
    assert_eq!(ledgers.len(), 1);
    assert_eq!(ledgers[0].name, "home");
    assert!(!ledgers[0].is_archived);
}

#[test]
fn update_transaction_unknown_id_is_a_no_op() {
    let mut db = db_with_usd();
    let aid = db.create_account(debit_input("cash")).unwrap();
    let lid = db.create_ledger("home".to_string(), "USD".to_string(), None, false).unwrap();
    let r = db.update_transaction(
        42,
        lid,
        aid,
        1_0000,
        "USD".to_string(),
        "2024-03-01".to_string(),
        vec!["ghost".to_string()],
        None,
    );
    assert_eq!(r, Ok(()));
    assert_eq!(db.transactions.len(), 0);
    assert_eq!(db.tags.len(), 0);
    assert_eq!(db.links.len(), 0);
}

#[test]
fn update_tag_unknown_id_is_a_no_op() {
    let mut db = Database::new();
    db.create_tag("food".to_string(), None).unwrap();
    assert_eq!(db.update_tag(99, "ghost".to_string(), None), Ok(()));
    let tags = db.get_tags();
    assert_eq!(tags.len(), 1);
    assert_eq!(tags[0].name, "food");
}

#[test]
fn exhausted_id_counter_is_a_storage_error() {
    let mut db = db_with_usd();
    db.next_tag_id = i64::MAX;
    assert_eq!(db.create_tag("food".to_string(), None), Err(StoreError::Storage));
    assert_eq!(db.insert_or_get_tag("food".to_string()), Err(StoreError::Storage));
    assert_eq!(db.tags.len(), 0);
    db.next_account_id = i64::MAX;
    assert_eq!(db.create_account(debit_input("cash")), Err(StoreError::Storage));
    assert_eq!(db.accounts.len(), 0);
    db.next_ledger_id = i64::MAX;
    assert_eq!(
        db.create_ledger("home".to_string(), "USD".to_string(), None, false),
        Err(StoreError::Storage)
    );
    assert_eq!(db.ledgers.len(), 0);
}

#[test]
fn two_transactions_same_tag_resolve_to_one_tag_row() {
    let mut db = db_with_usd();
    let aid = db.create_account(debit_input("cash")).unwrap();
    let lid = db.create_ledger("home".to_string(), "USD".to_string(), None, false).unwrap();
    db.create_transaction(lid, aid, 1_0000, "USD".to_string(), "2024-03-01".to_string(), vec!["food".to_string()], None)
        .unwrap();
    db.create_transaction(lid, aid, 2_0000, "USD".to_string(), "2024-03-02".to_string(), vec!["food".to_string()], None)
        .unwrap();
    let food_rows = db.tags.iter().filter(|t| t.name == "food").count();
    assert_eq!(food_rows, 1);
    for txn in db.read_transactions() {
        let count = db.links.iter().filter(|l| l.transaction_id == txn.id).count();
        assert_eq!(count, 1);
    }
}

#[test]
fn duplicate_tag_names_in_one_transaction_collapse() {
    let mut db = db_with_usd();
    let aid = db.create_account(debit_input("cash")).unwrap();
    let lid = db.create_ledger("home".to_string(), "USD".to_string(), None, false).unwrap();
    db.create_transaction(
        lid,
        aid,
        1_0000,
        "USD".to_string(),
        "2024-03-01".to_string(),
        vec!["food".to_string(), "food".to_string()],
        None,
    )
    .unwrap();
    assert_eq!(db.tags.len(), 1);
    assert_eq!(db.links.len(), 1);
}

#[test]
fn update_transaction_replaces_tag_set_without_residue() {
    let mut db = db_with_usd();
    let aid = db.create_account(debit_input("cash")).unwrap();
    let lid = db.create_ledger("home".to_string(), "USD".to_string(), None, false).unwrap();
    db.create_transaction(lid, aid, 1_0000, "USD".to_string(), "2024-03-01".to_string(), vec!["food".to_string()], None)
        .unwrap();
    let id = db.read_transactions()[0].id;
    db.update_transaction(
        id,
        lid,
        aid,
        1_0000,
        "USD".to_string(),
        "2024-03-01".to_string(),
        vec!["transport".to_string()],
        None,
    )
    .unwrap();
    let txns = db.read_transactions();
    assert_eq!(txns.len(), 1);
    assert_eq!(txns[0].tags, vec!["transport".to_string()]);
}

#[test]
fn create_transaction_unknown_ledger_is_constraint_error() {
    let mut db = db_with_usd();
    let aid = db.create_account(debit_input("cash")).unwrap();
    let r = db.create_transaction(7, aid, 1_0000, "USD".to_string(), "2024-03-01".to_string(), vec![], None);
    assert_eq!(r, Err(StoreError::Constraint));
    assert_eq!(db.transactions.len(), 0);
}

#[test]
fn delete_transaction_removes_associations_but_not_tags() {
    let mut db = db_with_usd();
    let aid = db.create_account(debit_input("cash")).unwrap();
    let lid = db.create_ledger("home".to_string(), "USD".to_string(), None, false).unwrap();
    db.create_transaction(lid, aid, 1_0000, "USD".to_string(), "2024-03-01".to_string(), vec!["food".to_string()], None)
        .unwrap();
    let id = db.read_transactions()[0].id;
    db.delete_transaction(id).unwrap();
    assert_eq!(db.transactions.len(), 0);
    assert_eq!(db.links.len(), 0);
    assert_eq!(db.tags.len(), 1);
    // idempotent on an absent id
    assert_eq!(db.delete_transaction(id), Ok(()));
}

#[test]
fn insert_or_get_tag_is_idempotent() {
    let mut db = Database::new();
    let first = db.insert_or_get_tag("food".to_string()).unwrap();
    let second = db.insert_or_get_tag("food".to_string()).unwrap();
    assert_eq!(first, second);
    assert_eq!(db.tags.len(), 1);
    let other = db.insert_or_get_tag("transport".to_string()).unwrap();
    assert_ne!(first, other);
    assert_eq!(db.tags.len(), 2);
}

#[test]
fn create_tag_duplicate_name_is_constraint_error() {
    let mut db = Database::new();
    db.create_tag("food".to_string(), None).unwrap();
    assert_eq!(db.create_tag("food".to_string(), Some("red".to_string())), Err(StoreError::Constraint));
    assert_eq!(db.tags.len(), 1);
}

#[test]
fn update_tag_enforces_name_uniqueness() {
    let mut db = Database::new();
    let a = db.create_tag("food".to_string(), None).unwrap();
    let b = db.create_tag("transport".to_string(), None).unwrap();
    assert_eq!(db.update_tag(b, "food".to_string(), None), Err(StoreError::Constraint));
    assert_eq!(db.update_tag(a, "food".to_string(), Some("red".to_string())), Ok(()));
    let tags = db.get_tags();
    assert_eq!(tags.len(), 2);
    assert_eq!(tags[0].name, "food");
    assert_eq!(tags[0].color, Some("red".to_string()));
}

#[test]
fn delete_tag_removes_its_associations() {
    let mut db = db_with_usd();
    let aid = db.create_account(debit_input("cash")).unwrap();
    let lid = db.create_ledger("home".to_string(), "USD".to_string(), None, false).unwrap();
    db.create_transaction(lid, aid, 1_0000, "USD".to_string(), "2024-03-01".to_string(), vec!["food".to_string()], None)
        .unwrap();
    let tid = db.tags[0].id;
    db.delete_tag(tid).unwrap();
    assert_eq!(db.tags.len(), 0);
    assert_eq!(db.links.len(), 0);
    assert_eq!(db.transactions.len(), 1);
}

#[test]
fn ledger_crud_round_trip() {
    let mut db = db_with_usd();
    let id = db.create_ledger("home".to_string(), "USD".to_string(), None, false).unwrap();
    let l = db.get_ledger(id).unwrap();
    assert_eq!(l.name, "home");
    assert_eq!(l.base_currency, "USD");
    assert_eq!(l.base_account, None);
    assert!(!l.is_archived);
    db.update_ledger(id, "work".to_string(), "USD".to_string(), None, true).unwrap();
    let l = db.get_ledger(id).unwrap();
    assert_eq!(l.name, "work");
    assert!(l.is_archived);
    db.delete_ledger(id).unwrap();
    assert!(matches!(db.get_ledger(id), Err(StoreError::NotFound)));
    assert_eq!(db.get_ledgers().len(), 0);
}

#[test]
fn create_ledger_unknown_currency_is_constraint_error() {
    let mut db = Database::new();
    assert_eq!(
        db.create_ledger("home".to_string(), "EUR".to_string(), None, false),
        Err(StoreError::Constraint)
    );
}

#[test]
fn create_ledger_unknown_base_account_is_constraint_error() {
    let mut db = db_with_usd();
    assert_eq!(
        db.create_ledger("home".to_string(), "USD".to_string(), Some(5), false),
        Err(StoreError::Constraint)
    );
}

#[test]
fn delete_ledger_cascades_to_categories_and_transactions() {
    let mut db = db_with_usd();
    let aid = db.create_account(debit_input("cash")).unwrap();
    let lid = db.create_ledger("home".to_string(), "USD".to_string(), None, false).unwrap();
    db.insert_category(lid, "groceries".to_string(), None, None, vec![], CategoryType::Expense).unwrap();
    db.create_transaction(lid, aid, 1_0000, "USD".to_string(), "2024-03-01".to_string(), vec!["food".to_string()], None)
        .unwrap();
    db.delete_ledger(lid).unwrap();
    assert_eq!(db.categories.len(), 0);
    assert_eq!(db.transactions.len(), 0);
    assert_eq!(db.links.len(), 0);
    assert_eq!(db.read_accounts().len(), 1);
}

#[test]
fn insert_currency_duplicate_code_is_constraint_error() {
    let mut db = db_with_usd();
    assert_eq!(db.insert_currency(usd()), Err(StoreError::Constraint));
    assert_eq!(db.get_currencies().len(), 1);
}

#[test]
fn error_descriptions_name_their_kind() {
    assert_eq!(
        StoreError::Validation.describe(),
        "required fields for the account variant are missing"
    );
    assert_eq!(StoreError::NotFound.describe(), "no row with the requested id exists");
    assert_eq!(
        StoreError::Constraint.describe(),
        "a foreign-key or uniqueness constraint is violated"
    );
    assert_eq!(StoreError::Storage.describe(), "the storage layer failed");
}
