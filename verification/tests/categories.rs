use finledger::category::CategoryType;
use finledger::currency::Currency;
use finledger::db::Database;
use finledger::error::StoreError;
use finledger::subcats::{decode_subcategories, encode_subcategories};

fn db_with_ledger() -> (Database, i64) {
    let mut db = Database::new();
    db.insert_currency(Currency {
        code: "USD".to_string(),
        name: "United States Dollar".to_string(),
        symbol: "$".to_string(),
    })
    .unwrap();
    let lid = db.create_ledger("home".to_string(), "USD".to_string(), None, false).unwrap();
    (db, lid)
}

#[test]
fn category_subcategories_round_trip_in_order() {
    let (mut db, lid) = db_with_ledger();
    let id = db
        .insert_category(
            lid,
            "housing".to_string(),
            Some("house".to_string()),
            Some("blue".to_string()),
            vec!["rent".to_string(), "utilities".to_string()],
            CategoryType::Expense,
        )
        .unwrap();
    let cats = db.get_categories_for_ledger(lid, CategoryType::Expense);
    assert_eq!(cats.len(), 1);
    assert_eq!(cats[0].id, id);
    assert_eq!(cats[0].name, "housing");
    assert_eq!(cats[0].icon, Some("house".to_string()));
    assert_eq!(cats[0].color, Some("blue".to_string()));
    assert_eq!(cats[0].subcategories, vec!["rent".to_string(), "utilities".to_string()]);
}

#[test]
fn corrupted_subcategory_text_reads_as_empty_list() {
    let (mut db, lid) = db_with_ledger();
    db.insert_category(
        lid,
        "housing".to_string(),
        None,
        None,
        vec!["rent".to_string(), "utilities".to_string()],
        CategoryType::Expense,
    )
    .unwrap();
    // corrupt the stored encoding out of band
    db.categories[0].subcategories = "garbage".to_string();
    let cats = db.get_categories_for_ledger(lid, CategoryType::Expense);
    assert_eq!(cats.len(), 1);
    assert_eq!(cats[0].subcategories, Vec::<String>::new());
}

#[test]
fn encoding_has_the_documented_shape() {
    let items = vec!["rent".to_string(), "utilities".to_string()];
    assert_eq!(encode_subcategories(&items), "4:rent9:utilities");
    assert_eq!(encode_subcategories(&Vec::new()), "");
    let long = "x".repeat(12);
    assert_eq!(encode_subcategories(&vec![long.clone()]), format!("12:{}", long));
}

#[test]
fn decoding_inverts_encoding() {
    let cases: Vec<Vec<String>> = vec![
        vec![],
        vec!["".to_string()],
        vec!["rent".to_string(), "utilities".to_string()],
        vec!["a:b".to_string(), "7:seven".to_string(), "".to_string()],
        vec!["caf\u{e9} \u{1f600}".to_string()],
    ];
    for items in cases {
        let text = encode_subcategories(&items);
        assert_eq!(decode_subcategories(&text), items);
    }
}

#[test]
fn malformed_encodings_decode_to_the_empty_list() {
    for text in [
        "garbage",
        "4:abc",
        "2:abc",
        ":abc",
        "01:a",
        "3",
        "3:",
        "99999999999999999999999:a",
        "4:rent9:util",
    ] {
        assert_eq!(decode_subcategories(&text.to_string()), Vec::<String>::new());
    }
}

#[test]
fn update_category_keeps_its_ledger_and_reencodes() {
    let (mut db, lid) = db_with_ledger();
    let id = db
        .insert_category(lid, "housing".to_string(), None, None, vec!["rent".to_string()], CategoryType::Expense)
        .unwrap();
    db.update_category(
        id,
        "shelter".to_string(),
        None,
        None,
        vec!["mortgage".to_string(), "tax".to_string()],
        CategoryType::Expense,
    )
    .unwrap();
    let cats = db.get_categories_for_ledger(lid, CategoryType::Expense);
    assert_eq!(cats.len(), 1);
    assert_eq!(cats[0].name, "shelter");
    assert_eq!(cats[0].subcategories, vec!["mortgage".to_string(), "tax".to_string()]);
    // updating an absent id succeeds and changes nothing
    assert_eq!(db.update_category(999, "x".to_string(), None, None, vec![], CategoryType::Income), Ok(()));
    assert_eq!(db.get_categories_for_ledger(lid, CategoryType::Expense).len(), 1);
    assert_eq!(db.get_categories_for_ledger(lid, CategoryType::Income).len(), 0);
}

#[test]
fn get_categories_filters_by_ledger_and_type() {
    let (mut db, lid) = db_with_ledger();
    let other = db.create_ledger("work".to_string(), "USD".to_string(), None, false).unwrap();
    db.insert_category(lid, "food".to_string(), None, None, vec![], CategoryType::Expense).unwrap();
    db.insert_category(lid, "salary".to_string(), None, None, vec![], CategoryType::Income).unwrap();
    db.insert_category(other, "rent".to_string(), None, None, vec![], CategoryType::Expense).unwrap();
    let cats = db.get_categories_for_ledger(lid, CategoryType::Expense);
    assert_eq!(cats.len(), 1);
    assert_eq!(cats[0].name, "food");
}

#[test]
fn insert_category_unknown_ledger_is_constraint_error() {
    let mut db = Database::new();
    assert_eq!(
        db.insert_category(3, "x".to_string(), None, None, vec![], CategoryType::Expense),
        Err(StoreError::Constraint)
    );
}

#[test]
fn delete_category_is_idempotent() {
    let (mut db, lid) = db_with_ledger();
    let id = db
        .insert_category(lid, "x".to_string(), None, None, vec![], CategoryType::Transfer)
        .unwrap();
    assert_eq!(db.delete_category(id), Ok(()));
    assert_eq!(db.delete_category(id), Ok(()));
    assert_eq!(db.get_categories_for_ledger(lid, CategoryType::Transfer).len(), 0);
}
