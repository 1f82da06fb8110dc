use vstd::prelude::*;

use crate::db::Database;
use crate::db::DbView;
use crate::db::category_present;
use crate::db::index_of_category;
use crate::db::ledger_present;
use crate::db::lemma_filter_element_origin;
use crate::db::lemma_filter_keeps_distinct_key;
use crate::db::lemma_filter_take_step;
use crate::error::StoreError;
use crate::subcats::decode_or_empty;
use crate::subcats::decode_subcategories;
use crate::subcats::encode_subcats;
use crate::subcats::encode_subcategories;
use crate::subcats::str_views;

verus! {

/// The kind of a category.
#[derive(Clone, Copy, Debug, PartialEq, Eq, Structural)]
pub enum CategoryType {
    Expense,
    Income,
    Transfer,
}

/// A row of the `categories` table. The subcategory list has no identity of
/// its own: it is persisted inside the row as one encoded text column.
pub struct CategoryRow {
    pub id: i64,
    pub ledger_id: i64,
    pub name: String,
    pub icon: Option<String>,
    pub color: Option<String>,
    pub category_type: CategoryType,
    pub subcategories: String,
}

/// Keeps every category row but the one with the given id.
pub open spec fn category_row_kept(id: i64) -> spec_fn(CategoryRow) -> bool {
    |c: CategoryRow| c.id != id
}

/// Keeps every category row not belonging to the given ledger.
pub open spec fn category_kept_for_ledger(ledger_id: i64) -> spec_fn(CategoryRow) -> bool {
    |c: CategoryRow| c.ledger_id != ledger_id
}

impl CategoryRow {
    /// An equal copy of the row.
    pub fn duplicate(&self) -> (r: CategoryRow)
        ensures
            r == *self,
    {
        CategoryRow {
            id: self.id,
            ledger_id: self.ledger_id,
            name: self.name.clone(),
            icon: crate::db::copy_opt_string(&self.icon),
            color: crate::db::copy_opt_string(&self.color),
            category_type: self.category_type,
            subcategories: self.subcategories.clone(),
        }
    }
}

impl Database {
    /// The position of the category row carrying this id, if any.
    pub(crate) fn category_index_by_id(&self, id: i64) -> (r: Option<usize>)
        ensures
            match r {
                Some(i) => i < self@.categories.len() && self@.categories[i as int].id == id,
                None => !category_present(self@.categories, id),
            },
    {
        let mut i: usize = 0;
        while i < self.categories.len()
            invariant
                i <= self.categories@.len(),
                forall|k: int| 0 <= k < i ==> self.categories@[k].id != id,
            decreases self.categories@.len() - i,
        {
            if self.categories[i].id == id {
                return Some(i);
            }
            i = i + 1;
        }
        None
    }

    /// Removes every category row with this id (one at most, under the
    /// invariant).
    pub(crate) fn remove_category_rows(&mut self, id: i64)
        ensures
            final(self)@ == (DbView {
                categories: old(self)@.categories.filter(category_row_kept(id)),
                ..old(self)@
            }),
    {
        let mut kept: Vec<CategoryRow> = Vec::new();
        let mut i: usize = 0;
        while i < self.categories.len()
            invariant
                i <= self.categories@.len(),
                kept@ == self.categories@.take(i as int).filter(category_row_kept(id)),
            decreases self.categories@.len() - i,
        {
            proof {
                lemma_filter_take_step(self.categories@, category_row_kept(id), i as int);
            }
            if self.categories[i].id != id {
                kept.push(self.categories[i].duplicate());
            }
            i = i + 1;
        }
        proof {
            assert(self.categories@.take(self.categories@.len() as int) =~= self.categories@);
        }
        self.categories = kept;
        proof {
            assert(self@ =~= (DbView {
                categories: old(self)@.categories.filter(category_row_kept(id)),
                ..old(self)@
            }));
        }
    }

    /// Removes every category row of this ledger.
    pub(crate) fn remove_categories_by_ledger(&mut self, ledger_id: i64)
        ensures
            final(self)@ == (DbView {
                categories: old(self)@.categories.filter(category_kept_for_ledger(ledger_id)),
                ..old(self)@
            }),
    {
        let mut kept: Vec<CategoryRow> = Vec::new();
        let mut i: usize = 0;
        while i < self.categories.len()
            invariant
                i <= self.categories@.len(),
                kept@ == self.categories@.take(i as int).filter(
                    category_kept_for_ledger(ledger_id),
                ),
            decreases self.categories@.len() - i,
        {
            proof {
                lemma_filter_take_step(
                    self.categories@,
                    category_kept_for_ledger(ledger_id),
                    i as int,
                );
            }
            if self.categories[i].ledger_id != ledger_id {
                kept.push(self.categories[i].duplicate());
            }
            i = i + 1;
        }
        proof {
            assert(self.categories@.take(self.categories@.len() as int) =~= self.categories@);
        }
        self.categories = kept;
        proof {
            assert(self@ =~= (DbView {
                categories: old(self)@.categories.filter(category_kept_for_ledger(ledger_id)),
                ..old(self)@
            }));
        }
    }
}

/// A category as the read operation returns it, with the subcategory list
/// decoded from its persisted encoding.
pub struct Category {
    pub id: i64,
    pub ledger_id: i64,
    pub name: String,
    pub icon: Option<String>,
    pub color: Option<String>,
    pub category_type: CategoryType,
    pub subcategories: Vec<String>,
}

/// The rows a ledger-and-type read selects.
pub open spec fn category_match(ledger_id: i64, category_type: CategoryType) -> spec_fn(
    CategoryRow,
) -> bool {
    |c: CategoryRow| c.ledger_id == ledger_id && c.category_type == category_type
}

/// How a returned category relates to its stored row: every scalar field
/// equal, and the subcategory list the decoding of the stored text - the
/// empty list where that text is malformed.
pub open spec fn category_hydrated(row: CategoryRow, c: Category) -> bool {
    &&& c.id == row.id
    &&& c.ledger_id == row.ledger_id
    &&& c.name == row.name
    &&& c.icon == row.icon
    &&& c.color == row.color
    &&& c.category_type == row.category_type
    &&& str_views(c.subcategories@) == decode_or_empty(row.subcategories@)
}

impl Database {
    /// Creates a category under a fresh id, validating the ledger reference
    /// and encoding the subcategory list into its persisted text. An
    /// exhausted id counter is a storage-layer failure.
    pub fn insert_category(
        &mut self,
        ledger_id: i64,
        name: String,
        icon: Option<String>,
        color: Option<String>,
        subcategories: Vec<String>,
        category_type: CategoryType,
    ) -> (r: Result<i64, StoreError>)
        requires
            old(self)@.inv(),
        ensures
            final(self)@.inv(),
            match r {
                Ok(id) => ledger_present(old(self)@.ledgers, ledger_id) && old(
                    self,
                )@.next_category_id < i64::MAX && id as int == old(
                    self,
                )@.next_category_id && final(self)@ == (DbView {
                    categories: old(self)@.categories.push(final(self)@.categories.last()),
                    next_category_id: old(self)@.next_category_id + 1,
                    ..old(self)@
                }) && final(self)@.categories.last().id == id && final(self)@.categories.last().ledger_id == ledger_id && final(self)@.categories.last().name
                    == name && final(self)@.categories.last().icon == icon && final(self)@.categories.last().color == color && final(self)@.categories.last().category_type
                    == category_type && final(self)@.categories.last().subcategories@
                    == encode_subcats(str_views(subcategories@)),
                Err(e) => final(self)@ == old(self)@ && ((e == StoreError::Storage && old(
                    self,
                )@.next_category_id == i64::MAX) || (e == StoreError::Constraint && old(
                    self,
                )@.next_category_id < i64::MAX && !ledger_present(
                    old(self)@.ledgers,
                    ledger_id,
                ))),
            },
    {
        if self.next_category_id == i64::MAX {
            return Err(StoreError::Storage);
        }
        match self.ledger_index_by_id(ledger_id) {
            Some(_) => {},
            None => {
                return Err(StoreError::Constraint);
            },
        }
        let ghost pre = self@;
        let id = self.next_category_id;
        let encoded = encode_subcategories(&subcategories);
        let row = CategoryRow {
            id,
            ledger_id,
            name,
            icon,
            color,
            category_type,
            subcategories: encoded,
        };
        let ghost rowg = row;
        self.categories.push(row);
        self.next_category_id = self.next_category_id + 1;
        proof {
            assert(self@ =~= (DbView {
                categories: pre.categories.push(rowg),
                next_category_id: pre.next_category_id + 1,
                ..pre
            }));
            let n = self@.categories.len();
            assert forall|i: int, j: int|
                0 <= i < j < n implies self@.categories[i].id != self@.categories[j].id by {
                if j == n - 1 {
                    assert(self@.categories[i] == pre.categories[i]);
                }
            }
            assert forall|i: int| 0 <= i < n implies 1 <= (#[trigger] self@.categories[i].id)
                < self@.next_category_id by {
                if i < n - 1 {
                    assert(self@.categories[i] == pre.categories[i]);
                }
            }
            assert forall|i: int| 0 <= i < n implies ledger_present(
                self@.ledgers,
                #[trigger] self@.categories[i].ledger_id,
            ) by {
                if i < n - 1 {
                    assert(self@.categories[i] == pre.categories[i]);
                }
            }
        }
        Ok(id)
    }

    /// The categories of a ledger with a given type, each hydrated from its
    /// row; a malformed subcategory text yields the empty list, never an
    /// error.
    pub fn get_categories_for_ledger(&self, ledger_id: i64, category_type: CategoryType) -> (r: Vec<
        Category,
    >)
        ensures
            r@.len() == self@.categories.filter(category_match(ledger_id, category_type)).len(),
            forall|i: int|
                0 <= i < r@.len() ==> category_hydrated(
                    self@.categories.filter(category_match(ledger_id, category_type))[i],
                    #[trigger] r@[i],
                ),
    {
        let mut out: Vec<Category> = Vec::new();
        let mut i: usize = 0;
        while i < self.categories.len()
            invariant
                i <= self.categories@.len(),
                out@.len() == self.categories@.take(i as int).filter(
                    category_match(ledger_id, category_type),
                ).len(),
                forall|j: int|
                    0 <= j < out@.len() ==> category_hydrated(
                        self.categories@.take(i as int).filter(
                            category_match(ledger_id, category_type),
                        )[j],
                        #[trigger] out@[j],
                    ),
            decreases self.categories@.len() - i,
        {
            proof {
                lemma_filter_take_step(
                    self.categories@,
                    category_match(ledger_id, category_type),
                    i as int,
                );
            }
            let row = &self.categories[i];
            if row.ledger_id == ledger_id && row.category_type == category_type {
                let decoded = decode_subcategories(&row.subcategories);
                out.push(Category {
                    id: row.id,
                    ledger_id: row.ledger_id,
                    name: row.name.clone(),
                    icon: crate::db::copy_opt_string(&row.icon),
                    color: crate::db::copy_opt_string(&row.color),
                    category_type: row.category_type,
                    subcategories: decoded,
                });
            }
            i = i + 1;
        }
        proof {
            assert(self.categories@.take(self.categories@.len() as int) =~= self.categories@);
        }
        out
    }

    /// Replaces every field of a category but its id and its ledger,
    /// re-encoding the subcategory list. Updating an absent id succeeds and
    /// changes nothing, as an update of no rows does at the storage layer.
    pub fn update_category(
        &mut self,
        category_id: i64,
        name: String,
        icon: Option<String>,
        color: Option<String>,
        subcategories: Vec<String>,
        category_type: CategoryType,
    ) -> (r: Result<(), StoreError>)
        requires
            old(self)@.inv(),
        ensures
            final(self)@.inv(),
            r == Ok::<(), StoreError>(()),
            !category_present(old(self)@.categories, category_id) ==> final(self)@ == old(self)@,
            category_present(old(self)@.categories, category_id) ==> {
                let w = index_of_category(old(self)@.categories, category_id);
                final(self)@ == (DbView {
                    categories: old(self)@.categories.update(w, final(self)@.categories[w]),
                    ..old(self)@
                }) && final(self)@.categories[w].id == category_id && final(self)@.categories[w].ledger_id == old(self)@.categories[w].ledger_id && final(self)@.categories[w].name == name && final(self)@.categories[w].icon == icon
                    && final(self)@.categories[w].color == color && final(self)@.categories[w].category_type == category_type && final(self)@.categories[w].subcategories@ == encode_subcats(str_views(subcategories@))
            },
    {
        let idx = match self.category_index_by_id(category_id) {
            Some(i) => i,
            None => {
                return Ok(());
            },
        };
        let ghost pre = self@;
        let encoded = encode_subcategories(&subcategories);
        let row = CategoryRow {
            id: category_id,
            ledger_id: self.categories[idx].ledger_id,
            name,
            icon,
            color,
            category_type,
            subcategories: encoded,
        };
        let ghost rowg = row;
        self.categories[idx] = row;
        proof {
            assert(self@ =~= (DbView { categories: pre.categories.update(idx as int, rowg), ..pre }));
            let w = index_of_category(pre.categories, category_id);
            assert(pre.categories[idx as int].id == category_id);
            if w != idx as int {
                assert(false);
            }
            let n = self@.categories.len();
            assert forall|k: int|
                0 <= k < n implies self@.categories[k].id == pre.categories[k].id by {}
            assert forall|i: int| 0 <= i < n implies ledger_present(
                self@.ledgers,
                #[trigger] self@.categories[i].ledger_id,
            ) by {
                assert(self@.categories[i].ledger_id == pre.categories[i].ledger_id);
            }
        }
        Ok(())
    }

    /// Deletes a category; its subcategories go with it, having no identity
    /// of their own. Idempotent: deleting an absent id succeeds.
    pub fn delete_category(&mut self, category_id: i64) -> (r: Result<(), StoreError>)
        requires
            old(self)@.inv(),
        ensures
            final(self)@.inv(),
            r == Ok::<(), StoreError>(()),
            final(self)@ == (DbView {
                categories: old(self)@.categories.filter(category_row_kept(category_id)),
                ..old(self)@
            }),
    {
        let ghost pre = self@;
        self.remove_category_rows(category_id);
        proof {
            let ckept = pre.categories.filter(category_row_kept(category_id));
            lemma_filter_keeps_distinct_key(
                pre.categories,
                category_row_kept(category_id),
                |c: CategoryRow| c.id,
            );
            assert forall|i: int| 0 <= i < ckept.len() implies 1 <= (#[trigger] ckept[i].id)
                < self@.next_category_id by {
                lemma_filter_element_origin(pre.categories, category_row_kept(category_id), i);
                let w = choose|w: int| 0 <= w < pre.categories.len() && pre.categories[w] == ckept[i];
            }
            assert forall|i: int| 0 <= i < ckept.len() implies ledger_present(
                self@.ledgers,
                #[trigger] ckept[i].ledger_id,
            ) by {
                lemma_filter_element_origin(pre.categories, category_row_kept(category_id), i);
                let w = choose|w: int| 0 <= w < pre.categories.len() && pre.categories[w] == ckept[i];
            }
        }
        Ok(())
    }
}

} // verus!
