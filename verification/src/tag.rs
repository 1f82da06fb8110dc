use vstd::prelude::*;

use crate::db::Database;
use crate::db::DbView;
use crate::db::index_of_tag;
use crate::db::lemma_filter_element_origin;
use crate::db::lemma_filter_keeps_distinct_key;
use crate::db::lemma_filter_take_step;
use crate::db::lemma_tag_present_push;
use crate::db::tag_id_named;
use crate::db::tag_index_named;
use crate::db::tag_named_present;
use crate::db::tag_present;
use crate::error::StoreError;

verus! {

/// A tag row. Names are globally unique; tags are shared across transactions
/// and persist when a transaction that carries them is deleted.
pub struct Tag {
    pub id: i64,
    pub name: String,
    pub color: Option<String>,
}

impl Tag {
    /// An equal copy of the row.
    pub fn duplicate(&self) -> (r: Tag)
        ensures
            r == *self,
    {
        Tag { id: self.id, name: self.name.clone(), color: crate::db::copy_opt_string(&self.color) }
    }
}

/// Keeps every tag row but the one with the given id.
pub open spec fn tag_row_kept(tag_id: i64) -> spec_fn(Tag) -> bool {
    |t: Tag| t.id != tag_id
}

impl Database {
    /// The position of the tag row carrying this name, if any.
    pub(crate) fn tag_index_by_name(&self, name: &String) -> (r: Option<usize>)
        ensures
            match r {
                Some(i) => i < self@.tags.len() && self@.tags[i as int].name@ == name@,
                None => !tag_named_present(self@.tags, name@),
            },
    {
        let mut i: usize = 0;
        while i < self.tags.len()
            invariant
                i <= self.tags@.len(),
                forall|k: int| 0 <= k < i ==> self.tags@[k].name@ != name@,
            decreases self.tags@.len() - i,
        {
            if self.tags[i].name == *name {
                return Some(i);
            }
            i = i + 1;
        }
        None
    }

    /// The position of the tag row carrying this id, if any.
    pub(crate) fn tag_index_by_id(&self, tag_id: i64) -> (r: Option<usize>)
        ensures
            match r {
                Some(i) => i < self@.tags.len() && self@.tags[i as int].id == tag_id,
                None => !tag_present(self@.tags, tag_id),
            },
    {
        let mut i: usize = 0;
        while i < self.tags.len()
            invariant
                i <= self.tags@.len(),
                forall|k: int| 0 <= k < i ==> self.tags@[k].id != tag_id,
            decreases self.tags@.len() - i,
        {
            if self.tags[i].id == tag_id {
                return Some(i);
            }
            i = i + 1;
        }
        None
    }

    /// Creates a tag, refusing a name that is already taken: tag names are a
    /// unique key, enforced here as the storage layer's constraint enforces
    /// it. An exhausted id counter is a storage-layer failure.
    pub fn create_tag(&mut self, name: String, color: Option<String>) -> (r: Result<
        i64,
        StoreError,
    >)
        requires
            old(self)@.inv(),
        ensures
            final(self)@.inv(),
            match r {
                Ok(id) => !tag_named_present(old(self)@.tags, name@) && old(self)@.next_tag_id
                    < i64::MAX && id as int == old(self)@.next_tag_id && final(self)@ == (DbView {
                    tags: old(self)@.tags.push((Tag { id, name, color })),
                    next_tag_id: old(self)@.next_tag_id + 1,
                    ..old(self)@
                }),
                Err(e) => final(self)@ == old(self)@ && ((e == StoreError::Storage && old(
                    self,
                )@.next_tag_id == i64::MAX) || (e == StoreError::Constraint && old(
                    self,
                )@.next_tag_id < i64::MAX && tag_named_present(old(self)@.tags, name@))),
            },
    {
        if self.next_tag_id == i64::MAX {
            return Err(StoreError::Storage);
        }
        match self.tag_index_by_name(&name) {
            Some(_) => Err(StoreError::Constraint),
            None => {
                let id = self.insert_fresh_tag(name, color);
                Ok(id)
            },
        }
    }

    /// Appends a tag row under a fresh id, on the caller's guarantee that the
    /// name is not yet taken.
    fn insert_fresh_tag(&mut self, name: String, color: Option<String>) -> (id: i64)
        requires
            old(self)@.inv(),
            old(self)@.next_tag_id < i64::MAX,
            !tag_named_present(old(self)@.tags, name@),
        ensures
            final(self)@.inv(),
            id as int == old(self)@.next_tag_id,
            final(self)@ == (DbView {
                tags: old(self)@.tags.push((Tag { id, name, color })),
                next_tag_id: old(self)@.next_tag_id + 1,
                ..old(self)@
            }),
            tag_named_present(final(self)@.tags, name@),
            tag_id_named(final(self)@.tags, name@) == id,
    {
        let ghost pre = self@;
        let id = self.next_tag_id;
        let tag = Tag { id, name, color };
        let ghost tagg = tag;
        self.tags.push(tag);
        self.next_tag_id = self.next_tag_id + 1;
        proof {
            assert(self@ =~= (DbView {
                tags: pre.tags.push(tagg),
                next_tag_id: pre.next_tag_id + 1,
                ..pre
            }));
            let n = self@.tags.len();
            assert forall|i: int, j: int|
                0 <= i < j < n implies self@.tags[i].id != self@.tags[j].id by {
                if j == n - 1 {
                    assert(self@.tags[i] == pre.tags[i]);
                }
            }
            assert forall|i: int, j: int|
                0 <= i < j < n implies self@.tags[i].name@ != self@.tags[j].name@ by {
                if j == n - 1 {
                    assert(self@.tags[i] == pre.tags[i]);
                    assert(!tag_named_present(pre.tags, tagg.name@));
                }
            }
            assert forall|i: int| 0 <= i < n implies 1 <= (#[trigger] self@.tags[i].id)
                < self@.next_tag_id by {
                if i < n - 1 {
                    assert(self@.tags[i] == pre.tags[i]);
                }
            }
            assert forall|i: int| 0 <= i < self@.links.len() implies tag_present(
                self@.tags,
                #[trigger] self@.links[i].tag_id,
            ) by {
                lemma_tag_present_push(pre.tags, tagg, self@.links[i].tag_id);
            }
            // the fresh row is the unique carrier of the name
            assert(self@.tags[n - 1].name@ == tagg.name@);
            let w = tag_index_named(self@.tags, tagg.name@);
            if w != n - 1 {
                assert(pre.tags[w].name@ == tagg.name@);
            }
        }
        id
    }

    /// Idempotent get-or-create of a tag by name: the id of the existing row
    /// when the name is taken, else a fresh row under a fresh id. The same
    /// name always resolves to the same id, and never to two rows. In the
    /// persisted schema the storage layer's uniqueness constraint enforces
    /// this against races; here the store invariant carries the same fact.
    /// It fails only when a row would be needed and the id counter is spent.
    pub fn insert_or_get_tag(&mut self, name: String) -> (r: Result<i64, StoreError>)
        requires
            old(self)@.inv(),
        ensures
            final(self)@.inv(),
            match r {
                Ok(id) => tag_named_present(final(self)@.tags, name@) && tag_id_named(
                    final(self)@.tags,
                    name@,
                ) == id && (tag_named_present(old(self)@.tags, name@) ==> final(self)@ == old(
                    self,
                )@ && id == tag_id_named(old(self)@.tags, name@)) && (!tag_named_present(
                    old(self)@.tags,
                    name@,
                ) ==> old(self)@.next_tag_id < i64::MAX && id as int == old(self)@.next_tag_id
                    && final(self)@ == (DbView {
                    tags: old(self)@.tags.push((Tag { id, name, color: None })),
                    next_tag_id: old(self)@.next_tag_id + 1,
                    ..old(self)@
                })),
                Err(e) => e == StoreError::Storage && !tag_named_present(old(self)@.tags, name@)
                    && old(self)@.next_tag_id == i64::MAX && final(self)@ == old(self)@,
            },
    {
        match self.tag_index_by_name(&name) {
            Some(i) => {
                let id = self.tags[i].id;
                proof {
                    assert(tag_named_present(self@.tags, name@));
                    let w = tag_index_named(self@.tags, name@);
                    assert(self@.tags[w].name@ == name@);
                    if w != i as int {
                        assert(false);
                    }
                }
                Ok(id)
            },
            None => {
                if self.next_tag_id == i64::MAX {
                    return Err(StoreError::Storage);
                }
                Ok(self.insert_fresh_tag(name, None))
            },
        }
    }

    /// All tags, as equal copies of the stored rows.
    pub fn get_tags(&self) -> (r: Vec<Tag>)
        ensures
            r@ == self@.tags,
    {
        let mut out: Vec<Tag> = Vec::new();
        let mut i: usize = 0;
        while i < self.tags.len()
            invariant
                i <= self.tags@.len(),
                out@ == self.tags@.take(i as int),
            decreases self.tags@.len() - i,
        {
            out.push(self.tags[i].duplicate());
            proof {
                assert(self.tags@.take(i as int + 1) =~= self.tags@.take(i as int).push(
                    self.tags@[i as int],
                ));
            }
            i = i + 1;
        }
        proof {
            assert(self.tags@.take(self.tags@.len() as int) =~= self.tags@);
        }
        out
    }

    /// Replaces a tag's name and color. Updating an absent id succeeds and
    /// changes nothing, as an update of no rows does at the storage layer;
    /// a new name that belongs to another tag fails with `Constraint`.
    pub fn update_tag(&mut self, tag_id: i64, name: String, color: Option<String>) -> (r: Result<
        (),
        StoreError,
    >)
        requires
            old(self)@.inv(),
        ensures
            final(self)@.inv(),
            match r {
                Ok(()) => if tag_present(old(self)@.tags, tag_id) {
                    (tag_named_present(old(self)@.tags, name@) ==> tag_id_named(
                        old(self)@.tags,
                        name@,
                    ) == tag_id) && final(self)@ == (DbView {
                        tags: old(self)@.tags.update(
                            index_of_tag(old(self)@.tags, tag_id),
                            (Tag { id: tag_id, name, color }),
                        ),
                        ..old(self)@
                    })
                } else {
                    final(self)@ == old(self)@
                },
                Err(e) => final(self)@ == old(self)@ && e == StoreError::Constraint
                    && tag_present(old(self)@.tags, tag_id) && tag_named_present(
                    old(self)@.tags,
                    name@,
                ) && tag_id_named(old(self)@.tags, name@) != tag_id,
            },
    {
        let idx = match self.tag_index_by_id(tag_id) {
            Some(i) => i,
            None => {
                return Ok(());
            },
        };
        match self.tag_index_by_name(&name) {
            Some(j) => {
                if self.tags[j].id != tag_id {
                    proof {
                        // the carrier of the name is row j, so the named id is not ours
                        let w = tag_index_named(self@.tags, name@);
                        assert(self@.tags[w].name@ == name@);
                        if w != j as int {
                            assert(false);
                        }
                    }
                    return Err(StoreError::Constraint);
                }
            },
            None => {},
        }
        let ghost pre = self@;
        let tag = Tag { id: tag_id, name, color };
        let ghost tagg = tag;
        self.tags[idx] = tag;
        proof {
            assert(self@ =~= (DbView { tags: pre.tags.update(idx as int, tagg), ..pre }));
            // the updated position is the position of the id
            let w = index_of_tag(pre.tags, tag_id);
            assert(pre.tags[idx as int].id == tag_id);
            if w != idx as int {
                assert(false);
            }
            let n = self@.tags.len();
            // ids are unchanged position by position
            assert forall|k: int| 0 <= k < n implies self@.tags[k].id == pre.tags[k].id by {}
            assert forall|i: int, j: int|
                0 <= i < j < n implies self@.tags[i].id != self@.tags[j].id by {}
            // only row idx carried the new name in the old state, if any row did
            assert forall|i: int, j: int|
                0 <= i < j < n implies self@.tags[i].name@ != self@.tags[j].name@ by {
                if i == idx as int || j == idx as int {
                    let k = if i == idx as int {
                        j
                    } else {
                        i
                    };
                    assert(self@.tags[k] == pre.tags[k]);
                    if pre.tags[k].name@ == tagg.name@ {
                        assert(tag_named_present(pre.tags, tagg.name@));
                        let w2 = tag_index_named(pre.tags, tagg.name@);
                        if w2 != k {
                            assert(false);
                        }
                        assert(tag_id_named(pre.tags, tagg.name@) == pre.tags[k].id);
                        assert(false);
                    }
                }
            }
            assert forall|i: int| 0 <= i < self@.links.len() implies tag_present(
                self@.tags,
                #[trigger] self@.links[i].tag_id,
            ) by {
                let w3 = choose|w3: int|
                    0 <= w3 < pre.tags.len() && pre.tags[w3].id == self@.links[i].tag_id;
                assert(self@.tags[w3].id == self@.links[i].tag_id);
            }
        }
        Ok(())
    }

    /// Deletes a tag and every association that carries it; the transactions
    /// themselves persist. Idempotent: deleting an absent id succeeds.
    pub fn delete_tag(&mut self, tag_id: i64) -> (r: Result<(), StoreError>)
        requires
            old(self)@.inv(),
        ensures
            final(self)@.inv(),
            r == Ok::<(), StoreError>(()),
            final(self)@ == (DbView {
                tags: old(self)@.tags.filter(tag_row_kept(tag_id)),
                links: old(self)@.links.filter(crate::transaction::link_kept_for_tag(tag_id)),
                ..old(self)@
            }),
    {
        let ghost pre = self@;
        self.remove_links_by_tag(tag_id);
        self.remove_tag_rows(tag_id);
        proof {
            let tkept = pre.tags.filter(tag_row_kept(tag_id));
            let lkept = pre.links.filter(crate::transaction::link_kept_for_tag(tag_id));
            assert(self@ =~= (DbView { tags: tkept, links: lkept, ..pre }));
            lemma_filter_keeps_distinct_key(pre.tags, tag_row_kept(tag_id), |t: Tag| t.id);
            lemma_filter_keeps_distinct_key(pre.tags, tag_row_kept(tag_id), |t: Tag| t.name@);
            assert forall|i: int| 0 <= i < tkept.len() implies 1 <= (#[trigger] tkept[i].id)
                < self@.next_tag_id by {
                lemma_filter_element_origin(pre.tags, tag_row_kept(tag_id), i);
                let w = choose|w: int| 0 <= w < pre.tags.len() && pre.tags[w] == tkept[i];
            }
            lemma_filter_keeps_distinct_key(
                pre.links,
                crate::transaction::link_kept_for_tag(tag_id),
                |l: crate::transaction::TagLink| (l.transaction_id, l.tag_id),
            );
            assert forall|i: int, j: int|
                0 <= i < j < lkept.len() implies !(lkept[i].transaction_id
                == lkept[j].transaction_id && lkept[i].tag_id == lkept[j].tag_id) by {
                let key = |l: crate::transaction::TagLink| (l.transaction_id, l.tag_id);
                assert(key(lkept[i]) != key(lkept[j]));
            }
            assert forall|i: int| 0 <= i < lkept.len() implies crate::db::transaction_present(
                self@.transactions,
                #[trigger] lkept[i].transaction_id,
            ) by {
                lemma_filter_element_origin(pre.links, crate::transaction::link_kept_for_tag(tag_id), i);
                let w = choose|w: int| 0 <= w < pre.links.len() && pre.links[w] == lkept[i];
            }
            assert forall|i: int| 0 <= i < lkept.len() implies tag_present(
                self@.tags,
                #[trigger] lkept[i].tag_id,
            ) by {
                lemma_filter_element_origin(pre.links, crate::transaction::link_kept_for_tag(tag_id), i);
                let w = choose|w: int| 0 <= w < pre.links.len() && pre.links[w] == lkept[i];
                let v = choose|v: int| 0 <= v < pre.tags.len() && pre.tags[v].id == lkept[i].tag_id;
                assert(tag_row_kept(tag_id)(pre.tags[v]));
                crate::db::lemma_filter_keeps_matching(pre.tags, tag_row_kept(tag_id), v);
            }
        }
        Ok(())
    }

    /// Removes every tag row with this id (one at most, under the invariant).
    fn remove_tag_rows(&mut self, tag_id: i64)
        ensures
            final(self)@ == (DbView {
                tags: old(self)@.tags.filter(tag_row_kept(tag_id)),
                ..old(self)@
            }),
    {
        let mut kept: Vec<Tag> = Vec::new();
        let mut i: usize = 0;
        while i < self.tags.len()
            invariant
                i <= self.tags@.len(),
                kept@ == self.tags@.take(i as int).filter(tag_row_kept(tag_id)),
            decreases self.tags@.len() - i,
        {
            proof {
                lemma_filter_take_step(self.tags@, tag_row_kept(tag_id), i as int);
            }
            if self.tags[i].id != tag_id {
                kept.push(self.tags[i].duplicate());
            }
            i = i + 1;
        }
        proof {
            assert(self.tags@.take(self.tags@.len() as int) =~= self.tags@);
        }
        self.tags = kept;
        proof {
            assert(self@ =~= (DbView {
                tags: old(self)@.tags.filter(tag_row_kept(tag_id)),
                ..old(self)@
            }));
        }
    }
}

} // verus!
