use vstd::prelude::*;

use crate::db::Database;
use crate::db::DbView;
use crate::db::account_present;
use crate::db::index_of_tag;
use crate::db::index_of_transaction;
use crate::db::ledger_present;
use crate::db::lemma_filter_element_origin;
use crate::db::lemma_filter_keeps_distinct_key;
use crate::db::lemma_filter_keeps_matching;
use crate::db::lemma_filter_take_step;
use crate::db::lemma_tag_id_named_push_stable;
use crate::db::lemma_transaction_present_push;
use crate::db::link_present;
use crate::db::tag_id_named;
use crate::db::tag_index_named;
use crate::db::tag_named_present;
use crate::db::tag_present;
use crate::db::transaction_present;
use crate::error::StoreError;
use crate::subcats::str_views;
use crate::tag::Tag;

verus! {

/// A row of the `transactions` table. The amount is a fixed-point decimal
/// with four fractional digits, held as a count of 1/10000 units.
pub struct TransactionRow {
    pub id: i64,
    pub ledger_id: i64,
    pub account_id: i64,
    pub amount: i64,
    pub currency: String,
    pub date: String,
    pub note: Option<String>,
}

/// An association row of the many-to-many relation between transactions and
/// tags, unique per `(transaction_id, tag_id)` pair.
#[derive(Clone, Copy, Debug, PartialEq, Eq, Structural)]
pub struct TagLink {
    pub transaction_id: i64,
    pub tag_id: i64,
}

/// Keeps every association row not carrying the given tag.
pub open spec fn link_kept_for_tag(tag_id: i64) -> spec_fn(TagLink) -> bool {
    |l: TagLink| l.tag_id != tag_id
}

/// Keeps every association row not carrying the given transaction.
pub open spec fn link_kept_for_transaction(transaction_id: i64) -> spec_fn(TagLink) -> bool {
    |l: TagLink| l.transaction_id != transaction_id
}

/// Keeps every transaction row but the one with the given id.
pub open spec fn transaction_row_kept(id: i64) -> spec_fn(TransactionRow) -> bool {
    |t: TransactionRow| t.id != id
}

/// Keeps every transaction row not referencing the given account.
pub open spec fn transaction_kept_for_account(account_id: i64) -> spec_fn(TransactionRow) -> bool {
    |t: TransactionRow| t.account_id != account_id
}

/// Keeps every transaction row not referencing the given ledger.
pub open spec fn transaction_kept_for_ledger(ledger_id: i64) -> spec_fn(TransactionRow) -> bool {
    |t: TransactionRow| t.ledger_id != ledger_id
}

/// Keeps every association row whose transaction is still present in the
/// given table; the pruning predicate after transactions are deleted in bulk.
pub open spec fn link_kept_with(transactions: Seq<TransactionRow>) -> spec_fn(TagLink) -> bool {
    |l: TagLink| crate::db::transaction_present(transactions, l.transaction_id)
}

impl TransactionRow {
    /// An equal copy of the row.
    pub fn duplicate(&self) -> (r: TransactionRow)
        ensures
            r == *self,
    {
        TransactionRow {
            id: self.id,
            ledger_id: self.ledger_id,
            account_id: self.account_id,
            amount: self.amount,
            currency: self.currency.clone(),
            date: self.date.clone(),
            note: crate::db::copy_opt_string(&self.note),
        }
    }
}

impl Database {
    /// The position of the transaction row carrying this id, if any.
    pub(crate) fn transaction_index_by_id(&self, id: i64) -> (r: Option<usize>)
        ensures
            match r {
                Some(i) => i < self@.transactions.len() && self@.transactions[i as int].id == id,
                None => !crate::db::transaction_present(self@.transactions, id),
            },
    {
        let mut i: usize = 0;
        while i < self.transactions.len()
            invariant
                i <= self.transactions@.len(),
                forall|k: int| 0 <= k < i ==> self.transactions@[k].id != id,
            decreases self.transactions@.len() - i,
        {
            if self.transactions[i].id == id {
                return Some(i);
            }
            i = i + 1;
        }
        None
    }

    /// Removes every transaction row with this id (one at most, under the
    /// invariant).
    pub(crate) fn remove_transaction_rows(&mut self, id: i64)
        ensures
            final(self)@ == (DbView {
                transactions: old(self)@.transactions.filter(transaction_row_kept(id)),
                ..old(self)@
            }),
    {
        let mut kept: Vec<TransactionRow> = Vec::new();
        let mut i: usize = 0;
        while i < self.transactions.len()
            invariant
                i <= self.transactions@.len(),
                kept@ == self.transactions@.take(i as int).filter(transaction_row_kept(id)),
            decreases self.transactions@.len() - i,
        {
            proof {
                lemma_filter_take_step(self.transactions@, transaction_row_kept(id), i as int);
            }
            if self.transactions[i].id != id {
                kept.push(self.transactions[i].duplicate());
            }
            i = i + 1;
        }
        proof {
            assert(self.transactions@.take(self.transactions@.len() as int)
                =~= self.transactions@);
        }
        self.transactions = kept;
        proof {
            assert(self@ =~= (DbView {
                transactions: old(self)@.transactions.filter(transaction_row_kept(id)),
                ..old(self)@
            }));
        }
    }

    /// Removes every transaction row of this ledger.
    pub(crate) fn remove_transactions_by_ledger(&mut self, ledger_id: i64)
        ensures
            final(self)@ == (DbView {
                transactions: old(self)@.transactions.filter(
                    transaction_kept_for_ledger(ledger_id),
                ),
                ..old(self)@
            }),
    {
        let mut kept: Vec<TransactionRow> = Vec::new();
        let mut i: usize = 0;
        while i < self.transactions.len()
            invariant
                i <= self.transactions@.len(),
                kept@ == self.transactions@.take(i as int).filter(
                    transaction_kept_for_ledger(ledger_id),
                ),
            decreases self.transactions@.len() - i,
        {
            proof {
                lemma_filter_take_step(
                    self.transactions@,
                    transaction_kept_for_ledger(ledger_id),
                    i as int,
                );
            }
            if self.transactions[i].ledger_id != ledger_id {
                kept.push(self.transactions[i].duplicate());
            }
            i = i + 1;
        }
        proof {
            assert(self.transactions@.take(self.transactions@.len() as int)
                =~= self.transactions@);
        }
        self.transactions = kept;
        proof {
            assert(self@ =~= (DbView {
                transactions: old(self)@.transactions.filter(
                    transaction_kept_for_ledger(ledger_id),
                ),
                ..old(self)@
            }));
        }
    }

    /// Removes every transaction row referencing this account.
    pub(crate) fn remove_transactions_by_account(&mut self, account_id: i64)
        ensures
            final(self)@ == (DbView {
                transactions: old(self)@.transactions.filter(
                    transaction_kept_for_account(account_id),
                ),
                ..old(self)@
            }),
    {
        let mut kept: Vec<TransactionRow> = Vec::new();
        let mut i: usize = 0;
        while i < self.transactions.len()
            invariant
                i <= self.transactions@.len(),
                kept@ == self.transactions@.take(i as int).filter(
                    transaction_kept_for_account(account_id),
                ),
            decreases self.transactions@.len() - i,
        {
            proof {
                lemma_filter_take_step(
                    self.transactions@,
                    transaction_kept_for_account(account_id),
                    i as int,
                );
            }
            if self.transactions[i].account_id != account_id {
                kept.push(self.transactions[i].duplicate());
            }
            i = i + 1;
        }
        proof {
            assert(self.transactions@.take(self.transactions@.len() as int)
                =~= self.transactions@);
        }
        self.transactions = kept;
        proof {
            assert(self@ =~= (DbView {
                transactions: old(self)@.transactions.filter(
                    transaction_kept_for_account(account_id),
                ),
                ..old(self)@
            }));
        }
    }

    /// Removes every association row whose transaction no longer exists; run
    /// after transactions are deleted in bulk, so no association dangles.
    pub(crate) fn prune_links(&mut self)
        ensures
            final(self)@ == (DbView {
                links: old(self)@.links.filter(link_kept_with(old(self)@.transactions)),
                ..old(self)@
            }),
    {
        let mut kept: Vec<TagLink> = Vec::new();
        let mut i: usize = 0;
        while i < self.links.len()
            invariant
                i <= self.links@.len(),
                kept@ == self.links@.take(i as int).filter(link_kept_with(self.transactions@)),
            decreases self.links@.len() - i,
        {
            proof {
                lemma_filter_take_step(self.links@, link_kept_with(self.transactions@), i as int);
            }
            match self.transaction_index_by_id(self.links[i].transaction_id) {
                Some(_) => {
                    kept.push(self.links[i]);
                },
                None => {},
            }
            i = i + 1;
        }
        proof {
            assert(self.links@.take(self.links@.len() as int) =~= self.links@);
        }
        self.links = kept;
        proof {
            assert(self@ =~= (DbView {
                links: old(self)@.links.filter(link_kept_with(old(self)@.transactions)),
                ..old(self)@
            }));
        }
    }

    /// Removes every association row carrying this tag.
    pub(crate) fn remove_links_by_tag(&mut self, tag_id: i64)
        ensures
            final(self)@ == (DbView {
                links: old(self)@.links.filter(link_kept_for_tag(tag_id)),
                ..old(self)@
            }),
    {
        let mut kept: Vec<TagLink> = Vec::new();
        let mut i: usize = 0;
        while i < self.links.len()
            invariant
                i <= self.links@.len(),
                kept@ == self.links@.take(i as int).filter(link_kept_for_tag(tag_id)),
            decreases self.links@.len() - i,
        {
            proof {
                lemma_filter_take_step(self.links@, link_kept_for_tag(tag_id), i as int);
            }
            if self.links[i].tag_id != tag_id {
                kept.push(self.links[i]);
            }
            i = i + 1;
        }
        proof {
            assert(self.links@.take(self.links@.len() as int) =~= self.links@);
        }
        self.links = kept;
        proof {
            assert(self@ =~= (DbView {
                links: old(self)@.links.filter(link_kept_for_tag(tag_id)),
                ..old(self)@
            }));
        }
    }

    /// Removes every association row carrying this transaction.
    pub(crate) fn remove_links_by_transaction(&mut self, transaction_id: i64)
        ensures
            final(self)@ == (DbView {
                links: old(self)@.links.filter(link_kept_for_transaction(transaction_id)),
                ..old(self)@
            }),
    {
        let mut kept: Vec<TagLink> = Vec::new();
        let mut i: usize = 0;
        while i < self.links.len()
            invariant
                i <= self.links@.len(),
                kept@ == self.links@.take(i as int).filter(
                    link_kept_for_transaction(transaction_id),
                ),
            decreases self.links@.len() - i,
        {
            proof {
                lemma_filter_take_step(
                    self.links@,
                    link_kept_for_transaction(transaction_id),
                    i as int,
                );
            }
            if self.links[i].transaction_id != transaction_id {
                kept.push(self.links[i]);
            }
            i = i + 1;
        }
        proof {
            assert(self.links@.take(self.links@.len() as int) =~= self.links@);
        }
        self.links = kept;
        proof {
            assert(self@ =~= (DbView {
                links: old(self)@.links.filter(link_kept_for_transaction(transaction_id)),
                ..old(self)@
            }));
        }
    }
}

/// A transaction as the read operation returns it, hydrated with the names of
/// its currently associated tags.
pub struct Transaction {
    pub id: i64,
    pub ledger_id: i64,
    pub account_id: i64,
    pub amount: i64,
    pub currency: String,
    pub date: String,
    pub note: Option<String>,
    pub tags: Vec<String>,
}

/// The name of the tag row carrying this id, where one exists.
pub open spec fn tag_name_of(tags: Seq<Tag>, id: i64) -> Seq<char> {
    tags[index_of_tag(tags, id)].name@
}

/// Some tag carrying this name is associated with this transaction.
pub open spec fn tag_linked_named(v: DbView, transaction_id: i64, x: Seq<char>) -> bool {
    exists|j: int|
        0 <= j < v.tags.len() && v.tags[j].name@ == x && link_present(
            v.links,
            transaction_id,
            v.tags[j].id,
        )
}

/// How attaching a tag-name list to a transaction moves the store from `pre`
/// to `post`: nothing but the tag table, the association table and the tag
/// counter changes; the tag table grows by exactly the names that were
/// missing, idempotently; and the transaction ends up associated with
/// precisely the tags named in the list - order irrelevant, duplicates
/// collapsed.
pub open spec fn tags_attached(
    pre: DbView,
    post: DbView,
    transaction_id: i64,
    names: Seq<Seq<char>>,
) -> bool {
    &&& post == (DbView {
        tags: post.tags,
        links: post.links,
        next_tag_id: post.next_tag_id,
        ..pre
    })
    &&& pre.tags.is_prefix_of(post.tags)
    &&& forall|j: int|
        pre.tags.len() <= j < post.tags.len() ==> names.contains(#[trigger] post.tags[j].name@)
            && !tag_named_present(pre.tags, post.tags[j].name@) && post.tags[j].color is None
    &&& forall|x: Seq<char>| names.contains(x) ==> tag_named_present(post.tags, x)
    &&& post.next_tag_id == pre.next_tag_id + (post.tags.len() - pre.tags.len())
    &&& pre.links.is_prefix_of(post.links)
    &&& forall|j: int|
        pre.links.len() <= j < post.links.len() ==> (#[trigger] post.links[j].transaction_id)
            == transaction_id
    &&& forall|g: i64|
        link_present(post.links, transaction_id, g) <==> (exists|x: Seq<char>|
            names.contains(x) && g == tag_id_named(post.tags, x))
}

/// How a returned transaction relates to its row: every scalar field equal,
/// and the tag list exactly the names of its currently associated tags,
/// without duplicates.
pub open spec fn transaction_hydrated(v: DbView, row: TransactionRow, t: Transaction) -> bool {
    &&& t.id == row.id
    &&& t.ledger_id == row.ledger_id
    &&& t.account_id == row.account_id
    &&& t.amount == row.amount
    &&& t.currency == row.currency
    &&& t.date == row.date
    &&& t.note == row.note
    &&& forall|a: int, b: int| 0 <= a < b < t.tags@.len() ==> t.tags@[a]@ != t.tags@[b]@
    &&& forall|x: Seq<char>| str_views(t.tags@).contains(x) <==> tag_linked_named(v, row.id, x)
}

impl Database {
    /// Whether an association row links this transaction to this tag.
    pub(crate) fn link_exists(&self, transaction_id: i64, tag_id: i64) -> (r: bool)
        ensures
            r == link_present(self@.links, transaction_id, tag_id),
    {
        let mut i: usize = 0;
        while i < self.links.len()
            invariant
                i <= self.links@.len(),
                forall|k: int|
                    0 <= k < i ==> !(self.links@[k].transaction_id == transaction_id
                        && self.links@[k].tag_id == tag_id),
            decreases self.links@.len() - i,
        {
            if self.links[i].transaction_id == transaction_id && self.links[i].tag_id == tag_id {
                return true;
            }
            i = i + 1;
        }
        false
    }

    /// Resolves every name in the list through the tag store and associates
    /// the resulting tags with the transaction, collapsing duplicates. The
    /// caller hands over a transaction that has no associations yet.
    #[verifier::loop_isolation(false)]
    #[verifier::rlimit(100)]
    pub(crate) fn attach_tags(&mut self, transaction_id: i64, tags: &Vec<String>)
        requires
            old(self)@.inv(),
            transaction_present(old(self)@.transactions, transaction_id),
            forall|j: int|
                0 <= j < old(self)@.links.len() ==> (#[trigger] old(
                    self,
                )@.links[j].transaction_id) != transaction_id,
            old(self)@.next_tag_id + tags@.len() <= i64::MAX,
        ensures
            final(self)@.inv(),
            tags_attached(old(self)@, final(self)@, transaction_id, str_views(tags@)),
    {
        let ghost pre = self@;
        let ghost names = str_views(tags@);
        let mut i: usize = 0;
        proof {
            assert(names.take(0) =~= Seq::<Seq<char>>::empty());
        }
        while i < tags.len()
            invariant
                self@.inv(),
                i <= tags@.len(),
                self@ == (DbView {
                    tags: self@.tags,
                    links: self@.links,
                    next_tag_id: self@.next_tag_id,
                    ..pre
                }),
                pre.tags.is_prefix_of(self@.tags),
                forall|j: int|
                    pre.tags.len() <= j < self@.tags.len() ==> names.contains(
                        #[trigger] self@.tags[j].name@,
                    ) && !tag_named_present(pre.tags, self@.tags[j].name@) && self@.tags[j].color
                        is None,
                forall|x: Seq<char>|
                    names.take(i as int).contains(x) ==> tag_named_present(self@.tags, x),
                self@.next_tag_id == pre.next_tag_id + (self@.tags.len() - pre.tags.len()),
                self@.next_tag_id + (tags@.len() - i) <= i64::MAX,
                pre.links.is_prefix_of(self@.links),
                forall|j: int|
                    pre.links.len() <= j < self@.links.len() ==> (#[trigger] self@.links[j].transaction_id)
                        == transaction_id,
                forall|g: i64|
                    link_present(self@.links, transaction_id, g) <==> (exists|x: Seq<char>|
                        names.take(i as int).contains(x) && g == tag_id_named(self@.tags, x)),
            decreases tags@.len() - i,
        {
            let ghost cur = self@;
            let name = tags[i].clone();
            proof {
                assert(name@ == names[i as int]);
            }
            let id = match self.insert_or_get_tag(name) {
                Ok(id) => id,
                Err(_) => {
                    // the loop budget keeps the counter below its limit
                    proof {
                        assert(false);
                    }
                    0
                },
            };
            let ghost mid = self@;
            proof {
                // every name present before still resolves to the same id
                assert forall|x: Seq<char>| tag_named_present(cur.tags, x) implies
                    tag_named_present(mid.tags, x) && tag_id_named(mid.tags, x) == tag_id_named(
                    cur.tags,
                    x,
                ) by {
                    if !tag_named_present(cur.tags, name@) {
                        assert(x != name@);
                        assert(mid.tags == cur.tags.push(mid.tags.last()));
                        assert(mid.tags.last().name@ == name@);
                        lemma_tag_id_named_push_stable(cur.tags, mid.tags.last(), x);
                    }
                }
                // the freshly resolved tag exists under its id
                assert(tag_named_present(mid.tags, name@));
                let w = tag_index_named(mid.tags, name@);
                assert(mid.tags[w].id == id);
                assert(tag_present(mid.tags, id));
                // prefix facts carry across the resolution
                assert(pre.tags.is_prefix_of(mid.tags));
                if !tag_named_present(cur.tags, name@) {
                    assert(!tag_named_present(pre.tags, name@)) by {
                        if tag_named_present(pre.tags, name@) {
                            let v = choose|v: int|
                                0 <= v < pre.tags.len() && pre.tags[v].name@ == name@;
                            assert(cur.tags[v].name@ == name@);
                        }
                    }
                    assert(names.contains(names[i as int]));
                }
            }
            let linked = self.link_exists(transaction_id, id);
            if !linked {
                self.links.push(TagLink { transaction_id, tag_id: id });
            }
            proof {
                let post = self@;
                assert(names.take(i as int + 1) =~= names.take(i as int).push(names[i as int]));
                // membership in the grown prefix
                assert forall|x: Seq<char>| names.take(i as int + 1).contains(x) implies
                    tag_named_present(post.tags, x) by {
                    if names.take(i as int).contains(x) {
                        assert(tag_named_present(cur.tags, x));
                    } else {
                        assert(x == names[i as int]);
                    }
                }
                // the association iff for the grown prefix
                assert forall|g: i64| link_present(post.links, transaction_id, g) implies (
                exists|x: Seq<char>|
                    names.take(i as int + 1).contains(x) && g == tag_id_named(post.tags, x)) by {
                    let w = choose|w: int|
                        0 <= w < post.links.len() && post.links[w].transaction_id == transaction_id
                            && post.links[w].tag_id == g;
                    if w < mid.links.len() {
                        assert(link_present(mid.links, transaction_id, g));
                        let x = choose|x: Seq<char>|
                            names.take(i as int).contains(x) && g == tag_id_named(cur.tags, x);
                        assert(tag_named_present(cur.tags, x));
                        assert(names.take(i as int + 1).contains(x));
                        assert(g == tag_id_named(post.tags, x));
                    } else {
                        assert(g == id);
                        assert(names.take(i as int + 1)[i as int] == names[i as int]);
                        assert(names.take(i as int + 1).contains(names[i as int]));
                        assert(g == tag_id_named(post.tags, names[i as int]));
                    }
                }
                assert forall|g: i64|
                    (exists|x: Seq<char>|
                        names.take(i as int + 1).contains(x) && g == tag_id_named(post.tags, x))
                    implies link_present(post.links, transaction_id, g) by {
                    let x = choose|x: Seq<char>|
                        names.take(i as int + 1).contains(x) && g == tag_id_named(post.tags, x);
                    if names.take(i as int).contains(x) {
                        assert(tag_named_present(cur.tags, x));
                        assert(tag_id_named(cur.tags, x) == tag_id_named(post.tags, x));
                        assert(link_present(cur.links, transaction_id, g));
                        let w = choose|w: int|
                            0 <= w < cur.links.len() && cur.links[w].transaction_id
                                == transaction_id && cur.links[w].tag_id == g;
                        assert(post.links[w].transaction_id == transaction_id
                            && post.links[w].tag_id == g);
                    } else {
                        assert(x == names[i as int]);
                        assert(g == id);
                        if linked {
                            let w = choose|w: int|
                                0 <= w < mid.links.len() && mid.links[w].transaction_id
                                    == transaction_id && mid.links[w].tag_id == id;
                            assert(post.links[w].transaction_id == transaction_id
                                && post.links[w].tag_id == g);
                        } else {
                            assert(post.links[post.links.len() - 1].transaction_id
                                == transaction_id && post.links[post.links.len() - 1].tag_id == g);
                        }
                    }
                }
                // the store invariant after a possible association push
                if !linked {
                    assert forall|a: int, b: int|
                        0 <= a < b < post.links.len() implies !(post.links[a].transaction_id
                        == post.links[b].transaction_id && post.links[a].tag_id
                        == post.links[b].tag_id) by {
                        if b == post.links.len() - 1 {
                            assert(post.links[a] == mid.links[a]);
                            assert(!link_present(mid.links, transaction_id, id));
                        }
                    }
                    assert forall|j: int| 0 <= j < post.links.len() implies transaction_present(
                        post.transactions,
                        #[trigger] post.links[j].transaction_id,
                    ) by {
                        if j < mid.links.len() {
                        } else {
                            assert(post.links[j].transaction_id == transaction_id);
                        }
                    }
                    assert forall|j: int| 0 <= j < post.links.len() implies tag_present(
                        post.tags,
                        #[trigger] post.links[j].tag_id,
                    ) by {
                        if j < mid.links.len() {
                        } else {
                            assert(post.links[j].tag_id == id);
                        }
                    }
                }
            }
            i = i + 1;
        }
        proof {
            assert(names.take(tags@.len() as int) =~= names);
        }
    }

    /// Creates a transaction under a fresh id, validating the ledger and
    /// account references, then resolves and attaches its tags. The whole
    /// operation is one atomic unit: a payload that fails validation writes
    /// nothing, the id budget is checked before the first write, and the
    /// resolution loop itself cannot fail, so no transaction is ever
    /// observable with a partial tag set.
    pub fn create_transaction(
        &mut self,
        ledger_id: i64,
        account_id: i64,
        amount: i64,
        currency: String,
        date: String,
        tags: Vec<String>,
        note: Option<String>,
    ) -> (r: Result<(), StoreError>)
        requires
            old(self)@.inv(),
        ensures
            final(self)@.inv(),
            match r {
                Ok(()) => old(self)@.next_transaction_id < i64::MAX && old(self)@.next_tag_id
                    + tags@.len() <= i64::MAX && ledger_present(old(self)@.ledgers, ledger_id)
                    && account_present(old(self)@.accounts, account_id) && tags_attached(
                    (DbView {
                        transactions: old(self)@.transactions.push(
                            (TransactionRow {
                                id: old(self)@.next_transaction_id as i64,
                                ledger_id,
                                account_id,
                                amount,
                                currency,
                                date,
                                note,
                            }),
                        ),
                        next_transaction_id: old(self)@.next_transaction_id + 1,
                        ..old(self)@
                    }),
                    final(self)@,
                    old(self)@.next_transaction_id as i64,
                    str_views(tags@),
                ),
                Err(e) => final(self)@ == old(self)@ && ((e == StoreError::Storage && (old(
                    self,
                )@.next_transaction_id == i64::MAX || old(self)@.next_tag_id + tags@.len()
                    > i64::MAX)) || (e == StoreError::Constraint && old(self)@.next_transaction_id
                    < i64::MAX && old(self)@.next_tag_id + tags@.len() <= i64::MAX && (
                !ledger_present(old(self)@.ledgers, ledger_id) || !account_present(
                    old(self)@.accounts,
                    account_id,
                )))),
            },
    {
        if self.next_transaction_id == i64::MAX {
            return Err(StoreError::Storage);
        }
        if tags.len() as u64 > (i64::MAX - self.next_tag_id) as u64 {
            return Err(StoreError::Storage);
        }
        match self.ledger_index_by_id(ledger_id) {
            Some(_) => {},
            None => {
                return Err(StoreError::Constraint);
            },
        }
        match self.account_index_by_id(account_id) {
            Some(_) => {},
            None => {
                return Err(StoreError::Constraint);
            },
        }
        let ghost pre = self@;
        let id = self.next_transaction_id;
        let row = TransactionRow { id, ledger_id, account_id, amount, currency, date, note };
        let ghost rowg = row;
        self.transactions.push(row);
        self.next_transaction_id = id + 1;
        proof {
            assert(self@ =~= (DbView {
                transactions: pre.transactions.push(rowg),
                next_transaction_id: pre.next_transaction_id + 1,
                ..pre
            }));
            let n = self@.transactions.len();
            assert forall|a: int, b: int|
                0 <= a < b < n implies self@.transactions[a].id != self@.transactions[b].id by {
                if b == n - 1 {
                    assert(self@.transactions[a] == pre.transactions[a]);
                }
            }
            assert forall|a: int| 0 <= a < n implies 1 <= (#[trigger] self@.transactions[a].id)
                < self@.next_transaction_id by {
                if a < n - 1 {
                    assert(self@.transactions[a] == pre.transactions[a]);
                }
            }
            assert forall|a: int| 0 <= a < n implies ledger_present(
                self@.ledgers,
                #[trigger] self@.transactions[a].ledger_id,
            ) by {
                if a < n - 1 {
                    assert(self@.transactions[a] == pre.transactions[a]);
                }
            }
            assert forall|a: int| 0 <= a < n implies account_present(
                self@.accounts,
                #[trigger] self@.transactions[a].account_id,
            ) by {
                if a < n - 1 {
                    assert(self@.transactions[a] == pre.transactions[a]);
                }
            }
            assert forall|j: int| 0 <= j < self@.links.len() implies transaction_present(
                self@.transactions,
                #[trigger] self@.links[j].transaction_id,
            ) by {
                lemma_transaction_present_push(
                    pre.transactions,
                    rowg,
                    self@.links[j].transaction_id,
                );
            }
            // the fresh row is present, and no association refers to it yet
            assert(self@.transactions[n - 1].id == id);
            assert(transaction_present(self@.transactions, id));
            assert forall|j: int| 0 <= j < self@.links.len() implies (
            #[trigger] self@.links[j].transaction_id) != id by {
                let v = choose|v: int|
                    0 <= v < pre.transactions.len() && pre.transactions[v].id
                        == self@.links[j].transaction_id;
            }
        }
        self.attach_tags(id, &tags);
        Ok(())
    }

    /// The names of the tags currently associated with a transaction, each
    /// name once.
    #[verifier::loop_isolation(false)]
    #[verifier::rlimit(100)]
    pub fn get_tags_for_transaction(&self, transaction_id: i64) -> (r: Vec<String>)
        requires
            self@.inv(),
        ensures
            forall|a: int, b: int| 0 <= a < b < r@.len() ==> r@[a]@ != r@[b]@,
            forall|x: Seq<char>|
                str_views(r@).contains(x) <==> tag_linked_named(self@, transaction_id, x),
    {
        let mut out: Vec<String> = Vec::new();
        let mut l: usize = 0;
        proof {
            assert(str_views(out@) =~= Seq::<Seq<char>>::empty());
        }
        while l < self.links.len()
            invariant
                l <= self.links@.len(),
                forall|a: int, b: int| 0 <= a < b < out@.len() ==> out@[a]@ != out@[b]@,
                forall|x: Seq<char>|
                    str_views(out@).contains(x) <==> (exists|j: int|
                        0 <= j < l && (#[trigger] self@.links[j]).transaction_id == transaction_id
                            && x == tag_name_of(self@.tags, self@.links[j].tag_id)),
            decreases self.links@.len() - l,
        {
            let ghost oldout = out@;
            if self.links[l].transaction_id == transaction_id {
                match self.tag_index_by_id(self.links[l].tag_id) {
                    Some(ti) => {
                        proof {
                            let g = self@.links[l as int].tag_id;
                            let w = index_of_tag(self@.tags, g);
                            assert(tag_present(self@.tags, g));
                            assert(self@.tags[w].id == g);
                            if w != ti as int {
                                assert(false);
                            }
                            // the name cannot have been collected already: a
                            // second source would be a duplicate association
                            if str_views(oldout).contains(self@.tags[ti as int].name@) {
                                let j = choose|j: int|
                                    0 <= j < l && (#[trigger] self@.links[j]).transaction_id
                                        == transaction_id && self@.tags[ti as int].name@
                                        == tag_name_of(self@.tags, self@.links[j].tag_id);
                                let u = index_of_tag(self@.tags, self@.links[j].tag_id);
                                assert(tag_present(self@.tags, self@.links[j].tag_id));
                                assert(self@.tags[u].id == self@.links[j].tag_id);
                                if u != ti as int {
                                    assert(false);
                                }
                                assert(self@.links[j].tag_id == g);
                                assert(false);
                            }
                        }
                        out.push(self.tags[ti].name.clone());
                        proof {
                            assert(str_views(out@) =~= str_views(oldout).push(
                                self@.tags[ti as int].name@,
                            ));
                            assert forall|a: int| 0 <= a < out@.len() - 1 implies out@[a]@
                                != self@.tags[ti as int].name@ by {
                                assert(out@[a] == oldout[a]);
                                assert(str_views(oldout)[a] == oldout[a]@);
                                if out@[a]@ == self@.tags[ti as int].name@ {
                                    assert(str_views(oldout).contains(
                                        self@.tags[ti as int].name@,
                                    ));
                                }
                            }
                            assert forall|x: Seq<char>| str_views(out@).contains(x) implies (
                            exists|j: int|
                                0 <= j < l + 1 && (#[trigger] self@.links[j]).transaction_id
                                    == transaction_id && x == tag_name_of(
                                    self@.tags,
                                    self@.links[j].tag_id,
                                )) by {
                                if str_views(oldout).contains(x) {
                                    let j = choose|j: int|
                                        0 <= j < l && (#[trigger] self@.links[j]).transaction_id
                                            == transaction_id && x == tag_name_of(
                                            self@.tags,
                                            self@.links[j].tag_id,
                                        );
                                } else {
                                    assert(x == tag_name_of(
                                        self@.tags,
                                        self@.links[l as int].tag_id,
                                    ));
                                }
                            }
                        }
                    },
                    None => {
                        proof {
                            assert(false);
                        }
                    },
                }
            }
            proof {
                assert forall|x: Seq<char>|
                    (exists|j: int|
                        0 <= j < l + 1 && (#[trigger] self@.links[j]).transaction_id
                            == transaction_id && x == tag_name_of(
                            self@.tags,
                            self@.links[j].tag_id,
                        )) implies str_views(out@).contains(x) by {
                    let j = choose|j: int|
                        0 <= j < l + 1 && (#[trigger] self@.links[j]).transaction_id
                            == transaction_id && x == tag_name_of(
                            self@.tags,
                            self@.links[j].tag_id,
                        );
                    if j < l {
                        assert(str_views(oldout).contains(x));
                        let w = choose|w: int| 0 <= w < oldout.len() && oldout[w]@ == x;
                        assert(str_views(out@)[w] == x);
                    } else {
                        assert(str_views(out@)[out@.len() - 1] == x);
                    }
                }
            }
            l = l + 1;
        }
        proof {
            assert forall|x: Seq<char>| str_views(out@).contains(x) implies tag_linked_named(
                self@,
                transaction_id,
                x,
            ) by {
                let j = choose|j: int|
                    0 <= j < self@.links.len() && (#[trigger] self@.links[j]).transaction_id
                        == transaction_id && x == tag_name_of(self@.tags, self@.links[j].tag_id);
                let g = self@.links[j].tag_id;
                assert(tag_present(self@.tags, g));
                let w = index_of_tag(self@.tags, g);
                assert(self@.tags[w].id == g);
                assert(self@.tags[w].name@ == x);
                assert(link_present(self@.links, transaction_id, self@.tags[w].id));
            }
            assert forall|x: Seq<char>| tag_linked_named(self@, transaction_id, x) implies
                str_views(out@).contains(x) by {
                let w = choose|w: int|
                    0 <= w < self@.tags.len() && self@.tags[w].name@ == x && link_present(
                        self@.links,
                        transaction_id,
                        self@.tags[w].id,
                    );
                let j = choose|j: int|
                    0 <= j < self@.links.len() && self@.links[j].transaction_id == transaction_id
                        && self@.links[j].tag_id == self@.tags[w].id;
                let u = index_of_tag(self@.tags, self@.links[j].tag_id);
                assert(tag_present(self@.tags, self@.links[j].tag_id));
                assert(self@.tags[u].id == self@.links[j].tag_id);
                if u != w {
                    assert(false);
                }
                assert(x == tag_name_of(self@.tags, self@.links[j].tag_id));
            }
        }
        out
    }

    /// Reads every transaction, each hydrated with its full current tag-name
    /// set through the association table.
    pub fn read_transactions(&self) -> (r: Vec<Transaction>)
        requires
            self@.inv(),
        ensures
            r@.len() == self@.transactions.len(),
            forall|i: int|
                0 <= i < r@.len() ==> transaction_hydrated(
                    self@,
                    self@.transactions[i],
                    #[trigger] r@[i],
                ),
    {
        let mut out: Vec<Transaction> = Vec::new();
        let mut i: usize = 0;
        while i < self.transactions.len()
            invariant
                self@.inv(),
                i <= self.transactions@.len(),
                out@.len() == i,
                forall|j: int|
                    0 <= j < i ==> transaction_hydrated(
                        self@,
                        self@.transactions[j],
                        #[trigger] out@[j],
                    ),
            decreases self.transactions@.len() - i,
        {
            let row = self.transactions[i].duplicate();
            let names = self.get_tags_for_transaction(row.id);
            out.push(
                Transaction {
                    id: row.id,
                    ledger_id: row.ledger_id,
                    account_id: row.account_id,
                    amount: row.amount,
                    currency: row.currency,
                    date: row.date,
                    note: row.note,
                    tags: names,
                },
            );
            i = i + 1;
        }
        out
    }

    /// Replaces a transaction's scalar fields and performs full tag-set
    /// replacement: every existing association is removed, then the new list
    /// is resolved and attached, leaving no residue of the old set. Updating
    /// an absent id succeeds and changes nothing, as an update of no rows
    /// does at the storage layer; an invalid ledger or account reference
    /// fails with `Constraint`, changing nothing.
    pub fn update_transaction(
        &mut self,
        id: i64,
        ledger_id: i64,
        account_id: i64,
        amount: i64,
        currency: String,
        date: String,
        tags: Vec<String>,
        note: Option<String>,
    ) -> (r: Result<(), StoreError>)
        requires
            old(self)@.inv(),
        ensures
            final(self)@.inv(),
            match r {
                Ok(()) => if transaction_present(old(self)@.transactions, id) {
                    old(self)@.next_tag_id + tags@.len() <= i64::MAX && ledger_present(
                        old(self)@.ledgers,
                        ledger_id,
                    ) && account_present(old(self)@.accounts, account_id) && tags_attached(
                    (DbView {
                        transactions: old(self)@.transactions.update(
                            index_of_transaction(old(self)@.transactions, id),
                            (TransactionRow {
                                id,
                                ledger_id,
                                account_id,
                                amount,
                                currency,
                                date,
                                note,
                            }),
                        ),
                        links: old(self)@.links.filter(link_kept_for_transaction(id)),
                        ..old(self)@
                    }),
                        final(self)@,
                        id,
                        str_views(tags@),
                    )
                } else {
                    final(self)@ == old(self)@
                },
                Err(e) => final(self)@ == old(self)@ && transaction_present(
                    old(self)@.transactions,
                    id,
                ) && ((e == StoreError::Storage && old(self)@.next_tag_id + tags@.len()
                    > i64::MAX) || (e == StoreError::Constraint && old(self)@.next_tag_id
                    + tags@.len() <= i64::MAX && (!ledger_present(old(self)@.ledgers, ledger_id)
                    || !account_present(old(self)@.accounts, account_id)))),
            },
    {
        let idx = match self.transaction_index_by_id(id) {
            Some(i) => i,
            None => {
                return Ok(());
            },
        };
        if tags.len() as u64 > (i64::MAX - self.next_tag_id) as u64 {
            return Err(StoreError::Storage);
        }
        match self.ledger_index_by_id(ledger_id) {
            Some(_) => {},
            None => {
                return Err(StoreError::Constraint);
            },
        }
        match self.account_index_by_id(account_id) {
            Some(_) => {},
            None => {
                return Err(StoreError::Constraint);
            },
        }
        let ghost pre = self@;
        let row = TransactionRow { id, ledger_id, account_id, amount, currency, date, note };
        let ghost rowg = row;
        self.transactions[idx] = row;
        proof {
            let w = index_of_transaction(pre.transactions, id);
            assert(pre.transactions[idx as int].id == id);
            if w != idx as int {
                assert(false);
            }
        }
        self.remove_links_by_transaction(id);
        proof {
            let mid = self@;
            let kept = pre.links.filter(link_kept_for_transaction(id));
            assert(mid =~= (DbView {
                transactions: pre.transactions.update(idx as int, rowg),
                links: kept,
                ..pre
            }));
            let n = mid.transactions.len();
            assert forall|k: int|
                0 <= k < n implies mid.transactions[k].id == pre.transactions[k].id by {}
            assert forall|a: int| 0 <= a < n implies ledger_present(
                mid.ledgers,
                #[trigger] mid.transactions[a].ledger_id,
            ) by {
                if a != idx as int {
                    assert(mid.transactions[a] == pre.transactions[a]);
                }
            }
            assert forall|a: int| 0 <= a < n implies account_present(
                mid.accounts,
                #[trigger] mid.transactions[a].account_id,
            ) by {
                if a != idx as int {
                    assert(mid.transactions[a] == pre.transactions[a]);
                }
            }
            lemma_filter_keeps_distinct_key(
                pre.links,
                link_kept_for_transaction(id),
                |l: TagLink| (l.transaction_id, l.tag_id),
            );
            assert forall|a: int, b: int|
                0 <= a < b < kept.len() implies !(kept[a].transaction_id == kept[b].transaction_id
                && kept[a].tag_id == kept[b].tag_id) by {
                let key = |l: TagLink| (l.transaction_id, l.tag_id);
                assert(key(kept[a]) != key(kept[b]));
            }
            assert forall|j: int| 0 <= j < kept.len() implies transaction_present(
                mid.transactions,
                #[trigger] kept[j].transaction_id,
            ) by {
                lemma_filter_element_origin(pre.links, link_kept_for_transaction(id), j);
                let w = choose|w: int| 0 <= w < pre.links.len() && pre.links[w] == kept[j];
                let v = choose|v: int|
                    0 <= v < pre.transactions.len() && pre.transactions[v].id
                        == kept[j].transaction_id;
                assert(mid.transactions[v].id == pre.transactions[v].id);
            }
            assert forall|j: int| 0 <= j < kept.len() implies tag_present(
                mid.tags,
                #[trigger] kept[j].tag_id,
            ) by {
                lemma_filter_element_origin(pre.links, link_kept_for_transaction(id), j);
                let w = choose|w: int| 0 <= w < pre.links.len() && pre.links[w] == kept[j];
            }
            // the transaction is present and carries no associations now
            assert(mid.transactions[idx as int].id == id);
            assert(transaction_present(mid.transactions, id));
            assert forall|j: int| 0 <= j < mid.links.len() implies (
            #[trigger] mid.links[j].transaction_id) != id by {
                lemma_filter_element_origin(pre.links, link_kept_for_transaction(id), j);
            }
        }
        self.attach_tags(id, &tags);
        Ok(())
    }

    /// Deletes a transaction and its tag associations atomically; the tags
    /// themselves are shared and persist. Idempotent: deleting an absent id
    /// succeeds.
    pub fn delete_transaction(&mut self, id: i64) -> (r: Result<(), StoreError>)
        requires
            old(self)@.inv(),
        ensures
            final(self)@.inv(),
            r == Ok::<(), StoreError>(()),
            final(self)@ == (DbView {
                transactions: old(self)@.transactions.filter(transaction_row_kept(id)),
                links: old(self)@.links.filter(link_kept_for_transaction(id)),
                ..old(self)@
            }),
    {
        let ghost pre = self@;
        self.remove_links_by_transaction(id);
        self.remove_transaction_rows(id);
        proof {
            let tkept = pre.transactions.filter(transaction_row_kept(id));
            let kkept = pre.links.filter(link_kept_for_transaction(id));
            assert(self@ =~= (DbView { transactions: tkept, links: kkept, ..pre }));
            lemma_filter_keeps_distinct_key(
                pre.transactions,
                transaction_row_kept(id),
                |t: TransactionRow| t.id,
            );
            assert forall|i: int| 0 <= i < tkept.len() implies 1 <= (#[trigger] tkept[i].id)
                < self@.next_transaction_id by {
                lemma_filter_element_origin(pre.transactions, transaction_row_kept(id), i);
                let w = choose|w: int|
                    0 <= w < pre.transactions.len() && pre.transactions[w] == tkept[i];
            }
            assert forall|i: int| 0 <= i < tkept.len() implies ledger_present(
                self@.ledgers,
                #[trigger] tkept[i].ledger_id,
            ) by {
                lemma_filter_element_origin(pre.transactions, transaction_row_kept(id), i);
                let w = choose|w: int|
                    0 <= w < pre.transactions.len() && pre.transactions[w] == tkept[i];
            }
            assert forall|i: int| 0 <= i < tkept.len() implies account_present(
                self@.accounts,
                #[trigger] tkept[i].account_id,
            ) by {
                lemma_filter_element_origin(pre.transactions, transaction_row_kept(id), i);
                let w = choose|w: int|
                    0 <= w < pre.transactions.len() && pre.transactions[w] == tkept[i];
            }
            lemma_filter_keeps_distinct_key(
                pre.links,
                link_kept_for_transaction(id),
                |l: TagLink| (l.transaction_id, l.tag_id),
            );
            assert forall|a: int, b: int|
                0 <= a < b < kkept.len() implies !(kkept[a].transaction_id
                == kkept[b].transaction_id && kkept[a].tag_id == kkept[b].tag_id) by {
                let key = |l: TagLink| (l.transaction_id, l.tag_id);
                assert(key(kkept[a]) != key(kkept[b]));
            }
            assert forall|j: int| 0 <= j < kkept.len() implies transaction_present(
                self@.transactions,
                #[trigger] kkept[j].transaction_id,
            ) by {
                lemma_filter_element_origin(pre.links, link_kept_for_transaction(id), j);
                let w = choose|w: int| 0 <= w < pre.links.len() && pre.links[w] == kkept[j];
                let v = choose|v: int|
                    0 <= v < pre.transactions.len() && pre.transactions[v].id
                        == kkept[j].transaction_id;
                assert(transaction_row_kept(id)(pre.transactions[v]));
                lemma_filter_keeps_matching(pre.transactions, transaction_row_kept(id), v);
            }
            assert forall|j: int| 0 <= j < kkept.len() implies tag_present(
                self@.tags,
                #[trigger] kkept[j].tag_id,
            ) by {
                lemma_filter_element_origin(pre.links, link_kept_for_transaction(id), j);
                let w = choose|w: int| 0 <= w < pre.links.len() && pre.links[w] == kkept[j];
            }
        }
        Ok(())
    }
}

} // verus!
