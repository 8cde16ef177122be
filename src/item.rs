//! The item table: one row per live item of an account, each write under a new
//! sequence id taken from one counter shared by all accounts.
use vstd::prelude::*;
use vstd::string::StringExecFns;

verus! {

/// The text of every fault of the item table.
pub const DATABASE_ERROR: &'static str = "Database error";

/// A fault of the item table.
#[derive(Debug)]
pub struct ItemOpError(pub String);

/// A stored row.
#[derive(Debug, Clone)]
pub struct Item {
    /// The sequence id: assigned on write, never reused, the only order.
    pub id: i64,
    /// The owning account.
    pub owner: i32,
    pub uuid: String,
    pub content: Option<String>,
    pub content_type: String,
    pub enc_item_key: Option<String>,
    pub deleted: bool,
    pub created_at: String,
    pub updated_at: Option<String>,
}

/// An item as clients send and receive it.
#[derive(Debug, Clone)]
pub struct SyncItem {
    pub uuid: String,
    pub content: Option<String>,
    pub content_type: String,
    pub enc_item_key: Option<String>,
    pub deleted: bool,
    pub created_at: String,
    pub updated_at: Option<String>,
}

fn copy_text(o: &Option<String>) -> (r: Option<String>)
    ensures
        r == *o,
{
    match o {
        Some(s) => Some(s.clone()),
        None => None,
    }
}

impl Item {
    /// The row as a client sees it.
    pub open spec fn sync_view(self) -> SyncItem {
        SyncItem {
            uuid: self.uuid,
            content: self.content,
            content_type: self.content_type,
            enc_item_key: self.enc_item_key,
            deleted: self.deleted,
            created_at: self.created_at,
            updated_at: self.updated_at,
        }
    }

    pub fn duplicate(&self) -> (r: Item)
        ensures
            r == *self,
    {
        Item {
            id: self.id,
            owner: self.owner,
            uuid: self.uuid.clone(),
            content: copy_text(&self.content),
            content_type: self.content_type.clone(),
            enc_item_key: copy_text(&self.enc_item_key),
            deleted: self.deleted,
            created_at: self.created_at.clone(),
            updated_at: copy_text(&self.updated_at),
        }
    }

    pub fn to_sync_item(&self) -> (r: SyncItem)
        ensures
            r == self.sync_view(),
    {
        SyncItem {
            uuid: self.uuid.clone(),
            content: copy_text(&self.content),
            content_type: self.content_type.clone(),
            enc_item_key: copy_text(&self.enc_item_key),
            deleted: self.deleted,
            created_at: self.created_at.clone(),
            updated_at: copy_text(&self.updated_at),
        }
    }
}

/// Whether `it` is the row of `uuid` in account `owner`.
pub open spec fn same_key(it: Item, owner: i32, uuid: Seq<char>) -> bool {
    it.owner == owner && it.uuid@ == uuid
}

/// Rows of `owner` with an id above `since` and at most `until`, where given.
pub open spec fn window_pred(owner: i32, since: Option<i64>, until: Option<i64>) -> spec_fn(Item) -> bool {
    |it: Item|
        it.owner == owner && (since matches Some(s) ==> it.id > s) && (until matches Some(u) ==> it.id <= u)
}

/// Rows with an id above `m`.
pub open spec fn after(m: i64) -> spec_fn(Item) -> bool {
    |it: Item| it.id > m
}

/// Rows other than the one of `uuid` in account `owner`.
pub open spec fn other_key(owner: i32, uuid: Seq<char>) -> spec_fn(Item) -> bool {
    |it: Item| !same_key(it, owner, uuid)
}

pub open spec fn ids_increasing(s: Seq<Item>) -> bool {
    forall|i: int, j: int| 0 <= i < j < s.len() ==> s[i].id < s[j].id
}

/// The rows of a fetch window, in the order of the table.
pub open spec fn window(rows: Seq<Item>, owner: i32, since: Option<i64>, until: Option<i64>) -> Seq<Item> {
    rows.filter(window_pred(owner, since, until))
}

/// The first `limit` items, where a limit of zero or more is given; a negative
/// limit, as in SQL, is none.
pub open spec fn limited(s: Seq<Item>, limit: Option<i64>) -> Seq<Item> {
    if limit is Some && 0 <= limit->0 < s.len() {
        s.take(limit->0 as int)
    } else {
        s
    }
}

/// What a fetch returns.
pub open spec fn fetched(
    rows: Seq<Item>,
    owner: i32,
    since: Option<i64>,
    until: Option<i64>,
    limit: Option<i64>,
) -> Seq<Item> {
    limited(window(rows, owner, since, until), limit)
}

/// The latest sequence id of an account, if it has rows.
pub open spec fn current_max(rows: Seq<Item>, owner: i32) -> Option<i64> {
    let w = window(rows, owner, None, None);
    if w.len() == 0 {
        None
    } else {
        Some(w.last().id)
    }
}

/// The row that a write of `it` at server time `now` stores: `updated_at` is
/// `now`, whatever the client sent, and content and key are dropped from a
/// deleted item.
pub open spec fn stored_row(owner: i32, it: SyncItem, id: i64, now: String) -> Item {
    Item {
        id: id,
        owner: owner,
        uuid: it.uuid,
        content: if it.deleted { None } else { it.content },
        content_type: it.content_type,
        enc_item_key: if it.deleted { None } else { it.enc_item_key },
        deleted: it.deleted,
        created_at: it.created_at,
        updated_at: Some(now),
    }
}

/// A candidate as written: `updated_at` is the server's time.
pub open spec fn stamped(c: SyncItem, now: String) -> SyncItem {
    SyncItem {
        uuid: c.uuid,
        content: c.content,
        content_type: c.content_type,
        enc_item_key: c.enc_item_key,
        deleted: c.deleted,
        created_at: c.created_at,
        updated_at: Some(now),
    }
}

/// The in-memory item table.
pub struct ItemStore {
    rows: Vec<Item>,
    next_id: i64,
}

/// `new` is `old` after a write of `it` into account `owner` at server time `now`
/// under sequence id `id`: any earlier row of the item is gone and the new row
/// comes last.
pub open spec fn upserted(old: ItemStore, owner: i32, it: SyncItem, now: String, new: ItemStore, id: i64) -> bool {
    &&& id == old.next_id()
    &&& new.next_id() == old.next_id() + 1
    &&& new.rows() == old.rows().filter(other_key(owner, it.uuid@)).push(stored_row(owner, it, id, now))
}

impl ItemStore {
    /// The rows, in increasing order of sequence id.
    pub closed spec fn rows(&self) -> Seq<Item> {
        self.rows@
    }

    /// The sequence id that the next write receives.
    pub closed spec fn next_id(&self) -> int {
        self.next_id as int
    }

    #[verifier::type_invariant]
    pub(crate) open spec fn inv(self) -> bool {
        self.wf()
    }

    /// The table's invariant: ids increase along the rows and stay below the next
    /// id, each item has one row per account, and a deleted row has no payload.
    pub open spec fn wf(&self) -> bool {
        let rows = self.rows();
        &&& 1 <= self.next_id() <= i64::MAX
        &&& ids_increasing(rows)
        &&& forall|i: int| 0 <= i < rows.len() ==> 0 < #[trigger] rows[i].id < self.next_id()
        &&& forall|i: int, j: int|
            0 <= i < j < rows.len() ==> !same_key(#[trigger] rows[j], rows[i].owner, (#[trigger] rows[i]).uuid@)
        &&& forall|i: int|
            0 <= i < rows.len() && (#[trigger] rows[i]).deleted ==> rows[i].content is None
                && rows[i].enc_item_key is None
    }

    /// An empty table whose first write gets sequence id 1.
    pub fn new() -> (r: ItemStore)
        ensures
            r.wf(),
            r.rows().len() == 0,
            r.next_id() == 1,
    {
        ItemStore { rows: Vec::new(), next_id: 1 }
    }
}

/// A filter keeps the order of the rows, and keeps nothing that was not there.
pub proof fn lemma_filter_ordered(s: Seq<Item>, p: spec_fn(Item) -> bool)
    requires
        ids_increasing(s),
    ensures
        ids_increasing(s.filter(p)),
        forall|k: int|
            0 <= k < s.filter(p).len() ==> s.contains(#[trigger] s.filter(p)[k]) && p(s.filter(p)[k]),
    decreases s.len(),
{
    reveal(Seq::filter);
    if s.len() > 0 {
        let t = s.drop_last();
        lemma_filter_ordered(t, p);
        let ft = t.filter(p);
        let f = s.filter(p);
        assert forall|k: int| 0 <= k < ft.len() implies ft[k].id < s.last().id && s.contains(ft[k]) by {
            assert(t.contains(ft[k]));
            let i = choose|i: int| 0 <= i < t.len() && t[i] == ft[k];
            assert(s[i] == t[i]);
        }
        assert forall|k: int| 0 <= k < f.len() implies s.contains(#[trigger] f[k]) && p(f[k]) by {
            if k < ft.len() {
                assert(f[k] == ft[k]);
            } else {
                assert(f[k] == s.last());
                assert(s[s.len() - 1] == s.last());
            }
        }
    }
}

/// Filtering by `q` is filtering by `p`, then by `r`, where `q` is `p` and `r`
/// on every row.
proof fn lemma_filter_then(s: Seq<Item>, p: spec_fn(Item) -> bool, r: spec_fn(Item) -> bool, q: spec_fn(Item) -> bool)
    requires
        forall|x: Item| s.contains(x) ==> q(x) == (p(x) && r(x)),
    ensures
        s.filter(q) == s.filter(p).filter(r),
    decreases s.len(),
{
    reveal(Seq::filter);
    if s.len() > 0 {
        let t = s.drop_last();
        assert forall|x: Item| t.contains(x) implies q(x) == (p(x) && r(x)) by {
            let i = choose|i: int| 0 <= i < t.len() && t[i] == x;
            assert(s[i] == x);
            assert(s.contains(x));
        }
        lemma_filter_then(t, p, r, q);
        assert(s.contains(s.last())) by {
            assert(s[s.len() - 1] == s.last());
        }
        let fp = t.filter(p);
        if p(s.last()) {
            assert(fp.push(s.last()).drop_last() =~= fp);
        }
    }
}

/// In rows of increasing ids, nothing comes after an id that none exceeds.
proof fn lemma_none_after(s: Seq<Item>, m: i64)
    requires
        forall|i: int| 0 <= i < s.len() ==> #[trigger] s[i].id <= m,
    ensures
        s.filter(after(m)).len() == 0,
    decreases s.len(),
{
    reveal(Seq::filter);
    if s.len() > 0 {
        lemma_none_after(s.drop_last(), m);
    }
}

/// In rows of increasing ids, the rows after the `n`-th one's id are those
/// after the first `n`.
proof fn lemma_after_is_skip(s: Seq<Item>, n: int)
    requires
        ids_increasing(s),
        0 < n <= s.len(),
    ensures
        s.filter(after(s[n - 1].id)) == s.skip(n),
    decreases s.len(),
{
    reveal(Seq::filter);
    let m = s[n - 1].id;
    let t = s.drop_last();
    if s.len() == n {
        assert forall|i: int| 0 <= i < t.len() implies #[trigger] t[i].id <= m by {
            assert(t[i] == s[i]);
        }
        lemma_none_after(t, m);
        assert(s.skip(n) =~= Seq::<Item>::empty());
    } else {
        assert(t[n - 1] == s[n - 1]);
        lemma_after_is_skip(t, n);
        assert(s.last().id > m);
        assert(t.skip(n).push(s.last()) =~= s.skip(n));
    }
}

/// Paging loses and repeats nothing: a full page of a window, followed by the
/// window after the page's last sequence id, is the whole window.
pub proof fn lemma_page_then_rest(db: ItemStore, owner: i32, since: Option<i64>, until: Option<i64>, limit: i64)
    requires
        db.wf(),
        limit > 0,
        fetched(db.rows(), owner, since, until, Some(limit)).len() == limit,
    ensures
        window(db.rows(), owner, since, until) == fetched(db.rows(), owner, since, until, Some(limit))
            + window(
            db.rows(),
            owner,
            Some(fetched(db.rows(), owner, since, until, Some(limit)).last().id),
            until,
        ),
{
    let rows = db.rows();
    let w = window(rows, owner, since, until);
    let page = fetched(rows, owner, since, until, Some(limit));
    assert(page =~= w.take(limit as int));
    let m = w[limit - 1].id;
    assert(page.last() == w[limit - 1]);
    lemma_filter_ordered(rows, window_pred(owner, since, until));
    assert(window_pred(owner, since, until)(w[limit - 1]));
    lemma_filter_then(rows, window_pred(owner, since, until), after(m), window_pred(owner, Some(m), until));
    lemma_after_is_skip(w, limit as int);
    assert(w =~= w.take(limit as int) + w.skip(limit as int));
}

/// The pages of a window read `limit` at a time, each after the last sequence
/// id of the one before, concatenated; at most `pages` pages are read, and the
/// reading stops after a page that is not full.
pub open spec fn paged(
    rows: Seq<Item>,
    owner: i32,
    since: Option<i64>,
    until: Option<i64>,
    limit: i64,
    pages: nat,
) -> Seq<Item>
    decreases pages,
{
    let page = fetched(rows, owner, since, until, Some(limit));
    if pages <= 1 || page.len() < limit || page.len() == 0 {
        page
    } else {
        page + paged(rows, owner, Some(page.last().id), until, limit, (pages - 1) as nat)
    }
}

/// Reading a window page by page, with enough pages, gives exactly the window
/// read whole: nothing lost, nothing twice, in the same order.
pub proof fn lemma_paging_covers_window(
    db: ItemStore,
    owner: i32,
    since: Option<i64>,
    until: Option<i64>,
    limit: i64,
    pages: nat,
)
    requires
        db.wf(),
        limit > 0,
        pages > window(db.rows(), owner, since, until).len(),
    ensures
        paged(db.rows(), owner, since, until, limit, pages) == window(db.rows(), owner, since, until),
    decreases pages,
{
    let rows = db.rows();
    let w = window(rows, owner, since, until);
    let page = fetched(rows, owner, since, until, Some(limit));
    if page.len() < limit || page.len() == 0 {
        assert(page == w);
    } else {
        assert(page.len() == limit);
        lemma_page_then_rest(db, owner, since, until, limit);
        let rest = window(rows, owner, Some(page.last().id), until);
        assert(w.len() == page.len() + rest.len());
        lemma_paging_covers_window(db, owner, Some(page.last().id), until, limit, (pages - 1) as nat);
    }
}

/// Successive writes of one item get strictly increasing sequence ids, above
/// every id the table held before; afterwards the item has one row, under the
/// latest id.
pub proof fn lemma_upserts_increase(
    s0: ItemStore,
    s1: ItemStore,
    s2: ItemStore,
    owner: i32,
    a: SyncItem,
    b: SyncItem,
    t1: String,
    t2: String,
    id1: i64,
    id2: i64,
)
    requires
        s0.wf(),
        a.uuid@ == b.uuid@,
        upserted(s0, owner, a, t1, s1, id1),
        upserted(s1, owner, b, t2, s2, id2),
    ensures
        id1 < id2,
        forall|i: int| 0 <= i < s0.rows().len() ==> #[trigger] s0.rows()[i].id < id1,
        forall|i: int|
            0 <= i < s2.rows().len() && same_key(#[trigger] s2.rows()[i], owner, b.uuid@) ==> s2.rows()[i].id == id2,
{
    let kept = s1.rows().filter(other_key(owner, b.uuid@));
    assert forall|i: int| 0 <= i < s2.rows().len() && same_key(#[trigger] s2.rows()[i], owner, b.uuid@) implies s2.rows()[i].id == id2 by {
        if i < kept.len() {
            assert(s2.rows()[i] == kept[i]);
            reveal(Seq::filter);
            kept_satisfies(s1.rows(), other_key(owner, b.uuid@), i);
        }
    }
}

proof fn kept_satisfies(s: Seq<Item>, p: spec_fn(Item) -> bool, k: int)
    requires
        0 <= k < s.filter(p).len(),
    ensures
        p(s.filter(p)[k]),
{
    broadcast use vstd::seq_lib::group_filter_ensures;
}

/// One more element of a prefix, filtered.
pub proof fn lemma_filter_step<A>(rows: Seq<A>, p: spec_fn(A) -> bool, i: int)
    requires
        0 <= i < rows.len(),
    ensures
        rows.subrange(0, i + 1).filter(p) == if p(rows[i]) {
            rows.subrange(0, i).filter(p).push(rows[i])
        } else {
            rows.subrange(0, i).filter(p)
        },
{
    reveal(Seq::filter);
    assert(rows.subrange(0, i + 1).drop_last() =~= rows.subrange(0, i));
}

/// The latest id of an account is the id of its last row, and no row of the
/// account has a larger one.
pub proof fn lemma_current_max(rows: Seq<Item>, owner: i32)
    requires
        ids_increasing(rows),
    ensures
        current_max(rows, owner) is None <==> forall|i: int| 0 <= i < rows.len() ==> #[trigger] rows[i].owner != owner,
        current_max(rows, owner) matches Some(m) ==> forall|i: int|
            0 <= i < rows.len() && #[trigger] rows[i].owner == owner ==> rows[i].id <= m,
{
    let p = window_pred(owner, None, None);
    let w = rows.filter(p);
    broadcast use vstd::seq_lib::group_filter_ensures;
    lemma_filter_ordered(rows, p);
    if w.len() > 0 {
        assert forall|i: int| 0 <= i < rows.len() && #[trigger] rows[i].owner == owner implies rows[i].id <= w.last().id by {
            assert(p(rows[i]));
            assert(w.contains(rows[i]));
            let k = choose|k: int| 0 <= k < w.len() && w[k] == rows[i];
        }
        assert(w.contains(w[w.len() - 1]));
        let j = choose|j: int| 0 <= j < rows.len() && rows[j] == w[w.len() - 1];
    } else {
        assert forall|i: int| 0 <= i < rows.len() implies #[trigger] rows[i].owner != owner by {
            if rows[i].owner == owner {
                assert(p(rows[i]));
                assert(w.contains(rows[i]));
            }
        }
    }
}

impl SyncItem {
    pub fn duplicate(&self) -> (r: SyncItem)
        ensures
            r == *self,
    {
        SyncItem {
            uuid: self.uuid.clone(),
            content: copy_text(&self.content),
            content_type: self.content_type.clone(),
            enc_item_key: copy_text(&self.enc_item_key),
            deleted: self.deleted,
            created_at: self.created_at.clone(),
            updated_at: copy_text(&self.updated_at),
        }
    }

    /// The item with `updated_at` set to the server's time.
    pub fn with_updated_at(&self, now: &String) -> (r: SyncItem)
        ensures
            r == stamped(*self, *now),
    {
        SyncItem {
            uuid: self.uuid.clone(),
            content: copy_text(&self.content),
            content_type: self.content_type.clone(),
            enc_item_key: copy_text(&self.enc_item_key),
            deleted: self.deleted,
            created_at: self.created_at.clone(),
            updated_at: Some(now.clone()),
        }
    }

    /// The rows of account `owner` with a sequence id above `since_id` and at most
    /// `max_id` (each where given), in increasing order of sequence id, cut to the
    /// first `limit` where a limit of zero or more is given.
    pub fn items_of_user(
        db: &ItemStore,
        owner: i32,
        since_id: Option<i64>,
        max_id: Option<i64>,
        limit: Option<i64>,
    ) -> (r: Result<Vec<Item>, ItemOpError>)
        ensures
            r matches Ok(v) && v@ == fetched(db.rows(), owner, since_id, max_id, limit),
            r matches Ok(v) ==> ids_increasing(v@),
            r matches Ok(v) ==> forall|k: int|
                0 <= k < v@.len() ==> db.rows().contains(#[trigger] v@[k]) && window_pred(owner, since_id, max_id)(
                    v@[k],
                ),
    {
        proof {
            use_type_invariant(db);
        }
        let ghost p = window_pred(owner, since_id, max_id);
        let mut out: Vec<Item> = Vec::new();
        let mut i: usize = 0;
        while i < db.rows.len()
            invariant
                i <= db.rows@.len(),
                p == window_pred(owner, since_id, max_id),
                out@ == db.rows@.subrange(0, i as int).filter(p),
            decreases db.rows@.len() - i,
        {
            let row = &db.rows[i];
            proof {
                lemma_filter_step(db.rows@, p, i as int);
            }
            let above = match since_id {
                Some(s) => row.id > s,
                None => true,
            };
            let below = match max_id {
                Some(u) => row.id <= u,
                None => true,
            };
            if row.owner == owner && above && below {
                out.push(row.duplicate());
            }
            i = i + 1;
        }
        assert(db.rows@.subrange(0, db.rows@.len() as int) =~= db.rows@);
        let ghost w = out@;
        if let Some(l) = limit {
            if 0 <= l && (l as u64) < (out.len() as u64) {
                out.truncate(l as usize);
            }
        }
        assert(out@ =~= limited(w, limit));
        proof {
            lemma_filter_ordered(db.rows@, p);
            assert forall|k: int| 0 <= k < out@.len() implies db.rows().contains(#[trigger] out@[k]) && p(out@[k]) by {
                assert(out@[k] == w[k]);
            }
            assert forall|a: int, b: int| 0 <= a < b < out@.len() implies out@[a].id < out@[b].id by {
                assert(out@[a] == w[a] && out@[b] == w[b]);
            }
        }
        Ok(out)
    }

    /// The row of `uuid` in account `owner`; an error where there is none.
    pub fn find_item_by_uuid(db: &ItemStore, owner: i32, uuid: &str) -> (r: Result<Item, ItemOpError>)
        ensures
            match r {
                Ok(it) => db.rows().contains(it) && same_key(it, owner, uuid@),
                Err(e) => e.0@ == DATABASE_ERROR@ && forall|i: int|
                    0 <= i < db.rows().len() ==> !same_key(#[trigger] db.rows()[i], owner, uuid@),
            },
    {
        proof {
            use_type_invariant(db);
        }
        let key = uuid.to_owned();
        let mut i: usize = 0;
        while i < db.rows.len()
            invariant
                i <= db.rows@.len(),
                key@ == uuid@,
                forall|k: int| 0 <= k < i ==> !same_key(#[trigger] db.rows@[k], owner, uuid@),
            decreases db.rows@.len() - i,
        {
            let row = &db.rows[i];
            if row.owner == owner && row.uuid == key {
                let found = row.duplicate();
                assert(db.rows@[i as int] == found);
                return Ok(found);
            }
            i = i + 1;
        }
        Err(ItemOpError(String::from_str(DATABASE_ERROR)))
    }

    /// The latest sequence id of account `owner`, or none where it has no rows.
    pub fn get_current_max_id(db: &ItemStore, owner: i32) -> (r: Result<Option<i64>, ItemOpError>)
        ensures
            r == Ok::<Option<i64>, ItemOpError>(current_max(db.rows(), owner)),
            r matches Ok(None) ==> forall|i: int| 0 <= i < db.rows().len() ==> #[trigger] db.rows()[i].owner != owner,
            r matches Ok(Some(m)) ==> forall|i: int|
                0 <= i < db.rows().len() && #[trigger] db.rows()[i].owner == owner ==> db.rows()[i].id <= m,
    {
        proof {
            use_type_invariant(db);
        }
        let ghost p = window_pred(owner, None, None);
        let mut last: Option<i64> = None;
        let mut i: usize = 0;
        while i < db.rows.len()
            invariant
                i <= db.rows@.len(),
                p == window_pred(owner, None, None),
                last == current_max(db.rows@.subrange(0, i as int), owner),
            decreases db.rows@.len() - i,
        {
            proof {
                lemma_filter_step(db.rows@, p, i as int);
            }
            if db.rows[i].owner == owner {
                last = Some(db.rows[i].id);
            }
            i = i + 1;
        }
        assert(db.rows@.subrange(0, db.rows@.len() as int) =~= db.rows@);
        proof {
            lemma_current_max(db.rows@, owner);
        }
        Ok(last)
    }

    /// Writes `it` into account `owner` under the next sequence id, stamped with
    /// the server time `now`, in place of any earlier row of the same uuid, and
    /// returns that id. Fails, changing nothing, only where the sequence ids are
    /// used up.
    pub fn items_insert(db: &mut ItemStore, owner: i32, it: &SyncItem, now: &String) -> (r: Result<i64, ItemOpError>)
        ensures
            final(db).wf(),
            match r {
                Ok(id) => upserted(*old(db), owner, *it, *now, *final(db), id),
                Err(e) => e.0@ == DATABASE_ERROR@ && old(db).next_id() == i64::MAX && *final(db) == *old(db),
            },
    {
        proof {
            use_type_invariant(&*db);
        }
        if db.next_id == i64::MAX {
            return Err(ItemOpError(String::from_str(DATABASE_ERROR)));
        }
        let id = db.next_id;
        let ghost p = other_key(owner, it.uuid@);
        let ghost old_rows = db.rows@;
        let mut kept: Vec<Item> = Vec::new();
        let mut i: usize = 0;
        while i < db.rows.len()
            invariant
                i <= db.rows@.len(),
                db.rows@ == old_rows,
                p == other_key(owner, it.uuid@),
                kept@ == db.rows@.subrange(0, i as int).filter(p),
            decreases db.rows@.len() - i,
        {
            proof {
                lemma_filter_step(db.rows@, p, i as int);
            }
            let row = &db.rows[i];
            if !(row.owner == owner && row.uuid == it.uuid) {
                kept.push(row.duplicate());
            }
            i = i + 1;
        }
        assert(old_rows.subrange(0, old_rows.len() as int) =~= old_rows);
        let fresh = Item {
            id: id,
            owner: owner,
            uuid: it.uuid.clone(),
            content: if it.deleted { None } else { copy_text(&it.content) },
            content_type: it.content_type.clone(),
            enc_item_key: if it.deleted { None } else { copy_text(&it.enc_item_key) },
            deleted: it.deleted,
            created_at: it.created_at.clone(),
            updated_at: Some(now.clone()),
        };
        let ghost base = kept@;
        kept.push(fresh);
        proof {
            broadcast use vstd::seq_lib::group_filter_ensures;
            lemma_filter_ordered(old_rows, p);
            let rows = kept@;
            assert forall|k: int| 0 <= k < base.len() implies (#[trigger] base[k]).id < id && 0 < base[k].id
                && !same_key(base[k], owner, it.uuid@) && (base[k].deleted ==> base[k].content is None
                && base[k].enc_item_key is None) by {
                assert(old_rows.contains(base[k]));
                assert(p(base[k]));
            }
            assert forall|a: int, b: int| 0 <= a < b < rows.len() implies !same_key(
                #[trigger] rows[b],
                rows[a].owner,
                (#[trigger] rows[a]).uuid@,
            ) by {
                if b < base.len() {
                    assert(rows[a] == base[a] && rows[b] == base[b]);
                    assert(old_rows.contains(base[a]) && old_rows.contains(base[b]));
                    let x = choose|x: int| 0 <= x < old_rows.len() && old_rows[x] == base[a];
                    let y = choose|y: int| 0 <= y < old_rows.len() && old_rows[y] == base[b];
                    assert(base[a].id < base[b].id);
                }
            }
            assert forall|a: int, b: int| 0 <= a < b < rows.len() implies rows[a].id < rows[b].id by {
                if b < base.len() {
                    assert(rows[a] == base[a] && rows[b] == base[b]);
                } else {
                    assert(rows[a] == base[a]);
                }
            }
            assert forall|k: int| 0 <= k < rows.len() implies 0 < #[trigger] rows[k].id < id + 1 by {
                if k < base.len() {
                    assert(rows[k] == base[k]);
                }
            }
            assert forall|k: int| 0 <= k < rows.len() && (#[trigger] rows[k]).deleted implies rows[k].content is None
                && rows[k].enc_item_key is None by {
                if k < base.len() {
                    assert(rows[k] == base[k]);
                }
            }
        }
        *db = ItemStore { rows: kept, next_id: id + 1 };
        Ok(id)
    }
}

} // verus!
