//! One sync session: read what the client has not seen, hold back its writes
//! that clash with what it is about to receive, store the rest, and hand out
//! the tokens to continue from.
use vstd::prelude::*;
use vstd::string::StringExecFns;
use itertools::{Either, Itertools};
use crate::item::{
    current_max, fetched, lemma_filter_step, stamped, stored_row, other_key, Item, ItemOpError, ItemStore,
    SyncItem,
};
use crate::lock::{lock_account, UserLock};
use crate::sync_tokens::{random_nonce, seal_token, token_to_max_id, token_value, TokenError};

verus! {

/// itertools' `Either` (from the either crate), the verdict that `classify` hands to
/// `partition_map`; its two variants are read as declared.
#[verifier::external_type_specification]
#[verifier::reject_recursive_types(L)]
#[verifier::reject_recursive_types(R)]
pub struct ExEither<L, R>(Either<L, R>);

/// The type of a conflict over an item that the client has not seen yet.
pub const SYNC_CONFLICT: &'static str = "sync_conflict";

/// What a client sends.
#[derive(Debug, Clone)]
pub struct SyncParams {
    pub items: Vec<SyncItem>,
    pub sync_token: Option<String>,
    pub cursor_token: Option<String>,
    pub limit: Option<i64>,
}

/// A write held back because the client has not yet seen the server's copy.
#[derive(Debug, Clone)]
pub struct SyncConflict {
    pub conf_type: String,
    pub server_item: Option<SyncItem>,
    pub unsaved_item: Option<SyncItem>,
}

/// What a session returns.
#[derive(Debug, Clone)]
pub struct SyncResp {
    pub retrieved_items: Vec<SyncItem>,
    pub saved_items: Vec<SyncItem>,
    pub conflicts: Vec<SyncConflict>,
    pub sync_token: Option<String>,
    pub cursor_token: Option<String>,
}

/// A session before its sequence ids are sealed into tokens.
#[derive(Debug)]
pub struct SyncOutcome {
    pub retrieved_items: Vec<SyncItem>,
    pub saved_items: Vec<SyncItem>,
    pub conflicts: Vec<SyncConflict>,
    pub sync_id: Option<i64>,
    pub cursor_id: Option<i64>,
}

/// Why a session failed.
#[derive(Debug)]
pub enum SyncError {
    /// The account's lock was poisoned by a session that panicked.
    Lock,
    /// The item table failed; writes made before the failure stay.
    Storage(ItemOpError),
    /// No random bytes for a token's nonce.
    Token,
    /// The system clock reads before the Unix epoch.
    Clock,
}

impl SyncConflict {
    /// The uuid of the item in conflict.
    pub fn uuid(&self) -> (r: String)
        requires
            self.server_item is Some || self.unsaved_item is Some,
        ensures
            r@ == if self.server_item is Some {
                self.server_item->Some_0.uuid@
            } else {
                self.unsaved_item->Some_0.uuid@
            },
    {
        match &self.server_item {
            Some(item) => item.uuid.clone(),
            None => match &self.unsaved_item {
                Some(item) => item.uuid.clone(),
                None => String::new(),
            },
        }
    }
}

/// The sequence id inside a caller's token; a token that does not decode
/// counts as absent.
pub open spec fn decoded(key: Seq<u8>, t: Option<String>) -> Option<i64> {
    match t {
        Some(s) => match token_value(key, s@) {
            Ok(n) => Some(n),
            Err(_) => None,
        },
        None => None,
    }
}

/// The lower bound of the read window: the cursor where there is one, else the
/// sync token.
pub open spec fn read_since(key: Seq<u8>, p: SyncParams) -> Option<i64> {
    if decoded(key, p.cursor_token) is Some {
        decoded(key, p.cursor_token)
    } else {
        decoded(key, p.sync_token)
    }
}

/// The upper bound of the read window: the sync token, while a cursor pages
/// through the history up to it.
pub open spec fn read_until(key: Seq<u8>, p: SyncParams) -> Option<i64> {
    if decoded(key, p.cursor_token) is Some {
        decoded(key, p.sync_token)
    } else {
        None
    }
}

/// The sync sequence id fixed when the session starts: the caller's own while it
/// pages, else the account's latest, taken before any write of the session.
pub open spec fn session_head(rows: Seq<Item>, account: i32, key: Seq<u8>, p: SyncParams) -> Option<i64> {
    if decoded(key, p.cursor_token) is Some && decoded(key, p.sync_token) is Some {
        decoded(key, p.sync_token)
    } else {
        current_max(rows, account)
    }
}

/// The rows that the session reads.
pub open spec fn session_rows(rows: Seq<Item>, account: i32, key: Seq<u8>, p: SyncParams) -> Seq<Item> {
    fetched(rows, account, read_since(key, p), read_until(key, p), p.limit)
}

/// A full page leaves a cursor at its last sequence id.
pub open spec fn cursor_after(f: Seq<Item>, limit: Option<i64>) -> Option<i64> {
    if limit is Some && f.len() > 0 && f.len() == limit->0 {
        Some(f.last().id)
    } else {
        None
    }
}

pub open spec fn client_view(f: Seq<Item>) -> Seq<SyncItem> {
    f.map_values(|it: Item| it.sync_view())
}

/// The first item of `s` with the given uuid.
pub open spec fn first_match(s: Seq<SyncItem>, uuid: Seq<char>) -> Option<SyncItem>
    decreases s.len(),
{
    if s.len() == 0 {
        None
    } else if s[0].uuid@ == uuid {
        Some(s[0])
    } else {
        first_match(s.drop_first(), uuid)
    }
}

/// A candidate that meets a retrieved item of its uuid goes left, with that
/// item; any other goes right.
pub open spec fn classified(retrieved: Seq<SyncItem>, c: SyncItem) -> Either<(SyncItem, SyncItem), SyncItem> {
    match first_match(retrieved, c.uuid@) {
        Some(s) => Either::Left((c, s)),
        None => Either::Right(c),
    }
}

/// The candidates in conflict, each with the server's copy, in order.
pub open spec fn conflicts_of(items: Seq<SyncItem>, retrieved: Seq<SyncItem>) -> Seq<(SyncItem, SyncItem)>
    decreases items.len(),
{
    if items.len() == 0 {
        seq![]
    } else {
        let rest = conflicts_of(items.drop_last(), retrieved);
        match first_match(retrieved, items.last().uuid@) {
            Some(s) => rest.push((items.last(), s)),
            None => rest,
        }
    }
}

/// The candidates free to write, in order.
pub open spec fn to_save_of(items: Seq<SyncItem>, retrieved: Seq<SyncItem>) -> Seq<SyncItem>
    decreases items.len(),
{
    if items.len() == 0 {
        seq![]
    } else {
        let rest = to_save_of(items.drop_last(), retrieved);
        match first_match(retrieved, items.last().uuid@) {
            Some(_) => rest,
            None => rest.push(items.last()),
        }
    }
}

/// Whether some conflict is about an item of this uuid.
pub open spec fn contested(conflicts: Seq<(SyncItem, SyncItem)>, uuid: Seq<char>) -> bool {
    exists|k: int| 0 <= k < conflicts.len() && (#[trigger] conflicts[k]).1.uuid@ == uuid
}

pub open spec fn not_contested(conflicts: Seq<(SyncItem, SyncItem)>) -> spec_fn(SyncItem) -> bool {
    |x: SyncItem| !contested(conflicts, x.uuid@)
}

/// The retrieved items other than those in conflict.
pub open spec fn uncontested(retrieved: Seq<SyncItem>, conflicts: Seq<(SyncItem, SyncItem)>) -> Seq<SyncItem> {
    retrieved.filter(not_contested(conflicts))
}

/// The conflict reported for a candidate: the server's copy, tagged.
pub open spec fn reports(c: SyncConflict, pair: (SyncItem, SyncItem)) -> bool {
    &&& c.conf_type@ == SYNC_CONFLICT@
    &&& c.server_item == Some(pair.1)
    &&& c.unsaved_item is None
}

/// A token that holds `id`, or none where `id` is none.
pub open spec fn token_holds(key: Seq<u8>, t: Option<String>, id: Option<i64>) -> bool {
    match id {
        Some(n) => t matches Some(s) && token_value(key, s@) == Ok::<i64, TokenError>(n),
        None => t is None,
    }
}

/// `new` and the lists are what a session of `account` with `p` at time `now`
/// makes of `old`, with `sync_id` and `cursor_id` as the sequence ids to return.
pub open spec fn session_result(
    old: ItemStore,
    key: Seq<u8>,
    account: i32,
    p: SyncParams,
    now: String,
    new: ItemStore,
    retrieved: Seq<SyncItem>,
    saved: Seq<SyncItem>,
    conflicts: Seq<SyncConflict>,
    sync_id: Option<i64>,
    cursor_id: Option<i64>,
) -> bool {
    let rows = old.rows();
    let f = session_rows(rows, account, key, p);
    let all = client_view(f);
    let clashes = conflicts_of(p.items@, all);
    let to_save = to_save_of(p.items@, all);
    let n = old.next_id();
    &&& saved == stamped_all(to_save, now)
    &&& new.rows() == rows_after_writes(rows, account, to_save, n, now)
    &&& new.next_id() == n + to_save.len()
    &&& retrieved == uncontested(all, clashes)
    &&& conflicts.len() == clashes.len()
    &&& forall|k: int| 0 <= k < clashes.len() ==> reports(#[trigger] conflicts[k], clashes[k])
    &&& cursor_id == cursor_after(f, p.limit)
    &&& sync_id == session_sync_id(rows, account, key, p, to_save.len(), n + to_save.len() - 1)
}

/// `new` is `old` after a session whose sequence ids ran out: the candidates
/// free to write went in, in order, until the last id was used, and none after.
pub open spec fn writes_until_run_out(old: ItemStore, key: Seq<u8>, account: i32, p: SyncParams, now: String, new: ItemStore) -> bool {
    let to_save = to_save_of(p.items@, client_view(session_rows(old.rows(), account, key, p)));
    &&& new.rows() == rows_after_writes(old.rows(), account, to_save.take(i64::MAX - old.next_id()), old.next_id(), now)
    &&& new.next_id() == i64::MAX
}

/// Whether the candidates free to write would run past the last sequence id.
pub open spec fn ids_run_out(old: ItemStore, key: Seq<u8>, account: i32, p: SyncParams) -> bool {
    old.next_id() + to_save_of(p.items@, client_view(session_rows(old.rows(), account, key, p))).len() > i64::MAX
}

pub open spec fn stamped_all(s: Seq<SyncItem>, now: String) -> Seq<SyncItem> {
    s.map_values(|c: SyncItem| stamped(c, now))
}

/// The rows after writing `items` in order at server time `now`, the first
/// under sequence id `first`.
pub open spec fn rows_after_writes(rows: Seq<Item>, owner: i32, items: Seq<SyncItem>, first: int, now: String) -> Seq<
    Item,
>
    decreases items.len(),
{
    if items.len() == 0 {
        rows
    } else {
        rows_after_writes(rows, owner, items.drop_last(), first, now).filter(
            other_key(owner, items.last().uuid@),
        ).push(stored_row(owner, items.last(), (first + items.len() - 1) as i64, now))
    }
}

/// The sync sequence id a session returns: its last write where it wrote; else
/// a caller's cursor whose window turned out empty; else the session's head.
pub open spec fn session_sync_id(rows: Seq<Item>, account: i32, key: Seq<u8>, p: SyncParams, written: nat, last: int) -> Option<i64> {
    if written > 0 {
        Some(last as i64)
    } else if session_rows(rows, account, key, p).len() == 0 && decoded(key, p.cursor_token) is Some {
        decoded(key, p.cursor_token)
    } else {
        session_head(rows, account, key, p)
    }
}

/// Relies on itertools' `partition_map`: in order, each item goes to the left or
/// to the right list, as the closure's `Either` says.
#[verifier::external_body]
fn split_conflicts(items: Vec<SyncItem>, retrieved: &Vec<SyncItem>) -> (r: (Vec<(SyncItem, SyncItem)>, Vec<SyncItem>))
    ensures
        r.0@ == conflicts_of(items@, retrieved@),
        r.1@ == to_save_of(items@, retrieved@),
{
    items.into_iter().partition_map(|c| classify(c, retrieved))
}

/// The RFC 3339 text, with milliseconds and `Z`, of the UTC instant `secs`
/// seconds and `nanos` nanoseconds after the Unix epoch; none out of range.
pub uninterp spec fn rfc3339_of(secs: i64, nanos: u32) -> Option<Seq<char>>;

/// Relies on std's `SystemTime::now` and `duration_since(UNIX_EPOCH)`: the
/// seconds and nanoseconds since the epoch, none where the clock reads before it.
#[verifier::external_body]
fn unix_time() -> Option<(u64, u32)> {
    let d = std::time::SystemTime::now().duration_since(std::time::UNIX_EPOCH).ok()?;
    Some((d.as_secs(), d.subsec_nanos()))
}

/// Relies on chrono's `DateTime::<Utc>::from_timestamp`, none where out of range,
/// then `to_rfc3339_opts(SecondsFormat::Millis, true)`, which writes to a
/// `String` and does not fail.
#[verifier::external_body]
fn rfc3339_millis(secs: i64, nanos: u32) -> (r: Option<String>)
    ensures
        match r {
            Some(t) => rfc3339_of(secs, nanos) == Some(t@),
            None => rfc3339_of(secs, nanos) is None,
        },
{
    let t = chrono::DateTime::<chrono::Utc>::from_timestamp(secs, nanos)?;
    Some(t.to_rfc3339_opts(chrono::SecondsFormat::Millis, true))
}

/// The server's time as RFC 3339 text with milliseconds, in UTC; none where the
/// clock reads before the Unix epoch or beyond what the text can hold.
pub fn server_time() -> (r: Option<String>)
    ensures
        r matches Some(t) ==> exists|secs: i64, nanos: u32| #[trigger] rfc3339_of(secs, nanos) == Some(t@),
{
    match unix_time() {
        Some((secs, nanos)) => {
            if secs > i64::MAX as u64 {
                return None;
            }
            rfc3339_millis(secs as i64, nanos)
        },
        None => None,
    }
}

/// The retrieved item that a candidate clashes with, if any.
pub fn classify(c: SyncItem, retrieved: &Vec<SyncItem>) -> (r: Either<(SyncItem, SyncItem), SyncItem>)
    ensures
        r == classified(retrieved@, c),
{
    let mut i: usize = 0;
    assert(retrieved@.skip(0) =~= retrieved@);
    while i < retrieved.len()
        invariant
            i <= retrieved@.len(),
            first_match(retrieved@, c.uuid@) == first_match(retrieved@.skip(i as int), c.uuid@),
        decreases retrieved@.len() - i,
    {
        assert(retrieved@.skip(i as int).drop_first() =~= retrieved@.skip(i + 1));
        if retrieved[i].uuid == c.uuid {
            let server = retrieved[i].duplicate();
            return Either::Left((c, server));
        }
        i = i + 1;
    }
    assert(retrieved@.skip(i as int).len() == 0);
    Either::Right(c)
}

/// The sequence id in a caller's token, or none where it is absent or does not
/// decode.
pub fn decode_token(key: &[u8; 32], t: &Option<String>) -> (r: Option<i64>)
    ensures
        r == decoded(key@, *t),
{
    match t {
        Some(s) => match token_to_max_id(key, s.as_str()) {
            Ok(n) => Some(n),
            Err(_) => None,
        },
        None => None,
    }
}

/// A session on a table that no one else writes meanwhile, at server time `now`.
/// It fails, after the writes that fit, only where the sequence ids run out.
pub fn run_sync(db: &mut ItemStore, key: &[u8; 32], account: i32, params: SyncParams, now: &String) -> (r: Result<
    SyncOutcome,
    ItemOpError,
>)
    ensures
        final(db).wf(),
        r is Err <==> ids_run_out(*old(db), key@, account, params),
        r matches Err(e) ==> e.0@ == crate::item::DATABASE_ERROR@ && writes_until_run_out(
            *old(db),
            key@,
            account,
            params,
            *now,
            *final(db),
        ),
        r matches Ok(out) ==> session_result(
            *old(db),
            key@,
            account,
            params,
            *now,
            *final(db),
            out.retrieved_items@,
            out.saved_items@,
            out.conflicts@,
            out.sync_id,
            out.cursor_id,
        ),
{
    proof {
        use_type_invariant(&*db);
    }
    let ghost rows0 = db.rows();
    let ghost n = db.next_id();
    let ghost asked = params;
    let sync_in = decode_token(key, &params.sync_token);
    let cursor_in = decode_token(key, &params.cursor_token);
    let (since, until) = if cursor_in.is_some() {
        (cursor_in, sync_in)
    } else {
        (sync_in, None)
    };
    let head = if cursor_in.is_some() && sync_in.is_some() {
        sync_in
    } else {
        match SyncItem::get_current_max_id(db, account) {
            Ok(m) => m,
            Err(e) => {
                return Err(e);
            },
        }
    };
    let read = match SyncItem::items_of_user(db, account, since, until, params.limit) {
        Ok(v) => v,
        Err(e) => {
            return Err(e);
        },
    };
    let ghost f = read@;
    let cursor_id = match params.limit {
        Some(l) => {
            if read.len() > 0 && l > 0 && (read.len() as u64) == (l as u64) {
                Some(read[read.len() - 1].id)
            } else {
                None
            }
        },
        None => None,
    };
    let mut all: Vec<SyncItem> = Vec::new();
    let mut i: usize = 0;
    while i < read.len()
        invariant
            i <= read@.len(),
            all@.len() == i,
            forall|k: int| 0 <= k < i ==> all@[k] == (#[trigger] read@[k]).sync_view(),
        decreases read@.len() - i,
    {
        all.push(read[i].to_sync_item());
        i = i + 1;
    }
    assert(all@ =~= client_view(f));
    assert(f == session_rows(rows0, account, key@, asked));
    let (pairs, to_save) = split_conflicts(params.items, &all);
    let mut conflicts: Vec<SyncConflict> = Vec::new();
    let mut i: usize = 0;
    while i < pairs.len()
        invariant
            i <= pairs@.len(),
            conflicts@.len() == i,
            forall|k: int| 0 <= k < i ==> reports(#[trigger] conflicts@[k], pairs@[k]),
        decreases pairs@.len() - i,
    {
        conflicts.push(
            SyncConflict {
                conf_type: String::from_str(SYNC_CONFLICT),
                server_item: Some(pairs[i].1.duplicate()),
                unsaved_item: None,
            },
        );
        i = i + 1;
    }
    let ghost run_out = n + to_save@.len() > i64::MAX;
    assert(run_out == ids_run_out(*old(db), key@, account, asked));
    let mut saved: Vec<SyncItem> = Vec::new();
    let mut last_id: i64 = 0;
    let mut i: usize = 0;
    #[verifier::loop_isolation(false)]
    while i < to_save.len()
        invariant
            db.wf(),
            i <= to_save@.len(),
            saved@ == stamped_all(to_save@.subrange(0, i as int), *now),
            db.rows() == rows_after_writes(rows0, account, to_save@.subrange(0, i as int), n, *now),
            db.next_id() == n + i,
            run_out == (n + to_save@.len() > i64::MAX),
            run_out == ids_run_out(*old(db), key@, account, asked),
            i > 0 ==> last_id == n + i - 1,
        decreases to_save@.len() - i,
    {
        let stamp = to_save[i].with_updated_at(now);
        assert(to_save@.subrange(0, i + 1).drop_last() =~= to_save@.subrange(0, i as int));
        match SyncItem::items_insert(db, account, &to_save[i], now) {
            Ok(id) => {
                last_id = id;
                let ghost before = saved@;
                saved.push(stamp);
                assert(saved@.drop_last() =~= before);
                assert(stamped_all(to_save@.subrange(0, i + 1), *now) =~= before.push(stamp));
            },
            Err(e) => {
                assert(to_save@.take(i64::MAX - n) =~= to_save@.subrange(0, i as int));
                return Err(e);
            },
        }
        i = i + 1;
    }
    assert(to_save@.subrange(0, to_save@.len() as int) =~= to_save@);
    let sync_id = if saved.len() > 0 {
        Some(last_id)
    } else if read.len() == 0 && cursor_in.is_some() {
        cursor_in
    } else {
        head
    };
    let ghost keep = not_contested(pairs@);
    let mut retrieved: Vec<SyncItem> = Vec::new();
    let mut j: usize = 0;
    while j < all.len()
        invariant
            j <= all@.len(),
            conflicts@.len() == pairs@.len(),
            forall|k: int| 0 <= k < pairs@.len() ==> reports(#[trigger] conflicts@[k], pairs@[k]),
            keep == not_contested(pairs@),
            retrieved@ == all@.subrange(0, j as int).filter(keep),
        decreases all@.len() - j,
    {
        proof {
            lemma_filter_step(all@, keep, j as int);
        }
        let x = &all[j];
        let mut hit = false;
        let mut k: usize = 0;
        while k < conflicts.len()
            invariant
                k <= conflicts@.len(),
                conflicts@.len() == pairs@.len(),
                forall|q: int| 0 <= q < pairs@.len() ==> reports(#[trigger] conflicts@[q], pairs@[q]),
                hit == exists|q: int| 0 <= q < k && (#[trigger] pairs@[q]).1.uuid@ == x.uuid@,
            decreases conflicts@.len() - k,
        {
            assert(reports(conflicts@[k as int], pairs@[k as int]));
            if conflicts[k].uuid() == x.uuid {
                hit = true;
            }
            k = k + 1;
        }
        if !hit {
            retrieved.push(x.duplicate());
        }
        j = j + 1;
    }
    assert(all@.subrange(0, all@.len() as int) =~= all@);
    Ok(SyncOutcome { retrieved_items: retrieved, saved_items: saved, conflicts, sync_id, cursor_id })
}

/// A sync session of `account`, run under the account's lock and stamped with
/// the server's time; its sequence ids go out sealed in fresh tokens. The table
/// is borrowed exclusively for the session, which stands for its write gate.
/// The time and both nonces are drawn before anything is written, so a session
/// that fails for want of them leaves the table as it was.
pub fn items_sync(db: &mut ItemStore, lock: &UserLock, key: &[u8; 32], account: i32, params: SyncParams) -> (r: Result<
    SyncResp,
    SyncError,
>)
    ensures
        final(db).wf(),
        r matches Err(SyncError::Lock) ==> *final(db) == *old(db),
        r matches Err(SyncError::Clock) ==> *final(db) == *old(db),
        r matches Err(SyncError::Token) ==> *final(db) == *old(db),
        r matches Err(SyncError::Storage(e)) ==> ids_run_out(*old(db), key@, account, params)
            && e.0@ == crate::item::DATABASE_ERROR@
            && exists|now: String| #[trigger]
                writes_until_run_out(*old(db), key@, account, params, now, *final(db)),
        ids_run_out(*old(db), key@, account, params) ==> r is Err,
        r matches Ok(resp) ==> exists|now: String, sync_id: Option<i64>, cursor_id: Option<i64>|
            #[trigger] session_result(
                *old(db),
                key@,
                account,
                params,
                now,
                *final(db),
                resp.retrieved_items@,
                resp.saved_items@,
                resp.conflicts@,
                sync_id,
                cursor_id,
            ) && token_holds(key@, resp.sync_token, sync_id) && token_holds(key@, resp.cursor_token, cursor_id),
{
    proof {
        use_type_invariant(&*db);
    }
    let ghost asked = params;
    let mutex = lock.get_mutex(account);
    let _held = match lock_account(&*mutex) {
        Some(g) => g,
        None => {
            return Err(SyncError::Lock);
        },
    };
    let now = match server_time() {
        Some(t) => t,
        None => {
            return Err(SyncError::Clock);
        },
    };
    let sync_nonce = match random_nonce() {
        Ok(n) => n,
        Err(_) => {
            return Err(SyncError::Token);
        },
    };
    let cursor_nonce = match random_nonce() {
        Ok(n) => n,
        Err(_) => {
            return Err(SyncError::Token);
        },
    };
    let out = match run_sync(db, key, account, params, &now) {
        Ok(o) => o,
        Err(e) => {
            assert(writes_until_run_out(*old(db), key@, account, asked, now, *db));
            return Err(SyncError::Storage(e));
        },
    };
    let sync_token = match out.sync_id {
        Some(n) => Some(seal_token(key, &sync_nonce, n)),
        None => None,
    };
    let cursor_token = match out.cursor_id {
        Some(n) => Some(seal_token(key, &cursor_nonce, n)),
        None => None,
    };
    let resp = SyncResp {
        retrieved_items: out.retrieved_items,
        saved_items: out.saved_items,
        conflicts: out.conflicts,
        sync_token,
        cursor_token,
    };
    assert(token_holds(key@, resp.sync_token, out.sync_id));
    assert(token_holds(key@, resp.cursor_token, out.cursor_id));
    assert(session_result(
        *old(db),
        key@,
        account,
        asked,
        now,
        *db,
        resp.retrieved_items@,
        resp.saved_items@,
        resp.conflicts@,
        out.sync_id,
        out.cursor_id,
    ));
    Ok(resp)
}

proof fn lemma_first_match(s: Seq<SyncItem>, uuid: Seq<char>, j: int)
    requires
        0 <= j < s.len(),
        s[j].uuid@ == uuid,
    ensures
        first_match(s, uuid) matches Some(m) && m.uuid@ == uuid,
    decreases s.len(),
{
    if s[0].uuid@ != uuid {
        assert(s.drop_first()[j - 1] == s[j]);
        lemma_first_match(s.drop_first(), uuid, j - 1);
    }
}

proof fn lemma_first_match_uuid(s: Seq<SyncItem>, uuid: Seq<char>)
    ensures
        first_match(s, uuid) matches Some(m) ==> m.uuid@ == uuid,
    decreases s.len(),
{
    if s.len() > 0 && s[0].uuid@ != uuid {
        lemma_first_match_uuid(s.drop_first(), uuid);
    }
}

/// What the split of candidates keeps: a conflict pairs a candidate with a
/// retrieved item of its uuid, and no candidate free to write meets one.
proof fn lemma_split(items: Seq<SyncItem>, retrieved: Seq<SyncItem>)
    ensures
        forall|k: int| 0 <= k < conflicts_of(items, retrieved).len() ==>
            (#[trigger] conflicts_of(items, retrieved)[k]).1.uuid@ == conflicts_of(items, retrieved)[k].0.uuid@,
        forall|k: int| 0 <= k < to_save_of(items, retrieved).len() ==>
            first_match(retrieved, (#[trigger] to_save_of(items, retrieved)[k]).uuid@) is None,
        forall|i: int| 0 <= i < items.len() && first_match(retrieved, (#[trigger] items[i]).uuid@) is Some ==>
            exists|k: int| 0 <= k < conflicts_of(items, retrieved).len() && #[trigger] conflicts_of(items, retrieved)[k].0 == items[i],
    decreases items.len(),
{
    if items.len() > 0 {
        let t = items.drop_last();
        lemma_split(t, retrieved);
        lemma_first_match_uuid(retrieved, items.last().uuid@);
        let c = conflicts_of(items, retrieved);
        let ct = conflicts_of(t, retrieved);
        assert forall|i: int| 0 <= i < items.len() && first_match(retrieved, (#[trigger] items[i]).uuid@) is Some implies
            exists|k: int| 0 <= k < c.len() && #[trigger] c[k].0 == items[i] by {
            if i < t.len() {
                assert(t[i] == items[i]);
                let k = choose|k: int| 0 <= k < ct.len() && #[trigger] ct[k].0 == t[i];
                assert(c[k] == ct[k]);
            } else {
                assert(items[i] == items.last());
                assert(c[c.len() - 1].0 == items[i]);
            }
        }
    }
}

/// A candidate whose uuid meets a retrieved item is reported as a conflict, is
/// not among the items to write, and its server copy is not among the items
/// handed back to apply.
pub proof fn lemma_conflict_exclusive(items: Seq<SyncItem>, retrieved: Seq<SyncItem>, now: String, i: int, j: int)
    requires
        0 <= i < items.len(),
        0 <= j < retrieved.len(),
        items[i].uuid@ == retrieved[j].uuid@,
    ensures
        exists|k: int|
            0 <= k < conflicts_of(items, retrieved).len() && (#[trigger] conflicts_of(items, retrieved)[k]).0 == items[i]
                && conflicts_of(items, retrieved)[k].1.uuid@ == items[i].uuid@,
        forall|k: int|
            0 <= k < stamped_all(to_save_of(items, retrieved), now).len() ==> (#[trigger] stamped_all(
                to_save_of(items, retrieved),
                now,
            )[k]).uuid@ != items[i].uuid@,
        forall|k: int|
            0 <= k < uncontested(retrieved, conflicts_of(items, retrieved)).len() ==> (#[trigger] uncontested(
                retrieved,
                conflicts_of(items, retrieved),
            )[k]).uuid@ != items[i].uuid@,
{
    broadcast use vstd::seq_lib::group_filter_ensures;
    let c = conflicts_of(items, retrieved);
    let u = items[i].uuid@;
    lemma_first_match(retrieved, u, j);
    lemma_split(items, retrieved);
    let k = choose|k: int| 0 <= k < c.len() && #[trigger] c[k].0 == items[i];
    assert(c[k].1.uuid@ == u);
    let saved = stamped_all(to_save_of(items, retrieved), now);
    assert forall|q: int| 0 <= q < saved.len() implies (#[trigger] saved[q]).uuid@ != u by {
        assert(saved[q].uuid == to_save_of(items, retrieved)[q].uuid);
    }
    let kept = uncontested(retrieved, c);
    assert forall|q: int| 0 <= q < kept.len() implies (#[trigger] kept[q]).uuid@ != u by {
        assert(not_contested(c)(kept[q]));
        if kept[q].uuid@ == u {
            assert(contested(c, kept[q].uuid@));
        }
    }
}

} // verus!
