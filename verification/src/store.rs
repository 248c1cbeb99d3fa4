use crate::error::StoreError;
use crate::event::{DataView, Event};
use crate::json::{event_json, event_of_json, is_event_json};
use crate::laws::law_insert_keeps_capacity;
use crate::fingerprint::{content_hash, fingerprint};
use crate::outside::{current_time, fresh_id};
use crate::settings::{capacity_of, max_items_from};
use crate::time::Timestamp;
use vstd::prelude::*;

verus! {

/// The capacity of a store for which none was ever chosen.
pub const DEFAULT_MAX_ITEMS: u32 = 100;

/// A stored copy event: the identifier it was given when it was stored, its
/// encoded payload, the time it was last captured and the fingerprint of the
/// payload.
pub struct StoredEvent {
    pub id: String,
    pub event_data: String,
    pub timestamp: Timestamp,
    pub content_hash: String,
}

/// What a [`StoredEvent`] is, mathematically.
pub struct StoredEventView {
    pub id: Seq<char>,
    pub event_data: Seq<char>,
    pub timestamp: Timestamp,
    pub content_hash: Seq<char>,
}

impl View for StoredEvent {
    type V = StoredEventView;

    open spec fn view(&self) -> StoredEventView {
        StoredEventView {
            id: self.id@,
            event_data: self.event_data@,
            timestamp: self.timestamp,
            content_hash: self.content_hash@,
        }
    }
}

impl StoredEventView {
    /// The row carries the fingerprint of its own payload.
    pub open spec fn is_fingerprinted(self) -> bool {
        self.content_hash == fingerprint(self.event_data)
    }

    /// The same row, captured again at `now`.
    pub open spec fn at(self, now: Timestamp) -> StoredEventView {
        StoredEventView {
            id: self.id,
            event_data: self.event_data,
            timestamp: now,
            content_hash: self.content_hash,
        }
    }
}

/// The row that stores `event` under `id` as captured at `timestamp`: the
/// payload is the text of the event, the fingerprint its digest.
pub open spec fn stored(event: Seq<Seq<DataView>>, id: Seq<char>, timestamp: Timestamp) -> StoredEventView {
    StoredEventView {
        id,
        event_data: event_json(event),
        timestamp,
        content_hash: fingerprint(event_json(event)),
    }
}

impl StoredEvent {
    /// The row that stores `event` under `id` as captured at `timestamp`.
    pub fn new_at(event: &Event, id: String, timestamp: Timestamp) -> (row: StoredEvent)
        ensures
            row@ == stored(event@, id@, timestamp),
            row@.is_fingerprinted(),
            row@.content_hash.len() == 64,
    {
        let event_data = event.to_json();
        let content_hash = content_hash(event_data.as_str());
        StoredEvent { id, event_data, timestamp, content_hash }
    }

    /// The row that stores `event` under a fresh identifier as captured now.
    pub fn new(event: Event) -> (row: StoredEvent)
        ensures
            exists|id: Seq<char>, now: Timestamp|
                id.len() == 36 && row@ == #[trigger] stored(event@, id, now),
            row@.content_hash.len() == 64,
    {
        let id = fresh_id();
        let now = current_time();
        let row = StoredEvent::new_at(&event, id, now);
        assert(row@ == stored(event@, id@, now));
        row
    }

    /// A row made of the four values given.
    pub fn from_parts(id: String, event_data: String, timestamp: Timestamp, content_hash: String) -> (row: StoredEvent)
        ensures
            row@ == (StoredEventView {
                id: id@,
                event_data: event_data@,
                timestamp,
                content_hash: content_hash@,
            }),
    {
        StoredEvent { id, event_data, timestamp, content_hash }
    }
}

impl Clone for StoredEvent {
    fn clone(&self) -> (row: StoredEvent)
        ensures
            row@ == self@,
    {
        StoredEvent {
            id: self.id.clone(),
            event_data: self.event_data.clone(),
            timestamp: self.timestamp,
            content_hash: self.content_hash.clone(),
        }
    }
}

/// The rows of a store, most recent first.
pub type Rows = Seq<StoredEventView>;

/// The views of a sequence of rows, in the same order.
pub open spec fn row_views(rows: Seq<StoredEvent>) -> Rows {
    Seq::new(rows.len(), |i: int| rows[i]@)
}

/// No row comes before a row that is newer than it.
pub open spec fn newest_first(rows: Rows) -> bool {
    forall|i: int, j: int|
        0 <= i < j < rows.len() ==> !rows[j].timestamp.newer_than(rows[i].timestamp)
}

/// No two rows share an identifier.
pub open spec fn distinct_ids(rows: Rows) -> bool {
    forall|i: int, j: int| 0 <= i < j < rows.len() ==> rows[i].id != rows[j].id
}

/// No two rows share a fingerprint.
pub open spec fn distinct_hashes(rows: Rows) -> bool {
    forall|i: int, j: int| 0 <= i < j < rows.len() ==> rows[i].content_hash != rows[j].content_hash
}

/// Every row carries the fingerprint of its own payload.
pub open spec fn fingerprinted(rows: Rows) -> bool {
    forall|i: int| 0 <= i < rows.len() ==> (#[trigger] rows[i]).is_fingerprinted()
}

/// No two rows share a payload.
pub open spec fn distinct_payloads(rows: Rows) -> bool {
    forall|i: int, j: int| 0 <= i < j < rows.len() ==> rows[i].event_data != rows[j].event_data
}

/// Some row carries the identifier `id`.
pub open spec fn has_id(rows: Rows, id: Seq<char>) -> bool {
    exists|i: int| 0 <= i < rows.len() && rows[i].id == id
}

/// The place of a row that carries the identifier `id`.
pub open spec fn id_index(rows: Rows, id: Seq<char>) -> int {
    choose|i: int| 0 <= i < rows.len() && rows[i].id == id
}

/// Some row carries the fingerprint `hash`.
pub open spec fn has_hash(rows: Rows, hash: Seq<char>) -> bool {
    exists|i: int| 0 <= i < rows.len() && rows[i].content_hash == hash
}

/// The place of a row that carries the fingerprint `hash`.
pub open spec fn hash_index(rows: Rows, hash: Seq<char>) -> int {
    choose|i: int| 0 <= i < rows.len() && rows[i].content_hash == hash
}

/// Where a row captured at `t` belongs: behind the leading rows that are
/// strictly newer, and so in front of every row of its own age.
pub open spec fn insert_position(rows: Rows, t: Timestamp) -> int
    decreases rows.len(),
{
    if rows.len() == 0 || !rows[0].timestamp.newer_than(t) {
        0
    } else {
        1 + insert_position(rows.drop_first(), t)
    }
}

/// `rows` with `row` put where its timestamp belongs.
pub open spec fn placed(rows: Rows, row: StoredEventView) -> Rows {
    rows.insert(insert_position(rows, row.timestamp), row)
}

/// `rows` cut down to the `max_items` most recent ones.
pub open spec fn evicted(rows: Rows, max_items: u32) -> Rows {
    if rows.len() > max_items {
        rows.take(max_items as int)
    } else {
        rows
    }
}

/// `rows` after the row at `i` was captured again at `now`.
pub open spec fn refreshed(rows: Rows, i: int, now: Timestamp) -> Rows {
    placed(rows.remove(i), rows[i].at(now))
}

/// `rows` put in order one after the other, starting from none.
pub open spec fn arranged(rows: Rows) -> Rows
    decreases rows.len(),
{
    if rows.len() == 0 {
        rows
    } else {
        placed(arranged(rows.drop_last()), rows.last())
    }
}

/// What a [`Database`] is, mathematically: its rows, most recent first, and
/// its capacity.
pub struct DatabaseView {
    pub rows: Rows,
    pub max_items: u32,
}

impl DatabaseView {
    /// The rows are ordered by age, no identifier or fingerprint repeats,
    /// and every row carries the fingerprint of its own payload.
    pub open spec fn wf(self) -> bool {
        &&& newest_first(self.rows)
        &&& distinct_ids(self.rows)
        &&& distinct_hashes(self.rows)
        &&& fingerprinted(self.rows)
    }

    /// The store holds no more rows than its capacity allows.
    pub open spec fn within_capacity(self) -> bool {
        self.rows.len() <= self.max_items
    }

    /// The store with other rows and the same capacity.
    pub open spec fn with_rows(self, rows: Rows) -> DatabaseView {
        DatabaseView { rows, max_items: self.max_items }
    }

    /// The result of offering `row` to the store: success, unless the row
    /// does not carry the fingerprint of its payload, or is new by its
    /// fingerprint and its identifier is in use.
    pub open spec fn insert_result(self, row: StoredEventView) -> Result<(), StoreError> {
        if !row.is_fingerprinted() {
            Err(StoreError::CorruptRecord)
        } else if !has_hash(self.rows, row.content_hash) && has_id(self.rows, row.id) {
            Err(StoreError::Constraint)
        } else {
            Ok(())
        }
    }

    /// The store after `row` was offered to it. A row that is refused
    /// changes nothing. A row whose fingerprint is held already only moves
    /// that row to the time of `row`; a new row enters where its timestamp
    /// belongs, and the oldest rows leave until the store fits its capacity.
    pub open spec fn after_insert(self, row: StoredEventView) -> DatabaseView {
        if !row.is_fingerprinted() {
            self
        } else if has_hash(self.rows, row.content_hash) {
            self.with_rows(
                refreshed(self.rows, hash_index(self.rows, row.content_hash), row.timestamp),
            )
        } else if has_id(self.rows, row.id) {
            self
        } else {
            self.with_rows(evicted(placed(self.rows, row), self.max_items))
        }
    }

    /// The store without the row that carries `id`.
    pub open spec fn after_delete(self, id: Seq<char>) -> DatabaseView {
        if has_id(self.rows, id) {
            self.with_rows(self.rows.remove(id_index(self.rows, id)))
        } else {
            self
        }
    }

    /// What looking up `id` gives: nothing where no row carries it, the
    /// event that the row's payload is the text of, or the complaint that
    /// the payload is the text of no event.
    pub open spec fn lookup(self, id: Seq<char>) -> Result<Option<Seq<Seq<DataView>>>, StoreError> {
        if !has_id(self.rows, id) {
            Ok(None)
        } else if is_event_json(self.rows[id_index(self.rows, id)].event_data) {
            Ok(Some(event_of_json(self.rows[id_index(self.rows, id)].event_data)))
        } else {
            Err(StoreError::CorruptRecord)
        }
    }

    /// The store without any row.
    pub open spec fn after_clear(self) -> DatabaseView {
        self.with_rows(Seq::empty())
    }

    /// The store cut down to its capacity.
    pub open spec fn after_cleanup(self) -> DatabaseView {
        self.with_rows(evicted(self.rows, self.max_items))
    }

    /// The store with the capacity `max_items`, cut down to it.
    pub open spec fn after_set_max_items(self, max_items: u32) -> DatabaseView {
        DatabaseView { rows: evicted(self.rows, max_items), max_items }
    }
}

/// The store that holds `rows`, put in order, under the capacity that
/// `setting` records. Rows that do not carry the fingerprint of their
/// payload are refused, and so are rows that repeat an identifier or a
/// fingerprint. Nothing is cut down.
pub open spec fn restored(setting: Option<Seq<char>>, rows: Rows) -> Result<DatabaseView, StoreError> {
    match capacity_of(setting) {
        Err(err) => Err(err),
        Ok(max_items) => if !fingerprinted(rows) {
            Err(StoreError::CorruptRecord)
        } else if distinct_ids(rows) && distinct_hashes(rows) {
            Ok(DatabaseView { rows: arranged(rows), max_items })
        } else {
            Err(StoreError::Constraint)
        },
    }
}

/// `insert_position` is the one place that has only strictly newer rows in
/// front of it and, among rows ordered by age, none behind it.
pub proof fn lemma_insert_position(rows: Rows, t: Timestamp)
    ensures
        0 <= insert_position(rows, t) <= rows.len(),
        forall|k: int| 0 <= k < insert_position(rows, t) ==> rows[k].timestamp.newer_than(t),
        insert_position(rows, t) < rows.len() ==> !rows[insert_position(rows, t)].timestamp.newer_than(t),
        newest_first(rows) ==> forall|k: int|
            insert_position(rows, t) <= k < rows.len() ==> !rows[k].timestamp.newer_than(t),
    decreases rows.len(),
{
    if rows.len() == 0 || !rows[0].timestamp.newer_than(t) {
    } else {
        let rest = rows.drop_first();
        lemma_insert_position(rest, t);
        let p = insert_position(rows, t);
        assert forall|k: int| 0 <= k < p implies rows[k].timestamp.newer_than(t) by {
            if k > 0 {
                assert(rows[k] == rest[k - 1]);
            }
        }
        assert(p < rows.len() ==> rows[p] == rest[p - 1]);
    }
    if newest_first(rows) {
        let p = insert_position(rows, t);
        assert forall|k: int| p <= k < rows.len() implies !rows[k].timestamp.newer_than(t) by {
            if p < k {
                assert(!rows[k].timestamp.newer_than(rows[p].timestamp));
            }
        }
    }
}

/// A place with only strictly newer rows in front of it and a row that is
/// not newer at it is the insert position.
pub proof fn lemma_insert_position_is(rows: Rows, t: Timestamp, p: int)
    requires
        0 <= p <= rows.len(),
        forall|k: int| 0 <= k < p ==> rows[k].timestamp.newer_than(t),
        p < rows.len() ==> !rows[p].timestamp.newer_than(t),
    ensures
        insert_position(rows, t) == p,
{
    lemma_insert_position(rows, t);
}

/// Putting a row where it belongs keeps the rows ordered by age.
pub proof fn lemma_placed_newest_first(rows: Rows, row: StoredEventView)
    requires
        newest_first(rows),
    ensures
        newest_first(placed(rows, row)),
{
    lemma_insert_position(rows, row.timestamp);
    let p = insert_position(rows, row.timestamp);
    let out = placed(rows, row);
    assert forall|i: int, j: int| 0 <= i < j < out.len() implies !out[j].timestamp.newer_than(
        out[i].timestamp,
    ) by {
        if i < p && j > p {
            assert(out[i] == rows[i]);
            assert(out[j] == rows[j - 1]);
        } else if i < p && j < p {
            assert(out[i] == rows[i]);
            assert(out[j] == rows[j]);
        } else if i < p && j == p {
            assert(out[i] == rows[i]);
        } else if i == p {
            assert(out[j] == rows[j - 1]);
        } else {
            assert(out[i] == rows[i - 1]);
            assert(out[j] == rows[j - 1]);
        }
    }
}

/// A row with an unused identifier and fingerprint keeps both distinct.
pub proof fn lemma_insert_distinct(rows: Rows, p: int, row: StoredEventView)
    requires
        0 <= p <= rows.len(),
        distinct_ids(rows),
        distinct_hashes(rows),
        !has_id(rows, row.id),
        !has_hash(rows, row.content_hash),
    ensures
        distinct_ids(rows.insert(p, row)),
        distinct_hashes(rows.insert(p, row)),
        fingerprinted(rows) && row.is_fingerprinted() ==> fingerprinted(rows.insert(p, row)),
{
    let out = rows.insert(p, row);
    assert forall|i: int| 0 <= i < out.len() implies out[i] == (if i < p {
        rows[i]
    } else if i == p {
        row
    } else {
        rows[i - 1]
    }) by {}
    assert forall|i: int, j: int| 0 <= i < j < out.len() implies out[i].id != out[j].id
        && out[i].content_hash != out[j].content_hash by {
        let a = if i < p { i } else { i - 1 };
        let b = if j < p { j } else { j - 1 };
        if i != p {
            assert(out[i] == rows[a]);
        }
        if j != p {
            assert(out[j] == rows[b]);
        }
    }
}

/// A row that was put in place is there, beside the rows that were there.
pub proof fn lemma_placed_holds(rows: Rows, row: StoredEventView)
    ensures
        placed(rows, row).len() == rows.len() + 1,
        forall|id: Seq<char>| #[trigger]
            has_id(placed(rows, row), id) <==> has_id(rows, id) || row.id == id,
        forall|hash: Seq<char>| #[trigger]
            has_hash(placed(rows, row), hash) <==> has_hash(rows, hash) || row.content_hash == hash,
{
    lemma_insert_position(rows, row.timestamp);
    let p = insert_position(rows, row.timestamp);
    let out = placed(rows, row);
    assert(out[p] == row);
    assert forall|i: int| 0 <= i < rows.len() implies rows[i] == out[if i < p {
        i
    } else {
        i + 1
    }] by {}
    assert forall|j: int| 0 <= j < out.len() && j != p implies out[j] == rows[if j < p {
        j
    } else {
        j - 1
    }] by {}
    assert forall|id: Seq<char>| #[trigger]
        has_id(out, id) <==> has_id(rows, id) || row.id == id by {
        if has_id(rows, id) {
            let i = id_index(rows, id);
            assert(out[if i < p { i } else { i + 1 }].id == id);
        }
        if has_id(out, id) {
            let j = id_index(out, id);
            if j != p {
                assert(rows[if j < p { j } else { j - 1 }].id == id);
            }
        }
    }
    assert forall|hash: Seq<char>| #[trigger]
        has_hash(out, hash) <==> has_hash(rows, hash) || row.content_hash == hash by {
        if has_hash(rows, hash) {
            let i = hash_index(rows, hash);
            assert(out[if i < p { i } else { i + 1 }].content_hash == hash);
        }
        if has_hash(out, hash) {
            let j = hash_index(out, hash);
            if j != p {
                assert(rows[if j < p { j } else { j - 1 }].content_hash == hash);
            }
        }
    }
}

/// Taking a row out keeps the store well formed, and frees the row's
/// identifier and fingerprint.
pub proof fn lemma_remove_wf(rows: Rows, i: int)
    requires
        0 <= i < rows.len(),
        newest_first(rows),
        distinct_ids(rows),
        distinct_hashes(rows),
    ensures
        newest_first(rows.remove(i)),
        distinct_ids(rows.remove(i)),
        distinct_hashes(rows.remove(i)),
        fingerprinted(rows) ==> fingerprinted(rows.remove(i)),
        !has_id(rows.remove(i), rows[i].id),
        !has_hash(rows.remove(i), rows[i].content_hash),
{
    let out = rows.remove(i);
    assert forall|a: int| 0 <= a < out.len() implies out[a] == rows[if a < i { a } else { a + 1 }] by {}
    assert forall|a: int, b: int| 0 <= a < b < out.len() implies !out[b].timestamp.newer_than(
        out[a].timestamp,
    ) && out[a].id != out[b].id && out[a].content_hash != out[b].content_hash by {
        let a0 = if a < i { a } else { a + 1 };
        let b0 = if b < i { b } else { b + 1 };
        assert(out[a] == rows[a0]);
        assert(out[b] == rows[b0]);
    }
    assert forall|a: int| 0 <= a < out.len() implies out[a].id != rows[i].id && out[a].content_hash
        != rows[i].content_hash by {
        let a0 = if a < i { a } else { a + 1 };
        assert(out[a] == rows[a0]);
    }
}

/// Cutting a store down keeps it well formed.
pub proof fn lemma_evicted_wf(rows: Rows, max_items: u32)
    requires
        newest_first(rows),
        distinct_ids(rows),
        distinct_hashes(rows),
    ensures
        newest_first(evicted(rows, max_items)),
        distinct_ids(evicted(rows, max_items)),
        distinct_hashes(evicted(rows, max_items)),
        fingerprinted(rows) ==> fingerprinted(evicted(rows, max_items)),
        evicted(rows, max_items).len() <= max_items,
{
}

/// Rows that carry the fingerprints of their payloads, no fingerprint
/// twice, hold no payload twice.
pub proof fn lemma_payloads_are_distinct(rows: Rows)
    requires
        fingerprinted(rows),
        distinct_hashes(rows),
    ensures
        distinct_payloads(rows),
{
    assert forall|i: int, j: int| 0 <= i < j < rows.len() implies rows[i].event_data
        != rows[j].event_data by {
        assert(rows[i].is_fingerprinted() && rows[j].is_fingerprinted());
    }
}

/// A store, held in memory: rows ordered from the most recent to the oldest,
/// and the capacity that inserts and capacity changes cut the rows down to.
///
/// Every operation that changes the store takes it by `&mut`, so each one is
/// a single step to whoever shares the store behind a lock.
pub struct Database {
    rows: Vec<StoredEvent>,
    max_items: u32,
}

impl View for Database {
    type V = DatabaseView;

    closed spec fn view(&self) -> DatabaseView {
        DatabaseView { rows: row_views(self.rows@), max_items: self.max_items }
    }
}

impl Database {
    /// The invariant of every store that this module hands out.
    pub open spec fn wf(&self) -> bool {
        self@.wf()
    }

    /// An empty store with the default capacity.
    pub fn new() -> (db: Database)
        ensures
            db.wf(),
            db@.rows.len() == 0,
            db@.max_items == DEFAULT_MAX_ITEMS,
    {
        Database { rows: Vec::new(), max_items: DEFAULT_MAX_ITEMS }
    }

    /// The store that holds `rows` under the capacity that `setting`
    /// records, or under the default capacity where nothing is recorded.
    ///
    /// The rows are put in order, most recent first. They are not cut down
    /// to the capacity: `cleanup_old_events` does that. A setting that is no
    /// number is refused as corrupt, and so are rows that do not carry the
    /// fingerprint of their payload; rows that repeat an identifier or a
    /// fingerprint are refused as breaking uniqueness.
    pub fn restore(setting: Option<&str>, rows: Vec<StoredEvent>) -> (result: Result<Database, StoreError>)
        ensures
            match result {
                Ok(db) => db.wf() && restored(
                    match setting {
                        Some(text) => Some(text@),
                        None => None,
                    },
                    row_views(rows@),
                ) == Ok::<DatabaseView, StoreError>(db@),
                Err(err) => restored(
                    match setting {
                        Some(text) => Some(text@),
                        None => None,
                    },
                    row_views(rows@),
                ) == Err::<DatabaseView, StoreError>(err),
            },
    {
        let max_items = match max_items_from(setting) {
            Ok(n) => n,
            Err(err) => {
                return Err(err);
            },
        };
        let ghost all = row_views(rows@);
        let mut checked: usize = 0;
        while checked < rows.len()
            invariant
                checked <= rows@.len(),
                all == row_views(rows@),
                capacity_of(
                    match setting {
                        Some(text) => Some(text@),
                        None => None,
                    },
                ) == Ok::<u32, StoreError>(max_items),
                forall|i: int| 0 <= i < checked ==> (#[trigger] all[i]).is_fingerprinted(),
            decreases rows@.len() - checked,
        {
            let expected = content_hash(rows[checked].event_data.as_str());
            if !(expected == rows[checked].content_hash) {
                assert(!all[checked as int].is_fingerprinted());
                return Err(StoreError::CorruptRecord);
            }
            assert(all[checked as int].is_fingerprinted());
            checked += 1;
        }
        assert(fingerprinted(all));
        let mut db = Database { rows: Vec::new(), max_items };
        let mut k: usize = 0;
        assert(all.take(0) =~= Seq::<StoredEventView>::empty());
        while k < rows.len()
            invariant
                k <= rows@.len(),
                all == row_views(rows@),
                capacity_of(
                    match setting {
                        Some(text) => Some(text@),
                        None => None,
                    },
                ) == Ok::<u32, StoreError>(max_items),
                fingerprinted(all),
                db.wf(),
                db@.max_items == max_items,
                db@.rows == arranged(all.take(k as int)),
                distinct_ids(all.take(k as int)),
                distinct_hashes(all.take(k as int)),
                forall|id: Seq<char>| #[trigger]
                    has_id(db@.rows, id) <==> has_id(all.take(k as int), id),
                forall|hash: Seq<char>| #[trigger]
                    has_hash(db@.rows, hash) <==> has_hash(all.take(k as int), hash),
            decreases rows@.len() - k,
        {
            let row = rows[k].clone();
            let ghost seen = all.take(k as int);
            let ghost next = all.take(k + 1);
            assert(row@ == all[k as int]);
            assert(next.drop_last() =~= seen);
            assert(next.last() == all[k as int]);
            if let Some(i) = db.find_id(&row.id) {
                proof {
                    assert(db@.rows[i as int].id == row@.id);
                    assert(has_id(db@.rows, row@.id));
                    assert(has_id(seen, row@.id));
                    let j = id_index(seen, row@.id);
                    assert(all[j].id == all[k as int].id);
                }
                return Err(StoreError::Constraint);
            }
            if let Some(i) = db.find_hash(&row.content_hash) {
                proof {
                    assert(db@.rows[i as int].content_hash == row@.content_hash);
                    assert(has_hash(db@.rows, row@.content_hash));
                    assert(has_hash(seen, row@.content_hash));
                    let j = hash_index(seen, row@.content_hash);
                    assert(all[j].content_hash == all[k as int].content_hash);
                }
                return Err(StoreError::Constraint);
            }
            proof {
                lemma_placed_holds(db@.rows, row@);
                assert forall|i: int, j: int| 0 <= i < j < next.len() implies next[i].id
                    != next[j].id && next[i].content_hash != next[j].content_hash by {
                    if j == k {
                        assert(seen[i] == next[i]);
                    } else {
                        assert(seen[i] == next[i] && seen[j] == next[j]);
                    }
                }
                assert forall|id: Seq<char>| #[trigger]
                    has_id(next, id) <==> has_id(seen, id) || row@.id == id by {
                    if has_id(seen, id) {
                        assert(next[id_index(seen, id)].id == id);
                    }
                    if row@.id == id {
                        assert(next[k as int].id == id);
                    }
                    if has_id(next, id) && id_index(next, id) != k {
                        assert(seen[id_index(next, id)].id == id);
                    }
                }
                assert forall|hash: Seq<char>| #[trigger]
                    has_hash(next, hash) <==> has_hash(seen, hash) || row@.content_hash == hash by {
                    if has_hash(seen, hash) {
                        assert(next[hash_index(seen, hash)].content_hash == hash);
                    }
                    if row@.content_hash == hash {
                        assert(next[k as int].content_hash == hash);
                    }
                    if has_hash(next, hash) && hash_index(next, hash) != k {
                        assert(seen[hash_index(next, hash)].content_hash == hash);
                    }
                }
            }
            db.place(row);
            k += 1;
        }
        assert(all.take(k as int) =~= all);
        Ok(db)
    }

    /// The fingerprint by which the store recognises the content of
    /// `event`: the fingerprint of its text.
    pub fn generate_content_hash(&self, event: &Event) -> (hash: String)
        ensures
            hash@ == fingerprint(event_json(event@)),
            hash@.len() == 64,
    {
        let text = event.to_json();
        content_hash(text.as_str())
    }

    /// The capacity of the store.
    pub fn get_max_items(&self) -> (max_items: u32)
        ensures
            max_items == self@.max_items,
    {
        self.max_items
    }

    /// The number of rows in the store.
    pub fn len(&self) -> (count: usize)
        ensures
            count == self@.rows.len(),
    {
        self.rows.len()
    }

    /// The place of the row that carries `hash`, if there is one.
    fn find_hash(&self, hash: &String) -> (found: Option<usize>)
        ensures
            match found {
                Some(i) => i < self@.rows.len() && self@.rows[i as int].content_hash == hash@,
                None => !has_hash(self@.rows, hash@),
            },
    {
        let mut i: usize = 0;
        while i < self.rows.len()
            invariant
                i <= self.rows@.len(),
                forall|k: int| 0 <= k < i ==> self@.rows[k].content_hash != hash@,
            decreases self.rows@.len() - i,
        {
            if self.rows[i].content_hash == *hash {
                return Some(i);
            }
            i += 1;
        }
        None
    }

    /// The place of the row that carries `id`, if there is one.
    fn find_id(&self, id: &String) -> (found: Option<usize>)
        ensures
            match found {
                Some(i) => i < self@.rows.len() && self@.rows[i as int].id == id@,
                None => !has_id(self@.rows, id@),
            },
    {
        let mut i: usize = 0;
        while i < self.rows.len()
            invariant
                i <= self.rows@.len(),
                forall|k: int| 0 <= k < i ==> self@.rows[k].id != id@,
            decreases self.rows@.len() - i,
        {
            if self.rows[i].id == *id {
                return Some(i);
            }
            i += 1;
        }
        None
    }

    /// Puts a row with an unused identifier and fingerprint where its
    /// timestamp belongs.
    fn place(&mut self, row: StoredEvent)
        requires
            old(self).wf(),
            row@.is_fingerprinted(),
            !has_id(old(self)@.rows, row@.id),
            !has_hash(old(self)@.rows, row@.content_hash),
        ensures
            final(self).wf(),
            final(self)@ == old(self)@.with_rows(placed(old(self)@.rows, row@)),
    {
        let mut p: usize = 0;
        while p < self.rows.len() && self.rows[p].timestamp.is_newer_than(&row.timestamp)
            invariant
                p <= self.rows@.len(),
                *self == *old(self),
                forall|k: int| 0 <= k < p ==> self@.rows[k].timestamp.newer_than(row.timestamp),
            decreases self.rows@.len() - p,
        {
            p += 1;
        }
        proof {
            lemma_insert_position_is(self@.rows, row.timestamp, p as int);
            lemma_placed_newest_first(self@.rows, row@);
            lemma_insert_distinct(self@.rows, p as int, row@);
        }
        self.rows.insert(p, row);
        assert(self@.rows =~= placed(old(self)@.rows, row@));
    }

    /// Drops the oldest rows until the store fits its capacity.
    pub fn cleanup_old_events(&mut self) -> (result: Result<(), StoreError>)
        requires
            old(self).wf(),
        ensures
            final(self).wf(),
            final(self)@ == old(self)@.after_cleanup(),
            final(self)@.within_capacity(),
            result is Ok,
    {
        proof {
            lemma_evicted_wf(self@.rows, self.max_items);
        }
        let count = self.rows.len();
        let limit = self.max_items as usize;
        if count > limit {
            self.rows.truncate(limit);
        }
        assert(self@.rows =~= evicted(old(self)@.rows, self.max_items));
        Ok(())
    }

    /// Offers the store a row that carries the fingerprint of its payload.
    fn insert_checked(&mut self, row: StoredEvent) -> (result: Result<(), StoreError>)
        requires
            old(self).wf(),
            row@.is_fingerprinted(),
        ensures
            final(self).wf(),
            final(self)@ == old(self)@.after_insert(row@),
            result == old(self)@.insert_result(row@),
            old(self)@.within_capacity() ==> final(self)@.within_capacity(),
    {
        proof {
            if self@.within_capacity() {
                law_insert_keeps_capacity(self@, row@);
            }
        }
        match self.find_hash(&row.content_hash) {
            Some(i) => {
                proof {
                    lemma_remove_wf(self@.rows, i as int);
                    assert(self@.rows[i as int].content_hash == row@.content_hash);
                    assert(hash_index(self@.rows, row@.content_hash) == i);
                    assert(self@.rows[i as int].is_fingerprinted());
                }
                let mut held = self.rows.remove(i);
                held.timestamp = row.timestamp;
                assert(self@.rows =~= old(self)@.rows.remove(i as int));
                assert(held@ == old(self)@.rows[i as int].at(row.timestamp));
                self.place(held);
                Ok(())
            },
            None => {
                match self.find_id(&row.id) {
                    Some(j) => {
                        assert(self@.rows[j as int].id == row@.id);
                        Err(StoreError::Constraint)
                    },
                    None => {
                        self.place(row);
                        let _ = self.cleanup_old_events();
                        Ok(())
                    },
                }
            },
        }
    }

    /// Offers `row` to the store.
    ///
    /// A row that does not carry the fingerprint of its payload is refused
    /// as corrupt. If the store holds a row with the fingerprint of `row`,
    /// that row is moved to the timestamp of `row` and keeps its identifier
    /// and payload; no row enters or leaves. Otherwise `row` enters, unless
    /// its identifier is in use, and the oldest rows leave until the store
    /// fits its capacity.
    pub fn insert_row(&mut self, row: StoredEvent) -> (result: Result<(), StoreError>)
        requires
            old(self).wf(),
        ensures
            final(self).wf(),
            final(self)@ == old(self)@.after_insert(row@),
            result == old(self)@.insert_result(row@),
            old(self)@.within_capacity() ==> final(self)@.within_capacity(),
    {
        let expected = content_hash(row.event_data.as_str());
        if expected == row.content_hash {
            self.insert_checked(row)
        } else {
            Err(StoreError::CorruptRecord)
        }
    }

    /// Stores `event` under `id` as captured at `now`: offers the store the
    /// row made of them.
    pub fn insert_event_at(&mut self, event: &Event, id: String, now: Timestamp) -> (result: Result<
        (),
        StoreError,
    >)
        requires
            old(self).wf(),
        ensures
            final(self).wf(),
            final(self)@ == old(self)@.after_insert(stored(event@, id@, now)),
            result == old(self)@.insert_result(stored(event@, id@, now)),
            result != Err::<(), StoreError>(StoreError::CorruptRecord),
            old(self)@.within_capacity() ==> final(self)@.within_capacity(),
    {
        self.insert_checked(StoredEvent::new_at(event, id, now))
    }

    /// Stores `event` as captured now. If the store holds the content
    /// already, that row moves to the present time; otherwise the event
    /// enters under a fresh identifier and the oldest rows leave until the
    /// store fits its capacity.
    pub fn insert_event(&mut self, event: &Event) -> (result: Result<(), StoreError>)
        requires
            old(self).wf(),
        ensures
            final(self).wf(),
            exists|id: Seq<char>, now: Timestamp|
                {
                    &&& id.len() == 36
                    &&& final(self)@ == old(self)@.after_insert(#[trigger] stored(event@, id, now))
                    &&& result == old(self)@.insert_result(stored(event@, id, now))
                },
            result != Err::<(), StoreError>(StoreError::CorruptRecord),
            old(self)@.within_capacity() ==> final(self)@.within_capacity(),
    {
        let id = fresh_id();
        let now = current_time();
        let ghost row = stored(event@, id@, now);
        let result = self.insert_event_at(event, id, now);
        assert(id@.len() == 36 && self@ == old(self)@.after_insert(row) && result == old(
            self,
        )@.insert_result(row));
        result
    }

    /// The event stored under `id`, read back from its payload.
    pub fn get_event_by_id(&self, id: &str) -> (result: Result<Option<Event>, StoreError>)
        requires
            self.wf(),
        ensures
            self@.lookup(id@) == match result {
                Ok(Some(event)) => Ok(Some(event@)),
                Ok(None) => Ok(None),
                Err(err) => Err(err),
            },
    {
        let wanted = id.to_owned();
        match self.find_id(&wanted) {
            Some(i) => {
                assert(self@.rows[i as int].id == id@);
                assert(id_index(self@.rows, id@) == i);
                match Event::from_json(self.rows[i].event_data.as_str()) {
                    Ok(event) => Ok(Some(event)),
                    Err(_) => Err(StoreError::CorruptRecord),
                }
            },
            None => Ok(None),
        }
    }

    /// All rows, most recent first. A row whose payload is the text of no
    /// event is not handed out, nor passed over: the listing fails.
    pub fn get_all_events(&self) -> (result: Result<Vec<StoredEvent>, StoreError>)
        requires
            self.wf(),
        ensures
            match result {
                Ok(events) => {
                    &&& row_views(events@) == self@.rows
                    &&& forall|i: int|
                        0 <= i < self@.rows.len() ==> is_event_json(
                            (#[trigger] self@.rows[i]).event_data,
                        )
                    &&& newest_first(row_views(events@))
                    &&& distinct_ids(row_views(events@))
                    &&& distinct_payloads(row_views(events@))
                    &&& self@.within_capacity() ==> events@.len() <= self@.max_items
                },
                Err(err) => err == StoreError::CorruptRecord && exists|i: int|
                    0 <= i < self@.rows.len() && !is_event_json(
                        (#[trigger] self@.rows[i]).event_data,
                    ),
            },
    {
        proof {
            lemma_payloads_are_distinct(self@.rows);
        }
        let mut events: Vec<StoredEvent> = Vec::new();
        let mut i: usize = 0;
        while i < self.rows.len()
            invariant
                i <= self.rows@.len(),
                row_views(events@) =~= self@.rows.take(i as int),
                forall|k: int| 0 <= k < i ==> is_event_json((#[trigger] self@.rows[k]).event_data),
            decreases self.rows@.len() - i,
        {
            if Event::from_json(self.rows[i].event_data.as_str()).is_err() {
                assert(!is_event_json(self@.rows[i as int].event_data));
                return Err(StoreError::CorruptRecord);
            }
            let ghost before = row_views(events@);
            events.push(self.rows[i].clone());
            assert(row_views(events@) =~= before.push(self@.rows[i as int]));
            assert(self@.rows.take(i as int).push(self@.rows[i as int]) =~= self@.rows.take(i + 1));
            i += 1;
        }
        assert(self@.rows.take(i as int) =~= self@.rows);
        assert(row_views(events@).len() == events@.len());
        Ok(events)
    }

    /// Removes the row that carries `id`; without such a row the store is
    /// left as it is.
    pub fn delete_event(&mut self, id: &str) -> (result: Result<(), StoreError>)
        requires
            old(self).wf(),
        ensures
            final(self).wf(),
            final(self)@ == old(self)@.after_delete(id@),
            !has_id(final(self)@.rows, id@),
            result is Ok,
    {
        let wanted = id.to_owned();
        match self.find_id(&wanted) {
            Some(i) => {
                proof {
                    lemma_remove_wf(self@.rows, i as int);
                    assert(self@.rows[i as int].id == id@);
                    assert(id_index(self@.rows, id@) == i);
                }
                let _ = self.rows.remove(i);
                assert(self@.rows =~= old(self)@.rows.remove(i as int));
            },
            None => {},
        }
        Ok(())
    }

    /// Removes every row. The capacity stays.
    pub fn clear_all_events(&mut self) -> (result: Result<(), StoreError>)
        ensures
            final(self).wf(),
            final(self)@ == old(self)@.after_clear(),
            final(self)@.rows.len() == 0,
            final(self)@.max_items == old(self)@.max_items,
            result is Ok,
    {
        self.rows.clear();
        assert(self@.rows =~= Seq::empty());
        Ok(())
    }

    /// Changes the capacity and at once drops the oldest rows that no longer
    /// fit.
    pub fn set_max_items(&mut self, max_items: u32) -> (result: Result<(), StoreError>)
        requires
            old(self).wf(),
        ensures
            final(self).wf(),
            final(self)@ == old(self)@.after_set_max_items(max_items),
            final(self)@.within_capacity(),
            result is Ok,
    {
        self.max_items = max_items;
        self.cleanup_old_events()
    }
}

} // verus!
