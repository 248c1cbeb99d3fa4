use crate::error::StoreError;
use crate::event::DataView;
use crate::fingerprint::fingerprint;
use crate::json::{event_json, event_of_json, is_event_json};
use crate::roundtrip::lemma_event_json_is_injective;
use crate::settings::{capacity_of, lemma_setting_text, setting_text, setting_value};
use crate::store::{
    distinct_hashes, distinct_ids, evicted, has_hash, has_id, hash_index, id_index, insert_position,
    lemma_evicted_wf, lemma_insert_distinct, lemma_insert_position, lemma_placed_holds,
    lemma_placed_newest_first, lemma_remove_wf, newest_first, placed, stored, DatabaseView, Rows,
    StoredEventView,
};
use crate::time::Timestamp;
use vstd::prelude::*;

verus! {

/// The store after the rows of `rows` were offered to it one after the
/// other.
pub open spec fn after_inserts(db: DatabaseView, rows: Rows) -> DatabaseView
    decreases rows.len(),
{
    if rows.len() == 0 {
        db
    } else {
        after_inserts(db, rows.drop_last()).after_insert(rows.last())
    }
}

/// Offering a row to a well-formed store leaves a well-formed store.
pub proof fn law_insert_keeps_order_and_uniqueness(db: DatabaseView, row: StoredEventView)
    requires
        db.wf(),
    ensures
        db.after_insert(row).wf(),
        db.after_insert(row).max_items == db.max_items,
{
    if has_hash(db.rows, row.content_hash) {
        let i = hash_index(db.rows, row.content_hash);
        let rest = db.rows.remove(i);
        let moved = db.rows[i].at(row.timestamp);
        lemma_remove_wf(db.rows, i);
        lemma_placed_newest_first(rest, moved);
        lemma_insert_position(rest, moved.timestamp);
        lemma_insert_distinct(rest, insert_position(rest, moved.timestamp), moved);
    } else if has_id(db.rows, row.id) {
    } else {
        lemma_placed_newest_first(db.rows, row);
        lemma_insert_position(db.rows, row.timestamp);
        lemma_insert_distinct(db.rows, insert_position(db.rows, row.timestamp), row);
        lemma_evicted_wf(placed(db.rows, row), db.max_items);
    }
}

/// Offering content that the store holds never adds a row: the row that
/// holds it keeps its identifier and payload and takes the time of the
/// offer, and every other row stays as it is.
pub proof fn law_same_content_refreshes(db: DatabaseView, row: StoredEventView)
    requires
        db.wf(),
        row.is_fingerprinted(),
        has_hash(db.rows, row.content_hash),
    ensures
        db.insert_result(row) is Ok,
        db.after_insert(row).rows.len() == db.rows.len(),
        has_hash(db.after_insert(row).rows, row.content_hash),
        db.after_insert(row).rows[hash_index(db.after_insert(row).rows, row.content_hash)]
            == db.rows[hash_index(db.rows, row.content_hash)].at(row.timestamp),
        db.after_insert(row).rows.remove(hash_index(db.after_insert(row).rows, row.content_hash))
            == db.rows.remove(hash_index(db.rows, row.content_hash)),
{
    let i = hash_index(db.rows, row.content_hash);
    let rest = db.rows.remove(i);
    let moved = db.rows[i].at(row.timestamp);
    let out = db.after_insert(row).rows;
    let p = insert_position(rest, moved.timestamp);
    law_insert_keeps_order_and_uniqueness(db, row);
    lemma_insert_position(rest, moved.timestamp);
    lemma_placed_holds(rest, moved);
    assert(out[p] == moved);
    let j = hash_index(out, row.content_hash);
    assert(out[j].content_hash == row.content_hash);
    assert(j == p);
    assert(out.remove(p) =~= rest);
}

/// Offering the same content again and again leaves one row for it. After
/// any number of such offers the store is as large as before them, and the
/// row that holds the content has the identifier it had and the time of the
/// last offer.
pub proof fn law_repeated_content_is_stored_once(db: DatabaseView, hash: Seq<char>, rows: Rows)
    requires
        db.wf(),
        has_hash(db.rows, hash),
        rows.len() > 0,
        forall|k: int|
            0 <= k < rows.len() ==> (#[trigger] rows[k]).content_hash == hash
                && rows[k].is_fingerprinted(),
    ensures
        after_inserts(db, rows).wf(),
        after_inserts(db, rows).rows.len() == db.rows.len(),
        has_hash(after_inserts(db, rows).rows, hash),
        after_inserts(db, rows).rows[hash_index(after_inserts(db, rows).rows, hash)]
            == db.rows[hash_index(db.rows, hash)].at(rows.last().timestamp),
    decreases rows.len(),
{
    let before = after_inserts(db, rows.drop_last());
    if rows.len() == 1 {
        assert(rows.drop_last() =~= Seq::<StoredEventView>::empty());
        assert(before == db);
    } else {
        law_repeated_content_is_stored_once(db, hash, rows.drop_last());
    }
    law_insert_keeps_order_and_uniqueness(before, rows.last());
    law_same_content_refreshes(before, rows.last());
}

/// A run of offers can be taken apart at its front as well as at its back.
pub proof fn lemma_after_inserts_from_the_front(db: DatabaseView, rows: Rows)
    requires
        rows.len() > 0,
    ensures
        after_inserts(db, rows) == after_inserts(db.after_insert(rows[0]), rows.drop_first()),
    decreases rows.len(),
{
    if rows.len() == 1 {
        assert(rows.drop_last() =~= Seq::<StoredEventView>::empty());
        assert(rows.drop_first() =~= Seq::<StoredEventView>::empty());
        assert(after_inserts(db, rows.drop_last()) == db);
    } else {
        lemma_after_inserts_from_the_front(db, rows.drop_last());
        assert(rows.drop_last().drop_first() =~= rows.drop_first().drop_last());
        assert(rows.drop_last()[0] == rows[0]);
        assert(rows.drop_first().last() == rows.last());
    }
}

/// Content that is new to the store and offered any number of times is
/// stored once, provided the first offer is recent enough to be held: the
/// store grows by the one row that the first offer adds, and that row keeps
/// the identifier of the first offer and has the time of the last.
pub proof fn law_new_content_offered_repeatedly_is_stored_once(db: DatabaseView, rows: Rows)
    requires
        db.wf(),
        rows.len() > 0,
        forall|k: int|
            0 <= k < rows.len() ==> (#[trigger] rows[k]).content_hash == rows[0].content_hash
                && rows[k].is_fingerprinted(),
        !has_hash(db.rows, rows[0].content_hash),
        !has_id(db.rows, rows[0].id),
        insert_position(db.rows, rows[0].timestamp) < db.max_items,
    ensures
        after_inserts(db, rows).wf(),
        after_inserts(db, rows).rows.len() == db.after_insert(rows[0]).rows.len(),
        has_hash(after_inserts(db, rows).rows, rows[0].content_hash),
        after_inserts(db, rows).rows[hash_index(after_inserts(db, rows).rows, rows[0].content_hash)]
            == rows[0].at(rows.last().timestamp),
{
    let hash = rows[0].content_hash;
    let mid = db.after_insert(rows[0]);
    law_insert_keeps_order_and_uniqueness(db, rows[0]);
    law_new_content_is_held(db, rows[0]);
    lemma_after_inserts_from_the_front(db, rows);
    let p = insert_position(db.rows, rows[0].timestamp);
    lemma_insert_position(db.rows, rows[0].timestamp);
    assert(placed(db.rows, rows[0])[p] == rows[0]);
    assert(mid.rows[p] == rows[0]);
    assert(mid.rows[hash_index(mid.rows, hash)].content_hash == hash);
    assert(hash_index(mid.rows, hash) == p);
    if rows.len() == 1 {
        assert(rows.drop_first() =~= Seq::<StoredEventView>::empty());
        assert(after_inserts(mid, rows.drop_first()) == mid);
    } else {
        let rest = rows.drop_first();
        assert forall|k: int| 0 <= k < rest.len() implies (#[trigger] rest[k]).content_hash == hash
            && rest[k].is_fingerprinted() by {
            assert(rest[k] == rows[k + 1]);
        }
        assert(rest.last() == rows.last());
        law_repeated_content_is_stored_once(mid, hash, rest);
    }
}

/// A store within its capacity stays within it whatever row is offered.
pub proof fn law_insert_keeps_capacity(db: DatabaseView, row: StoredEventView)
    requires
        db.wf(),
        db.within_capacity(),
    ensures
        db.after_insert(row).within_capacity(),
{
    if row.is_fingerprinted() && has_hash(db.rows, row.content_hash) {
        law_same_content_refreshes(db, row);
    }
}

/// A row that is new to the store brings the store within its capacity,
/// however many rows it held.
pub proof fn law_new_content_restores_capacity(db: DatabaseView, row: StoredEventView)
    requires
        row.is_fingerprinted(),
        !has_hash(db.rows, row.content_hash),
        !has_id(db.rows, row.id),
    ensures
        db.after_insert(row).within_capacity(),
{
}

/// After each of any sequence of offers a store that was within its
/// capacity is within it.
pub proof fn law_capacity_holds_throughout(db: DatabaseView, rows: Rows, k: int)
    requires
        db.wf(),
        db.within_capacity(),
        0 <= k <= rows.len(),
    ensures
        after_inserts(db, rows.take(k)).wf(),
        after_inserts(db, rows.take(k)).within_capacity(),
        after_inserts(db, rows.take(k)).max_items == db.max_items,
    decreases k,
{
    if k > 0 {
        law_capacity_holds_throughout(db, rows, k - 1);
        assert(rows.take(k).drop_last() =~= rows.take(k - 1));
        let before = after_inserts(db, rows.take(k - 1));
        law_insert_keeps_order_and_uniqueness(before, rows.take(k).last());
        law_insert_keeps_capacity(before, rows.take(k).last());
    }
}

/// A row that is new to the store is held after it was offered exactly if
/// fewer rows than the capacity are strictly newer than it.
pub proof fn law_new_content_is_held(db: DatabaseView, row: StoredEventView)
    requires
        db.wf(),
        row.is_fingerprinted(),
        !has_hash(db.rows, row.content_hash),
        !has_id(db.rows, row.id),
    ensures
        has_id(db.after_insert(row).rows, row.id) <==> insert_position(db.rows, row.timestamp)
            < db.max_items,
        has_hash(db.after_insert(row).rows, row.content_hash) <==> insert_position(
            db.rows,
            row.timestamp,
        ) < db.max_items,
{
    let p = insert_position(db.rows, row.timestamp);
    let all = placed(db.rows, row);
    let out = db.after_insert(row).rows;
    lemma_insert_position(db.rows, row.timestamp);
    lemma_insert_distinct(db.rows, p, row);
    assert(all[p] == row);
    if p < db.max_items {
        assert(out[p] == row);
    } else {
        assert forall|j: int| 0 <= j < out.len() implies out[j].id != row.id && out[j].content_hash
            != row.content_hash by {
            assert(out[j] == all[j]);
        }
    }
}

/// Cutting a store down keeps the most recent rows in their order: what
/// stays is the front of what was there, and no row that leaves is newer
/// than a row that stays.
pub proof fn law_eviction_drops_the_oldest(rows: Rows, max_items: u32)
    requires
        newest_first(rows),
    ensures
        evicted(rows, max_items).len() == if rows.len() > max_items {
            max_items as int
        } else {
            rows.len() as int
        },
        evicted(rows, max_items) == rows.take(evicted(rows, max_items).len() as int),
        forall|i: int, j: int|
            0 <= i < evicted(rows, max_items).len() <= j < rows.len() ==> !rows[j].timestamp.newer_than(
                rows[i].timestamp,
            ),
        evicted(evicted(rows, max_items), max_items) == evicted(rows, max_items),
{
    assert(rows.take(rows.len() as int) =~= rows);
}

/// A smaller capacity takes effect at once: the store holds the most recent
/// rows that fit, and no others.
pub proof fn law_capacity_change_is_immediate(db: DatabaseView, max_items: u32)
    requires
        db.wf(),
    ensures
        db.after_set_max_items(max_items).wf(),
        db.after_set_max_items(max_items).within_capacity(),
        db.after_set_max_items(max_items).max_items == max_items,
        db.after_set_max_items(max_items).rows == db.rows.take(
            db.after_set_max_items(max_items).rows.len() as int,
        ),
        db.rows.len() >= max_items ==> db.after_set_max_items(max_items).rows.len() == max_items,
{
    lemma_evicted_wf(db.rows, max_items);
    law_eviction_drops_the_oldest(db.rows, max_items);
}

/// Deleting an identifier that no row carries changes nothing.
pub proof fn law_delete_absent_changes_nothing(db: DatabaseView, id: Seq<char>)
    requires
        !has_id(db.rows, id),
    ensures
        db.after_delete(id) == db,
{
}

/// Deleting takes the one row with the identifier out and leaves the others
/// in their order; deleting the same identifier again changes nothing.
pub proof fn law_delete_is_idempotent(db: DatabaseView, id: Seq<char>)
    requires
        db.wf(),
    ensures
        db.after_delete(id).wf(),
        !has_id(db.after_delete(id).rows, id),
        db.after_delete(id).after_delete(id) == db.after_delete(id),
        db.after_delete(id).max_items == db.max_items,
{
    if has_id(db.rows, id) {
        lemma_remove_wf(db.rows, id_index(db.rows, id));
    }
}

/// Clearing a store leaves no row and keeps the capacity.
pub proof fn law_clear_keeps_capacity(db: DatabaseView)
    ensures
        db.after_clear().rows.len() == 0,
        db.after_clear().max_items == db.max_items,
        db.after_clear().wf(),
{
}

/// Two rows with different content and identifiers, both new to a store
/// with room for them, both enter, whichever is offered first.
pub proof fn law_distinct_contents_both_enter(db: DatabaseView, a: StoredEventView, b: StoredEventView)
    requires
        db.wf(),
        a.is_fingerprinted(),
        b.is_fingerprinted(),
        a.id != b.id,
        a.content_hash != b.content_hash,
        !has_id(db.rows, a.id),
        !has_id(db.rows, b.id),
        !has_hash(db.rows, a.content_hash),
        !has_hash(db.rows, b.content_hash),
        db.rows.len() + 2 <= db.max_items,
    ensures
        db.insert_result(a) is Ok,
        db.after_insert(a).insert_result(b) is Ok,
        db.after_insert(a).after_insert(b).rows.len() == db.rows.len() + 2,
        has_id(db.after_insert(a).after_insert(b).rows, a.id),
        has_id(db.after_insert(a).after_insert(b).rows, b.id),
        has_hash(db.after_insert(a).after_insert(b).rows, a.content_hash),
        has_hash(db.after_insert(a).after_insert(b).rows, b.content_hash),
{
    lemma_placed_holds(db.rows, a);
    let mid = db.after_insert(a);
    assert(mid.rows == placed(db.rows, a));
    lemma_placed_holds(mid.rows, b);
    assert(mid.after_insert(b).rows == placed(mid.rows, b));
}

/// The rows that offer `event` once for each identifier and time given.
pub open spec fn offers(
    event: Seq<Seq<DataView>>,
    ids: Seq<Seq<char>>,
    times: Seq<Timestamp>,
) -> Rows {
    Seq::new(ids.len(), |k: int| stored(event, ids[k], times[k]))
}

/// An event that is new to the store and stored any number of times, under
/// whatever identifiers and at whatever times, is stored once, provided the
/// first time is recent enough for the row to be held. Every one of the
/// offers succeeds; the store holds one row with the fingerprint of the
/// event, which has the identifier of the first offer and the time of the
/// last; and the store is as large as it was after the first offer.
pub proof fn law_event_stored_repeatedly_is_stored_once(
    db: DatabaseView,
    event: Seq<Seq<DataView>>,
    ids: Seq<Seq<char>>,
    times: Seq<Timestamp>,
)
    requires
        db.wf(),
        ids.len() == times.len(),
        ids.len() > 0,
        !has_hash(db.rows, fingerprint(event_json(event))),
        !has_id(db.rows, ids[0]),
        insert_position(db.rows, times[0]) < db.max_items,
    ensures
        forall|k: int|
            0 <= k < ids.len() ==> (#[trigger] after_inserts(
                db,
                offers(event, ids, times).take(k),
            )).insert_result(offers(event, ids, times)[k]) is Ok,
        after_inserts(db, offers(event, ids, times)).wf(),
        after_inserts(db, offers(event, ids, times)).rows.len() == db.after_insert(
            stored(event, ids[0], times[0]),
        ).rows.len(),
        has_hash(after_inserts(db, offers(event, ids, times)).rows, fingerprint(event_json(event))),
        forall|i: int|
            0 <= i < after_inserts(db, offers(event, ids, times)).rows.len() && (
            #[trigger] after_inserts(db, offers(event, ids, times)).rows[i]).content_hash
                == fingerprint(event_json(event)) ==> after_inserts(
                db,
                offers(event, ids, times),
            ).rows[i] == stored(event, ids[0], times.last()),
{
    let rows = offers(event, ids, times);
    let hash = fingerprint(event_json(event));
    let out = after_inserts(db, rows);
    law_new_content_offered_repeatedly_is_stored_once(db, rows);
    assert(rows[0].at(rows.last().timestamp) == stored(event, ids[0], times.last()));
    assert forall|i: int| 0 <= i < out.rows.len() && (#[trigger] out.rows[i]).content_hash
        == hash implies out.rows[i] == stored(event, ids[0], times.last()) by {
        assert(out.rows[hash_index(out.rows, hash)].content_hash == hash);
        assert(i == hash_index(out.rows, hash));
    }
    assert forall|k: int| 0 <= k < ids.len() implies (#[trigger] after_inserts(
        db,
        rows.take(k),
    )).insert_result(rows[k]) is Ok by {
        if k == 0 {
            assert(rows.take(0) =~= Seq::<StoredEventView>::empty());
            assert(after_inserts(db, rows.take(0)) == db);
        } else {
            let prefix = rows.take(k);
            assert(prefix[0] == rows[0]);
            law_new_content_offered_repeatedly_is_stored_once(db, prefix);
        }
    }
}

/// A row that is put in place is among the rows, and so is every row that
/// was there.
pub proof fn lemma_placed_contains(rows: Rows, row: StoredEventView)
    ensures
        placed(rows, row).contains(row),
        forall|k: int| 0 <= k < rows.len() ==> placed(rows, row).contains(#[trigger] rows[k]),
{
    lemma_insert_position(rows, row.timestamp);
    let p = insert_position(rows, row.timestamp);
    let out = placed(rows, row);
    assert(out[p] == row);
    assert forall|k: int| 0 <= k < rows.len() implies out.contains(#[trigger] rows[k]) by {
        let j = if k < p {
            k
        } else {
            k + 1
        };
        assert(out[j] == rows[k]);
    }
}

/// Two events with different fingerprints, stored one after the other
/// under different identifiers in a store with room for both, are both
/// stored: both offers succeed, the store grows by two, every row that was
/// there is still there, and each event is found under its identifier.
pub proof fn law_two_events_are_both_stored_and_found(
    db: DatabaseView,
    first: StoredEventView,
    first_event: Seq<Seq<DataView>>,
    second: StoredEventView,
    second_event: Seq<Seq<DataView>>,
)
    requires
        db.wf(),
        first == stored(first_event, first.id, first.timestamp),
        second == stored(second_event, second.id, second.timestamp),
        first.id != second.id,
        first.content_hash != second.content_hash,
        !has_id(db.rows, first.id),
        !has_id(db.rows, second.id),
        !has_hash(db.rows, first.content_hash),
        !has_hash(db.rows, second.content_hash),
        db.rows.len() + 2 <= db.max_items,
    ensures
        db.insert_result(first) is Ok,
        db.after_insert(first).insert_result(second) is Ok,
        db.after_insert(first).after_insert(second).wf(),
        db.after_insert(first).after_insert(second).rows.len() == db.rows.len() + 2,
        forall|k: int|
            0 <= k < db.rows.len() ==> db.after_insert(first).after_insert(second).rows.contains(
                #[trigger] db.rows[k],
            ),
        db.after_insert(first).after_insert(second).lookup(first.id) == Ok::<
            Option<Seq<Seq<DataView>>>,
            StoreError,
        >(Some(first_event)),
        db.after_insert(first).after_insert(second).lookup(second.id) == Ok::<
            Option<Seq<Seq<DataView>>>,
            StoreError,
        >(Some(second_event)),
{
    let mid = db.after_insert(first);
    let out = mid.after_insert(second);
    law_distinct_contents_both_enter(db, first, second);
    law_insert_keeps_order_and_uniqueness(db, first);
    law_insert_keeps_order_and_uniqueness(mid, second);
    lemma_placed_holds(db.rows, first);
    assert(mid.rows == placed(db.rows, first));
    lemma_placed_holds(mid.rows, second);
    assert(out.rows == placed(mid.rows, second));
    lemma_placed_contains(db.rows, first);
    lemma_placed_contains(mid.rows, second);
    assert forall|k: int| 0 <= k < db.rows.len() implies out.rows.contains(#[trigger] db.rows[k]) by {
        assert(mid.rows.contains(db.rows[k]));
        let j = choose|j: int| 0 <= j < mid.rows.len() && mid.rows[j] == db.rows[k];
        assert(out.rows.contains(mid.rows[j]));
    }
    assert(mid.rows.contains(first));
    let j1 = choose|j: int| 0 <= j < mid.rows.len() && mid.rows[j] == first;
    assert(out.rows.contains(mid.rows[j1]));
    let i1 = choose|i: int| 0 <= i < out.rows.len() && out.rows[i] == first;
    law_lookup_returns_what_was_stored(out, i1, first_event);
    assert(out.rows.contains(second));
    let i2 = choose|i: int| 0 <= i < out.rows.len() && out.rows[i] == second;
    law_lookup_returns_what_was_stored(out, i2, second_event);
}

/// Reading the text of an event gives the event back.
pub proof fn law_json_round_trip(event: Seq<Seq<DataView>>)
    ensures
        is_event_json(event_json(event)),
        event_of_json(event_json(event)) == event,
{
    lemma_event_json_is_injective(event, event_of_json(event_json(event)));
}

/// An event that was stored and is held is found under its identifier.
pub proof fn law_stored_event_is_found(
    db: DatabaseView,
    event: Seq<Seq<DataView>>,
    id: Seq<char>,
    now: Timestamp,
)
    requires
        db.wf(),
        !has_hash(db.rows, stored(event, id, now).content_hash),
        !has_id(db.rows, id),
        insert_position(db.rows, now) < db.max_items,
    ensures
        db.insert_result(stored(event, id, now)) is Ok,
        db.after_insert(stored(event, id, now)).lookup(id) == Ok::<
            Option<Seq<Seq<DataView>>>,
            StoreError,
        >(Some(event)),
{
    let row = stored(event, id, now);
    let out = db.after_insert(row);
    let p = insert_position(db.rows, now);
    law_insert_keeps_order_and_uniqueness(db, row);
    law_new_content_is_held(db, row);
    lemma_insert_position(db.rows, now);
    assert(placed(db.rows, row)[p] == row);
    assert(out.rows[p] == row);
    law_lookup_returns_what_was_stored(out, p, event);
}

/// A stored event that was not tampered with is looked up as it was
/// stored.
pub proof fn law_lookup_returns_what_was_stored(db: DatabaseView, i: int, event: Seq<Seq<DataView>>)
    requires
        db.wf(),
        0 <= i < db.rows.len(),
        db.rows[i].event_data == event_json(event),
    ensures
        db.lookup(db.rows[i].id) == Ok::<Option<Seq<Seq<DataView>>>, StoreError>(Some(event)),
{
    law_json_round_trip(event);
    assert(id_index(db.rows, db.rows[i].id) == i);
}

/// A capacity that was written is read back as it was.
pub proof fn law_setting_round_trip(max_items: u32)
    ensures
        setting_value(setting_text(max_items as nat)) == Some(max_items),
        capacity_of(Some(setting_text(max_items as nat))) == Ok::<u32, StoreError>(max_items),
{
    lemma_setting_text(max_items as nat);
    assert(setting_text(max_items as nat)[0] != '+');
}

} // verus!
