//! Which promises a task is sent with, told by the stored records.

use vstd::prelude::*;
use crate::agreement::{agree, grows, promise_goes_on};
use crate::calls::{at, World};
use crate::consequences::{
    by_deadline, deadlines_settle_what_is_late, late, orderly, sent_stays, settles_if_late,
};
use crate::history::in_agreement;
use crate::index::{entry_written, files, has_entry, in_branch, index_agrees};
use crate::keys::branch_prefix_of;
use crate::preload::{a_task_is_sent_with_its_first_siblings, ordered, regular, stored_in};
use crate::records::{PromiseView, StoredPromiseView, Text};
use crate::search_laws::{deadlines_to_come_do_nothing, observed_record};
use crate::settlement::{
    all_called_back, all_timed_out, all_unblocked_keeps, cleared, expired, settled_chain,
    task_ended,
};
use crate::task_laws::filed;
use crate::text::text_lt;
use crate::txn::{
    after_preload, after_scan, after_scan_keeps, first, preloaded, read_all_keeps, records_of,
    siblings, siblings_timed_out, RowView, TxnView, SCAN_PAGE,
};

verus! {

/// Whether `preload` holds the first `limit` promises of `branch`, in id order,
/// other than that of `own`, each as a request at `now` that sees them with `seen`
/// observes it.
pub open spec fn is_preload(
    w: World,
    seen: TxnView,
    preload: Seq<PromiseView>,
    branch: Text,
    own: Text,
    limit: usize,
) -> bool {
    &&& preload.len() <= limit
    &&& forall|i: int, j: int|
        0 <= i < j < preload.len() ==> text_lt((#[trigger] preload[i]).id, (#[trigger] preload[j]).id)
    &&& forall|i: int|
        0 <= i < preload.len() ==> (#[trigger] preload[i]).id != own && in_branch(
            seen.promise(w, preload[i].id),
            branch,
        ) && preload[i] == observed_record(seen.promise(w, preload[i].id)->0, seen.now)
    &&& forall|id: Text| #[trigger]
        in_branch(seen.promise(w, id), branch) && id != own ==> (exists|i: int|
            0 <= i < preload.len() && (#[trigger] preload[i]).id == id) || (preload.len() == limit && (
        limit > 0 ==> text_lt(preload.last().id, id)))
}

/// The records of promises that exist.
proof fn records_of_all(w: World, t: TxnView, ids: Seq<Text>)
    requires
        forall|i: int| 0 <= i < ids.len() ==> (#[trigger] t.promise(w, ids[i])) is Some,
    ensures
        records_of(w, t, ids).len() == ids.len(),
        forall|i: int|
            0 <= i < ids.len() ==> #[trigger] records_of(w, t, ids)[i] == t.promise(
                w,
                ids[i],
            )->0.record,
    decreases ids.len(),
{
    if ids.len() > 0 {
        let short = ids.drop_last();
        assert forall|i: int| 0 <= i < short.len() implies (#[trigger] t.promise(w, short[i]))
            is Some by {
            assert(t.promise(w, ids[i]) is Some);
        }
        records_of_all(w, t, short);
        assert(t.promise(w, ids[ids.len() - 1]) is Some);
        assert forall|i: int| 0 <= i < ids.len() implies #[trigger] records_of(w, t, ids)[i]
            == t.promise(w, ids[i])->0.record by {
            if i < short.len() {
                assert(records_of(w, t, short)[i] == t.promise(w, short[i])->0.record);
            }
        }
    }
}

/// A request that sends siblings of a promise sends the first of its branch, each
/// with its deadline applied.
pub proof fn siblings_are_the_first_of_the_branch(w: World, t: TxnView, promise: PromiseView)
    requires
        promise.tags.contains_key("resonate:branch"@),
        index_agrees(w, t),
        regular(w, t),
        !promise.tags["resonate:branch"@].contains('\0'),
        t.writes.dom().finite(),
        stored_in(w, promise.tags["resonate:branch"@]).finite(),
        stored_in(w, promise.tags["resonate:branch"@]).len() <= usize::MAX - SCAN_PAGE,
        Set::new(
            |id: Text| in_branch(t.promise(w, id), promise.tags["resonate:branch"@]),
        ).finite(),
        forall|id: Text| (#[trigger] t.promise(w, id)) matches Some(row) ==> row.record.id == id,
    ensures
        is_preload(
            w,
            t,
            preloaded(w, t, promise),
            promise.tags["resonate:branch"@],
            promise.id,
            t.preload_limit,
        ),
{
    let branch = promise.tags["resonate:branch"@];
    let all = Set::new(|id: Text| in_branch(t.promise(w, id), branch)).remove(promise.id);
    let ids = siblings(w, t, promise, branch);
    let members = ordered(all);
    let prefix = branch_prefix_of(branch);
    let scanned = after_scan(w, t, prefix, promise.id, t.preload_limit, SCAN_PAGE);
    let timed = siblings_timed_out(w, t, promise);
    a_task_is_sent_with_its_first_siblings(w, t, promise, branch);
    after_scan_keeps(w, t, prefix, promise.id, t.preload_limit, SCAN_PAGE);
    assert(ids == first(members, t.preload_limit));
    assert forall|id: Text| #[trigger] scanned.promise(w, id) == t.promise(w, id) by {}
    assert forall|i: int| 0 <= i < ids.len() implies (#[trigger] timed.promise(w, ids[i])) is Some
        && timed.promise(w, ids[i])->0.record == observed_record(
        t.promise(w, ids[i])->0,
        t.now,
    ) && all.contains(ids[i]) by {
        assert(ids[i] == members[i]);
        assert(members.to_set().contains(members[i]));
        assert(ids.contains(ids[i]));
        deadlines_settle_what_is_late(w, scanned, ids, ids[i]);
    }
    records_of_all(w, timed, ids);
    let preload = preloaded(w, t, promise);
    assert(preload == records_of(w, timed, ids));
    assert forall|i: int| 0 <= i < preload.len() implies (#[trigger] preload[i]).id == ids[i]
        && preload[i] == observed_record(t.promise(w, ids[i])->0, t.now) by {
        assert(timed.promise(w, ids[i]) is Some);
    }
    assert forall|i: int, j: int| 0 <= i < j < preload.len() implies text_lt(
        (#[trigger] preload[i]).id,
        (#[trigger] preload[j]).id,
    ) by {
        assert(ids[i] == members[i] && ids[j] == members[j]);
    }
    assert forall|i: int| 0 <= i < preload.len() implies (#[trigger] preload[i]).id != promise.id
        && in_branch(t.promise(w, preload[i].id), branch) && preload[i] == observed_record(
        t.promise(w, preload[i].id)->0,
        t.now,
    ) by {
        assert(timed.promise(w, ids[i]) is Some);
    }
    assert forall|id: Text| #[trigger] in_branch(t.promise(w, id), branch) && id
        != promise.id implies (exists|i: int| 0 <= i < preload.len() && (#[trigger] preload[i]).id
        == id) || (preload.len() == t.preload_limit && (t.preload_limit > 0 ==> text_lt(
        preload.last().id,
        id,
    ))) by {
        assert(members.to_set().contains(id));
        let k = members.index_of(id);
        if k < ids.len() {
            assert(preload[k].id == ids[k]);
        } else if t.preload_limit > 0 {
            assert(preload[preload.len() - 1].id == ids[preload.len() - 1]);
            assert(text_lt(members[preload.len() - 1], members[k]));
        }
    }
}

/// Where no promise is past its deadline, sending siblings changes nothing.
pub proof fn sending_siblings_changes_nothing(w: World, t: TxnView, promise: PromiseView)
    requires
        forall|id: Text| (#[trigger] t.promise(w, id)) matches Some(row) ==> !late(row, t.now),
    ensures
        after_preload(w, t, promise) == (TxnView {
            asked: after_preload(w, t, promise).asked,
            ..t
        }),
{
    if promise.tags.contains_key("resonate:branch"@) {
        let branch = promise.tags["resonate:branch"@];
        let prefix = branch_prefix_of(branch);
        let scanned = after_scan(w, t, prefix, promise.id, t.preload_limit, SCAN_PAGE);
        let ids = siblings(w, t, promise, branch);
        after_scan_keeps(w, t, prefix, promise.id, t.preload_limit, SCAN_PAGE);
        assert forall|i: int| 0 <= i < ids.len() implies (scanned.promise(
            w,
            #[trigger] ids[i],
        ) matches Some(row) ==> !late(row, scanned.now)) by {
            assert(scanned.promise(w, ids[i]) == t.promise(w, ids[i]));
        }
        deadlines_to_come_do_nothing(w, scanned, ids);
        read_all_keeps(siblings_timed_out(w, t, promise), ids);
    }
}

/// Callbacks write finitely many records.
proof fn callbacks_write_finitely(w: World, t: TxnView, callbacks: Seq<Text>, settled: Text)
    requires
        t.writes.dom().finite(),
    ensures
        all_called_back(w, t, callbacks, settled).writes.dom().finite(),
    decreases callbacks.len(),
{
    if callbacks.len() > 0 {
        callbacks_write_finitely(w, t, callbacks.drop_last(), settled);
    }
}

/// A settlement writes finitely many records.
pub proof fn settlements_write_finitely(w: World, t: TxnView, row: StoredPromiseView)
    requires
        t.writes.dom().finite(),
    ensures
        settled_chain(w, t, row).writes.dom().finite(),
{
    let start = task_ended(w, t, row.record.id).put_promise(cleared(row));
    let mid = all_called_back(w, start, row.callbacks, row.record.id);
    callbacks_write_finitely(w, start, row.callbacks, row.record.id);
    all_unblocked_keeps(mid, row.listeners, row.record);
}

/// Deadlines write finitely many records.
pub proof fn deadlines_write_finitely(w: World, t: TxnView, ids: Seq<Text>)
    requires
        t.writes.dom().finite(),
    ensures
        all_timed_out(w, t, ids).writes.dom().finite(),
    decreases ids.len(),
{
    if ids.len() > 0 {
        let before = all_timed_out(w, t, ids.drop_last());
        deadlines_write_finitely(w, t, ids.drop_last());
        if let Some(row) = before.promise(w, ids.last()) {
            settlements_write_finitely(w, before.read_promise(ids.last()), expired(row));
        }
    }
}

/// Whether `preload` is what a request sends with `promise`, in the light of the
/// records as the request leaves them: nothing without a branch, and otherwise the
/// first promises of its branch.
pub open spec fn shown_with(
    w: World,
    end: TxnView,
    promise: PromiseView,
    preload: Seq<PromiseView>,
) -> bool {
    &&& !promise.tags.contains_key("resonate:branch"@) ==> preload == Seq::<PromiseView>::empty()
    &&& promise.tags.contains_key("resonate:branch"@) && in_agreement(w) && filed(w)
        && !promise.tags["resonate:branch"@].contains('\0') ==> is_preload(
        w,
        end,
        preload,
        promise.tags["resonate:branch"@],
        promise.id,
        end.preload_limit,
    )
}

/// A request that has come to `t`, and created no promise but that of `fresh`,
/// sends the first promises of a branch as it leaves them.
pub proof fn siblings_as_they_are_left(w: World, t: TxnView, promise: PromiseView, fresh: Text)
    requires
        orderly(w),
        in_agreement(w) ==> grows(w, TxnView::start(t.preload_limit, t.now), t),
        t.writes.dom().finite(),
        forall|id: Text|
            (#[trigger] t.promise(w, id)) is Some ==> id == fresh || at(w.promises, id) is Some,
        at(w.promises, fresh) is None ==> forall|branch: Text| #[trigger]
            in_branch(t.promise(w, fresh), branch) ==> !branch.contains('\0'),
    ensures
        shown_with(w, after_preload(w, t, promise), promise, preloaded(w, t, promise)),
{
    let end = after_preload(w, t, promise);
    let preload = preloaded(w, t, promise);
    if promise.tags.contains_key("resonate:branch"@) && in_agreement(w) && filed(w)
        && !promise.tags["resonate:branch"@].contains('\0') {
        let branch = promise.tags["resonate:branch"@];
        let start = TxnView::start(t.preload_limit, t.now);
        assert forall|id: Text| #[trigger] start.promise(w, id) == at(w.promises, id) by {}
        assert(index_agrees(w, start)) by {
            assert forall|other: Text, id: Text| #[trigger] has_entry(w, start, other, id)
                <==> in_branch(start.promise(w, id), other) by {
                assert(w.index.contains((other, id)) <==> in_branch(at(w.promises, id), other));
            }
        }
        reveal(files);
        assert(index_agrees(w, t));
        assert forall|id: Text| (#[trigger] t.promise(w, id)) matches Some(row) ==> row.record.id
            == id by {
            assert(agree(id, t.promise(w, id), t.task(w, id)));
        }
        assert forall|other: Text, id: Text| #[trigger]
            entry_written(t, other, id) is Some implies !other.contains('\0') by {
            assert(has_entry(w, t, other, id) <==> in_branch(t.promise(w, id), other));
            assert(entry_written(t, other, id) != Some(None::<RowView>));
            assert(promise_goes_on(start.promise(w, id), t.promise(w, id)));
            if at(w.promises, id) is Some {
                assert(in_branch(at(w.promises, id), other));
                assert(w.index.contains((other, id)));
            } else {
                assert(id == fresh);
            }
        }
        let stored = stored_in(w, branch);
        let seen = Set::new(|id: Text| in_branch(t.promise(w, id), branch));
        assert forall|id: Text| #[trigger] stored.contains(id) implies w.promises.dom().contains(
            id,
        ) by {
            assert(w.index.contains((branch, id)));
        }
        vstd::set_lib::lemma_set_subset_finite(w.promises.dom(), stored);
        vstd::set_lib::lemma_len_subset(stored, w.promises.dom());
        assert forall|id: Text| #[trigger] seen.contains(id) implies w.promises.dom().insert(
            fresh,
        ).contains(id) by {
            assert(t.promise(w, id) is Some);
        }
        vstd::set_lib::lemma_set_subset_finite(w.promises.dom().insert(fresh), seen);
        siblings_are_the_first_of_the_branch(w, t, promise);
        let prefix = branch_prefix_of(branch);
        let scanned = after_scan(w, t, prefix, promise.id, t.preload_limit, SCAN_PAGE);
        let ids = siblings(w, t, promise, branch);
        after_scan_keeps(w, t, prefix, promise.id, t.preload_limit, SCAN_PAGE);
        read_all_keeps(siblings_timed_out(w, t, promise), ids);
        assert forall|id: Text| #[trigger] scanned.promise(w, id) == t.promise(w, id) by {}
        assert forall|id: Text| #[trigger] end.promise(w, id) == siblings_timed_out(
            w,
            t,
            promise,
        ).promise(w, id) by {}
        assert forall|id: Text|
            in_branch(#[trigger] end.promise(w, id), branch) == in_branch(
                t.promise(w, id),
                branch,
            ) && (t.promise(w, id) is Some ==> end.promise(w, id) is Some && observed_record(
                end.promise(w, id)->0,
                t.now,
            ) == observed_record(t.promise(w, id)->0, t.now)) by {
            assert(scanned.promise(w, id) == t.promise(w, id));
            deadlines_settle_what_is_late(w, scanned, ids, id);
        }
        deadlines_settle_what_is_late(w, scanned, ids, promise.id);
        deadlines_keep_the_limit(w, scanned, ids);
        assert forall|i: int| 0 <= i < preload.len() implies (#[trigger] preload[i]).id
            != promise.id && in_branch(end.promise(w, preload[i].id), branch) && preload[i]
            == observed_record(end.promise(w, preload[i].id)->0, end.now) by {
            assert(in_branch(t.promise(w, preload[i].id), branch));
        }
        assert forall|id: Text| #[trigger] in_branch(end.promise(w, id), branch) && id
            != promise.id implies (exists|i: int|
            0 <= i < preload.len() && (#[trigger] preload[i]).id == id) || (preload.len()
            == t.preload_limit && (t.preload_limit > 0 ==> text_lt(preload.last().id, id))) by {
            assert(in_branch(t.promise(w, id), branch));
        }
    }
}

/// Callbacks keep the limit of a request.
proof fn callbacks_keep_the_limit(w: World, t: TxnView, callbacks: Seq<Text>, settled: Text)
    ensures
        all_called_back(w, t, callbacks, settled).preload_limit == t.preload_limit,
    decreases callbacks.len(),
{
    if callbacks.len() > 0 {
        callbacks_keep_the_limit(w, t, callbacks.drop_last(), settled);
    }
}

/// A settlement keeps the limit of a request.
pub proof fn settlements_keep_the_limit(w: World, t: TxnView, row: StoredPromiseView)
    ensures
        settled_chain(w, t, row).preload_limit == t.preload_limit,
{
    let start = task_ended(w, t, row.record.id).put_promise(cleared(row));
    callbacks_keep_the_limit(w, start, row.callbacks, row.record.id);
    all_unblocked_keeps(
        all_called_back(w, start, row.callbacks, row.record.id),
        row.listeners,
        row.record,
    );
}

/// Deadlines keep the limit of a request.
pub proof fn deadlines_keep_the_limit(w: World, t: TxnView, ids: Seq<Text>)
    ensures
        all_timed_out(w, t, ids).preload_limit == t.preload_limit,
    decreases ids.len(),
{
    if ids.len() > 0 {
        let before = all_timed_out(w, t, ids.drop_last());
        deadlines_keep_the_limit(w, t, ids.drop_last());
        if let Some(row) = before.promise(w, ids.last()) {
            settlements_keep_the_limit(w, before.read_promise(ids.last()), expired(row));
        }
    }
}

/// Whether each promise that a request sends is stored as it is sent, and was
/// settled by its deadline, with its listeners told, where it was past it.
pub open spec fn siblings_settled(
    w: World,
    end: TxnView,
    now: i64,
    preload: Seq<PromiseView>,
) -> bool {
    forall|i: int| 0 <= i < preload.len() ==> sibling_settled(w, end, now, #[trigger] preload[i])
}

/// Whether a promise is stored as it is sent, and was settled by its deadline where
/// it was past it.
pub open spec fn sibling_settled(w: World, end: TxnView, now: i64, promise: PromiseView) -> bool {
    &&& end.promise(w, promise.id) matches Some(row) && row.record == promise
    &&& settles_if_late(w, end, now, promise.id)
}

/// Every record of promises comes from one of them.
proof fn records_come_from_promises(w: World, t: TxnView, ids: Seq<Text>, i: int)
    requires
        0 <= i < records_of(w, t, ids).len(),
    ensures
        exists|j: int|
            0 <= j < ids.len() && (t.promise(w, #[trigger] ids[j]) matches Some(row) && row.record
                == records_of(w, t, ids)[i]),
    decreases ids.len(),
{
    if ids.len() > 0 {
        let short = ids.drop_last();
        let n = records_of(w, t, short).len();
        assert(ids[ids.len() - 1] == ids.last());
        if i < n {
            records_come_from_promises(w, t, short, i);
            let j = choose|j: int|
                0 <= j < short.len() && (t.promise(w, #[trigger] short[j]) matches Some(row)
                    && row.record == records_of(w, t, short)[i]);
            assert(ids[j] == short[j]);
        }
    }
}

/// A request that sends siblings leaves them as it sends them.
pub proof fn siblings_are_left_as_sent(w: World, t: TxnView, promise: PromiseView)
    requires
        forall|x: Text| (#[trigger] t.promise(w, x)) matches Some(row) ==> row.record.id == x,
        forall|x: Text| #[trigger]
            t.promise(w, x) == at(w.promises, x) || settles_if_late(w, t, t.now, x),
    ensures
        siblings_settled(w, after_preload(w, t, promise), t.now, preloaded(w, t, promise)),
{
    let preload = preloaded(w, t, promise);
    let end = after_preload(w, t, promise);
    if promise.tags.contains_key("resonate:branch"@) {
        let branch = promise.tags["resonate:branch"@];
        let prefix = branch_prefix_of(branch);
        let scanned = after_scan(w, t, prefix, promise.id, t.preload_limit, SCAN_PAGE);
        let ids = siblings(w, t, promise, branch);
        let timed = siblings_timed_out(w, t, promise);
        after_scan_keeps(w, t, prefix, promise.id, t.preload_limit, SCAN_PAGE);
        read_all_keeps(timed, ids);
        assert forall|x: Text| #[trigger] scanned.promise(w, x) == t.promise(w, x) by {}
        assert forall|x: Text| #[trigger] end.promise(w, x) == timed.promise(w, x) by {}
        assert forall|i: int| 0 <= i < preload.len() implies sibling_settled(
            w,
            end,
            t.now,
            #[trigger] preload[i],
        ) by {
            records_come_from_promises(w, timed, ids, i);
            let j = choose|j: int|
                0 <= j < ids.len() && (timed.promise(w, #[trigger] ids[j]) matches Some(row)
                    && row.record == preload[i]);
            let id = ids[j];
            assert(ids.contains(id));
            deadlines_settle_what_is_late(w, scanned, ids, id);
            assert(preload[i].id == id);
            assert(timed.enqueues == end.enqueues);
            assert(timed.enqueues =~= end.enqueues.subrange(0, timed.enqueues.len() as int));
            if let Some(row) = at(w.promises, id) {
                if late(row, t.now) {
                    if t.promise(w, id) == at(w.promises, id) {
                        sent_stays(timed, end, row, by_deadline(row.record));
                    } else {
                        assert(t.enqueues == scanned.enqueues);
                        assert(t.enqueues =~= t.enqueues.subrange(0, t.enqueues.len() as int));
                        sent_stays(t, end, row, by_deadline(row.record));
                    }
                }
            }
        }
    }
}

/// Callbacks put nothing off.
proof fn callbacks_put_off_nothing(w: World, t: TxnView, callbacks: Seq<Text>, settled: Text)
    ensures
        all_called_back(w, t, callbacks, settled).after == t.after,
    decreases callbacks.len(),
{
    if callbacks.len() > 0 {
        callbacks_put_off_nothing(w, t, callbacks.drop_last(), settled);
    }
}

/// What a request puts off stays first as it applies deadlines.
pub proof fn deadlines_put_off_later(w: World, t: TxnView, ids: Seq<Text>, i: int)
    requires
        0 <= i < t.after.len(),
    ensures
        i < all_timed_out(w, t, ids).after.len(),
        all_timed_out(w, t, ids).after[i] == t.after[i],
    decreases ids.len(),
{
    if ids.len() > 0 {
        let before = all_timed_out(w, t, ids.drop_last());
        deadlines_put_off_later(w, t, ids.drop_last(), i);
        if let Some(row) = before.promise(w, ids.last()) {
            let read = before.read_promise(ids.last());
            let settled = expired(row);
            let start = task_ended(w, read, settled.record.id).put_promise(cleared(settled));
            callbacks_put_off_nothing(w, start, settled.callbacks, settled.record.id);
            all_unblocked_keeps(
                all_called_back(w, start, settled.callbacks, settled.record.id),
                settled.listeners,
                settled.record,
            );
        }
    }
}

/// What a request puts off stays first as it sends siblings.
pub proof fn siblings_put_off_later(w: World, t: TxnView, promise: PromiseView, i: int)
    requires
        0 <= i < t.after.len(),
    ensures
        i < after_preload(w, t, promise).after.len(),
        after_preload(w, t, promise).after[i] == t.after[i],
{
    if promise.tags.contains_key("resonate:branch"@) {
        let branch = promise.tags["resonate:branch"@];
        let prefix = branch_prefix_of(branch);
        let scanned = after_scan(w, t, prefix, promise.id, t.preload_limit, SCAN_PAGE);
        let ids = siblings(w, t, promise, branch);
        after_scan_keeps(w, t, prefix, promise.id, t.preload_limit, SCAN_PAGE);
        deadlines_put_off_later(w, scanned, ids, i);
        read_all_keeps(siblings_timed_out(w, t, promise), ids);
    }
}

} // verus!
