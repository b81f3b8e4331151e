//! What the searches find, told by the stored records and the fields of the
//! request.

use vstd::prelude::*;
use crate::agreement::agree;
use crate::calls::{at, view_opt, CallView, World};
use crate::consequences::{
    by_deadline, deadlines_settle_what_is_late, late, settles_if_late, untouched,
};
use crate::data::{PromiseSearchData, ScheduleSearchData, TaskSearchData};
use crate::envelope::{ReplyDataView, ReplyView};
use crate::history::in_agreement;
use crate::kernel::{performed, OperationData};
use crate::laws::filter_ordered;
use crate::observation::{a_search_sees_every_promise, a_search_sees_every_task};
use crate::outcome::OutcomeView;
use crate::preload::ordered;
use crate::promises::{promise_id, promises_found, sought};
use crate::records::{
    PromiseView, ScheduleView, StoredPromiseView, StoredTaskView, TagMap, TaskState, TaskView, Text,
};
use crate::schedules::{schedule_id, schedules_found};
use crate::search::{follows, has_tags, page_of, remaining};
use crate::settlement::all_timed_out;
use crate::tasks::{task_id, task_records, tasks_found};
use crate::text::{text_lt, text_opt};
use crate::txn::{
    overdue_ids, promises_listed, records_at, tasks_at, tasks_listed, unfulfilled_ids, TxnView,
};

verus! {

/// Whether `page` is the next page of what a search finds: the first `limit` of
/// the items of `found` after `cursor`, in id order, with the id of the last one
/// where more remain.
pub open spec fn is_page<T>(
    page: Seq<T>,
    next: Option<Text>,
    found: Set<T>,
    id: spec_fn(T) -> Text,
    cursor: Option<Text>,
    limit: int,
) -> bool {
    &&& page.len() <= limit
    &&& forall|i: int, j: int|
        0 <= i < j < page.len() ==> text_lt(id(#[trigger] page[i]), id(#[trigger] page[j]))
    &&& forall|i: int|
        0 <= i < page.len() ==> found.contains(#[trigger] page[i]) && (cursor is Some ==> text_lt(
            cursor->0,
            id(page[i]),
        ))
    &&& forall|item: T| #[trigger]
        found.contains(item) && (cursor is Some ==> text_lt(cursor->0, id(item)))
            ==> page.contains(item) || (next is Some && text_lt(next->0, id(item)))
    &&& next is Some ==> page.len() == limit && next->0 == id(page.last()) && exists|item: T|
        #[trigger] found.contains(item) && text_lt(next->0, id(item))
}

/// A page of the items that a search keeps, of items in id order.
proof fn a_page_is_the_next_of_what_is_found<T>(
    items: Seq<T>,
    keep: spec_fn(T) -> bool,
    id: spec_fn(T) -> Text,
    cursor: Option<Text>,
    limit: usize,
)
    requires
        limit > 0,
        forall|i: int, j: int|
            0 <= i < j < items.len() ==> text_lt(id(#[trigger] items[i]), id(#[trigger] items[j])),
    ensures
        ({
            let part = page_of(items.filter(keep), id, cursor, limit);
            is_page(
                part.0,
                part.1,
                Set::new(|item: T| items.contains(item) && keep(item)),
                id,
                cursor,
                limit as int,
            )
        }),
{
    let kept = items.filter(keep);
    let part = page_of(kept, id, cursor, limit);
    let found = Set::new(|item: T| items.contains(item) && keep(item));
    let after = |item: T| follows(cursor, id(item));
    let rest = kept.filter(after);
    assert(rest == remaining(kept, id, cursor));
    filter_ordered(items, id, keep);
    filter_ordered(kept, id, after);
    assert forall|i: int| 0 <= i < rest.len() implies found.contains(#[trigger] rest[i]) && (cursor
        is Some ==> text_lt(cursor->0, id(rest[i]))) by {
        kept.lemma_filter_pred(after, i);
        assert(rest.contains(rest[i]));
        kept.lemma_filter_contains_rev(after, rest[i]);
        let k = kept.index_of(rest[i]);
        items.lemma_filter_pred(keep, k);
        items.lemma_filter_contains_rev(keep, rest[i]);
    }
    assert forall|item: T| #[trigger] found.contains(item) && (cursor is Some ==> text_lt(
        cursor->0,
        id(item),
    )) implies part.0.contains(item) || (part.1 is Some && text_lt(part.1->0, id(item))) by {
        let k = items.index_of(item);
        items.lemma_filter_contains(keep, k);
        let m = kept.index_of(item);
        kept.lemma_filter_contains(after, m);
        let n = rest.index_of(item);
        assert(rest[n] == item);
        if rest.len() <= limit {
            assert(part.0[n] == item);
        } else if n < limit {
            assert(part.0[n] == item);
        } else {
            assert(text_lt(id(rest[limit - 1]), id(rest[n])));
        }
    }
    if rest.len() > limit {
        assert(part.0.last() == rest[limit - 1]);
        assert(found.contains(rest[limit as int]));
        assert(text_lt(id(rest[limit - 1]), id(rest[limit as int])));
    }
}

/// The record of a stored promise as a request at `now` observes it.
pub open spec fn observed_record(row: StoredPromiseView, now: i64) -> PromiseView {
    if late(row, now) {
        by_deadline(row.record)
    } else {
        row.record
    }
}

/// Whether tags hold every one that is asked for.
pub open spec fn tags_as_asked(tags: TagMap, asked: Option<TagMap>) -> bool {
    asked is Some ==> forall|key: Text| #[trigger]
        asked->0.contains_key(key) ==> tags.contains_key(key) && tags[key] == asked->0[key]
}

/// The promises that a search at `now` finds: the stored ones, once their
/// deadlines are applied, with the state and the tags that it asks for.
pub open spec fn promises_sought(w: World, now: i64, data: PromiseSearchData) -> Set<PromiseView> {
    Set::new(
        |promise: PromiseView|
            (at(w.promises, promise.id) matches Some(row) && promise == observed_record(row, now))
                && (data.state is Some ==> promise.state == data.state->0) && tags_as_asked(
                promise.tags,
                view_opt(data.tags),
            ),
    )
}

/// The size of a page, where it is between 1 and 1000.
pub open spec fn page_size(limit: Option<i64>, default: int) -> Option<int> {
    match limit {
        None => Some(default),
        Some(limit) => if 1 <= limit && limit <= 1000 {
            Some(limit as int)
        } else {
            None
        },
    }
}

/// A search of the promises gives the next page of those that it seeks, and
/// settles every stored promise that is past its deadline: its record is stored
/// and sent to every listener. A limit out of range is refused.
pub proof fn searching_the_promises(
    w: World,
    preload_limit: usize,
    now: i64,
    corr_id: Text,
    data: PromiseSearchData,
)
    requires
        in_agreement(w),
        w.promises.dom().finite(),
    ensures
        ({
            let end = performed(
                w,
                TxnView::start(preload_limit, now),
                corr_id,
                OperationData::PromiseSearch(data),
            );
            match page_size(data.limit, 100) {
                None => end.1 == OutcomeView::Reply(
                    ReplyView::Error(400, "Invalid 'limit': must be between 1 and 1000"@),
                ) && untouched(end.0),
                Some(limit) => {
                    &&& end.1 matches OutcomeView::Commit(
                        ReplyView::Data(status, ReplyDataView::Promises(page, next)),
                    ) && status == 200 && is_page(
                        page,
                        next,
                        promises_sought(w, now, data),
                        |promise: PromiseView| promise.id,
                        text_opt(data.cursor),
                        limit,
                    )
                    &&& forall|id: Text| #[trigger] settles_if_late(w, end.0, now, id)
                    &&& (forall|id: Text|
                        (#[trigger] at(w.promises, id)) matches Some(row) ==> !late(row, now))
                        ==> untouched(end.0)
                },
            }
        }),
{
    let t = TxnView::start(preload_limit, now);
    let end = performed(w, t, corr_id, OperationData::PromiseSearch(data));
    if let Some(limit) = page_size(data.limit, 100) {
        let rows = w.all_promises();
        let items = records_at(rows, now);
        let ids = ordered(w.promises.dom());
        let keep = |promise: PromiseView| sought(promise, data.state, view_opt(data.tags));
        a_search_sees_every_promise(w, preload_limit, now);
        assert forall|i: int| 0 <= i < rows.len() implies (#[trigger] rows[i]).record.id == ids[i]
            && at(w.promises, ids[i]) == Some(rows[i]) && items[i] == observed_record(
            rows[i],
            now,
        ) by {
            assert(ids.to_set().contains(ids[i]));
            assert(agree(ids[i], at(w.promises, ids[i]), at(w.tasks, ids[i])));
        }
        assert forall|i: int, j: int| 0 <= i < j < items.len() implies text_lt(
            promise_id()(#[trigger] items[i]),
            promise_id()(#[trigger] items[j]),
        ) by {
            assert(rows[i].record.id == ids[i] && rows[j].record.id == ids[j]);
        }
        a_page_is_the_next_of_what_is_found(
            items,
            keep,
            promise_id(),
            text_opt(data.cursor),
            limit as usize,
        );
        let found = Set::new(|item: PromiseView| items.contains(item) && keep(item));
        assert forall|promise: PromiseView| #[trigger] found.contains(promise)
            <==> promises_sought(w, now, data).contains(promise) by {
            if items.contains(promise) {
                let i = items.index_of(promise);
                assert(rows[i].record.id == ids[i]);
                assert(at(w.promises, promise.id) == Some(rows[i]));
            }
            if promises_sought(w, now, data).contains(promise) {
                let row = at(w.promises, promise.id)->0;
                assert(ids.to_set().contains(promise.id));
                let i = ids.index_of(promise.id);
                assert(at(w.promises, ids[i]) == Some(rows[i]));
                assert(items[i] == promise);
            }
        }
        assert(found =~= promises_sought(w, now, data));
        assert(promises_found(items, data.state, view_opt(data.tags)) == items.filter(keep));
        assert(promise_id() =~= |promise: PromiseView| promise.id);
        let read = t.ask(CallView::Promises);
        let overdue = overdue_ids(rows, now);
        assert(end.0 == promises_listed(w, t));
        assert forall|x: Text| (#[trigger] read.promise(w, x)) matches Some(row) ==> row.record.id
            == x by {
            assert(agree(x, at(w.promises, x), at(w.tasks, x)));
        }
        if forall|id: Text| (#[trigger] at(w.promises, id)) matches Some(row) ==> !late(row, now) {
            assert forall|i: int| 0 <= i < overdue.len() implies (read.promise(
                w,
                #[trigger] overdue[i],
            ) matches Some(row) ==> !late(row, read.now)) by {
                assert(read.promise(w, overdue[i]) == at(w.promises, overdue[i]));
            }
            deadlines_to_come_do_nothing(w, read, overdue);
        }
        assert forall|id: Text| #[trigger] settles_if_late(w, end.0, now, id) by {
            if at(w.promises, id) is Some && late(at(w.promises, id)->0, now) {
                let row = at(w.promises, id)->0;
                assert(ids.to_set().contains(id));
                let i = ids.index_of(id);
                assert(rows[i].record.id == id);
                assert(at(w.promises, ids[i]) == Some(rows[i]));
                late_ids_are_listed(rows, now, i);
                assert(read.promise(w, id) == Some(row));
                deadlines_settle_what_is_late(w, read, overdue, id);
            }
        }
    }
}

/// The ids of rows past their deadlines are listed.
proof fn late_ids_are_listed(rows: Seq<StoredPromiseView>, now: i64, i: int)
    requires
        0 <= i < rows.len(),
        late(rows[i], now),
    ensures
        overdue_ids(rows, now).contains(rows[i].record.id),
    decreases rows.len(),
{
    let short = rows.drop_last();
    let ids = overdue_ids(rows, now);
    let fewer = overdue_ids(short, now);
    if i < short.len() {
        assert(short[i] == rows[i]);
        late_ids_are_listed(short, now, i);
        let k = fewer.index_of(rows[i].record.id);
        assert(ids[k] == rows[i].record.id);
    } else {
        assert(ids[fewer.len() as int] == rows[i].record.id);
    }
}

/// The wire form of a stored task.
pub open spec fn wire(task: StoredTaskView) -> TaskView {
    TaskView {
        id: task.id,
        state: task.state,
        version: task.version,
        resumes: task.resumes.len() as i64,
        ttl: task.ttl,
        pid: task.pid,
    }
}

/// The tasks that a search finds: the stored ones, as the request sees them at its
/// end, with the state that it asks for.
pub open spec fn tasks_sought(w: World, t: TxnView, data: TaskSearchData) -> Set<TaskView> {
    Set::new(
        |record: TaskView|
            at(w.tasks, record.id) is Some && (t.task(w, record.id) matches Some(task) && record
                == wire(task)) && (data.state is Some ==> record.state == data.state->0),
    )
}

/// The ids of unfulfilled rows are listed, and no others.
proof fn unfulfilled_ids_are_listed(rows: Seq<StoredTaskView>, id: Text)
    ensures
        unfulfilled_ids(rows).contains(id) <==> exists|i: int|
            0 <= i < rows.len() && (#[trigger] rows[i]).id == id && rows[i].state
                != TaskState::Fulfilled,
    decreases rows.len(),
{
    if rows.len() > 0 {
        let short = rows.drop_last();
        let ids = unfulfilled_ids(rows);
        let fewer = unfulfilled_ids(short);
        unfulfilled_ids_are_listed(short, id);
        assert(rows[rows.len() - 1] == rows.last());
        if fewer.contains(id) {
            assert(ids[fewer.index_of(id)] == id);
            let i = choose|i: int|
                0 <= i < short.len() && (#[trigger] short[i]).id == id && short[i].state
                    != TaskState::Fulfilled;
            assert(rows[i] == short[i]);
        }
        if rows.last().state != TaskState::Fulfilled {
            assert(ids[fewer.len() as int] == rows.last().id);
        }
        if ids.contains(id) && !fewer.contains(id) {
            assert(ids.index_of(id) == fewer.len());
        }
        if exists|i: int|
            0 <= i < rows.len() && (#[trigger] rows[i]).id == id && rows[i].state
                != TaskState::Fulfilled {
            let i = choose|i: int|
                0 <= i < rows.len() && (#[trigger] rows[i]).id == id && rows[i].state
                    != TaskState::Fulfilled;
            if i < short.len() {
                assert(short[i] == rows[i]);
            }
        }
    }
}

/// Promises within their deadlines are left as they are.
pub proof fn deadlines_to_come_do_nothing(w: World, t: TxnView, ids: Seq<Text>)
    requires
        forall|i: int|
            0 <= i < ids.len() ==> (t.promise(w, #[trigger] ids[i]) matches Some(row) ==> !late(
                row,
                t.now,
            )),
    ensures
        ({
            let after = all_timed_out(w, t, ids);
            &&& after == (TxnView { asked: after.asked, ..t })
            &&& t.asked.subset_of(after.asked)
        }),
    decreases ids.len(),
{
    if ids.len() > 0 {
        let short = ids.drop_last();
        assert forall|i: int| 0 <= i < short.len() implies (t.promise(
            w,
            #[trigger] short[i],
        ) matches Some(row) ==> !late(row, t.now)) by {
            assert(short[i] == ids[i]);
        }
        deadlines_to_come_do_nothing(w, t, short);
        let before = all_timed_out(w, t, short);
        assert(ids[ids.len() - 1] == ids.last());
        assert(before.promise(w, ids.last()) == t.promise(w, ids.last()));
    }
}

/// A search of the tasks gives the next page of those that it seeks, and settles
/// the promise of every task that is past its deadline. Where there is none,
/// nothing changes. A limit out of range is refused.
pub proof fn searching_the_tasks(
    w: World,
    preload_limit: usize,
    now: i64,
    corr_id: Text,
    data: TaskSearchData,
)
    requires
        in_agreement(w),
        w.tasks.dom().finite(),
    ensures
        ({
            let end = performed(
                w,
                TxnView::start(preload_limit, now),
                corr_id,
                OperationData::TaskSearch(data),
            );
            match page_size(data.limit, 100) {
                None => end.1 == OutcomeView::Reply(
                    ReplyView::Error(400, "Invalid 'limit': must be between 1 and 1000"@),
                ) && untouched(end.0),
                Some(limit) => {
                    &&& end.1 matches OutcomeView::Commit(
                        ReplyView::Data(status, ReplyDataView::Tasks(page, next)),
                    ) && status == 200 && is_page(
                        page,
                        next,
                        tasks_sought(w, end.0, data),
                        |task: TaskView| task.id,
                        text_opt(data.cursor),
                        limit,
                    )
                    &&& forall|id: Text|
                        at(w.tasks, id) is Some ==> #[trigger] settles_if_late(w, end.0, now, id)
                    &&& (forall|id: Text|
                        (#[trigger] at(w.tasks, id)) is Some ==> (at(w.promises, id) matches Some(
                            row,
                        ) ==> !late(row, now))) ==> untouched(end.0)
                },
            }
        }),
{
    let t = TxnView::start(preload_limit, now);
    let end = performed(w, t, corr_id, OperationData::TaskSearch(data));
    if let Some(limit) = page_size(data.limit, 100) {
        let rows = w.all_tasks();
        let after = tasks_listed(w, t);
        let listed = tasks_at(after, rows);
        let items = task_records(listed);
        let ids = ordered(w.tasks.dom());
        let keep = |task: TaskView| data.state is Some ==> task.state == data.state->0;
        a_search_sees_every_task(w, preload_limit, now);
        assert(end.0 == after);
        assert forall|i: int| 0 <= i < items.len() implies (#[trigger] items[i]).id == ids[i]
            && after.task(w, ids[i]) == Some(listed[i]) && items[i] == wire(listed[i]) by {
            assert(listed[i].id == ids[i]);
        }
        assert forall|i: int| 0 <= i < rows.len() implies (#[trigger] rows[i]).id == ids[i] && at(
            w.tasks,
            ids[i],
        ) == Some(rows[i]) by {
            assert(ids.to_set().contains(ids[i]));
            assert(agree(ids[i], at(w.promises, ids[i]), at(w.tasks, ids[i])));
        }
        a_page_is_the_next_of_what_is_found(
            items,
            keep,
            task_id(),
            text_opt(data.cursor),
            limit as usize,
        );
        let found = Set::new(|item: TaskView| items.contains(item) && keep(item));
        assert forall|record: TaskView| #[trigger] found.contains(record) <==> tasks_sought(
            w,
            end.0,
            data,
        ).contains(record) by {
            if items.contains(record) {
                let i = items.index_of(record);
                assert(items[i].id == ids[i]);
                assert(ids.to_set().contains(ids[i]));
            }
            if tasks_sought(w, end.0, data).contains(record) {
                assert(ids.to_set().contains(record.id));
                let i = ids.index_of(record.id);
                assert(items[i].id == ids[i]);
                assert(items[i] == record);
            }
        }
        assert(found =~= tasks_sought(w, end.0, data));
        assert(tasks_found(items, data.state) == items.filter(keep));
        assert(task_id() =~= |task: TaskView| task.id);
        let read = t.ask(CallView::Tasks);
        let unfulfilled = unfulfilled_ids(rows);
        assert forall|x: Text| (#[trigger] read.promise(w, x)) matches Some(row) ==> row.record.id
            == x by {
            assert(agree(x, at(w.promises, x), at(w.tasks, x)));
        }
        assert forall|id: Text| at(w.tasks, id) is Some implies #[trigger] settles_if_late(
            w,
            end.0,
            now,
            id,
        ) by {
            assert(agree(id, at(w.promises, id), at(w.tasks, id)));
            let row = at(w.promises, id)->0;
            if late(row, now) {
                assert(ids.to_set().contains(id));
                let i = ids.index_of(id);
                assert(rows[i].id == ids[i]);
                unfulfilled_ids_are_listed(rows, id);
                assert(read.promise(w, id) == Some(row));
                deadlines_settle_what_is_late(w, read, unfulfilled, id);
            }
        }
        if forall|id: Text|
            (#[trigger] at(w.tasks, id)) is Some ==> (at(w.promises, id) matches Some(row)
                ==> !late(row, now)) {
            assert forall|i: int| 0 <= i < unfulfilled.len() implies (read.promise(
                w,
                #[trigger] unfulfilled[i],
            ) matches Some(row) ==> !late(row, read.now)) by {
                let id = unfulfilled[i];
                assert(unfulfilled.contains(id));
                unfulfilled_ids_are_listed(rows, id);
                let k = choose|k: int|
                    0 <= k < rows.len() && (#[trigger] rows[k]).id == id && rows[k].state
                        != TaskState::Fulfilled;
                assert(at(w.tasks, ids[k]) == Some(rows[k]));
                assert(at(w.tasks, id) is Some);
            }
            deadlines_to_come_do_nothing(w, read, unfulfilled);
        }
    }
}

/// The schedules that a search finds: the stored ones with the tags that it asks
/// for.
pub open spec fn schedules_sought(w: World, data: ScheduleSearchData) -> Set<ScheduleView> {
    Set::new(
        |schedule: ScheduleView|
            at(w.schedules, schedule.id) == Some(schedule) && tags_as_asked(
                schedule.promise_tags,
                view_opt(data.tags),
            ),
    )
}

/// A search of the schedules gives the next page of those that it seeks, and
/// changes nothing. A limit out of range is refused.
pub proof fn searching_the_schedules(
    w: World,
    preload_limit: usize,
    now: i64,
    corr_id: Text,
    data: ScheduleSearchData,
)
    requires
        w.schedules.dom().finite(),
        forall|id: Text| (#[trigger] at(w.schedules, id)) matches Some(schedule) ==> schedule.id
            == id,
    ensures
        ({
            let end = performed(
                w,
                TxnView::start(preload_limit, now),
                corr_id,
                OperationData::ScheduleSearch(data),
            );
            &&& untouched(end.0)
            &&& match page_size(data.limit, 10) {
                None => end.1 == OutcomeView::Reply(
                    ReplyView::Error(400, "Invalid 'limit': must be between 1 and 1000"@),
                ),
                Some(limit) => end.1 matches OutcomeView::Reply(
                    ReplyView::Data(status, ReplyDataView::Schedules(page, next)),
                ) && status == 200 && is_page(
                    page,
                    next,
                    schedules_sought(w, data),
                    |schedule: ScheduleView| schedule.id,
                    text_opt(data.cursor),
                    limit,
                ),
            }
        }),
{
    if let Some(limit) = page_size(data.limit, 10) {
        let items = w.all_schedules();
        let ids = ordered(w.schedules.dom());
        let keep = |schedule: ScheduleView| has_tags(schedule.promise_tags, view_opt(data.tags));
        assert forall|i: int| 0 <= i < items.len() implies (#[trigger] items[i]).id == ids[i] && at(
            w.schedules,
            ids[i],
        ) == Some(items[i]) by {
            assert(ids.to_set().contains(ids[i]));
            assert(at(w.schedules, ids[i]) == Some(w.schedules[ids[i]]));
        }
        a_page_is_the_next_of_what_is_found(
            items,
            keep,
            schedule_id(),
            text_opt(data.cursor),
            limit as usize,
        );
        let found = Set::new(|item: ScheduleView| items.contains(item) && keep(item));
        assert forall|schedule: ScheduleView| #[trigger] found.contains(schedule)
            <==> schedules_sought(w, data).contains(schedule) by {
            if items.contains(schedule) {
                let i = items.index_of(schedule);
                assert(items[i].id == ids[i]);
            }
            if schedules_sought(w, data).contains(schedule) {
                assert(ids.to_set().contains(schedule.id));
                let i = ids.index_of(schedule.id);
                assert(items[i].id == ids[i]);
                assert(items[i] == schedule);
            }
        }
        assert(found =~= schedules_sought(w, data));
        assert(schedules_found(items, view_opt(data.tags)) == items.filter(keep));
        assert(schedule_id() =~= |schedule: ScheduleView| schedule.id);
    }
}

} // verus!
