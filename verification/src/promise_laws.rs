//! What the operations on promises do, told by the stored records and the fields
//! of the request.

use vstd::prelude::*;
use crate::calls::{at, CallView, World};
use crate::consequences::{
    a_deadline_is_applied_first, a_settlement_has_its_consequences, by_client, by_deadline,
    deadlines_settle_what_is_late, dispatches_woken, late, open_at, orderly, sent_stays,
    settles_if_late, settles_to, settles_to_stays, told, untouched, wakes, woken_by,
};
use crate::creation::{created, created_row, ModeView};
use crate::data::{
    CallbackData, CreateView, IdData, ListenerData, PromiseCreateData, PromiseSettleData,
};
use crate::envelope::{ReplyDataView, ReplyView};
use crate::history::due_is_one_deadline;
use crate::kernel::{performed, OperationData};
use crate::keys::KeyView;
use crate::outcome::OutcomeView;
use crate::promises::due;
use crate::records::{
    length_before, origin, PromiseState, PromiseView, StoredPromiseView, StoredTaskView, TagMap,
    TaskState, Text, ValueView,
};
use crate::rules::{callback_refusal, create_refusal, target_parses, url_parses};
use crate::settlement::{all_timed_out, resumed, Wake};
use crate::text::parse_decimal;
use crate::timers::TimerView;
use crate::txn::{AfterView, EnqueueView, PayloadView, RowView, TxnView};

verus! {

/// A reply with one promise, once the request is committed.
pub open spec fn replies_with(promise: PromiseView) -> OutcomeView {
    OutcomeView::Commit(ReplyView::Data(200, ReplyDataView::Promise(promise)))
}

/// An error, once the request is committed.
pub open spec fn fails_with(status: u16, message: Text) -> OutcomeView {
    OutcomeView::Commit(ReplyView::Error(status, message))
}

/// Whether the tags are those of a promise that a task can await.
pub open spec fn awaitable(tags: TagMap) -> bool {
    ||| tags.contains_key("resonate:scope"@) && tags["resonate:scope"@] == "global"@
    ||| tags.contains_key("resonate:external"@) && tags["resonate:external"@] == "true"@
    ||| tags.contains_key("resonate:timer"@) && tags["resonate:timer"@] == "true"@
    ||| tags.contains_key("resonate:target"@)
}

/// A request to settle a promise gives a pending one the state and the value that
/// it asks for, at its time, with all that the settlement brings about; a promise
/// past its deadline is settled by the deadline instead, one that is settled is
/// left as it is, and one that does not exist is not found.
pub proof fn settling_a_promise(
    w: World,
    preload_limit: usize,
    now: i64,
    corr_id: Text,
    data: PromiseSettleData,
)
    requires
        orderly(w),
    ensures
        ({
            let end = performed(
                w,
                TxnView::start(preload_limit, now),
                corr_id,
                OperationData::PromiseSettle(data),
            );
            match at(w.promises, data.id@) {
                None => end.1 == fails_with(404, "Promise not found"@) && untouched(end.0),
                Some(row) => if row.record.state != PromiseState::Pending {
                    end.1 == replies_with(row.record) && untouched(end.0)
                } else if late(row, now) {
                    let settled = by_deadline(row.record);
                    end.1 == replies_with(settled) && settles_to(w, end.0, now, row, settled)
                } else {
                    let settled = by_client(row.record, data.state, data.value@, now);
                    end.1 == replies_with(settled) && settles_to(w, end.0, now, row, settled)
                },
            }
        }),
{
    let t = TxnView::start(preload_limit, now);
    let id = data.id@;
    let timed = due(w, t, id);
    let end = performed(w, t, corr_id, OperationData::PromiseSettle(data));
    a_deadline_is_applied_first(w, t, id);
    if let Some(row) = at(w.promises, id) {
        if late(row, now) {
            settles_to_stays(w, timed, end.0, now, row, by_deadline(row.record));
        } else if row.record.state == PromiseState::Pending {
            let settled = by_client(row.record, data.state, data.value@, now);
            a_settlement_has_its_consequences(w, timed.read_promise(id), row, settled);
        }
    }
}

/// A request for a promise gives its record, once its deadline is applied, and
/// changes nothing else.
pub proof fn getting_a_promise(
    w: World,
    preload_limit: usize,
    now: i64,
    corr_id: Text,
    data: IdData,
)
    requires
        orderly(w),
    ensures
        ({
            let end = performed(
                w,
                TxnView::start(preload_limit, now),
                corr_id,
                OperationData::PromiseGet(data),
            );
            match at(w.promises, data.id@) {
                None => end.1 == fails_with(404, "Promise not found"@) && untouched(end.0),
                Some(row) => if late(row, now) {
                    let settled = by_deadline(row.record);
                    end.1 == replies_with(settled) && settles_to(w, end.0, now, row, settled)
                } else {
                    end.1 == replies_with(row.record) && untouched(end.0)
                },
            }
        }),
{
    let t = TxnView::start(preload_limit, now);
    let id = data.id@;
    let end = performed(w, t, corr_id, OperationData::PromiseGet(data));
    a_deadline_is_applied_first(w, t, id);
    if let Some(row) = at(w.promises, id) {
        if late(row, now) {
            settles_to_stays(w, due(w, t, id), end.0, now, row, by_deadline(row.record));
        }
    }
}

/// The time from which the task of a new promise is dispatched: that of its delay
/// tag, where it is still to come.
pub open spec fn starts_at(tags: TagMap, now: i64) -> Option<u64> {
    if tags.contains_key("resonate:delay"@) {
        match parse_decimal(tags["resonate:delay"@]) {
            Some(delay) => if now < delay {
                Some(
                    if delay < 0 {
                        0
                    } else {
                        delay as u64
                    },
                )
            } else {
                None
            },
            None => None,
        }
    } else {
        None
    }
}

/// The record of a promise that a request creates at `now`: it has the id, the
/// parameter, the tags and the deadline of the request and no value. Before its
/// deadline it is pending, created at `created_at`; past it, it is settled by it
/// and created with it.
pub open spec fn new_promise(data: CreateView, created_at: i64, now: i64) -> PromiseView {
    let pending = PromiseView {
        id: data.id,
        state: PromiseState::Pending,
        param: data.param,
        value: ValueView { headers: None, data: None },
        tags: data.tags,
        timeout_at: data.timeout_at,
        created_at,
        settled_at: None,
    };
    if data.timeout_at <= now {
        by_deadline(PromiseView { created_at: data.timeout_at, ..pending })
    } else {
        pending
    }
}

/// What a request that creates a promise writes: the promise without
/// registrations, its entry in the index of its branch, and its task, where it
/// has a target. The task is `task`.
pub open spec fn creation_writes(promise: PromiseView, task: StoredTaskView) -> Map<
    KeyView,
    Option<RowView>,
> {
    let stored = Map::<KeyView, Option<RowView>>::empty().insert(
        KeyView::Promise(promise.id),
        Some(
            RowView::Promise(
                StoredPromiseView {
                    record: promise,
                    callbacks: Seq::empty(),
                    listeners: Seq::empty(),
                },
            ),
        ),
    );
    let filed = if promise.tags.contains_key("resonate:branch"@) {
        stored.insert(
            KeyView::Branch(promise.tags["resonate:branch"@], promise.id),
            Some(RowView::Index),
        )
    } else {
        stored
    };
    if promise.tags.contains_key("resonate:target"@) {
        filed.insert(KeyView::Task(promise.id), Some(RowView::Task(task)))
    } else {
        filed
    }
}

/// What a request that creates a pending promise enqueues: the dispatch of its
/// task, where it has a target, and the timer of its deadline, where a task can
/// await it.
pub open spec fn creation_jobs(promise: PromiseView, job: Text, run_at: Option<u64>) -> Seq<
    EnqueueView,
> {
    let dispatch = if promise.tags.contains_key("resonate:target"@) {
        seq![
            EnqueueView {
                queue: promise.tags["resonate:target"@],
                payload: PayloadView::Execute(promise.id),
                job: Some(job),
                run_at,
            },
        ]
    } else {
        Seq::empty()
    };
    if awaitable(promise.tags) {
        dispatch.push(
            EnqueueView {
                queue: "resonate/timers"@,
                payload: PayloadView::Timer(TimerView::PromiseTimeout(promise.id)),
                job: None,
                run_at: Some(
                    if promise.timeout_at < 0 {
                        0
                    } else {
                        promise.timeout_at as u64
                    },
                ),
            },
        )
    } else {
        dispatch
    }
}

/// Whether a request at `now` creates the promise of `data` and nothing else, with
/// its task waiting for its dispatch.
pub open spec fn creates(
    w: World,
    t: TxnView,
    data: CreateView,
    created_at: i64,
    now: i64,
) -> bool {
    let promise = new_promise(data, created_at, now);
    let task = StoredTaskView {
        id: data.id,
        state: if data.timeout_at <= now {
            TaskState::Fulfilled
        } else {
            TaskState::Pending
        },
        version: 0,
        target: data.tags["resonate:target"@],
        job: if data.timeout_at <= now {
            None
        } else {
            Some((w.job_ids)(0))
        },
        pid: None,
        ttl: None,
        resumes: Set::empty(),
    };
    &&& t.writes == creation_writes(promise, task)
    &&& t.after == Seq::<AfterView>::empty()
    &&& t.enqueues == (if data.timeout_at <= now {
        Seq::<EnqueueView>::empty()
    } else {
        creation_jobs(promise, (w.job_ids)(0), starts_at(data.tags, now))
    })
    &&& data.timeout_at > now && data.tags.contains_key("resonate:target"@) ==> t.asked.contains(
        CallView::JobId(0),
    )
}

/// Whether `id` belongs to `origin`: it is the origin, or goes on after it with a
/// colon.
pub open spec fn belongs_to(id: Text, origin: Text) -> bool {
    id == origin || origin.push(':').is_prefix_of(id)
}

/// Whether `id` descends from `ancestor`: it is the ancestor, or goes on after it
/// with a full stop, or with a colon where the ancestor has none.
pub open spec fn descends_from(id: Text, ancestor: Text) -> bool {
    id == ancestor || (if ancestor.contains(':') {
        ancestor.push('.').is_prefix_of(id)
    } else {
        ancestor.push(':').is_prefix_of(id)
    })
}

/// Whether the id of a promise to create is in order.
pub open spec fn id_in_order(id: Text) -> bool {
    id.len() > 0 && !id.contains('\0')
}

/// Whether the target of a promise is an address, where it has one.
pub open spec fn target_in_order(tags: TagMap) -> bool {
    tags.contains_key("resonate:target"@) ==> url_parses(tags["resonate:target"@])
}

/// Whether the origin tag of a promise is its origin, where it has one.
pub open spec fn origin_in_order(id: Text, tags: TagMap) -> bool {
    tags.contains_key("resonate:origin"@) ==> !tags["resonate:origin"@].contains(':')
        && belongs_to(id, tags["resonate:origin"@])
}

/// Whether a promise descends from the id in its tag `tag`, where it has one.
pub open spec fn ancestor_in_order(id: Text, tags: TagMap, tag: Text) -> bool {
    tags.contains_key(tag) ==> descends_from(id, tags[tag])
}

/// Whether the prefix tag of a promise has no colon, where it has one.
pub open spec fn prefix_in_order(tags: TagMap) -> bool {
    tags.contains_key("resonate:prefix"@) ==> !tags["resonate:prefix"@].contains(':')
}

/// Whether the delay of a promise ends before its deadline and delays a task,
/// where it has one.
pub open spec fn delay_in_order(data: CreateView) -> bool {
    data.tags.contains_key("resonate:delay"@) ==> data.tags.contains_key("resonate:target"@) && (
    parse_decimal(data.tags["resonate:delay"@]) matches Some(delay) && 0 <= delay
        < data.timeout_at)
}

/// Whether a promise can be created.
pub open spec fn acceptable(data: CreateView) -> bool {
    &&& id_in_order(data.id)
    &&& data.timeout_at >= 0
    &&& target_in_order(data.tags)
    &&& origin_in_order(data.id, data.tags)
    &&& ancestor_in_order(data.id, data.tags, "resonate:branch"@)
    &&& ancestor_in_order(data.id, data.tags, "resonate:parent"@)
    &&& prefix_in_order(data.tags)
    &&& delay_in_order(data)
}

/// Whether the first `n` rules for a promise to create are kept, in the order in
/// which they are read.
pub open spec fn rules_kept(data: CreateView, n: int) -> bool {
    &&& n > 0 ==> data.id.len() > 0
    &&& n > 1 ==> !data.id.contains('\0')
    &&& n > 2 ==> data.timeout_at >= 0
    &&& n > 3 ==> target_in_order(data.tags)
    &&& n > 4 ==> origin_in_order(data.id, data.tags)
    &&& n > 5 ==> ancestor_in_order(data.id, data.tags, "resonate:branch"@)
    &&& n > 6 ==> ancestor_in_order(data.id, data.tags, "resonate:parent"@)
    &&& n > 7 ==> prefix_in_order(data.tags)
    &&& n > 8 ==> delay_in_order(data)
}

/// Whether `message` names the rule `n` for a promise to create.
pub open spec fn names_rule(n: int, message: Text) -> bool {
    ||| n == 0 && message == "Promise ID is required"@
    ||| n == 1 && message == "Promise ID must not contain null bytes"@
    ||| n == 2 && message == "Promise timeout must not be negative"@
    ||| n == 3 && message == "Invalid resonate:target address"@
    ||| n == 4 && message == "Invalid resonate:origin tag"@
    ||| n == 5 && message == "Invalid resonate:branch tag"@
    ||| n == 6 && message == "Invalid resonate:parent tag"@
    ||| n == 7 && message == "Invalid resonate:prefix tag"@
    ||| n == 8 && message == "Invalid resonate:delay tag"@
}

/// Whether `message` names the first rule that the promise of `data` breaks.
pub open spec fn names_a_fault(data: CreateView, message: Text) -> bool {
    exists|n: int| #[trigger]
        names_rule(n, message) && rules_kept(data, n) && !rules_kept(data, n + 1)
}

/// The length of what comes before the first `c`.
proof fn length_before_ends(s: Text, c: char)
    ensures
        length_before(s, c) <= s.len(),
        forall|i: int| 0 <= i < length_before(s, c) ==> s[i] != c,
        length_before(s, c) < s.len() ==> s[length_before(s, c) as int] == c,
    decreases s.len(),
{
    if s.len() > 0 && s[0] != c {
        let rest = s.drop_first();
        length_before_ends(rest, c);
        assert forall|i: int| 0 <= i < length_before(s, c) implies s[i] != c by {
            if i > 0 {
                assert(s[i] == rest[i - 1]);
            }
        }
    }
}

/// The origin of an id is the one text without a colon that it belongs to.
pub proof fn every_id_has_one_origin(id: Text, o: Text)
    ensures
        !origin(id).contains(':'),
        belongs_to(id, origin(id)),
        !o.contains(':') && belongs_to(id, o) ==> o == origin(id),
{
    let n = length_before(id, ':') as int;
    length_before_ends(id, ':');
    assert forall|i: int| 0 <= i < n implies origin(id)[i] != ':' by {}
    if n == id.len() {
        assert(origin(id) =~= id);
    } else {
        assert(origin(id).push(':') =~= id.subrange(0, n + 1));
    }
    if !o.contains(':') && belongs_to(id, o) {
        if id != o {
            let start = o.push(':');
            assert(start =~= id.subrange(0, start.len() as int));
            assert(start[o.len() as int] == ':');
            assert(id[o.len() as int] == ':');
            assert forall|i: int| 0 <= i < o.len() implies id[i] != ':' by {
                assert(start[i] == id[i]);
                assert(o[i] == start[i]);
            }
            assert(n == o.len()) by {
                if n < o.len() {
                    assert(id[n] == ':');
                }
                if n > o.len() {
                    assert(id[o.len() as int] != ':');
                }
            }
            assert(o =~= id.take(n)) by {
                assert forall|i: int| 0 <= i < o.len() implies o[i] == id.take(n)[i] by {
                    assert(start[i] == id[i]);
                }
            }
        } else {
            assert forall|i: int| 0 <= i < id.len() implies id[i] != ':' by {
                assert(o[i] == id[i]);
            }
            assert(n == id.len());
            assert(origin(id) =~= id);
        }
    }
}

/// A promise that can be created has no refusal, and a refusal names the first rule
/// that is broken.
pub proof fn a_promise_is_refused_for_a_fault(data: CreateView)
    ensures
        create_refusal(data, target_parses(data.tags)) is None <==> acceptable(data),
        create_refusal(data, target_parses(data.tags)) matches Some(reply) ==> (reply matches
            ReplyView::Error(status, message) && status == 400 && names_a_fault(data, message)),
{
    if data.tags.contains_key("resonate:origin"@) {
        every_id_has_one_origin(data.id, data.tags["resonate:origin"@]);
    }
    if let Some(ReplyView::Error(_, message)) = create_refusal(data, target_parses(data.tags)) {
        let n: int = if !rules_kept(data, 1) {
            0
        } else if !rules_kept(data, 2) {
            1
        } else if !rules_kept(data, 3) {
            2
        } else if !rules_kept(data, 4) {
            3
        } else if !rules_kept(data, 5) {
            4
        } else if !rules_kept(data, 6) {
            5
        } else if !rules_kept(data, 7) {
            6
        } else if !rules_kept(data, 8) {
            7
        } else {
            8
        };
        assert(names_rule(n, message));
    }
}

/// A request to create a promise that can be created gives the promise that
/// exists, once its deadline is applied, or creates one: with the id, the
/// parameter, the tags and the deadline of the request, and with its task
/// dispatched to its target. One that cannot be created is refused, and changes
/// nothing.
pub proof fn creating_a_promise(
    w: World,
    preload_limit: usize,
    now: i64,
    corr_id: Text,
    data: PromiseCreateData,
)
    requires
        orderly(w),
    ensures
        ({
            let end = performed(
                w,
                TxnView::start(preload_limit, now),
                corr_id,
                OperationData::PromiseCreate(data),
            );
            if !acceptable(data@) {
                &&& untouched(end.0)
                &&& end.1 matches OutcomeView::Reply(ReplyView::Error(status, message)) && status
                    == 400 && names_a_fault(data@, message)
            } else {
                match at(w.promises, data.id@) {
                    None => end.1 == replies_with(new_promise(data@, now, now)) && creates(
                        w,
                        end.0,
                        data@,
                        now,
                        now,
                    ),
                    Some(row) => if late(row, now) {
                        let settled = by_deadline(row.record);
                        end.1 == replies_with(settled) && settles_to(w, end.0, now, row, settled)
                    } else {
                        end.1 == replies_with(row.record) && untouched(end.0)
                    },
                }
            }
        }),
{
    let t = TxnView::start(preload_limit, now);
    let id = data.id@;
    let timed = due(w, t, id);
    let end = performed(w, t, corr_id, OperationData::PromiseCreate(data));
    a_promise_is_refused_for_a_fault(data@);
    a_deadline_is_applied_first(w, t, id);
    match at(w.promises, id) {
        Some(row) => {
            if late(row, now) && acceptable(data@) {
                settles_to_stays(w, timed, end.0, now, row, by_deadline(row.record));
            }
        },
        None => {
            if acceptable(data@) {
                let read = timed.read_promise(id);
                assert(end.0 == created(w, read, data@, None, ModeView::Dispatch));
                a_creation_has_its_effects(w, read, data@, None);
            }
        },
    }
}

/// A request that has done nothing, and creates a promise whose task waits for its
/// dispatch, does that and nothing else.
pub proof fn a_creation_has_its_effects(
    w: World,
    t: TxnView,
    data: CreateView,
    created_at: Option<i64>,
)
    requires
        untouched(t),
    ensures
        ({
            let time = if created_at is Some {
                created_at->0
            } else {
                t.now
            };
            &&& creates(
                w,
                created(w, t, data, created_at, ModeView::Dispatch),
                data,
                time,
                t.now,
            )
            &&& created_row(data, created_at, t.now).record == new_promise(data, time, t.now)
        }),
{
    let time = if created_at is Some {
        created_at->0
    } else {
        t.now
    };
    let after = created(w, t, data, created_at, ModeView::Dispatch);
    let promise = new_promise(data, time, t.now);
    assert(created_row(data, created_at, t.now).record == promise);
    let late = data.timeout_at <= t.now;
    let task = StoredTaskView {
        id: data.id,
        state: if late {
            TaskState::Fulfilled
        } else {
            TaskState::Pending
        },
        version: 0,
        target: data.tags["resonate:target"@],
        job: if late {
            None
        } else {
            Some((w.job_ids)(0))
        },
        pid: None,
        ttl: None,
        resumes: Set::empty(),
    };
    assert(after.writes =~= creation_writes(promise, task));
    if !late {
        assert(after.enqueues =~= creation_jobs(
            promise,
            (w.job_ids)(0),
            starts_at(data.tags, t.now),
        ));
    }
}

/// A request to register a listener on a promise that can be awaited adds its
/// address to a pending one, after the others and unless it is there, and changes
/// nothing else. One that is settled, by its deadline or before, is given as it
/// is.
pub proof fn registering_a_listener(
    w: World,
    preload_limit: usize,
    now: i64,
    corr_id: Text,
    data: ListenerData,
)
    requires
        orderly(w),
    ensures
        ({
            let end = performed(
                w,
                TxnView::start(preload_limit, now),
                corr_id,
                OperationData::PromiseRegisterListener(data),
            );
            if !url_parses(data.address@) {
                end.1 == OutcomeView::Reply(
                    ReplyView::Error(400, "Invalid listener address"@),
                ) && untouched(end.0)
            } else {
                match at(w.promises, data.awaited@) {
                    None => end.1 == fails_with(404, "Awaited promise not found"@) && untouched(
                        end.0,
                    ),
                    Some(row) => {
                        let found = if late(row, now) {
                            by_deadline(row.record)
                        } else {
                            row.record
                        };
                        &&& end.1 == (if awaitable(row.record.tags) {
                            replies_with(found)
                        } else {
                            fails_with(422, "Awaited promise is not awaitable"@)
                        })
                        &&& if late(row, now) {
                            settles_to(w, end.0, now, row, found)
                        } else if awaitable(row.record.tags) && row.record.state
                            == PromiseState::Pending && !row.listeners.contains(data.address@) {
                            &&& end.0.writes == map![KeyView::Promise(data.awaited@) => Some(
                                RowView::Promise(
                                    StoredPromiseView {
                                        record: row.record,
                                        callbacks: row.callbacks,
                                        listeners: row.listeners.push(data.address@),
                                    },
                                ),
                            )]
                            &&& end.0.enqueues == Seq::<EnqueueView>::empty()
                            &&& end.0.after == Seq::<AfterView>::empty()
                        } else {
                            untouched(end.0)
                        }
                    },
                }
            }
        }),
{
    let t = TxnView::start(preload_limit, now);
    let id = data.awaited@;
    let end = performed(w, t, corr_id, OperationData::PromiseRegisterListener(data));
    a_deadline_is_applied_first(w, t, id);
    if let Some(row) = at(w.promises, id) {
        if url_parses(data.address@) {
            if late(row, now) {
                settles_to_stays(w, due(w, t, id), end.0, now, row, by_deadline(row.record));
            } else if row.record.state == PromiseState::Pending && awaitable(row.record.tags)
                && !row.listeners.contains(data.address@) {
                assert(end.0.writes =~= map![KeyView::Promise(id) => Some(
                    RowView::Promise(
                        StoredPromiseView {
                            record: row.record,
                            callbacks: row.callbacks,
                            listeners: row.listeners.push(data.address@),
                        },
                    ),
                )]);
            }
        }
    }
}

/// Whether two ids belong to one origin.
pub open spec fn share_an_origin(a: Text, b: Text) -> bool {
    exists|o: Text| !o.contains(':') && belongs_to(a, o) && #[trigger] belongs_to(b, o)
}

/// The origins of two ids are equal where the ids belong to one origin.
pub proof fn one_origin(a: Text, b: Text)
    ensures
        (origin(a) == origin(b)) <==> share_an_origin(a, b),
{
    every_id_has_one_origin(a, a);
    every_id_has_one_origin(b, b);
    if origin(a) == origin(b) {
        assert(belongs_to(b, origin(a)));
    }
    if share_an_origin(a, b) {
        let o = choose|o: Text|
            !o.contains(':') && belongs_to(a, o) && #[trigger] belongs_to(b, o);
        every_id_has_one_origin(a, o);
        every_id_has_one_origin(b, o);
    }
}

/// Whether a callback can be registered: on a promise of the same origin, which is
/// not the awaiter's own.
pub open spec fn callback_in_order(awaited: Text, awaiter: Text) -> bool {
    awaited.len() > 0 && awaiter.len() > 0 && awaited != awaiter && share_an_origin(
        awaited,
        awaiter,
    )
}

/// Whether `message` names the first rule that a callback breaks.
pub open spec fn names_a_callback_fault(awaited: Text, awaiter: Text, message: Text) -> bool {
    if awaited.len() == 0 || awaiter.len() == 0 {
        message == "Awaited and awaiter promise IDs are required"@
    } else if awaited == awaiter {
        message == "Awaited and awaiter must differ"@
    } else {
        message == "Awaited and awaiter must share an origin"@ && !share_an_origin(awaited, awaiter)
    }
}

/// A callback that can be registered has no refusal, and a refusal names the first
/// rule that is broken.
pub proof fn a_callback_is_refused_for_a_fault(awaited: Text, awaiter: Text)
    ensures
        callback_refusal(awaited, awaiter) is None <==> callback_in_order(awaited, awaiter),
        callback_refusal(awaited, awaiter) matches Some(reply) ==> (reply matches ReplyView::Error(
            status,
            message,
        ) && status == 400 && names_a_callback_fault(awaited, awaiter, message)),
{
    one_origin(awaited, awaiter);
}

/// Whether a request writes one record, of the task of `id`, and enqueues `jobs`.
pub open spec fn only_task(
    t: TxnView,
    id: Text,
    task: StoredTaskView,
    jobs: Seq<EnqueueView>,
) -> bool {
    &&& t.writes == map![KeyView::Task(id) => Some(RowView::Task(task))]
    &&& t.enqueues == jobs
    &&& t.after == Seq::<AfterView>::empty()
}

/// What a callback on a settled promise does to its awaiter's task, as it is
/// stored: one that waits for promises is dispatched again with this one to
/// observe, one that has work to do has one more to observe, and any other is
/// left as it is.
pub open spec fn told_at_once(w: World, t: TxnView, awaited: Text, awaiter: Text) -> bool {
    match at(w.tasks, awaiter) {
        Some(task) => if task.state == TaskState::Suspended {
            only_task(
                t,
                awaiter,
                StoredTaskView {
                    id: awaiter,
                    state: TaskState::Pending,
                    version: task.version,
                    target: task.target,
                    job: Some((w.job_ids)(0)),
                    pid: None,
                    ttl: None,
                    resumes: set![awaited],
                },
                seq![
                    EnqueueView {
                        queue: task.target,
                        payload: PayloadView::Execute(awaiter),
                        job: Some((w.job_ids)(0)),
                        run_at: None,
                    },
                ],
            )
        } else if task.state == TaskState::Pending || task.state == TaskState::Acquired {
            only_task(
                t,
                awaiter,
                StoredTaskView {
                    id: awaiter,
                    state: task.state,
                    version: task.version,
                    target: task.target,
                    job: task.job,
                    pid: task.pid,
                    ttl: task.ttl,
                    resumes: task.resumes.insert(awaited),
                },
                Seq::empty(),
            )
        } else {
            untouched(t)
        },
        None => untouched(t),
    }
}

/// A request to register a callback, where neither promise is past its deadline:
/// the awaiter is added to the callbacks of a pending promise, after the others
/// and unless it is there; where the promise is settled the awaiter's task is
/// told at once. A settled awaiter is not told, and nothing else changes.
pub proof fn registering_a_callback(
    w: World,
    preload_limit: usize,
    now: i64,
    corr_id: Text,
    data: CallbackData,
)
    requires
        orderly(w),
        at(w.promises, data.awaited@) matches Some(row) ==> !late(row, now),
        at(w.promises, data.awaiter@) matches Some(row) ==> !late(row, now),
    ensures
        ({
            let end = performed(
                w,
                TxnView::start(preload_limit, now),
                corr_id,
                OperationData::PromiseRegisterCallback(data),
            );
            if !callback_in_order(data.awaited@, data.awaiter@) {
                &&& untouched(end.0)
                &&& end.1 matches OutcomeView::Reply(ReplyView::Error(status, message)) && status
                    == 400 && names_a_callback_fault(data.awaited@, data.awaiter@, message)
            } else {
                match (at(w.promises, data.awaited@), at(w.promises, data.awaiter@)) {
                    (None, _) => end.1 == fails_with(404, "Awaited promise not found"@)
                        && untouched(end.0),
                    (Some(_), None) => end.1 == fails_with(422, "Awaiter promise not found"@)
                        && untouched(end.0),
                    (Some(row), Some(own)) => if !own.record.tags.contains_key(
                        "resonate:target"@,
                    ) {
                        end.1 == fails_with(422, "Awaiter promise has no resonate:target tag"@)
                            && untouched(end.0)
                    } else if !awaitable(row.record.tags) {
                        end.1 == fails_with(422, "Awaited promise is not awaitable"@) && untouched(
                            end.0,
                        )
                    } else {
                        &&& end.1 == replies_with(row.record)
                        &&& if own.record.state != PromiseState::Pending {
                            untouched(end.0)
                        } else if row.record.state != PromiseState::Pending {
                            told_at_once(w, end.0, data.awaited@, data.awaiter@)
                        } else if row.callbacks.contains(data.awaiter@) {
                            untouched(end.0)
                        } else {
                            &&& end.0.writes == map![KeyView::Promise(data.awaited@) => Some(
                                RowView::Promise(
                                    StoredPromiseView {
                                        record: row.record,
                                        callbacks: row.callbacks.push(data.awaiter@),
                                        listeners: row.listeners,
                                    },
                                ),
                            )]
                            &&& end.0.enqueues == Seq::<EnqueueView>::empty()
                            &&& end.0.after == Seq::<AfterView>::empty()
                        }
                    },
                }
            }
        }),
{
    let t = TxnView::start(preload_limit, now);
    let awaited = data.awaited@;
    let awaiter = data.awaiter@;
    let end = performed(w, t, corr_id, OperationData::PromiseRegisterCallback(data));
    a_callback_is_refused_for_a_fault(awaited, awaiter);
    two_deadlines(w, t, awaited, awaiter);
    if callback_in_order(awaited, awaiter) {
        if let (Some(row), Some(own)) = (at(w.promises, awaited), at(w.promises, awaiter)) {
            let acts = own.record.state == PromiseState::Pending && awaitable(row.record.tags)
                && own.record.tags.contains_key("resonate:target"@);
            if acts && row.record.state != PromiseState::Pending {
                if let Some(task) = at(w.tasks, awaiter) {
                    assert(Set::<Text>::empty().insert(awaited) =~= set![awaited]);
                    if task.state == TaskState::Suspended {
                        assert(end.0.enqueues =~= seq![
                            EnqueueView {
                                queue: task.target,
                                payload: PayloadView::Execute(awaiter),
                                job: Some((w.job_ids)(0)),
                                run_at: None,
                            },
                        ]);
                    }
                    assert(told_at_once(w, end.0, awaited, awaiter));
                }
            } else if acts && !row.callbacks.contains(awaiter) {
                assert(end.0.writes =~= map![KeyView::Promise(awaited) => Some(
                    RowView::Promise(
                        StoredPromiseView {
                            record: row.record,
                            callbacks: row.callbacks.push(awaiter),
                            listeners: row.listeners,
                        },
                    ),
                )]);
            }
        }
    }
}

/// Two promises within their deadlines are left as they are.
pub proof fn two_deadlines(w: World, t: TxnView, a: Text, b: Text)
    requires
        untouched(t),
        at(w.promises, a) matches Some(row) ==> !late(row, t.now),
        at(w.promises, b) matches Some(row) ==> !late(row, t.now),
    ensures
        all_timed_out(w, t, seq![a, b]) == t.ask(CallView::Promise(a)).ask(CallView::Promise(b)),
{
    assert(seq![a, b].drop_last() =~= seq![a]);
    due_is_one_deadline(w, t, a);
    assert(t.promise(w, a) == at(w.promises, a));
    let one = due(w, t, a);
    assert(one == all_timed_out(w, t, seq![a]));
    assert(one.promise(w, b) == at(w.promises, b));
}

/// Whether a request has the task of `awaiter` notice the settlement of `awaited`:
/// one that waits for promises is dispatched again, at its version, with this one
/// to observe, and one that has work to do has one more to observe.
pub open spec fn notices(w: World, t: TxnView, awaited: Text, awaiter: Text) -> bool {
    match at(w.tasks, awaiter) {
        Some(task) => match task.state {
            TaskState::Suspended => exists|k: int|
                0 <= k < t.enqueues.len() && (#[trigger] t.enqueues[k]).queue == task.target
                    && t.enqueues[k].payload == PayloadView::Execute(awaiter)
                    && t.enqueues[k].run_at is None && t.task(w, awaiter) == Some(
                    StoredTaskView {
                        id: awaiter,
                        state: TaskState::Pending,
                        version: task.version,
                        target: task.target,
                        job: t.enqueues[k].job,
                        pid: None,
                        ttl: None,
                        resumes: set![awaited],
                    },
                ),
            TaskState::Pending | TaskState::Acquired => t.task(w, awaiter) == Some(
                StoredTaskView { resumes: task.resumes.insert(awaited), ..task },
            ),
            TaskState::Halted => t.task(w, awaiter) matches Some(found) && found.state
                == TaskState::Halted && found.version == task.version,
            TaskState::Fulfilled => t.task(w, awaiter) == Some(task),
        },
        None => t.task(w, awaiter) is None,
    }
}

/// A request to register a callback applies the deadlines of the two promises
/// first, and replies with the awaited one as it then is. Where the awaited
/// promise was past its deadline, and the awaiter is not, the awaiter's task
/// notices; an awaiter past its own is registered with nothing.
pub proof fn a_callback_comes_after_the_deadlines(
    w: World,
    preload_limit: usize,
    now: i64,
    corr_id: Text,
    data: CallbackData,
)
    requires
        orderly(w),
        callback_in_order(data.awaited@, data.awaiter@),
    ensures
        ({
            let end = performed(
                w,
                TxnView::start(preload_limit, now),
                corr_id,
                OperationData::PromiseRegisterCallback(data),
            );
            let awaited = data.awaited@;
            let awaiter = data.awaiter@;
            &&& settles_if_late(w, end.0, now, awaited)
            &&& settles_if_late(w, end.0, now, awaiter)
            &&& match (at(w.promises, awaited), at(w.promises, awaiter)) {
                (None, _) => end.1 == fails_with(404, "Awaited promise not found"@),
                (Some(_), None) => end.1 == fails_with(422, "Awaiter promise not found"@),
                (Some(row), Some(own)) => if !own.record.tags.contains_key("resonate:target"@) {
                    end.1 == fails_with(422, "Awaiter promise has no resonate:target tag"@)
                } else if !awaitable(row.record.tags) {
                    end.1 == fails_with(422, "Awaited promise is not awaitable"@)
                } else if late(row, now) {
                    &&& end.1 == replies_with(by_deadline(row.record))
                    &&& open_at(w, awaiter, now) ==> notices(w, end.0, awaited, awaiter)
                } else {
                    &&& end.1 == replies_with(row.record)
                    &&& late(own, now) ==> end.0.promise(w, awaited) == Some(row)
                },
            }
        }),
{
    let t = TxnView::start(preload_limit, now);
    let awaited = data.awaited@;
    let awaiter = data.awaiter@;
    let both = seq![awaited, awaiter];
    let end = performed(w, t, corr_id, OperationData::PromiseRegisterCallback(data));
    let timed = all_timed_out(w, t, both);
    let read = timed.read_promise(awaited).read_promise(awaiter);
    a_callback_is_refused_for_a_fault(awaited, awaiter);
    assert forall|x: Text| #[trigger] t.promise(w, x) == at(w.promises, x) by {}
    assert(both[0] == awaited && both[1] == awaiter);
    assert(both.contains(awaited) && both.contains(awaiter));
    deadlines_settle_what_is_late(w, t, both, awaited);
    deadlines_settle_what_is_late(w, t, both, awaiter);
    assert(end.0.promise(w, awaited) == timed.promise(w, awaited) || !is_settled_late(
        w,
        awaited,
        now,
    ));
    assert(timed.enqueues =~= end.0.enqueues.subrange(0, timed.enqueues.len() as int));
    if is_settled_late(w, awaited, now) {
        let row = at(w.promises, awaited)->0;
        sent_stays(timed, end.0, row, by_deadline(row.record));
    }
    if is_settled_late(w, awaiter, now) {
        let row = at(w.promises, awaiter)->0;
        sent_stays(timed, end.0, row, by_deadline(row.record));
    }
    if let (Some(row), Some(own)) = (at(w.promises, awaited), at(w.promises, awaiter)) {
        if own.record.tags.contains_key("resonate:target"@) && awaitable(row.record.tags) && late(
            row,
            now,
        ) && open_at(w, awaiter, now) {
            let one = due(w, t, awaited);
            due_is_one_deadline(w, t, awaited);
            due_is_one_deadline(w, one, awaiter);
            assert(both.drop_last() =~= seq![awaited]);
            assert(one == all_timed_out(w, t, seq![awaited]));
            a_deadline_is_applied_first(w, t, awaited);
            assert(timed.writes == one.writes && timed.enqueues == one.enqueues);
            assert(end.0 == resumed(w, read, awaiter, awaited, Wake::Registration));
            assert(read.task(w, awaiter) == one.task(w, awaiter));
            assert(Set::<Text>::empty().insert(awaited) =~= set![awaited]);
            assert(set![awaited].insert(awaited) =~= set![awaited]);
            if let Some(task) = at(w.tasks, awaiter) {
                assert(task.resumes.insert(awaited).insert(awaited) =~= task.resumes.insert(
                    awaited,
                ));
                if row.callbacks.contains(awaiter) {
                    let i = row.callbacks.index_of(awaiter);
                    assert(row.callbacks[i] == awaiter);
                    assert(told(w, one, now, awaited, row.callbacks[i]));
                    if task.state == TaskState::Suspended {
                        woken_is_dispatched(w, now, awaited, row.callbacks, awaiter);
                        let woken = woken_by(w, now, awaited, row.callbacks);
                        let k = woken.index_of(awaiter);
                        assert(dispatches_woken(w, one, k, woken[k]));
                        assert(one.enqueues.len() >= woken.len());
                        assert(end.0.enqueues[k] == one.enqueues[k]);
                        assert(notices(w, end.0, awaited, awaiter));
                    }
                } else {
                    assert(!one.writes.contains_key(KeyView::Task(awaiter)));
                    if task.state == TaskState::Suspended {
                        let k = end.0.enqueues.len() - 1;
                        assert(end.0.enqueues[k].queue == task.target);
                    }
                }
            }
        }
    }
}

/// Whether the stored promise of `id` is past its deadline.
spec fn is_settled_late(w: World, id: Text, now: i64) -> bool {
    at(w.promises, id) matches Some(row) && late(row, now)
}

/// A task that a settlement wakes is among the woken.
proof fn woken_is_dispatched(
    w: World,
    now: i64,
    settled: Text,
    callbacks: Seq<Text>,
    awaiter: Text,
)
    requires
        callbacks.contains(awaiter),
        wakes(w, now, settled, awaiter),
    ensures
        woken_by(w, now, settled, callbacks).contains(awaiter),
{
    let keep = |x: Text| wakes(w, now, settled, x);
    let i = callbacks.index_of(awaiter);
    assert(keep(callbacks[i]));
    callbacks.lemma_filter_contains(keep, i);
}

} // verus!
