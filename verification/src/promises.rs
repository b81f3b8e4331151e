//! The operations on promises.

use vstd::prelude::*;
use crate::calls::{view_opt, Call, CallView, World};
use crate::creation::{
    create_promise, created, created_grows, created_row, CreateMode, ModeView,
};
use crate::data::{
    CallbackData, CreateView, IdData, ListenerData, PromiseCreateData, PromiseSearchData,
    PromiseSettleData, SettleView,
};
use crate::envelope::{viewed, Reply, ReplyData, ReplyDataView, ReplyView};
use crate::outcome::{ends, fail, failed, reject, rejected, Outcome, OutcomeView};
use crate::records::{
    PromiseRecord, PromiseState, PromiseView, StoredPromise, StoredPromiseView, TagMap, Text,
};
use crate::rules::{
    callback_refusal, create_refusal, is_url, target_parses, url_parses, validate_callback,
    validate_create,
};
use crate::search::{
    gives, has_tags, limit_of, page, page_of, page_viewed, search_limit, tags_match,
    DEFAULT_SEARCH_LIMIT,
};
use crate::settlement::{
    all_timed_out, all_timed_out_grows, all_timed_out_keeps, cleared, resume_awaiter, resumed, settle, settled,
    settled_chain, settled_chain_grows, slices, try_timeout, Wake,
};
use crate::text::{contains_text, copied, text_opt};
use crate::txn::{promises_listed, records_at, steps, Txn, TxnView};

verus! {

/// The end of a request that commits, then replies with a promise.
pub open spec fn with_promise(promise: PromiseView) -> OutcomeView {
    OutcomeView::Commit(ReplyView::Data(200, ReplyDataView::Promise(promise)))
}

/// Commit, then reply with a promise.
fn reply_promise(promise: PromiseRecord) -> (r: Outcome)
    ensures
        r@ == with_promise(promise@),
{
    Outcome::Commit(Reply::ok(ReplyData::Promise(promise)))
}

/// The deadline of one promise applied.
pub open spec fn due(w: World, t: TxnView, id: Text) -> TxnView {
    all_timed_out(w, t, seq![id])
}

/// Settle the promise of `id` if its deadline has passed.
pub fn apply_deadline(txn: &mut Txn, id: &str) -> (r: Result<(), Call>)
    requires
        old(txn).wf(),
    ensures
        steps(*old(txn), *final(txn), r, |w: World| due(w, old(txn)@, id@)),
{
    let ids: Vec<&str> = vec![id];
    assert(slices(ids@) =~= seq![id@]);
    try_timeout(txn, &ids)
}

/// A deadline keeps the calls a request depends on.
pub broadcast proof fn due_grows(w: World, t: TxnView, id: Text, call: CallView)
    requires
        t.asked.contains(call),
    ensures
        #[trigger] due(w, t, id).asked.contains(call),
{
    all_timed_out_grows(w, t, seq![id], call);
}

/// A deadline keeps the time of a request and its preload limit.
pub broadcast proof fn due_keeps(w: World, t: TxnView, id: Text)
    ensures
        (#[trigger] due(w, t, id)).now == t.now,
        due(w, t, id).preload_limit == t.preload_limit,
{
    all_timed_out_keeps(w, t, seq![id]);
}

/// What becomes of a valid promise to create: the promise that exists, or the
/// one it creates.
pub open spec fn creation(w: World, t: TxnView, data: CreateView) -> (TxnView, OutcomeView) {
    let timed = due(w, t, data.id);
    let read = timed.read_promise(data.id);
    match timed.promise(w, data.id) {
        Some(existing) => (read, with_promise(existing.record)),
        None => (
            created(w, read, data, None, ModeView::Dispatch),
            with_promise(created_row(data, None, t.now).record),
        ),
    }
}

/// What becomes of a promise to create, where `refusal` is its refusal.
pub open spec fn promise_creation(
    w: World,
    t: TxnView,
    data: CreateView,
    refusal: Option<ReplyView>,
) -> (TxnView, OutcomeView) {
    match refusal {
        Some(reply) => (t, OutcomeView::Reply(reply)),
        None => creation(w, t, data),
    }
}

/// Create a promise that is valid, or give the one that exists.
pub fn create_valid(txn: &mut Txn, data: &PromiseCreateData) -> (r: Result<Outcome, Call>)
    requires
        old(txn).wf(),
    ensures
        ends(*old(txn), *final(txn), r, |w: World| creation(w, old(txn)@, data@)),
{
    broadcast use {due_grows, due_keeps, created_grows};

    apply_deadline(txn, &data.id)?;
    if let Some(existing) = txn.get_promise(&data.id)? {
        return Ok(reply_promise(existing.record));
    }
    let promise = create_promise(txn, data, None, &CreateMode::Dispatch)?;
    Ok(reply_promise(promise.record))
}

/// Create a promise, or give the one that exists.
pub fn promise_create(txn: &mut Txn, data: &PromiseCreateData) -> (r: Result<Outcome, Call>)
    requires
        old(txn).wf(),
    ensures
        ends(
            *old(txn),
            *final(txn),
            r,
            |w: World|
                promise_creation(
                    w,
                    old(txn)@,
                    data@,
                    create_refusal(data@, target_parses(data@.tags)),
                ),
        ),
{
    if let Some(reply) = validate_create(data) {
        return Ok(Outcome::Reply(reply));
    }
    create_valid(txn, data)
}

/// What becomes of a request for a promise.
pub open spec fn promise_reading(w: World, t: TxnView, id: Text) -> (TxnView, OutcomeView) {
    let timed = due(w, t, id);
    (
        timed.read_promise(id),
        match timed.promise(w, id) {
            Some(row) => with_promise(row.record),
            None => failed(404, "Promise not found"@),
        },
    )
}

/// Give a promise.
pub fn promise_get(txn: &mut Txn, data: &IdData) -> (r: Result<Outcome, Call>)
    requires
        old(txn).wf(),
    ensures
        ends(*old(txn), *final(txn), r, |w: World| promise_reading(w, old(txn)@, data.id@)),
{
    broadcast use due_grows;

    apply_deadline(txn, &data.id)?;
    match txn.get_promise(&data.id)? {
        Some(promise) => Ok(reply_promise(promise.record)),
        None => Ok(fail(404, "Promise not found")),
    }
}

/// The request after a client settled the promise it has read as `row`, where
/// it is pending, and the promise as it then is.
pub open spec fn settling(w: World, t: TxnView, row: StoredPromiseView, data: SettleView) -> (
    TxnView,
    StoredPromiseView,
) {
    if row.record.is_pending() {
        let row = settled(row, data.state, data.value, t.now);
        (settled_chain(w, t, row), cleared(row))
    } else {
        (t, row)
    }
}

/// Settle `promise` where it is pending.
pub fn settle_pending(txn: &mut Txn, promise: &mut StoredPromise, data: &PromiseSettleData) -> (r:
    Result<(), Call>)
    requires
        old(txn).wf(),
    ensures
        steps(
            *old(txn),
            *final(txn),
            r,
            |w: World| settling(w, old(txn)@, old(promise)@, data@).0,
        ),
        r is Ok ==> forall|w: World| #[trigger]
            old(txn).facts.describe(w) ==> final(promise)@ == settling(
                w,
                old(txn)@,
                old(promise)@,
                data@,
            ).1,
{
    if promise.record.is_pending() {
        settle(txn, promise, data.state, data.value.clone())?;
    }
    Ok(())
}

/// A settlement keeps the calls a request depends on.
pub broadcast proof fn settling_grows(
    w: World,
    t: TxnView,
    row: StoredPromiseView,
    data: SettleView,
    call: CallView,
)
    requires
        t.asked.contains(call),
    ensures
        #[trigger] settling(w, t, row, data).0.asked.contains(call),
{
    broadcast use settled_chain_grows;

}

/// What becomes of a promise to settle.
pub open spec fn promise_settlement(w: World, t: TxnView, data: SettleView) -> (
    TxnView,
    OutcomeView,
) {
    let timed = due(w, t, data.id);
    let read = timed.read_promise(data.id);
    match timed.promise(w, data.id) {
        None => (read, failed(404, "Promise not found"@)),
        Some(row) => {
            let after = settling(w, read, row, data);
            (after.0, with_promise(after.1.record))
        },
    }
}

/// Settle a promise, or give the one that is settled.
pub fn promise_settle(txn: &mut Txn, data: &PromiseSettleData) -> (r: Result<Outcome, Call>)
    requires
        old(txn).wf(),
    ensures
        ends(*old(txn), *final(txn), r, |w: World| promise_settlement(w, old(txn)@, data@)),
{
    broadcast use {due_grows, settling_grows};

    apply_deadline(txn, &data.id)?;
    let mut promise = match txn.get_promise(&data.id)? {
        Some(promise) => promise,
        None => {
            return Ok(fail(404, "Promise not found"));
        },
    };
    settle_pending(txn, &mut promise, data)?;
    Ok(reply_promise(promise.record))
}

/// A stored promise with the callback of `awaiter`.
pub open spec fn awaited_by(row: StoredPromiseView, awaiter: Text) -> StoredPromiseView {
    if row.callbacks.contains(awaiter) {
        row
    } else {
        StoredPromiseView { callbacks: row.callbacks.push(awaiter), ..row }
    }
}

/// The request after it registered the callback of `awaiter` on `row`.
pub open spec fn callback_registered(t: TxnView, row: StoredPromiseView, awaiter: Text) -> TxnView {
    if row.callbacks.contains(awaiter) {
        t
    } else {
        t.put_promise(awaited_by(row, awaiter))
    }
}

/// Register the callback of `awaiter` on `awaited`, once.
pub fn register_callback(txn: &mut Txn, awaited: &mut StoredPromise, awaiter: &str)
    requires
        old(txn).wf(),
    ensures
        final(txn).facts == old(txn).facts,
        final(txn).wf(),
        final(txn)@ == callback_registered(old(txn)@, old(awaited)@, awaiter@),
        final(awaited)@ == awaited_by(old(awaited)@, awaiter@),
{
    if !contains_text(&awaited.callbacks, awaiter) {
        let ghost before = awaited@;
        awaited.callbacks.push(copied(awaiter));
        assert(awaited@.callbacks =~= before.callbacks.push(awaiter@));
        txn.put_promise(awaited);
    }
}

/// What becomes of a valid callback to register.
pub open spec fn callback(w: World, t: TxnView, awaited: Text, awaiter: Text) -> (
    TxnView,
    OutcomeView,
) {
    let timed = all_timed_out(w, t, seq![awaited, awaiter]);
    let one = timed.read_promise(awaited);
    let both = one.read_promise(awaiter);
    match timed.promise(w, awaited) {
        None => (one, failed(404, "Awaited promise not found"@)),
        Some(row) => match timed.promise(w, awaiter) {
            None => (both, failed(422, "Awaiter promise not found"@)),
            Some(awaiting) => if awaiting.record.target() is None {
                (both, failed(422, "Awaiter promise has no resonate:target tag"@))
            } else if !row.record.is_external() {
                (both, failed(422, "Awaited promise is not awaitable"@))
            } else if !awaiting.record.is_pending() {
                (both, with_promise(row.record))
            } else if row.record.is_pending() {
                (callback_registered(both, row, awaiter), with_promise(row.record))
            } else {
                (
                    resumed(w, both, awaiter, awaited, Wake::Registration),
                    with_promise(row.record),
                )
            },
        },
    }
}

/// What becomes of a callback to register.
pub open spec fn callback_registration(w: World, t: TxnView, awaited: Text, awaiter: Text) -> (
    TxnView,
    OutcomeView,
) {
    match callback_refusal(awaited, awaiter) {
        Some(reply) => (t, OutcomeView::Reply(reply)),
        None => callback(w, t, awaited, awaiter),
    }
}

/// Register a callback of a task on a promise. An awaiter of a promise already
/// settled is resumed at once.
pub fn promise_register_callback(txn: &mut Txn, data: &CallbackData) -> (r: Result<Outcome, Call>)
    requires
        old(txn).wf(),
    ensures
        ends(
            *old(txn),
            *final(txn),
            r,
            |w: World| callback_registration(w, old(txn)@, data.awaited@, data.awaiter@),
        ),
{
    broadcast use all_timed_out_grows;

    if let Some(reply) = validate_callback(&data.awaited, &data.awaiter) {
        return Ok(Outcome::Reply(reply));
    }
    let ids: Vec<&str> = vec![data.awaited.as_str(), data.awaiter.as_str()];
    assert(slices(ids@) =~= seq![data.awaited@, data.awaiter@]);
    try_timeout(txn, &ids)?;
    let mut awaited = match txn.get_promise(&data.awaited)? {
        Some(awaited) => awaited,
        None => {
            return Ok(fail(404, "Awaited promise not found"));
        },
    };
    let awaiter = match txn.get_promise(&data.awaiter)? {
        Some(awaiter) => awaiter,
        None => {
            return Ok(fail(422, "Awaiter promise not found"));
        },
    };
    if awaiter.record.target().is_none() {
        return Ok(fail(422, "Awaiter promise has no resonate:target tag"));
    }
    if !awaited.record.is_external() {
        return Ok(fail(422, "Awaited promise is not awaitable"));
    }
    if awaiter.record.is_pending() {
        if awaited.record.is_pending() {
            register_callback(txn, &mut awaited, &data.awaiter);
        } else {
            resume_awaiter(txn, &data.awaiter, &data.awaited, Wake::Registration)?;
        }
    }
    Ok(reply_promise(awaited.record))
}

/// A stored promise with the listener at `address`.
pub open spec fn heard_by(row: StoredPromiseView, address: Text) -> StoredPromiseView {
    StoredPromiseView { listeners: row.listeners.push(address), ..row }
}

/// What becomes of a listener to register, where `address_is_url` says whether
/// its address is a URL.
pub open spec fn listener_registration(
    w: World,
    t: TxnView,
    awaited: Text,
    address: Text,
    address_is_url: bool,
) -> (TxnView, OutcomeView) {
    let timed = due(w, t, awaited);
    let read = timed.read_promise(awaited);
    if !address_is_url {
        (t, rejected(400, "Invalid listener address"@))
    } else {
        match timed.promise(w, awaited) {
            None => (read, failed(404, "Awaited promise not found"@)),
            Some(row) => if !row.record.is_external() {
                (read, failed(422, "Awaited promise is not awaitable"@))
            } else if row.record.is_pending() && !row.listeners.contains(address) {
                (read.put_promise(heard_by(row, address)), with_promise(row.record))
            } else {
                (read, with_promise(row.record))
            },
        }
    }
}

/// Register a listener on a promise, given whether its address is a URL.
pub fn register_listener(txn: &mut Txn, data: &ListenerData, address_is_url: bool) -> (r: Result<
    Outcome,
    Call,
>)
    requires
        old(txn).wf(),
    ensures
        ends(
            *old(txn),
            *final(txn),
            r,
            |w: World|
                listener_registration(
                    w,
                    old(txn)@,
                    data.awaited@,
                    data.address@,
                    address_is_url,
                ),
        ),
{
    broadcast use due_grows;

    if !address_is_url {
        return Ok(reject(400, "Invalid listener address"));
    }
    apply_deadline(txn, &data.awaited)?;
    let mut awaited = match txn.get_promise(&data.awaited)? {
        Some(awaited) => awaited,
        None => {
            return Ok(fail(404, "Awaited promise not found"));
        },
    };
    if !awaited.record.is_external() {
        return Ok(fail(422, "Awaited promise is not awaitable"));
    }
    if awaited.record.is_pending() && !contains_text(&awaited.listeners, &data.address) {
        let ghost before = awaited@;
        awaited.listeners.push(copied(&data.address));
        assert(awaited@.listeners =~= before.listeners.push(data.address@));
        txn.put_promise(&awaited);
    }
    Ok(reply_promise(awaited.record))
}

/// Register a listener on a promise.
pub fn promise_register_listener(txn: &mut Txn, data: &ListenerData) -> (r: Result<Outcome, Call>)
    requires
        old(txn).wf(),
    ensures
        ends(
            *old(txn),
            *final(txn),
            r,
            |w: World|
                listener_registration(
                    w,
                    old(txn)@,
                    data.awaited@,
                    data.address@,
                    url_parses(data.address@),
                ),
        ),
{
    let address_is_url = is_url(&data.address);
    register_listener(txn, data, address_is_url)
}

/// Whether a promise is one that a search looks for.
pub open spec fn sought(
    promise: PromiseView,
    state: Option<PromiseState>,
    tags: Option<TagMap>,
) -> bool {
    (state is Some ==> promise.state == state->0) && has_tags(promise.tags, tags)
}

/// The promises that a search looks for.
pub open spec fn promises_found(
    promises: Seq<PromiseView>,
    state: Option<PromiseState>,
    tags: Option<TagMap>,
) -> Seq<PromiseView> {
    promises.filter(|promise: PromiseView| sought(promise, state, tags))
}

/// The id of a promise.
pub open spec fn promise_id() -> spec_fn(PromiseView) -> Text {
    |promise: PromiseView| promise.id
}

/// The id of a promise.
fn id_of_promise(promise: &PromiseRecord) -> (r: &str)
    ensures
        r@ == promise@.id,
{
    &promise.id
}

/// What becomes of a search of promises.
pub open spec fn promises_search(w: World, t: TxnView, data: PromiseSearchData) -> (
    TxnView,
    OutcomeView,
) {
    match limit_of(data.limit, DEFAULT_SEARCH_LIMIT) {
        Err(reply) => (t, OutcomeView::Reply(reply)),
        Ok(limit) => {
            let found = promises_found(
                records_at(w.all_promises(), t.now),
                data.state,
                view_opt(data.tags),
            );
            let part = page_of(found, promise_id(), text_opt(data.cursor), limit);
            (
                promises_listed(w, t),
                OutcomeView::Commit(
                    ReplyView::Data(200, ReplyDataView::Promises(part.0, part.1)),
                ),
            )
        },
    }
}

/// Search the promises by state and tags, once the deadline of every promise is
/// applied.
pub fn promise_search(txn: &mut Txn, data: &PromiseSearchData) -> (r: Result<Outcome, Call>)
    requires
        old(txn).wf(),
    ensures
        ends(*old(txn), *final(txn), r, |w: World| promises_search(w, old(txn)@, *data)),
{
    let limit: usize = match search_limit(data.limit, DEFAULT_SEARCH_LIMIT) {
        Ok(limit) => limit,
        Err(reply) => {
            return Ok(Outcome::Reply(reply));
        },
    };
    let promises = txn.promises()?;
    let ghost all = viewed(promises@);
    let ghost keep = |promise: PromiseView| sought(promise, data.state, view_opt(data.tags));
    let mut found: Vec<PromiseRecord> = Vec::new();
    let mut i: usize = 0;
    assert(all.take(0) =~= Seq::<PromiseView>::empty());
    assert(viewed(found@) =~= all.take(0).filter(keep)) by {
        reveal(Seq::filter);
    }
    while i < promises.len()
        invariant
            i <= promises.len(),
            all == viewed(promises@),
            keep == |promise: PromiseView| sought(promise, data.state, view_opt(data.tags)),
            viewed(found@) == all.take(i as int).filter(keep),
        decreases promises.len() - i,
    {
        let promise = &promises[i];
        let ghost before = found@;
        let ghost next = all.take(i + 1);
        assert(next.drop_last() =~= all.take(i as int));
        assert(next.last() == promise@);
        let matches_state = match data.state {
            Some(state) => promise.state == state,
            None => true,
        };
        proof {
            reveal(Seq::filter);
        }
        if matches_state && tags_match(&promise.tags, &data.tags) {
            found.push(promise.clone());
            assert(viewed(found@) =~= viewed(before).push(promise@));
        }
        i += 1;
    }
    assert(all.take(i as int) =~= all);
    let cursor = match &data.cursor {
        Some(cursor) => Some(cursor.as_str()),
        None => None,
    };
    let ghost listed = found@;
    let (part, next) = page(found, id_of_promise, cursor, limit);
    proof {
        let id = |promise: PromiseRecord| promise@.id;
        assert(gives(id_of_promise, id));
        page_viewed(listed, id, promise_id(), text_opt(data.cursor), limit);
    }
    Ok(Outcome::Commit(Reply::ok(ReplyData::Promises(part, next))))
}

} // verus!
