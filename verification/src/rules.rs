//! The rules that a request's data is held to before anything is read.

use vstd::prelude::*;
use vstd::string::*;
use crate::data::{CreateView, PromiseCreateData, ScheduleCreateData, ScheduleCreateView};
use crate::envelope::{Reply, ReplyView};
use crate::records::{origin, origin_of, TagMap, Text, TAG_DELAY, TAG_TARGET};
use crate::text::{contains_char, parse_decimal, parse_i64, starts_with, text_eq};

verus! {

/// Whether a text parses as an absolute URL.
pub uninterp spec fn url_parses(address: Seq<char>) -> bool;

/// `url::Url::parse` without a base: whether `address` parses as a URL.
#[verifier::external_body]
pub(crate) fn is_url(address: &str) -> (r: bool)
    ensures
        r == url_parses(address@),
{
    url::Url::parse(address).is_ok()
}

/// The character that separates `ancestor` from the rest of a descendant's id.
pub open spec fn separator(ancestor: Text) -> char {
    if ancestor.contains(':') {
        '.'
    } else {
        ':'
    }
}

/// Whether `ancestor` is `id` or a lineage prefix of it: the id goes on after
/// the ancestor with the ancestor's separator.
pub open spec fn lineage(ancestor: Text, id: Text) -> bool {
    ancestor == id || ancestor.push(separator(ancestor)).is_prefix_of(id)
}

/// Whether `ancestor` is `id` or a lineage prefix of it. The segment separator
/// after an ancestor without an origin separator is `:`, and `.` after one with
/// it.
pub fn is_ancestor(ancestor: &str, id: &str) -> (r: bool)
    ensures
        r == lineage(ancestor@, id@),
{
    if text_eq(ancestor, id) {
        return true;
    }
    let separator = if contains_char(ancestor, ':') {
        '.'
    } else {
        ':'
    };
    let n: usize = ancestor.unicode_len();
    let ghost full = ancestor@.push(separator);
    if !starts_with(id, ancestor) {
        proof {
            if full.is_prefix_of(id@) {
                assert(ancestor@ =~= id@.subrange(0, n as int)) by {
                    assert forall|i: int| 0 <= i < n implies ancestor@[i] == id@[i] by {
                        assert(full[i] == id@.subrange(0, full.len() as int)[i]);
                    }
                }
            }
        }
        return false;
    }
    if id.unicode_len() <= n {
        return false;
    }
    let c = id.get_char(n);
    proof {
        assert forall|i: int| 0 <= i < n implies ancestor@[i] == id@[i] by {
            assert(id@.subrange(0, n as int)[i] == id@[i]);
        }
        if c == separator {
            assert(full =~= id@.subrange(0, n + 1));
        } else if full.is_prefix_of(id@) {
            assert(full[n as int] == id@.subrange(0, n + 1)[n as int]);
        }
    }
    c == separator
}

/// Whether a `resonate:delay` tag is valid: a time that is not negative and
/// before the deadline, of a promise with a target.
pub open spec fn delay_valid(data: CreateView) -> bool {
    match parse_decimal(data.tags[TAG_DELAY@]) {
        Some(delay) => 0 <= delay < data.timeout_at && data.tags.contains_key(TAG_TARGET@),
        None => false,
    }
}

/// The first rule that a promise to create breaks, if it breaks one.
/// `target_is_url` says whether its target, where it has one, is a URL.
pub open spec fn create_fault(data: CreateView, target_is_url: bool) -> Option<Text> {
    let tags = data.tags;
    if data.id.len() == 0 {
        Some("Promise ID is required"@)
    } else if data.id.contains('\0') {
        Some("Promise ID must not contain null bytes"@)
    } else if data.timeout_at < 0 {
        Some("Promise timeout must not be negative"@)
    } else if tags.contains_key(TAG_TARGET@) && !target_is_url {
        Some("Invalid resonate:target address"@)
    } else if tags.contains_key("resonate:origin"@) && (tags["resonate:origin"@].contains(':')
        || origin(data.id) != tags["resonate:origin"@]) {
        Some("Invalid resonate:origin tag"@)
    } else if tags.contains_key("resonate:branch"@) && !lineage(
        tags["resonate:branch"@],
        data.id,
    ) {
        Some("Invalid resonate:branch tag"@)
    } else if tags.contains_key("resonate:parent"@) && !lineage(
        tags["resonate:parent"@],
        data.id,
    ) {
        Some("Invalid resonate:parent tag"@)
    } else if tags.contains_key("resonate:prefix"@) && tags["resonate:prefix"@].contains(':') {
        Some("Invalid resonate:prefix tag"@)
    } else if tags.contains_key(TAG_DELAY@) && !delay_valid(data) {
        Some("Invalid resonate:delay tag"@)
    } else {
        None
    }
}

/// The refusal of a promise to create, if it is refused.
pub open spec fn create_refusal(data: CreateView, target_is_url: bool) -> Option<ReplyView> {
    match create_fault(data, target_is_url) {
        Some(message) => Some(ReplyView::Error(400, message)),
        None => None,
    }
}

/// A refusal with status 400, if there is one.
pub open spec fn refused(r: Option<Reply>) -> Option<ReplyView> {
    match r {
        Some(reply) => Some(reply@),
        None => None,
    }
}

/// Whether the target of `tags`, where there is one, is a URL.
pub open spec fn target_parses(tags: TagMap) -> bool {
    tags.contains_key(TAG_TARGET@) ==> url_parses(tags[TAG_TARGET@])
}

/// Check a promise to create against every rule, given whether its target,
/// where it has one, is a URL.
pub fn check_create(data: &PromiseCreateData, target_is_url: bool) -> (r: Option<Reply>)
    ensures
        refused(r) == create_refusal(data@, target_is_url),
{
    if data.id.as_str().is_empty() {
        return Some(Reply::err(400, "Promise ID is required"));
    }
    if contains_char(&data.id, '\0') {
        return Some(Reply::err(400, "Promise ID must not contain null bytes"));
    }
    if data.timeout_at < 0 {
        return Some(Reply::err(400, "Promise timeout must not be negative"));
    }
    if data.tags.contains_key(TAG_TARGET) && !target_is_url {
        return Some(Reply::err(400, "Invalid resonate:target address"));
    }
    if let Some(origin) = data.tags.get("resonate:origin") {
        if contains_char(origin, ':') || !text_eq(origin_of(&data.id), origin) {
            return Some(Reply::err(400, "Invalid resonate:origin tag"));
        }
    }
    if let Some(ancestor) = data.tags.get("resonate:branch") {
        if !is_ancestor(ancestor, &data.id) {
            return Some(Reply::err(400, "Invalid resonate:branch tag"));
        }
    }
    if let Some(ancestor) = data.tags.get("resonate:parent") {
        if !is_ancestor(ancestor, &data.id) {
            return Some(Reply::err(400, "Invalid resonate:parent tag"));
        }
    }
    if let Some(prefix) = data.tags.get("resonate:prefix") {
        if contains_char(prefix, ':') {
            return Some(Reply::err(400, "Invalid resonate:prefix tag"));
        }
    }
    if let Some(delay) = data.tags.get(TAG_DELAY) {
        let valid = match parse_i64(delay) {
            Some(delay) => 0 <= delay && delay < data.timeout_at && data.tags.contains_key(
                TAG_TARGET,
            ),
            None => false,
        };
        if !valid {
            return Some(Reply::err(400, "Invalid resonate:delay tag"));
        }
    }
    None
}

/// The refusal of a promise to create that breaks a rule.
pub fn validate_create(data: &PromiseCreateData) -> (r: Option<Reply>)
    ensures
        refused(r) == create_refusal(data@, target_parses(data@.tags)),
{
    let target_is_url = match data.tags.get(TAG_TARGET) {
        Some(target) => is_url(target),
        None => true,
    };
    check_create(data, target_is_url)
}

/// The first rule that a callback breaks, if it breaks one.
pub open spec fn callback_refusal(awaited: Text, awaiter: Text) -> Option<ReplyView> {
    if awaited.len() == 0 || awaiter.len() == 0 {
        Some(ReplyView::Error(400, "Awaited and awaiter promise IDs are required"@))
    } else if awaited == awaiter {
        Some(ReplyView::Error(400, "Awaited and awaiter must differ"@))
    } else if origin(awaited) != origin(awaiter) {
        Some(ReplyView::Error(400, "Awaited and awaiter must share an origin"@))
    } else {
        None
    }
}

/// The refusal of a callback that breaks a rule.
pub fn validate_callback(awaited: &str, awaiter: &str) -> (r: Option<Reply>)
    ensures
        refused(r) == callback_refusal(awaited@, awaiter@),
{
    if awaited.is_empty() || awaiter.is_empty() {
        return Some(Reply::err(400, "Awaited and awaiter promise IDs are required"));
    }
    if text_eq(awaited, awaiter) {
        return Some(Reply::err(400, "Awaited and awaiter must differ"));
    }
    if !text_eq(origin_of(awaited), origin_of(awaiter)) {
        return Some(Reply::err(400, "Awaited and awaiter must share an origin"));
    }
    None
}

/// The first rule that a schedule to create breaks, if it breaks one.
/// `target_is_url` says whether its target, where it has one, is a URL.
pub open spec fn schedule_refusal(data: ScheduleCreateView, target_is_url: bool) -> Option<
    ReplyView,
> {
    if data.id.len() == 0 {
        Some(ReplyView::Error(400, "Schedule ID is required"@))
    } else if data.id.contains(':') {
        Some(ReplyView::Error(400, "Schedule ID must not contain ':'"@))
    } else if !data.promise_tags.contains_key(TAG_TARGET@) {
        Some(ReplyView::Error(400, "resonate:target tag is required"@))
    } else if !target_is_url {
        Some(ReplyView::Error(400, "Invalid resonate:target address"@))
    } else if data.promise_timeout < 0 {
        Some(ReplyView::Error(400, "Promise timeout must not be negative"@))
    } else {
        None
    }
}

/// Check a schedule to create against every rule, given whether its target,
/// where it has one, is a URL.
pub fn check_schedule(data: &ScheduleCreateData, target_is_url: bool) -> (r: Option<Reply>)
    ensures
        refused(r) == schedule_refusal(data@, target_is_url),
{
    if data.id.as_str().is_empty() {
        return Some(Reply::err(400, "Schedule ID is required"));
    }
    if contains_char(&data.id, ':') {
        return Some(Reply::err(400, "Schedule ID must not contain ':'"));
    }
    if !data.promise_tags.contains_key(TAG_TARGET) {
        return Some(Reply::err(400, "resonate:target tag is required"));
    }
    if !target_is_url {
        return Some(Reply::err(400, "Invalid resonate:target address"));
    }
    if data.promise_timeout < 0 {
        return Some(Reply::err(400, "Promise timeout must not be negative"));
    }
    None
}

/// The refusal of a schedule to create that breaks a rule.
pub fn validate_schedule(data: &ScheduleCreateData) -> (r: Option<Reply>)
    ensures
        refused(r) == schedule_refusal(data@, target_parses(data@.promise_tags)),
{
    let target_is_url = match data.promise_tags.get(TAG_TARGET) {
        Some(target) => is_url(target),
        None => true,
    };
    check_schedule(data, target_is_url)
}

} // verus!
