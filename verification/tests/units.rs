use std::time::Duration;

use resonate_sdk_taquba::calls::{Call, Fact, Facts, Lease};
use resonate_sdk_taquba::cron::{
    is_searchable, next_after, CALENDAR_END, CALENDAR_START, LAST_DAY, LAST_MONTH, LAST_WEEK,
    SECOND_DAY,
};
use resonate_sdk_taquba::data::{
    PromiseCreateData, ScheduleCreateData, TaskHeartbeatData, TaskVersionData,
};
use resonate_sdk_taquba::envelope::{
    check_request, parse_request, response, Reply, ReplyData, Request, RequestHead,
};
use resonate_sdk_taquba::error::Error;
use resonate_sdk_taquba::keys::{
    branch_entry_id, branch_key, branch_prefix, promise_key, schedule_key, task_key, Key,
    TIMER_QUEUE,
};
use resonate_sdk_taquba::network::{generated_pid, target_resolver, IdentityBuilder};
use resonate_sdk_taquba::records::{
    origin_of, PromiseRecord, PromiseState, PromiseValue, StoredTask, TaskState, PROTOCOL_VERSION,
};
use resonate_sdk_taquba::rules::{
    check_create, check_schedule, is_ancestor, validate_callback, validate_create,
};
use resonate_sdk_taquba::search::{page, search_limit, tags_match};
use resonate_sdk_taquba::store::{QueuePolicy, StoreOptions};
use resonate_sdk_taquba::tags::{IdSet, Tags};
use resonate_sdk_taquba::tasks::task_heartbeat;
use resonate_sdk_taquba::text::{is_before, starts_with};
use resonate_sdk_taquba::time::{epoch_millis, later_by, lease_of, live, non_negative};
use resonate_sdk_taquba::txn::Txn;

#[test]
fn five_field_expressions_fire_at_the_next_minute_boundary() {
    // 2024-01-01T00:00:30Z
    let after = 1_704_067_230_000;
    assert_eq!(next_after("* * * * *", after), Some(1_704_067_260_000));
    assert_eq!(next_after("0 9 * * *", after), Some(1_704_099_600_000));
    assert_eq!(next_after("not a cron", after), None);
}

#[test]
fn six_field_expressions_have_seconds() {
    assert_eq!(next_after("*/10 * * * * *", 1_704_067_230_000), Some(1_704_067_240_000));
}

const DAY: i64 = 86_400_000;
const NINE: i64 = 32_400_000;

#[test]
fn a_search_outside_the_calendar_finds_nothing() {
    for at in [i64::MIN, CALENDAR_START - 1, CALENDAR_END - 999, CALENDAR_END + 1, i64::MAX] {
        for expression in ["* * * * *", "0 9 15 * *", "0 9 * * 5L", "0 9 * * 1#5"] {
            assert!(is_searchable(expression, at));
            assert_eq!(next_after(expression, at), None);
        }
    }
}

#[test]
fn an_expression_of_every_day_is_searched_for_in_the_whole_calendar() {
    for at in [CALENDAR_START, SECOND_DAY - 1001, LAST_MONTH, LAST_DAY, CALENDAR_END - 1000] {
        assert!(is_searchable("* * * * *", at));
    }
    assert_eq!(next_after("* * * * *", CALENDAR_START), Some(CALENDAR_START + 60_000));
    assert_eq!(next_after("0 9 * * *", CALENDAR_START), Some(CALENDAR_START + NINE));
    assert_eq!(next_after("0 9 * * *", LAST_DAY), Some(LAST_DAY + NINE));
    assert_eq!(next_after("0 9 * * *", LAST_DAY + NINE), None);
    assert_eq!(next_after("* * * * * *", CALENDAR_END - 1000), Some(CALENDAR_END - 999));
}

#[test]
fn other_expressions_are_searched_for_away_from_the_ends_of_the_calendar() {
    let days = "0 9 2,25,30 * *";
    assert!(!is_searchable(days, CALENDAR_START));
    assert!(!is_searchable(days, SECOND_DAY - 1001));
    assert_eq!(next_after(days, SECOND_DAY - 1000), Some(SECOND_DAY + NINE));
    assert_eq!(next_after(days, LAST_WEEK), Some(LAST_WEEK + NINE));
    assert_eq!(next_after(days, LAST_DAY - DAY), Some(LAST_DAY - DAY + NINE));
    assert_eq!(next_after(days, LAST_DAY - 1001), None);
    assert!(!is_searchable(days, LAST_DAY - 1000));
    assert!(!is_searchable(days, CALENDAR_END - 1000));
    for last in ["0 9 * * 1L", "0 9 * * 1l"] {
        assert_eq!(next_after(last, LAST_WEEK - 1001), None);
        assert!(!is_searchable(last, LAST_WEEK - 1000));
        assert!(!is_searchable(last, LAST_DAY));
    }
    assert_eq!(next_after("0 9 * * 5#5", LAST_MONTH - 1001), None);
    assert_eq!(next_after("0 9 * * 5#5", LAST_MONTH - DAY), Some(LAST_MONTH - DAY + NINE));
    assert!(!is_searchable("0 9 * * 5#5", LAST_MONTH - 1000));
    assert!(is_searchable(days, LAST_MONTH));
}

#[test]
fn a_search_finds_the_first_firing() {
    let after = 1_704_067_230_500;
    let next = 1_704_099_600_000;
    for from in [after, after + 1, 1_704_099_540_000, 1_704_099_599_001, next - 1] {
        assert_eq!(next_after("0 9 * * *", from), Some(next));
    }
    assert_eq!(next_after("0 9 * * *", next), Some(next + 86_400_000));
}

fn decoded(version: &str, data: &str) -> Result<Request, String> {
    Ok(Request {
        kind: "promise.get".to_string(),
        head: RequestHead { corr_id: "c1".to_string(), version: Some(version.to_string()) },
        data: data.to_string(),
    })
}

#[test]
fn a_malformed_envelope_gets_a_400_with_its_kind_and_corr_id() {
    let raw = r#"{"kind":"promise.get","head":{"corrId":"c1","version":"2026-04-01"},"data":[]}"#;
    let (kind, corr_id, reply) = parse_request(raw, decoded("2026-04-01", "[]")).unwrap_err();
    assert_eq!(kind, "promise.get");
    assert_eq!(corr_id, "c1");
    assert_eq!(reply.status(), 400);
    let envelope = response(&kind, &corr_id, reply);
    assert_eq!(envelope.head.status, 400);
    assert_eq!(envelope.head.version, PROTOCOL_VERSION);
    assert!(matches!(envelope.data, ReplyData::Message(_)));
}

#[test]
fn an_unsupported_version_is_refused() {
    let raw = r#"{"kind":"promise.get","head":{"corrId":"c1","version":"2025-01-01"},"data":{}}"#;
    let (_, _, reply) = parse_request(raw, decoded("2025-01-01", "{}")).unwrap_err();
    assert_eq!(reply.status(), 400);
}

#[test]
fn an_envelope_is_parsed_or_refused_for_its_first_fault() {
    let raw = r#"{"kind":"promise.get","head":{"corrId":"c1","version":"2026-04-01"},"data":{}}"#;
    let request = parse_request(raw, decoded("2026-04-01", "{}")).unwrap();
    assert_eq!(request.kind, "promise.get");
    assert_eq!(request.head.corr_id, "c1");

    let (kind, corr_id, reply) = parse_request("{", Err("unused".to_string())).unwrap_err();
    assert_eq!((kind.as_str(), corr_id.as_str()), ("", ""));
    match reply {
        Reply::Error(400, message) => assert!(message.starts_with("Invalid request: EOF")),
        other => panic!("an error is expected: {other:?}"),
    }

    let undecoded = parse_request(r#"{"kind":"k","head":{"corrId":7}}"#, Err("e".to_string()));
    let (kind, corr_id, reply) = undecoded.unwrap_err();
    assert_eq!((kind.as_str(), corr_id.as_str()), ("k", ""));
    assert_eq!(reply, Reply::Error(400, "Invalid request: e".to_string()));

    let request = |kind: &str, version: Option<&str>| {
        Ok(Request {
            kind: kind.to_string(),
            head: RequestHead {
                corr_id: "c".to_string(),
                version: version.map(|v| v.to_string()),
            },
            data: "{}".to_string(),
        })
    };
    let refused = |r: Result<Request, (String, String, Reply)>| match r {
        Err((_, _, Reply::Error(400, message))) => message,
        other => panic!("a refusal is expected: {other:?}"),
    };
    assert_eq!(
        refused(check_request(None, None, None, request("", None), true)),
        "Request kind is required"
    );
    assert_eq!(
        refused(check_request(None, None, None, request("k", Some("1")), true)),
        "Unsupported protocol version: 1"
    );
    assert_eq!(
        refused(check_request(None, None, None, request("k", None), false)),
        "Request data must be an object"
    );
    assert!(check_request(None, None, None, request("k", None), true).is_ok());
}

#[test]
fn ancestor_check_follows_the_lineage_separators() {
    assert!(is_ancestor("root", "root"));
    assert!(is_ancestor("root", "root:0"));
    assert!(is_ancestor("root:0", "root:0.1"));
    assert!(!is_ancestor("root", "rooted:0"));
    assert!(!is_ancestor("root:0", "root:01"));
}

#[test]
fn a_page_ends_at_the_limit_and_names_its_last_id() {
    let items = vec!["a", "b", "c"];
    let (page1, next) = page(items.clone(), |s| s, None, 2);
    assert_eq!(page1, vec!["a", "b"]);
    assert_eq!(next.as_deref(), Some("b"));
    let (page2, next) = page(items, |s| s, next.as_deref(), 2);
    assert_eq!(page2, vec!["c"]);
    assert_eq!(next, None);
}

#[test]
fn a_full_last_page_has_no_cursor() {
    let (all, next) = page(vec!["a", "b"], |s| s, None, 2);
    assert_eq!(all, vec!["a", "b"]);
    assert_eq!(next, None);
    let (none, next) = page(vec!["a", "b"], |s| s, Some("b"), 0);
    assert!(none.is_empty());
    assert_eq!(next, None);
}

#[test]
fn branch_index_entries_share_the_branch_prefix() {
    let prefix = branch_prefix("root:1");
    let key = branch_key("root:1", "root:1.0");
    assert!(key.starts_with(&prefix));
    assert_eq!(branch_entry_id(&prefix, &key), Some("root:1.0"));
    assert!(!branch_key("root:10", "root:10.0").starts_with(&prefix));
}

#[test]
fn keys_are_laid_out_by_kind_and_id() {
    assert_eq!(promise_key("a"), b"resonate/p/a");
    assert_eq!(task_key("a"), b"resonate/t/a");
    assert_eq!(schedule_key("a"), b"resonate/s/a");
    assert_eq!(branch_key("b", "a"), b"resonate/b/b\0a");
    assert_eq!(Key::Branch("b".to_string(), "a".to_string()).bytes(), b"resonate/b/b\0a");
    let prefix = branch_prefix("b");
    assert_eq!(branch_entry_id(&prefix, b"resonate/b/b\0\xff"), None);
    assert_eq!(branch_entry_id(&prefix, b"resonate/b/c\0a"), None);
    assert_eq!(branch_entry_id(&prefix, "resonate/b/b\0\u{e9}".as_bytes()), Some("\u{e9}"));
}

#[test]
fn keys_are_ordered_as_their_ids() {
    let mut ids = vec!["b", "a:1", "\u{e9}", "a", "\u{10348}", "\u{ffff}", "a:0"];
    let mut keys: Vec<Vec<u8>> = ids.iter().map(|id| promise_key(id)).collect();
    ids.sort();
    keys.sort();
    let sorted: Vec<Vec<u8>> = ids.iter().map(|id| promise_key(id)).collect();
    assert_eq!(keys, sorted);
    for pair in ids.windows(2) {
        assert!(is_before(pair[0], pair[1]));
        assert!(!is_before(pair[1], pair[0]));
    }
}

#[test]
fn origin_is_the_prefix_before_the_first_colon() {
    assert_eq!(origin_of("root"), "root");
    assert_eq!(origin_of("root:0.1"), "root");
    assert_eq!(origin_of("my.app:1:x"), "my.app");
}

fn tags(entries: &[(&str, &str)]) -> Tags {
    let mut tags = Tags::new();
    for (key, value) in entries {
        tags.insert(key.to_string(), value.to_string());
    }
    tags
}

fn create(id: &str, timeout_at: i64, entries: &[(&str, &str)]) -> PromiseCreateData {
    PromiseCreateData {
        id: id.to_string(),
        timeout_at,
        param: PromiseValue::default(),
        tags: tags(entries),
    }
}

#[test]
fn a_promise_to_create_is_held_to_its_rules() {
    let url = ("resonate:target", "poll://any@g");
    let refusals: Vec<(PromiseCreateData, &str)> = vec![
        (create("", 1, &[]), "Promise ID is required"),
        (create("a\0b", 1, &[]), "Promise ID must not contain null bytes"),
        (create("a", -1, &[]), "Promise timeout must not be negative"),
        (create("a", 1, &[("resonate:target", "g")]), "Invalid resonate:target address"),
        (create("a:0", 1, &[("resonate:origin", "b")]), "Invalid resonate:origin tag"),
        (create("a:0", 1, &[("resonate:origin", "a:0")]), "Invalid resonate:origin tag"),
        (create("a:0", 1, &[("resonate:branch", "b")]), "Invalid resonate:branch tag"),
        (create("a:0", 1, &[("resonate:parent", "b")]), "Invalid resonate:parent tag"),
        (create("a", 1, &[("resonate:prefix", "a:")]), "Invalid resonate:prefix tag"),
        (create("a", 9, &[("resonate:delay", "5")]), "Invalid resonate:delay tag"),
        (create("a", 9, &[url, ("resonate:delay", "9")]), "Invalid resonate:delay tag"),
        (create("a", 9, &[url, ("resonate:delay", "-1")]), "Invalid resonate:delay tag"),
        (create("a", 9, &[url, ("resonate:delay", "5 ")]), "Invalid resonate:delay tag"),
    ];
    for (data, message) in refusals {
        assert_eq!(
            validate_create(&data),
            Some(Reply::Error(400, message.to_string())),
            "{data:?}"
        );
    }
    let accepted = vec![
        create("a", 0, &[]),
        create("a:0.1", 9, &[url, ("resonate:delay", "+5"), ("resonate:branch", "a:0")]),
        create("a:0", 9, &[("resonate:origin", "a"), ("resonate:parent", "a")]),
    ];
    for data in accepted {
        assert_eq!(validate_create(&data), None, "{data:?}");
    }
    assert_eq!(check_create(&create("a", 1, &[("resonate:target", "g")]), true), None);
    assert!(check_create(&create("a", 1, &[url]), false).is_some());
}

#[test]
fn a_schedule_is_checked_given_its_target() {
    let data = ScheduleCreateData {
        id: "s".to_string(),
        cron: "* * * * *".to_string(),
        promise_id: "p".to_string(),
        promise_timeout: 0,
        promise_param: PromiseValue::default(),
        promise_tags: tags(&[("resonate:target", "x")]),
    };
    assert_eq!(check_schedule(&data, true), None);
    assert_eq!(
        check_schedule(&data, false),
        Some(Reply::Error(400, "Invalid resonate:target address".to_string()))
    );
}

#[test]
fn callbacks_share_an_origin() {
    assert_eq!(validate_callback("a:0", "a"), None);
    assert!(validate_callback("b:0", "a").is_some());
}

#[test]
fn limits_are_within_their_range() {
    assert_eq!(search_limit(None, 10), Ok(10));
    assert_eq!(search_limit(Some(1), 10), Ok(1));
    assert_eq!(search_limit(Some(1000), 10), Ok(1000));
    assert!(search_limit(Some(0), 10).is_err());
    assert!(search_limit(Some(1001), 10).is_err());
}

#[test]
fn tags_match_a_filter_they_hold() {
    let held = tags(&[("a", "1"), ("b", "2")]);
    assert!(tags_match(&held, &None));
    assert!(tags_match(&held, &Some(tags(&[("b", "2")]))));
    assert!(!tags_match(&held, &Some(tags(&[("b", "1")]))));
    assert!(!tags_match(&held, &Some(tags(&[("c", "1")]))));
}

#[test]
fn collections_are_in_order_without_repetition() {
    let mut held = tags(&[("b", "1"), ("a", "2"), ("b", "3")]);
    held.insert("c".to_string(), "4".to_string());
    let keys: Vec<&str> = held.entries().iter().map(|(key, _)| key.as_str()).collect();
    assert_eq!(keys, vec!["a", "b", "c"]);
    assert_eq!(held.get("b"), Some("3"));
    let mut ids = IdSet::new();
    for id in ["b", "a", "b"] {
        ids.insert(id.to_string());
    }
    assert_eq!(ids.len(), 2);
    assert_eq!(ids.ids(), &vec!["a".to_string(), "b".to_string()]);
    assert!(starts_with("resonate:x", "resonate:") && !starts_with("res", "resonate"));
}

fn record(entries: &[(&str, &str)]) -> PromiseRecord {
    PromiseRecord {
        id: "p".to_string(),
        state: PromiseState::Pending,
        param: PromiseValue::default(),
        value: PromiseValue::default(),
        tags: tags(entries),
        timeout_at: 5,
        created_at: 1,
        settled_at: None,
    }
}

#[test]
fn tags_classify_a_promise() {
    let plain = record(&[]);
    assert!(plain.is_pending() && !plain.is_external() && !plain.is_timer());
    assert_eq!(plain.target(), None);
    assert_eq!(plain.timeout_state(), PromiseState::RejectedTimedout);
    let timer = record(&[("resonate:timer", "true")]);
    assert!(timer.is_timer() && timer.is_external());
    assert_eq!(timer.timeout_state(), PromiseState::Resolved);
    assert!(!record(&[("resonate:timer", "false")]).is_external());
    assert!(record(&[("resonate:scope", "global")]).is_external());
    assert!(!record(&[("resonate:scope", "local")]).is_external());
    assert!(record(&[("resonate:external", "true")]).is_external());
    let targeted = record(&[("resonate:target", "poll://any@g")]);
    assert!(targeted.is_external());
    assert_eq!(targeted.target(), Some("poll://any@g"));
}

#[test]
fn a_transition_clears_the_holder() {
    let mut task = StoredTask::new("t".to_string(), "a".to_string(), TaskState::Acquired);
    task.version = 3;
    task.pid = Some("p".to_string());
    task.ttl = Some(7);
    task.resumes.insert("x".to_string());
    assert!(task.is_acquired_at(3) && !task.is_acquired_at(2));
    let wire = task.record();
    assert_eq!((wire.version, wire.resumes, wire.ttl), (3, 1, Some(7)));
    task.transition(TaskState::Pending);
    assert_eq!((task.pid.clone(), task.ttl, task.version), (None, None, 3));
    assert!(!task.is_acquired_at(3));
}

#[test]
fn options_have_their_defaults() {
    let options = StoreOptions::default();
    assert_eq!(options.retry_timeout, Duration::from_secs(30));
    assert_eq!(options.preload_limit, 10);
    assert_eq!(options.poll_interval, Duration::from_millis(250));
    let changed = options
        .retry_timeout(Duration::from_secs(1))
        .preload_limit(3)
        .poll_interval(Duration::from_secs(2));
    assert_eq!(changed.retry_timeout, Duration::from_secs(1));
    assert_eq!(changed.preload_limit, 3);
    assert_eq!(changed.poll_interval, Duration::from_secs(2));
}

#[test]
fn queues_retry_at_once_and_without_end() {
    let options = StoreOptions::queue_options();
    let policy = QueuePolicy {
        max_attempts: u32::MAX,
        retry_backoff: Some((Duration::ZERO, Duration::ZERO)),
        keep_done_jobs: None,
    };
    assert_eq!(options.default_queue, policy);
    let timers = QueuePolicy { retry_backoff: None, ..policy };
    assert_eq!(options.queues, vec![(TIMER_QUEUE.to_string(), timers)]);
    assert_eq!(TIMER_QUEUE, "resonate/timers");
}

#[test]
fn identities_have_their_defaults() {
    let identity = IdentityBuilder::new().build(generated_pid(255, 4096, 0));
    assert_eq!(identity.pid, "ff10000");
    assert_eq!(identity.group, "default");
    assert_eq!(identity.unicast, "poll://uni@default/ff10000");
    assert_eq!(identity.anycast, "poll://any@default");
    assert_eq!(target_resolver("g"), "poll://any@g");
    assert_ne!(generated_pid(1, 2, 3), generated_pid(1, 2, 4));
}

#[test]
fn failures_are_replied_with_a_500() {
    let storage = Error::Storage("down".to_string());
    assert_eq!(storage.reply(), Reply::Error(500, "storage error: down".to_string()));
    let decode = Error::Decode("bad".to_string());
    assert_eq!(decode.message(), "stored record does not decode: bad");
}

#[test]
fn times_stay_within_their_range() {
    assert_eq!(later_by(i64::MAX, 1), i64::MAX);
    assert_eq!(later_by(i64::MIN, -1), i64::MIN);
    assert_eq!(later_by(5, -7), -2);
    assert_eq!(non_negative(-3), 0);
    assert_eq!(epoch_millis(u64::MAX), i64::MAX);
    assert_eq!(lease_of(-1), Duration::ZERO);
    assert_eq!(lease_of(1_500), Duration::from_millis(1_500));
    assert!(live(Some(11), 10) && !live(Some(10), 10) && !live(None, 10));
}

#[test]
fn a_request_stops_at_the_call_it_needs() {
    let mut task = StoredTask::new("t".to_string(), "a".to_string(), TaskState::Acquired);
    task.version = 1;
    task.pid = Some("p".to_string());
    task.ttl = Some(2_000);
    let data = TaskHeartbeatData {
        pid: "p".to_string(),
        tasks: vec![TaskVersionData { id: "t".to_string(), version: 1 }],
    };
    let mut facts = Facts::new();
    let next = |facts: &Facts| task_heartbeat(&mut Txn::new(facts, 10, 100), &data);
    assert_eq!(next(&facts), Err(Call::Task("t".to_string())));
    facts.learn(Fact::Task("t".to_string(), Some(task)));
    assert_eq!(next(&facts), Err(Call::Lease("t".to_string(), 0)));
    facts.learn(Fact::Lease(0, Lease::Held(Some(101))));
    let renew = Call::Renew("t".to_string(), Duration::from_secs(2), 1);
    assert_eq!(next(&facts), Err(renew));
    facts.learn(Fact::Renewed(1, false));
    assert_eq!(next(&facts), Err(Call::Drop("t".to_string(), 2)));
    facts.learn(Fact::Dropped(2));
    assert!(next(&facts).is_ok());
}
