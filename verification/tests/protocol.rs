//! The protocol over a queue in memory under a clock that the test moves: lease
//! expiry, retry, promise deadlines and schedule firing.

use std::time::Duration;

use resonate_sdk_taquba::calls::{Call, Fact, Facts, Lease};
use resonate_sdk_taquba::commit::{finish, Action as Settle, Effects, Settlement};
use resonate_sdk_taquba::cron::{CALENDAR_END, LAST_DAY};
use resonate_sdk_taquba::data::{
    Action, CallbackData, FenceData, IdData, ListenerData, PromiseCreateData, PromiseSearchData,
    PromiseSettleData, ScheduleCreateData, ScheduleSearchData, TaskAcquireData, TaskCreateData,
    TaskFenceData, TaskFulfillData, TaskHeartbeatData, TaskSearchData, TaskSuspendData,
    TaskVersionData,
};
use resonate_sdk_taquba::envelope::{ActionData, Reply, ReplyData};
use resonate_sdk_taquba::kernel::{
    deliver, handle, handle_in_calendar, Delivery, Message, OperationData,
};
use resonate_sdk_taquba::keys::{Key, TIMER_QUEUE};
use resonate_sdk_taquba::network::{target_resolver, IdentityBuilder};
use resonate_sdk_taquba::outcome::Outcome;
use resonate_sdk_taquba::records::{
    PromiseRecord, PromiseState, PromiseValue, ScheduleRecord, SettleState, StoredPromise,
    StoredTask, TaskRecord, TaskState,
};
use resonate_sdk_taquba::schedules::create_schedule;
use resonate_sdk_taquba::tags::Tags;
use resonate_sdk_taquba::timers::{fire_in_calendar, Timer};
use resonate_sdk_taquba::txn::{After, Payload, Row, Txn};

const T0: i64 = 1_700_000_000_000;
const RETRY: u64 = 5_000;

struct Job {
    id: String,
    queue: String,
    payload: Payload,
    run_at: u64,
    lease: Option<u64>,
}

/// The queue: its records, its jobs and the claims held for tasks.
struct Sim {
    now: i64,
    preload_limit: usize,
    promises: Vec<StoredPromise>,
    tasks: Vec<StoredTask>,
    schedules: Vec<ScheduleRecord>,
    index: Vec<Vec<u8>>,
    jobs: Vec<Job>,
    held: Vec<(String, String)>,
    drawn: u64,
    calls: usize,
}

fn sim() -> Sim {
    Sim {
        now: T0,
        preload_limit: 10,
        promises: Vec::new(),
        tasks: Vec::new(),
        schedules: Vec::new(),
        index: Vec::new(),
        jobs: Vec::new(),
        held: Vec::new(),
        drawn: 0,
        calls: 0,
    }
}

impl Sim {
    /// Close the queue and open it again: what was committed is still there, the
    /// claims that were held are not, and their jobs are requeued.
    fn reopen(self) -> Sim {
        let jobs = self.jobs.into_iter().map(|job| Job { lease: None, ..job }).collect();
        Sim {
            now: self.now,
            preload_limit: self.preload_limit,
            promises: self.promises,
            tasks: self.tasks,
            schedules: self.schedules,
            index: self.index,
            jobs,
            drawn: self.drawn,
            ..sim()
        }
    }

    fn claim_of(&self, task: &str) -> Option<usize> {
        let job = &self.held.iter().find(|(held, _)| held == task)?.1;
        self.jobs.iter().position(|j| &j.id == job)
    }

    fn drop_held(&mut self, task: &str) {
        self.held.retain(|(held, _)| held != task);
    }

    fn claim(&mut self, job: &str, task: &str, lease: Duration) -> bool {
        let until = self.now as u64 + lease.as_millis() as u64;
        match self.jobs.iter_mut().find(|j| j.id == job && j.lease.is_none()) {
            Some(found) => {
                found.lease = Some(until);
                self.held.push((task.to_string(), job.to_string()));
                true
            }
            None => false,
        }
    }

    fn perform(&mut self, call: Call) -> Fact {
        self.calls += 1;
        match call {
            Call::Promise(id) => {
                let row = self.promises.iter().find(|p| p.record.id == id).cloned();
                Fact::Promise(id, row)
            }
            Call::Task(id) => {
                let row = self.tasks.iter().find(|t| t.id == id).cloned();
                Fact::Task(id, row)
            }
            Call::Schedule(id) => {
                let row = self.schedules.iter().find(|s| s.id == id).cloned();
                Fact::Schedule(id, row)
            }
            Call::Branch(prefix, count) => {
                let keys: Vec<Vec<u8>> = self
                    .index
                    .iter()
                    .filter(|key| key.starts_with(&prefix))
                    .take(count)
                    .cloned()
                    .collect();
                Fact::Branch(prefix, count, keys)
            }
            Call::Promises => Fact::Promises(self.promises.clone()),
            Call::Tasks => Fact::Tasks(self.tasks.clone()),
            Call::Schedules => Fact::Schedules(self.schedules.clone()),
            Call::Job(id) => {
                let exists = self.jobs.iter().any(|j| j.id == id);
                Fact::Job(id, exists)
            }
            Call::JobId(n) => {
                self.drawn += 1;
                Fact::JobId(n, format!("job-{}", self.drawn))
            }
            Call::Lease(task, turn) => {
                let held = self.held.iter().any(|(held, _)| *held == task);
                let lease = if held {
                    Lease::Held(self.claim_of(&task).and_then(|i| self.jobs[i].lease))
                } else {
                    Lease::NotHeld
                };
                Fact::Lease(turn, lease)
            }
            Call::Renew(task, lease, turn) => {
                let until = self.now as u64 + lease.as_millis() as u64;
                let renewed = match self.claim_of(&task) {
                    Some(i) => {
                        self.jobs[i].lease = Some(until);
                        true
                    }
                    None => false,
                };
                Fact::Renewed(turn, renewed)
            }
            Call::Claim(task, job, lease, turn) => {
                Fact::Claimed(turn, self.claim(&job, &task, lease))
            }
            Call::Drop(task, turn) => {
                self.drop_held(&task);
                Fact::Dropped(turn)
            }
        }
    }

    fn apply(&mut self, effects: Effects) {
        for (key, row) in effects.puts {
            match row {
                Row::Promise(row) => {
                    self.promises.retain(|p| p.record.id != row.record.id);
                    self.promises.push(row);
                    self.promises.sort_by(|a, b| a.record.id.cmp(&b.record.id));
                }
                Row::Task(row) => {
                    self.tasks.retain(|t| t.id != row.id);
                    self.tasks.push(row);
                    self.tasks.sort_by(|a, b| a.id.cmp(&b.id));
                }
                Row::Schedule(row) => {
                    self.schedules.retain(|s| s.id != row.id);
                    self.schedules.push(row);
                    self.schedules.sort_by(|a, b| a.id.cmp(&b.id));
                }
                Row::Index => {
                    let bytes = key.bytes();
                    if !self.index.contains(&bytes) {
                        self.index.push(bytes);
                        self.index.sort();
                    }
                }
            }
        }
        for key in effects.deletes {
            if let Key::Schedule(id) = key {
                self.schedules.retain(|s| s.id != id);
            }
        }
        for job in effects.enqueues {
            self.drawn += 1;
            let id = job.job.unwrap_or(format!("job-{}", self.drawn));
            self.jobs.push(Job {
                id,
                queue: job.queue,
                payload: job.payload,
                run_at: job.run_at.unwrap_or(0),
                lease: None,
            });
        }
    }

    fn follow(&mut self, after: Vec<After>, delivered: Option<&str>) {
        for work in after {
            let held = match work.claimant() {
                Some(task) => self.held.iter().any(|(held, _)| held == task),
                None => false,
            };
            match finish(work, held) {
                Settle::AckDelivered => {
                    let job = delivered.unwrap().to_string();
                    self.jobs.retain(|j| j.id != job);
                }
                Settle::HoldDelivered(task) => {
                    self.drop_held(&task);
                    self.held.push((task, delivered.unwrap().to_string()));
                }
                Settle::AckHeld(task) => {
                    if let Some(i) = self.claim_of(&task) {
                        self.jobs.remove(i);
                    }
                    self.drop_held(&task);
                }
                Settle::NackHeld(task) => {
                    if let Some(i) = self.claim_of(&task) {
                        self.jobs[i].lease = None;
                    }
                    self.drop_held(&task);
                }
                Settle::Claim(task, job, lease) => {
                    self.claim(&job, &task, lease);
                }
                Settle::Nothing => {}
            }
        }
    }

    fn send(&mut self, kind: &str, data: Result<OperationData, String>) -> Reply {
        let mut facts = Facts::new();
        loop {
            let (end, call) = {
                let mut txn = Txn::new(&facts, self.preload_limit, self.now);
                let handled = handle_in_calendar(&mut txn, kind, "c", &data);
                match handled.map(|outcome| outcome.unwrap()) {
                    Ok(Outcome::Reply(reply)) => return reply,
                    Ok(Outcome::Commit(reply)) => (Some((reply, txn.commit(), None)), None),
                    Ok(Outcome::Settle(reply, task)) => {
                        let (effects, after) = txn.commit_ack();
                        let commit = resonate_sdk_taquba::commit::Commit {
                            effects: Some(effects),
                            after,
                        };
                        (Some((reply, commit, Some(task))), None)
                    }
                    Ok(Outcome::Orphan(task)) => panic!("the task {task} has no promise"),
                    Err(call) => (None, Some(call)),
                }
            };
            if let Some((reply, commit, settled)) = end {
                if let Some(effects) = commit.effects {
                    self.apply(effects);
                }
                if let Some(task) = settled {
                    let job = self.claim_of(&task).unwrap();
                    self.jobs.remove(job);
                    self.drop_held(&task);
                }
                self.follow(commit.after, None);
                return reply;
            }
            let fact = self.perform(call.unwrap());
            facts.learn(fact);
        }
    }

    fn perform_operation(&mut self, kind: &str, data: OperationData) -> Reply {
        self.send(kind, Ok(data))
    }

    /// Requeue every job whose lease ended and fire every timer that is due.
    fn advance(&mut self, by: i64) {
        self.now += by;
        self.tick();
    }

    fn tick(&mut self) {
        let now = self.now as u64;
        for job in self.jobs.iter_mut() {
            if job.lease.is_some_and(|until| until <= now) {
                job.lease = None;
            }
        }
        loop {
            let due = self
                .jobs
                .iter()
                .position(|j| j.queue == TIMER_QUEUE && j.run_at <= now);
            let Some(i) = due else { return };
            let job = self.jobs.remove(i);
            let Payload::Timer(timer) = job.payload else { unreachable!() };
            self.fire(timer);
        }
    }

    fn fire(&mut self, timer: Timer) -> bool {
        let mut facts = Facts::new();
        loop {
            let (end, call) = {
                let mut txn = Txn::new(&facts, self.preload_limit, self.now);
                match fire_in_calendar(&mut txn, &timer).map(|acted| acted.unwrap()) {
                    Ok(acted) => (Some((acted, txn.commit())), None),
                    Err(call) => (None, Some(call)),
                }
            };
            if let Some((acted, commit)) = end {
                if acted {
                    if let Some(effects) = commit.effects {
                        self.apply(effects);
                    }
                    self.follow(commit.after, None);
                }
                return acted;
            }
            let fact = self.perform(call.unwrap());
            facts.learn(fact);
        }
    }

    /// Claim the next job of `address` and deliver it.
    fn message(&mut self, address: &str) -> Option<Message> {
        let now = self.now as u64;
        loop {
            let i = self
                .jobs
                .iter()
                .position(|j| j.queue == address && j.lease.is_none() && j.run_at <= now)?;
            self.jobs[i].lease = Some(now + RETRY);
            let job = self.jobs[i].id.clone();
            let delivery = match &self.jobs[i].payload {
                Payload::Execute(task) => Delivery::Execute(task.clone()),
                Payload::Unblock(promise) => Delivery::Unblock(promise.id.clone()),
                Payload::Timer(_) => unreachable!(),
            };
            let mut facts = Facts::new();
            loop {
                let (end, call) = {
                    let mut txn = Txn::new(&facts, self.preload_limit, self.now);
                    match deliver(&mut txn, &delivery) {
                        Ok(message) => (Some((message, txn.commit())), None),
                        Err(call) => (None, Some(call)),
                    }
                };
                if let Some((message, commit)) = end {
                    if let Some(effects) = commit.effects {
                        self.apply(effects);
                    }
                    self.follow(commit.after, Some(&job));
                    if message.is_some() {
                        return message;
                    }
                    break;
                }
                let fact = self.perform(call.unwrap());
                facts.learn(fact);
            }
        }
    }

    fn execute(&mut self, address: &str) -> (String, i64) {
        match self.message(address) {
            Some(Message::Execute(task, version)) => (task, version),
            other => panic!("an execute message is expected: {other:?}"),
        }
    }
}

fn tags(entries: &[(&str, &str)]) -> Tags {
    let mut tags = Tags::new();
    for (key, value) in entries {
        tags.insert(key.to_string(), value.to_string());
    }
    tags
}

fn value(data: &str) -> PromiseValue {
    PromiseValue { headers: None, data: Some(data.to_string()) }
}

fn create(id: &str, timeout_at: i64, entries: &[(&str, &str)]) -> PromiseCreateData {
    PromiseCreateData {
        id: id.to_string(),
        timeout_at,
        param: PromiseValue::default(),
        tags: tags(entries),
    }
}

fn targeted(id: &str, target: &str, timeout_at: i64) -> PromiseCreateData {
    PromiseCreateData {
        param: value(""),
        ..create(
            id,
            timeout_at,
            &[
                ("resonate:target", target),
                ("resonate:scope", "global"),
                ("resonate:branch", id),
            ],
        )
    }
}

fn create_promise(sim: &mut Sim, data: PromiseCreateData) -> Reply {
    sim.perform_operation("promise.create", OperationData::PromiseCreate(data))
}

fn get_promise(sim: &mut Sim, id: &str) -> PromiseRecord {
    promise(sim.perform_operation("promise.get", OperationData::PromiseGet(by_id(id))))
}

fn get_task(sim: &mut Sim, id: &str) -> TaskRecord {
    match sim.perform_operation("task.get", OperationData::TaskGet(by_id(id))) {
        Reply::Data(200, ReplyData::Task(task)) => task,
        other => panic!("a task is expected: {other:?}"),
    }
}

fn by_id(id: &str) -> IdData {
    IdData { id: id.to_string() }
}

fn acquire(sim: &mut Sim, id: &str, version: i64, pid: &str, ttl: i64) -> Reply {
    let data = TaskAcquireData { id: id.to_string(), version, pid: pid.to_string(), ttl };
    sim.perform_operation("task.acquire", OperationData::TaskAcquire(data))
}

fn settle_data(id: &str, state: SettleState, data: &str) -> PromiseSettleData {
    PromiseSettleData { id: id.to_string(), state, value: value(data) }
}

fn settle(sim: &mut Sim, id: &str, state: SettleState, data: &str) -> Reply {
    let data = settle_data(id, state, data);
    sim.perform_operation("promise.settle", OperationData::PromiseSettle(data))
}

fn fulfil(sim: &mut Sim, id: &str, version: i64) -> Reply {
    let data = TaskFulfillData {
        id: id.to_string(),
        version,
        action: Action {
            kind: "promise.settle".to_string(),
            data: settle_data(id, SettleState::Resolved, ""),
        },
    };
    sim.perform_operation("task.fulfill", OperationData::TaskFulfill(data))
}

fn suspend(sim: &mut Sim, id: &str, version: i64, awaited: &[&str]) -> Reply {
    let actions = awaited
        .iter()
        .map(|awaited| Action {
            kind: "promise.register_callback".to_string(),
            data: CallbackData { awaited: awaited.to_string(), awaiter: id.to_string() },
        })
        .collect();
    let data = TaskSuspendData { id: id.to_string(), version, actions };
    sim.perform_operation("task.suspend", OperationData::TaskSuspend(data))
}

fn fence_create(sim: &mut Sim, id: &str, version: i64, create: PromiseCreateData) -> Reply {
    let data = FenceData {
        raw: format!("{{\"id\":\"{}\"}}", create.id),
        create: Ok(create),
        settle: Err("no settlement".to_string()),
    };
    fence(sim, id, version, "promise.create", data)
}

fn fence(sim: &mut Sim, id: &str, version: i64, kind: &str, data: FenceData) -> Reply {
    let data = TaskFenceData {
        id: id.to_string(),
        version,
        action: Action { kind: kind.to_string(), data },
    };
    sim.perform_operation("task.fence", OperationData::TaskFence(data))
}

fn promise(reply: Reply) -> PromiseRecord {
    match reply {
        Reply::Data(200, ReplyData::Promise(promise)) => promise,
        other => panic!("a promise is expected: {other:?}"),
    }
}

fn work(reply: Reply) -> (TaskRecord, PromiseRecord, Vec<PromiseRecord>) {
    match reply {
        Reply::Data(200, ReplyData::Work(task, promise, preload)) => (task, promise, preload),
        other => panic!("a task is expected: {other:?}"),
    }
}

fn error(reply: Reply) -> (u16, String) {
    match reply {
        Reply::Error(status, message) => (status, message),
        other => panic!("an error is expected: {other:?}"),
    }
}

fn far() -> i64 {
    T0 + 3_600_000
}

fn anycast() -> String {
    target_resolver("g")
}

#[test]
fn anycast_equals_the_resolved_group_target() {
    let identity = IdentityBuilder::new()
        .group("g".to_string())
        .pid("p".to_string())
        .build("generated".to_string());
    assert_eq!(identity.anycast, target_resolver("g"));
    assert_eq!(identity.unicast, "poll://uni@g/p");
}

#[test]
fn execute_is_sent_again_when_a_lease_expires() {
    let mut sim = sim();
    let target = anycast();
    let created = create_promise(&mut sim, targeted("root", &target, far()));
    assert_eq!(created.status(), 200);
    assert_eq!(sim.execute(&target), ("root".to_string(), 0));

    let (task, _, _) = work(acquire(&mut sim, "root", 0, "p", 1_000));
    assert_eq!(task.version, 1);
    assert_eq!(task.state, TaskState::Acquired);

    sim.advance(999);
    assert_eq!(sim.message(&target), None);
    sim.advance(2);
    assert_eq!(sim.execute(&target), ("root".to_string(), 1));

    let stale = acquire(&mut sim, "root", 0, "p", 1_000);
    assert_eq!(stale.status(), 409);
    let (task, _, _) = work(acquire(&mut sim, "root", 1, "p", 1_000));
    assert_eq!(task.version, 2);
}

#[test]
fn a_fulfil_after_a_lost_lease_is_refused_and_settles_nothing() {
    let mut sim = sim();
    let target = anycast();
    create_promise(&mut sim, targeted("root", &target, far()));
    sim.execute(&target);
    acquire(&mut sim, "root", 0, "p", 1_000);
    sim.now += 1_001;

    let refused = fulfil(&mut sim, "root", 1);
    assert_eq!(refused.status(), 409);
    assert_eq!(get_promise(&mut sim, "root").state, PromiseState::Pending);
    assert_eq!(get_task(&mut sim, "root").state, TaskState::Acquired);
}

#[test]
fn a_heartbeat_moves_the_lease_deadline() {
    let mut sim = sim();
    let target = anycast();
    create_promise(&mut sim, targeted("root", &target, far()));
    sim.execute(&target);
    acquire(&mut sim, "root", 0, "p", 1_000);

    sim.advance(600);
    let data = TaskHeartbeatData {
        pid: "p".to_string(),
        tasks: vec![TaskVersionData { id: "root".to_string(), version: 1 }],
    };
    let beat = sim.perform_operation("task.heartbeat", OperationData::TaskHeartbeat(data));
    assert_eq!(beat.status(), 200);
    sim.advance(600);
    assert_eq!(sim.message(&target), None);
    sim.advance(500);
    assert_eq!(sim.execute(&target), ("root".to_string(), 1));
}

#[test]
fn a_heartbeat_of_another_worker_renews_nothing() {
    let mut sim = sim();
    let target = anycast();
    create_promise(&mut sim, targeted("root", &target, far()));
    sim.execute(&target);
    acquire(&mut sim, "root", 0, "p", 1_000);
    for (pid, version) in [("q", 1), ("p", 0)] {
        let data = TaskHeartbeatData {
            pid: pid.to_string(),
            tasks: vec![
                TaskVersionData { id: "root".to_string(), version },
                TaskVersionData { id: "missing".to_string(), version },
            ],
        };
        sim.now += 100;
        sim.perform_operation("task.heartbeat", OperationData::TaskHeartbeat(data));
    }
    assert_eq!(sim.jobs[0].lease, Some(T0 as u64 + 1_000));
}

#[test]
fn an_unacquired_execute_is_sent_again_after_the_retry_timeout() {
    let mut sim = sim();
    let target = anycast();
    create_promise(&mut sim, targeted("root", &target, far()));
    assert_eq!(sim.execute(&target), ("root".to_string(), 0));
    sim.advance(RETRY as i64 - 1);
    assert_eq!(sim.message(&target), None);
    sim.advance(2);
    assert_eq!(sim.execute(&target), ("root".to_string(), 0));
}

#[test]
fn a_deadline_settles_the_awaited_promises_and_wakes_the_awaiter() {
    let mut sim = sim();
    let target = anycast();
    let data = TaskCreateData {
        pid: "p".to_string(),
        ttl: 60_000,
        action: Action {
            kind: "promise.create".to_string(),
            data: targeted("root", &target, far()),
        },
    };
    let (task, _, _) = work(sim.perform_operation("task.create", OperationData::TaskCreate(data)));
    assert_eq!(task.state, TaskState::Acquired);
    let version = task.version;

    let deadline = T0 + 1_000;
    for (id, timer) in [("root:0", "true"), ("root:1", "false")] {
        let child = create(
            id,
            deadline,
            &[
                ("resonate:scope", "global"),
                ("resonate:branch", "root"),
                ("resonate:timer", timer),
                ("resonate:target", &target),
            ],
        );
        match fence_create(&mut sim, "root", version, child) {
            Reply::Data(200, ReplyData::Action(kind, head, ActionData::Promise(made), _)) => {
                assert_eq!(kind, "promise.create");
                assert_eq!(head.status, 200);
                assert_eq!(head.corr_id, "c");
                assert_eq!(head.version, "2026-04-01");
                assert_eq!(made.id, id);
            }
            other => panic!("an action is expected: {other:?}"),
        }
        assert_eq!(sim.execute(&target), (id.to_string(), 0));
    }
    let suspended = suspend(&mut sim, "root", version, &["root:0", "root:1"]);
    assert_eq!(suspended, Reply::Data(200, ReplyData::Empty));
    assert_eq!(get_task(&mut sim, "root").state, TaskState::Suspended);

    sim.advance(1_001);
    assert_eq!(sim.execute(&target), ("root".to_string(), version));
    assert_eq!(sim.message(&target), None);
    assert_eq!(get_task(&mut sim, "root").resumes, 2);

    let (_, own, preload) = work(acquire(&mut sim, "root", version, "p", 60_000));
    assert_eq!(own.state, PromiseState::Pending);
    assert_eq!(preload.len(), 2);
    assert_eq!(preload[0].id, "root:0");
    assert_eq!(preload[0].state, PromiseState::Resolved);
    assert_eq!(preload[0].settled_at, Some(deadline));
    assert_eq!(preload[1].id, "root:1");
    assert_eq!(preload[1].state, PromiseState::RejectedTimedout);
    assert_eq!(preload[1].settled_at, Some(deadline));
    assert_eq!(get_task(&mut sim, "root").resumes, 0);
}

#[test]
fn a_suspended_task_stays_registered_until_a_settlement_wakes_it() {
    let mut sim = sim();
    let target = anycast();
    create_promise(&mut sim, targeted("root", &target, far()));
    for id in ["root:0", "root:1"] {
        create_promise(&mut sim, create(id, far(), &[("resonate:external", "true")]));
    }
    let registered = |sim: &Sim| -> Vec<String> {
        let waits = |p: &&StoredPromise| {
            p.record.state == PromiseState::Pending && p.callbacks.iter().any(|id| id == "root")
        };
        sim.promises.iter().filter(waits).map(|p| p.record.id.clone()).collect()
    };
    assert_eq!(sim.execute(&target), ("root".to_string(), 0));
    work(acquire(&mut sim, "root", 0, "p", 60_000));
    assert_eq!(
        suspend(&mut sim, "root", 1, &["root:0", "root:1"]),
        Reply::Data(200, ReplyData::Empty)
    );
    assert_eq!(registered(&sim), vec!["root:0", "root:1"]);
    assert_eq!(get_task(&mut sim, "root").state, TaskState::Suspended);

    create_promise(&mut sim, create("other", far(), &[]));
    settle(&mut sim, "other", SettleState::Resolved, "");
    listen(&mut sim, "root:1", "poll://uni@g/p");
    assert_eq!(registered(&sim), vec!["root:0", "root:1"]);
    assert_eq!(get_task(&mut sim, "root").state, TaskState::Suspended);

    settle(&mut sim, "root:0", SettleState::Rejected, "");
    assert_eq!(registered(&sim), vec!["root:1"]);
    let task = get_task(&mut sim, "root");
    assert_eq!((task.state, task.version, task.resumes), (TaskState::Pending, 1, 1));
    assert_eq!(sim.execute(&target), ("root".to_string(), 1));
}

#[test]
fn a_task_with_work_has_a_job() {
    let mut sim = sim();
    let target = anycast();
    let check = |sim: &Sim, expected: TaskState| {
        let task = sim.tasks.iter().find(|t| t.id == "root").unwrap();
        assert_eq!(task.state, expected);
        let job = task.job.as_ref().unwrap();
        let alive = sim.jobs.iter().any(|j| &j.id == job && j.queue == task.target);
        let works = matches!(expected, TaskState::Pending | TaskState::Acquired);
        assert_eq!(alive, works, "{expected:?}");
    };
    create_promise(&mut sim, targeted("root", &target, far()));
    create_promise(&mut sim, create("root:0", far(), &[("resonate:external", "true")]));
    check(&sim, TaskState::Pending);
    assert_eq!(sim.execute(&target), ("root".to_string(), 0));
    check(&sim, TaskState::Pending);
    work(acquire(&mut sim, "root", 0, "p", 60_000));
    check(&sim, TaskState::Acquired);
    suspend(&mut sim, "root", 1, &["root:0"]);
    check(&sim, TaskState::Suspended);
    settle(&mut sim, "root:0", SettleState::Resolved, "");
    check(&sim, TaskState::Pending);
    assert_eq!(sim.execute(&target), ("root".to_string(), 1));
    sim.perform_operation("task.halt", OperationData::TaskHalt(by_id("root")));
    check(&sim, TaskState::Halted);
    sim.perform_operation("task.continue", OperationData::TaskContinue(by_id("root")));
    check(&sim, TaskState::Pending);
    assert_eq!(sim.execute(&target), ("root".to_string(), 1));
    work(acquire(&mut sim, "root", 1, "p", 60_000));
    check(&sim, TaskState::Acquired);
    promise(fulfil(&mut sim, "root", 2));
    check(&sim, TaskState::Fulfilled);
}

#[test]
fn a_request_naming_an_expired_promise_settles_it_first() {
    let mut sim = sim();
    let deadline = T0 + 100;
    create_promise(&mut sim, create("local", deadline, &[("resonate:scope", "local")]));
    assert!(sim.jobs.is_empty());
    sim.now += 101;
    let got = get_promise(&mut sim, "local");
    assert_eq!(got.state, PromiseState::RejectedTimedout);
    assert_eq!(got.settled_at, Some(deadline));
}

fn listen(sim: &mut Sim, awaited: &str, address: &str) -> Reply {
    let data = ListenerData { awaited: awaited.to_string(), address: address.to_string() };
    sim.perform_operation(
        "promise.register_listener",
        OperationData::PromiseRegisterListener(data),
    )
}

#[test]
fn a_settlement_unblocks_every_listener_once() {
    let mut sim = sim();
    create_promise(&mut sim, create("p", far(), &[("resonate:scope", "global")]));
    let address = "poll://uni@g/p";
    for _ in 0..2 {
        assert_eq!(listen(&mut sim, "p", address).status(), 200);
    }
    let settled = promise(settle(&mut sim, "p", SettleState::Resolved, "eyJ2IjoxfQ=="));
    assert_eq!(settled.state, PromiseState::Resolved);
    match sim.jobs.iter().find(|j| j.queue == address).map(|j| &j.payload) {
        Some(Payload::Unblock(promise)) => {
            assert_eq!(promise.id, "p");
            assert_eq!(promise.value.data.as_deref(), Some("eyJ2IjoxfQ=="));
        }
        other => panic!("an unblock message is expected: {other:?}"),
    }
    assert_eq!(sim.message(address), Some(Message::Unblock("p".to_string())));
    assert_eq!(sim.message(address), None);
}

#[test]
fn a_schedule_fires_and_creates_a_targeted_promise() {
    let mut sim = sim();
    let target = anycast();
    let data = ScheduleCreateData {
        id: "tick".to_string(),
        cron: "* * * * *".to_string(),
        promise_id: "{{.id}}-{{.timestamp}}".to_string(),
        promise_timeout: 60_000,
        promise_param: value(""),
        promise_tags: tags(&[("resonate:target", &target)]),
    };
    let first = T0 + 40_000;
    match sim.perform_operation("schedule.create", OperationData::ScheduleCreate(data)) {
        Reply::Data(200, ReplyData::Schedule(schedule)) => {
            assert_eq!(schedule.next_run_at, first);
            assert_eq!(schedule.created_at, T0);
        }
        other => panic!("a schedule is expected: {other:?}"),
    }

    sim.advance(39_999);
    assert_eq!(sim.message(&target), None);
    sim.advance(1);
    let (id, version) = sim.execute(&target);
    assert_eq!(id, format!("tick-{first}"));
    assert_eq!(version, 0);

    let made = get_promise(&mut sim, &id);
    assert_eq!(made.created_at, first);
    assert_eq!(made.timeout_at, first + 60_000);
    assert_eq!(made.tags.get("resonate:schedule"), Some("tick"));
    assert_eq!(made.tags.get("resonate:origin"), Some(id.as_str()));
    let got = sim.perform_operation("schedule.get", OperationData::ScheduleGet(by_id("tick")));
    match got {
        Reply::Data(200, ReplyData::Schedule(schedule)) => {
            assert_eq!(schedule.last_run_at, Some(first));
            assert_eq!(schedule.next_run_at, first + 60_000);
        }
        other => panic!("a schedule is expected: {other:?}"),
    }
    assert!(!sim.fire(Timer::Schedule("tick".to_string(), first)));
}

#[test]
fn undelivered_messages_and_timers_survive_a_reopen() {
    let mut sim = sim();
    let target = anycast();
    create_promise(&mut sim, targeted("root", &target, far()));
    let mut sim = sim.reopen();
    assert_eq!(sim.execute(&target), ("root".to_string(), 0));
    sim.advance(RETRY as i64 + 1);
    assert_eq!(sim.execute(&target), ("root".to_string(), 0));
    sim.advance(far() - sim.now);
    assert_eq!(sim.promises[0].record.state, PromiseState::RejectedTimedout);
}

#[test]
fn a_claim_does_not_survive_a_reopen() {
    let mut sim = sim();
    let target = anycast();
    create_promise(&mut sim, targeted("root", &target, far()));
    assert_eq!(sim.execute(&target), ("root".to_string(), 0));
    assert_eq!(acquire(&mut sim, "root", 0, "p", 60_000).status(), 200);
    let mut sim = sim.reopen();
    assert_eq!(
        error(fulfil(&mut sim, "root", 1)),
        (409, "Task version mismatch or invalid state".to_string())
    );
    assert_eq!(sim.execute(&target), ("root".to_string(), 1));
    let (task, _, _) = work(acquire(&mut sim, "root", 1, "p", 60_000));
    assert_eq!(task.version, 2);
    assert_eq!(promise(fulfil(&mut sim, "root", 2)).state, PromiseState::Resolved);
}

#[test]
fn a_release_returns_the_task_to_pending_and_delivers_it_again() {
    let mut sim = sim();
    let target = anycast();
    create_promise(&mut sim, targeted("root", &target, far()));
    assert_eq!(sim.execute(&target), ("root".to_string(), 0));
    acquire(&mut sim, "root", 0, "p", 60_000);
    let data = TaskVersionData { id: "root".to_string(), version: 1 };
    let released = sim.perform_operation("task.release", OperationData::TaskRelease(data));
    assert_eq!(released.status(), 200);
    assert_eq!(sim.execute(&target), ("root".to_string(), 1));
    let (task, _, _) = work(acquire(&mut sim, "root", 1, "p", 60_000));
    assert_eq!(task.version, 2);
}

#[test]
fn a_promise_is_created_once() {
    let mut sim = sim();
    let target = anycast();
    let first = promise(create_promise(&mut sim, targeted("root", &target, far())));
    sim.now += 10;
    let second = promise(create_promise(&mut sim, create("root", far() + 1, &[])));
    assert_eq!(first, second);
    assert_eq!(sim.jobs.iter().filter(|j| j.queue == target).count(), 1);
}

#[test]
fn a_promise_past_its_deadline_is_created_settled() {
    let mut sim = sim();
    let target = anycast();
    let made = promise(create_promise(&mut sim, targeted("late", &target, T0 - 5)));
    assert_eq!(made.state, PromiseState::RejectedTimedout);
    assert_eq!(made.created_at, T0 - 5);
    assert_eq!(made.settled_at, Some(T0 - 5));
    assert_eq!(get_task(&mut sim, "late").state, TaskState::Fulfilled);
    assert!(sim.jobs.is_empty());
    let timer = create("timer", T0, &[("resonate:timer", "true")]);
    assert_eq!(promise(create_promise(&mut sim, timer)).state, PromiseState::Resolved);
}

#[test]
fn a_delayed_task_is_dispatched_at_its_time() {
    let mut sim = sim();
    let target = anycast();
    let at = T0 + 700;
    let delayed = create(
        "later",
        far(),
        &[("resonate:target", &target), ("resonate:delay", &at.to_string())],
    );
    create_promise(&mut sim, delayed);
    assert_eq!(sim.jobs[0].run_at, at as u64);
    let timer = sim.jobs.iter().find(|j| j.queue == TIMER_QUEUE).unwrap();
    assert_eq!(timer.run_at, far() as u64);
    assert_eq!(sim.message(&target), None);
    sim.advance(700);
    assert_eq!(sim.execute(&target), ("later".to_string(), 0));
}

#[test]
fn a_settled_promise_stays_as_it_is() {
    let mut sim = sim();
    create_promise(&mut sim, create("p", far(), &[]));
    let first = promise(settle(&mut sim, "p", SettleState::Rejected, "a"));
    sim.now += 10;
    let second = promise(settle(&mut sim, "p", SettleState::Resolved, "b"));
    assert_eq!(first, second);
    assert_eq!(first.state, PromiseState::Rejected);
    assert_eq!(first.settled_at, Some(T0));
    let canceled = {
        create_promise(&mut sim, create("q", far(), &[]));
        promise(settle(&mut sim, "q", SettleState::RejectedCanceled, ""))
    };
    assert_eq!(canceled.state, PromiseState::RejectedCanceled);
    assert_eq!(
        error(settle(&mut sim, "none", SettleState::Resolved, "")),
        (404, "Promise not found".to_string())
    );
}

#[test]
fn a_fulfil_settles_the_promise_and_ends_the_job() {
    let mut sim = sim();
    let target = anycast();
    create_promise(&mut sim, targeted("root", &target, far()));
    sim.execute(&target);
    acquire(&mut sim, "root", 0, "p", 60_000);
    assert_eq!(
        error(fulfil(&mut sim, "root", 0)),
        (409, "Task version mismatch or invalid state".to_string())
    );
    let settled = promise(fulfil(&mut sim, "root", 1));
    assert_eq!(settled.state, PromiseState::Resolved);
    assert_eq!(get_task(&mut sim, "root").state, TaskState::Fulfilled);
    assert!(!sim.jobs.iter().any(|j| j.queue == target));
    assert!(sim.held.is_empty());
    assert_eq!(
        error(fulfil(&mut sim, "none", 1)),
        (404, "Task not found".to_string())
    );
    let mismatched = TaskFulfillData {
        id: "root".to_string(),
        version: 1,
        action: Action {
            kind: "promise.settle".to_string(),
            data: settle_data("other", SettleState::Resolved, ""),
        },
    };
    assert_eq!(
        error(sim.perform_operation("task.fulfill", OperationData::TaskFulfill(mismatched))),
        (400, "Action must settle the task's promise".to_string())
    );
    let wrong = TaskFulfillData {
        id: "root".to_string(),
        version: 1,
        action: Action {
            kind: "promise.create".to_string(),
            data: settle_data("root", SettleState::Resolved, ""),
        },
    };
    assert_eq!(
        error(sim.perform_operation("task.fulfill", OperationData::TaskFulfill(wrong))),
        (400, "Invalid action kind".to_string())
    );
}

#[test]
fn a_suspension_on_a_settled_promise_lets_the_task_go_on() {
    let mut sim = sim();
    let target = anycast();
    create_promise(&mut sim, targeted("root", &target, far()));
    sim.execute(&target);
    acquire(&mut sim, "root", 0, "p", 60_000);
    let child = create(
        "root:0",
        far(),
        &[("resonate:scope", "global"), ("resonate:branch", "root")],
    );
    create_promise(&mut sim, child);
    settle(&mut sim, "root:0", SettleState::Resolved, "v");
    match suspend(&mut sim, "root", 1, &["root:0"]) {
        Reply::Data(300, ReplyData::Preload(preload)) => {
            assert_eq!(preload.len(), 1);
            assert_eq!(preload[0].id, "root:0");
        }
        other => panic!("a preload is expected: {other:?}"),
    }
    assert_eq!(get_task(&mut sim, "root").state, TaskState::Acquired);
}

#[test]
fn a_suspension_is_held_to_its_rules() {
    let mut sim = sim();
    let target = anycast();
    create_promise(&mut sim, targeted("root", &target, far()));
    create_promise(&mut sim, create("root:local", far(), &[]));
    sim.execute(&target);
    acquire(&mut sim, "root", 0, "p", 60_000);
    assert_eq!(
        error(suspend(&mut sim, "root", 1, &[])),
        (400, "Actions are required".to_string())
    );
    assert_eq!(
        error(suspend(&mut sim, "root", 1, &["root"])),
        (400, "Awaited and awaiter must differ".to_string())
    );
    assert_eq!(
        error(suspend(&mut sim, "root", 1, &["root:0", "root:0"])),
        (400, "Awaited promises must be unique".to_string())
    );
    assert_eq!(
        error(suspend(&mut sim, "root", 1, &["other:0"])),
        (400, "Awaited and awaiter must share an origin".to_string())
    );
    assert_eq!(
        error(suspend(&mut sim, "root", 1, &[""])),
        (400, "Awaited and awaiter promise IDs are required".to_string())
    );
    assert_eq!(
        error(suspend(&mut sim, "root", 0, &["root:0"])),
        (409, "Task is not acquired or version mismatch".to_string())
    );
    assert_eq!(
        error(suspend(&mut sim, "root", 1, &["root:0"])),
        (422, "Awaited promise not found".to_string())
    );
    assert_eq!(
        error(suspend(&mut sim, "root", 1, &["root:local"])),
        (422, "Awaited promise is not awaitable".to_string())
    );
    assert_eq!(
        error(suspend(&mut sim, "root:1", 1, &["root:0"])),
        (404, "Task not found".to_string())
    );
    let strange = |kind: &str, awaiter: &str| TaskSuspendData {
        id: "root".to_string(),
        version: 1,
        actions: vec![Action {
            kind: kind.to_string(),
            data: CallbackData { awaited: "root:0".to_string(), awaiter: awaiter.to_string() },
        }],
    };
    let wrong = OperationData::TaskSuspend(strange("promise.get", "root"));
    assert_eq!(
        error(sim.perform_operation("task.suspend", wrong)),
        (400, "Invalid action kind".to_string())
    );
    let foreign = OperationData::TaskSuspend(strange("promise.register_callback", "root:1"));
    assert_eq!(
        error(sim.perform_operation("task.suspend", foreign)),
        (400, "Action awaiter must be the task".to_string())
    );
}

#[test]
fn a_suspension_after_a_lost_lease_is_refused() {
    let mut sim = sim();
    let target = anycast();
    create_promise(&mut sim, targeted("root", &target, far()));
    create_promise(&mut sim, create("root:0", far(), &[("resonate:scope", "global")]));
    sim.execute(&target);
    acquire(&mut sim, "root", 0, "p", 1_000);
    sim.now += 1_001;
    assert_eq!(suspend(&mut sim, "root", 1, &["root:0"]).status(), 409);
    assert_eq!(get_task(&mut sim, "root").state, TaskState::Acquired);
    let awaited = sim.promises.iter().find(|p| p.record.id == "root:0").unwrap();
    assert!(awaited.callbacks.is_empty());
}

fn register(sim: &mut Sim, awaited: &str, awaiter: &str) -> Reply {
    let data = CallbackData { awaited: awaited.to_string(), awaiter: awaiter.to_string() };
    sim.perform_operation(
        "promise.register_callback",
        OperationData::PromiseRegisterCallback(data),
    )
}

#[test]
fn a_callback_is_registered_once_and_reaches_its_awaiter() {
    let mut sim = sim();
    let target = anycast();
    create_promise(&mut sim, targeted("root", &target, far()));
    create_promise(&mut sim, create("root:0", far(), &[("resonate:external", "true")]));
    for _ in 0..2 {
        assert_eq!(register(&mut sim, "root:0", "root").status(), 200);
    }
    let awaited = sim.promises.iter().find(|p| p.record.id == "root:0").unwrap();
    assert_eq!(awaited.callbacks, vec!["root".to_string()]);
    settle(&mut sim, "root:0", SettleState::Resolved, "");
    assert_eq!(get_task(&mut sim, "root").resumes, 1);
    let awaited = sim.promises.iter().find(|p| p.record.id == "root:0").unwrap();
    assert!(awaited.callbacks.is_empty());
    create_promise(&mut sim, create("root:1", far(), &[("resonate:scope", "global")]));
    settle(&mut sim, "root:1", SettleState::Resolved, "");
    register(&mut sim, "root:1", "root");
    assert_eq!(get_task(&mut sim, "root").resumes, 2);
}

#[test]
fn a_callback_is_held_to_its_rules() {
    let mut sim = sim();
    let target = anycast();
    create_promise(&mut sim, targeted("root", &target, far()));
    create_promise(&mut sim, create("root:local", far(), &[]));
    assert_eq!(
        error(register(&mut sim, "root:none", "root")),
        (404, "Awaited promise not found".to_string())
    );
    assert_eq!(
        error(register(&mut sim, "root:local", "root:none")),
        (422, "Awaiter promise not found".to_string())
    );
    assert_eq!(
        error(register(&mut sim, "root", "root:local")),
        (422, "Awaiter promise has no resonate:target tag".to_string())
    );
    assert_eq!(
        error(register(&mut sim, "root:local", "root")),
        (422, "Awaited promise is not awaitable".to_string())
    );
    assert_eq!(
        error(register(&mut sim, "", "root")),
        (400, "Awaited and awaiter promise IDs are required".to_string())
    );
}

#[test]
fn a_listener_is_held_to_its_rules() {
    let mut sim = sim();
    create_promise(&mut sim, create("local", far(), &[]));
    assert_eq!(
        error(listen(&mut sim, "local", "nowhere")),
        (400, "Invalid listener address".to_string())
    );
    assert_eq!(
        error(listen(&mut sim, "local", "poll://uni@g/p")),
        (422, "Awaited promise is not awaitable".to_string())
    );
    assert_eq!(
        error(listen(&mut sim, "none", "poll://uni@g/p")),
        (404, "Awaited promise not found".to_string())
    );
}

#[test]
fn a_halted_task_continues() {
    let mut sim = sim();
    let target = anycast();
    create_promise(&mut sim, targeted("root", &target, far()));
    sim.execute(&target);
    acquire(&mut sim, "root", 0, "p", 60_000);
    let halt = |sim: &mut Sim| {
        sim.perform_operation("task.halt", OperationData::TaskHalt(by_id("root")))
    };
    let proceed = |sim: &mut Sim| {
        sim.perform_operation("task.continue", OperationData::TaskContinue(by_id("root")))
    };
    assert_eq!(
        error(proceed(&mut sim)),
        (409, "Task is not halted".to_string())
    );
    assert_eq!(halt(&mut sim).status(), 200);
    assert_eq!(halt(&mut sim).status(), 200);
    assert_eq!(get_task(&mut sim, "root").state, TaskState::Halted);
    assert_eq!(get_task(&mut sim, "root").pid, None);
    assert_eq!(sim.message(&target), None);
    assert_eq!(proceed(&mut sim).status(), 200);
    assert_eq!(sim.execute(&target), ("root".to_string(), 1));
    halt(&mut sim);
    let waiting = {
        proceed(&mut sim);
        let jobs = sim.jobs.iter().filter(|j| j.queue == target).count();
        halt(&mut sim);
        proceed(&mut sim);
        (jobs, sim.jobs.iter().filter(|j| j.queue == target).count())
    };
    assert_eq!(waiting, (1, 1));
    settle(&mut sim, "root", SettleState::Resolved, "");
    assert_eq!(
        error(halt(&mut sim)),
        (409, "Task is fulfilled".to_string())
    );
    let none = sim.perform_operation("task.halt", OperationData::TaskHalt(by_id("none")));
    assert_eq!(error(none), (404, "Task not found".to_string()));
}

fn create_task(sim: &mut Sim, pid: &str, ttl: i64, data: PromiseCreateData) -> Reply {
    let data = TaskCreateData {
        pid: pid.to_string(),
        ttl,
        action: Action { kind: "promise.create".to_string(), data },
    };
    sim.perform_operation("task.create", OperationData::TaskCreate(data))
}

#[test]
fn a_task_is_created_acquired_or_taken_while_pending() {
    let mut sim = sim();
    let target = anycast();
    let (task, own, _) = work(create_task(&mut sim, "p", 60_000, targeted("a", &target, far())));
    assert_eq!(task.version, 1);
    assert_eq!(task.pid.as_deref(), Some("p"));
    assert_eq!(task.ttl, Some(60_000));
    assert_eq!(own.id, "a");
    assert_eq!(sim.jobs[0].run_at, (T0 + 60_000) as u64);
    assert_eq!(sim.jobs[0].lease, Some((T0 + 60_000) as u64));
    assert_eq!(
        error(create_task(&mut sim, "q", 1, targeted("a", &target, far()))),
        (409, "Already exists".to_string())
    );

    create_promise(&mut sim, targeted("b", &target, far()));
    let (task, _, _) = work(create_task(&mut sim, "q", 500, targeted("b", &target, far())));
    assert_eq!(task.version, 1);
    assert_eq!(task.pid.as_deref(), Some("q"));

    create_promise(&mut sim, create("c", far(), &[]));
    assert_eq!(
        error(create_task(&mut sim, "q", 500, targeted("c", &target, far()))),
        (422, "The promise does not have a resonate:target tag".to_string())
    );

    settle(&mut sim, "a", SettleState::Resolved, "v");
    let (task, own, preload) = work(create_task(&mut sim, "q", 1, targeted("a", &target, far())));
    assert_eq!(task.state, TaskState::Fulfilled);
    assert_eq!(own.state, PromiseState::Resolved);
    assert!(preload.is_empty());

    create_promise(&mut sim, targeted("d", &target, far()));
    let job = sim
        .jobs
        .iter()
        .position(|j| j.payload == Payload::Execute("d".to_string()))
        .unwrap();
    sim.jobs[job].lease = Some((T0 + 10) as u64);
    assert_eq!(
        error(create_task(&mut sim, "q", 500, targeted("d", &target, far()))),
        (409, "Already exists".to_string())
    );
}

#[test]
fn a_task_to_create_is_held_to_its_rules() {
    let mut sim = sim();
    let target = anycast();
    let wrong = TaskCreateData {
        pid: "p".to_string(),
        ttl: 1,
        action: Action {
            kind: "promise.settle".to_string(),
            data: targeted("a", &target, far()),
        },
    };
    assert_eq!(
        error(sim.perform_operation("task.create", OperationData::TaskCreate(wrong))),
        (400, "Invalid action kind".to_string())
    );
    assert_eq!(
        error(create_task(&mut sim, "", 1, targeted("a", &target, far()))),
        (400, "Process ID is required".to_string())
    );
    assert_eq!(
        error(create_task(&mut sim, "p", 0, targeted("a", &target, far()))),
        (400, "TTL must be positive".to_string())
    );
    assert_eq!(
        error(create_task(&mut sim, "p", 1, create("", far(), &[]))),
        (400, "Promise ID is required".to_string())
    );
    assert_eq!(
        error(create_task(&mut sim, "p", 1, create("a", far(), &[]))),
        (400, "resonate:target tag is required".to_string())
    );
    let delayed = create("a", far(), &[("resonate:target", &target), ("resonate:delay", "5")]);
    assert_eq!(
        error(create_task(&mut sim, "p", 1, delayed)),
        (400, "resonate:delay tag is not allowed".to_string())
    );
}

#[test]
fn an_acquire_is_held_to_its_rules() {
    let mut sim = sim();
    let target = anycast();
    create_promise(&mut sim, targeted("root", &target, far()));
    assert_eq!(
        error(acquire(&mut sim, "none", 0, "p", 1)),
        (404, "Task not found".to_string())
    );
    assert_eq!(
        error(acquire(&mut sim, "root", 0, "p", 1)),
        (409, "Task is not pending".to_string())
    );
    sim.execute(&target);
    assert_eq!(
        error(acquire(&mut sim, "root", 3, "p", 1)),
        (409, "Version mismatch".to_string())
    );
    assert_eq!(acquire(&mut sim, "root", 0, "p", 1_000).status(), 200);
    assert_eq!(
        error(acquire(&mut sim, "root", 1, "p", 1)),
        (409, "Task is not pending".to_string())
    );
}

#[test]
fn a_fence_is_held_to_its_rules() {
    let mut sim = sim();
    let target = anycast();
    create_promise(&mut sim, targeted("root", &target, far()));
    sim.execute(&target);
    acquire(&mut sim, "root", 0, "p", 60_000);
    let data = |raw: &str| FenceData {
        raw: raw.to_string(),
        create: Err("no creation".to_string()),
        settle: Err("no settlement".to_string()),
    };
    assert_eq!(
        error(fence(&mut sim, "root", 1, "promise.create", data("{}"))),
        (400, "Action promise ID is required".to_string())
    );
    assert_eq!(
        error(fence(&mut sim, "root", 1, "promise.create", data("{\"id\":\"root\"}"))),
        (400, "Action promise must differ from the task's promise".to_string())
    );
    assert_eq!(
        error(fence(&mut sim, "root", 1, "promise.create", data("{\"id\":\"x:0\"}"))),
        (400, "Action must belong to the task's origin".to_string())
    );
    assert_eq!(
        error(fence(&mut sim, "root:1", 1, "promise.create", data("{\"id\":\"root:0\"}"))),
        (404, "Task not found".to_string())
    );
    assert_eq!(
        error(fence(&mut sim, "root", 2, "promise.create", data("{\"id\":\"root:0\"}"))),
        (409, "Version mismatch".to_string())
    );
    assert_eq!(
        error(fence(&mut sim, "root", 1, "promise.create", data("{\"id\":\"root:0\"}"))),
        (400, "Invalid action data: no creation".to_string())
    );
    assert_eq!(
        error(fence(&mut sim, "root", 1, "promise.settle", data("{\"id\":\"root:0\"}"))),
        (400, "Invalid action data: no settlement".to_string())
    );
    assert_eq!(
        error(fence(&mut sim, "root", 1, "promise.get", data("{\"id\":\"root:0\"}"))),
        (400, "Invalid fence action kind".to_string())
    );
    let bad = create("root:0", far(), &[("resonate:target", "nowhere")]);
    assert_eq!(
        error(fence_create(&mut sim, "root", 1, bad)),
        (400, "Invalid resonate:target address".to_string())
    );
    let settling = |id: &str| FenceData {
        raw: format!("{{\"id\":\"{id}\"}}"),
        create: Err("no creation".to_string()),
        settle: Ok(settle_data(id, SettleState::Resolved, "v")),
    };
    match fence(&mut sim, "root", 1, "promise.settle", settling("root:0")) {
        Reply::Data(200, ReplyData::Action(_, head, ActionData::Message(message), _)) => {
            assert_eq!(head.status, 404);
            assert_eq!(message, "Promise not found");
        }
        other => panic!("an action is expected: {other:?}"),
    }
    create_promise(&mut sim, create("root:0", far(), &[("resonate:branch", "root")]));
    match fence(&mut sim, "root", 1, "promise.settle", settling("root:0")) {
        Reply::Data(200, ReplyData::Action(_, head, ActionData::Promise(settled), preload)) => {
            assert_eq!(head.status, 200);
            assert_eq!(settled.state, PromiseState::Resolved);
            assert_eq!(preload, vec![settled]);
        }
        other => panic!("an action is expected: {other:?}"),
    }
}

#[test]
fn a_task_is_sent_with_its_first_siblings() {
    let mut sim = sim();
    sim.preload_limit = 3;
    let target = anycast();
    for i in (0..300).rev() {
        let child = create(&format!("root:{i:03}"), far(), &[("resonate:branch", "root")]);
        create_promise(&mut sim, child);
    }
    let (_, _, preload) = work(create_task(&mut sim, "p", 1_000, targeted("root", &target, far())));
    let ids: Vec<String> = preload.into_iter().map(|p| p.id).collect();
    assert_eq!(ids, vec!["root:000", "root:001", "root:002"]);
    sim.preload_limit = 400;
    let child = create("root:made", far(), &[("resonate:branch", "root")]);
    match fence_create(&mut sim, "root", 1, child) {
        Reply::Data(200, ReplyData::Action(_, _, _, preload)) => {
            assert_eq!(preload.len(), 301);
            assert_eq!(preload[300].id, "root:made");
            assert_eq!(preload[299].id, "root:299");
        }
        other => panic!("an action is expected: {other:?}"),
    }
    sim.preload_limit = 0;
    let (_, _, preload) = {
        create_promise(&mut sim, targeted("root:t", &target, far()));
        work(create_task(&mut sim, "p", 1_000, targeted("root:t", &target, far())))
    };
    assert!(preload.is_empty());
}

#[test]
fn searches_filter_and_page() {
    let mut sim = sim();
    let target = anycast();
    for id in ["a", "b", "c", "d"] {
        create_promise(&mut sim, targeted(id, &target, far()));
    }
    create_promise(&mut sim, create("e", far(), &[("x", "y")]));
    settle(&mut sim, "b", SettleState::Resolved, "");
    let mut seen: Vec<String> = Vec::new();
    let mut cursor: Option<String> = None;
    loop {
        let data = PromiseSearchData {
            state: Some(PromiseState::Pending),
            tags: Some(tags(&[("resonate:scope", "global")])),
            limit: Some(2),
            cursor,
        };
        match sim.perform_operation("promise.search", OperationData::PromiseSearch(data)) {
            Reply::Data(200, ReplyData::Promises(page, next)) => {
                seen.extend(page.into_iter().map(|p| p.id));
                cursor = next;
            }
            other => panic!("promises are expected: {other:?}"),
        }
        if cursor.is_none() {
            break;
        }
    }
    assert_eq!(seen, vec!["a", "c", "d"]);
    let data = TaskSearchData { state: Some(TaskState::Fulfilled), limit: None, cursor: None };
    match sim.perform_operation("task.search", OperationData::TaskSearch(data)) {
        Reply::Data(200, ReplyData::Tasks(page, None)) => {
            assert_eq!(page.len(), 1);
            assert_eq!(page[0].id, "b");
        }
        other => panic!("tasks are expected: {other:?}"),
    }
    for limit in [0, 1001] {
        let data = TaskSearchData { state: None, limit: Some(limit), cursor: None };
        assert_eq!(
            error(sim.perform_operation("task.search", OperationData::TaskSearch(data))),
            (400, "Invalid 'limit': must be between 1 and 1000".to_string())
        );
    }
}

fn search_promises(sim: &mut Sim, state: Option<PromiseState>) -> Vec<PromiseRecord> {
    let data = PromiseSearchData { state, tags: None, limit: None, cursor: None };
    match sim.perform_operation("promise.search", OperationData::PromiseSearch(data)) {
        Reply::Data(200, ReplyData::Promises(page, None)) => page,
        other => panic!("promises are expected: {other:?}"),
    }
}

fn search_tasks(sim: &mut Sim, state: Option<TaskState>) -> Vec<String> {
    let data = TaskSearchData { state, limit: None, cursor: None };
    match sim.perform_operation("task.search", OperationData::TaskSearch(data)) {
        Reply::Data(200, ReplyData::Tasks(page, None)) => page.into_iter().map(|t| t.id).collect(),
        other => panic!("tasks are expected: {other:?}"),
    }
}

/// A queue with a promise past its deadline that a suspended task awaits, and
/// no timer fired.
fn overdue(target: &str) -> Sim {
    let mut sim = sim();
    create_promise(&mut sim, targeted("root", target, far()));
    create_promise(&mut sim, create("root:late", T0 + 100, &[("resonate:scope", "global")]));
    create_promise(&mut sim, targeted("work", target, T0 + 100));
    assert_eq!(sim.execute(target), ("root".to_string(), 0));
    acquire(&mut sim, "root", 0, "p", 60_000);
    assert_eq!(suspend(&mut sim, "root", 1, &["root:late"]).status(), 200);
    assert_eq!(sim.execute(target), ("work".to_string(), 0));
    sim.now += 200;
    sim
}

#[test]
fn a_promise_search_settles_what_has_expired() {
    let target = anycast();
    let mut sim = overdue(&target);
    let pending = search_promises(&mut sim, Some(PromiseState::Pending));
    let ids: Vec<&str> = pending.iter().map(|p| p.id.as_str()).collect();
    assert_eq!(ids, vec!["root"]);
    let late = sim.promises.iter().find(|p| p.record.id == "root:late").unwrap();
    assert_eq!(late.record.state, PromiseState::RejectedTimedout);
    assert_eq!(late.record.settled_at, Some(T0 + 100));
    assert!(late.callbacks.is_empty());
    assert_eq!(sim.execute(&target), ("root".to_string(), 1));
    let mut sim = overdue(&target);
    let expired = search_promises(&mut sim, Some(PromiseState::RejectedTimedout));
    assert_eq!(expired.len(), 2);
    assert_eq!((expired[0].id.as_str(), expired[1].id.as_str()), ("root:late", "work"));
    assert_eq!(search_promises(&mut sim, None).len(), 3);
}

#[test]
fn a_task_search_ends_the_tasks_of_expired_promises() {
    let target = anycast();
    let mut sim = overdue(&target);
    assert_eq!(search_tasks(&mut sim, Some(TaskState::Fulfilled)), vec!["work"]);
    assert_eq!(get_promise(&mut sim, "work").state, PromiseState::RejectedTimedout);
    let mut sim = overdue(&target);
    assert!(search_tasks(&mut sim, Some(TaskState::Pending)).is_empty());
    assert_eq!(search_tasks(&mut sim, Some(TaskState::Suspended)), vec!["root"]);
    let late = sim.promises.iter().find(|p| p.record.id == "root:late").unwrap();
    assert_eq!(late.record.state, PromiseState::Pending);
}

#[test]
fn a_task_search_wakes_what_awaits_an_expired_task() {
    let mut sim = sim();
    let target = anycast();
    create_promise(&mut sim, targeted("root", &target, far()));
    create_promise(&mut sim, targeted("root:late", &target, T0 + 100));
    assert_eq!(sim.execute(&target), ("root".to_string(), 0));
    acquire(&mut sim, "root", 0, "p", 60_000);
    assert_eq!(suspend(&mut sim, "root", 1, &["root:late"]).status(), 200);
    sim.now += 200;
    assert_eq!(search_tasks(&mut sim, Some(TaskState::Pending)), vec!["root"]);
    assert_eq!(sim.execute(&target), ("root".to_string(), 1));
}

#[test]
fn siblings_past_their_deadline_are_sent_settled() {
    let mut sim = sim();
    let target = anycast();
    for (id, timeout_at) in [("root:a", T0 + 100), ("root:b", far())] {
        create_promise(&mut sim, create(id, timeout_at, &[("resonate:branch", "root")]));
    }
    create_promise(&mut sim, targeted("root", &target, far()));
    assert_eq!(sim.execute(&target), ("root".to_string(), 0));
    sim.now += 100;
    let (task, own, preload) = work(acquire(&mut sim, "root", 0, "p", 60_000));
    assert_eq!((task.version, own.state), (1, PromiseState::Pending));
    assert_eq!(preload.len(), 2);
    assert_eq!(preload[0].state, PromiseState::RejectedTimedout);
    assert_eq!(preload[0].settled_at, Some(T0 + 100));
    assert_eq!(preload[1].state, PromiseState::Pending);
    assert_eq!(sim.promises[1].record, preload[0]);
}

/// A queue with the task "root", woken by "root:b" from its wait for that and
/// "root:a", whose deadline comes next.
fn woken(target: &str) -> Sim {
    let mut sim = sim();
    create_promise(&mut sim, targeted("root", target, far()));
    for (id, timeout_at) in [("root:a", T0 + 100), ("root:b", far())] {
        let tags = [("resonate:branch", "root"), ("resonate:scope", "global")];
        create_promise(&mut sim, create(id, timeout_at, &tags));
    }
    assert_eq!(sim.execute(target), ("root".to_string(), 0));
    acquire(&mut sim, "root", 0, "p", 60_000);
    assert_eq!(suspend(&mut sim, "root", 1, &["root:a", "root:b"]).status(), 200);
    settle(&mut sim, "root:b", SettleState::Resolved, "");
    assert_eq!(sim.execute(target), ("root".to_string(), 1));
    sim
}

#[test]
fn an_acquired_task_has_observed_the_siblings_that_it_is_sent_with() {
    let target = anycast();
    let mut sim = woken(&target);
    assert_eq!(get_task(&mut sim, "root").resumes, 1);
    sim.now += 200;
    let (task, _, preload) = work(acquire(&mut sim, "root", 1, "p", 60_000));
    assert_eq!((task.version, task.resumes), (2, 0));
    assert_eq!(preload[0].id, "root:a");
    assert_eq!(preload[0].state, PromiseState::RejectedTimedout);
    let stored = get_task(&mut sim, "root");
    assert_eq!((stored.state, stored.resumes), (TaskState::Acquired, 0));
    let mut sim = woken(&target);
    sim.now += 200;
    let (task, _, _) = work(create_task(&mut sim, "p", 60_000, targeted("root", &target, far())));
    assert_eq!((task.version, task.resumes), (2, 0));
    assert_eq!(get_task(&mut sim, "root").resumes, 0);
}

#[test]
fn an_acquire_that_is_refused_leaves_its_task_and_siblings() {
    let target = anycast();
    let mut sim = woken(&target);
    sim.now += 200;
    assert_eq!(acquire(&mut sim, "root", 7, "p", 60_000).status(), 409);
    assert_eq!(get_task(&mut sim, "root").resumes, 1);
    let late = sim.promises.iter().find(|p| p.record.id == "root:a").unwrap();
    assert_eq!(late.record.state, PromiseState::Pending);
}

#[test]
fn a_task_that_goes_on_has_observed_the_siblings_that_it_is_sent() {
    let target = anycast();
    let mut sim = woken(&target);
    assert_eq!(acquire(&mut sim, "root", 1, "p", 60_000).status(), 200);
    sim.now += 200;
    match suspend(&mut sim, "root", 2, &["root:b"]) {
        Reply::Data(300, ReplyData::Preload(preload)) => {
            assert_eq!(preload[0].id, "root:a");
            assert_eq!(preload[0].state, PromiseState::RejectedTimedout);
        }
        other => panic!("siblings are expected: {other:?}"),
    }
    let stored = get_task(&mut sim, "root");
    assert_eq!((stored.state, stored.version, stored.resumes), (TaskState::Acquired, 2, 0));
    assert_eq!(promise(fulfil(&mut sim, "root", 2)).state, PromiseState::Resolved);
}

#[test]
fn a_repeated_listener_is_kept_once() {
    let mut sim = sim();
    create_promise(&mut sim, create("p", far(), &[("resonate:scope", "global")]));
    let target = anycast();
    for address in [target.as_str(), "poll://uni@g/p", target.as_str(), target.as_str()] {
        assert_eq!(listen(&mut sim, "p", address).status(), 200);
    }
    assert_eq!(sim.promises[0].listeners, vec![target.clone(), "poll://uni@g/p".to_string()]);
    settle(&mut sim, "p", SettleState::Resolved, "");
    assert_eq!(sim.jobs.iter().filter(|j| j.queue == target).count(), 1);
}

fn schedule(id: &str, cron: &str, target: Option<&str>, promise_timeout: i64) -> OperationData {
    let promise_tags = match target {
        Some(target) => tags(&[("resonate:target", target)]),
        None => Tags::new(),
    };
    OperationData::ScheduleCreate(ScheduleCreateData {
        id: id.to_string(),
        cron: cron.to_string(),
        promise_id: "p".to_string(),
        promise_timeout,
        promise_param: PromiseValue::default(),
        promise_tags,
    })
}

#[test]
fn schedules_are_held_to_their_rules() {
    let mut sim = sim();
    let target = anycast();
    let target = Some(target.as_str());
    let cases = [
        (schedule("", "* * * * *", target, 1), "Schedule ID is required"),
        (schedule("a:b", "* * * * *", target, 1), "Schedule ID must not contain ':'"),
        (schedule("a", "* * * * *", None, 1), "resonate:target tag is required"),
        (schedule("a", "* * * * *", Some("x"), 1), "Invalid resonate:target address"),
        (schedule("a", "* * * * *", target, -1), "Promise timeout must not be negative"),
        (schedule("a", "not a cron", target, 1), "Invalid cron expression"),
    ];
    for (data, message) in cases {
        assert_eq!(
            error(sim.perform_operation("schedule.create", data)),
            (400, message.to_string())
        );
    }
    for id in ["a", "b"] {
        let made = sim.perform_operation("schedule.create", schedule(id, "0 9 * * *", target, 1));
        assert_eq!(made.status(), 200);
    }
    let again = sim.perform_operation("schedule.create", schedule("a", "not a cron", target, 1));
    match again {
        Reply::Data(200, ReplyData::Schedule(found)) => assert_eq!(found.cron, "0 9 * * *"),
        other => panic!("a schedule is expected: {other:?}"),
    }
    let data = ScheduleSearchData { tags: None, limit: Some(1), cursor: None };
    match sim.perform_operation("schedule.search", OperationData::ScheduleSearch(data)) {
        Reply::Data(200, ReplyData::Schedules(page, next)) => {
            assert_eq!(page[0].id, "a");
            assert_eq!(next.as_deref(), Some("a"));
        }
        other => panic!("schedules are expected: {other:?}"),
    }
    let delete = |sim: &mut Sim| {
        sim.perform_operation("schedule.delete", OperationData::ScheduleDelete(by_id("a")))
    };
    assert_eq!(delete(&mut sim).status(), 200);
    assert_eq!(
        error(delete(&mut sim)),
        (404, "Schedule not found".to_string())
    );
    let gone = sim.perform_operation("schedule.get", OperationData::ScheduleGet(by_id("a")));
    assert_eq!(error(gone), (404, "Schedule not found".to_string()));
    let first = sim.schedules[0].next_run_at;
    sim.advance(first - T0);
    assert!(sim.promises.iter().any(|p| p.record.id == "p"));
    assert_eq!(sim.schedules[0].last_run_at, Some(first));
}

/// Handle a request at `now`, where nothing but the schedule of "s" is read.
fn schedule_at(
    now: i64,
    row: Option<ScheduleRecord>,
    data: OperationData,
) -> Result<Option<Outcome>, Call> {
    let mut facts = Facts::new();
    facts.learn(Fact::Schedule("s".to_string(), row));
    let mut txn = Txn::new(&facts, 10, now);
    handle_in_calendar(&mut txn, "schedule.create", "c", &Ok(data))
}

fn scheduled(cron: &str, next_run_at: i64) -> ScheduleRecord {
    let mut sim = sim();
    let target = anycast();
    let data = schedule("s", cron, Some(&target), 1);
    assert_eq!(sim.perform_operation("schedule.create", data).status(), 200);
    ScheduleRecord { next_run_at, ..sim.schedules.remove(0) }
}

#[test]
fn only_a_schedule_to_create_is_searched_for() {
    let target = anycast();
    let monthly = || schedule("s", "0 9 1 * *", Some(&target), 1);
    assert!(matches!(schedule_at(LAST_DAY, None, monthly()), Ok(None)));
    match schedule_at(LAST_DAY, Some(scheduled("0 9 1 * *", T0)), monthly()) {
        Ok(Some(Outcome::Reply(Reply::Data(200, ReplyData::Schedule(found))))) => {
            assert_eq!(found.next_run_at, T0);
        }
        _ => panic!("the schedule is expected"),
    }
    let refused = schedule_at(LAST_DAY, None, schedule("s", "0 9 1 * *", None, 1));
    match refused {
        Ok(Some(Outcome::Reply(reply))) => {
            assert_eq!(error(reply), (400, "resonate:target tag is required".to_string()));
        }
        _ => panic!("a refusal is expected"),
    }
    for now in [LAST_DAY - 1001, CALENDAR_END + 1] {
        match schedule_at(now, None, monthly()) {
            Ok(Some(Outcome::Reply(reply))) => {
                assert_eq!(error(reply), (400, "Invalid cron expression".to_string()));
            }
            _ => panic!("a refusal is expected"),
        }
    }
    let daily = schedule("s", "0 9 * * *", Some(&target), 1);
    match schedule_at(LAST_DAY, None, daily) {
        Ok(Some(Outcome::Commit(Reply::Data(200, ReplyData::Schedule(made))))) => {
            assert_eq!(made.next_run_at, LAST_DAY + 32_400_000);
        }
        _ => panic!("a schedule is expected"),
    }
}

#[test]
fn a_schedule_is_created_with_its_first_firing() {
    let target = anycast();
    let OperationData::ScheduleCreate(data) = schedule("s", "0 9 * * *", Some(&target), 1) else {
        unreachable!()
    };
    let facts = Facts::new();
    let mut txn = Txn::new(&facts, 10, T0);
    let end = create_schedule(&mut txn, &data, None);
    assert_eq!(end, Outcome::Reply(Reply::Error(400, "Invalid cron expression".to_string())));
    match create_schedule(&mut txn, &data, Some(T0 + 7)) {
        Outcome::Commit(Reply::Data(200, ReplyData::Schedule(made))) => {
            assert_eq!((made.created_at, made.next_run_at), (T0, T0 + 7));
            assert_eq!(made.last_run_at, None);
        }
        other => panic!("a schedule is expected: {other:?}"),
    }
    let effects = txn.commit().effects.unwrap();
    assert_eq!(effects.puts.len(), 1);
    assert_eq!(effects.enqueues.len(), 1);
    assert_eq!(effects.enqueues[0].run_at, Some(T0 as u64 + 7));
}

/// Fire the timer of "s" at `at`, where nothing but its schedule is read.
fn fire_at(at: i64, row: Option<ScheduleRecord>) -> Result<Option<bool>, Call> {
    let mut facts = Facts::new();
    facts.learn(Fact::Schedule("s".to_string(), row));
    facts.learn(Fact::Promise("p".to_string(), None));
    let mut txn = Txn::new(&facts, 10, LAST_DAY);
    fire_in_calendar(&mut txn, &Timer::Schedule("s".to_string(), at))
}

#[test]
fn a_stale_schedule_timer_has_no_effect() {
    assert!(matches!(fire_at(LAST_DAY, None), Ok(Some(false))));
    assert!(matches!(fire_at(LAST_DAY, Some(scheduled("0 9 1 * *", T0))), Ok(Some(false))));
    assert!(matches!(fire_at(LAST_DAY, Some(scheduled("0 9 1 * *", LAST_DAY))), Ok(None)));
}

#[test]
fn a_stale_promise_timer_has_no_effect() {
    let mut sim = sim();
    create_promise(&mut sim, create("p", far(), &[("resonate:scope", "global")]));
    settle(&mut sim, "p", SettleState::Resolved, "v");
    assert!(!sim.fire(Timer::PromiseTimeout("p".to_string())));
    assert!(!sim.fire(Timer::PromiseTimeout("none".to_string())));
    assert_eq!(get_promise(&mut sim, "p").state, PromiseState::Resolved);
}

#[test]
fn unknown_operations_and_data_that_does_not_decode_are_refused() {
    let mut sim = sim();
    assert_eq!(
        error(sim.send("promise.unknown", Err("ignored".to_string()))),
        (400, "Unknown operation: promise.unknown".to_string())
    );
    assert_eq!(
        error(sim.send("promise.get", Err("missing field `id`".to_string()))),
        (400, "Invalid request: missing field `id`".to_string())
    );
    assert_eq!(sim.calls, 0);
}

#[test]
fn a_request_that_only_reads_commits_nothing() {
    let facts = {
        let mut facts = Facts::new();
        facts.learn(Fact::Promise("p".to_string(), None));
        facts
    };
    let mut txn = Txn::new(&facts, 10, T0);
    let data = Ok(OperationData::PromiseGet(by_id("p")));
    let end = handle(&mut txn, "promise.get", "c", &data).unwrap();
    assert_eq!(end, Outcome::Commit(Reply::Error(404, "Promise not found".to_string())));
    let commit = txn.commit();
    assert_eq!(commit.effects, None);
    assert!(commit.after.is_empty());
}

#[test]
fn a_lost_claim_is_a_version_conflict() {
    let reply = || Reply::Data(200, ReplyData::Empty);
    assert_eq!(Settlement::Done.reply(reply()), Some(reply()));
    assert_eq!(
        Settlement::ClaimLost.reply(reply()),
        Some(Reply::Error(409, "Task version mismatch or invalid state".to_string()))
    );
    assert_eq!(Settlement::Failed.reply(reply()), None);
    assert!(Settlement::ClaimLost.goes_on() && !Settlement::Failed.goes_on());
    assert!(Settlement::Failed.keeps_claim() && !Settlement::ClaimLost.keeps_claim());
}
