//! The parameters of a store and of the queues it runs on.

use std::time::Duration;
use vstd::prelude::*;
use crate::keys::TIMER_QUEUE;
use crate::text::copied;
use crate::time::{duration_of, millis};

verus! {

/// How a queue treats the jobs on it.
#[derive(Debug, Clone, Copy, PartialEq, Eq)]
pub struct QueuePolicy {
    /// The number of attempts after which a job is dead.
    pub max_attempts: u32,
    /// The first and the longest delay before a failed job is tried again;
    /// where there is none, the queue's own delays hold.
    pub retry_backoff: Option<(Duration, Duration)>,
    /// The time that a done job is kept, where it is kept at all.
    pub keep_done_jobs: Option<Duration>,
}

/// The policies of a store's queues.
#[derive(Debug, PartialEq, Eq)]
pub struct QueueOptions {
    /// The policy of every queue without one of its own.
    pub default_queue: QueuePolicy,
    /// The queues with a policy of their own.
    pub queues: Vec<(String, QueuePolicy)>,
}

/// Parameters of a store.
#[derive(Debug, Clone, Copy, PartialEq, Eq)]
pub struct StoreOptions {
    /// Time a delivered execute message waits for its acquire before it is sent
    /// again. Defaults to 30 seconds.
    pub retry_timeout: Duration,
    /// Maximum number of sibling promises returned with a task. Defaults to 10.
    pub preload_limit: usize,
    /// Upper bound on the delay between a timer becoming due and its delivery.
    /// Defaults to 250 milliseconds.
    pub poll_interval: Duration,
}

impl Default for StoreOptions {
    fn default() -> (r: Self)
        ensures
            r.retry_timeout == millis(30_000),
            r.preload_limit == 10,
            r.poll_interval == millis(250),
    {
        StoreOptions {
            retry_timeout: duration_of(30_000),
            preload_limit: 10,
            poll_interval: duration_of(250),
        }
    }
}

impl StoreOptions {
    /// Set the time that a delivered execute message waits for its acquire.
    #[must_use]
    pub fn retry_timeout(self, retry_timeout: Duration) -> (r: Self)
        ensures
            r == (StoreOptions { retry_timeout, ..self }),
    {
        StoreOptions { retry_timeout, ..self }
    }

    /// Set the maximum number of sibling promises returned with a task.
    #[must_use]
    pub fn preload_limit(self, preload_limit: usize) -> (r: Self)
        ensures
            r == (StoreOptions { preload_limit, ..self }),
    {
        StoreOptions { preload_limit, ..self }
    }

    /// Set the upper bound on the delay between a timer becoming due and its
    /// delivery.
    #[must_use]
    pub fn poll_interval(self, poll_interval: Duration) -> (r: Self)
        ensures
            r == (StoreOptions { poll_interval, ..self }),
    {
        StoreOptions { poll_interval, ..self }
    }

    /// The queue options of a store: by default unbounded attempts, no retry
    /// backoff and no retained done jobs, and the timer queue with the queue's
    /// own backoff.
    pub fn queue_options() -> (r: QueueOptions)
        ensures
            r.default_queue == (QueuePolicy {
                max_attempts: u32::MAX,
                retry_backoff: Some((millis(0), millis(0))),
                keep_done_jobs: None,
            }),
            r.queues@.len() == 1,
            r.queues@[0].0@ == TIMER_QUEUE@,
            r.queues@[0].1 == (QueuePolicy {
                max_attempts: u32::MAX,
                retry_backoff: None,
                keep_done_jobs: None,
            }),
    {
        let default_queue = QueuePolicy {
            max_attempts: u32::MAX,
            retry_backoff: Some((duration_of(0), duration_of(0))),
            keep_done_jobs: None,
        };
        let timers = QueuePolicy {
            max_attempts: u32::MAX,
            retry_backoff: None,
            keep_done_jobs: None,
        };
        let mut queues: Vec<(String, QueuePolicy)> = Vec::new();
        queues.push((copied(TIMER_QUEUE), timers));
        QueueOptions { default_queue, queues }
    }
}

} // verus!
