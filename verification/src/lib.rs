//! The protocol of durable promises, tasks and schedules as a verified
//! state machine.
//!
//! A request runs against the records and the claims of a task queue. The
//! library decides what the request reads, replies, writes, enqueues and
//! settles; the surrounding program performs the reads and the commit.
//!
//! What each operation does is stated as laws, told by the stored records and the
//! fields of the request: for settlements in `consequences`, for the operations,
//! the timers and the deliveries in the modules whose names end in `_laws`. What
//! holds of the store after every request is stated in `history`.

pub mod agreement;
pub mod awaiting;
pub mod calls;
pub mod commit;
pub mod consequences;
pub mod creation;
pub mod cron;
pub mod data;
pub mod envelope;
pub mod error;
pub mod fence;
pub mod fence_laws;
pub mod history;
pub mod index;
pub mod jobs;
pub mod kernel;
pub mod keys;
pub mod laws;
pub mod network;
pub mod observation;
pub mod order;
pub mod outcome;
pub mod preload;
pub mod promise_laws;
pub mod promises;
pub mod records;
pub mod request_laws;
pub mod rules;
pub mod schedule_laws;
pub mod schedules;
pub mod search;
pub mod search_laws;
pub mod settlement;
pub mod sibling_laws;
pub mod store;
pub mod suspension;
pub mod suspension_laws;
pub mod tags;
pub mod task_laws;
pub mod tasks;
pub mod text;
pub mod time;
pub mod timers;
pub mod txn;
pub mod view_laws;
