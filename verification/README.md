# resonate_sdk_taquba

Durable promises, tasks and schedules over a task queue. The protocol is a
verified state machine; the queue, its clock and the SDK's network trait stand
around it.

A request runs over what is known of the queue. Where it needs a record, a
listing or a claim that is not known yet, it stops with the call to make; the
program makes the call, adds the answer and runs the request again. A request
whose calls are all answered ends with a reply and with the effects to commit
in one transaction.

## Layout

- `src/`: the library.
  - `records`, `tags`, `keys`, `text`, `time`, `cron`: the records, the places
    they are stored under, and what they are made of.
  - `envelope`, `data`, `rules`, `error`: requests, replies and refusals.
  - `calls`, `txn`, `commit`, `outcome`: one request's unit of work.
  - `settlement`, `creation`, `promises`, `tasks`, `suspension`, `fence`,
    `schedules`, `search`, `timers`, `kernel`: the operations, the deliveries and
    the timers.
  - `store`, `network`: options and identities.
  - `agreement`, `awaiting`, `jobs`, `index`, `history`, `laws`, `observation`,
    `order`, `preload`: what holds of them together, such as that a task is
    fulfilled exactly when its promise is settled, that what is settled never
    changes, that no suspended task is forgotten, that a task with work to do has
    a job, that a branch's index names its promises, and that no reply shows a
    promise as pending past its deadline.
- `tests/`: the library on concrete values, and the protocol over a queue in
  memory.
- `app/`: the queue, the timer worker, the delivery loops and the JSON forms.
