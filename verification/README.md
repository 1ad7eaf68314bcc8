# ferx

Reactive Extensions for Rust: a hot `Subject` on top of
`tokio::sync::broadcast`, a cold `Observable`, and the operators `map`,
`filter`, `take`, `take_while`, `skip` and `merge`, with typed errors and one
notification grammar: any number of `OnNext`, then at most one `OnError` or
`OnCompleted`.

- `src/` is the library. It is written in Verus: every function states what it
  does in `requires`/`ensures`, and Verus proves it, but for what is claimed of
  `tokio` (see below). Nothing in it waits; stages and subscriptions are state
  machines that are handed what arrived (`Inbound`) and answer with what to do
  about it (`Step`).
- `app/` runs the library on a `tokio` runtime: it shares subjects behind a
  lock, awaits, spawns one task per operator stage or subscriber, catches panics
  of user closures, and logs through `tracing`.
- `tests/` drives the library with real channels, without a runtime.

| In `src/`      | What it holds                                                       |
| -------------- | ------------------------------------------------------------------- |
| `signal`       | channel signals, notifications, terminal states, the grammar        |
| `error`        | what an emitting method reports                                     |
| `policy`       | what a subject replays to a new subscriber                          |
| `channel`      | the broadcast channel, and what is claimed of it                    |
| `subject`      | the hot subject: emitting, ending, snapshots                        |
| `feed`         | subscribing, what a subscriber is handed, when delivery stops       |
| `stage`        | arrivals, steps, and what a machine passes on over a whole run      |
| `operators`    | one module per operator, each with its laws; those of `merge` are   |
|                | in `race`                                                           |
| `observable`   | the cold observable                                                 |
| `guard`        | the message of a panic                                              |

What is claimed of `tokio`, and not proved, are the contracts of the calls into
it: `Channel::open`, `Channel::send` and `Channel::tap` (on
`tokio::sync::broadcast`), `Referee::open`, `Referee::claim` and `Referee::bell`
(on `tokio::sync::watch`), and `clone` of the two senders. Each says in its doc
comment which function it calls and what is claimed of it.

The laws are public proof functions whose names begin with `law_`.
