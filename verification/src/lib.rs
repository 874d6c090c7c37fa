//! Per-entity temporal evaluation over ordered columnar batches.
//!
//! Rows arrive in batches, ordered by time, and each row belongs to an
//! entity. An evaluator takes a batch in and emits one value for each row;
//! what it remembers between batches it keeps in a token, one state for each
//! entity, which can be stored and restored.
//!
//! - `batch`: what an evaluator sees of a batch, and how operand references
//!   resolve in it.
//! - `token`, `codec`: the boolean accumulator token, snapshots, and the
//!   stored form of words and lists.
//! - `last_boolean`, `sliding_last`, `two_stacks`: `last` on booleans,
//!   without a window, over a `since` window and over a sliding window.
//! - `primitive`, `count`: `sum`, `min`, `max`, `first`, `last` and
//!   `count_if` on integers.
//! - `lag`, `shift_to`, `shift_until`: reading back, and moving rows forward
//!   in time.
//! - `min_max`: the per-row minimum and maximum of two columns.
//! - `window_laws`, `sliding_laws`, `entity_laws`: what holds of the
//!   aggregations whatever the batches: entities do not see each other,
//!   batch boundaries do not show, a value is emitted exactly where
//!   something was counted, and the sliding window holds what a
//!   recomputation from the rows gives.
//! - `functions`, `registry`: the aggregations as the language knows them.
//! - `metadata`, `output`, `example`: schemas of sources, destinations of
//!   results, and the examples of the catalog.

pub mod batch;
pub mod codec;
pub mod count;
pub mod entity_laws;
pub mod error;
pub mod example;
pub mod functions;
pub mod lag;
pub mod last_boolean;
pub mod metadata;
pub mod min_max;
pub mod output;
pub mod primitive;
pub mod registry;
pub mod shift_to;
pub mod shift_until;
pub mod sliding_last;
pub mod sliding_laws;
pub mod token;
pub mod two_stacks;
pub mod window_laws;
