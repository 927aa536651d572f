//! A timer registry: one-shot timers with second granularity, in five
//! interchangeable scheduling structures.
//!
//! Each module holds one variant of the same public surface
//! (`start_timer`, `stop_timer`, `expire_timers`):
//!
//! - [`straightforward`]: a flat list of timers; every tick decrements each
//!   remaining interval and fires the ones that reach zero.
//! - [`priority_queue`]: timers ordered by absolute deadline; a tick pops
//!   every timer whose deadline has passed.
//! - [`timing_wheels`]: a single-level wheel of buckets indexed by deadline
//!   modulo the wheel size; a tick fires one whole bucket.
//! - [`hashed_wheel`]: a 256-slot wheel where each bucket keeps its timers
//!   sorted by the high 24 bits of their delay (the round counter); a tick
//!   fires only the bucket prefix whose round counter matches the clock.
//! - [`hierarchical`]: three cascaded wheels (seconds, minutes, hours) with
//!   demotion from coarse wheels to finer ones as the hands wrap.
//!
//! The registries here are the scheduling cores: they decide which timers
//! fire on each tick and return their identifiers. Driving the tick from a
//! clock thread and invoking the deferred actions is left to the caller.

pub mod hashed_wheel;
pub mod hierarchical;
pub mod priority_queue;
pub mod straightforward;
pub mod timing_wheels;
