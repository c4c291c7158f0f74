//! A deterministic tick simulation with record and replay, and a store that
//! serves its state as snapshots and as diffs along a chain of checksums.
//!
//! - `snapshot`, `entity_map`: what an entity looks like at the end of a tick,
//!   and collections of entities in id order.
//! - `checksum`: the 64-bit digest of a state.
//! - `store`, `chain_laws`, `update_laws`, `sync`: the current state, the
//!   bounded history of per-tick diffs, what a walk along the history adds up
//!   to, what an update is decided by, and the requests that read them.
//! - `intent`, `inbox`, `pipeline`: the commands that change the world, how
//!   they arrive, and how they are applied.
//! - `replay`, `simulation`: frames, the replay queue, and the clock that runs
//!   the phases of a tick in order.
//! - `scene`, `renderer`, `motion`, `text`: the rendering host's view of the
//!   world, and the renderer and motion compiler capabilities with their
//!   mock backends.
//!
//! Every number that stands for a float is held as its bit pattern; the
//! library compares and digests bits and never computes with floats.

pub mod chain_laws;
pub mod checksum;
pub mod entity_map;
pub mod inbox;
pub mod intent;
pub mod motion;
pub mod pipeline;
pub mod renderer;
pub mod replay;
pub mod scene;
pub mod simulation;
pub mod snapshot;
pub mod store;
pub mod sync;
pub mod text;
pub mod update_laws;
