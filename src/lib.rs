//! A coordinator for a sharded, replicated object store: placement of keys on
//! volumes by rendezvous hashing, on-volume paths, an index of committed replica
//! sets, and the write, read and delete protocols that tie them together.

pub mod digest;
pub mod encoding;
pub mod coordinator;
pub mod index;
pub mod path;
pub mod placement;
pub mod volume_list;

pub use path::key2path;
pub use placement::key2volumes;
