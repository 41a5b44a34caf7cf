//! Keeps a text snapshot of a listener's liked songs.
//!
//! The entries of the library are normalized (`track`), put in order
//! (`sorting`) and written one JSON record per line (`json`, `snapshot`).
//! The snapshot of a library does not depend on the order in which its
//! entries were fetched, and it can be read back (`readback`). What changed
//! since the previous snapshot is reported as a unified diff (`diff`). The
//! modules `credentials`, `authorization` and `store` hold what the program
//! around this library needs to log in to the music service and to keep the
//! snapshot in an object store.

pub mod authorization;
pub mod credentials;
pub mod diff;
pub mod json;
pub mod merging;
pub mod readback;
pub mod snapshot;
pub mod sorting;
pub mod stability;
pub mod store;
pub mod text;
pub mod track;
