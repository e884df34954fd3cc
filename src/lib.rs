//! Durable-storage primitives for a crash-consistent key-value store: an
//! append-only operation log with per-record checksums and prefix recovery,
//! the fold of recovered operations into state, and the protocol that
//! publishes a file image atomically.

pub mod checksum;
pub mod record;
pub mod recovery;
pub mod state;
pub mod publish;

pub use publish::{Action, Parent, PublishError, Step};
pub use record::{encode_record, scan_payloads};
pub use state::{recover_state, Operation, State};
