//! Durable queueing and delivery core of a mail transfer agent.
//!
//! Messages that a listener has accepted are stored in the spool, routed to
//! the queue of their routing key, attempted under the concurrency bound of
//! their destination, retried with backoff after transient failures, and
//! released from the spool once they are delivered or bounced. A lifecycle
//! controller drains the queues before the process stops.

pub mod entry;
pub mod history;
pub mod lifecycle;
pub mod manager;
pub mod pipeline;
pub mod policy;
pub mod queue;
pub mod record;
pub mod retry;
pub mod site;
pub mod spool;
pub mod spool_params;

pub use crate::lifecycle::{LifeCycle, Phase};
pub use crate::manager::QueueManager;
pub use crate::pipeline::Pipeline;
pub use crate::policy::{AttemptOutcome, QueueConfig};
pub use crate::queue::Queue;
pub use crate::record::{Envelope, MessageRecord, RecordState};
pub use crate::retry::RetryPolicy;
pub use crate::site::{DestSiteConfig, SiteManager};
pub use crate::spool::SpoolStorage;
pub use crate::spool_params::{DefineSpoolParams, SpoolKind};
