//! Everything needed to get started.

pub use crate::combination::Combination;
pub use crate::events::Delay;
pub use crate::events::ReadySpawnEvent;
pub use crate::events::SpawnEvent;
pub use crate::router::Dispatch;
