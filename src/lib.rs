//! An archetype-based entity/component store with resources, per-cycle
//! change tracking, and sessions whose Parameters are checked for aliasing
//! by a request tracker.
pub mod archetype;
pub mod identity;
pub mod query_world;
pub mod registry;
pub mod requests;
pub mod rotations;
pub mod small_list;
pub mod storage;
pub mod world;

pub use archetype::{ArchetypeID, ArchetypeInfo, ArchetypeManager};
pub use identity::{EntityID, EntityInfo};
pub use query_world::{AccessError, ChangesG, CommandsG, ParamGuard, PendingCommand, QueryWorld};
pub use requests::{ComponentRequests, WithG, WithoutG};
pub use small_list::Request;
pub use storage::{ChangeManager, ComponentList, ResourceStorage, StorageID};
pub use world::{Command, World};
