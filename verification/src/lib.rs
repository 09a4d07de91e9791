//! A generational arena: a growable store that hands out small copyable
//! handles and detects the use of a handle whose slot has been vacated.

pub mod arena;
pub mod handle;
pub mod iter;
pub mod laws;
pub mod model;
pub mod render;
pub mod typed;

pub use arena::Arena;
pub use handle::GenIndex;
pub use handle::Handle;
pub use handle::Id;
pub use iter::IntoIter;
pub use iter::Iter;
pub use iter::IterMut;
pub use model::ArenaModel;
pub use model::Op;
pub use model::SlotModel;
