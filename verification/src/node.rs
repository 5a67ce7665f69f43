pub mod ctrie;
pub mod indirection;
pub mod list;
pub mod main;
pub mod singleton;
pub mod tomb;

pub use self::ctrie::{Branch, CtrieNode};
pub use self::indirection::IndirectionNode;
pub use self::list::ListNode;
pub use self::main::{MainNode, MainNodeKind};
pub use self::singleton::SingletonNode;
pub use self::tomb::TombNode;
