pub mod child_seq;
pub mod forest_context;
pub mod forest_node;
pub mod forest_node_content;
pub mod forest_node_rc;
pub mod forest_node_self;

pub use forest_context::{AccessConflict, ForestContext};
pub use forest_node::{Forest, ForestNode, ForestNodeIter};
pub use forest_node_content::ForestNodeContent;
pub use forest_node_rc::{ForestNodePtr, ForestNodeRc, ForestNodeRef, ForestNodeRefMut, ForestNodeWeak};
pub use forest_node_self::ForestNodeSelf;
