//! B+ trees whose leaf pages are linked to both sides and whose nodes are linked to the right.
pub mod cursor;
pub mod external;
pub mod grow;
pub mod insert;
pub mod level;
pub mod ops;
pub mod page_schema;
pub mod prune;
pub mod prune_any;
pub mod prune_row;
pub mod prune_rows;
pub mod prune_split;
pub mod prune_state;
pub mod prune_step;
pub mod removal;
pub mod node;
pub mod search;
pub mod shape;
pub mod storage;
pub mod tree;
