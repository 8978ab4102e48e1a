//! Decision logic of an incremental transcript refresh: which directories can be reused,
//! which files changed, which checkpoint rows are written, and in which order the durable
//! state is migrated. Everything that touches the file system, a database or a clock stays
//! with the caller, which hands observations in and carries decisions out.

pub mod checkpoint;
pub mod codec;
pub mod exclude;
pub mod files;
pub mod inventory;
pub mod journal;
pub mod json;
pub mod keys;
pub mod lifecycle;
pub mod migration;
pub mod model;
pub mod opencode;
pub mod order;
pub mod outside;
pub mod path;
pub mod platform;
pub mod projection;
pub mod receipt;
pub mod recovery;
pub mod refresh;
pub mod scopes;
pub mod session;
pub mod skip;
pub mod sorted;
pub mod sources;
pub mod state;
pub mod text;
pub mod transcripts;
pub mod tree;
pub mod walk;
