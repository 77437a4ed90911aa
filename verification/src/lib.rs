//! Core of an incremental language analysis server: the syntax tree arena, the
//! file registry, the versioned world with its snapshots, and the decisions of
//! the main loop, each with a contract that Verus proves.

pub mod builder_model;
pub mod cancel;
pub mod decimal;
pub mod file_builder;
pub mod fixture;
pub mod fx_set;
pub mod ids;
pub mod main_loop;
pub mod messages;
pub mod mock;
pub mod mock_analysis;
pub mod path_map;
pub mod pending;
pub mod persistent;
pub mod rel_path;
pub mod req;
pub mod resolver;
pub mod server_world;
pub mod split;
pub mod subscriptions;
pub mod sync;
pub mod text;
pub mod tree;
pub mod tree_log;
pub mod tree_model;
pub mod tree_shape;
pub mod vfs;
pub mod world;
