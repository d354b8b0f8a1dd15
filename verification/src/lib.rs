pub mod codec;
pub mod compact;
pub mod error;
pub mod layer;
pub mod molecule;
pub mod namespace;
pub mod numbers;
pub mod pair;
pub mod params;
pub mod plugin;
pub mod shared;
pub mod stack;
pub mod stacktree;
pub mod store;
pub mod tablespec;
pub mod workspace;
