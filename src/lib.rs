pub mod codec;
pub mod registry;
pub mod state;
pub mod types;
