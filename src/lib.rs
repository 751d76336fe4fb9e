pub mod correlator;
pub mod desktop;
pub mod drop_reason;
pub mod event;
pub mod mock;
pub mod pipeline;
pub mod session;
pub mod text;
pub mod types;
pub mod wire;
