pub mod bbr_transport;
pub mod codec;
pub mod config;
pub mod sliding_window;
pub mod transport;
