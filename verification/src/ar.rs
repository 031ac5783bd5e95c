//! The archive container: its entry tree, its header encoding and the
//! layout of the file that holds both.

pub mod aead;
pub mod bar;
pub mod entry;
pub mod flate;
pub mod layout;
pub mod msgpack;
pub mod pack;
pub mod store;
pub mod unpack;

pub use bar::{Bar, BarErr, BarResult};
