//! A client library for the `iiod` network protocol of Linux IIO devices.
pub mod device;
pub mod error;
pub mod protocol;
pub mod text;
pub mod transport;
pub mod xml;

pub use device::{Attr, Channel, Context, Device, Version};
pub use error::Error;
pub use transport::{Transport, IIOD_PORT};
