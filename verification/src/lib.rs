//! Hardware metrics on addressable LEDs.
pub mod bytes;
pub mod config;
pub mod cpu;
pub mod cursor;
pub mod encoding;
pub mod frame;
pub mod gpu;
pub mod grammar;
pub mod hwmon;
pub mod layout;
pub mod message;
pub mod metrics;
pub mod notation;
pub mod nvidia;
pub mod openrgb;
pub mod packet;
pub mod pci;
pub mod search;
pub mod selection;
pub mod session;
pub mod temp;
pub mod text;
