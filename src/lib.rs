//! Reading, selecting and updating display backlight devices.
//!
//! The library holds the logic: the text of a device's attribute files,
//! the set of devices found under the backlight root, and the choice of
//! one of them. Reading and writing the files is left to the caller.

pub mod attribute;
pub mod device;
pub mod error;
