//! The pure logic of the Windows adaptors: result codes, service settings,
//! registry value layouts, file times, access-control entries and captured
//! console output.
pub mod error;
pub mod services;
pub mod registry;
pub mod filetime;
pub mod security;
pub mod security_descriptor;
pub mod console_capture;
pub mod filesystem;
