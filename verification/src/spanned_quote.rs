//! The builder and what it records about the call sites that fed it.

pub mod buffer;
pub mod location;
pub mod ops;
pub mod template;

pub use self::buffer::Quote;
pub use self::location::Location;
