//! Parsing and building of cookie strings, independent of any host.

pub mod cookies;
pub mod guarantees;
pub mod percent;
pub mod text;

pub use cookies::AllDecodeError;
pub use cookies::CookieOptions;
pub use cookies::SameSite;
pub use urlencoding::FromUrlEncodingError;
