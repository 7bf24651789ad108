//! Cookie header codec: parse a raw `Cookie` header value into a mapping of
//! cookie names to values, and format `Set-Cookie` header values carrying a
//! fixed set of security attributes.

pub mod cookie_map;
pub mod cookies;
pub mod laws;
pub mod model;

pub use cookie_map::CookieMap;
pub use cookies::expired;
pub use cookies::parse;
pub use cookies::persistent;
pub use cookies::session;
