//! Stateless quiz state: the question set and its score bounds, the
//! in-progress session carried in a cookie, and the finished score carried in
//! a share link.

pub mod bounds;
pub mod fingerprint;
pub mod schema;
pub mod session;
pub mod sharing;
pub mod text;
pub mod wire;
