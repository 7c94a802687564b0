pub mod atlas;
pub mod bundle;
pub mod cache;
pub mod handle;
pub mod image;
pub mod io;
pub mod json;
pub mod obj;
pub mod server;
