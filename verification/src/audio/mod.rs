pub mod backend;
pub mod wav;
pub mod mixer;
