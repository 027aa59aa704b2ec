pub mod container;
pub mod error;
pub mod filesystem;
pub mod laws;
pub mod layout;
pub mod model;
pub mod path;
pub mod shell;
pub mod stdio;
pub mod user;
pub mod wellformed;
