pub mod assoc;
mod clock;
pub mod compiler;
pub mod group_laws;
pub mod groups;
pub mod memory;
pub mod model;
pub mod output;
pub mod prompt;
pub mod unicode;
pub mod store_laws;
