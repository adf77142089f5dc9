pub mod errors;
pub mod protocl;
pub mod server;
pub mod util;
