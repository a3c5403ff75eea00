pub mod bytes;
pub mod command;
pub mod encoding;
pub mod parser;
pub mod server;
pub mod store;
pub mod utf8;

pub use command::get_command;
pub use command::Command;
pub use parser::parse;
pub use parser::parse_int;
pub use parser::ParsingError;
pub use parser::Value;
pub use store::Store;
