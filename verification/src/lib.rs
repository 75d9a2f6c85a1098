mod array;
mod bounds;
mod error;
mod host;
mod json;
mod node;
mod number;
mod object;
mod string;

pub mod grammar;
pub mod laws;
pub mod model;
pub mod parser;

pub use self::array::ArrayParser;
pub use self::error::Error;
pub use self::json::Json;
pub use self::model::ErrorV;
pub use self::model::JsonVal;
pub use self::model::NumVal;
pub use self::node::NodeParser;
pub use self::number::Number;
pub use self::object::ObjectParser;
pub use self::string::StringParser;
