pub mod diff;
pub mod format;
pub mod lexer;
pub mod parser;
pub mod render;
pub mod roundtrip;
pub mod value;

pub use diff::{element_diff, pretty_diff, structure_diff, DiffSetting, DiffType, JsonDiff};
pub use format::{minimize_json, pretty_json, PrettySetting};
pub use lexer::JsonLexer;
pub use parser::{build_json_graph, Expectation, ParseError};
pub use render::{num_text, serialize_json};
pub use value::{Decimal, JsonElement, JsonNum};
