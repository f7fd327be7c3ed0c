pub mod repeatreader;
pub mod voidwriter;

pub use repeatreader::RepeatReader;
pub use voidwriter::VoidWriter;
