pub mod errors;
pub mod ops;
pub mod resolve;
pub mod table;
pub mod text;

pub use errors::CalcError;
pub use ops::Op;
pub use ops::parse_operator;
pub use resolve::column_index;
pub use table::SpreadSheet2D;
