pub mod frontend;
pub mod ir;
