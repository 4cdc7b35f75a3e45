pub mod text;
pub mod scanner;
pub mod ste100;
pub mod store;
