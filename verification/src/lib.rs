pub mod decimal;
pub mod order;
pub mod types;
pub mod order_book;
