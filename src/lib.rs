pub mod character_string;
pub mod classify;
pub mod domain_name;
pub mod entry;
pub mod lexer;
pub mod rdata;
pub mod records;
