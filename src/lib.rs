pub mod driver;
pub mod parser_arg;
pub mod parser_ast;
pub mod parser_blc;
pub mod parser_lc;
pub mod printer;
pub mod render;
pub mod sll;
pub mod term;
