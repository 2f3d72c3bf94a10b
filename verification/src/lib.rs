pub mod assemble;
pub mod codegen;
pub mod inst;
pub mod parser;
pub mod symtab;
