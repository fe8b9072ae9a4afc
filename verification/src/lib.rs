//! A lexer and a parser for descriptions of a country's territories: the
//! lexer turns a source text into a lexem table, the parser reads the table
//! sentence by sentence (a country, then its regions and districts), records
//! the parse tree, and checks that the areas add up.
pub mod text;
pub mod lexer;
pub mod area;
pub mod rules;
pub mod parser;
