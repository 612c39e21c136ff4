//! Small line-oriented `cat` and directory-listing `ls` tools: the formatting,
//! numbering, filtering and ordering rules, proved against their contracts.
pub mod text;
pub mod cat;
pub mod ls;
