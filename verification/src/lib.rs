//! Lucky numbers: a verified position sieve and the search for lucky members of sparse families.

pub mod lists;
pub mod lucky;
pub mod bits;
pub mod fenwick;
pub mod sieve;
pub mod scan;
pub mod text;
pub mod candidates;
pub mod families;
pub mod search;
pub mod laws;
pub mod search_laws;
pub mod label_laws;
pub mod family_laws;
pub mod config;
pub mod args;
pub mod text_laws;
pub mod args_laws;
pub mod name_laws;
pub mod sizing;
pub mod memory_laws;
pub mod sieve_laws;
pub mod selftest;
