//! ASCII armor for OpenPGP data: the printable envelope of RFC 4880, section 6.
//!
//! The decoder is a pipeline of small stages, each with its contract:
//! characters become tokens, tokens become an armored message, the radix-64
//! body becomes octets, and the CRC-24 of the octets is held against the
//! checksum the armor declares.

pub mod armor;
pub mod armor_lexer;
pub mod base64;
pub mod crc24;
pub mod lexer;
pub mod lexer_laws;
pub mod message;
pub mod parser;
pub mod round_trip;
pub mod text;
pub mod token;
pub mod tokenizer;
