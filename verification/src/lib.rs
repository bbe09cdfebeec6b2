//! A small library catalog: an ordered collection of book records with
//! case-insensitive search, index-based removal, and a text serialization
//! of the whole catalog that loads back exactly what was saved.

pub mod livre;
pub mod texte;
pub mod codec;
pub mod bibliotheque;
