//! A deck of items split by a cursor into a drawn prefix and a drawable suffix.

mod deck;

pub use deck::Deck;
