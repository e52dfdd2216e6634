//! Door shuffling for a fixed map of interconnected rooms.
//!
//! The rooms of the map keep their entrances and exits; what changes is which
//! exit leads to which entrance. [`shuffler::Shuffler`] holds the index of
//! the unshuffled map and draws a new, fully traversable wiring at random;
//! [`csv_loader::CsvLoader`] reads the rooms and doors from the rows of two
//! tables, and [`rom::Rom`] writes the resulting doors into a binary image.
//!
//! The steps of a shuffle are in [`selection`], [`connection`] and
//! [`shuffle`]; what holds of every shuffle is proved in [`completeness`],
//! [`reachability`] and [`laws`].

pub mod bimap;
pub mod completeness;
pub mod connection;
pub mod connectivity;
pub mod csv_loader;
pub mod laws;
pub mod model;
pub mod random;
pub mod reachability;
pub mod rom;
pub mod selection;
pub mod sequences;
pub mod shuffle;
pub mod shuffler;
pub mod text;
