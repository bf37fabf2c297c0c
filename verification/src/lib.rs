//! Slide-deck presentation logic: slide file naming, presenter notes,
//! chapter navigation, the transition state machine, command-line
//! handling and the example deck.
pub mod text;
pub mod texture;
pub mod config;
pub mod navigation;
pub mod example;
pub mod notes_file;
