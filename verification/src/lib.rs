//! Vocabulary bookkeeping and language-file synchronisation.
//!
//! `sphere` reads the vocabulary: configuration lists and the words of each
//! vocabulary file. `sync` keeps the per-language files of each
//! word type in step with the vocabulary and renders release files.
//! `text` holds the character-level primitives both rest on, `ranks` the
//! rank-keyed table that holds the lines of one language file, and
//! `roundtrip` the proof that what is written reads back, and `behaviour`
//! what each step of the synchronisation does, stated over its inputs.

pub mod behaviour;
pub mod ranks;
pub mod roundtrip;
pub mod sphere;
pub mod sync;
pub mod text;
