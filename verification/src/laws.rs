//! What the library promises of whole inputs: stated on what is written in a
//! file or published in a record, and on what is reported of it.
pub mod advisories;
pub mod asking;
pub mod cargo;
pub mod constraints;
pub mod fetching;
pub mod following;
pub mod gomod;
pub mod legacy;
pub mod npm;
pub mod pip;
pub mod reaching;
pub mod reports;
pub mod serving;
pub mod showing;
pub mod toml;
pub mod versions;
pub mod wording;
pub mod workspace;
pub mod writing;
