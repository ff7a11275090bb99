//! Querying and editing Valheim (Fejd) save files: the string hashes the game
//! keys objects by, the byte formats of world saves, and the rules
//! that repair and convert them.

pub mod hash;
pub mod wire;
pub mod seqcodec;
pub mod text;
pub mod primitives;
pub mod versions;
pub mod zdo;
pub mod schema;
pub mod names;
pub mod clean;
pub mod chunked;
pub mod chunk_files;
pub mod compress;
pub mod world_db;
pub mod db2;
pub mod chunked_db;
pub mod fwl;
pub mod world;
pub mod paths;
pub mod inventory;
pub mod container;
pub mod migrate;
pub mod repair;
pub mod survey;
pub mod search;
pub mod fch;
