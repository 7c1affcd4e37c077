//! Verified core of a Minecraft world converter: NBT and Anvil region
//! checking, NetEase LevelDB key recovery and decryption, world detection,
//! archive safety rules, version handling and session bookkeeping.

pub mod codec;
pub mod error;
pub mod models;
pub mod nbt;
pub mod text;
pub mod validate;
pub mod decrypt;
pub mod detect;
pub mod version;
pub mod archive;
pub mod backends;
pub mod entity;
pub mod engine;
