//! Text cleaning, chunking, hashing and result assembly for a small
//! retrieval service, together with the state machine of its chat client.

pub mod hash;
pub mod text;
pub mod database;
pub mod clean;
pub mod chat;
