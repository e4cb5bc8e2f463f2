//! Verified logic of five small network servers and the JSON library that they share.

pub mod json;
pub mod parse;
pub mod text;
pub mod roundtrip;
pub mod spacing;
pub mod cipher;
pub mod toys;
pub mod prime;
pub mod chat;
pub mod jobs;
pub mod request;
pub mod centre;
