//! Chronicle: recording, reconstruction, decoding and replay of socket traffic.

pub mod digest;
pub mod text;
pub mod recording_store;
pub mod protocol;
pub mod bytes;
pub mod session;
pub mod http;
pub mod chunked;
pub mod response;
pub mod decoder;
pub mod detector;
pub mod verify;
pub mod canonical;
pub mod replay;
pub mod continuation;
pub mod etl;
pub mod native;
pub mod publication;
pub mod storage;
pub mod incremental;
pub mod canonicalize;
pub mod ordering;
pub mod arrival;
pub mod replay_http;
pub mod assembler;
pub mod ingest;
pub mod streams;
pub mod correlation;
pub mod delta;
