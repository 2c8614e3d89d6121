//! Core of an RFB (VNC) client for an e-ink panel: wire codec, handshake,
//! DES password authentication, ZRLE decoding, dirty-region coalescing and
//! refresh scheduling, all specified and verified; sockets, threads and the
//! panel driver live outside the library.
pub mod des;
pub mod dirty;
pub mod error;
pub mod postproc;
pub mod frame;
pub mod protocol;
pub mod rect;
pub mod session;
pub mod zlib;
pub mod zrle;
