//! Connection-initialization handshake of a stateful, message-framed
//! subscription protocol.
//!
//! A freshly opened connection starts out untrusted. Exactly one
//! `connection_init` message may move it to the initialized state, binding it
//! to an authorized session and to a single, fixed set of effective request
//! headers. The headers are merged from two sources of different trust:
//! client-declared payload headers and the handshake headers injected by the
//! surrounding infrastructure; on conflict the handshake value always wins.
//! Every failure other than a duplicate initialization is reported to the
//! client only as a generic forbidden signal.
//!
//! [`headers`] holds the header model and the merger; [`init`] holds the
//! connection state machine, the initializer, and the error classifier.

pub mod headers;
pub mod init;
