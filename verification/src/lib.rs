//! A local SMTP submission service that encrypts accepted mail with OpenPGP and relays it
//! over TLS: the protocol state machines, message transformations, configuration rules and
//! key selection logic, with their contracts.
pub mod config;
pub mod listener;
pub mod message;
pub mod net;
pub mod openpgp;
pub mod remote_smtp;
pub mod text;
pub mod tls;
