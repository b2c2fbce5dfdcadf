//! sudo2fa: a TOTP authorization helper for Linux, with its logic verified.
//!
//! A human proves possession of a TOTP secret with a six-digit code; the
//! code (or a short-lived signed token minted with it) authorizes one
//! command as root. This crate holds everything that decides: the codes
//! (`totp`, over `crypto`), the tokens (`token`, `base64`), the secret store
//! (`keyfile`, `base32`), the command line (`cli`), what the kernel reports
//! (`procinfo`), failed-attempt throttling (`throttle`) and the QR code an
//! authenticator scans (`qr`). Reading files, running programs and printing
//! are left to the `sudo2fa` binary.
pub mod text;
pub mod split;
pub mod clock;
pub mod crypto;
pub mod base64;
pub mod base32;
pub mod totp;
pub mod token;
pub mod throttle;
pub mod keyfile;
pub mod procinfo;
pub mod cli;
pub mod qr;
