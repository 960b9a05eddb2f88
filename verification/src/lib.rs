//! Control of an Apple TV over the Companion link.
//!
//! ```text
//!   _companion-link._tcp   mDNS, and the SRV record carries the port. It is not fixed.
//!   PS_Start / PS_Next     Pair Setup, once, against a PIN on the television
//!   PV_Start / PV_Next     Pair Verify, on every connection after that
//!   E_OPACK                everything else, inside a ChaCha20-Poly1305 session
//! ```
//!
//! [`setup`] finds a device and pairs with it; [`device`] drives it once it is paired. Both take
//! decisions only: they are handed what arrived and hand back what to send, say or ask. Under them
//! are the pairing handshake ([`srp`]), the framing ([`frame`]) and the two encodings ([`opack`],
//! [`tlv8`]); beside them is the table of deep links ([`links`]). What the cryptography is
//! believed to do is in [`crypto`].
//!
//! What holds of each is proved beside it: of the handshake in [`srp::laws`], of OPACK in
//! [`opack::laws`] and, tag by tag, in [`opack::table`], of the driver in [`device::laws`] and
//! [`device::conduct`], of setting up in [`setup::laws`].

pub mod bytes;
pub mod crypto;
pub mod device;
pub mod frame;
pub mod hex;
pub mod host;
pub mod links;
pub mod opack;
pub mod setup;
pub mod srp;
pub mod steps;
pub mod strmap;
pub mod text;
pub mod tlv8;

pub use device::AppleTv;
