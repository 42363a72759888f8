//! Wire-format codec for SOCKS-style network endpoint descriptors.
//!
//! An [`Address`](addr::Address) is either a resolved numeric endpoint (an
//! IPv4 or IPv6 address with a port) or an unresolved hostname with a port.
//! The codec converts between that in-memory form and a compact binary
//! representation: a one-byte address-type tag followed by a type-specific
//! payload, with all multi-byte integers big-endian.

pub mod addr;
pub mod codec;
pub mod framing;
pub mod literal;

pub use addr::Address;
pub use addr::AddressError;
pub use addr::AddressSpec;
pub use addr::IpAddr;
