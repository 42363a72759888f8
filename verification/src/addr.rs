//! The endpoint descriptor type, its mathematical model, and its errors.

use vstd::prelude::*;
use vstd::utf8::encode_utf8;

verus! {

/// A numeric IP address: four octets, or eight 16-bit segments.
#[derive(Clone, Copy, Debug, PartialEq, Eq, Hash, PartialOrd, Ord)]
pub enum IpAddr {
    V4([u8; 4]),
    V6([u16; 8]),
}

/// A network endpoint descriptor: either a resolved numeric address with a
/// port, or an unresolved hostname with a port.
#[derive(Clone, Debug, PartialEq, Eq, Hash, PartialOrd, Ord)]
pub enum Address {
    SocketAddress(IpAddr, u16),
    DomainAddress(String, u16),
}

/// Failures of decoding and of literal reinterpretation.
#[derive(Clone, Debug, PartialEq, Eq)]
pub enum AddressError {
    /// The type tag is none of the recognized values; carries the tag.
    UnsupportedType(u8),
    /// A domain-name payload is not valid UTF-8.
    InvalidEncoding,
    /// The input ends before the length its own tag and length byte imply.
    UnexpectedEnd,
    /// A domain name could not be reinterpreted as a numeric address literal;
    /// carries the name.
    UnresolvedDomain(String),
}

/// The mathematical model of an [`Address`]: payloads as sequences.
#[verifier::ext_equal]
pub enum AddressSpec {
    V4 { ip: Seq<u8>, port: u16 },
    V6 { segs: Seq<u16>, port: u16 },
    Domain { name: Seq<char>, port: u16 },
}

impl AddressSpec {
    /// Shape of every model that an exec [`Address`] can take: numeric
    /// payloads have their fixed widths, and a domain name fits the one-byte
    /// length prefix of the wire format.
    pub open spec fn wf(self) -> bool {
        match self {
            AddressSpec::V4 { ip, .. } => ip.len() == 4,
            AddressSpec::V6 { segs, .. } => segs.len() == 8,
            AddressSpec::Domain { name, .. } => encode_utf8(name).len() <= 255,
        }
    }
}

impl View for Address {
    type V = AddressSpec;

    open spec fn view(&self) -> AddressSpec {
        match *self {
            Address::SocketAddress(ip, port) => match ip {
                IpAddr::V4(oct) => AddressSpec::V4 { ip: oct@, port },
                IpAddr::V6(segs) => AddressSpec::V6 { segs: segs@, port },
            },
            Address::DomainAddress(name, port) => AddressSpec::Domain { name: name@, port },
        }
    }
}

impl Address {
    /// A constructible address: every variant but a domain one is, and a
    /// domain name must occupy at most 255 bytes once UTF-8 encoded, so that
    /// its length fits the one-byte length prefix of the wire format.
    pub open spec fn wf(&self) -> bool {
        self@.wf()
    }

    /// The all-zero IPv4 endpoint with port zero.
    pub fn unspecified() -> (r: Self)
        ensures
            r == Address::SocketAddress(IpAddr::V4([0u8, 0u8, 0u8, 0u8]), 0u16),
            r.wf(),
    {
        Address::SocketAddress(IpAddr::V4([0u8, 0u8, 0u8, 0u8]), 0u16)
    }
}

impl Address {
    /// Pairs borrowed hostname text with a port.
    pub fn from_domain_str(name: &str, port: u16) -> (r: Self)
        ensures
            r matches Address::DomainAddress(n, p) && n@ == name@ && p == port,
    {
        Address::DomainAddress(name.to_owned(), port)
    }
}

impl From<(IpAddr, u16)> for Address {
    /// Pairs a numeric address with a port.
    fn from(pair: (IpAddr, u16)) -> (r: Self) {
        Address::SocketAddress(pair.0, pair.1)
    }
}

impl vstd::std_specs::convert::FromSpecImpl<(IpAddr, u16)> for Address {
    open spec fn obeys_from_spec() -> bool {
        true
    }

    open spec fn from_spec(pair: (IpAddr, u16)) -> Self {
        Address::SocketAddress(pair.0, pair.1)
    }
}

impl From<(String, u16)> for Address {
    /// Pairs a hostname with a port.
    fn from(pair: (String, u16)) -> (r: Self) {
        Address::DomainAddress(pair.0, pair.1)
    }
}

impl vstd::std_specs::convert::FromSpecImpl<(String, u16)> for Address {
    open spec fn obeys_from_spec() -> bool {
        true
    }

    open spec fn from_spec(pair: (String, u16)) -> Self {
        Address::DomainAddress(pair.0, pair.1)
    }
}

} // verus!
