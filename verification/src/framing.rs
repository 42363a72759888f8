//! Sizing rules for reading an address incrementally off a byte stream.
//!
//! A reader that does not know the frame length in advance pulls one tag
//! byte, asks [`Address::payload_len_after_tag`] how many bytes must follow,
//! and — for a domain frame — pulls the one length byte first and asks
//! [`Address::payload_len_after_domain_len`] for the rest.  The caller owning
//! the stream performs the reads; the decisions are made here.

use vstd::prelude::*;

use crate::addr::{Address, AddressError, AddressSpec};
use crate::codec::{implied_len, known_tag, spec_decode, ATYP_DOMAIN, ATYP_IPV4, ATYP_IPV6};

verus! {

/// How much payload follows a tag byte.
#[derive(Clone, Copy, Debug, PartialEq, Eq)]
pub enum PayloadLen {
    /// Exactly this many bytes complete the frame.
    Fixed(usize),
    /// A one-byte name length comes first; only it tells how much follows.
    DomainPrefixed,
}

impl Address {
    /// How many bytes must be read after the tag byte `atyp`, or the
    /// unsupported-type error carrying `atyp` when it is no recognized tag —
    /// in which case nothing further may be read, since no length is implied.
    pub fn payload_len_after_tag(atyp: u8) -> (r: Result<PayloadLen, AddressError>)
        ensures
            r is Ok <==> known_tag(atyp),
            match r {
                Ok(PayloadLen::Fixed(n)) => (atyp == ATYP_IPV4 && n == 6) || (atyp == ATYP_IPV6
                    && n == 18),
                Ok(PayloadLen::DomainPrefixed) => atyp == ATYP_DOMAIN,
                Err(e) => e == AddressError::UnsupportedType(atyp),
            },
    {
        if atyp == ATYP_IPV4 {
            Ok(PayloadLen::Fixed(6))
        } else if atyp == ATYP_DOMAIN {
            Ok(PayloadLen::DomainPrefixed)
        } else if atyp == ATYP_IPV6 {
            Ok(PayloadLen::Fixed(18))
        } else {
            Err(AddressError::UnsupportedType(atyp))
        }
    }

    /// How many bytes must be read after a domain frame's length byte: the
    /// name itself and the two port bytes.
    pub fn payload_len_after_domain_len(len: u8) -> (r: usize)
        ensures
            r == len + 2,
    {
        (len as usize) + 2
    }
}

/// A frame assembled as the sizing rules direct — a recognized tag byte
/// followed by exactly the bytes they asked for — is complete: decoding it
/// never fails for want of bytes.
pub proof fn lemma_framed_bytes_complete(b: Seq<u8>)
    requires
        b.len() >= 1,
        known_tag(b[0]),
        b[0] == ATYP_IPV4 ==> b.len() == 7,
        b[0] == ATYP_IPV6 ==> b.len() == 19,
        b[0] == ATYP_DOMAIN ==> b.len() >= 2 && b.len() == 4 + b[1],
    ensures
        b.len() == implied_len(b),
        spec_decode(b) != Err::<AddressSpec, AddressError>(AddressError::UnexpectedEnd),
{
    crate::codec::lemma_complete_frame(b);
}

} // verus!
