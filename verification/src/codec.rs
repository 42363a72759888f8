//! The binary wire format: layout, encoder, decoder, and size computations.
//!
//! A serialized address is a one-byte type tag followed by a type-specific
//! payload; every multi-byte integer is big-endian:
//!
//! * tag `0x01`: four address octets, then a two-byte port (7 bytes total);
//! * tag `0x03`: a one-byte name length `L`, then `L` bytes of UTF-8 name,
//!   then a two-byte port (`4 + L` bytes total);
//! * tag `0x04`: eight two-byte address segments, then a two-byte port
//!   (19 bytes total).
//!
//! Any other tag is a protocol violation.

use vstd::prelude::*;
use vstd::utf8::{decode_utf8, encode_utf8, valid_utf8};
use vstd::utf8::{decode_utf8_encode_utf8, encode_utf8_decode_utf8, encode_utf8_valid_utf8};

use crate::addr::{Address, AddressError, AddressSpec, IpAddr};

verus! {

/// Type tag of a four-octet numeric address.
pub const ATYP_IPV4: u8 = 0x01;

/// Type tag of a length-prefixed domain name.
pub const ATYP_DOMAIN: u8 = 0x03;

/// Type tag of an eight-segment numeric address.
pub const ATYP_IPV6: u8 = 0x04;

/// Greatest number of bytes any address serializes to: a tag, a name length
/// byte, the longest possible name, and a port.
pub const MAX_SERIALIZED_LEN: usize = 1 + 1 + 255 + 2;

/// High byte of a 16-bit value in big-endian order.
pub open spec fn be_hi(x: u16) -> u8 {
    (x / 0x100) as u8
}

/// Low byte of a 16-bit value in big-endian order.
pub open spec fn be_lo(x: u16) -> u8 {
    (x % 0x100) as u8
}

/// The 16-bit value whose big-endian bytes are `hi` then `lo`.
pub open spec fn u16_from_be(hi: u8, lo: u8) -> u16 {
    ((hi as int) * 0x100 + (lo as int)) as u16
}

/// Big-endian bytes of the first `n` segments, in order.
pub open spec fn segs_be(segs: Seq<u16>, n: int) -> Seq<u8>
    decreases n,
{
    if n <= 0 {
        Seq::empty()
    } else {
        segs_be(segs, n - 1) + seq![be_hi(segs[n - 1]), be_lo(segs[n - 1])]
    }
}

/// The exact byte sequence the encoder emits for an address.
pub open spec fn wire_bytes(a: AddressSpec) -> Seq<u8>
    recommends
        a.wf(),
{
    match a {
        AddressSpec::V4 { ip, port } => seq![
            ATYP_IPV4,
            ip[0],
            ip[1],
            ip[2],
            ip[3],
            be_hi(port),
            be_lo(port),
        ],
        AddressSpec::V6 { segs, port } => seq![ATYP_IPV6] + segs_be(segs, 8) + seq![
            be_hi(port),
            be_lo(port),
        ],
        AddressSpec::Domain { name, port } => seq![
            ATYP_DOMAIN,
            encode_utf8(name).len() as u8,
        ] + encode_utf8(name) + seq![be_hi(port), be_lo(port)],
    }
}

/// The exact number of bytes an address serializes to.
pub open spec fn spec_serialized_len(a: AddressSpec) -> int {
    match a {
        AddressSpec::V4 { .. } => 7,
        AddressSpec::V6 { .. } => 19,
        AddressSpec::Domain { name, .. } => 4 + encode_utf8(name).len() as int,
    }
}

/// What decoding a byte sequence yields: the address encoded by its prefix,
/// or the first failure the decoder meets.
pub open spec fn spec_decode(b: Seq<u8>) -> Result<AddressSpec, AddressError> {
    if b.len() < 1 {
        Err(AddressError::UnexpectedEnd)
    } else if b[0] == ATYP_IPV4 {
        if b.len() < 7 {
            Err(AddressError::UnexpectedEnd)
        } else {
            Ok(AddressSpec::V4 { ip: b.subrange(1, 5), port: u16_from_be(b[5], b[6]) })
        }
    } else if b[0] == ATYP_DOMAIN {
        if b.len() < 2 {
            Err(AddressError::UnexpectedEnd)
        } else if b.len() < 4 + b[1] {
            Err(AddressError::UnexpectedEnd)
        } else {
            let name_bytes = b.subrange(2, 2 + b[1]);
            if valid_utf8(name_bytes) {
                Ok(
                    AddressSpec::Domain {
                        name: decode_utf8(name_bytes),
                        port: u16_from_be(b[2 + b[1]], b[3 + b[1]]),
                    },
                )
            } else {
                Err(AddressError::InvalidEncoding)
            }
        }
    } else if b[0] == ATYP_IPV6 {
        if b.len() < 19 {
            Err(AddressError::UnexpectedEnd)
        } else {
            Ok(
                AddressSpec::V6 {
                    segs: Seq::new(8, |i: int| u16_from_be(b[1 + 2 * i], b[2 + 2 * i])),
                    port: u16_from_be(b[17], b[18]),
                },
            )
        }
    } else {
        Err(AddressError::UnsupportedType(b[0]))
    }
}

/// The first `n` segments occupy `2 * n` bytes.
pub proof fn lemma_segs_be_len(segs: Seq<u16>, n: int)
    requires
        0 <= n,
    ensures
        segs_be(segs, n).len() == 2 * n,
    decreases n,
{
    if n > 0 {
        lemma_segs_be_len(segs, n - 1);
    }
}

/// Byte `2 * k` of the segment bytes is the high byte of segment `k`, and
/// byte `2 * k + 1` its low byte.
pub proof fn lemma_segs_be_index(segs: Seq<u16>, n: int, k: int)
    requires
        0 <= k < n,
    ensures
        segs_be(segs, n)[2 * k] == be_hi(segs[k]),
        segs_be(segs, n)[2 * k + 1] == be_lo(segs[k]),
    decreases n,
{
    lemma_segs_be_len(segs, n - 1);
    if k < n - 1 {
        lemma_segs_be_index(segs, n - 1, k);
    }
}

/// A 16-bit value is recovered from its own big-endian bytes.
pub proof fn lemma_be16_round_trip(x: u16)
    ensures
        u16_from_be(be_hi(x), be_lo(x)) == x,
{
    assert((x as int) / 0x100 * 0x100 + (x as int) % 0x100 == x as int) by (nonlinear_arith);
}

fn be16_hi(x: u16) -> (b: u8)
    ensures
        b == be_hi(x),
{
    (x / 0x100) as u8
}

fn be16_lo(x: u16) -> (b: u8)
    ensures
        b == be_lo(x),
{
    (x % 0x100) as u8
}

fn be16_read(hi: u8, lo: u8) -> (x: u16)
    ensures
        x == u16_from_be(hi, lo),
{
    (hi as u16) * 0x100 + (lo as u16)
}

/// Relies on `String::from_utf8`: it returns the string holding exactly the
/// given bytes when they are valid UTF-8, and fails otherwise.
#[verifier::external_body]
fn string_from_utf8(v: Vec<u8>) -> (r: Option<String>)
    ensures
        r matches Some(s) ==> valid_utf8(v@) && s@ == decode_utf8(v@),
        r is None ==> !valid_utf8(v@),
{
    match String::from_utf8(v) {
        Ok(s) => Some(s),
        Err(_) => None,
    }
}

impl Address {
    /// Appends the wire form of this address to `buf`, leaving the bytes
    /// already there untouched.
    pub fn write_to_buf(&self, buf: &mut Vec<u8>)
        requires
            self.wf(),
        ensures
            final(buf)@ == old(buf)@ + wire_bytes(self@),
    {
        match self {
            Address::SocketAddress(ip, port) => match ip {
                IpAddr::V4(oct) => {
                    buf.push(ATYP_IPV4);
                    buf.push(oct[0]);
                    buf.push(oct[1]);
                    buf.push(oct[2]);
                    buf.push(oct[3]);
                    buf.push(be16_hi(*port));
                    buf.push(be16_lo(*port));
                    proof {
                        assert(buf@ =~= old(buf)@ + wire_bytes(self@));
                    }
                },
                IpAddr::V6(segs) => {
                    buf.push(ATYP_IPV6);
                    proof {
                        assert(buf@ =~= old(buf)@ + seq![ATYP_IPV6] + segs_be(segs@, 0));
                    }
                    let mut i: usize = 0;
                    while i < 8
                        invariant
                            i <= 8,
                            buf@ == old(buf)@ + seq![ATYP_IPV6] + segs_be(segs@, i as int),
                        decreases 8 - i,
                    {
                        buf.push(be16_hi(segs[i]));
                        buf.push(be16_lo(segs[i]));
                        proof {
                            assert(buf@ =~= old(buf)@ + seq![ATYP_IPV6] + segs_be(
                                segs@,
                                i + 1,
                            ));
                        }
                        i = i + 1;
                    }
                    buf.push(be16_hi(*port));
                    buf.push(be16_lo(*port));
                    proof {
                        assert(buf@ =~= old(buf)@ + wire_bytes(self@));
                    }
                },
            },
            Address::DomainAddress(name, port) => {
                let nb = name.as_str().as_bytes();
                let n = nb.len();
                buf.push(ATYP_DOMAIN);
                buf.push(n as u8);
                let ghost head = old(buf)@ + seq![ATYP_DOMAIN, encode_utf8(name@).len() as u8];
                proof {
                    assert(buf@ =~= head + encode_utf8(name@).subrange(0, 0));
                }
                let mut i: usize = 0;
                while i < n
                    invariant
                        i <= n,
                        n == nb@.len(),
                        nb@ == encode_utf8(name@),
                        buf@ == head + encode_utf8(name@).subrange(0, i as int),
                    decreases n - i,
                {
                    buf.push(nb[i]);
                    proof {
                        assert(buf@ =~= head + encode_utf8(name@).subrange(0, i + 1));
                    }
                    i = i + 1;
                }
                buf.push(be16_hi(*port));
                buf.push(be16_lo(*port));
                proof {
                    assert(encode_utf8(name@).subrange(0, encode_utf8(name@).len() as int) =~=
                        encode_utf8(name@));
                    assert(buf@ =~= old(buf)@ + wire_bytes(self@));
                }
            },
        }
    }

    /// The wire form of this address as a fresh buffer.
    pub fn to_bytes(&self) -> (r: Vec<u8>)
        requires
            self.wf(),
        ensures
            r@ == wire_bytes(self@),
    {
        let mut buf: Vec<u8> = Vec::new();
        self.write_to_buf(&mut buf);
        buf
    }

    /// The exact number of bytes [`Self::write_to_buf`] emits for this
    /// address.
    pub fn serialized_len(&self) -> (n: usize)
        requires
            self.wf(),
        ensures
            n == spec_serialized_len(self@),
            n == wire_bytes(self@).len(),
    {
        proof {
            lemma_spec_serialized_len(self@);
        }
        match self {
            Address::SocketAddress(ip, _) => match ip {
                IpAddr::V4(_) => 1 + 6,
                IpAddr::V6(_) => 1 + 18,
            },
            Address::DomainAddress(name, _) => 1 + 1 + name.as_str().len() + 2,
        }
    }

    /// The greatest value [`Self::serialized_len`] can take, across all
    /// constructible addresses.
    pub fn max_serialized_len() -> (n: usize)
        ensures
            n == MAX_SERIALIZED_LEN,
    {
        MAX_SERIALIZED_LEN
    }

    /// Decodes the prefix of `data` into an address; bytes past the encoded
    /// length are ignored.  Fails exactly as [`spec_decode`] states: on an
    /// unrecognized tag, on a domain name that is not UTF-8, and on a buffer
    /// shorter than its own tag and length byte imply.
    pub fn from_data(data: &[u8]) -> (r: Result<Self, AddressError>)
        ensures
            match r {
                Ok(a) => spec_decode(data@) == Ok::<AddressSpec, AddressError>(a@) && a.wf(),
                Err(e) => spec_decode(data@) == Err::<AddressSpec, AddressError>(e),
            },
    {
        if data.len() < 1 {
            return Err(AddressError::UnexpectedEnd);
        }
        let atyp = data[0];
        if atyp == ATYP_IPV4 {
            if data.len() < 7 {
                return Err(AddressError::UnexpectedEnd);
            }
            let oct = [data[1], data[2], data[3], data[4]];
            let port = be16_read(data[5], data[6]);
            let a = Address::SocketAddress(IpAddr::V4(oct), port);
            proof {
                assert(spec_decode(data@) matches Ok(d) && d =~= a@);
            }
            Ok(a)
        } else if atyp == ATYP_DOMAIN {
            if data.len() < 2 {
                return Err(AddressError::UnexpectedEnd);
            }
            let n = data[1] as usize;
            if data.len() < 4 + n {
                return Err(AddressError::UnexpectedEnd);
            }
            let mut name_bytes: Vec<u8> = Vec::new();
            let mut i: usize = 0;
            while i < n
                invariant
                    i <= n,
                    n <= 255,
                    4 + n <= data@.len(),
                    name_bytes@ == data@.subrange(2, 2 + i as int),
                decreases n - i,
            {
                name_bytes.push(data[2 + i]);
                proof {
                    assert(name_bytes@ =~= data@.subrange(2, 2 + i + 1));
                }
                i = i + 1;
            }
            let port = be16_read(data[2 + n], data[3 + n]);
            match string_from_utf8(name_bytes) {
                Some(name) => {
                    let a = Address::DomainAddress(name, port);
                    proof {
                        decode_utf8_encode_utf8(data@.subrange(2, 2 + n as int));
                        assert(spec_decode(data@) matches Ok(d) && d =~= a@);
                    }
                    Ok(a)
                },
                None => Err(AddressError::InvalidEncoding),
            }
        } else if atyp == ATYP_IPV6 {
            if data.len() < 19 {
                return Err(AddressError::UnexpectedEnd);
            }
            let segs = [
                be16_read(data[1], data[2]),
                be16_read(data[3], data[4]),
                be16_read(data[5], data[6]),
                be16_read(data[7], data[8]),
                be16_read(data[9], data[10]),
                be16_read(data[11], data[12]),
                be16_read(data[13], data[14]),
                be16_read(data[15], data[16]),
            ];
            let port = be16_read(data[17], data[18]);
            let a = Address::SocketAddress(IpAddr::V6(segs), port);
            proof {
                assert(spec_decode(data@) matches Ok(d) && d =~= a@);
            }
            Ok(a)
        } else {
            Err(AddressError::UnsupportedType(atyp))
        }
    }
}

/// Length consistency: the wire form of a constructible address is exactly
/// [`spec_serialized_len`] bytes long, and never longer than
/// [`MAX_SERIALIZED_LEN`].
pub proof fn lemma_spec_serialized_len(a: AddressSpec)
    requires
        a.wf(),
    ensures
        wire_bytes(a).len() == spec_serialized_len(a),
        spec_serialized_len(a) <= MAX_SERIALIZED_LEN as int,
{
    match a {
        AddressSpec::V6 { segs, .. } => {
            lemma_segs_be_len(segs, 8);
        },
        _ => {},
    }
}

/// Round trip: decoding the wire form of any constructible address yields
/// that address again.
pub proof fn lemma_round_trip(a: AddressSpec)
    requires
        a.wf(),
    ensures
        spec_decode(wire_bytes(a)) == Ok::<AddressSpec, AddressError>(a),
{
    let b = wire_bytes(a);
    match a {
        AddressSpec::V4 { ip, port } => {
            lemma_be16_round_trip(port);
            assert(b.subrange(1, 5) =~= ip);
            assert(spec_decode(b) matches Ok(d) && d =~= a);
        },
        AddressSpec::V6 { segs, port } => {
            lemma_segs_be_len(segs, 8);
            lemma_be16_round_trip(port);
            assert forall|i: int| 0 <= i < 8 implies u16_from_be(b[1 + 2 * i], b[2 + 2 * i])
                == segs[i] by {
                lemma_segs_be_index(segs, 8, i);
                lemma_be16_round_trip(segs[i]);
                assert(b[1 + 2 * i] == segs_be(segs, 8)[2 * i]);
                assert(b[2 + 2 * i] == segs_be(segs, 8)[2 * i + 1]);
            }
            assert(Seq::new(8, |i: int| u16_from_be(b[1 + 2 * i], b[2 + 2 * i])) =~= segs);
            assert(spec_decode(b) matches Ok(d) && d =~= a);
        },
        AddressSpec::Domain { name, port } => {
            let e = encode_utf8(name);
            encode_utf8_valid_utf8(name);
            encode_utf8_decode_utf8(name);
            lemma_be16_round_trip(port);
            assert(b[1] as int == e.len());
            assert(b.subrange(2, 2 + e.len() as int) =~= e);
            assert(spec_decode(b) matches Ok(d) && d =~= a);
        },
    }
}

/// The big-endian bytes of the value two bytes denote are those bytes.
pub proof fn lemma_be16_inverse(hi: u8, lo: u8)
    ensures
        be_hi(u16_from_be(hi, lo)) == hi,
        be_lo(u16_from_be(hi, lo)) == lo,
{
    assert(((hi as int) * 0x100 + (lo as int)) / 0x100 == hi as int) by (nonlinear_arith);
    assert(((hi as int) * 0x100 + (lo as int)) % 0x100 == lo as int) by (nonlinear_arith);
}

/// Round trip in the other direction: a decoded address is constructible,
/// and re-encoding it reproduces the bytes the decoder consumed — the
/// decoded prefix of the input.
pub proof fn lemma_decode_round_trip(b: Seq<u8>, a: AddressSpec)
    requires
        spec_decode(b) == Ok::<AddressSpec, AddressError>(a),
    ensures
        a.wf(),
        spec_serialized_len(a) <= b.len(),
        wire_bytes(a) == b.subrange(0, spec_serialized_len(a)),
{
    match a {
        AddressSpec::V4 { ip, port } => {
            lemma_be16_inverse(b[5], b[6]);
            assert(wire_bytes(a) =~= b.subrange(0, 7));
        },
        AddressSpec::V6 { segs, port } => {
            lemma_segs_be_len(segs, 8);
            lemma_be16_inverse(b[17], b[18]);
            assert forall|m: int| 0 <= m < 16 implies segs_be(segs, 8)[m] == b[1 + m] by {
                let k = m / 2;
                lemma_segs_be_index(segs, 8, k);
                lemma_be16_inverse(b[1 + 2 * k], b[2 + 2 * k]);
            }
            assert(wire_bytes(a) =~= b.subrange(0, 19));
        },
        AddressSpec::Domain { name, port } => {
            let n = b[1] as int;
            let name_bytes = b.subrange(2, 2 + n);
            decode_utf8_encode_utf8(name_bytes);
            lemma_be16_inverse(b[2 + n], b[3 + n]);
            assert(wire_bytes(a) =~= b.subrange(0, 4 + n));
        },
    }
}

/// A tag is recognized when it is one of the three defined type tags.
pub open spec fn known_tag(t: u8) -> bool {
    t == ATYP_IPV4 || t == ATYP_DOMAIN || t == ATYP_IPV6
}

/// The total frame length a buffer's own tag byte — and, for a domain frame,
/// its length byte — implies.  Where too little of the header is present to
/// tell, the length of the missing header part itself.
pub open spec fn implied_len(b: Seq<u8>) -> int
    recommends
        b.len() >= 1,
        known_tag(b[0]),
{
    if b.len() < 1 {
        1
    } else if b[0] == ATYP_IPV4 {
        7
    } else if b[0] == ATYP_IPV6 {
        19
    } else if b[0] == ATYP_DOMAIN {
        if b.len() < 2 {
            2
        } else {
            4 + b[1]
        }
    } else {
        1
    }
}

/// Tag rejection: a buffer whose first byte is no recognized tag decodes to
/// the unsupported-type error carrying that byte, whatever follows it.
pub proof fn lemma_tag_rejection(b: Seq<u8>)
    requires
        b.len() >= 1,
        !known_tag(b[0]),
    ensures
        spec_decode(b) == Err::<AddressSpec, AddressError>(AddressError::UnsupportedType(b[0])),
{
}

/// Truncation safety: a buffer shorter than the length its own tag and
/// length byte imply decodes to the end-of-input error, never to a value.
pub proof fn lemma_truncation_rejection(b: Seq<u8>)
    requires
        b.len() >= 1,
        known_tag(b[0]),
        b.len() < implied_len(b),
    ensures
        spec_decode(b) == Err::<AddressSpec, AddressError>(AddressError::UnexpectedEnd),
{
}

/// Converse of truncation safety: a buffer with a recognized tag that is at
/// least as long as its implied length never fails for want of bytes.
pub proof fn lemma_complete_frame(b: Seq<u8>)
    requires
        b.len() >= 1,
        known_tag(b[0]),
        b.len() >= implied_len(b),
    ensures
        spec_decode(b) != Err::<AddressSpec, AddressError>(AddressError::UnexpectedEnd),
{
}

/// UTF-8 rejection: a complete domain frame whose name bytes are not valid
/// UTF-8 decodes to the invalid-encoding error.
pub proof fn lemma_utf8_rejection(b: Seq<u8>)
    requires
        b.len() >= 2,
        b[0] == ATYP_DOMAIN,
        b.len() >= 4 + b[1],
        !valid_utf8(b.subrange(2, 2 + b[1] as int)),
    ensures
        spec_decode(b) == Err::<AddressSpec, AddressError>(AddressError::InvalidEncoding),
{
}

} // verus!
