//! Reinterpreting a domain name as a numeric address literal.
//!
//! Converting an address to a resolved endpoint performs no name resolution:
//! a hostname is only inspected textually.  A dotted-quad literal such as
//! `203.0.113.5` becomes a four-octet address; a segment literal such as
//! `2001:db8::1` — colon-separated hexadecimal groups, optionally ending in
//! an embedded dotted-quad as in `::ffff:203.0.113.5` — becomes an
//! eight-segment address; anything else is left unresolved.

use vstd::prelude::*;

use crate::addr::{Address, AddressError, IpAddr};

verus! {

/// A decimal digit.
pub open spec fn is_digit(c: char) -> bool {
    '0' <= c && c <= '9'
}

/// Value of a decimal digit.
pub open spec fn digit_val(c: char) -> int {
    c as int - '0' as int
}

/// Value of a string of decimal digits, most significant first.
pub open spec fn dec_value(s: Seq<char>) -> int
    decreases s.len(),
{
    if s.len() == 0 {
        0
    } else {
        dec_value(s.drop_last()) * 10 + digit_val(s.last())
    }
}

/// A well-formed decimal octet: one to three digits, no superfluous leading
/// zero, value at most 255.
pub open spec fn valid_dec_octet(s: Seq<char>) -> bool {
    &&& 1 <= s.len() <= 3
    &&& (forall|m: int| 0 <= m < s.len() ==> is_digit(s[m]))
    &&& (s.len() > 1 ==> s[0] != '0')
    &&& dec_value(s) <= 255
}

/// The dots at `i < j < k` cut `s` into four well-formed decimal octets.
pub open spec fn ipv4_split_at(s: Seq<char>, i: int, j: int, k: int) -> bool {
    &&& 0 <= i < j < k < s.len()
    &&& s[i] == '.'
    &&& s[j] == '.'
    &&& s[k] == '.'
    &&& valid_dec_octet(s.subrange(0, i))
    &&& valid_dec_octet(s.subrange(i + 1, j))
    &&& valid_dec_octet(s.subrange(j + 1, k))
    &&& valid_dec_octet(s.subrange(k + 1, s.len() as int))
}

/// A dotted-quad address literal.
pub open spec fn is_ipv4_literal(s: Seq<char>) -> bool {
    exists|i: int, j: int, k: int| ipv4_split_at(s, i, j, k)
}

/// The four octets a dotted-quad literal denotes.
pub open spec fn ipv4_value(s: Seq<char>) -> Seq<u8>
    recommends
        is_ipv4_literal(s),
{
    let (i, j, k) = choose|i: int, j: int, k: int| ipv4_split_at(s, i, j, k);
    seq![
        dec_value(s.subrange(0, i)) as u8,
        dec_value(s.subrange(i + 1, j)) as u8,
        dec_value(s.subrange(j + 1, k)) as u8,
        dec_value(s.subrange(k + 1, s.len() as int)) as u8,
    ]
}

/// A digit is not a dot, so the four octet ranges of a split are dot-free.
proof fn lemma_split_dots(s: Seq<char>, i: int, j: int, k: int)
    requires
        ipv4_split_at(s, i, j, k),
    ensures
        forall|m: int| 0 <= m < i ==> s[m] != '.',
        forall|m: int| i < m < j ==> s[m] != '.',
        forall|m: int| j < m < k ==> s[m] != '.',
        forall|m: int| k < m < s.len() ==> s[m] != '.',
{
    assert forall|m: int| 0 <= m < i implies s[m] != '.' by {
        assert(is_digit(s.subrange(0, i)[m]));
    }
    assert forall|m: int| i < m < j implies s[m] != '.' by {
        assert(is_digit(s.subrange(i + 1, j)[m - (i + 1)]));
    }
    assert forall|m: int| j < m < k implies s[m] != '.' by {
        assert(is_digit(s.subrange(j + 1, k)[m - (j + 1)]));
    }
    assert forall|m: int| k < m < s.len() implies s[m] != '.' by {
        assert(is_digit(s.subrange(k + 1, s.len() as int)[m - (k + 1)]));
    }
}

/// The dots of a split are exactly the first three dots of the string, so
/// any two splits agree.
proof fn lemma_split_matches_dots(s: Seq<char>, i: int, j: int, k: int, d1: int, d2: int, d3: int)
    requires
        ipv4_split_at(s, i, j, k),
        0 <= d1 < s.len(),
        s[d1] == '.',
        forall|m: int| 0 <= m < d1 ==> s[m] != '.',
        d1 < d2 < s.len(),
        s[d2] == '.',
        forall|m: int| d1 < m < d2 ==> s[m] != '.',
        d2 < d3 < s.len(),
        s[d3] == '.',
        forall|m: int| d2 < m < d3 ==> s[m] != '.',
    ensures
        i == d1 && j == d2 && k == d3,
{
    lemma_split_dots(s, i, j, k);
    assert(i == d1) by {
        if i < d1 {
            assert(s[i] != '.');
        }
        if d1 < i {
            assert(s[d1] != '.');
        }
    }
    assert(j == d2) by {
        if j < d2 {
            assert(s[j] != '.');
        }
        if d2 < j {
            assert(s[d2] != '.');
        }
    }
    assert(k == d3) by {
        if k < d3 {
            assert(s[k] != '.');
        }
        if d3 < k {
            assert(s[d3] != '.');
        }
    }
}

/// A digit string of at most three digits denotes a value below 1000.
proof fn lemma_dec_value_small(s: Seq<char>)
    requires
        forall|m: int| 0 <= m < s.len() ==> is_digit(s[m]),
        s.len() <= 3,
    ensures
        0 <= dec_value(s),
        s.len() <= 1 ==> dec_value(s) <= 9,
        s.len() <= 2 ==> dec_value(s) <= 99,
        dec_value(s) <= 999,
    decreases s.len(),
{
    if s.len() > 0 {
        assert(forall|m: int| 0 <= m < s.drop_last().len() ==> is_digit(s.drop_last()[m]));
        lemma_dec_value_small(s.drop_last());
    }
}

/// Index of the first dot at or after `from`, if any.
fn find_dot(s: &str, from: usize) -> (r: Option<usize>)
    requires
        from <= s@.len(),
    ensures
        match r {
            Some(d) => {
                &&& from <= d < s@.len()
                &&& s@[d as int] == '.'
                &&& forall|m: int| from <= m < d ==> s@[m] != '.'
            },
            None => forall|m: int| from <= m < s@.len() ==> s@[m] != '.',
        },
{
    let n = s.unicode_len();
    let mut idx = from;
    while idx < n
        invariant
            from <= idx <= n,
            n == s@.len(),
            forall|m: int| from <= m < idx ==> s@[m] != '.',
        decreases n - idx,
    {
        if s.get_char(idx) == '.' {
            return Some(idx);
        }
        idx = idx + 1;
    }
    None
}

/// Parses `s[lo..hi]` as a decimal octet.
fn parse_octet(s: &str, lo: usize, hi: usize) -> (r: Option<u8>)
    requires
        lo <= hi <= s@.len(),
    ensures
        match r {
            Some(v) => valid_dec_octet(s@.subrange(lo as int, hi as int)) && v as int == dec_value(
                s@.subrange(lo as int, hi as int),
            ),
            None => !valid_dec_octet(s@.subrange(lo as int, hi as int)),
        },
{
    let ghost sub = s@.subrange(lo as int, hi as int);
    if hi - lo < 1 || hi - lo > 3 {
        return None;
    }
    if hi - lo > 1 && s.get_char(lo) == '0' {
        return None;
    }
    let mut val: u32 = 0;
    let mut i = lo;
    while i < hi
        invariant
            lo <= i <= hi <= s@.len(),
            hi - lo <= 3,
            forall|m: int| lo <= m < i ==> is_digit(s@[m]),
            val as int == dec_value(s@.subrange(lo as int, i as int)),
            val <= 999,
        decreases hi - i,
    {
        let c = s.get_char(i);
        if c < '0' || c > '9' {
            proof {
                assert(s@.subrange(lo as int, hi as int)[i - lo] == s@[i as int]);
            }
            return None;
        }
        proof {
            lemma_dec_value_small(s@.subrange(lo as int, i as int));
        }
        val = val * 10 + (c as u32 - 48);
        proof {
            assert(s@.subrange(lo as int, i + 1).drop_last() =~= s@.subrange(
                lo as int,
                i as int,
            ));
            assert(s@.subrange(lo as int, i + 1).last() == s@[i as int]);
        }
        i = i + 1;
    }
    proof {
        assert(s@.subrange(lo as int, i as int) =~= sub);
        assert(forall|m: int| 0 <= m < sub.len() ==> is_digit(#[trigger] sub[m]));
    }
    if val > 255 {
        return None;
    }
    Some(val as u8)
}

/// Parses a dotted-quad address literal, exactly when [`is_ipv4_literal`]
/// holds of the string.
pub fn parse_ipv4_literal(s: &str) -> (r: Option<[u8; 4]>)
    ensures
        match r {
            Some(oct) => is_ipv4_literal(s@) && oct@ == ipv4_value(s@),
            None => !is_ipv4_literal(s@),
        },
{
    let n = s.unicode_len();
    let d1 = match find_dot(s, 0) {
        Some(d) => d,
        None => {
            proof {
                assert forall|i: int, j: int, k: int| !ipv4_split_at(s@, i, j, k) by {
                    if ipv4_split_at(s@, i, j, k) {
                        lemma_split_dots(s@, i, j, k);
                    }
                }
            }
            return None;
        },
    };
    let o1 = match parse_octet(s, 0, d1) {
        Some(v) => v,
        None => {
            proof {
                assert forall|i: int, j: int, k: int| !ipv4_split_at(s@, i, j, k) by {
                    if ipv4_split_at(s@, i, j, k) {
                        lemma_split_dots(s@, i, j, k);
                        assert(i == d1) by {
                            if i < d1 {
                                assert(s@[i as int] != '.');
                            }
                            if d1 < i {
                                assert(s@[d1 as int] != '.');
                            }
                        }
                    }
                }
            }
            return None;
        },
    };
    let d2 = match find_dot(s, d1 + 1) {
        Some(d) => d,
        None => {
            proof {
                assert forall|i: int, j: int, k: int| !ipv4_split_at(s@, i, j, k) by {
                    if ipv4_split_at(s@, i, j, k) {
                        lemma_split_dots(s@, i, j, k);
                        assert(i == d1) by {
                            if i < d1 {
                                assert(s@[i as int] != '.');
                            }
                            if d1 < i {
                                assert(s@[d1 as int] != '.');
                            }
                        }
                        assert(s@[j] != '.');
                    }
                }
            }
            return None;
        },
    };
    let o2 = match parse_octet(s, d1 + 1, d2) {
        Some(v) => v,
        None => {
            proof {
                assert forall|i: int, j: int, k: int| !ipv4_split_at(s@, i, j, k) by {
                    if ipv4_split_at(s@, i, j, k) {
                        lemma_split_dots(s@, i, j, k);
                        assert(i == d1 && j == d2) by {
                            if i < d1 {
                                assert(s@[i as int] != '.');
                            }
                            if d1 < i {
                                assert(s@[d1 as int] != '.');
                            }
                            if j < d2 {
                                assert(s@[j] != '.');
                            }
                            if d2 < j {
                                assert(s@[d2 as int] != '.');
                            }
                        }
                    }
                }
            }
            return None;
        },
    };
    let d3 = match find_dot(s, d2 + 1) {
        Some(d) => d,
        None => {
            proof {
                assert forall|i: int, j: int, k: int| !ipv4_split_at(s@, i, j, k) by {
                    if ipv4_split_at(s@, i, j, k) {
                        lemma_split_dots(s@, i, j, k);
                        assert(i == d1 && j == d2) by {
                            if i < d1 {
                                assert(s@[i as int] != '.');
                            }
                            if d1 < i {
                                assert(s@[d1 as int] != '.');
                            }
                            if j < d2 {
                                assert(s@[j] != '.');
                            }
                            if d2 < j {
                                assert(s@[d2 as int] != '.');
                            }
                        }
                        assert(s@[k] != '.');
                    }
                }
            }
            return None;
        },
    };
    let o3 = match parse_octet(s, d2 + 1, d3) {
        Some(v) => v,
        None => {
            proof {
                assert forall|i: int, j: int, k: int| !ipv4_split_at(s@, i, j, k) by {
                    if ipv4_split_at(s@, i, j, k) {
                        lemma_split_matches_dots(s@, i, j, k, d1 as int, d2 as int, d3 as int);
                    }
                }
            }
            return None;
        },
    };
    let o4 = match parse_octet(s, d3 + 1, n) {
        Some(v) => v,
        None => {
            proof {
                assert forall|i: int, j: int, k: int| !ipv4_split_at(s@, i, j, k) by {
                    if ipv4_split_at(s@, i, j, k) {
                        lemma_split_matches_dots(s@, i, j, k, d1 as int, d2 as int, d3 as int);
                    }
                }
            }
            return None;
        },
    };
    let oct = [o1, o2, o3, o4];
    proof {
        assert(ipv4_split_at(s@, d1 as int, d2 as int, d3 as int));
        let (ci, cj, ck) = choose|i: int, j: int, k: int| ipv4_split_at(s@, i, j, k);
        lemma_split_matches_dots(s@, ci, cj, ck, d1 as int, d2 as int, d3 as int);
        assert(oct@ =~= ipv4_value(s@));
    }
    Some(oct)
}

/// A hexadecimal digit, either case.
pub open spec fn is_hex_digit(c: char) -> bool {
    is_digit(c) || ('a' <= c && c <= 'f') || ('A' <= c && c <= 'F')
}

/// Value of a hexadecimal digit.
pub open spec fn hex_val(c: char) -> int {
    if is_digit(c) {
        c as int - '0' as int
    } else if 'a' <= c && c <= 'f' {
        c as int - 'a' as int + 10
    } else {
        c as int - 'A' as int + 10
    }
}

/// Value of a string of hexadecimal digits, most significant first.
pub open spec fn hex_value(s: Seq<char>) -> int
    decreases s.len(),
{
    if s.len() == 0 {
        0
    } else {
        hex_value(s.drop_last()) * 16 + hex_val(s.last())
    }
}

/// A well-formed segment group: one to four hexadecimal digits.
pub open spec fn valid_hex_group(s: Seq<char>) -> bool {
    &&& 1 <= s.len() <= 4
    &&& (forall|m: int| 0 <= m < s.len() ==> is_hex_digit(s[m]))
}

/// The indices of every colon in `s` at or after `i`, in increasing order.
pub open spec fn colon_positions_from(s: Seq<char>, i: int) -> Seq<int>
    decreases s.len() - i,
{
    if i < 0 || i >= s.len() {
        Seq::empty()
    } else if s[i] == ':' {
        seq![i] + colon_positions_from(s, i + 1)
    } else {
        colon_positions_from(s, i + 1)
    }
}

/// The indices of every colon in `s`, in increasing order.
pub open spec fn colon_positions(s: Seq<char>) -> Seq<int> {
    colon_positions_from(s, 0)
}

/// What characterizes the colon positions at or after `i`: all are colons in
/// range, they increase, none is skipped, and the `q`-th is at least `i + q`.
pub open spec fn cpos_ok(s: Seq<char>, i: int, res: Seq<int>) -> bool {
    &&& (forall|q: int| 0 <= q < res.len() ==> i <= #[trigger] res[q] < s.len() && s[res[q]]
        == ':')
    &&& (forall|q: int| 0 <= q < res.len() ==> i + q <= #[trigger] res[q])
    &&& (forall|q1: int, q2: int| 0 <= q1 < q2 < res.len() ==> res[q1] < res[q2])
    &&& (forall|m: int| i <= m < s.len() && s[m] == ':' ==> res.contains(m))
}

proof fn lemma_cpos_from(s: Seq<char>, i: int)
    requires
        0 <= i <= s.len(),
    ensures
        cpos_ok(s, i, colon_positions_from(s, i)),
    decreases s.len() - i,
{
    if i < s.len() {
        lemma_cpos_from(s, i + 1);
        let rest = colon_positions_from(s, i + 1);
        let res = colon_positions_from(s, i);
        if s[i] == ':' {
            assert(res == seq![i] + rest);
            assert forall|m: int| i <= m < s.len() && s[m] == ':' implies res.contains(m) by {
                if m == i {
                    assert(res[0] == i);
                } else {
                    let q = choose|q: int| 0 <= q < rest.len() && rest[q] == m;
                    assert(res[q + 1] == m);
                }
            }
        } else {
            assert(res == rest);
            assert forall|q: int| 0 <= q < res.len() implies i + q <= #[trigger] res[q] by {
                assert(i + 1 + q <= res[q]);
            }
        }
    }
}

/// Number of colon-separated parts of the string: one more than its colons.
pub open spec fn n_parts(s: Seq<char>) -> int {
    colon_positions(s).len() as int + 1
}

/// Where part `t` begins: after the `t`-th colon.
pub open spec fn part_start(s: Seq<char>, t: int) -> int {
    if t <= 0 {
        0
    } else {
        colon_positions(s)[t - 1] + 1
    }
}

/// Where part `t` ends: at the next colon, or at the end of the string.
pub open spec fn part_end(s: Seq<char>, t: int) -> int {
    let cs = colon_positions(s);
    if t < cs.len() {
        cs[t]
    } else {
        s.len() as int
    }
}

/// The `t`-th colon-separated part of the string.
pub open spec fn part_at(s: Seq<char>, t: int) -> Seq<char> {
    s.subrange(part_start(s, t), part_end(s, t))
}

/// Whether the `t`-th part is empty, as between two adjacent colons.
pub open spec fn part_empty(s: Seq<char>, t: int) -> bool {
    part_start(s, t) == part_end(s, t)
}

proof fn lemma_part_bounds(s: Seq<char>, t: int)
    requires
        0 <= t < n_parts(s),
    ensures
        0 <= part_start(s, t) <= part_end(s, t) <= s.len(),
{
    lemma_cpos_from(s, 0);
}

/// How the string divides into head groups, elided zero groups, and tail
/// groups: `Some((h, t, compressed))` means parts `0 .. h` are the head,
/// the last `t` parts are the tail, and `compressed` says a `::` stands
/// between them.  `None` means the colon pattern fits no address form.
pub open spec fn ipv6_shape(s: Seq<char>) -> Option<(int, int, bool)> {
    let np = n_parts(s);
    if forall|u: int| 0 <= u < np ==> !part_empty(s, u) {
        Some((np, 0int, false))
    } else if np == 3 && part_empty(s, 0) && part_empty(s, 1) && part_empty(s, 2) {
        Some((0int, 0int, true))
    } else if np >= 3 && part_empty(s, 0) && part_empty(s, 1) && (forall|u: int|
        2 <= u < np ==> !part_empty(s, u)) {
        Some((0int, np - 2, true))
    } else if np >= 3 && part_empty(s, np - 2) && part_empty(s, np - 1) && (forall|u: int|
        0 <= u < np - 2 ==> !part_empty(s, u)) {
        Some((np - 2, 0int, true))
    } else if exists|p: int|
        0 < p < np - 1 && part_empty(s, p) && (forall|u: int|
            0 <= u < np && u != p ==> !part_empty(s, u)) {
        let p = choose|p: int|
            0 < p < np - 1 && part_empty(s, p) && (forall|u: int|
                0 <= u < np && u != p ==> !part_empty(s, u));
        Some((p, np - 1 - p, true))
    } else {
        None
    }
}

/// Whether the final part of the string is a dotted-quad literal, the
/// standard text of an embedded IPv4 address; it then counts as the last
/// two segments.
pub open spec fn ipv6_has_v4_tail(s: Seq<char>) -> bool {
    is_ipv4_literal(part_at(s, n_parts(s) - 1))
}

/// How many leading parts must be hexadecimal groups.
pub open spec fn ipv6_head_count(s: Seq<char>) -> int {
    match ipv6_shape(s) {
        Some(sh) => if sh.2 {
            sh.0
        } else {
            n_parts(s) - (if ipv6_has_v4_tail(s) {
                1int
            } else {
                0int
            })
        },
        None => 0,
    }
}

/// How many trailing parts must be hexadecimal groups, not counting an
/// embedded dotted-quad.
pub open spec fn ipv6_tail_hex_count(s: Seq<char>) -> int {
    match ipv6_shape(s) {
        Some(sh) => if sh.2 {
            sh.1 - (if ipv6_has_v4_tail(s) {
                1int
            } else {
                0int
            })
        } else {
            0
        },
        None => 0,
    }
}

/// How many of the eight segments the named parts spell out; a dotted-quad
/// tail spells out two.
pub open spec fn ipv6_group_count(s: Seq<char>) -> int {
    ipv6_head_count(s) + ipv6_tail_hex_count(s) + (if ipv6_has_v4_tail(s) {
        2int
    } else {
        0int
    })
}

/// A numeric-address literal of eight 16-bit segments: the colon pattern
/// fits an address form, the named parts are hexadecimal groups — except
/// that the final part may be an embedded dotted-quad, counting as the last
/// two segments — and they spell out all eight segments, or fewer with a
/// `::` eliding at least one zero segment.
pub open spec fn is_ipv6_literal(s: Seq<char>) -> bool {
    match ipv6_shape(s) {
        Some(sh) => {
            let np = n_parts(s);
            let vtn: int = if ipv6_has_v4_tail(s) {
                1
            } else {
                0
            };
            &&& (sh.2 ==> ipv6_group_count(s) <= 7)
            &&& (!sh.2 ==> ipv6_group_count(s) == 8)
            &&& (forall|u: int| 0 <= u < ipv6_head_count(s) ==> valid_hex_group(part_at(s, u)))
            &&& (forall|u: int| np - sh.1 <= u < np - vtn ==> valid_hex_group(part_at(s, u)))
        },
        None => false,
    }
}

/// The eight segments a literal denotes: head groups, then elided zeros,
/// then tail groups, with an embedded dotted-quad supplying the last two.
pub open spec fn ipv6_value(s: Seq<char>) -> Seq<u16>
    recommends
        is_ipv6_literal(s),
{
    match ipv6_shape(s) {
        Some(sh) => {
            let np = n_parts(s);
            let vt = ipv6_has_v4_tail(s);
            let vtn: int = if vt {
                1
            } else {
                0
            };
            let oct = ipv4_value(part_at(s, np - 1));
            Seq::new(
                8,
                |q: int|
                    if q < ipv6_head_count(s) {
                        hex_value(part_at(s, q)) as u16
                    } else if vt && q == 6 {
                        crate::codec::u16_from_be(oct[0], oct[1])
                    } else if vt && q == 7 {
                        crate::codec::u16_from_be(oct[2], oct[3])
                    } else if q >= 8 - 2 * vtn - ipv6_tail_hex_count(s) {
                        hex_value(part_at(s, np + vtn - 8 + q)) as u16
                    } else {
                        0u16
                    },
            )
        },
        None => Seq::empty(),
    }
}

/// A hexadecimal string of at most four digits denotes a value below 2^16.
proof fn lemma_hex_value_small(s: Seq<char>)
    requires
        forall|m: int| 0 <= m < s.len() ==> is_hex_digit(s[m]),
        s.len() <= 4,
    ensures
        0 <= hex_value(s),
        s.len() <= 1 ==> hex_value(s) <= 0xf,
        s.len() <= 2 ==> hex_value(s) <= 0xff,
        s.len() <= 3 ==> hex_value(s) <= 0xfff,
        hex_value(s) <= 0xffff,
    decreases s.len(),
{
    if s.len() > 0 {
        assert(forall|m: int| 0 <= m < s.drop_last().len() ==> is_hex_digit(s.drop_last()[m]));
        lemma_hex_value_small(s.drop_last());
    }
}

/// The indices of every colon of the string, in increasing order.
fn find_colons(s: &str) -> (r: Vec<usize>)
    ensures
        r@.map_values(|x: usize| x as int) == colon_positions(s@),
{
    let n = s.unicode_len();
    let mut cols: Vec<usize> = Vec::new();
    let mut idx: usize = 0;
    while idx < n
        invariant
            idx <= n,
            n == s@.len(),
            cols@.map_values(|x: usize| x as int) + colon_positions_from(s@, idx as int)
                =~= colon_positions(s@),
        decreases n - idx,
    {
        let ghost prev = cols@.map_values(|x: usize| x as int);
        if s.get_char(idx) == ':' {
            cols.push(idx);
            proof {
                assert(cols@.map_values(|x: usize| x as int) =~= prev + seq![idx as int]);
                assert(colon_positions_from(s@, idx as int) == seq![idx as int]
                    + colon_positions_from(s@, idx + 1));
                assert(cols@.map_values(|x: usize| x as int) + colon_positions_from(
                    s@,
                    idx + 1,
                ) =~= colon_positions(s@));
            }
        } else {
            proof {
                assert(colon_positions_from(s@, idx as int) == colon_positions_from(
                    s@,
                    idx + 1,
                ));
            }
        }
        idx = idx + 1;
    }
    proof {
        assert(colon_positions_from(s@, n as int) == Seq::<int>::empty());
        assert(cols@.map_values(|x: usize| x as int) =~= colon_positions(s@));
    }
    cols
}

/// Parses `s[lo..hi]` as a hexadecimal segment group.
fn parse_hex_group(s: &str, lo: usize, hi: usize) -> (r: Option<u16>)
    requires
        lo <= hi <= s@.len(),
    ensures
        match r {
            Some(v) => valid_hex_group(s@.subrange(lo as int, hi as int)) && v as int
                == hex_value(s@.subrange(lo as int, hi as int)),
            None => !valid_hex_group(s@.subrange(lo as int, hi as int)),
        },
{
    let ghost sub = s@.subrange(lo as int, hi as int);
    if hi - lo < 1 || hi - lo > 4 {
        return None;
    }
    let mut val: u32 = 0;
    let mut i = lo;
    while i < hi
        invariant
            lo <= i <= hi <= s@.len(),
            hi - lo <= 4,
            forall|m: int| lo <= m < i ==> is_hex_digit(s@[m]),
            val as int == hex_value(s@.subrange(lo as int, i as int)),
            val <= 0xffff,
        decreases hi - i,
    {
        let c = s.get_char(i);
        let d: u32;
        if c >= '0' && c <= '9' {
            d = c as u32 - 48;
        } else if c >= 'a' && c <= 'f' {
            d = c as u32 - 97 + 10;
        } else if c >= 'A' && c <= 'F' {
            d = c as u32 - 65 + 10;
        } else {
            proof {
                assert(s@.subrange(lo as int, hi as int)[i - lo] == s@[i as int]);
            }
            return None;
        }
        proof {
            lemma_hex_value_small(s@.subrange(lo as int, i as int));
        }
        val = val * 16 + d;
        proof {
            assert(s@.subrange(lo as int, i + 1).drop_last() =~= s@.subrange(
                lo as int,
                i as int,
            ));
            assert(s@.subrange(lo as int, i + 1).last() == s@[i as int]);
        }
        i = i + 1;
    }
    proof {
        assert(s@.subrange(lo as int, i as int) =~= sub);
        assert(forall|m: int| 0 <= m < sub.len() ==> is_hex_digit(#[trigger] sub[m]));
    }
    Some(val as u16)
}

/// Bounds of part `t`, read off the colon positions.
fn part_range(s: &str, cols: &Vec<usize>, n: usize, t: usize) -> (se: (usize, usize))
    requires
        cols@.map_values(|x: usize| x as int) == colon_positions(s@),
        n == s@.len(),
        t <= cols@.len(),
    ensures
        se.0 as int == part_start(s@, t as int),
        se.1 as int == part_end(s@, t as int),
        se.0 <= se.1 <= n,
{
    proof {
        lemma_cpos_from(s@, 0);
        lemma_part_bounds(s@, t as int);
    }
    let start = if t == 0 {
        0
    } else {
        cols[t - 1] + 1
    };
    let end = if t < cols.len() {
        cols[t]
    } else {
        n
    };
    (start, end)
}

/// A string of ten or more parts fits no address form.
proof fn lemma_many_parts(s: Seq<char>)
    requires
        n_parts(s) >= 10,
    ensures
        !is_ipv6_literal(s),
{
}

/// Eight segment values assembled as head groups, zeros, tail groups, and
/// the segments of an embedded dotted-quad are exactly what the literal
/// denotes.
proof fn lemma_assembled_value(s: Seq<char>, h: int, thc: int, vtn: int, comp: bool, vals: Seq<
    u16,
>)
    requires
        ipv6_shape(s) matches Some(sh) && sh.2 == comp,
        h == ipv6_head_count(s),
        thc == ipv6_tail_hex_count(s),
        vtn == (if ipv6_has_v4_tail(s) {
            1int
        } else {
            0int
        }),
        comp ==> ipv6_group_count(s) <= 7,
        !comp ==> ipv6_group_count(s) == 8,
        0 <= h,
        0 <= thc,
        vals.len() == 8,
        forall|q: int|
            #![trigger part_at(s, q)]
            0 <= q < h ==> valid_hex_group(part_at(s, q)) && vals[q] as int == hex_value(
                part_at(s, q),
            ),
        forall|q: int| h <= q < 8 - 2 * vtn - thc ==> #[trigger] vals[q] == 0u16,
        forall|q: int|
            #![trigger part_at(s, n_parts(s) + vtn - 8 + q)]
            8 - 2 * vtn - thc <= q < 8 - 2 * vtn ==> valid_hex_group(
                part_at(s, n_parts(s) + vtn - 8 + q),
            ) && vals[q] as int == hex_value(part_at(s, n_parts(s) + vtn - 8 + q)),
        vtn == 1 ==> vals[6] == crate::codec::u16_from_be(
            ipv4_value(part_at(s, n_parts(s) - 1))[0],
            ipv4_value(part_at(s, n_parts(s) - 1))[1],
        ) && vals[7] == crate::codec::u16_from_be(
            ipv4_value(part_at(s, n_parts(s) - 1))[2],
            ipv4_value(part_at(s, n_parts(s) - 1))[3],
        ),
    ensures
        is_ipv6_literal(s),
        vals == ipv6_value(s),
{
    let np = n_parts(s);
    let sh = choose|sh: (int, int, bool)| ipv6_shape(s) == Some(sh);
    assert forall|u: int| np - sh.1 <= u < np - vtn implies valid_hex_group(part_at(s, u)) by {
        let q = u - np - vtn + 8;
        assert(valid_hex_group(part_at(s, np + vtn - 8 + q)));
    }
    assert(is_ipv6_literal(s));
    assert(vals =~= ipv6_value(s));
}

/// Decides how the parts divide into head, elided zeros, and tail, from the
/// list of empty part indices; mirrors [`ipv6_shape`].
fn decide_shape(Ghost(sv): Ghost<Seq<char>>, empties: &Vec<usize>, np: usize) -> (r: Option<
    (usize, usize, bool),
>)
    requires
        np as int == n_parts(sv),
        np <= 9,
        forall|q: int| 0 <= q < empties@.len() ==> #[trigger] empties@[q] < np,
        forall|q1: int, q2: int| 0 <= q1 < q2 < empties@.len() ==> empties@[q1] < empties@[q2],
        forall|u: int|
            0 <= u < np ==> (part_empty(sv, u) <==> (exists|q: int|
                0 <= q < empties@.len() && #[trigger] empties@[q] as int == u)),
    ensures
        match r {
            Some(sh) => ipv6_shape(sv) == Some((sh.0 as int, sh.1 as int, sh.2)) && sh.0 <= np
                && sh.1 < np && (sh.2 ==> sh.0 + sh.1 < np) && (!sh.2 ==> sh.0 == np && sh.1
                == 0),
            None => ipv6_shape(sv) == None::<(int, int, bool)>,
        },
{
    let h: usize;
    let tl: usize;
    let comp: bool;
    if empties.len() == 0 {
        proof {
            assert forall|u: int| 0 <= u < np as int implies !part_empty(sv, u) by {
                if part_empty(sv, u) {
                    let q = choose|q: int|
                        0 <= q < empties@.len() && empties@[q] as int == u;
                }
            }
        }
        h = np;
        tl = 0;
        comp = false;
        proof {
            assert(ipv6_shape(sv) == Some((np as int, 0int, false)));
        }
    } else if empties.len() == 1 {
        let p = empties[0];
        proof {
            assert(empties@[0] as int == p as int);
            assert(part_empty(sv, p as int));
            assert forall|u: int|
                0 <= u < np as int && u != p as int implies !part_empty(sv, u) by {
                if part_empty(sv, u) {
                    let q = choose|q: int|
                        0 <= q < empties@.len() && empties@[q] as int == u;
                    assert(q == 0);
                }
            }
        }
        if 0 < p && p < np - 1 {
            h = p;
            tl = np - 1 - p;
            comp = true;
            proof {
                let cp = choose|w: int|
                    0 < w < n_parts(sv) - 1 && part_empty(sv, w) && (forall|u: int|
                        0 <= u < n_parts(sv) && u != w ==> !part_empty(sv, u));
                assert(cp == p as int);
                assert(ipv6_shape(sv) == Some((h as int, tl as int, true)));
            }
        } else {
            proof {
                assert(ipv6_shape(sv) == None::<(int, int, bool)>);
            }
            return None;
        }
    } else if empties.len() == 2 {
        let e0 = empties[0];
        let e1 = empties[1];
        proof {
            assert(empties@[0] as int == e0 as int && empties@[1] as int == e1 as int);
            assert(e0 < e1);
            assert(part_empty(sv, e0 as int));
            assert(part_empty(sv, e1 as int));
            assert forall|u: int|
                0 <= u < np as int && u != e0 as int && u != e1 as int implies !part_empty(
                sv,
                u,
            ) by {
                if part_empty(sv, u) {
                    let q = choose|q: int|
                        0 <= q < empties@.len() && empties@[q] as int == u;
                    assert(q == 0 || q == 1);
                }
            }
        }
        if e0 == 0 && e1 == 1 && np >= 3 {
            h = 0;
            tl = np - 2;
            comp = true;
            proof {
                assert(ipv6_shape(sv) == Some((0int, np as int - 2, true)));
            }
        } else if np >= 3 && e0 == np - 2 && e1 == np - 1 {
            h = np - 2;
            tl = 0;
            comp = true;
            proof {
                assert(ipv6_shape(sv) == Some((np as int - 2, 0int, true)));
            }
        } else {
            proof {
                assert(ipv6_shape(sv) == None::<(int, int, bool)>);
            }
            return None;
        }
    } else {
        proof {
            assert((empties@[0] as int) < (empties@[1] as int));
            assert((empties@[1] as int) < (empties@[2] as int));
            assert(part_empty(sv, empties@[0] as int));
            assert(part_empty(sv, empties@[1] as int));
            assert(part_empty(sv, empties@[2] as int));
            assert(empties@[2] as int >= 2);
            assert(empties@[0] as int <= np as int - 3);
        }
        if empties.len() == 3 && np == 3 {
            h = 0;
            tl = 0;
            comp = true;
            proof {
                assert(empties@[0] as int == 0 && empties@[1] as int == 1 && empties@[2] as int
                    == 2);
                assert(ipv6_shape(sv) == Some((0int, 0int, true)));
            }
        } else {
            proof {
                if empties@.len() == 3 {
                    assert(!(np as int == 3 && part_empty(sv, 0) && part_empty(sv, 1)
                        && part_empty(sv, 2)));
                } else {
                    assert((empties@[2] as int) < (empties@[3] as int));
                    assert(part_empty(sv, empties@[3] as int));
                    assert(empties@[0] as int <= np as int - 4);
                }
                assert(ipv6_shape(sv) == None::<(int, int, bool)>);
            }
            return None;
        }
    }
    Some((h, tl, comp))
}

/// Examines the final part for an embedded dotted-quad and checks that the
/// named parts spell out the right number of segments; yields the head and
/// hex-tail part counts, whether a dotted-quad tail stands there, and its
/// octets.
fn examine_tail(
    s: &str,
    cols: &Vec<usize>,
    n: usize,
    np: usize,
    h0: usize,
    tl0: usize,
    comp: bool,
) -> (r: Option<(usize, usize, usize, Option<[u8; 4]>)>)
    requires
        cols@.map_values(|x: usize| x as int) == colon_positions(s@),
        n == s@.len(),
        np == cols@.len() + 1,
        np <= 9,
        np as int == n_parts(s@),
        ipv6_shape(s@) == Some((h0 as int, tl0 as int, comp)),
        h0 <= np,
        tl0 < np,
        comp ==> h0 + tl0 < np,
        !comp ==> h0 == np && tl0 == 0,
    ensures
        match r {
            Some(x) => {
                &&& x.0 as int == ipv6_head_count(s@)
                &&& x.1 as int == ipv6_tail_hex_count(s@)
                &&& (x.2 == 1) == ipv6_has_v4_tail(s@)
                &&& x.2 <= 1
                &&& x.0 + x.1 + 2 * x.2 <= 8
                &&& (comp ==> x.0 + x.1 + 2 * x.2 <= 7)
                &&& (!comp ==> x.0 + x.1 + 2 * x.2 == 8)
                &&& x.0 <= np
                &&& x.2 + x.1 <= np
                &&& (x.3 matches Some(o) ==> o@ == ipv4_value(part_at(s@, np as int - 1)))
                &&& (x.3 is Some) == (x.2 == 1)
            },
            None => !is_ipv6_literal(s@),
        },
{
    let last_se = part_range(s, &cols, n, np - 1);
    let last_str = s.substring_char(last_se.0, last_se.1);
    let v4t = parse_ipv4_literal(last_str);
    let vtn: usize = if v4t.is_some() {
        1
    } else {
        0
    };
    proof {
        assert(last_str@ == part_at(s@, np as int - 1));
        assert((vtn == 1) == ipv6_has_v4_tail(s@));
        if comp && vtn == 1 && tl0 == 0 {
            lemma_part_bounds(s@, np as int - 1);
            assert(part_empty(s@, np as int - 1));
            let pt = part_at(s@, np as int - 1);
            assert(pt.len() == 0);
            let (pi, pj, pk) = choose|i: int, j: int, k: int| ipv4_split_at(pt, i, j, k);
            assert(false);
        }
    }
    let head: usize = if comp {
        h0
    } else {
        np - vtn
    };
    let thc: usize = if comp {
        tl0 - vtn
    } else {
        0
    };
    let g: usize = head + thc + 2 * vtn;
    proof {
        assert(head as int == ipv6_head_count(s@));
        assert(thc as int == ipv6_tail_hex_count(s@));
        assert(g as int == ipv6_group_count(s@));
    }
    if comp {
        if g > 7 {
            return None;
        }
    } else {
        if g != 8 {
            return None;
        }
    }
    Some((head, thc, vtn, v4t))
}

/// The unchanging facts the segment-collection loops carry: the colon
/// positions, the shape, and the part counts.
spec fn seg_ctx(
    s: Seq<char>,
    cols: Seq<usize>,
    n: int,
    np: int,
    h0: int,
    tl0: int,
    comp: bool,
    head: int,
    thc: int,
    vtn: int,
) -> bool {
    &&& cols.map_values(|x: usize| x as int) == colon_positions(s)
    &&& n == s.len()
    &&& np == cols.len() + 1
    &&& np <= 9
    &&& np == n_parts(s)
    &&& ipv6_shape(s) == Some((h0, tl0, comp))
    &&& head == ipv6_head_count(s)
    &&& thc == ipv6_tail_hex_count(s)
    &&& (vtn == 1) == ipv6_has_v4_tail(s)
    &&& 0 <= vtn <= 1
    &&& 0 <= thc
    &&& 0 <= head <= np
    &&& vtn + thc <= np
    &&& head + thc + 2 * vtn <= 8
    &&& (comp ==> head + thc + 2 * vtn <= 7)
    &&& (!comp ==> head + thc + 2 * vtn == 8)
}

/// Appends the segments of an embedded dotted-quad, if one stands at the
/// end, and packs the collected values into the eight segments the literal
/// denotes.
#[verifier::rlimit(100)]
fn finish_segments(
    Ghost(sv): Ghost<Seq<char>>,
    Ghost(colsv): Ghost<Seq<usize>>,
    Ghost(np): Ghost<int>,
    Ghost(h0): Ghost<int>,
    Ghost(tl0): Ghost<int>,
    res: Vec<u16>,
    v4t: Option<[u8; 4]>,
    head: usize,
    thc: usize,
    vtn: usize,
    comp: bool,
) -> (r: [u16; 8])
    requires
        seg_ctx(
            sv,
            colsv,
            sv.len() as int,
            np,
            h0,
            tl0,
            comp,
            head as int,
            thc as int,
            vtn as int,
        ),
        res@.len() == 8 - 2 * vtn,
        v4t matches Some(o) ==> o@ == ipv4_value(part_at(sv, np - 1)),
        (v4t is Some) == (vtn == 1),
        forall|q: int|
            #![trigger res@[q]]
            #![trigger part_at(sv, q)]
            0 <= q < head ==> valid_hex_group(part_at(sv, q)) && res@[q] as int == hex_value(
                part_at(sv, q),
            ),
        forall|q: int| head <= q < 8 - 2 * vtn - thc ==> #[trigger] res@[q] == 0u16,
        forall|q: int|
            #![trigger res@[q]]
            #![trigger part_at(sv, np + vtn as int - 8 + q)]
            8 - 2 * vtn - thc <= q < 8 - 2 * vtn ==> valid_hex_group(
                part_at(sv, np + vtn as int - 8 + q),
            ) && res@[q] as int == hex_value(part_at(sv, np + vtn as int - 8 + q)),
    ensures
        is_ipv6_literal(sv),
        r@ == ipv6_value(sv),
{
    let mut res = res;
    if vtn == 1 {
        let oct = v4t.unwrap();
        let s6 = (oct[0] as u16) * 0x100 + (oct[1] as u16);
        let s7 = (oct[2] as u16) * 0x100 + (oct[3] as u16);
        res.push(s6);
        res.push(s7);
        proof {
            let ghost ov = ipv4_value(part_at(sv, np - 1));
            assert(res@[6] == crate::codec::u16_from_be(ov[0], ov[1]));
            assert(res@[7] == crate::codec::u16_from_be(ov[2], ov[3]));
        }
    }
    let segs = [res[0], res[1], res[2], res[3], res[4], res[5], res[6], res[7]];
    proof {
        lemma_assembled_value(sv, head as int, thc as int, vtn as int, comp, res@);
        assert(segs@ =~= res@);
    }
    segs
}

/// Parses a hexadecimal-group address literal, exactly when
/// [`is_ipv6_literal`] holds of the string.
#[verifier::rlimit(100)]
pub fn parse_ipv6_literal(s: &str) -> (r: Option<[u16; 8]>)
    ensures
        match r {
            Some(sg) => is_ipv6_literal(s@) && sg@ == ipv6_value(s@),
            None => !is_ipv6_literal(s@),
        },
{
    let n = s.unicode_len();
    let cols = find_colons(s);
    proof {
        lemma_cpos_from(s@, 0);
    }
    if cols.len() > 8 {
        proof {
            lemma_many_parts(s@);
        }
        return None;
    }
    let np = cols.len() + 1;
    let mut empties: Vec<usize> = Vec::new();
    let mut t: usize = 0;
    while t < np
        invariant
            t <= np,
            np == cols@.len() + 1,
            np <= 9,
            n == s@.len(),
            cols@.map_values(|x: usize| x as int) == colon_positions(s@),
            np as int == n_parts(s@),
            forall|q: int| 0 <= q < empties@.len() ==> #[trigger] empties@[q] < t,
            forall|q1: int, q2: int|
                0 <= q1 < q2 < empties@.len() ==> empties@[q1] < empties@[q2],
            forall|u: int|
                0 <= u < t ==> (part_empty(s@, u) <==> (exists|q: int|
                    0 <= q < empties@.len() && #[trigger] empties@[q] as int == u)),
        decreases np - t,
    {
        let se = part_range(s, &cols, n, t);
        if se.0 == se.1 {
            let ghost olde = empties@;
            empties.push(t);
            proof {
                assert(empties@[empties@.len() - 1] == t);
                assert forall|u: int|
                    0 <= u < t + 1 implies (part_empty(s@, u) <==> (exists|q: int|
                        0 <= q < empties@.len() && #[trigger] empties@[q] as int == u)) by {
                    if u < t {
                        if part_empty(s@, u) {
                            let q = choose|q: int| 0 <= q < olde.len() && olde[q] as int == u;
                            assert(empties@[q] as int == u);
                        }
                    } else {
                        assert(empties@[empties@.len() - 1] as int == u);
                    }
                }
            }
        } else {
            proof {
                assert(!part_empty(s@, t as int));
            }
        }
        t = t + 1;
    }
    let sh = decide_shape(Ghost(s@), &empties, np);
    let (h0, tl0, comp): (usize, usize, bool) = match sh {
        Some(x) => x,
        None => {
            return None;
        },
    };
    let ex = examine_tail(s, &cols, n, np, h0, tl0, comp);
    let (head, thc, vtn, v4t): (usize, usize, usize, Option<[u8; 4]>) = match ex {
        Some(x) => x,
        None => {
            return None;
        },
    };
    proof {
        assert(seg_ctx(
            s@,
            cols@,
            n as int,
            np as int,
            h0 as int,
            tl0 as int,
            comp,
            head as int,
            thc as int,
            vtn as int,
        ));
    }
    let mut res: Vec<u16> = Vec::new();
    let mut i: usize = 0;
    while i < head
        invariant
            seg_ctx(
                s@,
                cols@,
                n as int,
                np as int,
                h0 as int,
                tl0 as int,
                comp,
                head as int,
                thc as int,
                vtn as int,
            ),
            i <= head,
            v4t matches Some(o) ==> o@ == ipv4_value(part_at(s@, np as int - 1)),
            (v4t is Some) == (vtn == 1),
            res@.len() == i,
            forall|q: int|
                #![trigger res@[q]]
                #![trigger part_at(s@, q)]
                0 <= q < i ==> valid_hex_group(part_at(s@, q)) && res@[q] as int == hex_value(
                    part_at(s@, q),
                ),
        decreases head - i,
    {
        let se = part_range(s, &cols, n, i);
        match parse_hex_group(s, se.0, se.1) {
            Some(v) => {
                res.push(v);
                proof {
                    assert(part_at(s@, i as int) == s@.subrange(se.0 as int, se.1 as int));
                    assert(valid_hex_group(part_at(s@, i as int)));
                    assert(res@[i as int] as int == hex_value(part_at(s@, i as int)));
                }
            },
            None => {
                proof {
                    assert(part_at(s@, i as int) == s@.subrange(se.0 as int, se.1 as int));
                    assert(!valid_hex_group(part_at(s@, i as int)));
                }
                return None;
            },
        }
        i = i + 1;
    }
    let zend: usize = 8 - 2 * vtn - thc;
    while res.len() < zend
        invariant
            seg_ctx(
                s@,
                cols@,
                n as int,
                np as int,
                h0 as int,
                tl0 as int,
                comp,
                head as int,
                thc as int,
                vtn as int,
            ),
            zend == 8 - 2 * vtn - thc,
            head <= res@.len() <= zend,
            v4t matches Some(o) ==> o@ == ipv4_value(part_at(s@, np as int - 1)),
            (v4t is Some) == (vtn == 1),
            forall|q: int|
                #![trigger res@[q]]
                #![trigger part_at(s@, q)]
                0 <= q < head ==> valid_hex_group(part_at(s@, q)) && res@[q] as int
                    == hex_value(part_at(s@, q)),
            forall|q: int| head <= q < res@.len() ==> #[trigger] res@[q] == 0u16,
        decreases zend - res.len(),
    {
        res.push(0);
    }
    let mut k: usize = 0;
    while k < thc
        invariant
            seg_ctx(
                s@,
                cols@,
                n as int,
                np as int,
                h0 as int,
                tl0 as int,
                comp,
                head as int,
                thc as int,
                vtn as int,
            ),
            zend == 8 - 2 * vtn - thc,
            head <= zend,
            k <= thc,
            res@.len() == zend + k,
            v4t matches Some(o) ==> o@ == ipv4_value(part_at(s@, np as int - 1)),
            (v4t is Some) == (vtn == 1),
            forall|q: int|
                #![trigger res@[q]]
                #![trigger part_at(s@, q)]
                0 <= q < head ==> valid_hex_group(part_at(s@, q)) && res@[q] as int
                    == hex_value(part_at(s@, q)),
            forall|q: int| head <= q < zend ==> #[trigger] res@[q] == 0u16,
            forall|q: int|
                #![trigger res@[q]]
                #![trigger part_at(s@, np as int + vtn as int - 8 + q)]
                zend <= q < res@.len() ==> valid_hex_group(
                    part_at(s@, np as int + vtn as int - 8 + q),
                ) && res@[q] as int == hex_value(part_at(s@, np as int + vtn as int - 8 + q)),
        decreases thc - k,
    {
        let pi = np - vtn - thc + k;
        let se = part_range(s, &cols, n, pi);
        match parse_hex_group(s, se.0, se.1) {
            Some(v) => {
                res.push(v);
                proof {
                    assert(part_at(s@, pi as int) == s@.subrange(se.0 as int, se.1 as int));
                    assert(valid_hex_group(part_at(s@, pi as int)));
                    assert(res@[res@.len() - 1] as int == hex_value(part_at(s@, pi as int)));
                    assert(np as int + vtn as int - 8 + (res@.len() - 1) == pi as int);
                }
            },
            None => {
                proof {
                    assert(part_at(s@, pi as int) == s@.subrange(se.0 as int, se.1 as int));
                    assert(!valid_hex_group(part_at(s@, pi as int)));
                    assert(n_parts(s@) - (tl0 as int) <= pi as int);
                    assert((pi as int) < n_parts(s@) - (vtn as int));
                }
                return None;
            },
        }
        k = k + 1;
    }
    let segs = finish_segments(
        Ghost(s@),
        Ghost(cols@),
        Ghost(np as int),
        Ghost(h0 as int),
        Ghost(tl0 as int),
        res,
        v4t,
        head,
        thc,
        vtn,
        comp,
    );
    Some(segs)
}

impl Address {
    /// The resolved endpoint this address denotes, without name resolution:
    /// a resolved address is returned as it is; a domain name is reinterpreted
    /// as a dotted-quad literal, then as an eight-segment literal; a name
    /// that is neither fails with the unresolved-domain error carrying it.
    pub fn to_socket_addr(&self) -> (r: Result<(IpAddr, u16), AddressError>)
        ensures
            match *self {
                Address::SocketAddress(ip, port) => r == Ok::<_, AddressError>((ip, port)),
                Address::DomainAddress(ref name, port) => {
                    if is_ipv4_literal(name@) {
                        r matches Ok((IpAddr::V4(oct), p)) && oct@ == ipv4_value(name@) && p
                            == port
                    } else if is_ipv6_literal(name@) {
                        r matches Ok((IpAddr::V6(sg), p)) && sg@ == ipv6_value(name@) && p
                            == port
                    } else {
                        r matches Err(e) && e matches AddressError::UnresolvedDomain(n)
                            && n@ == name@
                    }
                },
            },
    {
        match self {
            Address::SocketAddress(ip, port) => Ok((*ip, *port)),
            Address::DomainAddress(name, port) => match parse_ipv4_literal(name.as_str()) {
                Some(oct) => Ok((IpAddr::V4(oct), *port)),
                None => match parse_ipv6_literal(name.as_str()) {
                    Some(sg) => Ok((IpAddr::V6(sg), *port)),
                    None => Err(AddressError::UnresolvedDomain(name.clone())),
                },
            },
        }
    }
}

} // verus!

