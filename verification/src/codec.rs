//! The address text codec: the grammar of `tcp://` and `unix://` texts as
//! spec functions, the executable formatter and parser proved against it,
//! and the round-trip laws.

use vstd::prelude::*;

use crate::socket_addr::IpAddress;
use crate::socket_addr::ParseError;
use crate::socket_addr::SocketAddr;
use crate::socket_addr::SocketAddrSpec;
use crate::socket_addr::UnixAddr;
use crate::socket_addr::UnixAddrSpec;
use vstd::string::*;

verus! {

// ---------------------------------------------------------------------------
// Characters and numbers
// ---------------------------------------------------------------------------

/// Whether `c` is a decimal digit.
pub open spec fn is_dec(c: char) -> bool {
    '0' <= c && c <= '9'
}

/// The value of a decimal digit.
pub open spec fn dec_val(c: char) -> int {
    c as int - '0' as int
}

/// Whether `c` is a hexadecimal digit, either case.
pub open spec fn is_hex(c: char) -> bool {
    is_dec(c) || ('a' <= c && c <= 'f') || ('A' <= c && c <= 'F')
}

/// The value of a hexadecimal digit.
pub open spec fn hex_val(c: char) -> int {
    if is_dec(c) {
        dec_val(c)
    } else if 'a' <= c && c <= 'f' {
        c as int - 'a' as int + 10
    } else {
        c as int - 'A' as int + 10
    }
}

/// The decimal digit character for a value below ten.
pub open spec fn dec_char(d: int) -> char {
    if d == 0 { '0' }
    else if d == 1 { '1' }
    else if d == 2 { '2' }
    else if d == 3 { '3' }
    else if d == 4 { '4' }
    else if d == 5 { '5' }
    else if d == 6 { '6' }
    else if d == 7 { '7' }
    else if d == 8 { '8' }
    else { '9' }
}

/// The lowercase hexadecimal digit character for a value below sixteen.
pub open spec fn hex_char(d: int) -> char {
    if d < 10 { dec_char(d) }
    else if d == 10 { 'a' }
    else if d == 11 { 'b' }
    else if d == 12 { 'c' }
    else if d == 13 { 'd' }
    else if d == 14 { 'e' }
    else { 'f' }
}

/// Whether every character of `s` is a decimal digit.
pub open spec fn all_dec(s: Seq<char>) -> bool {
    forall|i: int| 0 <= i < s.len() ==> is_dec(#[trigger] s[i])
}

/// Whether every character of `s` is a hexadecimal digit.
pub open spec fn all_hex(s: Seq<char>) -> bool {
    forall|i: int| 0 <= i < s.len() ==> is_hex(#[trigger] s[i])
}

/// The value of a sequence of decimal digits, most significant first.
pub open spec fn dec_value(s: Seq<char>) -> int
    decreases s.len(),
{
    if s.len() == 0 {
        0
    } else {
        10 * dec_value(s.drop_last()) + dec_val(s.last())
    }
}

/// The value of a sequence of hexadecimal digits, most significant first.
pub open spec fn hex_value(s: Seq<char>) -> int
    decreases s.len(),
{
    if s.len() == 0 {
        0
    } else {
        16 * hex_value(s.drop_last()) + hex_val(s.last())
    }
}

/// A decimal number as the formatter writes it and the parser demands it:
/// nonempty, digits only, and no leading zero.
pub open spec fn canonical_dec(s: Seq<char>) -> bool {
    s.len() > 0 && all_dec(s) && (s[0] == '0' ==> s.len() == 1)
}

/// One group of an IPv6 text: one to four hexadecimal digits.
pub open spec fn is_hex_group(s: Seq<char>) -> bool {
    1 <= s.len() <= 4 && all_hex(s)
}

/// The canonical decimal digits of `n`.
pub open spec fn dec_digits(n: nat) -> Seq<char>
    decreases n,
{
    if n < 10 {
        seq![dec_char(n as int)]
    } else {
        dec_digits(n / 10).push(dec_char((n % 10) as int))
    }
}

/// The canonical lowercase hexadecimal digits of `n`, without leading
/// zeros.
pub open spec fn hex_digits(n: nat) -> Seq<char>
    decreases n,
{
    if n < 16 {
        seq![hex_char(n as int)]
    } else {
        hex_digits(n / 16).push(hex_char((n % 16) as int))
    }
}

/// The decimal digit character of a value below ten is a digit and
/// evaluates back to that value.
pub proof fn lemma_dec_char(d: int)
    requires
        0 <= d < 10,
    ensures
        is_dec(dec_char(d)),
        dec_val(dec_char(d)) == d,
        dec_char(d) == '0' <==> d == 0,
{
}

/// The hexadecimal digit character of a value below sixteen is a
/// hexadecimal digit and evaluates back to that value.
pub proof fn lemma_hex_char(d: int)
    requires
        0 <= d < 16,
    ensures
        is_hex(hex_char(d)),
        hex_val(hex_char(d)) == d,
{
    if d < 10 {
        lemma_dec_char(d);
    }
}

/// The canonical decimal digits of `n` are digits, carry no leading zero,
/// and evaluate back to `n`.
pub proof fn lemma_dec_digits(n: nat)
    ensures
        all_dec(dec_digits(n)),
        canonical_dec(dec_digits(n)),
        dec_value(dec_digits(n)) == n,
        n < 10 ==> dec_digits(n).len() == 1,
        n < 100 ==> dec_digits(n).len() <= 2,
        n < 1000 ==> dec_digits(n).len() <= 3,
        n < 10000 ==> dec_digits(n).len() <= 4,
        n < 100000 ==> dec_digits(n).len() <= 5,
    decreases n,
{
    reveal_with_fuel(dec_value, 2);
    reveal_with_fuel(dec_digits, 2);
    if n < 10 {
        lemma_dec_char(n as int);
    } else {
        lemma_dec_digits(n / 10);
        lemma_dec_char((n % 10) as int);
        let d = dec_digits(n / 10);
        let whole = dec_digits(n);
        assert(whole == d.push(dec_char((n % 10) as int)));
        assert(whole.drop_last() == d);
        assert(whole.last() == dec_char((n % 10) as int));
        assert(n == 10 * (n / 10) + n % 10);
        assert(dec_value(whole) == 10 * dec_value(d) + dec_val(whole.last()));
        assert(forall|i: int| 0 <= i < whole.len() ==> is_dec(#[trigger] whole[i])) by {
            assert(forall|i: int| 0 <= i < d.len() ==> is_dec(#[trigger] d[i]));
        }
        assert(whole[0] == d[0]);
        if whole[0] == '0' {
            assert(d.len() == 1);
            assert(dec_value(d) == dec_val(d.last()));
            assert(d.last() == d[0]);
            assert(dec_value(d) == 0);
            assert(n / 10 == 0);
            assert(false);
        }
    }
}

/// The canonical hexadecimal digits of `n` are hexadecimal, at most four
/// for a 16-bit value, and evaluate back to `n`.
pub proof fn lemma_hex_digits(n: nat)
    ensures
        all_hex(hex_digits(n)),
        hex_digits(n).len() >= 1,
        hex_value(hex_digits(n)) == n,
        n < 16 ==> hex_digits(n).len() == 1,
        n < 0x100 ==> hex_digits(n).len() <= 2,
        n < 0x1000 ==> hex_digits(n).len() <= 3,
        n < 0x10000 ==> hex_digits(n).len() <= 4,
    decreases n,
{
    reveal_with_fuel(hex_value, 2);
    reveal_with_fuel(hex_digits, 2);
    if n < 16 {
        lemma_hex_char(n as int);
    } else {
        lemma_hex_digits(n / 16);
        lemma_hex_char((n % 16) as int);
        let d = hex_digits(n / 16);
        let whole = hex_digits(n);
        assert(whole == d.push(hex_char((n % 16) as int)));
        assert(whole.drop_last() == d);
        assert(whole.last() == hex_char((n % 16) as int));
        assert(n == 16 * (n / 16) + n % 16);
        assert(hex_value(whole) == 16 * hex_value(d) + hex_val(whole.last()));
        assert(forall|i: int| 0 <= i < whole.len() ==> is_hex(#[trigger] whole[i])) by {
            assert(forall|i: int| 0 <= i < d.len() ==> is_hex(#[trigger] d[i]));
        }
    }
}

// ---------------------------------------------------------------------------
// Searching and splitting
// ---------------------------------------------------------------------------

/// The first index of `c` in `s`, if any.
pub open spec fn find_char(s: Seq<char>, c: char) -> Option<int>
    decreases s.len(),
{
    if s.len() == 0 {
        None
    } else if s[0] == c {
        Some(0int)
    } else {
        match find_char(s.drop_first(), c) {
            None => None,
            Some(i) => Some(i + 1),
        }
    }
}

/// The last index of `c` in `s`, if any.
pub open spec fn rfind_char(s: Seq<char>, c: char) -> Option<int>
    decreases s.len(),
{
    if s.len() == 0 {
        None
    } else if s.last() == c {
        Some(s.len() - 1)
    } else {
        rfind_char(s.drop_last(), c)
    }
}

/// `s` split on every occurrence of `c`; the separators themselves are
/// dropped, and `n` separators yield `n + 1` parts.
pub open spec fn split_on(s: Seq<char>, c: char) -> Seq<Seq<char>>
    decreases s.len(),
    via split_on_decreases
{
    match find_char(s, c) {
        None => seq![s],
        Some(i) => seq![s.take(i)] + split_on(s.skip(i + 1), c),
    }
}

#[via_fn]
proof fn split_on_decreases(s: Seq<char>, c: char) {
    lemma_find_char(s, c);
}

/// What `find_char` returns: the first occurrence, or proof that there is
/// none.
pub proof fn lemma_find_char(s: Seq<char>, c: char)
    ensures
        match find_char(s, c) {
            None => forall|j: int| 0 <= j < s.len() ==> s[j] != c,
            Some(i) => 0 <= i < s.len() && s[i] == c && forall|j: int| 0 <= j < i ==> s[j] != c,
        },
    decreases s.len(),
{
    if s.len() > 0 && s[0] != c {
        let rest = s.drop_first();
        lemma_find_char(rest, c);
        assert(forall|j: int| 0 < j < s.len() ==> s[j] == rest[j - 1]);
        match find_char(rest, c) {
            None => {
                assert forall|j: int| 0 <= j < s.len() implies s[j] != c by {
                    if j > 0 {
                        assert(s[j] == rest[j - 1]);
                    }
                }
            },
            Some(i) => {
                assert(s[i + 1] == rest[i]);
                assert forall|j: int| 0 <= j < i + 1 implies s[j] != c by {
                    if j > 0 {
                        assert(s[j] == rest[j - 1]);
                    }
                }
            },
        }
    }
}

/// What `rfind_char` returns: the last occurrence, or proof that there is
/// none.
pub proof fn lemma_rfind_char(s: Seq<char>, c: char)
    ensures
        match rfind_char(s, c) {
            None => forall|j: int| 0 <= j < s.len() ==> s[j] != c,
            Some(i) => 0 <= i < s.len() && s[i] == c && forall|j: int| i < j < s.len() ==> s[j] != c,
        },
    decreases s.len(),
{
    if s.len() > 0 && s.last() != c {
        let rest = s.drop_last();
        lemma_rfind_char(rest, c);
        assert(forall|j: int| 0 <= j < s.len() - 1 ==> s[j] == rest[j]);
        match rfind_char(rest, c) {
            None => {
                assert forall|j: int| 0 <= j < s.len() implies s[j] != c by {
                    if j < s.len() - 1 {
                        assert(s[j] == rest[j]);
                    } else {
                        assert(s[j] == s.last());
                    }
                }
            },
            Some(i) => {
                assert(s[i] == rest[i]);
                assert forall|j: int| i < j < s.len() implies s[j] != c by {
                    if j < s.len() - 1 {
                        assert(s[j] == rest[j]);
                    } else {
                        assert(s[j] == s.last());
                    }
                }
            },
        }
    }
}

/// An index that is an occurrence of `c` preceded by none is what
/// `find_char` returns.
pub proof fn lemma_find_char_is(s: Seq<char>, c: char, i: int)
    requires
        0 <= i < s.len(),
        s[i] == c,
        forall|j: int| 0 <= j < i ==> s[j] != c,
    ensures
        find_char(s, c) == Some(i),
{
    lemma_find_char(s, c);
    match find_char(s, c) {
        None => {
            assert(false);
        },
        Some(k) => {
            if k < i {
                assert(s[k] != c);
            }
            if i < k {
                assert(s[i] != c);
            }
        },
    }
}

/// An index that is an occurrence of `c` followed by none is what
/// `rfind_char` returns.
pub proof fn lemma_rfind_char_is(s: Seq<char>, c: char, i: int)
    requires
        0 <= i < s.len(),
        s[i] == c,
        forall|j: int| i < j < s.len() ==> s[j] != c,
    ensures
        rfind_char(s, c) == Some(i),
{
    lemma_rfind_char(s, c);
    match rfind_char(s, c) {
        None => {
            assert(false);
        },
        Some(k) => {
            if k < i {
                assert(s[i] != c);
            }
            if i < k {
                assert(s[k] != c);
            }
        },
    }
}

/// When the tail holds no separator, the last separator of
/// `a + c + b` closes `a`.
pub proof fn lemma_rfind_concat(a: Seq<char>, b: Seq<char>, c: char)
    requires
        forall|j: int| 0 <= j < b.len() ==> b[j] != c,
    ensures
        rfind_char(a + seq![c] + b, c) == Some(a.len() as int),
{
    let s = a + seq![c] + b;
    assert(s[a.len() as int] == c);
    assert forall|j: int| a.len() < j < s.len() implies s[j] != c by {
        assert(s[j] == b[j - a.len() - 1]);
    }
    lemma_rfind_char_is(s, c, a.len() as int);
}

/// When the head holds no separator, the first separator of
/// `a + c + b` closes `a`.
pub proof fn lemma_find_concat(a: Seq<char>, b: Seq<char>, c: char)
    requires
        forall|j: int| 0 <= j < a.len() ==> a[j] != c,
    ensures
        find_char(a + seq![c] + b, c) == Some(a.len() as int),
{
    let s = a + seq![c] + b;
    assert(s[a.len() as int] == c);
    assert forall|j: int| 0 <= j < a.len() implies s[j] != c by {
        assert(s[j] == a[j]);
    }
    lemma_find_char_is(s, c, a.len() as int);
}

/// A text without the separator splits into the one part it is.
pub proof fn lemma_split_on_single(a: Seq<char>, c: char)
    requires
        forall|j: int| 0 <= j < a.len() ==> a[j] != c,
    ensures
        split_on(a, c) == seq![a],
{
    lemma_find_char(a, c);
    match find_char(a, c) {
        None => {},
        Some(i) => {
            assert(a[i] != c);
        },
    }
}

/// Splitting peels off a separator-free head part.
pub proof fn lemma_split_on_concat(a: Seq<char>, rest: Seq<char>, c: char)
    requires
        forall|j: int| 0 <= j < a.len() ==> a[j] != c,
    ensures
        split_on(a + seq![c] + rest, c) == seq![a] + split_on(rest, c),
{
    let s = a + seq![c] + rest;
    lemma_find_concat(a, rest, c);
    assert(s.take(a.len() as int) =~= a);
    assert(s.skip(a.len() as int + 1) =~= rest);
}

// ---------------------------------------------------------------------------
// The grammar
// ---------------------------------------------------------------------------

/// The scheme prefix selecting the TCP transport.
pub open spec fn tcp_scheme() -> Seq<char> {
    seq!['t', 'c', 'p', ':', '/', '/']
}

/// The scheme prefix selecting the UNIX-domain transport.
pub open spec fn unix_scheme() -> Seq<char> {
    seq!['u', 'n', 'i', 'x', ':', '/', '/']
}

/// The fixed placeholder that an unnamed UNIX address renders to; it is
/// deliberately not parseable.
pub open spec fn unnamed_text() -> Seq<char> {
    seq![
        '(', 'u', 'n', 'n', 'a', 'm', 'e', 'd', ' ', 'u', 'n', 'i', 'x', ' ', 's', 'o', 'c', 'k',
        'e', 't', ')',
    ]
}

/// A port text: a canonical decimal number up to 65535.
pub open spec fn spec_parse_port(s: Seq<char>) -> Option<u16> {
    if canonical_dec(s) && dec_value(s) <= 65535 {
        Some(dec_value(s) as u16)
    } else {
        None
    }
}

/// An IPv4 octet text: a canonical decimal number up to 255.
pub open spec fn spec_parse_octet(s: Seq<char>) -> Option<u8> {
    if canonical_dec(s) && dec_value(s) <= 255 {
        Some(dec_value(s) as u8)
    } else {
        None
    }
}

/// An IPv4 text: four octets joined by dots.
pub open spec fn spec_parse_ipv4(s: Seq<char>) -> Option<IpAddress> {
    let parts = split_on(s, '.');
    if parts.len() != 4 {
        None
    } else {
        match (spec_parse_octet(parts[0]), spec_parse_octet(parts[1]), spec_parse_octet(parts[2]),
        spec_parse_octet(parts[3])) {
            (Some(a), Some(b), Some(c), Some(d)) => Some(IpAddress::V4(a, b, c, d)),
            _ => None,
        }
    }
}

/// One 16-bit group of an IPv6 text.
pub open spec fn spec_parse_group(s: Seq<char>) -> Option<u16> {
    if is_hex_group(s) {
        Some(hex_value(s) as u16)
    } else {
        None
    }
}

/// The last part of an IPv6 group list: a hexadecimal group, or — where
/// the grammar allows it — an embedded IPv4 text standing for two groups.
pub open spec fn spec_parse_last_group(p: Seq<char>, v4_tail: bool) -> Option<Seq<u16>> {
    if v4_tail && p.contains('.') {
        match spec_parse_ipv4(p) {
            Some(IpAddress::V4(a, b, c, d)) => Some(
                seq![
                    (a as int * 256 + b as int) as u16,
                    (c as int * 256 + d as int) as u16,
                ],
            ),
            _ => None,
        }
    } else {
        match spec_parse_group(p) {
            Some(g) => Some(seq![g]),
            None => None,
        }
    }
}

/// A list of IPv6 group texts, each parsed in order; only the last may be
/// an embedded IPv4 text.
pub open spec fn spec_parse_groups(parts: Seq<Seq<char>>, v4_tail: bool) -> Option<Seq<u16>>
    decreases parts.len(),
{
    if parts.len() == 0 {
        Some(seq![])
    } else if parts.len() == 1 {
        spec_parse_last_group(parts[0], v4_tail)
    } else {
        match spec_parse_group(parts[0]) {
            None => None,
            Some(g) => match spec_parse_groups(parts.drop_first(), v4_tail) {
                None => None,
                Some(r) => Some(seq![g] + r),
            },
        }
    }
}

/// The first index where two colons stand adjacent, if any.
pub open spec fn find_double_colon(s: Seq<char>) -> Option<int>
    decreases s.len(),
{
    if s.len() < 2 {
        None
    } else if s[0] == ':' && s[1] == ':' {
        Some(0int)
    } else {
        match find_double_colon(s.drop_first()) {
            None => None,
            Some(i) => Some(i + 1),
        }
    }
}

/// Eight groups as one IPv6 address value.
pub open spec fn ip_v6_of(gs: Seq<u16>) -> IpAddress
    recommends
        gs.len() == 8,
{
    IpAddress::V6(gs[0], gs[1], gs[2], gs[3], gs[4], gs[5], gs[6], gs[7])
}

/// A run of zero groups.
pub open spec fn zero_groups(n: nat) -> Seq<u16> {
    Seq::new(n, |i: int| 0u16)
}

/// An IPv6 text between its brackets: eight groups joined by colons, or a
/// shorter list on each side of one `::` that stands for the missing run
/// of zero groups.
pub open spec fn spec_parse_ipv6(s: Seq<char>) -> Option<IpAddress> {
    match find_double_colon(s) {
        None => match spec_parse_groups(split_on(s, ':'), true) {
            Some(gs) => if gs.len() == 8 {
                Some(ip_v6_of(gs))
            } else {
                None
            },
            None => None,
        },
        Some(i) => {
            let left = s.take(i);
            let right = s.skip(i + 2);
            let lparts = if left.len() == 0 {
                Seq::<Seq<char>>::empty()
            } else {
                split_on(left, ':')
            };
            let rparts = if right.len() == 0 {
                Seq::<Seq<char>>::empty()
            } else {
                split_on(right, ':')
            };
            match (spec_parse_groups(lparts, false), spec_parse_groups(rparts, true)) {
                (Some(lg), Some(rg)) => if lg.len() + rg.len() <= 7 {
                    Some(ip_v6_of(lg + zero_groups((8 - lg.len() - rg.len()) as nat) + rg))
                } else {
                    None
                },
                _ => None,
            }
        },
    }
}

/// The body after `tcp://`: an IP text and a port, separated by the last
/// colon; a bracketed IP text is IPv6, a bare one IPv4.
pub open spec fn spec_parse_tcp_body(b: Seq<char>) -> Option<(IpAddress, u16)> {
    match rfind_char(b, ':') {
        None => None,
        Some(i) => {
            let ipt = b.take(i);
            let portt = b.skip(i + 1);
            match spec_parse_port(portt) {
                None => None,
                Some(port) => {
                    let ip = if ipt.len() >= 2 && ipt[0] == '[' && ipt.last() == ']' {
                        spec_parse_ipv6(ipt.subrange(1, ipt.len() - 1))
                    } else {
                        spec_parse_ipv4(ipt)
                    };
                    match ip {
                        Some(ip) => Some((ip, port)),
                        None => None,
                    }
                },
            }
        },
    }
}

/// The body after `unix://`: an abstract name where the platform has that
/// namespace, the unnamed address for an empty body, or a filesystem path
/// free of NUL characters.
pub open spec fn spec_parse_unix_body(abstract_names: bool, b: Seq<char>) -> Result<
    UnixAddrSpec,
    ParseError,
> {
    if b.len() >= 1 && b[0] == '@' {
        if abstract_names {
            Ok(UnixAddrSpec::Abstract(b.skip(1)))
        } else {
            Err(ParseError::AbstractNamesUnsupported)
        }
    } else if b.contains('\0') {
        Err(ParseError::InvalidUnixPath)
    } else if b.len() == 0 {
        Ok(UnixAddrSpec::Unnamed)
    } else {
        Ok(UnixAddrSpec::Pathname(b))
    }
}

/// What parsing an address text yields: the whole grammar in one
/// function.
pub open spec fn spec_parse(abstract_names: bool, s: Seq<char>) -> Result<
    SocketAddrSpec,
    ParseError,
> {
    if s.len() >= 6 && s.take(6) == tcp_scheme() {
        match spec_parse_tcp_body(s.skip(6)) {
            Some((ip, port)) => Ok(SocketAddrSpec::Tcp(ip, port)),
            None => Err(ParseError::InvalidTcpAddress),
        }
    } else if s.len() >= 7 && s.take(7) == unix_scheme() {
        match spec_parse_unix_body(abstract_names, s.skip(7)) {
            Ok(u) => Ok(SocketAddrSpec::Unix(u)),
            Err(e) => Err(e),
        }
    } else {
        Err(ParseError::InvalidScheme)
    }
}

/// The text an IP address renders to: dotted decimal for IPv4, all eight
/// groups in bracketed lowercase hexadecimal for IPv6.
pub open spec fn spec_format_ip(ip: IpAddress) -> Seq<char> {
    match ip {
        IpAddress::V4(a, b, c, d) => dec_digits(a as nat) + seq!['.'] + dec_digits(b as nat)
            + seq!['.'] + dec_digits(c as nat) + seq!['.'] + dec_digits(d as nat),
        IpAddress::V6(g0, g1, g2, g3, g4, g5, g6, g7) => seq!['['] + hex_digits(g0 as nat)
            + seq![':'] + hex_digits(g1 as nat) + seq![':'] + hex_digits(g2 as nat) + seq![':']
            + hex_digits(g3 as nat) + seq![':'] + hex_digits(g4 as nat) + seq![':'] + hex_digits(
            g5 as nat,
        ) + seq![':'] + hex_digits(g6 as nat) + seq![':'] + hex_digits(g7 as nat) + seq![']'],
    }
}

/// The text an address renders to.
pub open spec fn spec_format(v: SocketAddrSpec) -> Seq<char> {
    match v {
        SocketAddrSpec::Tcp(ip, port) => tcp_scheme() + spec_format_ip(ip) + seq![':']
            + dec_digits(port as nat),
        SocketAddrSpec::Unix(UnixAddrSpec::Pathname(p)) => unix_scheme() + p,
        SocketAddrSpec::Unix(UnixAddrSpec::Abstract(n)) => unix_scheme() + seq!['@'] + n,
        SocketAddrSpec::Unix(UnixAddrSpec::Unnamed) => unnamed_text(),
    }
}

// ---------------------------------------------------------------------------
// The formatter
// ---------------------------------------------------------------------------

/// Relies on `String::push`: appends exactly the given character.
#[verifier::external_body]
pub(crate) fn push_char(s: &mut String, c: char)
    ensures
        final(s)@ == old(s)@.push(c),
{
    s.push(c);
}

/// The decimal digit character of a value below ten.
fn dec_char_of(d: u8) -> (c: char)
    requires
        d < 10,
    ensures
        c == dec_char(d as int),
{
    match d {
        0 => '0',
        1 => '1',
        2 => '2',
        3 => '3',
        4 => '4',
        5 => '5',
        6 => '6',
        7 => '7',
        8 => '8',
        _ => '9',
    }
}

/// The lowercase hexadecimal digit character of a value below sixteen.
fn hex_char_of(d: u8) -> (c: char)
    requires
        d < 16,
    ensures
        c == hex_char(d as int),
{
    if d < 10 {
        dec_char_of(d)
    } else {
        match d {
            10 => 'a',
            11 => 'b',
            12 => 'c',
            13 => 'd',
            14 => 'e',
            _ => 'f',
        }
    }
}

/// `n` written in canonical decimal.
fn fmt_dec(n: u16) -> (r: String)
    ensures
        r@ == dec_digits(n as nat),
    decreases n,
{
    if n < 10 {
        let mut s = String::new();
        push_char(&mut s, dec_char_of(n as u8));
        proof {
            assert(s@ =~= dec_digits(n as nat));
        }
        s
    } else {
        let mut s = fmt_dec(n / 10);
        push_char(&mut s, dec_char_of((n % 10) as u8));
        proof {
            assert(s@ =~= dec_digits(n as nat));
        }
        s
    }
}

/// `n` written in canonical lowercase hexadecimal.
fn fmt_hex(n: u16) -> (r: String)
    ensures
        r@ == hex_digits(n as nat),
    decreases n,
{
    if n < 16 {
        let mut s = String::new();
        push_char(&mut s, hex_char_of(n as u8));
        proof {
            assert(s@ =~= hex_digits(n as nat));
        }
        s
    } else {
        let mut s = fmt_hex(n / 16);
        push_char(&mut s, hex_char_of((n % 16) as u8));
        proof {
            assert(s@ =~= hex_digits(n as nat));
        }
        s
    }
}

/// One IPv6 group and its separating colon, appended.
fn append_group(s: &mut String, g: u16)
    ensures
        final(s)@ == old(s)@ + hex_digits(g as nat) + seq![':'],
{
    let t = fmt_hex(g);
    s.append(t.as_str());
    push_char(s, ':');
    proof {
        assert(s@ =~= old(s)@ + hex_digits(g as nat) + seq![':']);
    }
}

/// The text an IP address renders to.
fn format_ip(ip: &IpAddress) -> (r: String)
    ensures
        r@ == spec_format_ip(*ip),
{
    match ip {
        IpAddress::V4(a, b, c, d) => {
            let mut s = fmt_dec(*a as u16);
            push_char(&mut s, '.');
            let t = fmt_dec(*b as u16);
            s.append(t.as_str());
            push_char(&mut s, '.');
            let t = fmt_dec(*c as u16);
            s.append(t.as_str());
            push_char(&mut s, '.');
            let t = fmt_dec(*d as u16);
            s.append(t.as_str());
            proof {
                assert(s@ =~= spec_format_ip(*ip));
            }
            s
        },
        IpAddress::V6(g0, g1, g2, g3, g4, g5, g6, g7) => {
            let mut s = String::new();
            push_char(&mut s, '[');
            append_group(&mut s, *g0);
            append_group(&mut s, *g1);
            append_group(&mut s, *g2);
            append_group(&mut s, *g3);
            append_group(&mut s, *g4);
            append_group(&mut s, *g5);
            append_group(&mut s, *g6);
            let t = fmt_hex(*g7);
            s.append(t.as_str());
            push_char(&mut s, ']');
            proof {
                assert(s@ =~= spec_format_ip(*ip));
            }
            s
        },
    }
}

/// The text an address renders to; a named address renders to a parseable
/// text, the unnamed address to a fixed placeholder.
pub fn format_addr(addr: &SocketAddr) -> (r: String)
    ensures
        r@ == spec_format(addr@),
{
    match addr {
        SocketAddr::Tcp(ip, port) => {
            let mut s = String::from_str("tcp://");
            proof {
                reveal_strlit("tcp://");
                assert(s@ =~= tcp_scheme());
            }
            let t = format_ip(ip);
            s.append(t.as_str());
            push_char(&mut s, ':');
            let t = fmt_dec(*port);
            s.append(t.as_str());
            proof {
                assert(s@ =~= spec_format(addr@));
            }
            s
        },
        SocketAddr::Unix(UnixAddr::Pathname(p)) => {
            let mut s = String::from_str("unix://");
            proof {
                reveal_strlit("unix://");
                assert(s@ =~= unix_scheme());
            }
            s.append(p.as_str());
            proof {
                assert(s@ =~= spec_format(addr@));
            }
            s
        },
        SocketAddr::Unix(UnixAddr::Abstract(n)) => {
            let mut s = String::from_str("unix://@");
            proof {
                reveal_strlit("unix://@");
                assert(s@ =~= unix_scheme() + seq!['@']);
            }
            s.append(n.as_str());
            proof {
                assert(s@ =~= spec_format(addr@));
            }
            s
        },
        SocketAddr::Unix(UnixAddr::Unnamed) => {
            let s = String::from_str("(unnamed unix socket)");
            proof {
                reveal_strlit("(unnamed unix socket)");
                assert(s@ =~= unnamed_text());
            }
            s
        },
    }
}

// ---------------------------------------------------------------------------
// Scanning helpers
// ---------------------------------------------------------------------------

/// The value of a digit sequence is never negative.
pub proof fn lemma_dec_value_nonneg(s: Seq<char>)
    requires
        all_dec(s),
    ensures
        dec_value(s) >= 0,
    decreases s.len(),
{
    if s.len() > 0 {
        assert(all_dec(s.drop_last())) by {
            assert(forall|i: int| 0 <= i < s.len() - 1 ==> s.drop_last()[i] == s[i]);
        }
        lemma_dec_value_nonneg(s.drop_last());
    }
}

/// Extending a digit prefix never shrinks its value.
pub proof fn lemma_dec_value_prefix_le(s: Seq<char>, i: int, j: int)
    requires
        all_dec(s),
        0 <= i <= j <= s.len(),
    ensures
        dec_value(s.take(i)) <= dec_value(s.take(j)),
    decreases j - i,
{
    if i < j {
        lemma_dec_value_prefix_le(s, i, j - 1);
        let p = s.take(j);
        assert(p.drop_last() =~= s.take(j - 1));
        assert(all_dec(p)) by {
            assert(forall|k: int| 0 <= k < j ==> p[k] == s[k]);
        }
        assert(all_dec(s.take(j - 1))) by {
            assert(forall|k: int| 0 <= k < j - 1 ==> s.take(j - 1)[k] == s[k]);
        }
        lemma_dec_value_nonneg(s.take(j - 1));
        assert(is_dec(p.last()));
        assert(dec_value(p) == 10 * dec_value(s.take(j - 1)) + dec_val(p.last()));
    }
}

/// The value of a hexadecimal group fits the bit width its length
/// allows.
pub proof fn lemma_hex_value_bound(s: Seq<char>)
    requires
        all_hex(s),
    ensures
        hex_value(s) >= 0,
        s.len() <= 1 ==> hex_value(s) < 0x10,
        s.len() <= 2 ==> hex_value(s) < 0x100,
        s.len() <= 3 ==> hex_value(s) < 0x1000,
        s.len() <= 4 ==> hex_value(s) < 0x10000,
    decreases s.len(),
{
    if s.len() > 0 {
        assert(all_hex(s.drop_last())) by {
            assert(forall|i: int| 0 <= i < s.len() - 1 ==> s.drop_last()[i] == s[i]);
        }
        lemma_hex_value_bound(s.drop_last());
        assert(is_hex(s.last()));
        assert(0 <= hex_val(s.last()) < 16);
    }
}

/// What `find_double_colon` returns: the first adjacent pair of colons,
/// or proof that none exists.
pub proof fn lemma_find_double_colon(s: Seq<char>)
    ensures
        match find_double_colon(s) {
            None => forall|j: int| 0 <= j < s.len() - 1 ==> !(#[trigger] s[j] == ':' && s[j + 1] == ':'),
            Some(i) => 0 <= i < s.len() - 1 && s[i] == ':' && s[i + 1] == ':' && forall|j: int|
                0 <= j < i ==> !(#[trigger] s[j] == ':' && s[j + 1] == ':'),
        },
    decreases s.len(),
{
    if s.len() >= 2 && !(s[0] == ':' && s[1] == ':') {
        let rest = s.drop_first();
        lemma_find_double_colon(rest);
        assert(forall|j: int| 0 < j < s.len() ==> s[j] == rest[j - 1]);
        match find_double_colon(rest) {
            None => {
                assert forall|j: int| 0 <= j < s.len() - 1 implies !(#[trigger] s[j] == ':' && s[j
                    + 1] == ':') by {
                    if j > 0 {
                        assert(s[j] == rest[j - 1] && s[j + 1] == rest[j]);
                    }
                }
            },
            Some(i) => {
                assert(s[i + 1] == rest[i] && s[i + 2] == rest[i + 1]);
                assert forall|j: int| 0 <= j < i + 1 implies !(#[trigger] s[j] == ':' && s[j + 1]
                    == ':') by {
                    if j > 0 {
                        assert(s[j] == rest[j - 1] && s[j + 1] == rest[j]);
                    }
                }
            },
        }
    }
}

/// An adjacent pair of colons preceded by none is what
/// `find_double_colon` returns.
pub proof fn lemma_find_double_colon_is(s: Seq<char>, i: int)
    requires
        0 <= i < s.len() - 1,
        s[i] == ':' && s[i + 1] == ':',
        forall|j: int| 0 <= j < i ==> !(#[trigger] s[j] == ':' && s[j + 1] == ':'),
    ensures
        find_double_colon(s) == Some(i),
{
    lemma_find_double_colon(s);
    match find_double_colon(s) {
        None => {
            assert(!(s[i] == ':' && s[i + 1] == ':'));
        },
        Some(k) => {
            if k < i {
                assert(!(s[k] == ':' && s[k + 1] == ':'));
            }
            if i < k {
                assert(!(s[i] == ':' && s[i + 1] == ':'));
            }
        },
    }
}

/// The last colon of `s`, if any.
fn rfind_colon(s: &str) -> (r: Option<usize>)
    ensures
        match r {
            Some(i) => rfind_char(s@, ':') == Some(i as int),
            None => rfind_char(s@, ':') is None,
        },
{
    let len = s.unicode_len();
    let mut i = len;
    while i > 0
        invariant
            i <= len,
            len == s@.len(),
            forall|j: int| i <= j < len ==> s@[j] != ':',
        decreases i,
    {
        i = i - 1;
        if s.get_char(i) == ':' {
            proof {
                lemma_rfind_char_is(s@, ':', i as int);
            }
            return Some(i);
        }
    }
    proof {
        lemma_rfind_char(s@, ':');
        if let Some(k) = rfind_char(s@, ':') {
            assert(s@[k] != ':');
        }
    }
    None
}

/// The first adjacent pair of colons of `s`, if any.
fn find_dcolon(s: &str) -> (r: Option<usize>)
    ensures
        match r {
            Some(i) => find_double_colon(s@) == Some(i as int),
            None => find_double_colon(s@) is None,
        },
{
    let len = s.unicode_len();
    if len < 2 {
        proof {
            lemma_find_double_colon(s@);
            if let Some(k) = find_double_colon(s@) {
                assert(0 <= k < s@.len() - 1);
            }
        }
        return None;
    }
    let mut i: usize = 0;
    while i < len - 1
        invariant
            i <= len - 1,
            len == s@.len(),
            len >= 2,
            forall|j: int| 0 <= j < i ==> !(#[trigger] s@[j] == ':' && s@[j + 1] == ':'),
        decreases len - i,
    {
        if s.get_char(i) == ':' && s.get_char(i + 1) == ':' {
            proof {
                lemma_find_double_colon_is(s@, i as int);
            }
            return Some(i);
        }
        i = i + 1;
    }
    proof {
        lemma_find_double_colon(s@);
        if let Some(k) = find_double_colon(s@) {
            assert(!(s@[k] == ':' && s@[k + 1] == ':'));
        }
    }
    None
}

/// Whether `s` holds the character `c`.
pub(crate) fn str_contains_char(s: &str, c: char) -> (r: bool)
    ensures
        r == s@.contains(c),
{
    let len = s.unicode_len();
    let mut i: usize = 0;
    while i < len
        invariant
            i <= len,
            len == s@.len(),
            forall|j: int| 0 <= j < i ==> s@[j] != c,
        decreases len - i,
    {
        if s.get_char(i) == c {
            assert(s@[i as int] == c);
            return true;
        }
        i = i + 1;
    }
    assert(!s@.contains(c));
    false
}

/// The first occurrence of `c` in `s` at or after `start`, if any.
fn find_from(s: &str, start: usize, c: char) -> (r: Option<usize>)
    requires
        start <= s@.len(),
    ensures
        match r {
            Some(i) => start <= i < s@.len() && s@[i as int] == c && forall|j: int|
                start <= j < i ==> s@[j] != c,
            None => forall|j: int| start <= j < s@.len() ==> s@[j] != c,
        },
{
    let len = s.unicode_len();
    let mut i = start;
    while i < len
        invariant
            start <= i <= len,
            len == s@.len(),
            forall|j: int| start <= j < i ==> s@[j] != c,
        decreases len - i,
    {
        if s.get_char(i) == c {
            return Some(i);
        }
        i = i + 1;
    }
    None
}

/// `s` split on every occurrence of `sep`.
fn split_str(s: &str, sep: char) -> (r: Vec<String>)
    ensures
        r@.map_values(|p: String| p@) == split_on(s@, sep),
{
    let len = s.unicode_len();
    let mut out: Vec<String> = Vec::new();
    let mut start: usize = 0;
    proof {
        assert(s@.skip(0) =~= s@);
    }
    loop
        invariant
            start <= len,
            len == s@.len(),
            split_on(s@, sep) =~= out@.map_values(|p: String| p@) + split_on(
                s@.skip(start as int),
                sep,
            ),
        decreases len - start,
    {
        let ghost rem = s@.skip(start as int);
        let ghost prev = out@;
        match find_from(s, start, sep) {
            None => {
                let part = String::from_str(s.substring_char(start, len));
                proof {
                    assert(rem =~= s@.subrange(start as int, len as int));
                    assert(forall|j: int| 0 <= j < rem.len() ==> rem[j] != sep);
                    lemma_split_on_single(rem, sep);
                }
                out.push(part);
                proof {
                    assert(out@.map_values(|p: String| p@) =~= prev.map_values(
                        |p: String| p@,
                    ).push(part@));
                }
                return out;
            },
            Some(i) => {
                let part = String::from_str(s.substring_char(start, i));
                proof {
                    let head = s@.subrange(start as int, i as int);
                    let tail = s@.skip(i as int + 1);
                    assert(rem =~= head + seq![sep] + tail);
                    assert(forall|j: int| 0 <= j < head.len() ==> head[j] != sep);
                    lemma_split_on_concat(head, tail, sep);
                }
                out.push(part);
                proof {
                    assert(out@.map_values(|p: String| p@) =~= prev.map_values(
                        |p: String| p@,
                    ).push(part@));
                }
                start = i + 1;
            },
        }
    }
}

// ---------------------------------------------------------------------------
// Number parsing
// ---------------------------------------------------------------------------

/// A canonical decimal number of at most `max`, or the reason there is
/// none.
fn parse_dec_bounded(s: &str, max: u32) -> (r: Option<u32>)
    ensures
        match r {
            Some(v) => canonical_dec(s@) && dec_value(s@) == v && v <= max,
            None => !(canonical_dec(s@) && dec_value(s@) <= max),
        },
{
    let len = s.unicode_len();
    if len == 0 {
        return None;
    }
    if len > 1 && s.get_char(0) == '0' {
        return None;
    }
    let mut v: u32 = 0;
    let mut i: usize = 0;
    while i < len
        invariant
            i <= len,
            len == s@.len(),
            len >= 1,
            len > 1 ==> s@[0] != '0',
            forall|j: int| 0 <= j < i ==> is_dec(#[trigger] s@[j]),
            v == dec_value(s@.take(i as int)),
            v <= max,
        decreases len - i,
    {
        let c = s.get_char(i);
        if c < '0' || c > '9' {
            assert(!is_dec(s@[i as int]));
            return None;
        }
        let d = (c as u32) - 48;
        proof {
            assert(is_dec(c));
            assert(dec_val(c) == d);
            assert(s@.take(i as int + 1).drop_last() =~= s@.take(i as int));
            assert(s@.take(i as int + 1).last() == s@[i as int]);
        }
        let w: u64 = (v as u64) * 10 + (d as u64);
        if w > max as u64 {
            proof {
                assert(dec_value(s@.take(i as int + 1)) == w);
                if canonical_dec(s@) && dec_value(s@) <= max {
                    lemma_dec_value_prefix_le(s@, i as int + 1, s@.len() as int);
                    assert(s@.take(s@.len() as int) =~= s@);
                    assert(false);
                }
            }
            return None;
        }
        v = (w as u32);
        i = i + 1;
    }
    proof {
        assert(s@.take(len as int) =~= s@);
    }
    Some(v)
}

/// An IPv4 octet text, parsed.
fn parse_octet_u8(p: &str) -> (r: Option<u8>)
    ensures
        match r {
            Some(v) => spec_parse_octet(p@) == Some(v),
            None => spec_parse_octet(p@) is None,
        },
{
    match parse_dec_bounded(p, 255) {
        Some(v) => Some(v as u8),
        None => None,
    }
}

/// A port text, parsed.
fn parse_port_u16(p: &str) -> (r: Option<u16>)
    ensures
        match r {
            Some(v) => spec_parse_port(p@) == Some(v),
            None => spec_parse_port(p@) is None,
        },
{
    match parse_dec_bounded(p, 65535) {
        Some(v) => Some(v as u16),
        None => None,
    }
}

/// One IPv6 group text, parsed.
fn parse_hex_group16(s: &str) -> (r: Option<u16>)
    ensures
        match r {
            Some(g) => spec_parse_group(s@) == Some(g),
            None => spec_parse_group(s@) is None,
        },
{
    let len = s.unicode_len();
    if len < 1 || len > 4 {
        return None;
    }
    let mut v: u32 = 0;
    let mut i: usize = 0;
    while i < len
        invariant
            i <= len,
            1 <= len <= 4,
            len == s@.len(),
            forall|j: int| 0 <= j < i ==> is_hex(#[trigger] s@[j]),
            v == hex_value(s@.take(i as int)),
            0 <= v < 0x10000,
        decreases len - i,
    {
        let c = s.get_char(i);
        let d: u32;
        if '0' <= c && c <= '9' {
            d = (c as u32) - 48;
        } else if 'a' <= c && c <= 'f' {
            d = (c as u32) - 87;
        } else if 'A' <= c && c <= 'F' {
            d = (c as u32) - 55;
        } else {
            assert(!is_hex(s@[i as int]));
            return None;
        }
        proof {
            assert(is_hex(c));
            assert(hex_val(c) == d);
            assert(s@.take(i as int + 1).drop_last() =~= s@.take(i as int));
            assert(s@.take(i as int + 1).last() == s@[i as int]);
            assert(all_hex(s@.take(i as int))) by {
                assert(forall|j: int| 0 <= j < i ==> s@.take(i as int)[j] == s@[j]);
            }
            lemma_hex_value_bound(s@.take(i as int));
        }
        v = v * 16 + d;
        i = i + 1;
    }
    proof {
        assert(s@.take(len as int) =~= s@);
        assert(all_hex(s@));
        lemma_hex_value_bound(s@);
    }
    Some(v as u16)
}

// ---------------------------------------------------------------------------
// Group lists
// ---------------------------------------------------------------------------

/// Group texts that all parse, parse together.
proof fn lemma_parse_groups_build(ps: Seq<Seq<char>>, v4: bool, front: Seq<u16>, lastg: Seq<u16>)
    requires
        ps.len() >= 1,
        front.len() == ps.len() - 1,
        forall|k: int| 0 <= k < ps.len() - 1 ==> spec_parse_group(ps[k]) == Some(
            #[trigger] front[k],
        ),
        spec_parse_last_group(ps.last(), v4) == Some(lastg),
    ensures
        spec_parse_groups(ps, v4) == Some(front + lastg),
    decreases ps.len(),
{
    if ps.len() == 1 {
        assert(front + lastg =~= lastg);
        assert(ps[0] == ps.last());
    } else {
        let rest = ps.drop_first();
        assert(forall|k: int| 0 <= k < rest.len() ==> rest[k] == ps[k + 1]);
        assert(rest.last() == ps.last());
        lemma_parse_groups_build(rest, v4, front.drop_first(), lastg);
        assert(spec_parse_group(ps[0]) == Some(front[0]));
        assert(seq![front[0]] + (front.drop_first() + lastg) =~= front + lastg);
    }
}

/// A group list with a bad group before the last parses to nothing.
proof fn lemma_parse_groups_fail_at(ps: Seq<Seq<char>>, v4: bool, k: int)
    requires
        0 <= k < ps.len() - 1,
        spec_parse_group(ps[k]) is None,
    ensures
        spec_parse_groups(ps, v4) is None,
    decreases ps.len(),
{
    if k > 0 {
        let rest = ps.drop_first();
        assert(rest[k - 1] == ps[k]);
        lemma_parse_groups_fail_at(rest, v4, k - 1);
    }
}

/// A group list with a bad last part parses to nothing.
proof fn lemma_parse_groups_fail_last(ps: Seq<Seq<char>>, v4: bool)
    requires
        ps.len() >= 1,
        spec_parse_last_group(ps.last(), v4) is None,
    ensures
        spec_parse_groups(ps, v4) is None,
    decreases ps.len(),
{
    if ps.len() == 1 {
        assert(ps[0] == ps.last());
    } else {
        let rest = ps.drop_first();
        assert(rest.last() == ps.last());
        lemma_parse_groups_fail_last(rest, v4);
    }
}

// ---------------------------------------------------------------------------
// The parser
// ---------------------------------------------------------------------------

/// An IPv4 text, parsed.
fn parse_ipv4_text(s: &str) -> (r: Option<IpAddress>)
    ensures
        match r {
            Some(ip) => spec_parse_ipv4(s@) == Some(ip),
            None => spec_parse_ipv4(s@) is None,
        },
{
    let parts = split_str(s, '.');
    let ghost ps = parts@.map_values(|p: String| p@);
    if parts.len() != 4 {
        return None;
    }
    assert(ps[0] == parts@[0]@ && ps[1] == parts@[1]@ && ps[2] == parts@[2]@ && ps[3]
        == parts@[3]@);
    let a = match parse_octet_u8(parts[0].as_str()) {
        Some(v) => v,
        None => {
            return None;
        },
    };
    let b = match parse_octet_u8(parts[1].as_str()) {
        Some(v) => v,
        None => {
            return None;
        },
    };
    let c = match parse_octet_u8(parts[2].as_str()) {
        Some(v) => v,
        None => {
            return None;
        },
    };
    let d = match parse_octet_u8(parts[3].as_str()) {
        Some(v) => v,
        None => {
            return None;
        },
    };
    Some(IpAddress::V4(a, b, c, d))
}

/// The last part of an IPv6 group list, parsed to its one or two groups.
fn parse_last_group(p: &str, v4_tail: bool) -> (r: Option<Vec<u16>>)
    ensures
        match r {
            Some(v) => spec_parse_last_group(p@, v4_tail) == Some(v@),
            None => spec_parse_last_group(p@, v4_tail) is None,
        },
{
    if v4_tail && str_contains_char(p, '.') {
        match parse_ipv4_text(p) {
            Some(IpAddress::V4(a, b, c, d)) => {
                let mut out: Vec<u16> = Vec::new();
                out.push((a as u16) * 256 + (b as u16));
                out.push((c as u16) * 256 + (d as u16));
                proof {
                    assert(out@ =~= seq![
                        (a as int * 256 + b as int) as u16,
                        (c as int * 256 + d as int) as u16,
                    ]);
                }
                Some(out)
            },
            _ => None,
        }
    } else {
        match parse_hex_group16(p) {
            Some(g) => {
                let mut out: Vec<u16> = Vec::new();
                out.push(g);
                proof {
                    assert(out@ =~= seq![g]);
                }
                Some(out)
            },
            None => None,
        }
    }
}

/// A list of IPv6 group texts, parsed in order.
fn parse_group_list(parts: &Vec<String>, v4_tail: bool) -> (r: Option<Vec<u16>>)
    ensures
        match r {
            Some(v) => spec_parse_groups(parts@.map_values(|p: String| p@), v4_tail) == Some(v@),
            None => spec_parse_groups(parts@.map_values(|p: String| p@), v4_tail) is None,
        },
{
    let ghost ps = parts@.map_values(|p: String| p@);
    let n = parts.len();
    if n == 0 {
        let out: Vec<u16> = Vec::new();
        proof {
            assert(out@ =~= Seq::<u16>::empty());
        }
        return Some(out);
    }
    let mut out: Vec<u16> = Vec::new();
    let mut i: usize = 0;
    while i < n - 1
        invariant
            i <= n - 1,
            n == parts@.len(),
            n >= 1,
            ps == parts@.map_values(|p: String| p@),
            out@.len() == i,
            forall|k: int| 0 <= k < i ==> spec_parse_group(ps[k]) == Some(#[trigger] out@[k]),
        decreases n - 1 - i,
    {
        assert(ps[i as int] == parts@[i as int]@);
        match parse_hex_group16(parts[i].as_str()) {
            Some(g) => {
                out.push(g);
                i = i + 1;
            },
            None => {
                proof {
                    lemma_parse_groups_fail_at(ps, v4_tail, i as int);
                }
                return None;
            },
        }
    }
    assert(ps.last() == parts@[n - 1]@);
    match parse_last_group(parts[n - 1].as_str(), v4_tail) {
        Some(lastv) => {
            let ghost front = out@;
            let ghost lastg = lastv@;
            let mut lastv = lastv;
            let mut j: usize = 0;
            let m = lastv.len();
            // append the last part's groups in order
            while j < m
                invariant
                    j <= m,
                    m == lastg.len(),
                    lastv@ == lastg,
                    out@ =~= front + lastg.take(j as int),
                decreases m - j,
            {
                let g = lastv[j];
                out.push(g);
                proof {
                    assert(out@ =~= front + lastg.take(j as int + 1));
                }
                j = j + 1;
            }
            proof {
                assert(lastg.take(m as int) =~= lastg);
                lemma_parse_groups_build(ps, v4_tail, front, lastg);
            }
            Some(out)
        },
        None => {
            proof {
                lemma_parse_groups_fail_last(ps, v4_tail);
            }
            None
        },
    }
}

/// An IPv6 text between its brackets, parsed.
fn parse_ipv6_text(s: &str) -> (r: Option<IpAddress>)
    ensures
        match r {
            Some(ip) => spec_parse_ipv6(s@) == Some(ip),
            None => spec_parse_ipv6(s@) is None,
        },
{
    let len = s.unicode_len();
    match find_dcolon(s) {
        None => {
            let parts = split_str(s, ':');
            match parse_group_list(&parts, true) {
                Some(gs) => {
                    if gs.len() == 8 {
                        let ip = IpAddress::V6(
                            gs[0], gs[1], gs[2], gs[3], gs[4], gs[5], gs[6], gs[7],
                        );
                        proof {
                            assert(ip == ip_v6_of(gs@));
                        }
                        Some(ip)
                    } else {
                        None
                    }
                },
                None => None,
            }
        },
        Some(i) => {
            proof {
                lemma_find_double_colon(s@);
            }
            let left = s.substring_char(0, i);
            let right = s.substring_char(i + 2, len);
            proof {
                assert(left@ =~= s@.take(i as int));
                assert(right@ =~= s@.skip(i as int + 2));
            }
            let lparts: Vec<String> = if left.unicode_len() == 0 {
                Vec::new()
            } else {
                split_str(left, ':')
            };
            let rparts: Vec<String> = if right.unicode_len() == 0 {
                Vec::new()
            } else {
                split_str(right, ':')
            };
            proof {
                if left@.len() == 0 {
                    assert(Seq::<String>::empty().map_values(|p: String| p@)
                        =~= Seq::<Seq<char>>::empty());
                }
                if right@.len() == 0 {
                    assert(Seq::<String>::empty().map_values(|p: String| p@)
                        =~= Seq::<Seq<char>>::empty());
                }
            }
            let lg = match parse_group_list(&lparts, false) {
                Some(v) => v,
                None => {
                    return None;
                },
            };
            let rg = match parse_group_list(&rparts, true) {
                Some(v) => v,
                None => {
                    return None;
                },
            };
            if lg.len() > 7 || rg.len() > 7 - lg.len() {
                return None;
            }
            let fill = 8 - lg.len() - rg.len();
            let mut gs: Vec<u16> = Vec::new();
            let mut k: usize = 0;
            while k < lg.len()
                invariant
                    k <= lg@.len(),
                    gs@ =~= lg@.take(k as int),
                decreases lg@.len() - k,
            {
                gs.push(lg[k]);
                proof {
                    assert(gs@ =~= lg@.take(k as int + 1));
                }
                k = k + 1;
            }
            proof {
                assert(lg@.take(lg@.len() as int) =~= lg@);
            }
            let mut z: usize = 0;
            while z < fill
                invariant
                    z <= fill,
                    fill == 8 - lg@.len() - rg@.len(),
                    lg@.len() + rg@.len() <= 7,
                    gs@ =~= lg@ + zero_groups(z as nat),
                decreases fill - z,
            {
                gs.push(0u16);
                proof {
                    assert(gs@ =~= lg@ + zero_groups(z as nat + 1));
                }
                z = z + 1;
            }
            let mut k2: usize = 0;
            while k2 < rg.len()
                invariant
                    k2 <= rg@.len(),
                    fill == 8 - lg@.len() - rg@.len(),
                    lg@.len() + rg@.len() <= 7,
                    gs@ =~= lg@ + zero_groups(fill as nat) + rg@.take(k2 as int),
                decreases rg@.len() - k2,
            {
                gs.push(rg[k2]);
                proof {
                    assert(gs@ =~= lg@ + zero_groups(fill as nat) + rg@.take(k2 as int + 1));
                }
                k2 = k2 + 1;
            }
            proof {
                assert(rg@.take(rg@.len() as int) =~= rg@);
                assert(gs@ =~= lg@ + zero_groups(fill as nat) + rg@);
                assert(gs@.len() == 8);
            }
            let ip = IpAddress::V6(gs[0], gs[1], gs[2], gs[3], gs[4], gs[5], gs[6], gs[7]);
            proof {
                assert(ip == ip_v6_of(gs@));
            }
            Some(ip)
        },
    }
}

/// The body after `tcp://`, parsed.
fn parse_tcp_body_text(b: &str) -> (r: Option<(IpAddress, u16)>)
    ensures
        match r {
            Some(v) => spec_parse_tcp_body(b@) == Some(v),
            None => spec_parse_tcp_body(b@) is None,
        },
{
    let len = b.unicode_len();
    let i = match rfind_colon(b) {
        Some(i) => i,
        None => {
            return None;
        },
    };
    proof {
        lemma_rfind_char(b@, ':');
    }
    let ipt = b.substring_char(0, i);
    let portt = b.substring_char(i + 1, len);
    proof {
        assert(ipt@ =~= b@.take(i as int));
        assert(portt@ =~= b@.skip(i as int + 1));
    }
    let port = match parse_port_u16(portt) {
        Some(p) => p,
        None => {
            return None;
        },
    };
    let iplen = ipt.unicode_len();
    let bracketed = iplen >= 2 && ipt.get_char(0) == '[' && ipt.get_char(iplen - 1) == ']';
    proof {
        if iplen >= 1 {
            assert(ipt@.last() == ipt@[iplen - 1]);
        }
    }
    let ip = if bracketed {
        let inner = ipt.substring_char(1, iplen - 1);
        proof {
            assert(inner@ =~= ipt@.subrange(1, ipt@.len() - 1));
        }
        parse_ipv6_text(inner)
    } else {
        parse_ipv4_text(ipt)
    };
    match ip {
        Some(ip) => Some((ip, port)),
        None => None,
    }
}

/// Whether `s` starts with the scheme prefix of the TCP transport.
fn starts_with_tcp(s: &str) -> (r: bool)
    ensures
        r == (s@.len() >= 6 && s@.take(6) == tcp_scheme()),
{
    let len = s.unicode_len();
    if len < 6 {
        return false;
    }
    let r = s.get_char(0) == 't' && s.get_char(1) == 'c' && s.get_char(2) == 'p' && s.get_char(3)
        == ':' && s.get_char(4) == '/' && s.get_char(5) == '/';
    proof {
        if r {
            assert(s@.take(6) =~= tcp_scheme());
        } else {
            assert(s@.take(6) != tcp_scheme()) by {
                if s@.take(6) == tcp_scheme() {
                    assert(s@[0] == s@.take(6)[0] && s@[1] == s@.take(6)[1] && s@[2] == s@.take(
                        6,
                    )[2] && s@[3] == s@.take(6)[3] && s@[4] == s@.take(6)[4] && s@[5] == s@.take(
                        6,
                    )[5]);
                }
            }
        }
    }
    r
}

/// Whether `s` starts with the scheme prefix of the UNIX-domain
/// transport.
fn starts_with_unix(s: &str) -> (r: bool)
    ensures
        r == (s@.len() >= 7 && s@.take(7) == unix_scheme()),
{
    let len = s.unicode_len();
    if len < 7 {
        return false;
    }
    let r = s.get_char(0) == 'u' && s.get_char(1) == 'n' && s.get_char(2) == 'i' && s.get_char(3)
        == 'x' && s.get_char(4) == ':' && s.get_char(5) == '/' && s.get_char(6) == '/';
    proof {
        if r {
            assert(s@.take(7) =~= unix_scheme());
        } else {
            assert(s@.take(7) != unix_scheme()) by {
                if s@.take(7) == unix_scheme() {
                    assert(s@[0] == s@.take(7)[0] && s@[1] == s@.take(7)[1] && s@[2] == s@.take(
                        7,
                    )[2] && s@[3] == s@.take(7)[3] && s@[4] == s@.take(7)[4] && s@[5] == s@.take(
                        7,
                    )[5] && s@[6] == s@.take(7)[6]);
                }
            }
        }
    }
    r
}

/// An address text, parsed according to the grammar: `tcp://ip:port`,
/// `unix://path`, or `unix://@name` where the platform supports abstract
/// names.
pub fn parse_addr(s: &str, abstract_names: bool) -> (r: Result<SocketAddr, ParseError>)
    ensures
        match r {
            Ok(a) => spec_parse(abstract_names, s@) == Ok::<SocketAddrSpec, ParseError>(a@),
            Err(e) => spec_parse(abstract_names, s@) == Err::<SocketAddrSpec, ParseError>(e),
        },
{
    let len = s.unicode_len();
    if starts_with_tcp(s) {
        let body = s.substring_char(6, len);
        proof {
            assert(body@ =~= s@.skip(6));
        }
        match parse_tcp_body_text(body) {
            Some((ip, port)) => Ok(SocketAddr::Tcp(ip, port)),
            None => Err(ParseError::InvalidTcpAddress),
        }
    } else if starts_with_unix(s) {
        let body = s.substring_char(7, len);
        proof {
            assert(body@ =~= s@.skip(7));
        }
        let blen = body.unicode_len();
        if blen >= 1 && body.get_char(0) == '@' {
            if abstract_names {
                let name = body.substring_char(1, blen);
                proof {
                    assert(name@ =~= body@.skip(1));
                }
                Ok(SocketAddr::Unix(UnixAddr::Abstract(String::from_str(name))))
            } else {
                Err(ParseError::AbstractNamesUnsupported)
            }
        } else if str_contains_char(body, '\u{0}') {
            Err(ParseError::InvalidUnixPath)
        } else if blen == 0 {
            Ok(SocketAddr::Unix(UnixAddr::Unnamed))
        } else {
            Ok(SocketAddr::Unix(UnixAddr::Pathname(String::from_str(body))))
        }
    } else {
        Err(ParseError::InvalidScheme)
    }
}

// ---------------------------------------------------------------------------
// Round-trip laws
// ---------------------------------------------------------------------------

/// Parts joined by a separator: the inverse shape of `split_on`.
pub open spec fn join_with(parts: Seq<Seq<char>>, sep: char) -> Seq<char>
    decreases parts.len(),
{
    if parts.len() == 0 {
        Seq::empty()
    } else if parts.len() == 1 {
        parts[0]
    } else {
        parts[0] + seq![sep] + join_with(parts.drop_first(), sep)
    }
}

/// Splitting a join of separator-free parts yields the parts again.
pub proof fn lemma_split_join(parts: Seq<Seq<char>>, sep: char)
    requires
        parts.len() >= 1,
        forall|k: int, j: int| 0 <= k < parts.len() && 0 <= j < parts[k].len() ==> #[trigger] parts[k][j] != sep,
    ensures
        split_on(join_with(parts, sep), sep) == parts,
    decreases parts.len(),
{
    if parts.len() == 1 {
        assert(forall|j: int| 0 <= j < parts[0].len() ==> parts[0][j] != sep);
        lemma_split_on_single(parts[0], sep);
        assert(seq![parts[0]] =~= parts);
    } else {
        let rest = parts.drop_first();
        assert(forall|k: int, j: int|
            0 <= k < rest.len() && 0 <= j < rest[k].len() ==> #[trigger] rest[k][j] == parts[k
                + 1][j]);
        lemma_split_join(rest, sep);
        assert(forall|j: int| 0 <= j < parts[0].len() ==> parts[0][j] != sep);
        lemma_split_on_concat(parts[0], join_with(rest, sep), sep);
        assert(seq![parts[0]] + rest =~= parts);
    }
}

/// A join of nonempty colon-free parts holds no adjacent pair of colons,
/// and starts with something else.
pub proof fn lemma_join_colon_no_dcolon(parts: Seq<Seq<char>>)
    requires
        parts.len() >= 1,
        forall|k: int| 0 <= k < parts.len() ==> #[trigger] parts[k].len() > 0,
        forall|k: int, j: int| 0 <= k < parts.len() && 0 <= j < parts[k].len() ==> #[trigger] parts[k][j] != ':',
    ensures
        find_double_colon(join_with(parts, ':')) is None,
        join_with(parts, ':')[0] != ':',
        join_with(parts, ':').len() > 0,
    decreases parts.len(),
{
    let s = join_with(parts, ':');
    if parts.len() == 1 {
        assert(forall|j: int| 0 <= j < s.len() ==> s[j] != ':');
        lemma_find_double_colon(s);
        if let Some(i) = find_double_colon(s) {
            assert(s[i] != ':');
        }
    } else {
        let h = parts[0];
        let rest = parts.drop_first();
        assert(forall|k: int| 0 <= k < rest.len() ==> #[trigger] rest[k].len() > 0);
        assert(forall|k: int, j: int|
            0 <= k < rest.len() && 0 <= j < rest[k].len() ==> #[trigger] rest[k][j] == parts[k
                + 1][j]);
        lemma_join_colon_no_dcolon(rest);
        let tail = join_with(rest, ':');
        assert(s == h + seq![':'] + tail);
        assert(s[0] == h[0]);
        lemma_find_double_colon(tail);
        assert forall|j: int| 0 <= j < s.len() - 1 implies !(#[trigger] s[j] == ':' && s[j + 1]
            == ':') by {
            if j < h.len() {
                if j < h.len() - 1 {
                    assert(s[j] == h[j]);
                } else {
                    // s[j] is the last character of the head part
                    assert(s[j] == h[j]);
                }
            } else if j == h.len() {
                assert(s[j + 1] == tail[0]);
            } else {
                assert(s[j] == tail[j - h.len() - 1]);
                assert(s[j + 1] == tail[j - h.len()]);
            }
        }
        lemma_find_double_colon(s);
        if let Some(i) = find_double_colon(s) {
            assert(!(s[i] == ':' && s[i + 1] == ':'));
        }
    }
}

/// The addresses whose formatted text parses back to them: every TCP
/// address, every path address whose path does not collide with the
/// abstract-name convention, and — on a platform with the namespace —
/// every abstract name. The unnamed address deliberately never round
/// trips.
pub open spec fn round_trippable(v: SocketAddrSpec, abstract_names: bool) -> bool {
    match v {
        SocketAddrSpec::Tcp(ip, port) => true,
        SocketAddrSpec::Unix(UnixAddrSpec::Pathname(p)) => p.len() > 0 && !p.contains('\u{0}')
            && p[0] != '@',
        SocketAddrSpec::Unix(UnixAddrSpec::Abstract(n)) => abstract_names,
        SocketAddrSpec::Unix(UnixAddrSpec::Unnamed) => false,
    }
}

/// The formatted text of an IPv4 address is unbracketed and parses back
/// to it.
proof fn lemma_format_ipv4_parses(ip: IpAddress)
    requires
        ip is V4,
    ensures
        spec_format_ip(ip).len() >= 1,
        !(spec_format_ip(ip).len() >= 2 && spec_format_ip(ip)[0] == '[' && spec_format_ip(
            ip,
        ).last() == ']'),
        spec_parse_ipv4(spec_format_ip(ip)) == Some(ip),
{
    let ipt = spec_format_ip(ip);
    if let IpAddress::V4(oa, ob, oc, od) = ip {
        let da = dec_digits(oa as nat);
        let db = dec_digits(ob as nat);
        let dc = dec_digits(oc as nat);
        let dd = dec_digits(od as nat);
        lemma_dec_digits(oa as nat);
        lemma_dec_digits(ob as nat);
        lemma_dec_digits(oc as nat);
        lemma_dec_digits(od as nat);
        let parts = seq![da, db, dc, dd];
        reveal_with_fuel(join_with, 5);
        assert(parts.drop_first() =~= seq![db, dc, dd]);
        assert(seq![db, dc, dd].drop_first() =~= seq![dc, dd]);
        assert(seq![dc, dd].drop_first() =~= seq![dd]);
        let joined = join_with(parts, '.');
        assert(joined == da + seq!['.'] + join_with(seq![db, dc, dd], '.'));
        assert(ipt =~= joined);
        assert(ipt[0] == da[0]);
        assert(is_dec(ipt[0]));
        assert(ipt[0] != '[');
        assert(forall|k: int, j: int|
            0 <= k < parts.len() && 0 <= j < parts[k].len() ==> #[trigger] parts[k][j] != '.') by {
            assert(forall|j: int| 0 <= j < da.len() ==> is_dec(#[trigger] da[j]));
            assert(forall|j: int| 0 <= j < db.len() ==> is_dec(#[trigger] db[j]));
            assert(forall|j: int| 0 <= j < dc.len() ==> is_dec(#[trigger] dc[j]));
            assert(forall|j: int| 0 <= j < dd.len() ==> is_dec(#[trigger] dd[j]));
        }
        lemma_split_join(parts, '.');
        assert(split_on(ipt, '.') == parts);
        assert(spec_parse_octet(da) == Some(oa));
        assert(spec_parse_octet(db) == Some(ob));
        assert(spec_parse_octet(dc) == Some(oc));
        assert(spec_parse_octet(dd) == Some(od));
    }
}

/// The group texts of a formatted IPv6 address.
pub open spec fn v6_parts(ip: IpAddress) -> Seq<Seq<char>> {
    match ip {
        IpAddress::V6(g0, g1, g2, g3, g4, g5, g6, g7) => seq![
            hex_digits(g0 as nat),
            hex_digits(g1 as nat),
            hex_digits(g2 as nat),
            hex_digits(g3 as nat),
            hex_digits(g4 as nat),
            hex_digits(g5 as nat),
            hex_digits(g6 as nat),
            hex_digits(g7 as nat),
        ],
        _ => Seq::empty(),
    }
}

/// Every group text of a formatted IPv6 address is a nonempty
/// dot-free hexadecimal group.
proof fn lemma_v6_parts_wf(ip: IpAddress)
    requires
        ip is V6,
    ensures
        v6_parts(ip).len() == 8,
        forall|k: int| 0 <= k < 8 ==> #[trigger] v6_parts(ip)[k].len() > 0,
        forall|k: int, j: int|
            0 <= k < 8 && 0 <= j < v6_parts(ip)[k].len() ==> is_hex(#[trigger] v6_parts(ip)[k][j]),
        forall|k: int, j: int|
            0 <= k < 8 && 0 <= j < v6_parts(ip)[k].len() ==> #[trigger] v6_parts(ip)[k][j] != ':'
                && v6_parts(ip)[k][j] != '.',
{
    if let IpAddress::V6(g0, g1, g2, g3, g4, g5, g6, g7) = ip {
        lemma_hex_digits(g0 as nat);
        lemma_hex_digits(g1 as nat);
        lemma_hex_digits(g2 as nat);
        lemma_hex_digits(g3 as nat);
        lemma_hex_digits(g4 as nat);
        lemma_hex_digits(g5 as nat);
        lemma_hex_digits(g6 as nat);
        lemma_hex_digits(g7 as nat);
        let parts = v6_parts(ip);
        assert forall|k: int, j: int|
            0 <= k < 8 && 0 <= j < parts[k].len() implies is_hex(#[trigger] parts[k][j]) by {
            if k == 0 {
                assert(all_hex(hex_digits(g0 as nat)));
            } else if k == 1 {
                assert(all_hex(hex_digits(g1 as nat)));
            } else if k == 2 {
                assert(all_hex(hex_digits(g2 as nat)));
            } else if k == 3 {
                assert(all_hex(hex_digits(g3 as nat)));
            } else if k == 4 {
                assert(all_hex(hex_digits(g4 as nat)));
            } else if k == 5 {
                assert(all_hex(hex_digits(g5 as nat)));
            } else if k == 6 {
                assert(all_hex(hex_digits(g6 as nat)));
            } else {
                assert(all_hex(hex_digits(g7 as nat)));
            }
        }
    }
}

/// A join of eight parts, written out flat.
#[verifier::rlimit(100)]
#[verifier::spinoff_prover]
proof fn lemma_join_eight(
    h0: Seq<char>,
    h1: Seq<char>,
    h2: Seq<char>,
    h3: Seq<char>,
    h4: Seq<char>,
    h5: Seq<char>,
    h6: Seq<char>,
    h7: Seq<char>,
)
    ensures
        join_with(seq![h0, h1, h2, h3, h4, h5, h6, h7], ':') == h0 + seq![':'] + h1 + seq![':']
            + h2 + seq![':'] + h3 + seq![':'] + h4 + seq![':'] + h5 + seq![':'] + h6 + seq![':']
            + h7,
{
    let p7 = seq![h7];
    let p6 = seq![h6, h7];
    let p5 = seq![h5, h6, h7];
    let p4 = seq![h4, h5, h6, h7];
    let p3 = seq![h3, h4, h5, h6, h7];
    let p2 = seq![h2, h3, h4, h5, h6, h7];
    let p1 = seq![h1, h2, h3, h4, h5, h6, h7];
    let p0 = seq![h0, h1, h2, h3, h4, h5, h6, h7];
    assert(join_with(p7, ':') == h7);
    assert(p6.drop_first() =~= p7);
    assert(join_with(p6, ':') == h6 + seq![':'] + h7);
    assert(p5.drop_first() =~= p6);
    assert(join_with(p5, ':') == h5 + seq![':'] + join_with(p6, ':'));
    assert(h5 + seq![':'] + (h6 + seq![':'] + h7) =~= h5 + seq![':'] + h6 + seq![':'] + h7);
    assert(p4.drop_first() =~= p5);
    assert(join_with(p4, ':') == h4 + seq![':'] + join_with(p5, ':'));
    assert(h4 + seq![':'] + (h5 + seq![':'] + h6 + seq![':'] + h7) =~= h4 + seq![':'] + h5
        + seq![':'] + h6 + seq![':'] + h7);
    assert(p3.drop_first() =~= p4);
    assert(join_with(p3, ':') == h3 + seq![':'] + join_with(p4, ':'));
    assert(h3 + seq![':'] + (h4 + seq![':'] + h5 + seq![':'] + h6 + seq![':'] + h7) =~= h3
        + seq![':'] + h4 + seq![':'] + h5 + seq![':'] + h6 + seq![':'] + h7);
    assert(p2.drop_first() =~= p3);
    assert(join_with(p2, ':') == h2 + seq![':'] + join_with(p3, ':'));
    assert(h2 + seq![':'] + (h3 + seq![':'] + h4 + seq![':'] + h5 + seq![':'] + h6 + seq![':']
        + h7) =~= h2 + seq![':'] + h3 + seq![':'] + h4 + seq![':'] + h5 + seq![':'] + h6
        + seq![':'] + h7);
    assert(p1.drop_first() =~= p2);
    assert(join_with(p1, ':') == h1 + seq![':'] + join_with(p2, ':'));
    assert(h1 + seq![':'] + (h2 + seq![':'] + h3 + seq![':'] + h4 + seq![':'] + h5 + seq![':']
        + h6 + seq![':'] + h7) =~= h1 + seq![':'] + h2 + seq![':'] + h3 + seq![':'] + h4
        + seq![':'] + h5 + seq![':'] + h6 + seq![':'] + h7);
    assert(p0.drop_first() =~= p1);
    assert(join_with(p0, ':') == h0 + seq![':'] + join_with(p1, ':'));
    assert(h0 + seq![':'] + (h1 + seq![':'] + h2 + seq![':'] + h3 + seq![':'] + h4 + seq![':']
        + h5 + seq![':'] + h6 + seq![':'] + h7) =~= h0 + seq![':'] + h1 + seq![':'] + h2
        + seq![':'] + h3 + seq![':'] + h4 + seq![':'] + h5 + seq![':'] + h6 + seq![':'] + h7);
}

/// The formatted text of an IPv6 address is its eight group texts joined
/// by single colons, between brackets.
proof fn lemma_v6_shape(ip: IpAddress)
    requires
        ip is V6,
    ensures
        spec_format_ip(ip).len() >= 2,
        spec_format_ip(ip)[0] == '[',
        spec_format_ip(ip).last() == ']',
        spec_format_ip(ip).subrange(1, spec_format_ip(ip).len() - 1) == join_with(
            v6_parts(ip),
            ':',
        ),
{
    if let IpAddress::V6(g0, g1, g2, g3, g4, g5, g6, g7) = ip {
        let ipt = spec_format_ip(ip);
        let h0 = hex_digits(g0 as nat);
        let h1 = hex_digits(g1 as nat);
        let h2 = hex_digits(g2 as nat);
        let h3 = hex_digits(g3 as nat);
        let h4 = hex_digits(g4 as nat);
        let h5 = hex_digits(g5 as nat);
        let h6 = hex_digits(g6 as nat);
        let h7 = hex_digits(g7 as nat);
        lemma_join_eight(h0, h1, h2, h3, h4, h5, h6, h7);
        let inner = join_with(v6_parts(ip), ':');
        assert(v6_parts(ip) =~= seq![h0, h1, h2, h3, h4, h5, h6, h7]);
        assert(ipt =~= seq!['['] + inner + seq![']']);
        assert(ipt[0] == '[');
        assert(ipt.last() == ']');
        assert(ipt.subrange(1, ipt.len() - 1) =~= inner);
    }
}

/// The eight group texts of a formatted IPv6 address parse back to its
/// groups.
proof fn lemma_v6_groups(ip: IpAddress)
    requires
        ip is V6,
    ensures
        ip matches IpAddress::V6(g0, g1, g2, g3, g4, g5, g6, g7) ==> spec_parse_groups(
            v6_parts(ip),
            true,
        ) == Some(seq![g0, g1, g2, g3, g4, g5, g6, g7]),
{
    if let IpAddress::V6(g0, g1, g2, g3, g4, g5, g6, g7) = ip {
        let h7 = hex_digits(g7 as nat);
        lemma_hex_digits(g0 as nat);
        lemma_hex_digits(g1 as nat);
        lemma_hex_digits(g2 as nat);
        lemma_hex_digits(g3 as nat);
        lemma_hex_digits(g4 as nat);
        lemma_hex_digits(g5 as nat);
        lemma_hex_digits(g6 as nat);
        lemma_hex_digits(g7 as nat);
        let parts = v6_parts(ip);
        let front = seq![g0, g1, g2, g3, g4, g5, g6];
        assert(spec_parse_group(parts[0]) == Some(g0));
        assert(spec_parse_group(parts[1]) == Some(g1));
        assert(spec_parse_group(parts[2]) == Some(g2));
        assert(spec_parse_group(parts[3]) == Some(g3));
        assert(spec_parse_group(parts[4]) == Some(g4));
        assert(spec_parse_group(parts[5]) == Some(g5));
        assert(spec_parse_group(parts[6]) == Some(g6));
        assert(!h7.contains('.')) by {
            assert(forall|j: int| 0 <= j < h7.len() ==> is_hex(#[trigger] h7[j]));
            if h7.contains('.') {
                let j = choose|j: int| 0 <= j < h7.len() && h7[j] == '.';
                assert(is_hex(h7[j]));
            }
        }
        assert(parts.last() == h7);
        assert(spec_parse_last_group(h7, true) == Some(seq![g7]));
        assert(forall|k: int| 0 <= k < parts.len() - 1 ==> spec_parse_group(parts[k]) == Some(
            #[trigger] front[k],
        ));
        lemma_parse_groups_build(parts, true, front, seq![g7]);
        assert(front + seq![g7] =~= seq![g0, g1, g2, g3, g4, g5, g6, g7]);
    }
}

/// The formatted text of an IPv6 address is bracketed and its inside
/// parses back to it.
proof fn lemma_format_ipv6_parses(ip: IpAddress)
    requires
        ip is V6,
    ensures
        spec_format_ip(ip).len() >= 2,
        spec_format_ip(ip)[0] == '[',
        spec_format_ip(ip).last() == ']',
        spec_parse_ipv6(spec_format_ip(ip).subrange(1, spec_format_ip(ip).len() - 1)) == Some(ip),
{
    if let IpAddress::V6(g0, g1, g2, g3, g4, g5, g6, g7) = ip {
        let ipt = spec_format_ip(ip);
        let parts = v6_parts(ip);
        lemma_v6_parts_wf(ip);
        lemma_v6_shape(ip);
        let inner = ipt.subrange(1, ipt.len() - 1);
        lemma_join_colon_no_dcolon(parts);
        lemma_split_join(parts, ':');
        assert(find_double_colon(inner) is None);
        assert(split_on(inner, ':') == parts);
        lemma_v6_groups(ip);
        let gs = seq![g0, g1, g2, g3, g4, g5, g6, g7];
        assert(spec_parse_groups(split_on(inner, ':'), true) == Some(gs));
        assert(gs.len() == 8);
        assert(ip_v6_of(gs) == ip);
        assert(spec_parse_ipv6(inner) == Some(ip));
    }
}

/// Round trip: every constructible named address parses back from its
/// formatted text to exactly itself.
#[verifier::rlimit(100)]
pub proof fn lemma_round_trip(v: SocketAddrSpec, abstract_names: bool)
    requires
        round_trippable(v, abstract_names),
    ensures
        spec_parse(abstract_names, spec_format(v)) == Ok::<SocketAddrSpec, ParseError>(v),
{
    let s = spec_format(v);
    match v {
        SocketAddrSpec::Tcp(ip, port) => {
            let ipt = spec_format_ip(ip);
            let portd = dec_digits(port as nat);
            lemma_dec_digits(port as nat);
            match ip {
                IpAddress::V4(oa, ob, oc, od) => {
                    lemma_format_ipv4_parses(ip);
                },
                IpAddress::V6(g0, g1, g2, g3, g4, g5, g6, g7) => {
                    lemma_format_ipv6_parses(ip);
                },
            }
            assert(ipt.len() >= 1);
            assert(s == tcp_scheme() + ipt + seq![':'] + portd);
            assert(s.take(6) =~= tcp_scheme());
            let b = s.skip(6);
            assert(b =~= ipt + seq![':'] + portd);
            assert(forall|j: int| 0 <= j < portd.len() ==> portd[j] != ':') by {
                assert(forall|j: int| 0 <= j < portd.len() ==> is_dec(#[trigger] portd[j]));
            }
            lemma_rfind_concat(ipt, portd, ':');
            assert(rfind_char(b, ':') == Some(ipt.len() as int));
            assert(b.take(ipt.len() as int) =~= ipt);
            assert(b.skip(ipt.len() as int + 1) =~= portd);
            assert(spec_parse_port(portd) == Some(port));
            assert(spec_parse_tcp_body(b) == Some((ip, port)));
        },
        SocketAddrSpec::Unix(UnixAddrSpec::Pathname(p)) => {
            assert(s == unix_scheme() + p);
            assert(s.len() >= 8);
            assert(s.take(6) != tcp_scheme()) by {
                assert(s.take(6)[0] == 'u');
                assert(tcp_scheme()[0] == 't');
            }
            assert(s.take(7) =~= unix_scheme());
            let b = s.skip(7);
            assert(b =~= p);
            assert(b == p);
            assert(b[0] != '@');
            assert(spec_parse_unix_body(abstract_names, b) == Ok::<UnixAddrSpec, ParseError>(
                UnixAddrSpec::Pathname(p),
            ));
        },
        SocketAddrSpec::Unix(UnixAddrSpec::Abstract(n)) => {
            assert(s == unix_scheme() + seq!['@'] + n);
            assert(s.take(6) != tcp_scheme()) by {
                assert(s.take(6)[0] == 'u');
                assert(tcp_scheme()[0] == 't');
            }
            assert(s.take(7) =~= unix_scheme());
            let b = s.skip(7);
            assert(b =~= seq!['@'] + n);
            assert(b[0] == '@');
            assert(b.skip(1) =~= n);
            assert(spec_parse_unix_body(abstract_names, b) == Ok::<UnixAddrSpec, ParseError>(
                UnixAddrSpec::Abstract(n),
            ));
        },
        SocketAddrSpec::Unix(UnixAddrSpec::Unnamed) => {
            assert(false);
        },
    }
}

/// Non-round-trip: the placeholder text of the unnamed address always
/// fails to parse, with an invalid-scheme error.
pub proof fn lemma_unnamed_not_parseable(abstract_names: bool)
    ensures
        spec_parse(abstract_names, spec_format(SocketAddrSpec::Unix(UnixAddrSpec::Unnamed)))
            == Err::<SocketAddrSpec, ParseError>(ParseError::InvalidScheme),
{
    let s = unnamed_text();
    assert(s.take(6) != tcp_scheme()) by {
        assert(s.take(6)[0] == '(');
        assert(tcp_scheme()[0] == 't');
    }
    assert(s.take(7) != unix_scheme()) by {
        assert(s.take(7)[0] == '(');
        assert(unix_scheme()[0] == 'u');
    }
}

} // verus!
