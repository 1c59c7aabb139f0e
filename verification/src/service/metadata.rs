//! Incoming HTTP headers to outgoing gRPC metadata, as `runtime.AnnotateContext`
//! builds it with the default incoming header matcher.
//!
//! grpc-gateway checks the `Grpc-Timeout` header before anything else, and a
//! malformed one aborts the whole call; only after that does it walk the other
//! headers, where a malformed `-bin` value also aborts, but an invalid metadata
//! key or a non-ASCII text value is silently dropped.
use vstd::prelude::*;
use vstd::string::StringSliceAdditionalSpecFns;
use crate::bytes::{bytes_eq, copy_bytes, copy_range, is_digit, push_all, starts_with};
use crate::error::pairs_view;
use crate::request::strconv::{b64_value, packed, Alphabet};

verus! {

/// Why `AnnotateContext` refuses the request outright.
#[derive(Debug, Clone, PartialEq, Eq)]
pub enum MetadataError {
    /// A `<name>-bin` header whose value is not valid base64.
    InvalidBinaryHeader { header: Vec<u8> },
    /// A `Grpc-Timeout` header that does not parse.
    InvalidTimeout { value: Vec<u8> },
}

/// What reaches the RPC: the metadata pairs, and the deadline a
/// `Grpc-Timeout` header asked for, in nanoseconds.
#[derive(Debug, Clone, PartialEq, Eq)]
pub struct Incoming {
    pub pairs: Vec<(Vec<u8>, Vec<u8>)>,
    pub timeout: Option<u64>,
}

/// `isPermanentHTTPHeader`, lower-cased.
pub open spec fn is_permanent(name: Seq<u8>) -> bool {
    name == "accept".spec_bytes() || name == "accept-charset".spec_bytes() || name == "accept-language".spec_bytes()
        || name == "accept-ranges".spec_bytes() || name == "authorization".spec_bytes() || name
        == "cache-control".spec_bytes() || name == "content-type".spec_bytes() || name == "cookie".spec_bytes() || name
        == "date".spec_bytes() || name == "expect".spec_bytes() || name == "from".spec_bytes() || name
        == "host".spec_bytes() || name == "if-match".spec_bytes() || name == "if-modified-since".spec_bytes() || name
        == "if-none-match".spec_bytes() || name == "if-schedule-tag-match".spec_bytes() || name
        == "if-unmodified-since".spec_bytes() || name == "max-forwards".spec_bytes() || name == "origin".spec_bytes()
        || name == "pragma".spec_bytes() || name == "referer".spec_bytes() || name == "user-agent".spec_bytes() || name
        == "via".spec_bytes() || name == "warning".spec_bytes()
}

fn permanent(name: &[u8]) -> (r: bool)
    ensures
        r == is_permanent(name@),
{
    bytes_eq(name, "accept".as_bytes()) || bytes_eq(name, "accept-charset".as_bytes()) || bytes_eq(
        name,
        "accept-language".as_bytes(),
    ) || bytes_eq(name, "accept-ranges".as_bytes()) || bytes_eq(name, "authorization".as_bytes()) || bytes_eq(
        name,
        "cache-control".as_bytes(),
    ) || bytes_eq(name, "content-type".as_bytes()) || bytes_eq(name, "cookie".as_bytes()) || bytes_eq(
        name,
        "date".as_bytes(),
    ) || bytes_eq(name, "expect".as_bytes()) || bytes_eq(name, "from".as_bytes()) || bytes_eq(name, "host".as_bytes())
        || bytes_eq(name, "if-match".as_bytes()) || bytes_eq(name, "if-modified-since".as_bytes()) || bytes_eq(
        name,
        "if-none-match".as_bytes(),
    ) || bytes_eq(name, "if-schedule-tag-match".as_bytes()) || bytes_eq(name, "if-unmodified-since".as_bytes())
        || bytes_eq(name, "max-forwards".as_bytes()) || bytes_eq(name, "origin".as_bytes()) || bytes_eq(
        name,
        "pragma".as_bytes(),
    ) || bytes_eq(name, "referer".as_bytes()) || bytes_eq(name, "user-agent".as_bytes()) || bytes_eq(
        name,
        "via".as_bytes(),
    ) || bytes_eq(name, "warning".as_bytes())
}

/// `DefaultHeaderMatcher`: the metadata key a header name becomes, or `None`
/// when it forwards to nothing.
pub open spec fn spec_matched_key(name: Seq<u8>) -> Option<Seq<u8>> {
    if is_permanent(name) {
        Some("grpcgateway-".spec_bytes() + name)
    } else if starts_with(name, "grpc-metadata-".spec_bytes()) {
        Some(name.subrange("grpc-metadata-".spec_bytes().len() as int, name.len() as int))
    } else {
        None
    }
}

/// `DefaultHeaderMatcher`.
pub fn matched_key(name: &[u8]) -> (r: Option<Vec<u8>>)
    ensures
        match r {
            Some(k) => spec_matched_key(name@) == Some(k@),
            None => spec_matched_key(name@) is None,
        },
{
    if permanent(name) {
        let mut k = copy_bytes("grpcgateway-".as_bytes());
        push_all(&mut k, name);
        return Some(k);
    }
    let prefix = "grpc-metadata-".as_bytes();
    if crate::bytes::has_prefix(name, prefix) {
        return Some(copy_range(name, prefix.len(), name.len()));
    }
    None
}

/// `isValidGRPCMetadataTextValue`: printable ASCII, byte for byte.
pub open spec fn valid_text(v: Seq<u8>) -> bool {
    forall|i: int| 0 <= i < v.len() ==> 0x20 <= #[trigger] v[i] <= 0x7e
}

/// `isValidGRPCMetadataTextValue`.
pub fn is_valid_text_value(v: &[u8]) -> (r: bool)
    ensures
        r == valid_text(v@),
{
    let mut i: usize = 0;
    while i < v.len()
        invariant
            i <= v@.len(),
            forall|j: int| 0 <= j < i ==> 0x20 <= #[trigger] v@[j] <= 0x7e,
        decreases v@.len() - i,
    {
        if !(0x20 <= v[i] && v[i] <= 0x7e) {
            return false;
        }
        i = i + 1;
    }
    true
}

/// What `http`'s `HeaderValue::to_str` accepts: visible ASCII and tabs.
pub open spec fn visible_ascii(v: Seq<u8>) -> bool {
    forall|i: int| 0 <= i < v.len() ==> ((32 <= #[trigger] v[i] && v[i] < 127) || v[i] == 9)
}

fn is_visible_ascii(v: &[u8]) -> (r: bool)
    ensures
        r == visible_ascii(v@),
{
    let mut i: usize = 0;
    while i < v.len()
        invariant
            i <= v@.len(),
            forall|j: int| 0 <= j < i ==> ((32 <= #[trigger] v@[j] && v@[j] < 127) || v@[j] == 9),
        decreases v@.len() - i,
    {
        if !((32 <= v[i] && v[i] < 127) || v[i] == 9) {
            return false;
        }
        i = i + 1;
    }
    true
}

/// The length of the group of four or fewer that starts `d`.
pub open spec fn group_len(d: Seq<u8>) -> int {
    if d.len() < 4 {
        d.len() as int
    } else {
        4
    }
}

/// Standard-alphabet base64 of `d` in groups of four, the last one possibly
/// short; `None` if a byte is not in the alphabet.
pub open spec fn std_groups(d: Seq<u8>) -> Option<Seq<u8>>
    decreases d.len(),
{
    if d.len() == 0 {
        Some(Seq::empty())
    } else {
        let n = group_len(d);
        let c = d.subrange(0, n);
        if exists|i: int| 0 <= i < n && b64_value(Alphabet::Std, #[trigger] c[i]) < 0 {
            None
        } else {
            match std_groups(d.subrange(n, d.len() as int)) {
                Some(rest) => Some(packed(c.map_values(|x: u8| b64_value(Alphabet::Std, x) as u8), n - 1) + rest),
                None => None,
            }
        }
    }
}

/// The data part of a `-bin` value: padding stripped when the length is a
/// multiple of four; `None` where padding stands anywhere else.
pub open spec fn bin_data(s: Seq<u8>) -> Option<Seq<u8>> {
    if s.len() % 4 == 0 {
        let p1: int = if s.len() >= 1 && s[s.len() - 1] == 61 { 1 } else { 0 };
        let p2: int = if p1 == 1 && s.len() >= 2 && s[s.len() - 2] == 61 { 2 } else { p1 };
        Some(s.subrange(0, s.len() - p2))
    } else if s.contains(61) {
        None
    } else {
        Some(s)
    }
}

/// `decodeBinHeader`: standard base64, padded when the length is a multiple
/// of four, unpadded otherwise.
pub open spec fn spec_decode_bin(s: Seq<u8>) -> Option<Seq<u8>> {
    match bin_data(s) {
        None => None,
        Some(d) => if d.contains(61) || d.len() % 4 == 1 {
            None
        } else {
            std_groups(d)
        },
    }
}

proof fn lemma_groups_refuse(d: Seq<u8>, t: int)
    requires
        d.len() > 0,
        0 <= t < (if d.len() < 4 { d.len() as int } else { 4int }),
        b64_value(Alphabet::Std, d[t]) < 0,
    ensures
        std_groups(d) is None,
{
    let n = group_len(d);
    let c = d.subrange(0, n);
    assert(c[t] == d[t]);
    assert(exists|i: int| 0 <= i < n && b64_value(Alphabet::Std, #[trigger] c[i]) < 0);
}

/// `decodeBinHeader`, `Err` where Go's decoder fails.
pub fn decode_base64_std(s: &[u8]) -> (r: Result<Vec<u8>, ()>)
    ensures
        match r {
            Ok(v) => spec_decode_bin(s@) == Some(v@),
            Err(_) => spec_decode_bin(s@) is None,
        },
{
    let n = s.len();
    let mut end = n;
    if n % 4 == 0 {
        if n >= 1 && s[n - 1] == 61 {
            end = n - 1;
            if n >= 2 && s[n - 2] == 61 {
                end = n - 2;
            }
        }
    } else {
        if crate::bytes::contains_byte(s, 61) {
            return Err(());
        }
    }
    let data = vstd::slice::slice_subrange(s, 0, end);
    assert(bin_data(s@) == Some(data@));
    if crate::bytes::contains_byte(data, 61) {
        return Err(());
    }
    if data.len() % 4 == 1 {
        return Err(());
    }
    let mut out: Vec<u8> = Vec::new();
    let mut k: usize = 0;
    assert(data@.subrange(0, data@.len() as int) =~= data@);
    assert(spec_decode_bin(s@) == std_groups(data@));
    while k < data.len()
        invariant
            k <= data@.len(),
            spec_decode_bin(s@) == std_groups(data@),
            std_groups(data@) == match std_groups(data@.subrange(k as int, data@.len() as int)) {
                Some(rest) => Some(out@ + rest),
                None => None,
            },
        decreases data@.len() - k,
    {
        let m: usize = if data.len() - k < 4 { data.len() - k } else { 4 };
        let ghost rest = data@.subrange(k as int, data@.len() as int);
        let ghost c = rest.subrange(0, m as int);
        let chunk = vstd::slice::slice_subrange(data, k, k + m);
        let mut vals: Vec<u8> = Vec::new();
        let mut j: usize = 0;
        while j < m
            invariant
                j <= m <= 4,
                k <= data@.len(),
                k + m <= data@.len(),
                rest == data@.subrange(k as int, data@.len() as int),
                spec_decode_bin(s@) == std_groups(data@),
                rest.len() > 0,
                m == (if rest.len() < 4 { rest.len() as int } else { 4int }),
                c == rest.subrange(0, m as int),
                std_groups(data@) == match std_groups(rest) {
                    Some(r2) => Some(out@ + r2),
                    None => None,
                },
                c == data@.subrange(k as int, k + m),
                chunk@ == c,
                vals@ == c.subrange(0, j as int).map_values(|x: u8| b64_value(Alphabet::Std, x) as u8),
                forall|t: int| 0 <= t < j ==> #[trigger] vals@[t] < 64,
                forall|t: int| 0 <= t < j ==> b64_value(Alphabet::Std, #[trigger] c[t]) >= 0,
            decreases m - j,
        {
            let b = chunk[j];
            assert(c[j as int] == b);
            let v: u8 = if 65 <= b && b <= 90 {
                b - 65
            } else if 97 <= b && b <= 122 {
                b - 71
            } else if 48 <= b && b <= 57 {
                b + 4
            } else if b == 43 {
                62
            } else if b == 47 {
                63
            } else {
                assert(b64_value(Alphabet::Std, c[j as int]) < 0);
                let ghost nn: int = if rest.len() < 4 { rest.len() as int } else { 4 };
                assert(nn == m);
                assert(rest[j as int] == c[j as int]);
                proof {
                    lemma_groups_refuse(rest, j as int);
                }
                return Err(());
            };
            vals.push(v);
            j = j + 1;
            assert(vals@ =~= c.subrange(0, j as int).map_values(|x: u8| b64_value(Alphabet::Std, x) as u8));
        }
        assert(c.subrange(0, m as int) =~= c);
        assert(rest.subrange(0, m as int) == c);
        assert(rest.subrange(m as int, rest.len() as int) =~= data@.subrange(k + m, data@.len() as int));
        let ghost o = out@;
        crate::request::strconv::push_packed(&mut out, &vals, m - 1);
        proof {
            match std_groups(data@.subrange(k + m, data@.len() as int)) {
                Some(r2) => {
                    assert(out@ + r2 =~= o + (packed(vals@, m - 1) + r2));
                },
                None => {},
            }
        }
        k = k + m;
    }
    assert(out@ + Seq::<u8>::empty() =~= out@);
    Ok(out)
}

/// A rough `net.SplitHostPort`: the host before the last `:`, minus IPv6
/// brackets.
pub open spec fn spec_split_host_port(addr: Seq<u8>) -> Option<Seq<u8>> {
    if addr.len() > 0 && addr[0] == 91 {
        let rest = addr.subrange(1, addr.len() as int);
        if exists|i: int| 0 <= i < rest.len() && rest[i] == 93 {
            let i = choose|i: int|
                0 <= i < rest.len() && rest[i] == 93 && forall|j: int| 0 <= j < i ==> rest[j] != 93;
            let tail = rest.subrange(i + 1, rest.len() as int);
            if tail.len() > 0 && tail[0] == 58 {
                Some(rest.subrange(0, i))
            } else {
                None
            }
        } else {
            None
        }
    } else if exists|i: int| 0 <= i < addr.len() && addr[i] == 58 {
        let i = choose|i: int|
            0 <= i < addr.len() && addr[i] == 58 && forall|j: int| i < j < addr.len() ==> addr[j] != 58;
        let host = addr.subrange(0, i);
        if !host.contains(58) && i + 1 < addr.len() {
            Some(host)
        } else {
            None
        }
    } else {
        None
    }
}

/// A rough `net.SplitHostPort`: the host before the last `:`, minus IPv6
/// brackets; `None` for a shape `RemoteAddr` does not take.
pub fn split_host_port(addr: &[u8]) -> (r: Option<&[u8]>)
    ensures
        match r {
            Some(h) => spec_split_host_port(addr@) == Some(h@),
            None => spec_split_host_port(addr@) is None,
        },
{
    if addr.len() > 0 && addr[0] == 91 {
        let rest = vstd::slice::slice_subrange(addr, 1, addr.len());
        let mut i: usize = 0;
        while i < rest.len() && rest[i] != 93
            invariant
                i <= rest@.len(),
                forall|j: int| 0 <= j < i ==> rest@[j] != 93,
            decreases rest@.len() - i,
        {
            i = i + 1;
        }
        if i == rest.len() {
            return None;
        }
        proof {
            let c = choose|c: int| 0 <= c < rest@.len() && rest@[c] == 93 && forall|j: int| 0 <= j < c ==> rest@[j] != 93;
            assert(rest@[i as int] == 93);
            if c < i {
                assert(rest@[c] != 93);
            }
            if c > i {
                assert(rest@[i as int] != 93);
            }
            assert(c == i);
        }
        if i + 1 < rest.len() && rest[i + 1] == 58 {
            return Some(vstd::slice::slice_subrange(rest, 0, i));
        }
        return None;
    }
    let mut i: usize = addr.len();
    while i > 0 && addr[i - 1] != 58
        invariant
            i <= addr@.len(),
            forall|j: int| i <= j < addr@.len() ==> addr@[j] != 58,
        decreases i,
    {
        i = i - 1;
    }
    if i == 0 {
        return None;
    }
    let c = i - 1;
    proof {
        let k = choose|k: int| 0 <= k < addr@.len() && addr@[k] == 58 && forall|j: int| k < j < addr@.len() ==> addr@[j] != 58;
        assert(addr@[c as int] == 58);
        if k < c {
            assert(addr@[c as int] != 58);
        }
        if k > c {
            assert(addr@[k] != 58);
        }
        assert(k == c);
    }
    let host = vstd::slice::slice_subrange(addr, 0, c);
    if crate::bytes::contains_byte(host, 58) {
        return None;
    }
    if c + 1 < addr.len() {
        Some(host)
    } else {
        None
    }
}

/// Nanoseconds per unit of `grpc-timeout`.
pub open spec fn timeout_unit(u: u8) -> int {
    if u == 72 {
        3_600_000_000_000
    } else if u == 77 {
        60_000_000_000
    } else if u == 83 {
        1_000_000_000
    } else if u == 109 {
        1_000_000
    } else if u == 117 {
        1_000
    } else if u == 110 {
        1
    } else {
        0
    }
}

pub open spec fn all_digits(d: Seq<u8>) -> bool {
    forall|i: int| 0 <= i < d.len() ==> is_digit(#[trigger] d[i])
}

/// The decimal value of digits.
pub open spec fn decimal_value(d: Seq<u8>) -> int
    decreases d.len(),
{
    if d.len() == 0 {
        0
    } else {
        decimal_value(d.drop_last()) * 10 + (d.last() - 48)
    }
}

/// Rust's `i64::from_str`: an optional sign, then digits, in range.
pub open spec fn spec_parse_i64(s: Seq<u8>) -> Option<int> {
    let neg = s.len() > 0 && s[0] == 45;
    let d = if s.len() > 0 && (s[0] == 45 || s[0] == 43) { s.subrange(1, s.len() as int) } else { s };
    if d.len() == 0 || !all_digits(d) {
        None
    } else {
        let v = if neg { -decimal_value(d) } else { decimal_value(d) };
        if i64::MIN <= v <= i64::MAX {
            Some(v)
        } else {
            None
        }
    }
}

/// `timeoutDecode`: the last byte is the unit (`H M S m u n`), the rest a
/// count, one leading `+` stripped first. A negative count gives zero.
pub open spec fn spec_grpc_timeout(s: Seq<u8>) -> Option<int> {
    if s.len() < 2 || timeout_unit(s.last()) == 0 {
        None
    } else {
        let digits = s.drop_last();
        let body = if digits[0] == 43 { digits.subrange(1, digits.len() as int) } else { digits };
        match spec_parse_i64(body) {
            None => None,
            Some(count) => {
                let nanos = count * timeout_unit(s.last());
                if nanos < i64::MIN || nanos > i64::MAX {
                    None
                } else if nanos < 0 {
                    Some(0)
                } else {
                    Some(nanos)
                }
            },
        }
    }
}

proof fn lemma_decimal_value_grows(d: Seq<u8>)
    requires
        all_digits(d),
    ensures
        decimal_value(d) >= 0,
    decreases d.len(),
{
    if d.len() > 0 {
        lemma_decimal_value_grows(d.drop_last());
    }
}

/// Rust's `i64::from_str`.
pub(crate) fn parse_i64(s: &[u8]) -> (r: Option<i64>)
    ensures
        match r {
            Some(v) => spec_parse_i64(s@) == Some(v as int),
            None => spec_parse_i64(s@) is None,
        },
{
    let neg = s.len() > 0 && s[0] == 45;
    let d: &[u8] = if s.len() > 0 && (s[0] == 45 || s[0] == 43) {
        vstd::slice::slice_subrange(s, 1, s.len())
    } else {
        s
    };
    if d.len() == 0 {
        return None;
    }
    let mut v: u64 = 0;
    let mut i: usize = 0;
    while i < d.len()
        invariant
            i <= d@.len(),
            d@.len() > 0,
            neg == (s@.len() > 0 && s@[0] == 45),
            d@ == (if s@.len() > 0 && (s@[0] == 45 || s@[0] == 43) { s@.subrange(1, s@.len() as int) } else { s@ }),
            all_digits(d@.subrange(0, i as int)),
            v == decimal_value(d@.subrange(0, i as int)),
            v <= 0x8000_0000_0000_0000,
        decreases d@.len() - i,
    {
        let c = d[i];
        if !(48 <= c && c <= 57) {
            assert(!is_digit(d@[i as int]));
            assert(!all_digits(d@));
            return None;
        }
        assert(d@.subrange(0, i + 1).drop_last() =~= d@.subrange(0, i as int));
        if v > 922_337_203_685_477_580 || (v == 922_337_203_685_477_580 && c > 56) {
            proof {
                lemma_decimal_prefix_bound(d@, i + 1);
            }
            return None;
        }
        v = v * 10 + (c - 48) as u64;
        i = i + 1;
    }
    assert(d@.subrange(0, i as int) =~= d@);
    if neg {
        if v == 0x8000_0000_0000_0000 {
            Some(i64::MIN)
        } else {
            Some(-(v as i64))
        }
    } else {
        if v > 0x7fff_ffff_ffff_ffff {
            return None;
        }
        Some(v as i64)
    }
}

/// Once a prefix of the digits exceeds 2^63, the whole does.
proof fn lemma_decimal_prefix_bound(d: Seq<u8>, n: int)
    requires
        0 < n <= d.len(),
        all_digits(d.subrange(0, n - 1)),
        is_digit(d[n - 1]),
        decimal_value(d.subrange(0, n)) > 0x8000_0000_0000_0000,
    ensures
        all_digits(d) ==> decimal_value(d) > 0x8000_0000_0000_0000,
    decreases d.len() - n,
{
    if n < d.len() && all_digits(d) {
        assert(d.subrange(0, n + 1).drop_last() =~= d.subrange(0, n));
        assert(all_digits(d.subrange(0, n)));
        lemma_decimal_prefix_bound(d, n + 1);
    } else if all_digits(d) {
        assert(d.subrange(0, n) =~= d);
    }
}

/// `timeoutDecode`/`timeoutUnitToDuration`, in nanoseconds.
pub fn parse_grpc_timeout(s: &[u8]) -> (r: Result<u64, ()>)
    ensures
        match r {
            Ok(n) => spec_grpc_timeout(s@) == Some(n as int),
            Err(_) => spec_grpc_timeout(s@) is None,
        },
{
    if s.len() < 2 {
        return Err(());
    }
    let unit = s[s.len() - 1];
    let per: i64 = if unit == 72 {
        3_600_000_000_000
    } else if unit == 77 {
        60_000_000_000
    } else if unit == 83 {
        1_000_000_000
    } else if unit == 109 {
        1_000_000
    } else if unit == 117 {
        1_000
    } else if unit == 110 {
        1
    } else {
        return Err(());
    };
    let digits = vstd::slice::slice_subrange(s, 0, s.len() - 1);
    assert(digits@ == s@.drop_last());
    let body: &[u8] = if digits[0] == 43 {
        vstd::slice::slice_subrange(digits, 1, digits.len())
    } else {
        digits
    };
    let count = match parse_i64(body) {
        Some(c) => c,
        None => return Err(()),
    };
    match count.checked_mul(per) {
        Some(n) => {
            if n < 0 {
                Ok(0)
            } else {
                Ok(n as u64)
            }
        },
        None => Err(()),
    }
}


pub type PairsV = Seq<(Seq<u8>, Seq<u8>)>;

/// The first value of header `name`, as `HeaderMap::get` gives it.
pub open spec fn first_header(hs: PairsV, name: Seq<u8>) -> Option<Seq<u8>>
    decreases hs.len(),
{
    if hs.len() == 0 {
        None
    } else if hs[0].0 == name {
        Some(hs[0].1)
    } else {
        first_header(hs.subrange(1, hs.len() as int), name)
    }
}

/// Every value of header `name` that `to_str` accepts, in order.
pub open spec fn text_values(hs: PairsV, name: Seq<u8>) -> Seq<Seq<u8>>
    decreases hs.len(),
{
    if hs.len() == 0 {
        Seq::empty()
    } else {
        let rest = text_values(hs.drop_last(), name);
        if hs.last().0 == name && visible_ascii(hs.last().1) {
            rest.push(hs.last().1)
        } else {
            rest
        }
    }
}

/// The parts joined with `, `.
pub open spec fn join_comma(parts: Seq<Seq<u8>>) -> Seq<u8>
    decreases parts.len(),
{
    if parts.len() == 0 {
        Seq::empty()
    } else if parts.len() == 1 {
        parts[0]
    } else {
        join_comma(parts.drop_last()) + seq![44u8, 32u8] + parts.last()
    }
}

pub open spec fn ends_with_bin(name: Seq<u8>) -> bool {
    name.len() >= 4 && name.subrange(name.len() - 4, name.len() as int) == "-bin".spec_bytes()
}

/// What one header adds to the metadata `acc`: `None` for a `-bin` header
/// that does not decode.
pub open spec fn header_step(acc: PairsV, name: Seq<u8>, value: Seq<u8>) -> Option<PairsV> {
    if name == "x-forwarded-for".spec_bytes() || name == "x-forwarded-host".spec_bytes() {
        Some(acc)
    } else {
        let acc1 = if name == "authorization".spec_bytes() {
            acc.push(("authorization".spec_bytes(), value))
        } else {
            acc
        };
        match spec_matched_key(name) {
            None => Some(acc1),
            Some(key) => if ends_with_bin(name) {
                if !visible_ascii(value) {
                    None
                } else {
                    match spec_decode_bin(value) {
                        None => None,
                        Some(d) => Some(acc1.push((key, d))),
                    }
                }
            } else if valid_text(value) {
                Some(acc1.push((key, value)))
            } else {
                Some(acc1)
            },
        }
    }
}

/// The metadata the headers from the `i`-th on add to `acc`, or the name of
/// a `-bin` header that does not decode.
pub open spec fn pairs_from(hs: PairsV, i: int, acc: PairsV) -> Result<PairsV, Seq<u8>>
    decreases hs.len() - i,
{
    if i < 0 || i >= hs.len() {
        Ok(acc)
    } else {
        match header_step(acc, hs[i].0, hs[i].1) {
            None => Err(hs[i].0),
            Some(a) => pairs_from(hs, i + 1, a),
        }
    }
}

/// `AnnotateContext`'s refusals, as plain values.
pub enum MetadataErrorV {
    InvalidBinaryHeader(Seq<u8>),
    InvalidTimeout(Seq<u8>),
}

pub open spec fn metadata_error_view(e: MetadataError) -> MetadataErrorV {
    match e {
        MetadataError::InvalidBinaryHeader { header } => MetadataErrorV::InvalidBinaryHeader(header@),
        MetadataError::InvalidTimeout { value } => MetadataErrorV::InvalidTimeout(value@),
    }
}

/// `AnnotateContext`, less the context plumbing: the headers (lower-cased
/// names, in `HeaderMap` order), the request's `Host`, and its peer address
/// become the metadata pairs and the deadline in nanoseconds.
pub open spec fn spec_incoming(hs: PairsV, host: Seq<u8>, remote: Option<Seq<u8>>) -> Result<(PairsV, Option<int>), MetadataErrorV> {
    let tv = first_header(hs, "grpc-timeout".spec_bytes());
    let timeout: Result<Option<int>, MetadataErrorV> = match tv {
        Some(v) => if visible_ascii(v) && v.len() > 0 {
            match spec_grpc_timeout(v) {
                Some(n) => Ok(Some(n)),
                None => Err(MetadataErrorV::InvalidTimeout(v)),
            }
        } else {
            Ok(None)
        },
        None => Ok(None),
    };
    match timeout {
        Err(e) => Err(e),
        Ok(t) => match pairs_from(hs, 0, Seq::empty()) {
            Err(name) => Err(MetadataErrorV::InvalidBinaryHeader(name)),
            Ok(ps) => {
                let fh: Option<Seq<u8>> = match first_header(hs, "x-forwarded-host".spec_bytes()) {
                    Some(v) => if visible_ascii(v) && v.len() > 0 {
                        Some(v)
                    } else if host.len() > 0 {
                        Some(host)
                    } else {
                        None
                    },
                    None => if host.len() > 0 {
                        Some(host)
                    } else {
                        None
                    },
                };
                let ps2 = match fh {
                    Some(h) => ps.push(("x-forwarded-host".spec_bytes(), h)),
                    None => ps,
                };
                let ip: Option<Seq<u8>> = match remote {
                    Some(a) => spec_split_host_port(a),
                    None => None,
                };
                let xff = text_values(hs, "x-forwarded-for".spec_bytes()) + match ip {
                    Some(x) => seq![x],
                    None => Seq::empty(),
                };
                let ps3 = if xff.len() > 0 {
                    ps2.push(("x-forwarded-for".spec_bytes(), join_comma(xff)))
                } else {
                    ps2
                };
                Ok((ps3, t))
            },
        },
    }
}

fn first_header_value<'a>(hs: &'a [(Vec<u8>, Vec<u8>)], name: &[u8]) -> (r: Option<&'a [u8]>)
    ensures
        match r {
            Some(v) => first_header(pairs_view(hs@), name@) == Some(v@),
            None => first_header(pairs_view(hs@), name@) is None,
        },
{
    let ghost hv = pairs_view(hs@);
    let mut i: usize = 0;
    assert(hv.subrange(0, hv.len() as int) =~= hv);
    while i < hs.len()
        invariant
            i <= hs@.len(),
            hv == pairs_view(hs@),
            first_header(hv, name@) == first_header(hv.subrange(i as int, hv.len() as int), name@),
        decreases hs@.len() - i,
    {
        let ghost rest = hv.subrange(i as int, hv.len() as int);
        assert(rest[0] == (hs@[i as int].0@, hs@[i as int].1@));
        if bytes_eq(hs[i].0.as_slice(), name) {
            return Some(hs[i].1.as_slice());
        }
        assert(rest.subrange(1, rest.len() as int) =~= hv.subrange(i + 1, hv.len() as int));
        i = i + 1;
    }
    None
}

fn ends_with_bin_exec(name: &[u8]) -> (r: bool)
    ensures
        r == ends_with_bin(name@),
{
    if name.len() < 4 {
        return false;
    }
    let tail = vstd::slice::slice_subrange(name, name.len() - 4, name.len());
    bytes_eq(tail, "-bin".as_bytes())
}

fn named(name: &str, value: Vec<u8>) -> (r: (Vec<u8>, Vec<u8>))
    ensures
        r.0@ == name.spec_bytes(),
        r.1@ == value@,
{
    (copy_bytes(name.as_bytes()), value)
}

/// Adds what one header gives; `false` for a `-bin` header that does not decode.
fn add_header(pairs: &mut Vec<(Vec<u8>, Vec<u8>)>, name: &[u8], value: &[u8]) -> (ok: bool)
    ensures
        match header_step(pairs_view(old(pairs)@), name@, value@) {
            Some(a) => ok && pairs_view(final(pairs)@) == a,
            None => !ok,
        },
{
    let ghost before = pairs_view(pairs@);
    if bytes_eq(name, "x-forwarded-for".as_bytes()) || bytes_eq(name, "x-forwarded-host".as_bytes()) {
        return true;
    }
    if bytes_eq(name, "authorization".as_bytes()) {
        pairs.push(named("authorization", copy_bytes(value)));
    }
    let ghost acc1 = pairs_view(pairs@);
    assert(acc1 =~= if name@ == "authorization".spec_bytes() {
        before.push(("authorization".spec_bytes(), value@))
    } else {
        before
    });
    match matched_key(name) {
        None => true,
        Some(key) => {
            if ends_with_bin_exec(name) {
                if !is_visible_ascii(value) {
                    return false;
                }
                match decode_base64_std(value) {
                    Err(_) => false,
                    Ok(d) => {
                        let ghost dv = d@;
                        pairs.push((key, d));
                        assert(pairs_view(pairs@) =~= acc1.push((key@, dv)));
                        true
                    },
                }
            } else if is_valid_text_value(value) {
                let ghost kv = key@;
                pairs.push((key, copy_bytes(value)));
                assert(pairs_view(pairs@) =~= acc1.push((kv, value@)));
                true
            } else {
                true
            }
        },
    }
}

/// The metadata the headers give, or the name of a `-bin` header that does
/// not decode.
fn metadata_pairs(headers: &[(Vec<u8>, Vec<u8>)]) -> (r: Result<Vec<(Vec<u8>, Vec<u8>)>, Vec<u8>>)
    ensures
        match r {
            Ok(ps) => pairs_from(pairs_view(headers@), 0, Seq::empty()) == Ok::<PairsV, Seq<u8>>(pairs_view(ps@)),
            Err(n) => pairs_from(pairs_view(headers@), 0, Seq::empty()) == Err::<PairsV, Seq<u8>>(n@),
        },
{
    let ghost hv = pairs_view(headers@);
    let mut pairs: Vec<(Vec<u8>, Vec<u8>)> = Vec::new();
    assert(pairs_view(pairs@) =~= Seq::<(Seq<u8>, Seq<u8>)>::empty());
    let mut i: usize = 0;
    while i < headers.len()
        invariant
            i <= headers@.len(),
            hv == pairs_view(headers@),
            pairs_from(hv, 0, Seq::empty()) == pairs_from(hv, i as int, pairs_view(pairs@)),
        decreases headers@.len() - i,
    {
        let name = headers[i].0.as_slice();
        let value = headers[i].1.as_slice();
        assert(hv[i as int] == (name@, value@));
        if !add_header(&mut pairs, name, value) {
            return Err(copy_bytes(name));
        }
        i = i + 1;
    }
    Ok(pairs)
}

/// The `X-Forwarded-For` parts: the header's readable values, then the peer.
fn forwarded_for(headers: &[(Vec<u8>, Vec<u8>)], remote_addr: Option<&[u8]>) -> (r: Vec<Vec<u8>>)
    ensures
        crate::path::template::view_tokens(r@) == text_values(pairs_view(headers@), "x-forwarded-for".spec_bytes())
            + match remote_addr {
            Some(a) => match spec_split_host_port(a@) {
                Some(x) => seq![x],
                None => Seq::<Seq<u8>>::empty(),
            },
            None => Seq::<Seq<u8>>::empty(),
        },
{
    let ghost hv = pairs_view(headers@);
    let mut xff: Vec<Vec<u8>> = Vec::new();
    let mut k: usize = 0;
    while k < headers.len()
        invariant
            k <= headers@.len(),
            hv == pairs_view(headers@),
            crate::path::template::view_tokens(xff@) == text_values(hv.subrange(0, k as int), "x-forwarded-for".spec_bytes()),
        decreases headers@.len() - k,
    {
        assert(hv.subrange(0, k + 1).drop_last() =~= hv.subrange(0, k as int));
        assert(hv.subrange(0, k + 1).last() == (headers@[k as int].0@, headers@[k as int].1@));
        let ghost xb = crate::path::template::view_tokens(xff@);
        if bytes_eq(headers[k].0.as_slice(), "x-forwarded-for".as_bytes()) && is_visible_ascii(headers[k].1.as_slice()) {
            xff.push(copy_bytes(headers[k].1.as_slice()));
            assert(crate::path::template::view_tokens(xff@) =~= xb.push(headers@[k as int].1@));
        }
        k = k + 1;
    }
    assert(hv.subrange(0, k as int) =~= hv);
    let ghost xb = crate::path::template::view_tokens(xff@);
    match remote_addr {
        Some(a) => match split_host_port(a) {
            Some(h) => {
                xff.push(copy_bytes(h));
                assert(crate::path::template::view_tokens(xff@) =~= xb + seq![h@]);
            },
            None => {
                assert(xb + Seq::<Seq<u8>>::empty() =~= xb);
            },
        },
        None => {
            assert(xb + Seq::<Seq<u8>>::empty() =~= xb);
        },
    }
    xff
}

/// The parts joined with `, `.
fn join_parts(xff: &Vec<Vec<u8>>) -> (r: Vec<u8>)
    requires
        xff@.len() > 0,
    ensures
        r@ == join_comma(crate::path::template::view_tokens(xff@)),
{
    let ghost parts = crate::path::template::view_tokens(xff@);
    let mut joined: Vec<u8> = copy_bytes(xff[0].as_slice());
    let mut j: usize = 1;
    assert(parts.subrange(0, 1) =~= seq![parts[0]]);
    while j < xff.len()
        invariant
            1 <= j <= xff@.len(),
            parts == crate::path::template::view_tokens(xff@),
            joined@ == join_comma(parts.subrange(0, j as int)),
        decreases xff@.len() - j,
    {
        joined.push(44);
        joined.push(32);
        push_all(&mut joined, xff[j].as_slice());
        assert(parts.subrange(0, j + 1).drop_last() =~= parts.subrange(0, j as int));
        assert(joined@ =~= join_comma(parts.subrange(0, j as int)) + seq![44u8, 32u8] + parts[j as int]);
        j = j + 1;
    }
    assert(parts.subrange(0, j as int) =~= parts);
    joined
}

/// `AnnotateContext`, less the context plumbing: `headers` as `HeaderMap`
/// iterates them (lower-cased names), the request's `Host`, and its peer
/// address (`ip:port`, when known) become the metadata pairs and deadline.
pub fn incoming(headers: &[(Vec<u8>, Vec<u8>)], host: &[u8], remote_addr: Option<&[u8]>) -> (r: Result<Incoming, MetadataError>)
    ensures
        match r {
            Ok(inc) => spec_incoming(pairs_view(headers@), host@, match remote_addr {
                Some(a) => Some(a@),
                None => None,
            }) == Ok::<(PairsV, Option<int>), MetadataErrorV>((pairs_view(inc.pairs@), match inc.timeout {
                Some(n) => Some(n as int),
                None => None,
            })),
            Err(e) => spec_incoming(pairs_view(headers@), host@, match remote_addr {
                Some(a) => Some(a@),
                None => None,
            }) == Err::<(PairsV, Option<int>), MetadataErrorV>(metadata_error_view(e)),
        },
{
    let timeout: Option<u64> = match first_header_value(headers, "grpc-timeout".as_bytes()) {
        Some(v) => {
            if is_visible_ascii(v) && v.len() > 0 {
                match parse_grpc_timeout(v) {
                    Ok(n) => Some(n),
                    Err(_) => return Err(MetadataError::InvalidTimeout { value: copy_bytes(v) }),
                }
            } else {
                None
            }
        },
        None => None,
    };
    let mut pairs = match metadata_pairs(headers) {
        Ok(p) => p,
        Err(name) => return Err(MetadataError::InvalidBinaryHeader { header: name }),
    };
    let fh: Option<&[u8]> = match first_header_value(headers, "x-forwarded-host".as_bytes()) {
        Some(v) => {
            if is_visible_ascii(v) && v.len() > 0 {
                Some(v)
            } else if host.len() > 0 {
                Some(host)
            } else {
                None
            }
        },
        None => if host.len() > 0 {
            Some(host)
        } else {
            None
        },
    };
    let ghost ps = pairs_view(pairs@);
    match fh {
        Some(h) => {
            pairs.push(named("x-forwarded-host", copy_bytes(h)));
            assert(pairs_view(pairs@) =~= ps.push(("x-forwarded-host".spec_bytes(), h@)));
        },
        None => {},
    }
    let xff = forwarded_for(headers, remote_addr);
    if xff.len() > 0 {
        let joined = join_parts(&xff);
        let ghost ps2 = pairs_view(pairs@);
        let ghost jv = joined@;
        pairs.push(named("x-forwarded-for", joined));
        assert(pairs_view(pairs@) =~= ps2.push(("x-forwarded-for".spec_bytes(), jv)));
    }
    Ok(Incoming { pairs, timeout })
}

/// grpc-gateway's permanent HTTP headers (`isPermanentHTTPHeader`), in its
/// order.
pub open spec fn permanent_headers() -> Seq<Seq<u8>> {
    seq![
        "accept".spec_bytes(),
        "accept-charset".spec_bytes(),
        "accept-language".spec_bytes(),
        "accept-ranges".spec_bytes(),
        "authorization".spec_bytes(),
        "cache-control".spec_bytes(),
        "content-type".spec_bytes(),
        "cookie".spec_bytes(),
        "date".spec_bytes(),
        "expect".spec_bytes(),
        "from".spec_bytes(),
        "host".spec_bytes(),
        "if-match".spec_bytes(),
        "if-modified-since".spec_bytes(),
        "if-none-match".spec_bytes(),
        "if-schedule-tag-match".spec_bytes(),
        "if-unmodified-since".spec_bytes(),
        "max-forwards".spec_bytes(),
        "origin".spec_bytes(),
        "pragma".spec_bytes(),
        "referer".spec_bytes(),
        "user-agent".spec_bytes(),
        "via".spec_bytes(),
        "warning".spec_bytes()
    ]
}

/// The default header matcher forwards each permanent HTTP header under
/// `grpcgateway-` and its name, a `grpc-metadata-` header under the rest of
/// its name, and nothing else.
pub proof fn lemma_header_matcher(name: Seq<u8>)
    ensures
        spec_matched_key(name) == if permanent_headers().contains(name) {
            Some("grpcgateway-".spec_bytes() + name)
        } else if starts_with(name, "grpc-metadata-".spec_bytes()) {
            Some(name.subrange("grpc-metadata-".spec_bytes().len() as int, name.len() as int))
        } else {
            None
        },
{
    let l = permanent_headers();
        assert(permanent_headers()[0] == "accept".spec_bytes());
        assert(permanent_headers()[1] == "accept-charset".spec_bytes());
        assert(permanent_headers()[2] == "accept-language".spec_bytes());
        assert(permanent_headers()[3] == "accept-ranges".spec_bytes());
        assert(permanent_headers()[4] == "authorization".spec_bytes());
        assert(permanent_headers()[5] == "cache-control".spec_bytes());
        assert(permanent_headers()[6] == "content-type".spec_bytes());
        assert(permanent_headers()[7] == "cookie".spec_bytes());
        assert(permanent_headers()[8] == "date".spec_bytes());
        assert(permanent_headers()[9] == "expect".spec_bytes());
        assert(permanent_headers()[10] == "from".spec_bytes());
        assert(permanent_headers()[11] == "host".spec_bytes());
        assert(permanent_headers()[12] == "if-match".spec_bytes());
        assert(permanent_headers()[13] == "if-modified-since".spec_bytes());
        assert(permanent_headers()[14] == "if-none-match".spec_bytes());
        assert(permanent_headers()[15] == "if-schedule-tag-match".spec_bytes());
        assert(permanent_headers()[16] == "if-unmodified-since".spec_bytes());
        assert(permanent_headers()[17] == "max-forwards".spec_bytes());
        assert(permanent_headers()[18] == "origin".spec_bytes());
        assert(permanent_headers()[19] == "pragma".spec_bytes());
        assert(permanent_headers()[20] == "referer".spec_bytes());
        assert(permanent_headers()[21] == "user-agent".spec_bytes());
        assert(permanent_headers()[22] == "via".spec_bytes());
        assert(permanent_headers()[23] == "warning".spec_bytes());
    assert(l.len() == 24);
    if is_permanent(name) {
        assert(l.contains(name)) by {
            if name == "accept".spec_bytes() { assert(l[0] == name); }
            if name == "accept-charset".spec_bytes() { assert(l[1] == name); }
            if name == "accept-language".spec_bytes() { assert(l[2] == name); }
            if name == "accept-ranges".spec_bytes() { assert(l[3] == name); }
            if name == "authorization".spec_bytes() { assert(l[4] == name); }
            if name == "cache-control".spec_bytes() { assert(l[5] == name); }
            if name == "content-type".spec_bytes() { assert(l[6] == name); }
            if name == "cookie".spec_bytes() { assert(l[7] == name); }
            if name == "date".spec_bytes() { assert(l[8] == name); }
            if name == "expect".spec_bytes() { assert(l[9] == name); }
            if name == "from".spec_bytes() { assert(l[10] == name); }
            if name == "host".spec_bytes() { assert(l[11] == name); }
            if name == "if-match".spec_bytes() { assert(l[12] == name); }
            if name == "if-modified-since".spec_bytes() { assert(l[13] == name); }
            if name == "if-none-match".spec_bytes() { assert(l[14] == name); }
            if name == "if-schedule-tag-match".spec_bytes() { assert(l[15] == name); }
            if name == "if-unmodified-since".spec_bytes() { assert(l[16] == name); }
            if name == "max-forwards".spec_bytes() { assert(l[17] == name); }
            if name == "origin".spec_bytes() { assert(l[18] == name); }
            if name == "pragma".spec_bytes() { assert(l[19] == name); }
            if name == "referer".spec_bytes() { assert(l[20] == name); }
            if name == "user-agent".spec_bytes() { assert(l[21] == name); }
            if name == "via".spec_bytes() { assert(l[22] == name); }
            if name == "warning".spec_bytes() { assert(l[23] == name); }
        }
    }
    if l.contains(name) {
        let i = choose|i: int| 0 <= i < l.len() && l[i] == name;
        assert(is_permanent(name)) by {
            assert(0 <= i < 24);
            if i == 0 { assert(name == "accept".spec_bytes()); }
            if i == 1 { assert(name == "accept-charset".spec_bytes()); }
            if i == 2 { assert(name == "accept-language".spec_bytes()); }
            if i == 3 { assert(name == "accept-ranges".spec_bytes()); }
            if i == 4 { assert(name == "authorization".spec_bytes()); }
            if i == 5 { assert(name == "cache-control".spec_bytes()); }
            if i == 6 { assert(name == "content-type".spec_bytes()); }
            if i == 7 { assert(name == "cookie".spec_bytes()); }
            if i == 8 { assert(name == "date".spec_bytes()); }
            if i == 9 { assert(name == "expect".spec_bytes()); }
            if i == 10 { assert(name == "from".spec_bytes()); }
            if i == 11 { assert(name == "host".spec_bytes()); }
            if i == 12 { assert(name == "if-match".spec_bytes()); }
            if i == 13 { assert(name == "if-modified-since".spec_bytes()); }
            if i == 14 { assert(name == "if-none-match".spec_bytes()); }
            if i == 15 { assert(name == "if-schedule-tag-match".spec_bytes()); }
            if i == 16 { assert(name == "if-unmodified-since".spec_bytes()); }
            if i == 17 { assert(name == "max-forwards".spec_bytes()); }
            if i == 18 { assert(name == "origin".spec_bytes()); }
            if i == 19 { assert(name == "pragma".spec_bytes()); }
            if i == 20 { assert(name == "referer".spec_bytes()); }
            if i == 21 { assert(name == "user-agent".spec_bytes()); }
            if i == 22 { assert(name == "via".spec_bytes()); }
            if i == 23 { assert(name == "warning".spec_bytes()); }
        }
    }
}

} // verus!
