//! Small helpers shared across the node: fresh identifiers, wall-clock
//! readings, and query-string parsing.
use vstd::prelude::*;

verus! {

/// Relies on uuid's Uuid::new_v4 and its hyphenated Display form: a fresh
/// random identifier, printed as 36 ASCII characters.
#[verifier::external_body]
pub fn new_message_id() -> (r: String)
    ensures
        r@.len() == 36,
{
    uuid::Uuid::new_v4().to_string()
}

/// Relies on chrono's Utc::now().timestamp(): whole seconds since the Unix
/// epoch. Nothing is promised of the value; it depends on the clock.
#[verifier::external_body]
pub fn now_unix() -> i64 {
    chrono::Utc::now().timestamp()
}

/// Relies on chrono's Utc::now().timestamp_millis(): milliseconds since the
/// Unix epoch, non-negative on any clock after 1970.
#[verifier::external_body]
pub fn now_unix_millis() -> (r: u64)
{
    let ms = chrono::Utc::now().timestamp_millis();
    if ms < 0 { 0 } else { ms as u64 }
}

/// Relies on chrono's Utc::now().to_rfc3339(): the current instant printed in
/// RFC 3339 form. Nothing is promised of the value; it depends on the clock.
#[verifier::external_body]
pub fn now_rfc3339() -> String {
    chrono::Utc::now().to_rfc3339()
}

/// Relies on chrono's DateTime::from_timestamp and to_rfc3339: prints the
/// given Unix second in RFC 3339 form, or an empty string when out of range.
#[verifier::external_body]
pub fn rfc3339_of_unix(ts: i64) -> String {
    chrono::DateTime::from_timestamp(ts, 0).map(|dt| dt.to_rfc3339()).unwrap_or_default()
}

/// The numeric value of a decimal digit sequence, or none when empty,
/// non-numeric, or over the u64 ceiling.
pub open spec fn spec_parse_u64(s: Seq<char>) -> Option<u64>
    decreases s.len(),
{
    if s.len() == 0 {
        None
    } else if s.len() == 1 {
        if '0' <= s[0] <= '9' {
            Some((s[0] as u64 - '0' as u64) as u64)
        } else {
            None
        }
    } else {
        match spec_parse_u64(s.drop_last()) {
            None => None,
            Some(hi) => if '0' <= s.last() <= '9' {
                if hi <= (0xffffffffffffffff - (s.last() as u64 - '0' as u64)) / 10 {
                    Some((hi * 10 + (s.last() as u64 - '0' as u64)) as u64)
                } else {
                    None
                }
            } else {
                None
            },
        }
    }
}

/// Parse a decimal u64; accepts exactly the strings whose value fits.
pub fn parse_u64(s: &str) -> (r: Option<u64>)
    ensures
        r == spec_parse_u64(s@),
{
    let n = s.unicode_len();
    if n == 0 {
        return None;
    }
    let mut acc: u64 = 0;
    let mut k: usize = 0;
    while k < n
        invariant
            k <= n,
            n == s@.len(),
            k > 0 ==> spec_parse_u64(s@.subrange(0, k as int)) == Some(acc),
            k == 0 ==> acc == 0,
        decreases n - k,
    {
        let c = s.get_char(k);
        if c < '0' || c > '9' {
            proof {
                lemma_parse_prefix_none(s@, k as int);
            }
            return None;
        }
        let d: u64 = c as u64 - 48;
        if k > 0 && acc > (0xffffffffffffffffu64 - d) / 10 {
            proof {
                lemma_parse_prefix_none_overflow(s@, k as int, acc);
            }
            return None;
        }
        let ghost prev = acc;
        if k == 0 {
            acc = d;
        } else {
            acc = acc * 10 + d;
        }
        proof {
            assert(s@.subrange(0, k + 1 as int).drop_last() =~= s@.subrange(0, k as int));
            assert(s@.subrange(0, k + 1 as int).last() == s@[k as int]);
        }
        k = k + 1;
    }
    proof {
        assert(s@.subrange(0, n as int) =~= s@);
    }
    Some(acc)
}

/// A digit run that goes non-numeric at position k parses to none, as does
/// every extension of it.
proof fn lemma_parse_prefix_none(s: Seq<char>, k: int)
    requires
        0 <= k < s.len(),
        !('0' <= s[k] <= '9'),
    ensures
        spec_parse_u64(s) is None,
    decreases s.len(),
{
    if s.len() == 0 {
    } else if k == s.len() - 1 {
    } else {
        assert(s.drop_last()[k] == s[k]);
        lemma_parse_prefix_none(s.drop_last(), k);
    }
}

proof fn lemma_parse_prefix_none_overflow(s: Seq<char>, k: int, acc: u64)
    requires
        0 < k < s.len(),
        spec_parse_u64(s.subrange(0, k)) == Some(acc),
        '0' <= s[k] <= '9',
        acc > (0xffffffffffffffff - (s[k] as u64 - '0' as u64)) / 10,
    ensures
        spec_parse_u64(s) is None,
    decreases s.len(),
{
    if k == s.len() - 1 {
        assert(s.drop_last() =~= s.subrange(0, k));
    } else {
        assert(s.drop_last().subrange(0, k) =~= s.subrange(0, k));
        assert(s.drop_last()[k] == s[k]);
        lemma_parse_prefix_none_overflow(s.drop_last(), k, acc);
    }
}

/// The value of `key` in a query string of `k=v` pairs joined by `&`, parsed
/// as decimal, when present and numeric.
pub fn parse_query_u64(query: &str, key: &str) -> (r: Option<u64>)
{
    let n = query.unicode_len();
    let mut start: usize = 0;
    let mut k: usize = 0;
    loop
        invariant
            start <= k <= n,
            n == query@.len(),
        decreases n - k,
    {
        if k == n || query.get_char(k) == '&' {
            let pair = query.substring_char(start, k);
            if let Some(v) = match_pair(pair, key) {
                return Some(v);
            }
            if k == n {
                return None;
            }
            start = k + 1;
        }
        k = k + 1;
        if k > n {
            return None;
        }
    }
}

/// As `parse_query_u64`, for usize-sized values.
pub fn parse_query_usize(query: &str, key: &str) -> (r: Option<usize>)
{
    match parse_query_u64(query, key) {
        Some(v) => if v <= usize::MAX as u64 {
            Some(v as usize)
        } else {
            None
        },
        None => None,
    }
}

/// The decimal value of `pair` when it reads `key=<digits>`.
fn match_pair(pair: &str, key: &str) -> (r: Option<u64>)
{
    let n = pair.unicode_len();
    let klen = key.unicode_len();
    if klen >= n {
        return None;
    }
    let mut k: usize = 0;
    while k < klen
        invariant
            k <= klen,
            klen == key@.len(),
            klen + 1 <= n == pair@.len(),
        decreases klen - k,
    {
        if pair.get_char(k) != key.get_char(k) {
            return None;
        }
        k = k + 1;
    }
    if pair.get_char(klen) != '=' {
        return None;
    }
    parse_u64(pair.substring_char(klen + 1, n))
}

} // verus!
