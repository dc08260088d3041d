//! Byte-level wire encoding: big-endian integers, length-prefixed byte
//! strings and UTF-8 strings, options and string lists.
//!
//! Every encoder has a spec-level twin (`enc_*`), every decoder a spec-level
//! twin (`sdec_*`), and round-trip lemmas tie the two together so that
//! higher-level message codecs can prove decode-of-encode exactly.
use vstd::prelude::*;

verus! {

use vstd::utf8::{encode_utf8, decode_utf8, valid_utf8, encode_utf8_valid_utf8,
    encode_utf8_decode_utf8};
use vstd::string::StringSliceAdditionalSpecFns;

// ---------------------------------------------------------------------------
// u64, big endian
// ---------------------------------------------------------------------------

pub open spec fn enc_u64(x: u64) -> Seq<u8> {
    seq![
        ((x >> 56) & 0xff) as u8,
        ((x >> 48) & 0xff) as u8,
        ((x >> 40) & 0xff) as u8,
        ((x >> 32) & 0xff) as u8,
        ((x >> 24) & 0xff) as u8,
        ((x >> 16) & 0xff) as u8,
        ((x >> 8) & 0xff) as u8,
        (x & 0xff) as u8,
    ]
}

pub open spec fn dec_u64(s: Seq<u8>) -> u64
    recommends
        s.len() == 8,
{
    (((s[0] as u64) << 56) | ((s[1] as u64) << 48) | ((s[2] as u64) << 40)
        | ((s[3] as u64) << 32) | ((s[4] as u64) << 24) | ((s[5] as u64) << 16)
        | ((s[6] as u64) << 8) | (s[7] as u64)) as u64
}

pub proof fn lemma_dec_enc_u64(x: u64)
    ensures
        dec_u64(enc_u64(x)) == x,
{
    assert((((((x >> 56) & 0xff) as u8) as u64) << 56 | ((((x >> 48) & 0xff) as u8) as u64) << 48
        | ((((x >> 40) & 0xff) as u8) as u64) << 40 | ((((x >> 32) & 0xff) as u8) as u64) << 32
        | ((((x >> 24) & 0xff) as u8) as u64) << 24 | ((((x >> 16) & 0xff) as u8) as u64) << 16
        | ((((x >> 8) & 0xff) as u8) as u64) << 8 | (((x & 0xff) as u8) as u64)) == x)
        by (bit_vector);
}

pub fn write_u64(out: &mut Vec<u8>, x: u64)
    ensures
        final(out)@ == old(out)@ + enc_u64(x),
{
    out.push(((x >> 56) & 0xff) as u8);
    out.push(((x >> 48) & 0xff) as u8);
    out.push(((x >> 40) & 0xff) as u8);
    out.push(((x >> 32) & 0xff) as u8);
    out.push(((x >> 24) & 0xff) as u8);
    out.push(((x >> 16) & 0xff) as u8);
    out.push(((x >> 8) & 0xff) as u8);
    out.push((x & 0xff) as u8);
    assert(out@ =~= old(out)@ + enc_u64(x));
}

pub open spec fn sdec_u64(buf: Seq<u8>, i: int) -> Option<(u64, int)> {
    if 0 <= i && i + 8 <= buf.len() {
        Some((dec_u64(buf.subrange(i, i + 8)), i + 8))
    } else {
        None
    }
}

pub fn read_u64(buf: &[u8], i: usize) -> (r: Option<(u64, usize)>)
    ensures
        match r {
            Some((x, j)) => sdec_u64(buf@, i as int) == Some((x, j as int)),
            None => sdec_u64(buf@, i as int) is None,
        },
{
    if buf.len() < 8 || i > buf.len() - 8 {
        return None;
    }
    let x: u64 = ((buf[i] as u64) << 56) | ((buf[i + 1] as u64) << 48)
        | ((buf[i + 2] as u64) << 40) | ((buf[i + 3] as u64) << 32)
        | ((buf[i + 4] as u64) << 24) | ((buf[i + 5] as u64) << 16)
        | ((buf[i + 6] as u64) << 8) | (buf[i + 7] as u64);
    proof {
        let s = buf@.subrange(i as int, i as int + 8);
        assert(s[0] == buf@[i as int] && s[1] == buf@[i as int + 1]
            && s[2] == buf@[i as int + 2] && s[3] == buf@[i as int + 3]
            && s[4] == buf@[i as int + 4] && s[5] == buf@[i as int + 5]
            && s[6] == buf@[i as int + 6] && s[7] == buf@[i as int + 7]);
    }
    Some((x, i + 8))
}

/// The decoder reads back exactly what the encoder laid down, at any offset.
pub proof fn lemma_sdec_u64_at(buf: Seq<u8>, i: int, x: u64)
    requires
        0 <= i,
        i + 8 <= buf.len(),
        buf.subrange(i, i + 8) == enc_u64(x),
    ensures
        sdec_u64(buf, i) == Some((x, i + 8)),
{
    lemma_dec_enc_u64(x);
}

// ---------------------------------------------------------------------------
// u32, big endian (frame length prefixes)
// ---------------------------------------------------------------------------

pub open spec fn enc_u32(x: u32) -> Seq<u8> {
    seq![
        ((x >> 24) & 0xff) as u8,
        ((x >> 16) & 0xff) as u8,
        ((x >> 8) & 0xff) as u8,
        (x & 0xff) as u8,
    ]
}

pub open spec fn dec_u32(s: Seq<u8>) -> u32
    recommends
        s.len() == 4,
{
    (((s[0] as u32) << 24) | ((s[1] as u32) << 16) | ((s[2] as u32) << 8) | (s[3] as u32)) as u32
}

pub proof fn lemma_dec_enc_u32(x: u32)
    ensures
        dec_u32(enc_u32(x)) == x,
{
    assert((((((x >> 24) & 0xff) as u8) as u32) << 24 | ((((x >> 16) & 0xff) as u8) as u32) << 16
        | ((((x >> 8) & 0xff) as u8) as u32) << 8 | (((x & 0xff) as u8) as u32)) == x)
        by (bit_vector);
}

pub fn write_u32(out: &mut Vec<u8>, x: u32)
    ensures
        final(out)@ == old(out)@ + enc_u32(x),
{
    out.push(((x >> 24) & 0xff) as u8);
    out.push(((x >> 16) & 0xff) as u8);
    out.push(((x >> 8) & 0xff) as u8);
    out.push((x & 0xff) as u8);
    assert(out@ =~= old(out)@ + enc_u32(x));
}

pub open spec fn sdec_u32(buf: Seq<u8>, i: int) -> Option<(u32, int)> {
    if 0 <= i && i + 4 <= buf.len() {
        Some((dec_u32(buf.subrange(i, i + 4)), i + 4))
    } else {
        None
    }
}

pub fn read_u32(buf: &[u8], i: usize) -> (r: Option<(u32, usize)>)
    ensures
        match r {
            Some((x, j)) => sdec_u32(buf@, i as int) == Some((x, j as int)),
            None => sdec_u32(buf@, i as int) is None,
        },
{
    if buf.len() < 4 || i > buf.len() - 4 {
        return None;
    }
    let x: u32 = ((buf[i] as u32) << 24) | ((buf[i + 1] as u32) << 16) | ((buf[i + 2] as u32) << 8)
        | (buf[i + 3] as u32);
    proof {
        let s = buf@.subrange(i as int, i as int + 4);
        assert(s[0] == buf@[i as int] && s[1] == buf@[i as int + 1]
            && s[2] == buf@[i as int + 2] && s[3] == buf@[i as int + 3]);
    }
    Some((x, i + 4))
}

/// The decoder reads back exactly what the encoder laid down, at any offset.
pub proof fn lemma_sdec_u32_at(buf: Seq<u8>, i: int, x: u32)
    requires
        0 <= i,
        i + 4 <= buf.len(),
        buf.subrange(i, i + 4) == enc_u32(x),
    ensures
        sdec_u32(buf, i) == Some((x, i + 4)),
{
    lemma_dec_enc_u32(x);
}

// ---------------------------------------------------------------------------
// i64 carried in the u64 coding, two's complement
// ---------------------------------------------------------------------------

pub open spec fn i64_as_u64(t: i64) -> u64 {
    if t >= 0 {
        t as u64
    } else {
        (t + 0x10000000000000000) as u64
    }
}

pub open spec fn u64_as_i64(x: u64) -> i64 {
    if x < 0x8000000000000000 {
        x as i64
    } else {
        (x - 0x10000000000000000) as i64
    }
}

pub proof fn lemma_i64_u64_round_trip(t: i64)
    ensures
        u64_as_i64(i64_as_u64(t)) == t,
{
}

pub fn i64_to_u64(t: i64) -> (r: u64)
    ensures
        r == i64_as_u64(t),
{
    if t >= 0 {
        t as u64
    } else {
        let m: u64 = (-(t + 1)) as u64;
        u64::MAX - m
    }
}

pub fn u64_to_i64(x: u64) -> (r: i64)
    ensures
        r == u64_as_i64(x),
{
    if x < 0x8000000000000000 {
        x as i64
    } else {
        let m: i64 = (u64::MAX - x) as i64;
        -m - 1
    }
}

// ---------------------------------------------------------------------------
// single byte
// ---------------------------------------------------------------------------

pub open spec fn sdec_u8(buf: Seq<u8>, i: int) -> Option<(u8, int)> {
    if 0 <= i && i + 1 <= buf.len() {
        Some((buf[i], i + 1))
    } else {
        None
    }
}

pub fn read_u8(buf: &[u8], i: usize) -> (r: Option<(u8, usize)>)
    ensures
        match r {
            Some((x, j)) => sdec_u8(buf@, i as int) == Some((x, j as int)),
            None => sdec_u8(buf@, i as int) is None,
        },
{
    if i >= buf.len() {
        return None;
    }
    Some((buf[i], i + 1))
}

// ---------------------------------------------------------------------------
// length-prefixed raw bytes
// ---------------------------------------------------------------------------

pub open spec fn enc_bytes(b: Seq<u8>) -> Seq<u8> {
    enc_u64(b.len() as u64) + b
}

pub open spec fn sdec_bytes(buf: Seq<u8>, i: int) -> Option<(Seq<u8>, int)> {
    match sdec_u64(buf, i) {
        None => None,
        Some((n, j)) => if j + n <= buf.len() {
            Some((buf.subrange(j, j + n), j + n))
        } else {
            None
        },
    }
}

pub fn write_bytes(out: &mut Vec<u8>, b: &[u8])
    ensures
        final(out)@ == old(out)@ + enc_bytes(b@),
{
    write_u64(out, b.len() as u64);
    let mut k: usize = 0;
    while k < b.len()
        invariant
            k <= b@.len(),
            out@ == old(out)@ + enc_u64(b@.len() as u64) + b@.subrange(0, k as int),
        decreases b@.len() - k,
    {
        out.push(b[k]);
        assert(out@ =~= old(out)@ + enc_u64(b@.len() as u64) + b@.subrange(0, k + 1 as int));
        k = k + 1;
    }
    assert(b@.subrange(0, b@.len() as int) =~= b@);
    assert(out@ =~= old(out)@ + enc_bytes(b@));
}

pub fn read_bytes(buf: &[u8], i: usize) -> (r: Option<(Vec<u8>, usize)>)
    ensures
        match r {
            Some((v, j)) => sdec_bytes(buf@, i as int) == Some((v@, j as int)),
            None => sdec_bytes(buf@, i as int) is None,
        },
{
    let (n, j) = match read_u64(buf, i) {
        None => { return None; },
        Some(p) => p,
    };
    if n > (buf.len() - j) as u64 {
        return None;
    }
    let end: usize = j + n as usize;
    let mut v: Vec<u8> = Vec::new();
    let mut k: usize = j;
    while k < end
        invariant
            j <= k <= end <= buf@.len(),
            v@ == buf@.subrange(j as int, k as int),
        decreases end - k,
    {
        v.push(buf[k]);
        assert(v@ =~= buf@.subrange(j as int, k + 1 as int));
        k = k + 1;
    }
    Some((v, end))
}

pub proof fn lemma_sdec_bytes_at(buf: Seq<u8>, i: int, b: Seq<u8>)
    requires
        0 <= i,
        i + 8 + b.len() <= buf.len(),
        b.len() < 0x10000000000000000,
        buf.subrange(i, i + 8 + b.len()) == enc_bytes(b),
    ensures
        sdec_bytes(buf, i) == Some((b, i + 8 + b.len())),
{
    let whole = buf.subrange(i, i + 8 + b.len());
    assert(forall|m: int| 0 <= m < 8 + b.len() ==> #[trigger] whole[m] == buf[i + m]);
    assert(buf.subrange(i, i + 8) =~= enc_u64(b.len() as u64)) by {
        assert(forall|m: int| 0 <= m < 8 ==> #[trigger] buf.subrange(i, i + 8)[m] == whole[m]);
    }
    lemma_sdec_u64_at(buf, i, b.len() as u64);
    assert(buf.subrange(i + 8, i + 8 + b.len()) =~= b) by {
        assert(forall|m: int| 0 <= m < b.len() ==> #[trigger] buf.subrange(i + 8, i + 8 + b.len())[m]
            == whole[8 + m]);
    }
}

// ---------------------------------------------------------------------------
// length-prefixed UTF-8 strings
// ---------------------------------------------------------------------------

pub open spec fn enc_str(s: Seq<char>) -> Seq<u8> {
    enc_bytes(encode_utf8(s))
}

pub open spec fn sdec_str(buf: Seq<u8>, i: int) -> Option<(Seq<char>, int)> {
    match sdec_bytes(buf, i) {
        None => None,
        Some((raw, j)) => if valid_utf8(raw) {
            Some((decode_utf8(raw), j))
        } else {
            None
        },
    }
}

/// Relies on std's String::from_utf8: it accepts exactly the byte strings
/// that are valid UTF-8 and decodes them to the character sequence that the
/// UTF-8 coding assigns to them.
#[verifier::external_body]
fn bytes_to_string(v: Vec<u8>) -> (r: Option<String>)
    ensures
        r is Some <==> valid_utf8(v@),
        r is Some ==> r->0@ == decode_utf8(v@),
{
    String::from_utf8(v).ok()
}

pub fn write_str(out: &mut Vec<u8>, s: &str)
    ensures
        final(out)@ == old(out)@ + enc_str(s@),
{
    write_bytes(out, s.as_bytes());
}

pub fn read_str(buf: &[u8], i: usize) -> (r: Option<(String, usize)>)
    ensures
        match r {
            Some((s, j)) => sdec_str(buf@, i as int) == Some((s@, j as int)),
            None => sdec_str(buf@, i as int) is None,
        },
{
    let (v, j) = match read_bytes(buf, i) {
        None => { return None; },
        Some(p) => p,
    };
    match bytes_to_string(v) {
        None => None,
        Some(s) => Some((s, j)),
    }
}

pub proof fn lemma_sdec_str_at(buf: Seq<u8>, i: int, s: Seq<char>)
    requires
        0 <= i,
        i + enc_str(s).len() <= buf.len(),
        encode_utf8(s).len() < 0x10000000000000000,
        buf.subrange(i, i + enc_str(s).len()) == enc_str(s),
    ensures
        sdec_str(buf, i) == Some((s, i + enc_str(s).len())),
{
    broadcast use encode_utf8_valid_utf8, encode_utf8_decode_utf8;
    lemma_sdec_bytes_at(buf, i, encode_utf8(s));
}

// ---------------------------------------------------------------------------
// options
// ---------------------------------------------------------------------------

pub open spec fn enc_opt_str(o: Option<Seq<char>>) -> Seq<u8> {
    match o {
        None => seq![0u8],
        Some(s) => seq![1u8] + enc_str(s),
    }
}

pub open spec fn sdec_opt_str(buf: Seq<u8>, i: int) -> Option<(Option<Seq<char>>, int)> {
    match sdec_u8(buf, i) {
        None => None,
        Some((tag, j)) => if tag == 0 {
            Some((None, j))
        } else if tag == 1 {
            match sdec_str(buf, j) {
                None => None,
                Some((s, k)) => Some((Some(s), k)),
            }
        } else {
            None
        },
    }
}

pub fn write_opt_str(out: &mut Vec<u8>, o: &Option<String>)
    ensures
        final(out)@ == old(out)@ + enc_opt_str(match o {
            Some(s) => Some(s@),
            None => None,
        }),
{
    match o {
        None => {
            out.push(0u8);
            assert(out@ =~= old(out)@ + seq![0u8]);
        },
        Some(s) => {
            out.push(1u8);
            let ghost mid = out@;
            assert(mid =~= old(out)@ + seq![1u8]);
            write_str(out, s.as_str());
            assert(out@ =~= old(out)@ + (seq![1u8] + enc_str(s@)));
        },
    }
}

pub fn read_opt_str(buf: &[u8], i: usize) -> (r: Option<(Option<String>, usize)>)
    ensures
        match r {
            Some((o, j)) => sdec_opt_str(buf@, i as int) == Some((
                match o {
                    Some(s) => Some(s@),
                    None => None,
                },
                j as int,
            )),
            None => sdec_opt_str(buf@, i as int) is None,
        },
{
    let (tag, j) = match read_u8(buf, i) {
        None => { return None; },
        Some(p) => p,
    };
    if tag == 0 {
        Some((None, j))
    } else if tag == 1 {
        match read_str(buf, j) {
            None => None,
            Some((s, k)) => Some((Some(s), k)),
        }
    } else {
        None
    }
}

pub open spec fn enc_opt_bytes(o: Option<Seq<u8>>) -> Seq<u8> {
    match o {
        None => seq![0u8],
        Some(b) => seq![1u8] + enc_bytes(b),
    }
}

pub open spec fn sdec_opt_bytes(buf: Seq<u8>, i: int) -> Option<(Option<Seq<u8>>, int)> {
    match sdec_u8(buf, i) {
        None => None,
        Some((tag, j)) => if tag == 0 {
            Some((None, j))
        } else if tag == 1 {
            match sdec_bytes(buf, j) {
                None => None,
                Some((b, k)) => Some((Some(b), k)),
            }
        } else {
            None
        },
    }
}

pub fn write_opt_bytes(out: &mut Vec<u8>, o: &Option<Vec<u8>>)
    ensures
        final(out)@ == old(out)@ + enc_opt_bytes(match o {
            Some(b) => Some(b@),
            None => None,
        }),
{
    match o {
        None => {
            out.push(0u8);
            assert(out@ =~= old(out)@ + seq![0u8]);
        },
        Some(b) => {
            out.push(1u8);
            assert(out@ =~= old(out)@ + seq![1u8]);
            write_bytes(out, b.as_slice());
            assert(out@ =~= old(out)@ + (seq![1u8] + enc_bytes(b@)));
        },
    }
}

pub fn read_opt_bytes(buf: &[u8], i: usize) -> (r: Option<(Option<Vec<u8>>, usize)>)
    ensures
        match r {
            Some((o, j)) => sdec_opt_bytes(buf@, i as int) == Some((
                match o {
                    Some(b) => Some(b@),
                    None => None,
                },
                j as int,
            )),
            None => sdec_opt_bytes(buf@, i as int) is None,
        },
{
    let (tag, j) = match read_u8(buf, i) {
        None => { return None; },
        Some(p) => p,
    };
    if tag == 0 {
        Some((None, j))
    } else if tag == 1 {
        match read_bytes(buf, j) {
            None => None,
            Some((b, k)) => Some((Some(b), k)),
        }
    } else {
        None
    }
}

// ---------------------------------------------------------------------------
// string lists
// ---------------------------------------------------------------------------

pub open spec fn enc_str_seq(l: Seq<Seq<char>>) -> Seq<u8>
    decreases l.len(),
{
    if l.len() == 0 {
        Seq::<u8>::empty()
    } else {
        enc_str(l[0]) + enc_str_seq(l.drop_first())
    }
}

pub open spec fn enc_str_list(l: Seq<Seq<char>>) -> Seq<u8> {
    enc_u64(l.len() as u64) + enc_str_seq(l)
}

pub open spec fn sdec_str_seq(buf: Seq<u8>, i: int, n: nat) -> Option<(Seq<Seq<char>>, int)>
    decreases n,
{
    if n == 0 {
        Some((Seq::empty(), i))
    } else {
        match sdec_str(buf, i) {
            None => None,
            Some((s, j)) => match sdec_str_seq(buf, j, (n - 1) as nat) {
                None => None,
                Some((rest, k)) => Some((seq![s] + rest, k)),
            },
        }
    }
}

pub open spec fn sdec_str_list(buf: Seq<u8>, i: int) -> Option<(Seq<Seq<char>>, int)> {
    match sdec_u64(buf, i) {
        None => None,
        Some((n, j)) => sdec_str_seq(buf, j, n as nat),
    }
}

proof fn lemma_enc_str_seq_snoc(l: Seq<Seq<char>>, s: Seq<char>)
    ensures
        enc_str_seq(l.push(s)) == enc_str_seq(l) + enc_str(s),
    decreases l.len(),
{
    if l.len() == 0 {
        assert(l.push(s)[0] == s);
        assert(l.push(s).drop_first() =~= l);
        assert(enc_str_seq(l.push(s)) == enc_str(s) + enc_str_seq(l));
        assert(enc_str(s) + enc_str_seq(l) =~= enc_str_seq(l) + enc_str(s));
    } else {
        assert(l.push(s).drop_first() =~= l.drop_first().push(s));
        lemma_enc_str_seq_snoc(l.drop_first(), s);
        assert(enc_str_seq(l.push(s)) =~= enc_str_seq(l) + enc_str(s));
    }
}

pub fn write_str_list(out: &mut Vec<u8>, l: &Vec<String>)
    ensures
        final(out)@ == old(out)@ + enc_str_list(l.deep_view()),
{
    write_u64(out, l.len() as u64);
    let ghost base = out@;
    let mut k: usize = 0;
    while k < l.len()
        invariant
            k <= l@.len(),
            l.deep_view().len() == l@.len(),
            forall|m: int| 0 <= m < l@.len() ==> l.deep_view()[m] == l@[m]@,
            out@ == base + enc_str_seq(l.deep_view().take(k as int)),
        decreases l@.len() - k,
    {
        write_str(out, l[k].as_str());
        proof {
            lemma_enc_str_seq_snoc(l.deep_view().take(k as int), l@[k as int]@);
            assert(l.deep_view().take(k + 1 as int)
                =~= l.deep_view().take(k as int).push(l.deep_view()[k as int]));
        }
        k = k + 1;
    }
    proof {
        assert(l.deep_view().take(l@.len() as int) =~= l.deep_view());
        assert(out@ =~= old(out)@ + enc_str_list(l.deep_view()));
    }
}

pub fn read_str_list(buf: &[u8], i: usize) -> (r: Option<(Vec<String>, usize)>)
    ensures
        match r {
            Some((v, j)) => sdec_str_list(buf@, i as int) == Some((v.deep_view(), j as int)),
            None => sdec_str_list(buf@, i as int) is None,
        },
{
    let (n, mut j) = match read_u64(buf, i) {
        None => { return None; },
        Some(p) => p,
    };
    let mut v: Vec<String> = Vec::new();
    let mut left: u64 = n;
    while left > 0
        invariant
            v.deep_view().len() == v@.len(),
            forall|m: int| 0 <= m < v@.len() ==> v.deep_view()[m] == v@[m]@,
            sdec_str_seq(buf@, i as int + 8, n as nat) == match sdec_str_seq(
                buf@,
                j as int,
                left as nat,
            ) {
                None => None::<(Seq<Seq<char>>, int)>,
                Some((rest, k)) => Some((v.deep_view() + rest, k)),
            },
            sdec_u64(buf@, i as int) == Some((n, i as int + 8)),
        decreases left,
    {
        let (s, j2) = match read_str(buf, j) {
            None => {
                proof {
                    assert(sdec_str_seq(buf@, j as int, left as nat) is None);
                }
                return None;
            },
            Some(p) => p,
        };
        proof {
            let ghost rem = sdec_str_seq(buf@, j2 as int, (left - 1) as nat);
            if rem is Some {
                let ghost (rest, k) = rem->0;
                assert(v.deep_view().push(s@) + rest =~= v.deep_view() + (seq![s@] + rest));
            }
        }
        let ghost prev = v.deep_view();
        v.push(s);
        proof {
            assert(v.deep_view() =~= prev.push(s@));
        }
        j = j2;
        left = left - 1;
    }
    proof {
        assert(sdec_str_seq(buf@, j as int, 0nat) == Some((Seq::<Seq<char>>::empty(), j as int)));
        assert(v.deep_view() + Seq::<Seq<char>>::empty() =~= v.deep_view());
    }
    Some((v, j))
}

/// Reading a string list back at the offset where it was written yields the
/// written list.
pub proof fn lemma_sdec_str_list_at(buf: Seq<u8>, i: int, l: Seq<Seq<char>>)
    requires
        0 <= i,
        i + enc_str_list(l).len() <= buf.len(),
        l.len() < 0x10000000000000000,
        forall|m: int| 0 <= m < l.len() ==> encode_utf8(l[m]).len() < 0x10000000000000000,
        buf.subrange(i, i + enc_str_list(l).len()) == enc_str_list(l),
    ensures
        sdec_str_list(buf, i) == Some((l, i + enc_str_list(l).len())),
{
    let whole = buf.subrange(i, i + enc_str_list(l).len());
    assert(forall|m: int| 0 <= m < whole.len() ==> #[trigger] whole[m] == buf[i + m]);
    assert(buf.subrange(i, i + 8) =~= enc_u64(l.len() as u64)) by {
        assert(forall|m: int| 0 <= m < 8 ==> #[trigger] buf.subrange(i, i + 8)[m] == whole[m]);
    }
    lemma_sdec_u64_at(buf, i, l.len() as u64);
    assert(buf.subrange(i + 8, i + 8 + enc_str_seq(l).len()) =~= enc_str_seq(l)) by {
        assert(forall|m: int| 0 <= m < enc_str_seq(l).len() ==> #[trigger] buf.subrange(
            i + 8,
            i + 8 + enc_str_seq(l).len(),
        )[m] == whole[8 + m]);
    }
    lemma_sdec_str_seq_at(buf, i + 8, l);
}

proof fn lemma_sdec_str_seq_at(buf: Seq<u8>, i: int, l: Seq<Seq<char>>)
    requires
        0 <= i,
        i + enc_str_seq(l).len() <= buf.len(),
        forall|m: int| 0 <= m < l.len() ==> encode_utf8(l[m]).len() < 0x10000000000000000,
        buf.subrange(i, i + enc_str_seq(l).len()) == enc_str_seq(l),
    ensures
        sdec_str_seq(buf, i, l.len()) == Some((l, i + enc_str_seq(l).len())),
    decreases l.len(),
{
    if l.len() == 0 {
        assert(sdec_str_seq(buf, i, 0nat) == Some((Seq::<Seq<char>>::empty(), i)));
        assert(l =~= Seq::<Seq<char>>::empty());
    } else {
        let head = enc_str(l[0]);
        let tail = enc_str_seq(l.drop_first());
        let whole = buf.subrange(i, i + enc_str_seq(l).len());
        assert(forall|m: int| 0 <= m < whole.len() ==> #[trigger] whole[m] == buf[i + m]);
        assert(buf.subrange(i, i + head.len()) =~= head) by {
            assert(forall|m: int| 0 <= m < head.len() ==> #[trigger] buf.subrange(i, i + head.len())[m]
                == whole[m]);
        }
        lemma_sdec_str_at(buf, i, l[0]);
        assert(buf.subrange(i + head.len(), i + head.len() + tail.len()) =~= tail) by {
            assert(forall|m: int| 0 <= m < tail.len() ==> #[trigger] buf.subrange(
                i + head.len(),
                i + head.len() + tail.len(),
            )[m] == whole[head.len() + m]);
        }
        lemma_sdec_str_seq_at(buf, i + head.len(), l.drop_first());
        assert(seq![l[0]] + l.drop_first() =~= l);
    }
}

// ---------------------------------------------------------------------------
// option round-trip lemmas
// ---------------------------------------------------------------------------

pub proof fn lemma_sdec_opt_str_at(buf: Seq<u8>, i: int, o: Option<Seq<char>>)
    requires
        0 <= i,
        i + enc_opt_str(o).len() <= buf.len(),
        o is Some ==> encode_utf8(o->0).len() < 0x10000000000000000,
        buf.subrange(i, i + enc_opt_str(o).len()) == enc_opt_str(o),
    ensures
        sdec_opt_str(buf, i) == Some((o, i + enc_opt_str(o).len())),
{
    let whole = buf.subrange(i, i + enc_opt_str(o).len());
    assert(forall|m: int| 0 <= m < whole.len() ==> #[trigger] whole[m] == buf[i + m]);
    match o {
        None => {
            assert(buf[i] == whole[0]);
        },
        Some(s) => {
            assert(buf[i] == whole[0]);
            assert(buf.subrange(i + 1, i + 1 + enc_str(s).len()) =~= enc_str(s)) by {
                assert(forall|m: int| 0 <= m < enc_str(s).len() ==> #[trigger] buf.subrange(
                    i + 1,
                    i + 1 + enc_str(s).len(),
                )[m] == whole[1 + m]);
            }
            lemma_sdec_str_at(buf, i + 1, s);
        },
    }
}

pub proof fn lemma_sdec_opt_bytes_at(buf: Seq<u8>, i: int, o: Option<Seq<u8>>)
    requires
        0 <= i,
        i + enc_opt_bytes(o).len() <= buf.len(),
        o is Some ==> o->0.len() < 0x10000000000000000,
        buf.subrange(i, i + enc_opt_bytes(o).len()) == enc_opt_bytes(o),
    ensures
        sdec_opt_bytes(buf, i) == Some((o, i + enc_opt_bytes(o).len())),
{
    let whole = buf.subrange(i, i + enc_opt_bytes(o).len());
    assert(forall|m: int| 0 <= m < whole.len() ==> #[trigger] whole[m] == buf[i + m]);
    match o {
        None => {
            assert(buf[i] == whole[0]);
        },
        Some(b) => {
            assert(buf[i] == whole[0]);
            assert(buf.subrange(i + 1, i + 1 + enc_bytes(b).len()) =~= enc_bytes(b)) by {
                assert(forall|m: int| 0 <= m < enc_bytes(b).len() ==> #[trigger] buf.subrange(
                    i + 1,
                    i + 1 + enc_bytes(b).len(),
                )[m] == whole[1 + m]);
            }
            lemma_sdec_bytes_at(buf, i + 1, b);
        },
    }
}

/// Splits a known concatenation inside `buf` into its two halves.
pub proof fn lemma_concat_sub(buf: Seq<u8>, a: Seq<u8>, b: Seq<u8>, i: int)
    requires
        0 <= i,
        i + a.len() + b.len() <= buf.len(),
        buf.subrange(i, i + a.len() + b.len()) == a + b,
    ensures
        buf.subrange(i, i + a.len()) == a,
        buf.subrange(i + a.len(), i + a.len() + b.len()) == b,
{
    let whole = buf.subrange(i, i + a.len() + b.len());
    assert(forall|m: int| 0 <= m < whole.len() ==> #[trigger] whole[m] == buf[i + m]);
    assert(buf.subrange(i, i + a.len()) =~= a) by {
        assert(forall|m: int| 0 <= m < a.len() ==> #[trigger] buf.subrange(i, i + a.len())[m]
            == whole[m]);
    }
    assert(buf.subrange(i + a.len(), i + a.len() + b.len()) =~= b) by {
        assert(forall|m: int| 0 <= m < b.len() ==> #[trigger] buf.subrange(
            i + a.len(),
            i + a.len() + b.len(),
        )[m] == whole[a.len() + m]);
    }
}

/// Concatenation is associative.
pub proof fn lemma_concat_assoc(a: Seq<u8>, b: Seq<u8>, c: Seq<u8>)
    ensures
        (a + b) + c == a + (b + c),
{
    assert((a + b) + c =~= a + (b + c));
}

pub proof fn lemma_sdec_u8_at(buf: Seq<u8>, i: int, x: u8)
    requires
        0 <= i,
        i + 1 <= buf.len(),
        buf[i] == x,
    ensures
        sdec_u8(buf, i) == Some((x, i + 1)),
{
}

} // verus!
