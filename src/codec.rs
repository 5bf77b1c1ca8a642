use vstd::bytes::*;
use vstd::prelude::*;
use vstd::std_specs::iter::IteratorSpec;
use vstd::string::StrSliceExecFns;
use vstd::slice::slice_subrange;
use vstd::utf8::{char_is_scalar, char_u32_cast};

use crate::state::{hash_log_view, State, StateView};
use crate::types::{Error, WeatherResult};

verus! {

// A snapshot is a sequence of tagged fields in a fixed order. Integers are
// little-endian; a text is its length in characters (8 bytes) followed by
// each character's code (4 bytes each); the hash log is its entry count
// (8 bytes) followed by each entry's key and hash as texts.
pub const TAG_READING: u8 = 1;

pub const TAG_HASHES: u8 = 2;

pub const TAG_NAME: u8 = 3;

pub const TAG_SYMBOL: u8 = 4;

pub const TAG_TXID: u8 = 5;

pub open spec fn enc_i32(x: i32) -> Seq<u8> {
    spec_u32_to_le_bytes(x as u32)
}

pub open spec fn enc_reading(w: WeatherResult) -> Seq<u8> {
    enc_i32(w.temperature) + enc_i32(w.pressure) + enc_i32(w.humidity) + enc_i32(w.wind_speed)
}

pub open spec fn enc_chars(s: Seq<char>) -> Seq<u8>
    decreases s.len(),
{
    if s.len() == 0 {
        Seq::empty()
    } else {
        spec_u32_to_le_bytes(s[0] as u32) + enc_chars(s.drop_first())
    }
}

pub open spec fn enc_text(s: Seq<char>) -> Seq<u8> {
    spec_u64_to_le_bytes(s.len() as u64) + enc_chars(s)
}

pub open spec fn enc_pairs(p: Seq<(Seq<char>, Seq<char>)>) -> Seq<u8>
    decreases p.len(),
{
    if p.len() == 0 {
        Seq::empty()
    } else {
        enc_text(p[0].0) + enc_text(p[0].1) + enc_pairs(p.drop_first())
    }
}

/// The snapshot bytes of a state.
pub open spec fn encode_state(v: StateView) -> Seq<u8> {
    seq![TAG_READING] + enc_reading(v.weather) + seq![TAG_HASHES] + spec_u64_to_le_bytes(
        v.hashes.len() as u64,
    ) + enc_pairs(v.hashes) + seq![TAG_NAME] + enc_text(v.name) + seq![TAG_SYMBOL] + enc_text(
        v.symbol,
    ) + seq![TAG_TXID] + spec_u128_to_le_bytes(v.txid)
}

pub open spec fn text_fits(s: Seq<char>) -> bool {
    s.len() <= u64::MAX
}

/// Every length in the state fits the snapshot's 64-bit length fields, as it
/// does for any state held in memory.
pub open spec fn state_fits(v: StateView) -> bool {
    &&& v.hashes.len() <= u64::MAX
    &&& text_fits(v.name)
    &&& text_fits(v.symbol)
    &&& forall|i: int|
        #![trigger v.hashes[i]]
        0 <= i < v.hashes.len() ==> text_fits(v.hashes[i].0) && text_fits(v.hashes[i].1)
}

fn write_bytes(out: &mut Vec<u8>, bytes: Vec<u8>)
    ensures
        final(out)@ == old(out)@ + bytes@,
{
    let mut bytes = bytes;
    out.append(&mut bytes);
}

fn write_i32(out: &mut Vec<u8>, x: i32)
    ensures
        final(out)@ == old(out)@ + enc_i32(x),
{
    write_bytes(out, u32_to_le_bytes(x as u32));
}

fn write_text(out: &mut Vec<u8>, s: &String)
    ensures
        final(out)@ == old(out)@ + enc_text(s@),
        text_fits(s@),
{
    let n = s.as_str().unicode_len();
    write_bytes(out, u64_to_le_bytes(n as u64));
    let ghost pre = out@;
    let mut it = s.chars();
    let ghost mut k: int = 0;
    proof {
        broadcast use vstd::string::group_string_axioms;

        assert(s@.skip(0) =~= s@);
    }
    loop
        invariant
            0 <= k <= s@.len(),
            it.remaining() == s@.skip(k),
            out@ + enc_chars(s@.skip(k)) == pre + enc_chars(s@),
            it.obeys_prophetic_iter_laws(),
        ensures
            out@ == pre + enc_chars(s@),
        decreases s@.len() - k,
    {
        proof {
            broadcast use vstd::string::group_string_axioms;
        }
        match it.next() {
            Some(c) => {
                proof {
                    assert(s@.skip(k).drop_first() =~= s@.skip(k + 1));
                }
                let ghost before = out@;
                write_bytes(out, u32_to_le_bytes(c as u32));
                proof {
                    k = k + 1;
                    assert(out@ + enc_chars(s@.skip(k)) =~= before + enc_chars(s@.skip(k - 1)));
                }
            },
            None => {
                proof {
                    assert(s@.skip(k) =~= Seq::<char>::empty());
                    assert(out@ =~= out@ + enc_chars(s@.skip(k)));
                }
                break ;
            },
        }
    }
    proof {
        assert(out@ =~= old(out)@ + enc_text(s@));
    }
}

/// Writes the snapshot of a state.
pub fn save(s: &State) -> (r: Vec<u8>)
    ensures
        r@ == encode_state(s@),
        state_fits(s@),
{
    let mut out: Vec<u8> = Vec::new();
    out.push(TAG_READING);
    write_i32(&mut out, s.weather_data.temperature);
    write_i32(&mut out, s.weather_data.pressure);
    write_i32(&mut out, s.weather_data.humidity);
    write_i32(&mut out, s.weather_data.wind_speed);
    out.push(TAG_HASHES);
    let n = s.hashes.len();
    write_bytes(&mut out, u64_to_le_bytes(n as u64));
    let ghost hs = s@.hashes;
    let ghost pre = out@;
    let mut i: usize = 0;
    proof {
        assert(hs.skip(0) =~= hs);
    }
    while i < n
        invariant
            n == s.hashes@.len(),
            hs == s@.hashes,
            0 <= i <= n,
            out@ + enc_pairs(hs.skip(i as int)) == pre + enc_pairs(hs),
            forall|j: int| #![trigger hs[j]] 0 <= j < i ==> text_fits(hs[j].0) && text_fits(hs[j].1),
        decreases n - i,
    {
        let ghost before = out@;
        write_text(&mut out, &s.hashes[i].0);
        write_text(&mut out, &s.hashes[i].1.hash_value);
        proof {
            assert(hs[i as int] == (s.hashes@[i as int].0@, s.hashes@[i as int].1.hash_value@));
            assert(text_fits(hs[i as int].0) && text_fits(hs[i as int].1));
            assert(hs.skip(i as int).drop_first() =~= hs.skip(i + 1));
            assert(out@ + enc_pairs(hs.skip(i + 1)) =~= before + enc_pairs(hs.skip(i as int)));
        }
        i = i + 1;
    }
    proof {
        assert(hs.skip(n as int) =~= Seq::<(Seq<char>, Seq<char>)>::empty());
        assert(out@ =~= out@ + enc_pairs(hs.skip(n as int)));
    }
    out.push(TAG_NAME);
    write_text(&mut out, &s.name);
    out.push(TAG_SYMBOL);
    write_text(&mut out, &s.symbol);
    out.push(TAG_TXID);
    write_bytes(&mut out, u128_to_le_bytes(s.txid));
    proof {
        assert(out@ =~= encode_state(s@));
    }
    out
}

pub open spec fn dec_i32(b: Seq<u8>) -> i32 {
    spec_u32_from_le_bytes(b) as i32
}

pub open spec fn parse_tag(b: Seq<u8>, tag: u8) -> Option<Seq<u8>> {
    if b.len() >= 1 && b[0] == tag {
        Some(b.skip(1))
    } else {
        None
    }
}

pub open spec fn parse_reading(b: Seq<u8>) -> Option<(WeatherResult, Seq<u8>)> {
    if b.len() >= 16 {
        Some(
            (
                WeatherResult {
                    temperature: dec_i32(b.subrange(0, 4)),
                    pressure: dec_i32(b.subrange(4, 8)),
                    humidity: dec_i32(b.subrange(8, 12)),
                    wind_speed: dec_i32(b.subrange(12, 16)),
                },
                b.skip(16),
            ),
        )
    } else {
        None
    }
}

pub open spec fn parse_u64(b: Seq<u8>) -> Option<(u64, Seq<u8>)> {
    if b.len() >= 8 {
        Some((spec_u64_from_le_bytes(b.take(8)), b.skip(8)))
    } else {
        None
    }
}

/// The codes that `char` can hold: the Unicode scalar values.
pub open spec fn char_code_valid(u: u32) -> bool {
    u <= 0x10FFFF && !(0xD800 <= u <= 0xDFFF)
}

/// Prefixes `acc` to what a parse produced, keeping the rest it left.
pub open spec fn prepend<T>(acc: Seq<T>, o: Option<(Seq<T>, Seq<u8>)>) -> Option<(Seq<T>, Seq<u8>)> {
    match o {
        Some((x, r)) => Some((acc + x, r)),
        None => None,
    }
}

pub open spec fn parse_chars(b: Seq<u8>, n: nat) -> Option<(Seq<char>, Seq<u8>)>
    decreases n,
{
    if n == 0 {
        Some((Seq::empty(), b))
    } else if b.len() < 4 {
        None
    } else {
        let u = spec_u32_from_le_bytes(b.take(4));
        if !char_code_valid(u) {
            None
        } else {
            prepend(seq![u as char], parse_chars(b.skip(4), (n - 1) as nat))
        }
    }
}

pub open spec fn parse_text(b: Seq<u8>) -> Option<(Seq<char>, Seq<u8>)> {
    match parse_u64(b) {
        Some((n, r)) => parse_chars(r, n as nat),
        None => None,
    }
}

pub open spec fn parse_pairs(b: Seq<u8>, n: nat) -> Option<(Seq<(Seq<char>, Seq<char>)>, Seq<u8>)>
    decreases n,
{
    if n == 0 {
        Some((Seq::empty(), b))
    } else {
        match parse_text(b) {
            None => None,
            Some((k, r1)) => match parse_text(r1) {
                None => None,
                Some((h, r2)) => prepend(seq![(k, h)], parse_pairs(r2, (n - 1) as nat)),
            },
        }
    }
}

/// The state whose snapshot `b` is, if it is one.
pub open spec fn decode_state(b: Seq<u8>) -> Option<StateView> {
    match parse_tag(b, TAG_READING) {
        None => None,
        Some(b1) => match parse_reading(b1) {
            None => None,
            Some((w, b2)) => match parse_tag(b2, TAG_HASHES) {
                None => None,
                Some(b3) => match parse_u64(b3) {
                    None => None,
                    Some((n, b4)) => match parse_pairs(b4, n as nat) {
                        None => None,
                        Some((hs, b5)) => match parse_tag(b5, TAG_NAME) {
                            None => None,
                            Some(b6) => match parse_text(b6) {
                                None => None,
                                Some((name, b7)) => match parse_tag(b7, TAG_SYMBOL) {
                                    None => None,
                                    Some(b8) => match parse_text(b8) {
                                        None => None,
                                        Some((symbol, b9)) => match parse_tag(b9, TAG_TXID) {
                                            None => None,
                                            Some(b10) => if b10.len() == 16 {
                                                Some(
                                                    StateView {
                                                        weather: w,
                                                        hashes: hs,
                                                        name,
                                                        symbol,
                                                        txid: spec_u128_from_le_bytes(b10),
                                                    },
                                                )
                                            } else {
                                                None
                                            },
                                        },
                                    },
                                },
                            },
                        },
                    },
                },
            },
        },
    }
}

/// Relies on `char::from_u32`: `Some` exactly for the codes of Unicode
/// scalar values, holding the char with that code.
#[verifier::external_body]
fn char_from_u32(u: u32) -> (r: Option<char>)
    ensures
        r is Some <==> char_code_valid(u),
        r matches Some(c) ==> c as u32 == u,
{
    char::from_u32(u)
}

/// Relies on `String::push`: appends one char at the end.
#[verifier::external_body]
fn push_char(s: &mut String, c: char)
    ensures
        final(s)@ == old(s)@.push(c),
{
    s.push(c)
}

fn read_tag(b: &[u8], pos: usize, tag: u8) -> (r: bool)
    requires
        pos <= b@.len(),
    ensures
        r == parse_tag(b@.skip(pos as int), tag) is Some,
        r ==> pos + 1 <= b@.len() && parse_tag(b@.skip(pos as int), tag) == Some(b@.skip(pos + 1)),
{
    if pos < b.len() && b[pos] == tag {
        proof {
            assert(b@.skip(pos as int).skip(1) =~= b@.skip(pos + 1));
        }
        true
    } else {
        false
    }
}

fn read_i32(b: &[u8], pos: usize) -> (r: i32)
    requires
        pos + 4 <= b@.len(),
    ensures
        r == dec_i32(b@.subrange(pos as int, pos + 4)),
{
    let _len = b.len();
    let u = u32_from_le_bytes(slice_subrange(b, pos, pos + 4));
    #[verifier::truncate]
    (u as i32)
}

fn read_reading(b: &[u8], pos: usize) -> (r: Option<(WeatherResult, usize)>)
    requires
        pos <= b@.len(),
    ensures
        r is Some == parse_reading(b@.skip(pos as int)) is Some,
        r matches Some((w, p)) ==> pos <= p <= b@.len() && parse_reading(b@.skip(pos as int)) == Some(
            (w, b@.skip(p as int)),
        ),
{
    if b.len() - pos < 16 {
        return None;
    }
    let w = WeatherResult {
        temperature: read_i32(b, pos),
        pressure: read_i32(b, pos + 4),
        humidity: read_i32(b, pos + 8),
        wind_speed: read_i32(b, pos + 12),
    };
    proof {
        let t = b@.skip(pos as int);
        assert(t.subrange(0, 4) =~= b@.subrange(pos as int, pos + 4));
        assert(t.subrange(4, 8) =~= b@.subrange(pos + 4, pos + 8));
        assert(t.subrange(8, 12) =~= b@.subrange(pos + 8, pos + 12));
        assert(t.subrange(12, 16) =~= b@.subrange(pos + 12, pos + 16));
        assert(t.skip(16) =~= b@.skip(pos + 16));
    }
    Some((w, pos + 16))
}

fn read_u64(b: &[u8], pos: usize) -> (r: Option<(u64, usize)>)
    requires
        pos <= b@.len(),
    ensures
        r is Some == parse_u64(b@.skip(pos as int)) is Some,
        r matches Some((x, p)) ==> pos <= p <= b@.len() && parse_u64(b@.skip(pos as int)) == Some(
            (x, b@.skip(p as int)),
        ),
{
    if b.len() - pos < 8 {
        return None;
    }
    let x = u64_from_le_bytes(slice_subrange(b, pos, pos + 8));
    proof {
        assert(b@.skip(pos as int).take(8) =~= b@.subrange(pos as int, pos + 8));
        assert(b@.skip(pos as int).skip(8) =~= b@.skip(pos + 8));
    }
    Some((x, pos + 8))
}

fn read_chars(b: &[u8], pos: usize, n: u64) -> (r: Option<(String, usize)>)
    requires
        pos <= b@.len(),
    ensures
        r is Some == parse_chars(b@.skip(pos as int), n as nat) is Some,
        r matches Some((s, p)) ==> pos <= p <= b@.len() && parse_chars(b@.skip(pos as int), n as nat)
            == Some((s@, b@.skip(p as int))),
{
    let mut s = String::new();
    let mut p = pos;
    let mut i: u64 = 0;
    proof {
        assert(s@ + Seq::<char>::empty() =~= s@);
    }
    while i < n
        invariant
            pos <= p <= b@.len(),
            i <= n,
            parse_chars(b@.skip(pos as int), n as nat) == prepend(
                s@,
                parse_chars(b@.skip(p as int), (n - i) as nat),
            ),
        decreases n - i,
    {
        if b.len() - p < 4 {
            return None;
        }
        let u = u32_from_le_bytes(slice_subrange(b, p, p + 4));
        proof {
            assert(b@.skip(p as int).take(4) =~= b@.subrange(p as int, p + 4));
            assert(b@.skip(p as int).skip(4) =~= b@.skip(p + 4));
        }
        match char_from_u32(u) {
            None => {
                return None;
            },
            Some(c) => {
                let ghost before = s@;
                proof {
                    char_u32_cast(c, u);
                }
                push_char(&mut s, c);
                proof {
                    match parse_chars(b@.skip(p + 4), (n - i - 1) as nat) {
                        Some((cs, rest)) => {
                            assert(before + (seq![c] + cs) =~= s@ + cs);
                        },
                        None => {},
                    }
                }
                p = p + 4;
                i = i + 1;
            },
        }
    }
    proof {
        assert(s@ + Seq::<char>::empty() =~= s@);
    }
    Some((s, p))
}

fn read_text(b: &[u8], pos: usize) -> (r: Option<(String, usize)>)
    requires
        pos <= b@.len(),
    ensures
        r is Some == parse_text(b@.skip(pos as int)) is Some,
        r matches Some((s, p)) ==> pos <= p <= b@.len() && parse_text(b@.skip(pos as int)) == Some(
            (s@, b@.skip(p as int)),
        ),
{
    match read_u64(b, pos) {
        None => None,
        Some((n, p)) => read_chars(b, p, n),
    }
}

fn read_pairs(b: &[u8], pos: usize, n: u64) -> (r: Option<(Vec<(String, crate::types::Hash)>, usize)>)
    requires
        pos <= b@.len(),
    ensures
        r is Some == parse_pairs(b@.skip(pos as int), n as nat) is Some,
        r matches Some((v, p)) ==> pos <= p <= b@.len() && parse_pairs(b@.skip(pos as int), n as nat)
            == Some((hash_log_view(v@), b@.skip(p as int))),
{
    let mut log: Vec<(String, crate::types::Hash)> = Vec::new();
    let mut p = pos;
    let mut i: u64 = 0;
    proof {
        assert(hash_log_view(log@) + Seq::<(Seq<char>, Seq<char>)>::empty() =~= hash_log_view(
            log@,
        ));
    }
    while i < n
        invariant
            pos <= p <= b@.len(),
            i <= n,
            parse_pairs(b@.skip(pos as int), n as nat) == prepend(
                hash_log_view(log@),
                parse_pairs(b@.skip(p as int), (n - i) as nat),
            ),
        decreases n - i,
    {
        let (key, p1) = match read_text(b, p) {
            None => {
                return None;
            },
            Some(x) => x,
        };
        let (hash_value, p2) = match read_text(b, p1) {
            None => {
                return None;
            },
            Some(x) => x,
        };
        let ghost before = hash_log_view(log@);
        let ghost entry = (key@, hash_value@);
        log.push((key, crate::types::Hash { hash_value }));
        proof {
            assert(hash_log_view(log@) =~= before.push(entry));
            match parse_pairs(b@.skip(p2 as int), (n - i - 1) as nat) {
                Some((ps, rest)) => {
                    assert(before + (seq![entry] + ps) =~= hash_log_view(log@) + ps);
                },
                None => {},
            }
        }
        p = p2;
        i = i + 1;
    }
    proof {
        assert(hash_log_view(log@) + Seq::<(Seq<char>, Seq<char>)>::empty() =~= hash_log_view(
            log@,
        ));
    }
    Some((log, p))
}

/// Restores a state from its snapshot. Fails with `CorruptSnapshot` exactly
/// when the bytes are not a snapshot: a field is missing, truncated or out of
/// place, a tag or a character code is wrong, or bytes follow the last field.
pub fn load(b: &[u8]) -> (r: Result<State, Error>)
    ensures
        match decode_state(b@) {
            Some(v) => r matches Ok(s) && s@ == v,
            None => r == Err::<State, Error>(Error::CorruptSnapshot),
        },
{
    let len = b.len();
    proof {
        assert(b@.skip(0) =~= b@);
    }
    if !read_tag(b, 0, TAG_READING) {
        return Err(Error::CorruptSnapshot);
    }
    let (weather_data, p) = match read_reading(b, 1) {
        None => {
            return Err(Error::CorruptSnapshot);
        },
        Some(x) => x,
    };
    if !read_tag(b, p, TAG_HASHES) {
        return Err(Error::CorruptSnapshot);
    }
    let (n, p) = match read_u64(b, p + 1) {
        None => {
            return Err(Error::CorruptSnapshot);
        },
        Some(x) => x,
    };
    let (hashes, p) = match read_pairs(b, p, n) {
        None => {
            return Err(Error::CorruptSnapshot);
        },
        Some(x) => x,
    };
    if !read_tag(b, p, TAG_NAME) {
        return Err(Error::CorruptSnapshot);
    }
    let (name, p) = match read_text(b, p + 1) {
        None => {
            return Err(Error::CorruptSnapshot);
        },
        Some(x) => x,
    };
    if !read_tag(b, p, TAG_SYMBOL) {
        return Err(Error::CorruptSnapshot);
    }
    let (symbol, p) = match read_text(b, p + 1) {
        None => {
            return Err(Error::CorruptSnapshot);
        },
        Some(x) => x,
    };
    if !read_tag(b, p, TAG_TXID) {
        return Err(Error::CorruptSnapshot);
    }
    let p = p + 1;
    if len - p != 16 {
        return Err(Error::CorruptSnapshot);
    }
    let txid = u128_from_le_bytes(slice_subrange(b, p, len));
    proof {
        assert(b@.skip(p as int) =~= b@.subrange(p as int, b@.len() as int));
    }
    Ok(State { weather_data, hashes, name, symbol, txid })
}

proof fn lemma_i32_round_trip(x: i32)
    ensures
        enc_i32(x).len() == 4,
        dec_i32(enc_i32(x)) == x,
{
    lemma_auto_spec_u32_to_from_le_bytes();
    let u = x as u32;
    assert(spec_u32_to_le_bytes(u).len() == 4);
    assert(spec_u32_from_le_bytes(spec_u32_to_le_bytes(u)) == u);
    assert((u as i32) == x) by (bit_vector)
        requires
            u == x as u32,
    ;
}

proof fn lemma_reading_round_trip(w: WeatherResult, rest: Seq<u8>)
    ensures
        parse_reading(enc_reading(w) + rest) == Some((w, rest)),
{
    lemma_i32_round_trip(w.temperature);
    lemma_i32_round_trip(w.pressure);
    lemma_i32_round_trip(w.humidity);
    lemma_i32_round_trip(w.wind_speed);
    let b = enc_reading(w) + rest;
    assert(b.subrange(0, 4) =~= enc_i32(w.temperature));
    assert(b.subrange(4, 8) =~= enc_i32(w.pressure));
    assert(b.subrange(8, 12) =~= enc_i32(w.humidity));
    assert(b.subrange(12, 16) =~= enc_i32(w.wind_speed));
    assert(b.skip(16) =~= rest);
}

proof fn lemma_u64_round_trip(x: u64, rest: Seq<u8>)
    ensures
        parse_u64(spec_u64_to_le_bytes(x) + rest) == Some((x, rest)),
{
    lemma_auto_spec_u64_to_from_le_bytes();
    let b = spec_u64_to_le_bytes(x) + rest;
    assert(b.take(8) =~= spec_u64_to_le_bytes(x));
    assert(b.skip(8) =~= rest);
}

proof fn lemma_chars_round_trip(s: Seq<char>, rest: Seq<u8>)
    ensures
        parse_chars(enc_chars(s) + rest, s.len()) == Some((s, rest)),
    decreases s.len(),
{
    lemma_auto_spec_u32_to_from_le_bytes();
    if s.len() == 0 {
        assert(enc_chars(s) + rest =~= rest);
        assert(s =~= Seq::<char>::empty());
    } else {
        let c = s[0];
        let u = c as u32;
        let tail = s.drop_first();
        let b = enc_chars(s) + rest;
        assert(b =~= spec_u32_to_le_bytes(u) + (enc_chars(tail) + rest));
        assert(b.take(4) =~= spec_u32_to_le_bytes(u));
        assert(b.skip(4) =~= enc_chars(tail) + rest);
        char_is_scalar(c);
        char_u32_cast(c, u);
        lemma_chars_round_trip(tail, rest);
        assert(seq![c] + tail =~= s);
    }
}

proof fn lemma_text_round_trip(s: Seq<char>, rest: Seq<u8>)
    requires
        text_fits(s),
    ensures
        parse_text(enc_text(s) + rest) == Some((s, rest)),
{
    let n = s.len() as u64;
    assert(enc_text(s) + rest =~= spec_u64_to_le_bytes(n) + (enc_chars(s) + rest));
    lemma_u64_round_trip(n, enc_chars(s) + rest);
    lemma_chars_round_trip(s, rest);
}

proof fn lemma_pairs_round_trip(p: Seq<(Seq<char>, Seq<char>)>, rest: Seq<u8>)
    requires
        forall|i: int| #![trigger p[i]] 0 <= i < p.len() ==> text_fits(p[i].0) && text_fits(p[i].1),
    ensures
        parse_pairs(enc_pairs(p) + rest, p.len()) == Some((p, rest)),
    decreases p.len(),
{
    if p.len() == 0 {
        assert(enc_pairs(p) + rest =~= rest);
        assert(p =~= Seq::<(Seq<char>, Seq<char>)>::empty());
    } else {
        let tail = p.drop_first();
        assert(text_fits(p[0].0) && text_fits(p[0].1));
        assert forall|i: int| #![trigger tail[i]] 0 <= i < tail.len() implies text_fits(tail[i].0)
            && text_fits(tail[i].1) by {
            assert(tail[i] == p[i + 1]);
            assert(text_fits(p[i + 1].0) && text_fits(p[i + 1].1));
        }
        let r2 = enc_pairs(tail) + rest;
        let r1 = enc_text(p[0].1) + r2;
        assert(enc_pairs(p) + rest =~= enc_text(p[0].0) + r1);
        lemma_text_round_trip(p[0].0, r1);
        lemma_text_round_trip(p[0].1, r2);
        lemma_pairs_round_trip(tail, rest);
        assert(seq![(p[0].0, p[0].1)] + tail =~= p);
    }
}

proof fn lemma_tag(tag: u8, rest: Seq<u8>)
    ensures
        parse_tag(seq![tag] + rest, tag) == Some(rest),
{
    assert((seq![tag] + rest).skip(1) =~= rest);
}

/// A snapshot restores the state it was taken of: whatever the reading, the
/// hash log (its entries and their order), the name, the symbol and the
/// transaction counter, decoding the snapshot of a state gives that state.
pub proof fn lemma_snapshot_round_trip(v: StateView)
    requires
        state_fits(v),
    ensures
        decode_state(encode_state(v)) == Some(v),
{
    lemma_auto_spec_u128_to_from_le_bytes();
    let r10 = spec_u128_to_le_bytes(v.txid);
    let r9 = seq![TAG_TXID] + r10;
    let r8 = enc_text(v.symbol) + r9;
    let r7 = seq![TAG_SYMBOL] + r8;
    let r6 = enc_text(v.name) + r7;
    let r5 = seq![TAG_NAME] + r6;
    let r4 = enc_pairs(v.hashes) + r5;
    let n = v.hashes.len() as u64;
    let r3 = spec_u64_to_le_bytes(n) + r4;
    let r2 = seq![TAG_HASHES] + r3;
    let r1 = enc_reading(v.weather) + r2;
    let r0 = seq![TAG_READING] + r1;
    assert(encode_state(v) =~= r0);
    lemma_tag(TAG_READING, r1);
    lemma_reading_round_trip(v.weather, r2);
    lemma_tag(TAG_HASHES, r3);
    lemma_u64_round_trip(n, r4);
    lemma_pairs_round_trip(v.hashes, r5);
    lemma_tag(TAG_NAME, r6);
    lemma_text_round_trip(v.name, r7);
    lemma_tag(TAG_SYMBOL, r8);
    lemma_text_round_trip(v.symbol, r9);
    lemma_tag(TAG_TXID, r10);
}

proof fn lemma_i32_canonical(b: Seq<u8>)
    requires
        b.len() == 4,
    ensures
        enc_i32(dec_i32(b)) == b,
{
    lemma_auto_spec_u32_to_from_le_bytes();
    let u = spec_u32_from_le_bytes(b);
    assert(((u as i32) as u32) == u) by (bit_vector);
    assert(spec_u32_to_le_bytes(spec_u32_from_le_bytes(b)) == b);
}

proof fn lemma_reading_canonical(b: Seq<u8>)
    ensures
        parse_reading(b) matches Some((w, r)) ==> b == enc_reading(w) + r,
{
    if b.len() >= 16 {
        lemma_i32_canonical(b.subrange(0, 4));
        lemma_i32_canonical(b.subrange(4, 8));
        lemma_i32_canonical(b.subrange(8, 12));
        lemma_i32_canonical(b.subrange(12, 16));
        let w = (parse_reading(b)->0).0;
        assert(b =~= enc_reading(w) + b.skip(16));
    }
}

proof fn lemma_u64_canonical(b: Seq<u8>)
    ensures
        parse_u64(b) matches Some((x, r)) ==> b == spec_u64_to_le_bytes(x) + r,
{
    lemma_auto_spec_u64_to_from_le_bytes();
    if b.len() >= 8 {
        assert(spec_u64_to_le_bytes(spec_u64_from_le_bytes(b.take(8))) == b.take(8));
        assert(b =~= b.take(8) + b.skip(8));
    }
}

proof fn lemma_chars_canonical(b: Seq<u8>, n: nat)
    ensures
        parse_chars(b, n) matches Some((s, r)) ==> s.len() == n && b == enc_chars(s) + r,
    decreases n,
{
    lemma_auto_spec_u32_to_from_le_bytes();
    if n == 0 {
        assert(b =~= enc_chars(Seq::<char>::empty()) + b);
    } else if b.len() >= 4 {
        let u = spec_u32_from_le_bytes(b.take(4));
        lemma_chars_canonical(b.skip(4), (n - 1) as nat);
        if let Some((s, r)) = parse_chars(b, n) {
            let cs = (parse_chars(b.skip(4), (n - 1) as nat)->0).0;
            assert(s == seq![u as char] + cs);
            assert(s[0] as u32 == u);
            assert(s.drop_first() =~= cs);
            assert(spec_u32_to_le_bytes(u) == b.take(4));
            assert(enc_chars(s) == spec_u32_to_le_bytes(u) + enc_chars(cs));
            assert(b =~= b.take(4) + b.skip(4));
            assert(b =~= enc_chars(s) + r);
        }
    }
}

proof fn lemma_text_canonical(b: Seq<u8>)
    ensures
        parse_text(b) matches Some((s, r)) ==> text_fits(s) && b == enc_text(s) + r,
{
    lemma_u64_canonical(b);
    if let Some((n, r1)) = parse_u64(b) {
        lemma_chars_canonical(r1, n as nat);
        if let Some((s, r)) = parse_text(b) {
            assert(b =~= enc_text(s) + r);
        }
    }
}

proof fn lemma_pairs_canonical(b: Seq<u8>, n: nat)
    ensures
        parse_pairs(b, n) matches Some((p, r)) ==> {
            &&& p.len() == n
            &&& b == enc_pairs(p) + r
            &&& forall|i: int| #![trigger p[i]] 0 <= i < p.len() ==> text_fits(p[i].0) && text_fits(p[i].1)
        },
    decreases n,
{
    if n == 0 {
        assert(b =~= enc_pairs(Seq::<(Seq<char>, Seq<char>)>::empty()) + b);
    } else {
        lemma_text_canonical(b);
        if let Some((k, r1)) = parse_text(b) {
            lemma_text_canonical(r1);
            if let Some((h, r2)) = parse_text(r1) {
                lemma_pairs_canonical(r2, (n - 1) as nat);
                if let Some((p, r)) = parse_pairs(b, n) {
                    let ps = (parse_pairs(r2, (n - 1) as nat)->0).0;
                    assert(p == seq![(k, h)] + ps);
                    assert(p.drop_first() =~= ps);
                    assert(b =~= enc_pairs(p) + r);
                    assert forall|i: int| #![trigger p[i]] 0 <= i < p.len() implies text_fits(p[i].0)
                        && text_fits(p[i].1) by {
                        if i > 0 {
                            assert(p[i] == ps[i - 1]);
                        }
                    }
                }
            }
        }
    }
}

proof fn lemma_tag_canonical(b: Seq<u8>, tag: u8)
    ensures
        parse_tag(b, tag) matches Some(r) ==> b == seq![tag] + r,
{
    if b.len() >= 1 {
        assert(b =~= seq![b[0]] + b.skip(1));
    }
}

/// Snapshots are canonical: bytes that decode to a state are exactly the
/// snapshot of that state, so restoring and saving again gives the same bytes.
#[verifier::spinoff_prover]
#[verifier::rlimit(50)]
pub proof fn lemma_snapshot_canonical(b: Seq<u8>)
    ensures
        decode_state(b) matches Some(v) ==> state_fits(v) && encode_state(v) == b,
{
    lemma_auto_spec_u128_to_from_le_bytes();
    if let Some(v) = decode_state(b) {
        let b1 = parse_tag(b, TAG_READING)->0;
        let b2 = (parse_reading(b1)->0).1;
        let b3 = parse_tag(b2, TAG_HASHES)->0;
        let b4 = (parse_u64(b3)->0).1;
        let n = (parse_u64(b3)->0).0;
        let b5 = (parse_pairs(b4, n as nat)->0).1;
        let b6 = parse_tag(b5, TAG_NAME)->0;
        let b7 = (parse_text(b6)->0).1;
        let b8 = parse_tag(b7, TAG_SYMBOL)->0;
        let b9 = (parse_text(b8)->0).1;
        let b10 = parse_tag(b9, TAG_TXID)->0;
        lemma_tag_canonical(b, TAG_READING);
        lemma_reading_canonical(b1);
        lemma_tag_canonical(b2, TAG_HASHES);
        lemma_u64_canonical(b3);
        lemma_pairs_canonical(b4, n as nat);
        lemma_tag_canonical(b5, TAG_NAME);
        lemma_text_canonical(b6);
        lemma_tag_canonical(b7, TAG_SYMBOL);
        lemma_text_canonical(b8);
        lemma_tag_canonical(b9, TAG_TXID);
        assert(spec_u128_to_le_bytes(spec_u128_from_le_bytes(b10)) == b10);
        let w = (parse_reading(b1)->0).0;
        let hs = (parse_pairs(b4, n as nat)->0).0;
        let name = (parse_text(b6)->0).0;
        let symbol = (parse_text(b8)->0).0;
        assert(v == StateView { weather: w, hashes: hs, name, symbol, txid: spec_u128_from_le_bytes(b10) });
        assert(b == seq![TAG_READING] + (enc_reading(w) + (seq![TAG_HASHES] + (spec_u64_to_le_bytes(n) + (
            enc_pairs(hs) + (seq![TAG_NAME] + (enc_text(name) + (seq![TAG_SYMBOL] + (enc_text(symbol)
            + (seq![TAG_TXID] + b10))))))))));
        assert(b =~= encode_state(v));
    }
}

} // verus!
