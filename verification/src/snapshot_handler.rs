//! The point-in-time snapshot: serializing the full store to a single JSON
//! object mapping string keys to string values, and reading such an image
//! back at startup.
//!
//! Writer and reader are both verified against the same grammar, so a saved
//! image always loads back to an observationally equal store.
use vstd::prelude::*;

use crate::cmd_helper::is_ws;
use crate::store::{lemma_map_of_push, map_of, Store};
use crate::types::SnapshotError;

verus! {

/// Lower-case hexadecimal digit for a value below sixteen.
pub open spec fn hex_digit(n: int) -> u8 {
    if n < 10 {
        (48 + n) as u8
    } else {
        (87 + n) as u8
    }
}

/// How one byte of a string is written inside a JSON string literal: quote
/// and backslash get a backslash escape, control bytes a `\u00..` escape,
/// anything else stands for itself.
pub open spec fn esc_byte(b: u8) -> Seq<u8> {
    if b == 34 {
        seq![92u8, 34]
    } else if b == 92 {
        seq![92u8, 92]
    } else if b < 32 {
        seq![92u8, 117, 48, 48, hex_digit(b as int / 16), hex_digit(b as int % 16)]
    } else {
        seq![b]
    }
}

/// The escaped form of a whole string.
pub open spec fn esc_bytes(s: Seq<u8>) -> Seq<u8>
    decreases s.len(),
{
    if s.len() == 0 {
        Seq::empty()
    } else {
        esc_byte(s[0]) + esc_bytes(s.skip(1))
    }
}

/// A JSON string literal: the escaped content between double quotes.
pub open spec fn enc_string(s: Seq<u8>) -> Seq<u8> {
    seq![34u8] + esc_bytes(s) + seq![34u8]
}

/// One `"key":"value"` member.
pub open spec fn enc_pair(p: (Seq<u8>, Seq<u8>)) -> Seq<u8> {
    enc_string(p.0) + seq![58u8] + enc_string(p.1)
}

/// The members joined by commas.
pub open spec fn enc_pairs(es: Seq<(Seq<u8>, Seq<u8>)>) -> Seq<u8>
    decreases es.len(),
{
    if es.len() == 0 {
        Seq::empty()
    } else if es.len() == 1 {
        enc_pair(es[0])
    } else {
        enc_pair(es[0]) + seq![44u8] + enc_pairs(es.skip(1))
    }
}

/// The full snapshot image: a JSON object of all entries, in storage order,
/// terminated by a line feed.
pub open spec fn snapshot_bytes(es: Seq<(Seq<u8>, Seq<u8>)>) -> Seq<u8> {
    seq![123u8] + enc_pairs(es) + seq![125u8, 10]
}

/// Escaping one more byte appends that byte's escape.
pub proof fn lemma_esc_bytes_push(s: Seq<u8>, b: u8)
    ensures
        esc_bytes(s.push(b)) == esc_bytes(s) + esc_byte(b),
    decreases s.len(),
{
    if s.len() == 0 {
        reveal_with_fuel(esc_bytes, 3);
        assert(s.push(b)[0] == b);
        assert(s.push(b).skip(1) =~= Seq::<u8>::empty());
        assert(esc_bytes(s.push(b)) =~= esc_bytes(s) + esc_byte(b));
    } else {
        assert(s.push(b)[0] == s[0]);
        assert(s.push(b).skip(1) =~= s.skip(1).push(b));
        lemma_esc_bytes_push(s.skip(1), b);
        assert(esc_byte(s[0]) + (esc_bytes(s.skip(1)) + esc_byte(b)) =~= (esc_byte(s[0])
            + esc_bytes(s.skip(1))) + esc_byte(b));
    }
}

/// Encoding one more pair appends a comma (except to an empty list) and the
/// pair's member text.
pub proof fn lemma_enc_pairs_push(es: Seq<(Seq<u8>, Seq<u8>)>, p: (Seq<u8>, Seq<u8>))
    ensures
        enc_pairs(es.push(p)) == if es.len() == 0 {
            enc_pair(p)
        } else {
            enc_pairs(es) + seq![44u8] + enc_pair(p)
        },
    decreases es.len(),
{
    if es.len() == 0 {
        reveal_with_fuel(enc_pairs, 2);
        assert(es.push(p) =~= seq![p]);
    } else if es.len() == 1 {
        reveal_with_fuel(enc_pairs, 3);
        assert(es.push(p)[0] == es[0]);
        assert(es.push(p).skip(1) =~= seq![p]);
    } else {
        assert(es.push(p)[0] == es[0]);
        assert(es.push(p).skip(1) =~= es.skip(1).push(p));
        lemma_enc_pairs_push(es.skip(1), p);
        assert(enc_pair(es[0]) + seq![44u8] + (enc_pairs(es.skip(1)) + seq![44u8] + enc_pair(p))
            =~= (enc_pair(es[0]) + seq![44u8] + enc_pairs(es.skip(1))) + seq![44u8] + enc_pair(p));
    }
}

/// The lower-case hexadecimal digit of a value below sixteen.
fn hex_digit_exec(n: u8) -> (r: u8)
    requires
        n < 16,
    ensures
        r == hex_digit(n as int),
{
    if n < 10 {
        48 + n
    } else {
        87 + n
    }
}

/// Appends the escaped form of `s` to `out`.
fn push_escaped(out: &mut Vec<u8>, s: &[u8])
    ensures
        final(out)@ == old(out)@ + esc_bytes(s@),
{
    let mut i: usize = 0;
    proof {
        assert(s@.take(0) =~= Seq::<u8>::empty());
    }
    while i < s.len()
        invariant
            i <= s.len(),
            out@ == old(out)@ + esc_bytes(s@.take(i as int)),
        decreases s.len() - i,
    {
        let b = s[i];
        proof {
            assert(s@.take(i + 1) =~= s@.take(i as int).push(s@[i as int]));
            lemma_esc_bytes_push(s@.take(i as int), s@[i as int]);
        }
        if b == 34 {
            out.push(92);
            out.push(34);
        } else if b == 92 {
            out.push(92);
            out.push(92);
        } else if b < 32 {
            out.push(92);
            out.push(117);
            out.push(48);
            out.push(48);
            out.push(hex_digit_exec(b / 16));
            out.push(hex_digit_exec(b % 16));
        } else {
            out.push(b);
        }
        proof {
            assert(out@ =~= old(out)@ + esc_bytes(s@.take(i + 1)));
        }
        i += 1;
    }
    proof {
        assert(s@.take(s@.len() as int) =~= s@);
    }
}

/// Appends the JSON string literal for `s` to `out`.
fn push_enc_string(out: &mut Vec<u8>, s: &[u8])
    ensures
        final(out)@ == old(out)@ + enc_string(s@),
{
    out.push(34);
    push_escaped(out, s);
    out.push(34);
    proof {
        assert(out@ =~= old(out)@ + enc_string(s@));
    }
}

/// Serializes the full store to its snapshot image.
pub fn snapshot_save(storage: &Store) -> (r: Vec<u8>)
    ensures
        r@ == snapshot_bytes(storage.kvs()),
{
    let mut out: Vec<u8> = Vec::new();
    out.push(123);
    proof {
        assert(storage.kvs().take(0) =~= Seq::<(Seq<u8>, Seq<u8>)>::empty());
        assert(out@ =~= seq![123u8] + enc_pairs(storage.kvs().take(0)));
    }
    let n = storage.entry_count();
    let mut i: usize = 0;
    while i < n
        invariant
            i <= n,
            n == storage.kvs().len(),
            out@ == seq![123u8] + enc_pairs(storage.kvs().take(i as int)),
        decreases n - i,
    {
        proof {
            assert(storage.kvs().take(i + 1) =~= storage.kvs().take(i as int).push(
                storage.kvs()[i as int],
            ));
            lemma_enc_pairs_push(storage.kvs().take(i as int), storage.kvs()[i as int]);
        }
        if i > 0 {
            out.push(44);
        }
        push_enc_string(&mut out, storage.key_at(i).as_slice());
        out.push(58);
        push_enc_string(&mut out, storage.val_at(i).as_slice());
        proof {
            assert(out@ =~= seq![123u8] + enc_pairs(storage.kvs().take(i + 1)));
        }
        i += 1;
    }
    out.push(125);
    out.push(10);
    proof {
        assert(storage.kvs().take(n as int) =~= storage.kvs());
        assert(out@ =~= snapshot_bytes(storage.kvs()));
    }
    out
}


/// Hexadecimal digit, either case.
pub open spec fn is_hex(b: u8) -> bool {
    (48 <= b && b <= 57) || (97 <= b && b <= 102) || (65 <= b && b <= 70)
}

/// Value of a hexadecimal digit.
pub open spec fn hex_val(b: u8) -> int {
    if 48 <= b && b <= 57 {
        b - 48
    } else if 97 <= b && b <= 102 {
        b - 87
    } else {
        b - 55
    }
}

/// Prepends one decoded byte to a string-body parse result.
pub open spec fn pfx_str(b: u8, r: Option<(Seq<u8>, Seq<u8>)>) -> Option<(Seq<u8>, Seq<u8>)> {
    match r {
        Option::None => Option::None,
        Option::Some((c, rest)) => Option::Some((seq![b] + c, rest)),
    }
}

/// Parses the body of a JSON string literal (the opening quote already
/// consumed): yields the decoded content and what follows the closing quote.
pub open spec fn parse_str_body(s: Seq<u8>) -> Option<(Seq<u8>, Seq<u8>)>
    decreases s.len(),
{
    if s.len() == 0 {
        Option::None
    } else if s[0] == 34 {
        Option::Some((Seq::empty(), s.skip(1)))
    } else if s[0] == 92 {
        if s.len() >= 2 && s[1] == 34 {
            pfx_str(34, parse_str_body(s.skip(2)))
        } else if s.len() >= 2 && s[1] == 92 {
            pfx_str(92, parse_str_body(s.skip(2)))
        } else if s.len() >= 6 && s[1] == 117 && s[2] == 48 && s[3] == 48 && is_hex(s[4]) && is_hex(
            s[5],
        ) && hex_val(s[4]) * 16 + hex_val(s[5]) < 32 {
            pfx_str((hex_val(s[4]) * 16 + hex_val(s[5])) as u8, parse_str_body(s.skip(6)))
        } else {
            Option::None
        }
    } else {
        pfx_str(s[0], parse_str_body(s.skip(1)))
    }
}

/// Parses a whole JSON string literal, opening quote included.
pub open spec fn parse_string(s: Seq<u8>) -> Option<(Seq<u8>, Seq<u8>)> {
    if s.len() >= 1 && s[0] == 34 {
        parse_str_body(s.skip(1))
    } else {
        Option::None
    }
}

/// A successful string-body parse consumes at least the closing quote.
pub proof fn lemma_parse_str_body_consumes(s: Seq<u8>)
    ensures
        parse_str_body(s) matches Some(r) ==> r.1.len() < s.len(),
    decreases s.len(),
{
    if s.len() == 0 {
    } else if s[0] == 34 {
    } else if s[0] == 92 {
        if s.len() >= 2 && (s[1] == 34 || s[1] == 92) {
            lemma_parse_str_body_consumes(s.skip(2));
        } else if s.len() >= 6 && s[1] == 117 && s[2] == 48 && s[3] == 48 && is_hex(s[4]) && is_hex(
            s[5],
        ) && hex_val(s[4]) * 16 + hex_val(s[5]) < 32 {
            lemma_parse_str_body_consumes(s.skip(6));
        }
    } else {
        lemma_parse_str_body_consumes(s.skip(1));
    }
}

/// A successful string parse consumes at least the two quotes.
pub proof fn lemma_parse_string_consumes(s: Seq<u8>)
    ensures
        parse_string(s) matches Some(r) ==> r.1.len() < s.len(),
{
    if s.len() >= 1 && s[0] == 34 {
        lemma_parse_str_body_consumes(s.skip(1));
    }
}

/// Parses one or more `"key":"value"` members separated by commas: yields
/// the pairs in order and what follows them.
pub open spec fn parse_pairs(s: Seq<u8>) -> Option<(Seq<(Seq<u8>, Seq<u8>)>, Seq<u8>)>
    decreases s.len(),
    via parse_pairs_decreases
{
    match parse_string(s) {
        Option::None => Option::None,
        Option::Some((k, r1)) => {
            if r1.len() >= 1 && r1[0] == 58 {
                match parse_string(r1.skip(1)) {
                    Option::None => Option::None,
                    Option::Some((v, r2)) => {
                        if r2.len() >= 1 && r2[0] == 44 {
                            match parse_pairs(r2.skip(1)) {
                                Option::None => Option::None,
                                Option::Some((ps, r3)) => Option::Some((seq![(k, v)] + ps, r3)),
                            }
                        } else {
                            Option::Some((seq![(k, v)], r2))
                        }
                    },
                }
            } else {
                Option::None
            }
        },
    }
}

#[via_fn]
proof fn parse_pairs_decreases(s: Seq<u8>) {
    lemma_parse_string_consumes(s);
    match parse_string(s) {
        Option::None => {},
        Option::Some((k, r1)) => {
            if r1.len() >= 1 && r1[0] == 58 {
                lemma_parse_string_consumes(r1.skip(1));
            }
        },
    }
}

/// Only whitespace bytes.
pub open spec fn all_ws(s: Seq<u8>) -> bool {
    forall|i: int| 0 <= i < s.len() ==> is_ws(s[i])
}

/// Parses a whole snapshot image: a JSON object of string members, followed
/// by nothing but whitespace.
pub open spec fn parse_snapshot(data: Seq<u8>) -> Option<Seq<(Seq<u8>, Seq<u8>)>> {
    if data.len() >= 1 && data[0] == 123 {
        let s = data.skip(1);
        if s.len() >= 1 && s[0] == 125 {
            if all_ws(s.skip(1)) {
                Option::Some(Seq::empty())
            } else {
                Option::None
            }
        } else {
            match parse_pairs(s) {
                Option::None => Option::None,
                Option::Some((ps, r)) => {
                    if r.len() >= 1 && r[0] == 125 && all_ws(r.skip(1)) {
                        Option::Some(ps)
                    } else {
                        Option::None
                    }
                },
            }
        }
    } else {
        Option::None
    }
}


/// Decoding inverts escaping: the body parser run on an escaped string,
/// its closing quote and any remainder yields the original string and the
/// remainder.
pub proof fn lemma_esc_roundtrip(c: Seq<u8>, rest: Seq<u8>)
    ensures
        parse_str_body(esc_bytes(c) + seq![34u8] + rest) == Option::Some((c, rest)),
    decreases c.len(),
{
    let s = esc_bytes(c) + seq![34u8] + rest;
    if c.len() == 0 {
        assert(s =~= seq![34u8] + rest);
        assert(s[0] == 34);
        assert(s.skip(1) =~= rest);
    } else {
        let b = c[0];
        let e = esc_byte(b);
        let tail = esc_bytes(c.skip(1)) + seq![34u8] + rest;
        assert(esc_bytes(c) == esc_byte(b) + esc_bytes(c.skip(1)));
        assert(s =~= e + tail);
        lemma_esc_roundtrip(c.skip(1), rest);
        if b == 34 {
            assert(s[0] == 92 && s[1] == 34 && s.len() >= 2);
            assert(s.skip(2) =~= tail);
            assert(seq![b] + c.skip(1) =~= c);
        } else if b == 92 {
            assert(s[0] == 92 && s[1] == 92 && s.len() >= 2);
            assert(s.skip(2) =~= tail);
            assert(seq![b] + c.skip(1) =~= c);
        } else if b < 32 {
            let h1 = hex_digit(b as int / 16);
            let h2 = hex_digit(b as int % 16);
            assert(s[0] == 92 && s[1] == 117 && s[2] == 48 && s[3] == 48 && s[4] == h1 && s[5]
                == h2 && s.len() >= 6);
            assert(b as int / 16 < 2);
            assert(is_hex(h1) && hex_val(h1) == b as int / 16);
            assert(0 <= b as int % 16 < 16);
            assert(is_hex(h2) && hex_val(h2) == b as int % 16);
            assert(b as int == 16 * (b as int / 16) + b as int % 16) by {
                vstd::arithmetic::div_mod::lemma_fundamental_div_mod(b as int, 16);
            }
            assert(hex_val(h1) * 16 + hex_val(h2) == b);
            assert(s.skip(6) =~= tail);
            assert(seq![b] + c.skip(1) =~= c);
        } else {
            assert(s[0] == b && b != 34 && b != 92);
            assert(s.skip(1) =~= tail);
            assert(seq![b] + c.skip(1) =~= c);
        }
    }
}

/// Decoding inverts string encoding, whatever follows the literal.
pub proof fn lemma_parse_string_of_enc(v: Seq<u8>, rest: Seq<u8>)
    ensures
        parse_string(enc_string(v) + rest) == Option::Some((v, rest)),
{
    let s = enc_string(v) + rest;
    assert(s[0] == 34);
    assert(s.len() >= 1);
    assert(s.skip(1) =~= esc_bytes(v) + seq![34u8] + rest);
    lemma_esc_roundtrip(v, rest);
}

/// Decoding inverts member-list encoding, up to a remainder that does not
/// begin with another separator.
pub proof fn lemma_pairs_roundtrip(es: Seq<(Seq<u8>, Seq<u8>)>, rest: Seq<u8>)
    requires
        es.len() >= 1,
        rest.len() >= 1,
        rest[0] != 44,
    ensures
        parse_pairs(enc_pairs(es) + rest) == Option::Some((es, rest)),
    decreases es.len(),
{
    let p = es[0];
    let s = enc_pairs(es) + rest;
    if es.len() == 1 {
        assert(enc_pairs(es) == enc_pair(p));
        let after_k = seq![58u8] + (enc_string(p.1) + rest);
        assert(s =~= enc_string(p.0) + after_k);
        lemma_parse_string_of_enc(p.0, after_k);
        assert(after_k[0] == 58);
        assert(after_k.skip(1) =~= enc_string(p.1) + rest);
        lemma_parse_string_of_enc(p.1, rest);
        assert(seq![(p.0, p.1)] =~= es);
    } else {
        assert(enc_pairs(es) == enc_pair(p) + seq![44u8] + enc_pairs(es.skip(1)));
        let after_v = seq![44u8] + (enc_pairs(es.skip(1)) + rest);
        let after_k = seq![58u8] + (enc_string(p.1) + after_v);
        assert(s =~= enc_string(p.0) + after_k);
        lemma_parse_string_of_enc(p.0, after_k);
        assert(after_k[0] == 58);
        assert(after_k.skip(1) =~= enc_string(p.1) + after_v);
        lemma_parse_string_of_enc(p.1, after_v);
        assert(after_v[0] == 44);
        assert(after_v.skip(1) =~= enc_pairs(es.skip(1)) + rest);
        lemma_pairs_roundtrip(es.skip(1), rest);
        assert(seq![(p.0, p.1)] + es.skip(1) =~= es);
    }
}

/// Round trip: the snapshot image of any entry sequence parses back to
/// exactly that sequence.
pub proof fn lemma_snapshot_roundtrip(es: Seq<(Seq<u8>, Seq<u8>)>)
    ensures
        parse_snapshot(snapshot_bytes(es)) == Option::Some(es),
{
    let data = snapshot_bytes(es);
    assert(data[0] == 123);
    let s = data.skip(1);
    assert(s =~= enc_pairs(es) + seq![125u8, 10]);
    if es.len() == 0 {
        assert(s =~= seq![125u8, 10]);
        assert(s[0] == 125);
        assert(s.skip(1) =~= seq![10u8]);
        assert(all_ws(seq![10u8])) by {
            assert(is_ws(seq![10u8][0]));
        }
        assert(es =~= Seq::<(Seq<u8>, Seq<u8>)>::empty());
    } else {
        assert(enc_pairs(es)[0] == 34) by {
            let p = es[0];
            assert(enc_pair(p)[0] == 34);
            if es.len() > 1 {
                assert(enc_pairs(es) == enc_pair(p) + seq![44u8] + enc_pairs(es.skip(1)));
            }
        }
        assert(s[0] == 34);
        lemma_pairs_roundtrip(es, seq![125u8, 10]);
        assert(parse_pairs(s) == Option::Some((es, seq![125u8, 10])));
        assert(seq![125u8, 10][0] == 125);
        assert(seq![125u8, 10].skip(1) =~= seq![10u8]);
        assert(all_ws(seq![10u8])) by {
            assert(is_ws(seq![10u8][0]));
        }
    }
}

/// Round trip at the store level: the image `SAVE` writes for a store parses
/// back to the store's own entries, whose mapping is the store's mapping.
pub proof fn lemma_save_load_roundtrip(storage: &Store)
    ensures
        parse_snapshot(snapshot_bytes(storage.kvs())) == Option::Some(storage.kvs()),
        map_of(storage.kvs()) == storage@,
{
    lemma_snapshot_roundtrip(storage.kvs());
    storage.lemma_view_is_map_of_kvs();
}


/// Hexadecimal digit test.
fn is_hex_exec(b: u8) -> (r: bool)
    ensures
        r == is_hex(b),
{
    (48 <= b && b <= 57) || (97 <= b && b <= 102) || (65 <= b && b <= 70)
}

/// Value of a hexadecimal digit.
fn hex_val_exec(b: u8) -> (r: u8)
    requires
        is_hex(b),
    ensures
        r as int == hex_val(b),
{
    if 48 <= b && b <= 57 {
        b - 48
    } else if 97 <= b && b <= 102 {
        b - 87
    } else {
        b - 55
    }
}

/// Whether everything from position `from` on is whitespace.
fn all_ws_from(data: &[u8], from: usize) -> (r: bool)
    requires
        from <= data@.len(),
    ensures
        r == all_ws(data@.skip(from as int)),
{
    let mut i: usize = from;
    while i < data.len()
        invariant
            from <= i <= data@.len(),
            forall|j: int| from <= j < i ==> is_ws(data@[j]),
        decreases data@.len() - i,
    {
        let b = data[i];
        if !(b == 32 || (9 <= b && b <= 13)) {
            proof {
                assert(data@.skip(from as int)[i - from] == data@[i as int]);
            }
            return false;
        }
        i += 1;
    }
    proof {
        assert forall|j: int| 0 <= j < data@.skip(from as int).len() implies is_ws(
            #[trigger] data@.skip(from as int)[j],
        ) by {
            assert(data@.skip(from as int)[j] == data@[j + from]);
        }
    }
    true
}

/// Scans one JSON string literal starting at position `i`; on success yields
/// the decoded content and the position after the closing quote.
fn parse_string_exec(data: &[u8], i: usize) -> (r: Option<(Vec<u8>, usize)>)
    requires
        i <= data@.len(),
    ensures
        match r {
            Some(cj) => {
                &&& parse_string(data@.skip(i as int)) == Option::Some(
                    (cj.0@, data@.skip(cj.1 as int)),
                )
                &&& i < cj.1 <= data@.len()
            },
            None => parse_string(data@.skip(i as int)) is None,
        },
{
    if i >= data.len() || data[i] != 34 {
        proof {
            if i < data@.len() {
                assert(data@.skip(i as int)[0] == data@[i as int]);
            }
        }
        return None;
    }
    proof {
        assert(data@.skip(i as int)[0] == data@[i as int]);
        assert(data@.skip(i as int).skip(1) =~= data@.skip(i + 1));
    }
    let mut acc: Vec<u8> = Vec::new();
    let mut cur: usize = i + 1;
    while cur < data.len()
        invariant
            i + 1 <= cur <= data@.len(),
            i < data@.len(),
            data@[i as int] == 34,
            parse_string(data@.skip(i as int)) == parse_str_body(data@.skip(i + 1)),
            (parse_str_body(data@.skip(cur as int)) matches Some(pr) ==> parse_str_body(
                data@.skip(i + 1),
            ) == Option::Some((acc@ + pr.0, pr.1))),
            (parse_str_body(data@.skip(cur as int)) is None ==> parse_str_body(data@.skip(i + 1))
                is None),
        decreases data@.len() - cur,
    {
        let ghost s = data@.skip(cur as int);
        proof {
            assert(s[0] == data@[cur as int]);
            assert(s.len() == data@.len() - cur);
        }
        let b = data[cur];
        if b == 34 {
            proof {
                assert(s.skip(1) =~= data@.skip(cur + 1));
                assert(parse_str_body(s) == Option::Some((Seq::<u8>::empty(), data@.skip(cur + 1))));
                assert(acc@ + Seq::<u8>::empty() =~= acc@);
            }
            return Some((acc, cur + 1));
        } else if b == 92 {
            if cur + 1 < data.len() && (data[cur + 1] == 34 || data[cur + 1] == 92) {
                let d = data[cur + 1];
                proof {
                    assert(s[1] == data@[cur + 1]);
                    assert(s.skip(2) =~= data@.skip(cur + 2));
                    assert(parse_str_body(s) == pfx_str(d, parse_str_body(data@.skip(cur + 2))));
                    assert(forall|c0: Seq<u8>| acc@ + (seq![d] + c0) =~= acc@.push(d) + c0);
                }
                acc.push(d);
                cur = cur + 2;
            } else if data.len() - cur > 5 && data[cur + 1] == 117 && data[cur + 2] == 48 && data[cur
                + 3] == 48 && is_hex_exec(data[cur + 4]) && is_hex_exec(data[cur + 5]) {
                let hi = hex_val_exec(data[cur + 4]);
                let lo = hex_val_exec(data[cur + 5]);
                let d = hi * 16 + lo;
                proof {
                    assert(s[1] == data@[cur + 1] && s[2] == data@[cur + 2] && s[3] == data@[cur + 3]
                        && s[4] == data@[cur + 4] && s[5] == data@[cur + 5]);
                }
                if d < 32 {
                    proof {
                        assert(s.skip(6) =~= data@.skip(cur + 6));
                        assert(parse_str_body(s) == pfx_str(
                            d,
                            parse_str_body(data@.skip(cur + 6)),
                        ));
                        assert(forall|c0: Seq<u8>| acc@ + (seq![d] + c0) =~= acc@.push(d) + c0);
                    }
                    acc.push(d);
                    cur = cur + 6;
                } else {
                    proof {
                        assert(parse_str_body(s) is None);
                    }
                    return None;
                }
            } else {
                proof {
                    if cur + 1 < data@.len() {
                        assert(s[1] == data@[cur + 1]);
                    }
                    if cur + 5 < data@.len() {
                        assert(s[1] == data@[cur + 1] && s[2] == data@[cur + 2] && s[3] == data@[cur
                            + 3] && s[4] == data@[cur + 4] && s[5] == data@[cur + 5]);
                    }
                    assert(parse_str_body(s) is None);
                }
                return None;
            }
        } else {
            proof {
                assert(s.skip(1) =~= data@.skip(cur + 1));
                assert(parse_str_body(s) == pfx_str(b, parse_str_body(data@.skip(cur + 1))));
                assert(forall|c0: Seq<u8>| acc@ + (seq![b] + c0) =~= acc@.push(b) + c0);
            }
            acc.push(b);
            cur = cur + 1;
        }
    }
    proof {
        assert(data@.skip(cur as int).len() == 0);
        assert(parse_str_body(data@.skip(cur as int)) is None);
    }
    None
}

/// Reads a snapshot image back into a store.
///
/// An empty image (absent or empty file) yields the empty store; a
/// well-formed image yields exactly the mapping it encodes; anything else is
/// a corrupt snapshot, reported as an error so startup can fail loudly
/// rather than silently discard persisted data.
pub fn snapshot_load(data: &[u8]) -> (r: Result<Store, SnapshotError>)
    ensures
        data@.len() == 0 ==> (r matches Ok(s) && s.wf() && s@ == Map::<Seq<u8>, Seq<u8>>::empty()),
        data@.len() > 0 ==> match r {
            Ok(s) => {
                &&& s.wf()
                &&& parse_snapshot(data@) matches Some(es) && s@ == map_of(es)
            },
            Err(_) => parse_snapshot(data@) is None,
        },
{
    if data.len() == 0 {
        return Ok(Store::new());
    }
    if data[0] != 123 {
        return Err(SnapshotError::Corrupt);
    }
    if data.len() >= 2 && data[1] == 125 {
        proof {
            assert(data@.skip(1)[0] == data@[1]);
            assert(data@.skip(1).skip(1) =~= data@.skip(2));
        }
        if all_ws_from(data, 2) {
            let st = Store::new();
            proof {
                assert(map_of(Seq::<(Seq<u8>, Seq<u8>)>::empty()) =~= Map::<
                    Seq<u8>,
                    Seq<u8>,
                >::empty());
            }
            return Ok(st);
        } else {
            return Err(SnapshotError::Corrupt);
        }
    }
    if data.len() < 2 {
        proof {
            assert(data@.skip(1).len() == 0);
        }
        return Err(SnapshotError::Corrupt);
    }
    proof {
        assert(data@.skip(1)[0] == data@[1]);
        assert(data@.skip(1)[0] != 125);
    }
    let mut st = Store::new();
    let ghost mut done: Seq<(Seq<u8>, Seq<u8>)> = Seq::empty();
    let mut i: usize = 1;
    loop
        invariant
            1 <= i <= data@.len(),
            data@.len() >= 2,
            data@[0] == 123,
            data@.skip(1)[0] != 125,
            st.wf(),
            st@ == map_of(done),
            (parse_pairs(data@.skip(i as int)) matches Some(pr) ==> parse_pairs(data@.skip(1))
                == Option::Some((done + pr.0, pr.1))),
            (parse_pairs(data@.skip(i as int)) is None ==> parse_pairs(data@.skip(1)) is None),
        decreases data@.len() - i,
    {
        let ghost s_i = data@.skip(i as int);
        match parse_string_exec(data, i) {
            None => {
                proof {
                    assert(parse_pairs(s_i) is None);
                }
                return Err(SnapshotError::Corrupt);
            },
            Some((k, j)) => {
                if j >= data.len() || data[j] != 58 {
                    proof {
                        if j < data@.len() {
                            assert(data@.skip(j as int)[0] == data@[j as int]);
                        } else {
                            assert(data@.skip(j as int).len() == 0);
                        }
                        assert(parse_pairs(s_i) is None);
                    }
                    return Err(SnapshotError::Corrupt);
                }
                proof {
                    assert(data@.skip(j as int)[0] == data@[j as int]);
                    assert(data@.skip(j as int).skip(1) =~= data@.skip(j + 1));
                }
                match parse_string_exec(data, j + 1) {
                    None => {
                        proof {
                            assert(parse_pairs(s_i) is None);
                        }
                        return Err(SnapshotError::Corrupt);
                    },
                    Some((v, j2)) => {
                        let ghost pair = (k@, v@);
                        proof {
                            lemma_map_of_push(done, k@, v@);
                            assert(done.push(pair) =~= done + seq![pair]);
                        }
                        st.set(k.as_slice(), v.as_slice());
                        if j2 < data.len() && data[j2] == 44 {
                            proof {
                                assert(data@.skip(j2 as int)[0] == data@[j2 as int]);
                                assert(data@.skip(j2 as int).skip(1) =~= data@.skip(j2 + 1));
                                assert forall|pr: (Seq<(Seq<u8>, Seq<u8>)>, Seq<u8>)|
                                    done + (seq![pair] + pr.0) =~= (done + seq![pair]) + pr.0 by {}
                                done = done + seq![pair];
                            }
                            i = j2 + 1;
                        } else {
                            proof {
                                if j2 < data@.len() {
                                    assert(data@.skip(j2 as int)[0] == data@[j2 as int]);
                                } else {
                                    assert(data@.skip(j2 as int).len() == 0);
                                }
                                assert(parse_pairs(s_i) == Option::Some(
                                    (seq![pair], data@.skip(j2 as int)),
                                ));
                                done = done + seq![pair];
                                assert(parse_pairs(data@.skip(1)) == Option::Some(
                                    (done, data@.skip(j2 as int)),
                                ));
                            }
                            if j2 < data.len() && data[j2] == 125 && all_ws_from(data, j2 + 1) {
                                proof {
                                    assert(data@.skip(j2 as int)[0] == data@[j2 as int]);
                                    assert(data@.skip(j2 as int).skip(1) =~= data@.skip(j2 + 1));
                                    assert(parse_snapshot(data@) == Option::Some(done));
                                }
                                return Ok(st);
                            } else {
                                proof {
                                    if j2 < data@.len() {
                                        assert(data@.skip(j2 as int)[0] == data@[j2 as int]);
                                        assert(data@.skip(j2 as int).skip(1) =~= data@.skip(
                                            j2 + 1,
                                        ));
                                    } else {
                                        assert(data@.skip(j2 as int).len() == 0);
                                    }
                                    assert(parse_snapshot(data@) is None);
                                }
                                return Err(SnapshotError::Corrupt);
                            }
                        }
                    },
                }
            },
        }
    }
}

} // verus!
