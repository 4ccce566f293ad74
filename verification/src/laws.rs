//! Proved laws tying the codec's pieces together: encoded bytes parse back
//! to the frame they came from, any strict prefix of them is merely
//! incomplete (never malformed, never a wrong frame), and the two-phase
//! `check` / `parse` agreement rests on both sharing one parsing model.

use vstd::prelude::*;

verus! {

use vstd::utf8::{encode_utf8, encode_utf8_valid_utf8, encode_utf8_decode_utf8};
use crate::frame::{
    CR, LF, FrameV, ProtocolError, SpecParse, SpecParseSeq, find_crlf, is_digit, all_digits,
    dec_val, spec_decimal, spec_parse, spec_parse_elems, dec_rep, no_crlf, wf_frame,
    spec_encode, spec_encode_seq,
};

/// Decimal digit strings consist of digits and are never empty.
pub proof fn lemma_dec_rep_digits(n: nat)
    ensures
        all_digits(dec_rep(n)),
        dec_rep(n).len() >= 1,
    decreases n,
{
    if n < 10 {
    } else {
        lemma_dec_rep_digits(n / 10);
        let s = dec_rep(n / 10);
        let d = ((48 + n % 10) as u8);
        assert forall|j: int| 0 <= j < s.push(d).len() implies is_digit(#[trigger] s.push(d)[j]) by {
            if j < s.len() {
                assert(s.push(d)[j] == s[j]);
            }
        }
    }
}

/// Reading back the digit string of `n` yields `n`.
pub proof fn lemma_dec_val_dec_rep(n: nat)
    ensures
        dec_val(dec_rep(n)) == n,
    decreases n,
{
    reveal_with_fuel(dec_val, 2);
    if n < 10 {
        let s = dec_rep(n);
        assert(s == seq![(48 + n) as u8]);
        assert(s.subrange(0, 0) =~= Seq::<u8>::empty());
        assert(dec_val(s.subrange(0, 0)) == 0);
        assert(s[0] == 48 + n);
        assert(dec_val(s) == (0 * 10 + (s[0] - 48)) as nat);
    } else {
        lemma_dec_val_dec_rep(n / 10);
        let s = dec_rep(n / 10);
        let d = ((48 + n % 10) as u8);
        assert(s.push(d).subrange(0, s.push(d).len() - 1) =~= s);
        assert(s.push(d)[s.push(d).len() - 1] == d);
        assert(n / 10 * 10 + n % 10 == n) by {
            vstd::arithmetic::div_mod::lemma_fundamental_div_mod(n as int, 10);
        }
    }
}

/// Where no terminator pair exists inside the buffer, the scan finds none.
pub proof fn lemma_find_crlf_none(b: Seq<u8>, pos: int)
    requires
        0 <= pos,
        forall|j: int| pos <= j && j + 2 <= b.len() ==> !(#[trigger] b[j] == CR && b[j + 1] == LF),
    ensures
        find_crlf(b, pos) is None,
    decreases b.len() - pos,
{
    if pos + 2 > b.len() {
    } else {
        lemma_find_crlf_none(b, pos + 1);
    }
}

/// The scan finds exactly the first terminator pair.
pub proof fn lemma_find_crlf_found(b: Seq<u8>, pos: int, i: int)
    requires
        0 <= pos <= i,
        i + 2 <= b.len(),
        b[i] == CR && b[i + 1] == LF,
        forall|j: int| pos <= j < i ==> !(#[trigger] b[j] == CR && b[j + 1] == LF),
    ensures
        find_crlf(b, pos) == Some(i),
    decreases i - pos,
{
    if pos == i {
    } else {
        lemma_find_crlf_found(b, pos + 1, i);
    }
}

/// A buffer region equal to `e.subrange(0, n)` agrees with `e` pointwise.
pub proof fn lemma_region_eq(b: Seq<u8>, pos: int, e: Seq<u8>, n: int)
    requires
        0 <= pos,
        0 <= n <= e.len(),
        pos + n <= b.len(),
        b.subrange(pos, pos + n) == e.subrange(0, n),
    ensures
        forall|k: int| pos <= k < pos + n ==> #[trigger] b[k] == e[k - pos],
{
    assert forall|k: int| pos <= k < pos + n implies #[trigger] b[k] == e[k - pos] by {
        assert(b.subrange(pos, pos + n)[k - pos] == b[k]);
        assert(e.subrange(0, n)[k - pos] == e[k - pos]);
    }
}

/// Every encoded frame takes at least its type byte and a terminator.
pub proof fn lemma_encode_min_len(f: FrameV)
    ensures
        spec_encode(f).len() >= 3,
{
    match f {
        FrameV::Integer(n) => {
            lemma_dec_rep_digits(n as nat);
        },
        FrameV::Bulk(d) => {
            lemma_dec_rep_digits(d.len());
        },
        FrameV::Array(fs) => {
            lemma_dec_rep_digits(fs.len());
        },
        _ => {},
    }
}

/// A scan that starts at line text whose terminator follows it stops exactly
/// at that terminator, and the text before it is the line.
pub proof fn lemma_line_scan(b: Seq<u8>, p: int, tb: Seq<u8>)
    requires
        0 <= p,
        p + tb.len() + 2 <= b.len(),
        no_crlf(tb),
        forall|k: int| p <= k < p + tb.len() ==> #[trigger] b[k] == tb[k - p],
        b[p + tb.len()] == CR,
        b[p + tb.len() + 1] == LF,
    ensures
        find_crlf(b, p) == Some(p + tb.len() as int),
        b.subrange(p, p + tb.len() as int) == tb,
{
    let i = p + tb.len() as int;
    assert forall|j: int| p <= j < i implies !(#[trigger] b[j] == CR && b[j + 1] == LF) by {
        if j < i - 1 {
            assert(b[j] == tb[j - p]);
            assert(b[j + 1] == tb[j + 1 - p]);
        } else {
            assert(b[j + 1] == CR);
        }
    }
    lemma_find_crlf_found(b, p, i);
    assert(b.subrange(p, i) =~= tb);
}

/// Digit strings contain no terminator pair.
pub proof fn lemma_digits_no_crlf(tb: Seq<u8>)
    requires
        all_digits(tb),
    ensures
        no_crlf(tb),
{
    assert forall|j: int| 0 <= j < tb.len() - 1 implies !(#[trigger] tb[j] == CR && tb[j + 1]
        == LF) by {
        assert(is_digit(tb[j]));
    }
}

/// Parsing at the start of a well-formed frame's encoded bytes yields
/// exactly that frame and consumes exactly its bytes, whatever follows.
pub proof fn lemma_parse_encoded(f: FrameV, b: Seq<u8>, pos: int)
    requires
        wf_frame(f),
        0 <= pos,
        pos + spec_encode(f).len() <= b.len(),
        b.subrange(pos, pos + spec_encode(f).len() as int) == spec_encode(f),
    ensures
        spec_parse(b, pos) == SpecParse::Parsed(f, pos + spec_encode(f).len() as int),
    decreases f,
{
    let e = spec_encode(f);
    let n = e.len() as int;
    assert(e.subrange(0, n) =~= e);
    lemma_region_eq(b, pos, e, n);
    lemma_encode_min_len(f);
    let p = pos + 1;
    match f {
        FrameV::Simple(t) => {
            let tb = encode_utf8(t);
            assert(b[pos] == e[0] && e[0] == 43);
            assert forall|k: int| p <= k < p + tb.len() implies #[trigger] b[k] == tb[k - p] by {
                assert(b[k] == e[k - pos]);
                assert(e[k - pos] == tb[k - pos - 1]);
            }
            assert(b[p + tb.len()] == CR && b[p + tb.len() + 1] == LF);
            lemma_line_scan(b, p, tb);
            encode_utf8_valid_utf8(t);
            encode_utf8_decode_utf8(t);
            assert(spec_parse(b, pos) == SpecParse::Parsed(FrameV::Simple(t), pos + n));
        },
        FrameV::Error(t) => {
            let tb = encode_utf8(t);
            assert(b[pos] == e[0] && e[0] == 45);
            assert forall|k: int| p <= k < p + tb.len() implies #[trigger] b[k] == tb[k - p] by {
                assert(b[k] == e[k - pos]);
                assert(e[k - pos] == tb[k - pos - 1]);
            }
            assert(b[p + tb.len()] == CR && b[p + tb.len() + 1] == LF);
            lemma_line_scan(b, p, tb);
            encode_utf8_valid_utf8(t);
            encode_utf8_decode_utf8(t);
            assert(spec_parse(b, pos) == SpecParse::Parsed(FrameV::Error(t), pos + n));
        },
        FrameV::Integer(v) => {
            let tb = dec_rep(v as nat);
            lemma_dec_rep_digits(v as nat);
            lemma_dec_val_dec_rep(v as nat);
            lemma_digits_no_crlf(tb);
            assert(b[pos] == e[0] && e[0] == 58);
            assert forall|k: int| p <= k < p + tb.len() implies #[trigger] b[k] == tb[k - p] by {
                assert(b[k] == e[k - pos]);
                assert(e[k - pos] == tb[k - pos - 1]);
            }
            assert(b[p + tb.len()] == CR && b[p + tb.len() + 1] == LF);
            lemma_line_scan(b, p, tb);
            assert(spec_decimal(tb) == Some(v));
            assert(spec_parse(b, pos) == SpecParse::Parsed(FrameV::Integer(v), pos + n));
        },
        FrameV::Null => {
            let tb = seq![45u8, 49u8];
            assert(b[pos] == e[0] && e[0] == 36);
            assert(b[p] == e[1] && e[1] == 45);
            assert(b[p + 1] == e[2] && e[2] == 49);
            assert(b[p + 2] == e[3] && e[3] == CR);
            assert(b[p + 3] == e[4] && e[4] == LF);
            assert(no_crlf(tb));
            assert forall|k: int| p <= k < p + tb.len() implies #[trigger] b[k] == tb[k - p] by {
                assert(b[k] == e[k - pos]);
            }
            lemma_line_scan(b, p, tb);
            assert(spec_parse(b, pos) == SpecParse::Parsed(FrameV::Null, pos + n));
        },
        FrameV::Bulk(d) => {
            let tb = dec_rep(d.len());
            lemma_dec_rep_digits(d.len());
            lemma_dec_val_dec_rep(d.len());
            lemma_digits_no_crlf(tb);
            assert(b[pos] == e[0] && e[0] == 36);
            assert forall|k: int| p <= k < p + tb.len() implies #[trigger] b[k] == tb[k - p] by {
                assert(b[k] == e[k - pos]);
                assert(e[k - pos] == tb[k - pos - 1]);
            }
            assert(b[p] == tb[0] && is_digit(tb[0]));
            assert(b[p + tb.len()] == CR && b[p + tb.len() + 1] == LF);
            lemma_line_scan(b, p, tb);
            assert(spec_decimal(tb) == Some(d.len() as u64));
            let start = p + tb.len() as int + 2;
            assert forall|m: int| 0 <= m < d.len() implies #[trigger] d[m] == b[start + m] by {
                assert(b[start + m] == e[start + m - pos]);
                assert(e[start + m - pos] == d[m]);
            }
            assert(b.subrange(start, start + d.len() as int) =~= d);
            assert(b[start + d.len()] == CR && b[start + d.len() + 1] == LF);
            assert(spec_parse(b, pos) == SpecParse::Parsed(FrameV::Bulk(d), pos + n));
        },
        FrameV::Array(fs) => {
            let tb = dec_rep(fs.len());
            lemma_dec_rep_digits(fs.len());
            lemma_dec_val_dec_rep(fs.len());
            lemma_digits_no_crlf(tb);
            assert(b[pos] == e[0] && e[0] == 42);
            assert forall|k: int| p <= k < p + tb.len() implies #[trigger] b[k] == tb[k - p] by {
                assert(b[k] == e[k - pos]);
                assert(e[k - pos] == tb[k - pos - 1]);
            }
            assert(b[p + tb.len()] == CR && b[p + tb.len() + 1] == LF);
            lemma_line_scan(b, p, tb);
            assert(spec_decimal(tb) == Some(fs.len() as u64));
            let q = p + tb.len() as int + 2;
            let es = spec_encode_seq(fs);
            assert forall|m: int| 0 <= m < es.len() implies #[trigger] es[m] == b[q + m] by {
                assert(b[q + m] == e[q + m - pos]);
                assert(e[q + m - pos] == es[m]);
            }
            assert(b.subrange(q, q + es.len() as int) =~= es);
            lemma_parse_elems_encoded(fs, b, q);
            assert(spec_parse(b, pos) == SpecParse::Parsed(FrameV::Array(fs), pos + n));
        },
    }
}

/// Parsing at the start of the concatenated encodings of well-formed frames
/// yields exactly those frames, consuming exactly their bytes.
pub proof fn lemma_parse_elems_encoded(fs: Seq<FrameV>, b: Seq<u8>, pos: int)
    requires
        forall|x: int| 0 <= x < fs.len() ==> wf_frame(#[trigger] fs[x]),
        0 <= pos,
        pos + spec_encode_seq(fs).len() <= b.len(),
        b.subrange(pos, pos + spec_encode_seq(fs).len() as int) == spec_encode_seq(fs),
    ensures
        spec_parse_elems(b, pos, fs.len() as int) == SpecParseSeq::Parsed(
            fs,
            pos + spec_encode_seq(fs).len() as int,
        ),
    decreases fs,
{
    let es = spec_encode_seq(fs);
    if fs.len() == 0 {
        assert(fs =~= Seq::<FrameV>::empty());
    } else {
        let f0 = fs[0];
        let rest = fs.subrange(1, fs.len() as int);
        let e0 = spec_encode(f0);
        let er = spec_encode_seq(rest);
        assert(es.subrange(0, es.len() as int) =~= es);
        lemma_region_eq(b, pos, es, es.len() as int);
        assert forall|m: int| 0 <= m < e0.len() implies #[trigger] e0[m] == b[pos + m] by {
            assert(b[pos + m] == es[m]);
            assert(es[m] == e0[m]);
        }
        assert(b.subrange(pos, pos + e0.len() as int) =~= e0);
        lemma_parse_encoded(f0, b, pos);
        lemma_encode_min_len(f0);
        let p2 = pos + e0.len() as int;
        assert forall|m: int| 0 <= m < er.len() implies #[trigger] er[m] == b[p2 + m] by {
            assert(b[p2 + m] == es[e0.len() + m]);
            assert(es[e0.len() + m] == er[m]);
        }
        assert(b.subrange(p2, p2 + er.len() as int) =~= er);
        lemma_parse_elems_encoded(rest, b, p2);
        assert(seq![f0] + rest =~= fs);
        assert(spec_parse_elems(b, pos, fs.len() as int) == SpecParseSeq::Parsed(
            fs,
            pos + es.len() as int,
        ));
    }
}

/// Round-trip law: the encoded bytes of a well-formed frame, fed to the
/// parser in one contiguous chunk — whatever bytes follow them — parse back
/// to exactly that frame, consuming exactly its bytes.
pub proof fn lemma_round_trip(f: FrameV, rest: Seq<u8>)
    requires
        wf_frame(f),
    ensures
        spec_parse(spec_encode(f) + rest, 0) == SpecParse::Parsed(
            f,
            spec_encode(f).len() as int,
        ),
{
    let b = spec_encode(f) + rest;
    assert(b.subrange(0, spec_encode(f).len() as int) =~= spec_encode(f));
    lemma_parse_encoded(f, b, 0);
}

/// A buffer that ends somewhere inside line text (or inside its terminator)
/// holds no terminator pair, so a line scan of it finds nothing.
pub proof fn lemma_prefix_no_terminator(b: Seq<u8>, p: int, tb: Seq<u8>)
    requires
        0 <= p <= b.len(),
        b.len() < p + tb.len() + 2,
        no_crlf(tb),
        forall|k: int| p <= k < b.len() && k < p + tb.len() ==> #[trigger] b[k] == tb[k - p],
        p + tb.len() < b.len() ==> b[p + tb.len()] == CR,
    ensures
        find_crlf(b, p) is None,
{
    assert forall|j: int| p <= j && j + 2 <= b.len() implies !(#[trigger] b[j] == CR && b[j + 1]
        == LF) by {
        if j + 1 < p + tb.len() {
            assert(b[j] == tb[j - p]);
            assert(b[j + 1] == tb[j + 1 - p]);
        } else {
            assert(b[j + 1] == CR);
        }
    }
    lemma_find_crlf_none(b, p);
}

/// Feeding any strict prefix of a well-formed frame's encoded bytes to the
/// parser yields `Incomplete`: never an error, never a wrong frame, and the
/// buffer is left for more input to complete.
pub proof fn lemma_parse_prefix_incomplete(f: FrameV, b: Seq<u8>, pos: int)
    requires
        wf_frame(f),
        0 <= pos <= b.len(),
        b.len() - pos < spec_encode(f).len(),
        b.subrange(pos, b.len() as int) == spec_encode(f).subrange(0, b.len() - pos),
    ensures
        spec_parse(b, pos) == SpecParse::Incomplete,
    decreases f,
{
    let e = spec_encode(f);
    let avail = b.len() - pos;
    lemma_region_eq(b, pos, e, avail);
    lemma_encode_min_len(f);
    if avail == 0 {
    } else {
        let p = pos + 1;
        match f {
            FrameV::Simple(t) => {
                let tb = encode_utf8(t);
                assert forall|k: int| p <= k < b.len() && k < p + tb.len() implies #[trigger] b[k]
                    == tb[k - p] by {
                    assert(b[k] == e[k - pos]);
                    assert(e[k - pos] == tb[k - pos - 1]);
                }
                lemma_prefix_no_terminator(b, p, tb);
            },
            FrameV::Error(t) => {
                let tb = encode_utf8(t);
                assert forall|k: int| p <= k < b.len() && k < p + tb.len() implies #[trigger] b[k]
                    == tb[k - p] by {
                    assert(b[k] == e[k - pos]);
                    assert(e[k - pos] == tb[k - pos - 1]);
                }
                lemma_prefix_no_terminator(b, p, tb);
            },
            FrameV::Integer(v) => {
                let tb = dec_rep(v as nat);
                lemma_dec_rep_digits(v as nat);
                lemma_digits_no_crlf(tb);
                assert forall|k: int| p <= k < b.len() && k < p + tb.len() implies #[trigger] b[k]
                    == tb[k - p] by {
                    assert(b[k] == e[k - pos]);
                    assert(e[k - pos] == tb[k - pos - 1]);
                }
                lemma_prefix_no_terminator(b, p, tb);
            },
            FrameV::Null => {
                let tb = seq![45u8, 49u8];
                assert(no_crlf(tb));
                if avail >= 2 {
                    assert(b[p] == e[1] && e[1] == 45);
                    assert forall|k: int| p <= k < b.len() && k < p + tb.len()
                        implies #[trigger] b[k] == tb[k - p] by {
                        assert(b[k] == e[k - pos]);
                    }
                    lemma_prefix_no_terminator(b, p, tb);
                }
            },
            FrameV::Bulk(d) => {
                let tb = dec_rep(d.len());
                lemma_dec_rep_digits(d.len());
                lemma_dec_val_dec_rep(d.len());
                lemma_digits_no_crlf(tb);
                if avail < 1 + tb.len() + 2 {
                    assert forall|k: int| p <= k < b.len() && k < p + tb.len()
                        implies #[trigger] b[k] == tb[k - p] by {
                        assert(b[k] == e[k - pos]);
                        assert(e[k - pos] == tb[k - pos - 1]);
                    }
                    if avail >= 2 {
                        assert(b[p] == tb[0] && is_digit(tb[0]));
                    }
                    lemma_prefix_no_terminator(b, p, tb);
                } else {
                    assert forall|k: int| p <= k < p + tb.len() implies #[trigger] b[k] == tb[k
                        - p] by {
                        assert(b[k] == e[k - pos]);
                        assert(e[k - pos] == tb[k - pos - 1]);
                    }
                    assert(b[p] == tb[0] && is_digit(tb[0]));
                    assert(b[p + tb.len()] == CR && b[p + tb.len() + 1] == LF);
                    lemma_line_scan(b, p, tb);
                    assert(spec_decimal(tb) == Some(d.len() as u64));
                }
            },
            FrameV::Array(fs) => {
                let tb = dec_rep(fs.len());
                lemma_dec_rep_digits(fs.len());
                lemma_dec_val_dec_rep(fs.len());
                lemma_digits_no_crlf(tb);
                if avail < 1 + tb.len() + 2 {
                    assert forall|k: int| p <= k < b.len() && k < p + tb.len()
                        implies #[trigger] b[k] == tb[k - p] by {
                        assert(b[k] == e[k - pos]);
                        assert(e[k - pos] == tb[k - pos - 1]);
                    }
                    if avail >= 2 {
                        assert(b[p] == tb[0] && is_digit(tb[0]));
                    }
                    lemma_prefix_no_terminator(b, p, tb);
                } else {
                    assert forall|k: int| p <= k < p + tb.len() implies #[trigger] b[k] == tb[k
                        - p] by {
                        assert(b[k] == e[k - pos]);
                        assert(e[k - pos] == tb[k - pos - 1]);
                    }
                    assert(b[p + tb.len()] == CR && b[p + tb.len() + 1] == LF);
                    lemma_line_scan(b, p, tb);
                    assert(spec_decimal(tb) == Some(fs.len() as u64));
                    let q = p + tb.len() as int + 2;
                    let es = spec_encode_seq(fs);
                    assert forall|m: int| 0 <= m < b.len() - q implies #[trigger] b[q + m]
                        == es[m] by {
                        assert(b[q + m] == e[q + m - pos]);
                        assert(e[q + m - pos] == es[m]);
                    }
                    assert(b.subrange(q, b.len() as int) =~= es.subrange(0, b.len() - q));
                    lemma_parse_elems_prefix(fs, b, q);
                }
            },
        }
    }
}

/// Feeding any strict prefix of the concatenated encodings of well-formed
/// frames to the element parser yields `Incomplete`.
pub proof fn lemma_parse_elems_prefix(fs: Seq<FrameV>, b: Seq<u8>, pos: int)
    requires
        forall|x: int| 0 <= x < fs.len() ==> wf_frame(#[trigger] fs[x]),
        0 <= pos <= b.len(),
        b.len() - pos < spec_encode_seq(fs).len(),
        b.subrange(pos, b.len() as int) == spec_encode_seq(fs).subrange(0, b.len() - pos),
    ensures
        spec_parse_elems(b, pos, fs.len() as int) == SpecParseSeq::Incomplete,
    decreases fs,
{
    let es = spec_encode_seq(fs);
    let avail = b.len() - pos;
    lemma_region_eq(b, pos, es, avail);
    if fs.len() == 0 {
        assert(es.len() == 0);
    } else {
        let f0 = fs[0];
        let rest = fs.subrange(1, fs.len() as int);
        let e0 = spec_encode(f0);
        let er = spec_encode_seq(rest);
        lemma_encode_min_len(f0);
        if avail < e0.len() {
            assert forall|m: int| 0 <= m < avail implies #[trigger] e0[m] == b[pos + m] by {
                assert(b[pos + m] == es[m]);
                assert(es[m] == e0[m]);
            }
            assert(b.subrange(pos, b.len() as int) =~= e0.subrange(0, avail));
            lemma_parse_prefix_incomplete(f0, b, pos);
        } else {
            assert forall|m: int| 0 <= m < e0.len() implies #[trigger] e0[m] == b[pos + m] by {
                assert(b[pos + m] == es[m]);
                assert(es[m] == e0[m]);
            }
            assert(b.subrange(pos, pos + e0.len() as int) =~= e0);
            lemma_parse_encoded(f0, b, pos);
            let p2 = pos + e0.len() as int;
            assert forall|m: int| 0 <= m < b.len() - p2 implies #[trigger] b[p2 + m] == er[m] by {
                assert(b[p2 + m] == es[e0.len() + m]);
                assert(es[e0.len() + m] == er[m]);
            }
            assert(b.subrange(p2, b.len() as int) =~= er.subrange(0, b.len() - p2));
            lemma_parse_elems_prefix(rest, b, p2);
        }
    }
}

/// Fragmentation independence: split the encoded bytes of a well-formed
/// frame at any offset. The first fragment alone is merely `Incomplete` —
/// nothing is consumed, nothing misread — and the reassembled whole parses
/// to exactly the frame a single delivery yields.
pub proof fn lemma_fragmentation_independence(f: FrameV, cut: int)
    requires
        wf_frame(f),
        0 <= cut <= spec_encode(f).len(),
    ensures
        cut < spec_encode(f).len() ==> spec_parse(spec_encode(f).subrange(0, cut), 0)
            == SpecParse::Incomplete,
        spec_encode(f).subrange(0, cut) + spec_encode(f).subrange(cut, spec_encode(f).len() as int)
            == spec_encode(f),
        spec_parse(spec_encode(f), 0) == SpecParse::Parsed(f, spec_encode(f).len() as int),
{
    let e = spec_encode(f);
    assert(e.subrange(0, cut) + e.subrange(cut, e.len() as int) =~= e);
    if cut < e.len() {
        let b = e.subrange(0, cut);
        assert(b.subrange(0, cut) =~= e.subrange(0, cut));
        lemma_parse_prefix_incomplete(f, b, 0);
    }
    lemma_round_trip(f, Seq::empty());
    assert(e + Seq::<u8>::empty() =~= e);
}

/// Only the exact `$-1` sentinel line decodes to `Null`: any other
/// negative-looking bulk header is a protocol error, not `Incomplete` and
/// not a frame.
pub proof fn lemma_negative_bulk_header(b: Seq<u8>, pos: int, i: int)
    requires
        0 <= pos,
        pos + 1 < b.len(),
        b[pos] == 36,
        b[pos + 1] == 45,
        find_crlf(b, pos + 1) == Some(i),
        b.subrange(pos + 1, i) != seq![45u8, 49u8],
    ensures
        spec_parse(b, pos) == SpecParse::Bad(ProtocolError::InvalidFormat),
{
}

/// An array header promising more frames than the buffer's complete
/// encodings supply is `Incomplete`: a partial array is never produced.
pub proof fn lemma_short_array_incomplete(count: u64, fs: Seq<FrameV>, b: Seq<u8>)
    requires
        fs.len() < count,
        forall|x: int| 0 <= x < fs.len() ==> wf_frame(#[trigger] fs[x]),
        b == seq![42u8] + dec_rep(count as nat) + seq![CR, LF] + spec_encode_seq(fs),
    ensures
        spec_parse(b, 0) == SpecParse::Incomplete,
{
    let tb = dec_rep(count as nat);
    let es = spec_encode_seq(fs);
    lemma_dec_rep_digits(count as nat);
    lemma_dec_val_dec_rep(count as nat);
    lemma_digits_no_crlf(tb);
    assert(b[0] == 42);
    assert forall|k: int| 1 <= k < 1 + tb.len() implies #[trigger] b[k] == tb[k - 1] by {
        assert(b[k] == tb[k - 1]);
    }
    assert(b[1 + tb.len() as int] == CR && b[2 + tb.len() as int] == LF);
    lemma_line_scan(b, 1, tb);
    assert(spec_decimal(tb) == Some(count));
    let q = 3 + tb.len() as int;
    assert forall|m: int| 0 <= m < es.len() implies #[trigger] es[m] == b[q + m] by {
        assert(b[q + m] == es[m]);
    }
    assert(b.subrange(q, q + es.len() as int) =~= es);
    lemma_parse_elems_exhausted(fs, b, q, count as int);
}

/// When the buffer ends exactly after `fs`'s encodings but more elements
/// were promised, parsing the elements is `Incomplete`.
pub proof fn lemma_parse_elems_exhausted(fs: Seq<FrameV>, b: Seq<u8>, pos: int, count: int)
    requires
        fs.len() < count,
        forall|x: int| 0 <= x < fs.len() ==> wf_frame(#[trigger] fs[x]),
        0 <= pos,
        b.len() == pos + spec_encode_seq(fs).len(),
        b.subrange(pos, pos + spec_encode_seq(fs).len() as int) == spec_encode_seq(fs),
    ensures
        spec_parse_elems(b, pos, count) == SpecParseSeq::Incomplete,
    decreases fs,
{
    let es = spec_encode_seq(fs);
    if fs.len() == 0 {
        assert(es.len() == 0);
    } else {
        let f0 = fs[0];
        let rest = fs.subrange(1, fs.len() as int);
        let e0 = spec_encode(f0);
        let er = spec_encode_seq(rest);
        lemma_encode_min_len(f0);
        assert(es.subrange(0, es.len() as int) =~= es);
        lemma_region_eq(b, pos, es, es.len() as int);
        assert forall|m: int| 0 <= m < e0.len() implies #[trigger] e0[m] == b[pos + m] by {
            assert(b[pos + m] == es[m]);
            assert(es[m] == e0[m]);
        }
        assert(b.subrange(pos, pos + e0.len() as int) =~= e0);
        lemma_parse_encoded(f0, b, pos);
        let p2 = pos + e0.len() as int;
        assert forall|m: int| 0 <= m < er.len() implies #[trigger] er[m] == b[p2 + m] by {
            assert(b[p2 + m] == es[e0.len() + m]);
            assert(es[e0.len() + m] == er[m]);
        }
        assert(b.subrange(p2, p2 + er.len() as int) =~= er);
        lemma_parse_elems_exhausted(rest, b, p2, count - 1);
    }
}

} // verus!
