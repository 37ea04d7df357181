//! What the RESP functions promise together: reading back an encoded frame
//! gives the frame, and the completeness check agrees with the parser.

use vstd::prelude::*;
use vstd::utf8::*;
use crate::decimal::{all_digits, int_digits, nat_digits, spec_parse_i64, lemma_parse_i64_of_digits, lemma_nat_digits_shape};
use crate::resp::{
    SpecFrame, SpecError, Scan, crlf, find_crlf, lemma_find_crlf_bounds, spec_get_line,
    spec_get_decimal, spec_check, spec_check_items, spec_parse, spec_parse_items, text_line,
    array_of, spec_serialize, serialize_all,
};

verus! {

broadcast use vstd::utf8::encode_utf8_decode_utf8, vstd::utf8::encode_utf8_valid_utf8;

/// `b` holds no `\r\n` pair.
pub open spec fn no_crlf(b: Seq<u8>) -> bool {
    forall|i: int| 0 <= i && i + 1 < b.len() ==> !(b[i] == 13 && #[trigger] b[i + 1] == 10)
}

/// A frame that its encoding reads back as: simple and error strings hold no
/// `\r\n`, and lengths and counts fit the `i64` that carries them.
pub open spec fn wire_safe(f: SpecFrame) -> bool
    decreases f,
{
    match f {
        SpecFrame::Simple(t) => no_crlf(encode_utf8(t)),
        SpecFrame::Error(t) => no_crlf(encode_utf8(t)),
        SpecFrame::Integer(_) => true,
        SpecFrame::Bulk(b) => b.len() <= i64::MAX,
        SpecFrame::Null => true,
        SpecFrame::Array(fs) => fs.len() <= i64::MAX && forall|i: int|
            0 <= i < fs.len() ==> wire_safe(#[trigger] fs[i]),
    }
}

/// Every byte of `b` is ASCII.
pub open spec fn ascii_bytes(b: Seq<u8>) -> bool {
    forall|i: int| 0 <= i < b.len() ==> b[i] < 128
}

/// ASCII bytes are well-formed UTF-8.
pub proof fn lemma_ascii_valid(b: Seq<u8>)
    requires
        ascii_bytes(b),
    ensures
        valid_utf8(b),
{
    assert(b.subrange(0, 0) =~= Seq::<u8>::empty());
    assert(partial_valid_utf8(b, 0));
    assert forall|i: int| 0 <= 0 <= i < b.len() <= b.len() implies #[trigger] is_leading_byte_width_1(b[i]) by {}
    partial_valid_utf8_extend_ascii_block(b, 0, b.len() as int);
    assert(b.subrange(0, b.len() as int) =~= b);
}

proof fn lemma_digits_line(d: Seq<u8>)
    requires
        d.len() > 0,
        forall|i: int| 0 <= i < d.len() ==> 45 <= #[trigger] d[i] <= 57,
    ensures
        ascii_bytes(d),
        no_crlf(d),
        valid_utf8(d),
{
    lemma_ascii_valid(d);
}

proof fn lemma_int_digits_shape(v: int)
    ensures
        int_digits(v).len() > 0,
        forall|i: int| 0 <= i < int_digits(v).len() ==> 45 <= #[trigger] int_digits(v)[i] <= 57,
{
    lemma_nat_digits_shape((if v < 0 { -v } else { v }) as nat);
    if v < 0 {
        let n = nat_digits((-v) as nat);
        assert forall|i: int| 0 <= i < int_digits(v).len() implies 45 <= #[trigger] int_digits(v)[i] <= 57 by {
            if i > 0 {
                assert(int_digits(v)[i] == n[i - 1]);
            }
        }
    }
}

/// `find_crlf` from `a` stops at the first `\r\n`, found at `b`.
pub proof fn lemma_find_crlf_first(s: Seq<u8>, a: int, b: int)
    requires
        0 <= a <= b,
        b + 1 < s.len(),
        s[b] == 13,
        s[b + 1] == 10,
        forall|i: int| a <= i < b ==> !(s[i] == 13 && #[trigger] s[i + 1] == 10),
    ensures
        find_crlf(s, a) == Some(b),
    decreases b - a,
{
    if a < b {
        assert(!(s[a] == 13 && s[a + 1] == 10));
        lemma_find_crlf_first(s, a + 1, b);
    }
}

/// A line holding `body` sits at `q` in `s`: the line reads back as `body`.
proof fn lemma_line_at(s: Seq<u8>, q: int, body: Seq<u8>)
    requires
        0 <= q,
        q + body.len() + 2 <= s.len(),
        s.subrange(q, q + body.len() + 2) == body + crlf(),
        no_crlf(body),
    ensures
        spec_get_line(s, q) == (Scan { res: Ok(body), end: q + body.len() + 2 }),
{
    let b = q + body.len();
    let w = body + crlf();
    let win = s.subrange(q, q + w.len());
    assert(s[b] == win[body.len() as int]);
    assert(s[b + 1] == win[body.len() as int + 1]);
    assert forall|i: int| q <= i < b implies !(s[i] == 13 && #[trigger] s[i + 1] == 10) by {
        assert(s[i] == win[i - q]);
        assert(s[i + 1] == win[i + 1 - q]);
        if i + 1 < b {
            assert(w[i - q] == body[i - q]);
            assert(w[i + 1 - q] == body[i - q + 1]);
        } else {
            assert(w[i + 1 - q] == 13);
        }
    }
    lemma_find_crlf_first(s, q, b);
    assert(s.subrange(q, b) =~= body) by {
        assert forall|i: int| 0 <= i < body.len() implies s.subrange(q, b)[i] == body[i] by {
            assert(s[q + i] == win[i]);
        }
    }
}

/// A decimal line holding the digits of `v` sits at `q`: it reads back as `v`.
proof fn lemma_decimal_at(s: Seq<u8>, q: int, v: i64)
    requires
        0 <= q,
        q + int_digits(v as int).len() + 2 <= s.len(),
        s.subrange(q, q + int_digits(v as int).len() + 2) == int_digits(v as int) + crlf(),
    ensures
        spec_get_decimal(s, q) == (Scan { res: Ok::<i64, SpecError>(v), end: q + int_digits(v as int).len() + 2 }),
{
    lemma_int_digits_shape(v as int);
    lemma_digits_line(int_digits(v as int));
    lemma_line_at(s, q, int_digits(v as int));
    lemma_parse_i64_of_digits(v);
}

/// The encoding of a list starts with the encoding of its first frame.
pub proof fn lemma_serialize_all_front(fs: Seq<SpecFrame>)
    requires
        fs.len() > 0,
    ensures
        serialize_all(fs) == spec_serialize(fs[0]) + serialize_all(fs.drop_first()),
    decreases fs.len(),
{
    if fs.len() == 1 {
        assert(fs.drop_last() =~= Seq::<SpecFrame>::empty());
        assert(fs.drop_first() =~= Seq::<SpecFrame>::empty());
        assert(spec_serialize(fs[0]) + Seq::<u8>::empty() =~= spec_serialize(fs[0]));
        assert(Seq::<u8>::empty() + spec_serialize(fs[0]) =~= spec_serialize(fs[0]));
    } else {
        lemma_serialize_all_front(fs.drop_last());
        assert(fs.drop_last().drop_first() =~= fs.drop_first().drop_last());
        assert(fs.drop_first().last() == fs.last());
        assert(fs.drop_last()[0] == fs[0]);
        assert(serialize_all(fs) =~= spec_serialize(fs[0]) + serialize_all(fs.drop_first()));
    }
}

/// A window of a buffer that holds `w` holds each part of `w` at the same offsets.
pub proof fn lemma_window(s: Seq<u8>, w: Seq<u8>, p: int, a: int, b: int)
    requires
        0 <= p,
        p + w.len() <= s.len(),
        s.subrange(p, p + w.len()) == w,
        0 <= a <= b <= w.len(),
    ensures
        s.subrange(p + a, p + b) == w.subrange(a, b),
{
    assert forall|i: int| 0 <= i < b - a implies #[trigger] s.subrange(p + a, p + b)[i] == w.subrange(a, b)[i] by {
        assert(s[p + a + i] == s.subrange(p, p + w.len())[a + i]);
    }
    assert(s.subrange(p + a, p + b) =~= w.subrange(a, b));
}

/// Reading back an encoded frame: wherever the encoding of a wire-safe frame
/// `f` sits in a buffer, the parser returns `f` and stops right after it.
pub proof fn lemma_parse_serialized(f: SpecFrame, s: Seq<u8>, p: int)
    requires
        wire_safe(f),
        0 <= p,
        p + spec_serialize(f).len() <= s.len(),
        s.subrange(p, p + spec_serialize(f).len()) == spec_serialize(f),
    ensures
        spec_parse(s, p) == (Scan { res: Ok::<SpecFrame, SpecError>(f), end: p + spec_serialize(f).len() }),
    decreases f,
{
    let w = spec_serialize(f);
    let q = p + 1;
    assert(s[p] == s.subrange(p, p + w.len())[0]);
    match f {
        SpecFrame::Simple(t) => {
            let e = encode_utf8(t);
            assert(w.subrange(1, w.len() as int) =~= e + crlf());
            lemma_window(s, w, p, 1, w.len() as int);
            lemma_line_at(s, q, e);
        },
        SpecFrame::Error(t) => {
            let e = encode_utf8(t);
            assert(w.subrange(1, w.len() as int) =~= e + crlf());
            lemma_window(s, w, p, 1, w.len() as int);
            lemma_line_at(s, q, e);
        },
        SpecFrame::Integer(v) => {
            assert(w.subrange(1, w.len() as int) =~= int_digits(v as int) + crlf());
            lemma_window(s, w, p, 1, w.len() as int);
            lemma_decimal_at(s, q, v);
        },
        SpecFrame::Bulk(b) => {
            let n = b.len() as i64;
            let h = nat_digits(b.len());
            let hl = h.len() as int;
            let bl = b.len() as int;
            assert(int_digits(n as int) == h);
            assert(w.subrange(1, 1 + hl + 2) =~= h + crlf());
            lemma_window(s, w, p, 1, 1 + hl + 2);
            lemma_decimal_at(s, q, n);
            let r = q + hl + 2;
            assert(w.subrange(1 + hl + 2, 1 + hl + 2 + bl) =~= b);
            lemma_window(s, w, p, 1 + hl + 2, 1 + hl + 2 + bl);
            assert(s[r + bl] == s.subrange(p, p + w.len())[1 + hl + 2 + bl]);
            assert(s[r + bl + 1] == s.subrange(p, p + w.len())[1 + hl + 2 + bl + 1]);
        },
        SpecFrame::Null => {
            assert(nat_digits(1) == seq![49u8]);
            assert(int_digits(-1) =~= seq![45u8, 49u8]);
            assert(w.subrange(1, 5) =~= int_digits(-1) + crlf());
            lemma_window(s, w, p, 1, 5);
            lemma_decimal_at(s, q, -1i64);
        },
        SpecFrame::Array(fs) => {
            let n = fs.len() as i64;
            let h = nat_digits(fs.len());
            let hl = h.len() as int;
            assert(int_digits(n as int) == h);
            assert(w.subrange(1, 1 + hl + 2) =~= h + crlf());
            lemma_window(s, w, p, 1, 1 + hl + 2);
            lemma_decimal_at(s, q, n);
            lemma_find_crlf_bounds(s, q);
            let r = q + hl + 2;
            assert(w.subrange(1 + hl + 2, w.len() as int) =~= serialize_all(fs));
            lemma_window(s, w, p, 1 + hl + 2, w.len() as int);
            lemma_parse_items_serialized(fs, s, r, seq![]);
            assert(Seq::<SpecFrame>::empty() + fs =~= fs);
        },
    }
}

/// Reading back the encodings of `fs` laid out one after another.
pub proof fn lemma_parse_items_serialized(fs: Seq<SpecFrame>, s: Seq<u8>, p: int, acc: Seq<SpecFrame>)
    requires
        forall|i: int| 0 <= i < fs.len() ==> wire_safe(#[trigger] fs[i]),
        0 <= p,
        p + serialize_all(fs).len() <= s.len(),
        s.subrange(p, p + serialize_all(fs).len()) == serialize_all(fs),
    ensures
        spec_parse_items(s, p, fs.len() as int, acc) == (Scan {
            res: Ok::<Seq<SpecFrame>, SpecError>(acc + fs),
            end: p + serialize_all(fs).len(),
        }),
    decreases fs,
{
    if fs.len() == 0 {
        assert(acc + fs =~= acc);
    } else {
        lemma_serialize_all_front(fs);
        let w = serialize_all(fs);
        let a = spec_serialize(fs[0]);
        let rest = fs.drop_first();
        assert(w.subrange(0, a.len() as int) =~= a);
        lemma_window(s, w, p, 0, a.len() as int);
        lemma_parse_serialized(fs[0], s, p);
        assert(a.len() > 0);
        assert(w.subrange(a.len() as int, w.len() as int) =~= serialize_all(rest));
        lemma_window(s, w, p, a.len() as int, w.len() as int);
        assert(decreases_to!(fs => rest));
        lemma_parse_items_serialized(rest, s, p + a.len(), acc.push(fs[0]));
        assert(acc.push(fs[0]) + rest =~= acc + fs);
    }
}


/// Every frame that checks moves the cursor forward and stays within the buffer.
pub proof fn lemma_check_advances(s: Seq<u8>, p: int)
    ensures
        spec_check(s, p).res is Ok ==> p < spec_check(s, p).end <= s.len(),
    decreases s.len() - p, 0int, 0int,
{
    if 0 <= p < s.len() {
        let q = p + 1;
        lemma_find_crlf_bounds(s, q);
        lemma_find_crlf_bounds(s, p);
        if s[p] == 42 {
            let d = spec_get_decimal(s, q);
            if let Ok(count) = d.res {
                if count > 0 {
                    lemma_check_items_advances(s, d.end, count as int);
                }
            }
        }
    }
}

/// Checking array items never moves the cursor back or past the buffer.
pub proof fn lemma_check_items_advances(s: Seq<u8>, p: int, n: int)
    requires
        p <= s.len(),
    ensures
        spec_check_items(s, p, n).res is Ok ==> p <= spec_check_items(s, p, n).end <= s.len(),
    decreases s.len() - p, 1int, n,
{
    if n > 0 {
        let f = spec_check(s, p);
        lemma_check_advances(s, p);
        if f.res is Ok && !(f.end <= p || f.end > s.len()) {
            lemma_check_items_advances(s, f.end, n - 1);
        }
    }
}

/// The completeness check agrees with the parser: wherever a frame parses,
/// the check succeeds and ends where the parser ends.
pub proof fn lemma_check_of_parse(s: Seq<u8>, p: int)
    ensures
        spec_parse(s, p).res is Ok ==> spec_check(s, p) == (Scan {
            res: Ok::<(), SpecError>(()),
            end: spec_parse(s, p).end,
        }),
    decreases s.len() - p, 0int, 0int,
{
    if 0 <= p < s.len() {
        let q = p + 1;
        lemma_find_crlf_bounds(s, q);
        lemma_find_crlf_bounds(s, p);
        if s[p] == 42 {
            let d = spec_get_decimal(s, q);
            if let Ok(count) = d.res {
                if count > 0 {
                    lemma_check_of_parse_items(s, d.end, count as int, seq![]);
                }
            }
        }
    }
}

/// The check of array items agrees with their parse.
pub proof fn lemma_check_of_parse_items(s: Seq<u8>, p: int, n: int, acc: Seq<SpecFrame>)
    ensures
        spec_parse_items(s, p, n, acc).res is Ok ==> spec_check_items(s, p, n) == (Scan {
            res: Ok::<(), SpecError>(()),
            end: spec_parse_items(s, p, n, acc).end,
        }),
    decreases s.len() - p, 1int, n,
{
    if n > 0 {
        let f = spec_parse(s, p);
        lemma_check_of_parse(s, p);
        if let Ok(fr) = f.res {
            if !(f.end <= p || f.end > s.len()) {
                lemma_check_of_parse_items(s, f.end, n - 1, acc.push(fr));
            }
        }
    }
}

/// The error a parse meets where a line of text inside a complete frame is
/// not UTF-8.
pub open spec fn utf8_failure(e: SpecError) -> bool {
    ||| e == SpecError::Invalid("invalid UTF-8 in simple string"@)
    ||| e == SpecError::Invalid("invalid UTF-8 in error string"@)
    ||| e == SpecError::Invalid("invalid UTF-8 in inline command"@)
}

/// Wherever the check passes, the parser either returns a frame and stops
/// where the check stopped, or fails on text that is not UTF-8.
pub proof fn lemma_parse_of_check(s: Seq<u8>, p: int)
    ensures
        spec_check(s, p).res is Ok ==> match spec_parse(s, p).res {
            Ok(_) => spec_parse(s, p).end == spec_check(s, p).end,
            Err(e) => utf8_failure(e),
        },
    decreases s.len() - p, 0int, 0int,
{
    if 0 <= p < s.len() {
        let q = p + 1;
        lemma_find_crlf_bounds(s, q);
        lemma_find_crlf_bounds(s, p);
        if s[p] == 42 {
            let d = spec_get_decimal(s, q);
            if let Ok(count) = d.res {
                if count > 0 {
                    lemma_parse_of_check_items(s, d.end, count as int, seq![]);
                }
            }
        }
    }
}

/// The parse of array items where their check passes.
pub proof fn lemma_parse_of_check_items(s: Seq<u8>, p: int, n: int, acc: Seq<SpecFrame>)
    ensures
        spec_check_items(s, p, n).res is Ok ==> match spec_parse_items(s, p, n, acc).res {
            Ok(_) => spec_parse_items(s, p, n, acc).end == spec_check_items(s, p, n).end,
            Err(e) => utf8_failure(e),
        },
    decreases s.len() - p, 1int, n,
{
    if n > 0 {
        let f = spec_check(s, p);
        lemma_parse_of_check(s, p);
        let g = spec_parse(s, p);
        if f.res is Ok && !(f.end <= p || f.end > s.len()) {
            if let Ok(fr) = g.res {
                lemma_parse_of_check_items(s, f.end, n - 1, acc.push(fr));
            }
        }
    }
}

/// The check and the parser agree both ways: where a frame parses the check
/// passes and stops at the same place, and where the check passes the parser
/// returns a frame that ends there, or fails only on text that is not UTF-8 —
/// never for want of bytes.
pub proof fn law_check_agrees_with_parse(s: Seq<u8>)
    ensures
        spec_parse(s, 0).res is Ok ==> spec_check(s, 0) == (Scan {
            res: Ok::<(), SpecError>(()),
            end: spec_parse(s, 0).end,
        }),
        spec_check(s, 0).res is Ok ==> match spec_parse(s, 0).res {
            Ok(_) => spec_parse(s, 0).end == spec_check(s, 0).end,
            Err(e) => utf8_failure(e),
        },
{
    lemma_check_of_parse(s, 0);
    lemma_parse_of_check(s, 0);
}

/// `s` and `t` hold the same bytes below `m`.
pub open spec fn same_upto(s: Seq<u8>, t: Seq<u8>, m: int) -> bool {
    &&& 0 <= m <= s.len()
    &&& m <= t.len()
    &&& forall|i: int| 0 <= i < m ==> s[i] == t[i]
}

/// A `\r\n` found below `m` is found the same way in a buffer that agrees
/// with `s` below `m`.
proof fn lemma_find_crlf_same(s: Seq<u8>, t: Seq<u8>, m: int, start: int)
    requires
        same_upto(s, t, m),
        0 <= start,
        find_crlf(s, start) matches Some(i) && i + 2 <= m,
    ensures
        find_crlf(t, start) == find_crlf(s, start),
    decreases s.len() - start,
{
    lemma_find_crlf_bounds(s, start);
    assert(s[start] == t[start]);
    assert(s[start + 1] == t[start + 1]);
    if !(s[start] == 13 && s[start + 1] == 10) {
        lemma_find_crlf_same(s, t, m, start + 1);
    }
}

/// Cut before the end of its first `\r\n`, a buffer holds no `\r\n` from
/// `start` on.
proof fn lemma_find_crlf_cut(s: Seq<u8>, k: int, start: int)
    requires
        0 <= start,
        0 <= k <= s.len(),
        find_crlf(s, start) matches Some(i) && k < i + 2,
    ensures
        find_crlf(s.subrange(0, k), start) is None,
    decreases s.len() - start,
{
    lemma_find_crlf_bounds(s, start);
    let t = s.subrange(0, k);
    if start + 1 < k {
        assert(t[start] == s[start]);
        assert(t[start + 1] == s[start + 1]);
        if !(s[start] == 13 && s[start + 1] == 10) {
            lemma_find_crlf_cut(s, k, start + 1);
        }
    }
}

/// A line read below `m` reads the same, as text and as a decimal, in a
/// buffer that agrees with `s` below `m`.
proof fn lemma_line_same(s: Seq<u8>, t: Seq<u8>, m: int, p: int)
    requires
        same_upto(s, t, m),
        0 <= p,
        spec_get_line(s, p).res is Ok,
        spec_get_line(s, p).end <= m,
    ensures
        spec_get_line(t, p) == spec_get_line(s, p),
        spec_get_decimal(t, p) == spec_get_decimal(s, p),
{
    lemma_find_crlf_bounds(s, p);
    lemma_find_crlf_same(s, t, m, p);
    let i = find_crlf(s, p)->Some_0;
    assert(t.subrange(p, i) =~= s.subrange(p, i));
}

/// A line cut before its `\r\n` is complete is incomplete, as text and as a
/// decimal.
proof fn lemma_line_cut(s: Seq<u8>, p: int, k: int)
    requires
        0 <= p <= k <= s.len(),
        spec_get_line(s, p).res is Ok,
        k < spec_get_line(s, p).end,
    ensures
        spec_get_line(s.subrange(0, k), p).res == Err::<Seq<u8>, SpecError>(SpecError::Incomplete),
        spec_get_decimal(s.subrange(0, k), p).res == Err::<i64, SpecError>(SpecError::Incomplete),
{
    lemma_find_crlf_cut(s, k, p);
}

/// A frame that checks below `m` checks the same in a buffer that agrees with
/// `s` below `m`.
pub proof fn lemma_check_same(s: Seq<u8>, t: Seq<u8>, m: int, p: int)
    requires
        same_upto(s, t, m),
        0 <= p,
        spec_check(s, p).res is Ok,
        spec_check(s, p).end <= m,
    ensures
        spec_check(t, p) == spec_check(s, p),
    decreases s.len() - p, 0int, 0int,
{
    lemma_check_advances(s, p);
    let q = p + 1;
    lemma_find_crlf_bounds(s, q);
    lemma_find_crlf_bounds(s, p);
    assert(s[p] == t[p]);
    let first = s[p];
    if first == 43 || first == 45 || first == 58 {
        lemma_line_same(s, t, m, q);
    } else if first == 36 {
        lemma_line_same(s, t, m, q);
        let d = spec_get_decimal(s, q);
        if let Ok(len) = d.res {
            if len >= 0 {
                let r = d.end;
                assert(s[r + len] == t[r + len]);
                assert(s[r + len + 1] == t[r + len + 1]);
            }
        }
    } else if first == 42 {
        let d = spec_get_decimal(s, q);
        if let Ok(count) = d.res {
            if count > 0 {
                lemma_check_items_advances(s, d.end, count as int);
            }
        }
        lemma_line_same(s, t, m, q);
        if let Ok(count) = d.res {
            if count > 0 {
                lemma_check_items_same(s, t, m, d.end, count as int);
            }
        }
    } else {
        lemma_line_same(s, t, m, p);
    }
}

/// Array items that check below `m` check the same in a buffer that agrees
/// with `s` below `m`.
pub proof fn lemma_check_items_same(s: Seq<u8>, t: Seq<u8>, m: int, p: int, n: int)
    requires
        same_upto(s, t, m),
        0 <= p,
        spec_check_items(s, p, n).res is Ok,
        spec_check_items(s, p, n).end <= m,
    ensures
        spec_check_items(t, p, n) == spec_check_items(s, p, n),
    decreases s.len() - p, 1int, n,
{
    if n > 0 {
        let f = spec_check(s, p);
        lemma_check_items_advances(s, f.end, n - 1);
        lemma_check_same(s, t, m, p);
        lemma_check_items_same(s, t, m, f.end, n - 1);
    }
}

/// A frame that checks, cut anywhere before its end, is incomplete.
pub proof fn lemma_check_cut(s: Seq<u8>, p: int, k: int)
    requires
        0 <= p <= k,
        spec_check(s, p).res is Ok,
        k < spec_check(s, p).end,
    ensures
        spec_check(s.subrange(0, k), p).res == Err::<(), SpecError>(SpecError::Incomplete),
    decreases s.len() - p, 0int, 0int,
{
    lemma_check_advances(s, p);
    let t = s.subrange(0, k);
    if p < k {
        let q = p + 1;
        lemma_find_crlf_bounds(s, q);
        lemma_find_crlf_bounds(s, p);
        assert(t[p] == s[p]);
        let first = s[p];
        if first == 43 || first == 45 || first == 58 {
            lemma_line_cut(s, q, k);
        } else if first == 36 {
            if q < k {
                let d = spec_get_decimal(s, q);
                if k < d.end {
                    lemma_line_cut(s, q, k);
                } else {
                    lemma_line_same(s, t, k, q);
                }
            }
        } else if first == 42 {
            let d = spec_get_decimal(s, q);
            if k < d.end {
                lemma_line_cut(s, q, k);
            } else {
                lemma_line_same(s, t, k, q);
                if let Ok(count) = d.res {
                    if count > 0 {
                        lemma_check_items_cut(s, d.end, count as int, k);
                    }
                }
            }
        } else {
            lemma_line_cut(s, p, k);
        }
    }
}

/// Array items that check, cut anywhere before their end, are incomplete.
pub proof fn lemma_check_items_cut(s: Seq<u8>, p: int, n: int, k: int)
    requires
        0 <= p <= k,
        spec_check_items(s, p, n).res is Ok,
        k < spec_check_items(s, p, n).end,
    ensures
        spec_check_items(s.subrange(0, k), p, n).res == Err::<(), SpecError>(SpecError::Incomplete),
    decreases s.len() - p, 1int, n,
{
    if n > 0 {
        let f = spec_check(s, p);
        lemma_check_advances(s, p);
        lemma_check_items_advances(s, f.end, n - 1);
        if k < f.end {
            lemma_check_cut(s, p, k);
        } else {
            lemma_check_same(s, s.subrange(0, k), k, p);
            lemma_check_items_cut(s, f.end, n - 1, k);
        }
    }
}

/// A complete frame is exactly as long as the check says: every shorter
/// prefix of it is incomplete, and bytes that follow it change nothing.
pub proof fn law_check_prefix_and_extension(s: Seq<u8>, extra: Seq<u8>, k: int)
    requires
        spec_check(s, 0).res is Ok,
    ensures
        0 <= k < spec_check(s, 0).end ==> spec_check(s.subrange(0, k), 0).res
            == Err::<(), SpecError>(SpecError::Incomplete),
        spec_check(s.subrange(0, spec_check(s, 0).end) + extra, 0) == spec_check(s, 0),
{
    lemma_check_advances(s, 0);
    let n = spec_check(s, 0).end;
    if 0 <= k < n {
        lemma_check_cut(s, 0, k);
    }
    let t = s.subrange(0, n) + extra;
    assert(same_upto(s, t, n)) by {
        assert forall|i: int| 0 <= i < n implies s[i] == t[i] by {
            assert(t[i] == s.subrange(0, n)[i]);
        }
    }
    lemma_check_same(s, t, n, 0);
}

/// Round trip of the wire format: the encoding of a wire-safe frame parses
/// back to the frame, and the completeness check accepts exactly that many
/// bytes.
pub proof fn law_serialize_then_parse(f: SpecFrame)
    requires
        wire_safe(f),
    ensures
        spec_parse(spec_serialize(f), 0) == (Scan {
            res: Ok::<SpecFrame, SpecError>(f),
            end: spec_serialize(f).len() as int,
        }),
        spec_check(spec_serialize(f), 0) == (Scan {
            res: Ok::<(), SpecError>(()),
            end: spec_serialize(f).len() as int,
        }),
{
    let w = spec_serialize(f);
    assert(w.subrange(0, w.len() as int) =~= w);
    lemma_parse_serialized(f, w, 0);
    lemma_check_of_parse(w, 0);
}

} // verus!
