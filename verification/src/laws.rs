//! Grammar lemmas: the decoder is sound and complete for `enc`.
//!
//! Soundness: whatever the decoder accepts, the consumed bytes are exactly
//! the encoding of the returned value.  Completeness: the encoding of any
//! well-formed value, wherever it stands in a buffer, decodes back to that
//! value.  Together these give the round-trip laws.

use vstd::prelude::*;
use crate::bencode::{
    dec, dec_at, dec_entries, dec_int, dec_items, dec_str, depth_le, digits_end, digits_of,
    digits_val, distinct_keys, enc, enc_pairs, enc_seq, enc_str, int_digits, is_digit, lookup,
    valid_value, BSpec, DEPTH_LIMIT,
};

verus! {

/// Bounds and content of a digit run: `digits_end` stays inside the buffer
/// and everything before it is a digit.
pub proof fn lemma_digits_end_props(s: Seq<u8>, pos: int)
    requires
        0 <= pos <= s.len(),
    ensures
        pos <= digits_end(s, pos) <= s.len(),
        forall|i: int| pos <= i < digits_end(s, pos) ==> is_digit(s[i]),
        digits_end(s, pos) < s.len() ==> !is_digit(s[digits_end(s, pos)]),
    decreases s.len() - pos,
{
    if pos < s.len() && is_digit(s[pos]) {
        lemma_digits_end_props(s, pos + 1);
    }
}

/// A run of digits whose first digit is not zero has a positive value.
pub proof fn lemma_digits_val_pos(t: Seq<u8>)
    requires
        t.len() >= 1,
        forall|i: int| 0 <= i < t.len() ==> is_digit(#[trigger] t[i]),
        t[0] != 48,
    ensures
        digits_val(t) >= 1,
    decreases t.len(),
{
    if t.len() == 1 {
        assert(t.drop_last() =~= Seq::<u8>::empty());
    } else {
        assert(t.drop_last()[0] == t[0]);
        lemma_digits_val_pos(t.drop_last());
    }
}

/// A digit run without a leading zero is the canonical spelling of its value.
pub proof fn lemma_digits_canonical(t: Seq<u8>)
    requires
        t.len() >= 1,
        forall|i: int| 0 <= i < t.len() ==> is_digit(#[trigger] t[i]),
        t[0] == 48 ==> t.len() == 1,
    ensures
        digits_of(digits_val(t)) == t,
    decreases t.len(),
{
    if t.len() == 1 {
        assert(t.drop_last() =~= Seq::<u8>::empty());
        assert(digits_val(t.drop_last()) == 0);
        assert(t.last() == t[0]);
        assert(digits_val(t) == digits_val(t.drop_last()) * 10 + (t.last() - 48) as nat);
        assert(digits_val(t) == (t[0] - 48) as nat);
        assert(digits_of(digits_val(t)) =~= t);
    } else {
        let front = t.drop_last();
        let d = (t.last() - 48) as nat;
        assert(front[0] == t[0]);
        lemma_digits_canonical(front);
        lemma_digits_val_pos(front);
        let m = digits_val(t);
        let mf = digits_val(front);
        assert(m == mf * 10 + d);
        assert(m / 10 == mf && m % 10 == d) by (nonlinear_arith)
            requires
                m == mf * 10 + d,
                0 <= d < 10,
                mf >= 1,
        ;
        assert(m >= 10) by (nonlinear_arith)
            requires
                m == mf * 10 + d,
                0 <= d,
                mf >= 1,
        ;
        assert(digits_of(m) == digits_of(mf) + seq![(48 + d) as u8]);
        assert(digits_of(m) =~= t);
    }
}

/// The digits of `n` are digits, value back to `n`, and start with zero
/// only for `n == 0` itself.
pub proof fn lemma_digits_of_props(n: nat)
    ensures
        digits_of(n).len() >= 1,
        forall|i: int| 0 <= i < digits_of(n).len() ==> is_digit(#[trigger] digits_of(n)[i]),
        digits_of(n)[0] == 48 <==> n == 0,
        digits_val(digits_of(n)) == n,
    decreases n,
{
    if n < 10 {
        let t = digits_of(n);
        assert(t == seq![(48 + n) as u8]);
        assert(t.drop_last() =~= Seq::<u8>::empty());
        assert(digits_val(t) == digits_val(t.drop_last()) * 10 + (t.last() - 48) as nat);
        assert(digits_val(t.drop_last()) == 0);
        assert(t.last() == (48 + n) as u8);
        assert(48 + n < 256);
        assert(t.last() == 48 + n);
        assert(digits_val(t) == n);
    } else {
        lemma_digits_of_props(n / 10);
        let t = digits_of(n);
        assert(n / 10 >= 1) by (nonlinear_arith)
            requires
                n >= 10,
        ;
        assert(t == digits_of(n / 10) + seq![(48 + n % 10) as u8]);
        assert(t[0] == digits_of(n / 10)[0]);
        assert(t.drop_last() =~= digits_of(n / 10));
        assert(digits_val(t) == digits_val(digits_of(n / 10)) * 10 + (n % 10));
        assert((n / 10) * 10 + n % 10 == n) by (nonlinear_arith);
    }
}

/// Soundness at byte strings: the consumed bytes are the string's encoding.
pub proof fn lemma_dec_str_sound(s: Seq<u8>, pos: int)
    requires
        0 <= pos <= s.len(),
    ensures
        dec_str(s, pos) matches Some((b, end)) ==> {
            &&& pos < end <= s.len()
            &&& s.subrange(pos, end) == enc_str(b)
        },
{
    lemma_digits_end_props(s, pos);
    let dend = digits_end(s, pos);
    let run = s.subrange(pos, dend);
    if dec_str(s, pos) is Some {
        let (b, end) = dec_str(s, pos)->Some_0;
        assert(forall|i: int| 0 <= i < run.len() ==> is_digit(#[trigger] run[i]));
        lemma_digits_canonical(run);
        let n = digits_val(run) as int;
        assert(b.len() == n);
        assert(enc_str(b) == run + seq![58u8] + b);
        assert(s.subrange(pos, end) =~= run + seq![58u8] + b);
    }
}

/// Soundness at integers: the consumed bytes are the integer's encoding.
pub proof fn lemma_dec_int_sound(s: Seq<u8>, pos: int)
    requires
        0 <= pos < s.len(),
        s[pos] == 105,
    ensures
        dec_int(s, pos) matches Some((v, end)) ==> {
            &&& pos < end <= s.len()
            &&& s.subrange(pos, end) == enc(v)
            &&& v matches BSpec::Int(n) && i64::MIN as int <= n <= i64::MAX as int
        },
{
    let neg = pos + 1 < s.len() && s[pos + 1] == 45;
    let numstart = if neg {
        pos + 2
    } else {
        pos + 1
    };
    lemma_digits_end_props(s, numstart);
    let dend = digits_end(s, numstart);
    let run = s.subrange(numstart, dend);
    if dec_int(s, pos) is Some {
        let (v, end) = dec_int(s, pos)->Some_0;
        assert(forall|i: int| 0 <= i < run.len() ==> is_digit(#[trigger] run[i]));
        lemma_digits_canonical(run);
        let m = digits_val(run) as int;
        let vi = if neg {
            -m
        } else {
            m
        };
        if neg {
            lemma_digits_val_pos(run);
            assert(int_digits(vi) == seq![45u8] + run);
            assert(s.subrange(pos, end) =~= seq![105u8] + (seq![45u8] + run) + seq![101u8]);
        } else {
            assert(int_digits(vi) == run);
            assert(s.subrange(pos, end) =~= seq![105u8] + run + seq![101u8]);
        }
    }
}

/// Soundness: whatever the decoder accepts at `pos`, the bytes it consumed
/// are exactly the encoding of the value it returned.
pub proof fn lemma_dec_sound(s: Seq<u8>, pos: int, d: nat)
    ensures
        dec_at(s, pos, d) matches Some((v, end)) ==> {
            &&& pos < end <= s.len()
            &&& s.subrange(pos, end) == enc(v)
        },
    decreases s.len() - pos, 0int,
{
    if 0 <= pos < s.len() {
        if s[pos] == 105 {
            lemma_dec_int_sound(s, pos);
        } else if is_digit(s[pos]) {
            lemma_dec_str_sound(s, pos);
        } else if s[pos] == 108 && d > 0 {
            lemma_dec_items_sound(s, pos + 1, (d - 1) as nat);
            let r = dec_items(s, pos + 1, (d - 1) as nat);
            if r is Some {
                let (items, end) = r->Some_0;
                assert(s.subrange(pos, end) =~= seq![108u8] + s.subrange(pos + 1, end));
                assert(seq![108u8] + (enc_seq(items) + seq![101u8]) =~= seq![108u8] + enc_seq(
                    items,
                ) + seq![101u8]);
            }
        } else if s[pos] == 100 && d > 0 {
            lemma_dec_entries_sound(s, pos + 1, (d - 1) as nat);
            let r = dec_entries(s, pos + 1, (d - 1) as nat);
            if r is Some {
                let (pairs, end) = r->Some_0;
                assert(s.subrange(pos, end) =~= seq![100u8] + s.subrange(pos + 1, end));
                assert(seq![100u8] + (enc_pairs(pairs) + seq![101u8]) =~= seq![100u8] + enc_pairs(
                    pairs,
                ) + seq![101u8]);
            }
        }
    }
}

/// Soundness over list bodies, terminator included.
pub proof fn lemma_dec_items_sound(s: Seq<u8>, pos: int, d: nat)
    ensures
        dec_items(s, pos, d) matches Some((items, end)) ==> {
            &&& pos < end <= s.len()
            &&& s.subrange(pos, end) == enc_seq(items) + seq![101u8]
        },
    decreases s.len() - pos, 1int,
{
    if 0 <= pos < s.len() {
        if s[pos] == 101 {
            assert(s.subrange(pos, pos + 1) =~= enc_seq(Seq::<BSpec>::empty()) + seq![101u8]);
        } else {
            lemma_dec_sound(s, pos, d);
            let r0 = dec_at(s, pos, d);
            if r0 is Some {
                let (v, end1) = r0->Some_0;
                if pos < end1 <= s.len() {
                    lemma_dec_items_sound(s, end1, d);
                    let r1 = dec_items(s, end1, d);
                    if r1 is Some {
                        let (rest, fin) = r1->Some_0;
                        assert((seq![v] + rest).subrange(1, (seq![v] + rest).len() as int)
                            =~= rest);
                        assert(enc_seq(seq![v] + rest) == enc(v) + enc_seq(rest));
                        assert(s.subrange(pos, fin) =~= s.subrange(pos, end1) + s.subrange(
                            end1,
                            fin,
                        ));
                        assert(s.subrange(pos, fin) =~= (enc(v) + enc_seq(rest)) + seq![101u8]);
                    }
                }
            }
        }
    }
}

/// Soundness over dictionary bodies, terminator included.
pub proof fn lemma_dec_entries_sound(s: Seq<u8>, pos: int, d: nat)
    ensures
        dec_entries(s, pos, d) matches Some((pairs, end)) ==> {
            &&& pos < end <= s.len()
            &&& s.subrange(pos, end) == enc_pairs(pairs) + seq![101u8]
        },
    decreases s.len() - pos, 1int,
{
    if 0 <= pos < s.len() {
        if s[pos] == 101 {
            assert(s.subrange(pos, pos + 1) =~= enc_pairs(Seq::<(Seq<u8>, BSpec)>::empty())
                + seq![101u8]);
        } else if is_digit(s[pos]) {
            lemma_dec_str_sound(s, pos);
            let rk = dec_str(s, pos);
            if rk is Some {
                let (k, mid) = rk->Some_0;
                if pos < mid <= s.len() {
                    lemma_dec_sound(s, mid, d);
                    let r0 = dec_at(s, mid, d);
                    if r0 is Some {
                        let (v, end1) = r0->Some_0;
                        if mid < end1 <= s.len() {
                            lemma_dec_entries_sound(s, end1, d);
                            let r1 = dec_entries(s, end1, d);
                            if r1 is Some {
                                let (rest, fin) = r1->Some_0;
                                assert((seq![(k, v)] + rest).subrange(
                                    1,
                                    (seq![(k, v)] + rest).len() as int,
                                ) =~= rest);
                                assert(enc_pairs(seq![(k, v)] + rest) == enc_str(k) + enc(v)
                                    + enc_pairs(rest));
                                assert(s.subrange(pos, fin) =~= s.subrange(pos, mid) + s.subrange(
                                    mid,
                                    end1,
                                ) + s.subrange(end1, fin));
                                assert(s.subrange(pos, fin) =~= (enc_str(k) + enc(v) + enc_pairs(
                                    rest,
                                )) + seq![101u8]);
                            }
                        }
                    }
                }
            }
        }
    }
}

/// Splitting a known subrange: when a stretch of the buffer reads `a + b`,
/// its two halves read `a` and `b`.
pub proof fn lemma_chop(s: Seq<u8>, pos: int, a: Seq<u8>, b: Seq<u8>)
    requires
        0 <= pos,
        pos + a.len() + b.len() <= s.len(),
        s.subrange(pos, pos + a.len() + b.len()) == a + b,
    ensures
        s.subrange(pos, pos + a.len() as int) == a,
        s.subrange(pos + a.len() as int, pos + a.len() + b.len()) == b,
{
    assert forall|i: int| 0 <= i < a.len() implies s.subrange(pos, pos + a.len() as int)[i]
        == a[i] by {
        assert(s.subrange(pos, pos + a.len() + b.len())[i] == (a + b)[i]);
    }
    assert(s.subrange(pos, pos + a.len() as int) =~= a);
    assert forall|i: int| 0 <= i < b.len() implies s.subrange(
        pos + a.len() as int,
        pos + a.len() + b.len(),
    )[i] == b[i] by {
        assert(s.subrange(pos + a.len() as int, pos + a.len() + b.len())[i] == s[pos + a.len()
            + i]);
        assert(s.subrange(pos, pos + a.len() + b.len())[a.len() + i] == s[pos + a.len() + i]);
        assert(s.subrange(pos, pos + a.len() + b.len())[a.len() + i] == (a + b)[a.len() + i]);
        assert((a + b)[a.len() + i] == b[i]);
    }
    assert(s.subrange(pos + a.len() as int, pos + a.len() + b.len()) =~= b);
}

/// `digits_end` stops exactly at the first non-digit.
pub proof fn lemma_digits_end_char(s: Seq<u8>, pos: int, q: int)
    requires
        0 <= pos <= q < s.len(),
        forall|i: int| pos <= i < q ==> is_digit(#[trigger] s[i]),
        !is_digit(s[q]),
    ensures
        digits_end(s, pos) == q,
    decreases q - pos,
{
    if pos < q {
        lemma_digits_end_char(s, pos + 1, q);
    }
}

/// Every encoding is at least two bytes long, and its first byte names
/// its variant.
pub proof fn lemma_enc_first(v: BSpec)
    ensures
        enc(v).len() >= 2,
        v matches BSpec::Int(n) ==> enc(v)[0] == 105,
        v matches BSpec::Str(b) ==> is_digit(enc(v)[0]),
        v matches BSpec::List(items) ==> enc(v)[0] == 108,
        v matches BSpec::Dict(pairs) ==> enc(v)[0] == 100,
        enc(v)[0] != 101,
{
    match v {
        BSpec::Int(n) => {
            if n < 0 {
                lemma_digits_of_props((-n) as nat);
            } else {
                lemma_digits_of_props(n as nat);
            }
        },
        BSpec::Str(b) => {
            lemma_digits_of_props(b.len());
            assert(enc(v)[0] == digits_of(b.len())[0]);
        },
        BSpec::List(items) => {},
        BSpec::Dict(pairs) => {},
    }
}

/// Completeness at byte strings: the encoding of a byte string, wherever
/// it stands, decodes back to it.
pub proof fn lemma_enc_dec_str(b: Seq<u8>, s: Seq<u8>, pos: int)
    requires
        0 <= pos,
        pos + enc_str(b).len() <= s.len(),
        s.subrange(pos, pos + enc_str(b).len()) == enc_str(b),
    ensures
        dec_str(s, pos) == Some((b, pos + enc_str(b).len())),
{
    lemma_digits_of_props(b.len());
    let dl = digits_of(b.len()).len() as int;
    assert(enc_str(b) =~= digits_of(b.len()) + (seq![58u8] + b));
    lemma_chop(s, pos, digits_of(b.len()), seq![58u8] + b);
    lemma_chop(s, pos + dl, seq![58u8], b);
    assert(s.subrange(pos + dl, pos + dl + 1)[0] == s[pos + dl]);
    assert(s[pos + dl] == 58);
    assert forall|i: int| pos <= i < pos + dl implies is_digit(#[trigger] s[i]) by {
        assert(s.subrange(pos, pos + dl)[i - pos] == digits_of(b.len())[i - pos]);
    }
    lemma_digits_end_char(s, pos, pos + dl);
    assert(s.subrange(pos, pos + dl) == digits_of(b.len()));
    assert(digits_val(s.subrange(pos, pos + dl)) == b.len());
}

/// Completeness at integers: the encoding of an integer in 64-bit range,
/// wherever it stands, decodes back to it.
pub proof fn lemma_enc_dec_int(n: int, s: Seq<u8>, pos: int)
    requires
        i64::MIN as int <= n <= i64::MAX as int,
        0 <= pos,
        pos + enc(BSpec::Int(n)).len() <= s.len(),
        s.subrange(pos, pos + enc(BSpec::Int(n)).len()) == enc(BSpec::Int(n)),
    ensures
        dec_int(s, pos) == Some((BSpec::Int(n), pos + enc(BSpec::Int(n)).len())),
{
    let e = enc(BSpec::Int(n));
    assert(s.subrange(pos, pos + e.len())[0] == s[pos]);
    if n < 0 {
        let run = digits_of((-n) as nat);
        lemma_digits_of_props((-n) as nat);
        let dl = run.len() as int;
        assert(e == seq![105u8] + (seq![45u8] + run) + seq![101u8]);
        assert(e =~= seq![105u8, 45u8] + (run + seq![101u8]));
        lemma_chop(s, pos, seq![105u8, 45u8], run + seq![101u8]);
        lemma_chop(s, pos + 2, run, seq![101u8]);
        assert(s.subrange(pos, pos + 2)[0] == s[pos]);
        assert(s.subrange(pos, pos + 2)[1] == s[pos + 1]);
        assert(s[pos + 1] == 45);
        assert(s.subrange(pos + 2 + dl, pos + 2 + dl + 1)[0] == s[pos + 2 + dl]);
        assert(s[pos + 2 + dl] == 101);
        assert forall|i: int| pos + 2 <= i < pos + 2 + dl implies is_digit(#[trigger] s[i]) by {
            assert(s.subrange(pos + 2, pos + 2 + dl)[i - pos - 2] == run[i - pos - 2]);
        }
        lemma_digits_end_char(s, pos + 2, pos + 2 + dl);
        assert(s.subrange(pos + 2, pos + 2 + dl) == run);
        assert(digits_val(s.subrange(pos + 2, pos + 2 + dl)) == (-n) as nat);
    } else {
        let run = digits_of(n as nat);
        lemma_digits_of_props(n as nat);
        let dl = run.len() as int;
        assert(e == seq![105u8] + run + seq![101u8]);
        assert(e =~= seq![105u8] + (run + seq![101u8]));
        lemma_chop(s, pos, seq![105u8], run + seq![101u8]);
        lemma_chop(s, pos + 1, run, seq![101u8]);
        assert(s.subrange(pos + 1 + dl, pos + 1 + dl + 1)[0] == s[pos + 1 + dl]);
        assert(s[pos + 1 + dl] == 101);
        assert forall|i: int| pos + 1 <= i < pos + 1 + dl implies is_digit(#[trigger] s[i]) by {
            assert(s.subrange(pos + 1, pos + 1 + dl)[i - pos - 1] == run[i - pos - 1]);
        }
        assert(s.subrange(pos + 1, pos + 1 + dl)[0] == s[pos + 1]);
        assert(!is_digit(s[pos + 1 + dl]));
        assert(s[pos + 1] != 45);
        lemma_digits_end_char(s, pos + 1, pos + 1 + dl);
        assert(s.subrange(pos + 1, pos + 1 + dl) == run);
        assert(digits_val(s.subrange(pos + 1, pos + 1 + dl)) == n as nat);
    }
}

/// Completeness: the encoding of a well-formed value, wherever it stands,
/// decodes back to exactly that value.
pub proof fn lemma_enc_dec(v: BSpec, s: Seq<u8>, pos: int, d: nat)
    requires
        valid_value(v),
        depth_le(v, d),
        0 <= pos,
        pos + enc(v).len() <= s.len(),
        s.subrange(pos, pos + enc(v).len()) == enc(v),
    ensures
        dec_at(s, pos, d) == Some((v, pos + enc(v).len())),
    decreases v,
{
    lemma_enc_first(v);
    assert(s.subrange(pos, pos + enc(v).len())[0] == s[pos]);
    match v {
        BSpec::Int(n) => {
            lemma_enc_dec_int(n, s, pos);
        },
        BSpec::Str(b) => {
            lemma_enc_dec_str(b, s, pos);
        },
        BSpec::List(items) => {
            let body = enc_seq(items);
            assert(enc(v) =~= seq![108u8] + (body + seq![101u8]));
            lemma_chop(s, pos, seq![108u8], body + seq![101u8]);
            lemma_chop(s, pos + 1, body, seq![101u8]);
            assert(s.subrange(pos + 1 + body.len(), pos + 1 + body.len() + 1)[0] == s[pos + 1
                + body.len()]);
            lemma_enc_dec_items(items, s, pos + 1, (d - 1) as nat);
        },
        BSpec::Dict(pairs) => {
            let body = enc_pairs(pairs);
            assert(enc(v) =~= seq![100u8] + (body + seq![101u8]));
            lemma_chop(s, pos, seq![100u8], body + seq![101u8]);
            lemma_chop(s, pos + 1, body, seq![101u8]);
            assert(s.subrange(pos + 1 + body.len(), pos + 1 + body.len() + 1)[0] == s[pos + 1
                + body.len()]);
            lemma_enc_dec_entries(pairs, s, pos + 1, (d - 1) as nat);
            assert(distinct_keys(pairs));
        },
    }
}

/// Completeness over list bodies: the concatenated encodings followed by
/// the terminator decode back to the same elements in order.
pub proof fn lemma_enc_dec_items(items: Seq<BSpec>, s: Seq<u8>, pos: int, d: nat)
    requires
        forall|i: int| 0 <= i < items.len() ==> valid_value(#[trigger] items[i]),
        forall|i: int| 0 <= i < items.len() ==> depth_le(#[trigger] items[i], d),
        0 <= pos,
        pos + enc_seq(items).len() + 1 <= s.len(),
        s.subrange(pos, pos + enc_seq(items).len()) == enc_seq(items),
        s[pos + enc_seq(items).len()] == 101,
    ensures
        dec_items(s, pos, d) == Some((items, pos + enc_seq(items).len() + 1)),
    decreases items,
{
    if items.len() == 0 {
        assert(items =~= Seq::<BSpec>::empty());
    } else {
        let v0 = items[0];
        let rest = items.subrange(1, items.len() as int);
        assert(enc_seq(items) == enc(v0) + enc_seq(rest));
        lemma_chop(s, pos, enc(v0), enc_seq(rest));
        lemma_enc_first(v0);
        assert(s.subrange(pos, pos + enc(v0).len())[0] == s[pos]);
        lemma_enc_dec(v0, s, pos, d);
        let end1 = pos + enc(v0).len();
        assert(forall|i: int| 0 <= i < rest.len() ==> valid_value(#[trigger] rest[i]));
        assert(forall|i: int| 0 <= i < rest.len() ==> depth_le(#[trigger] rest[i], d));
        lemma_enc_dec_items(rest, s, end1, d);
        assert(seq![v0] + rest =~= items);
    }
}

/// Completeness over dictionary bodies: the concatenated key/value
/// encodings followed by the terminator decode back to the same entries.
pub proof fn lemma_enc_dec_entries(pairs: Seq<(Seq<u8>, BSpec)>, s: Seq<u8>, pos: int, d: nat)
    requires
        forall|i: int| 0 <= i < pairs.len() ==> valid_value((#[trigger] pairs[i]).1),
        forall|i: int| 0 <= i < pairs.len() ==> depth_le((#[trigger] pairs[i]).1, d),
        0 <= pos,
        pos + enc_pairs(pairs).len() + 1 <= s.len(),
        s.subrange(pos, pos + enc_pairs(pairs).len()) == enc_pairs(pairs),
        s[pos + enc_pairs(pairs).len()] == 101,
    ensures
        dec_entries(s, pos, d) == Some((pairs, pos + enc_pairs(pairs).len() + 1)),
    decreases pairs,
{
    if pairs.len() == 0 {
        assert(pairs =~= Seq::<(Seq<u8>, BSpec)>::empty());
    } else {
        let (k0, v0) = pairs[0];
        let rest = pairs.subrange(1, pairs.len() as int);
        assert(enc_pairs(pairs) == enc_str(k0) + enc(v0) + enc_pairs(rest));
        assert(enc_pairs(pairs) =~= enc_str(k0) + (enc(v0) + enc_pairs(rest)));
        lemma_chop(s, pos, enc_str(k0), enc(v0) + enc_pairs(rest));
        let mid = pos + enc_str(k0).len();
        lemma_chop(s, mid, enc(v0), enc_pairs(rest));
        lemma_digits_of_props(k0.len());
        assert(enc_str(k0)[0] == digits_of(k0.len())[0]);
        assert(s.subrange(pos, pos + enc_str(k0).len())[0] == s[pos]);
        assert(is_digit(s[pos]));
        lemma_enc_dec_str(k0, s, pos);
        lemma_enc_first(v0);
        lemma_enc_dec(v0, s, mid, d);
        let end1 = mid + enc(v0).len();
        assert(forall|i: int| 0 <= i < rest.len() ==> valid_value((#[trigger] rest[i]).1));
        assert(forall|i: int| 0 <= i < rest.len() ==> depth_le((#[trigger] rest[i]).1, d));
        lemma_enc_dec_entries(rest, s, end1, d);
        assert(seq![(k0, v0)] + rest =~= pairs);
    }
}

/// A value looked up in a dictionary body stands encoded, verbatim and
/// contiguous, somewhere inside the body's encoding.
pub proof fn lemma_enc_pairs_contains(pairs: Seq<(Seq<u8>, BSpec)>, k: Seq<u8>) -> (r: (int, int))
    requires
        lookup(pairs, k) is Some,
    ensures
        0 <= r.0 <= r.1 <= enc_pairs(pairs).len(),
        enc_pairs(pairs).subrange(r.0, r.1) == enc(lookup(pairs, k)->Some_0),
    decreases pairs.len(),
{
    let v = lookup(pairs, k)->Some_0;
    if pairs[0].0 == k {
        let a = enc_str(pairs[0].0).len() as int;
        let b = a + enc(pairs[0].1).len();
        assert forall|i: int| 0 <= i < enc(v).len() implies enc_pairs(pairs).subrange(a, b)[i]
            == enc(v)[i] by {
            assert(enc_pairs(pairs)[a + i] == (enc_str(pairs[0].0) + enc(pairs[0].1)
                + enc_pairs(pairs.subrange(1, pairs.len() as int)))[a + i]);
        }
        assert(enc_pairs(pairs).subrange(a, b) =~= enc(v));
        (a, b)
    } else {
        let rest = pairs.subrange(1, pairs.len() as int);
        let (a0, b0) = lemma_enc_pairs_contains(rest, k);
        let off = enc_str(pairs[0].0).len() + enc(pairs[0].1).len();
        let a = off + a0;
        let b = off + b0;
        assert forall|i: int| 0 <= i < b0 - a0 implies enc_pairs(pairs).subrange(a, b)[i]
            == enc_pairs(rest).subrange(a0, b0)[i] by {
            assert(enc_pairs(pairs)[a + i] == (enc_str(pairs[0].0) + enc(pairs[0].1)
                + enc_pairs(rest))[a + i]);
            assert((enc_str(pairs[0].0) + enc(pairs[0].1) + enc_pairs(rest))[a + i]
                == enc_pairs(rest)[a0 + i]);
        }
        assert(enc_pairs(pairs).subrange(a, b) =~= enc_pairs(rest).subrange(a0, b0));
        (a, b)
    }
}

/// Round trip: decoding the encoding of any well-formed value — every
/// integer within 64-bit range, every dictionary with distinct keys,
/// nesting within the depth bound — gives back exactly that value and
/// consumes exactly its encoding, whatever bytes follow.
pub proof fn lemma_round_trip(v: BSpec, rest: Seq<u8>)
    requires
        valid_value(v),
        depth_le(v, DEPTH_LIMIT as nat),
    ensures
        dec(enc(v) + rest) == Some((v, enc(v).len() as int)),
{
    let s = enc(v) + rest;
    assert(s.subrange(0, enc(v).len() as int) =~= enc(v));
    lemma_enc_dec(v, s, 0, DEPTH_LIMIT as nat);
}

/// Round trip for integers: for every 64-bit integer, the bytes
/// `i` + decimal + `e` decode back to that integer, whatever follows.
pub proof fn lemma_int_round_trip(n: i64, rest: Seq<u8>)
    ensures
        dec(enc(BSpec::Int(n as int)) + rest) == Some(
            (BSpec::Int(n as int), enc(BSpec::Int(n as int)).len() as int),
        ),
{
    lemma_round_trip(BSpec::Int(n as int), rest);
}

/// Round trip for byte strings: for every byte string, the bytes
/// decimal-length + `:` + the string decode back to it, empty included.
pub proof fn lemma_str_round_trip(b: Seq<u8>, rest: Seq<u8>)
    ensures
        dec(enc(BSpec::Str(b)) + rest) == Some(
            (BSpec::Str(b), enc(BSpec::Str(b)).len() as int),
        ),
{
    lemma_round_trip(BSpec::Str(b), rest);
}

} // verus!
