//! The executable bencode decoder.
//!
//! Every function returns exactly what the spec-level decoder `dec_at`
//! returns on the same input, so all grammar questions reduce to the
//! mathematical model in `bencode`.

use vstd::prelude::*;
use crate::bencode::{
    dec, dec_at, dec_entries, dec_int, dec_items, dec_str, deep_pairs, deep_seq, digits_end,
    digits_val, distinct_keys, lemma_deep_pairs_index, lemma_deep_seq_index, BSpec, Bencode,
    DEPTH_LIMIT,
};

verus! {

/// Scans the digit run starting at `pos`: returns its end together with its
/// value, or `None` in place of a value that does not fit in `u64`.
fn scan_digits(buf: &[u8], pos: usize) -> (r: (usize, Option<u64>))
    requires
        pos <= buf@.len(),
    ensures
        r.0 == digits_end(buf@, pos as int),
        pos <= r.0 <= buf@.len(),
        (match r.1 {
            Some(n) => n as nat == digits_val(buf@.subrange(pos as int, r.0 as int)),
            None => digits_val(buf@.subrange(pos as int, r.0 as int)) > u64::MAX,
        }),
{
    let len = buf.len();
    let mut cur = pos;
    let mut acc: Option<u64> = Some(0);
    proof {
        assert(buf@.subrange(pos as int, pos as int) =~= Seq::<u8>::empty());
    }
    loop
        invariant
            pos <= cur <= len,
            len == buf@.len(),
            digits_end(buf@, pos as int) == digits_end(buf@, cur as int),
            (match acc {
                Some(n) => n as nat == digits_val(buf@.subrange(pos as int, cur as int)),
                None => digits_val(buf@.subrange(pos as int, cur as int)) > u64::MAX,
            }),
        decreases len - cur,
    {
        if cur >= len || !(48 <= buf[cur] && buf[cur] <= 57) {
            return (cur, acc);
        }
        let d = (buf[cur] - 48) as u64;
        proof {
            assert(buf@.subrange(pos as int, cur as int + 1).drop_last() =~= buf@.subrange(
                pos as int,
                cur as int,
            ));
            assert(buf@.subrange(pos as int, cur as int + 1).last() == buf@[cur as int]);
        }
        acc = match acc {
            Some(n) => {
                if n <= (u64::MAX - d) / 10 {
                    Some(n * 10 + d)
                } else {
                    None
                }
            },
            None => None,
        };
        cur = cur + 1;
    }
}

/// Decodes a byte string anchored at `pos`, as `dec_str` describes it.
pub(crate) fn decode_str(buf: &[u8], pos: usize) -> (r: Option<(Vec<u8>, usize)>)
    requires
        pos <= buf@.len(),
    ensures
        (match r {
            Some((v, end)) => dec_str(buf@, pos as int) == Some((v@, end as int)) && pos < end
                <= buf@.len(),
            None => dec_str(buf@, pos as int) is None,
        }),
{
    let len = buf.len();
    let (dend, vo) = scan_digits(buf, pos);
    if dend == pos {
        return None;
    }
    if buf[pos] == 48 && dend - pos > 1 {
        return None;
    }
    if !(dend < len && buf[dend] == 58) {
        return None;
    }
    match vo {
        None => {
            // The length overflows `u64`, so it certainly overruns the buffer.
            None
        },
        Some(n) => {
            let remaining = len - (dend + 1);
            if n > remaining as u64 {
                None
            } else {
                let take = n as usize;
                let bytes = vstd::slice::slice_to_vec(
                    vstd::slice::slice_subrange(buf, dend + 1, dend + 1 + take),
                );
                Some((bytes, dend + 1 + take))
            }
        },
    }
}

/// Decodes an integer anchored at `pos`, as `dec_int` describes it.
fn decode_int(buf: &[u8], pos: usize) -> (r: Option<(i64, usize)>)
    requires
        pos < buf@.len(),
        buf@[pos as int] == 105,
    ensures
        (match r {
            Some((n, end)) => dec_int(buf@, pos as int) == Some((BSpec::Int(n as int), end as int))
                && pos < end <= buf@.len(),
            None => dec_int(buf@, pos as int) is None,
        }),
{
    let len = buf.len();
    let neg = pos + 1 < len && buf[pos + 1] == 45;
    let numstart = if neg {
        pos + 2
    } else {
        pos + 1
    };
    let (dend, vo) = scan_digits(buf, numstart);
    if dend == numstart {
        return None;
    }
    if buf[numstart] == 48 && dend - numstart > 1 {
        return None;
    }
    if neg && buf[numstart] == 48 {
        return None;
    }
    if !(dend < len && buf[dend] == 101) {
        return None;
    }
    match vo {
        None => None,
        Some(mag) => {
            if neg {
                if mag > 9223372036854775808u64 {
                    None
                } else if mag == 9223372036854775808u64 {
                    Some((i64::MIN, dend + 1))
                } else {
                    Some((-(mag as i64), dend + 1))
                }
            } else {
                if mag > i64::MAX as u64 {
                    None
                } else {
                    Some((mag as i64, dend + 1))
                }
            }
        },
    }
}

/// Whether two byte slices hold the same bytes.
pub(crate) fn bytes_eq(a: &[u8], b: &[u8]) -> (r: bool)
    ensures
        r <==> a@ == b@,
{
    let n = a.len();
    if n != b.len() {
        return false;
    }
    let mut i: usize = 0;
    while i < n
        invariant
            0 <= i <= n,
            n == a@.len(),
            n == b@.len(),
            forall|j: int| 0 <= j < i ==> a@[j] == b@[j],
        decreases n - i,
    {
        if a[i] != b[i] {
            return false;
        }
        i = i + 1;
    }
    proof {
        assert(a@ =~= b@);
    }
    true
}

/// Whether some entry already carries this key.
fn contains_key(pairs: &Vec<(Vec<u8>, Bencode)>, key: &[u8]) -> (r: bool)
    ensures
        r <==> exists|j: int| 0 <= j < pairs@.len() && (#[trigger] pairs@[j]).0@ == key@,
{
    let n = pairs.len();
    let mut i: usize = 0;
    while i < n
        invariant
            0 <= i <= n,
            n == pairs@.len(),
            forall|j: int| 0 <= j < i ==> (#[trigger] pairs@[j]).0@ != key@,
        decreases n - i,
    {
        if bytes_eq(pairs[i].0.as_slice(), key) {
            return true;
        }
        i = i + 1;
    }
    false
}

/// Decodes one value anchored at `pos`, as `dec_at` describes it; `depth`
/// is the budget of list/dictionary levels that may still be opened.
pub(crate) fn decode_at(buf: &[u8], pos: usize, depth: usize) -> (r: Option<(Bencode, usize)>)
    ensures
        (match r {
            Some((v, end)) => dec_at(buf@, pos as int, depth as nat) == Some(
                (v.deep(), end as int),
            ) && pos < end <= buf@.len(),
            None => dec_at(buf@, pos as int, depth as nat) is None,
        }),
    decreases depth,
{
    let len = buf.len();
    if pos >= len {
        return None;
    }
    let b = buf[pos];
    if b == 105 {
        match decode_int(buf, pos) {
            Some((n, end)) => Some((Bencode::Integer(n), end)),
            None => None,
        }
    } else if 48 <= b && b <= 57 {
        match decode_str(buf, pos) {
            Some((v, end)) => Some((Bencode::ByteString(v), end)),
            None => None,
        }
    } else if b == 108 {
        if depth == 0 {
            return None;
        }
        let dn = depth - 1;
        let mut items: Vec<Bencode> = Vec::new();
        let mut cur = pos + 1;
        proof {
            assert(deep_seq(items@) =~= Seq::<BSpec>::empty());
            assert(dec_items(buf@, pos as int + 1, dn as nat) matches Some((rest, fin)) ==>
                deep_seq(items@) + rest =~= rest);
        }
        loop
            invariant
                pos + 1 <= cur <= len,
                len == buf@.len(),
                pos < len,
                buf@[pos as int] == 108,
                depth >= 1,
                dn == depth - 1,
                (match dec_items(buf@, cur as int, dn as nat) {
                    Some((rest, fin)) => dec_items(buf@, pos as int + 1, dn as nat) == Some(
                        (deep_seq(items@) + rest, fin),
                    ),
                    None => dec_items(buf@, pos as int + 1, dn as nat) is None,
                }),
            decreases len - cur,
        {
            if cur >= len {
                return None;
            }
            if buf[cur] == 101 {
                proof {
                    assert(deep_seq(items@) + Seq::<BSpec>::empty() =~= deep_seq(items@));
                }
                return Some((Bencode::List(items), cur + 1));
            }
            match decode_at(buf, cur, dn) {
                None => {
                    return None;
                },
                Some((v, end)) => {
                    proof {
                        let old_items = items@;
                        lemma_deep_seq_index(old_items);
                        lemma_deep_seq_index(old_items.push(v));
                        assert(deep_seq(old_items.push(v)) =~= deep_seq(old_items).push(v.deep()));
                        assert(dec_items(buf@, end as int, dn as nat) matches Some((rest, fin))
                            ==> deep_seq(old_items) + (seq![v.deep()] + rest) =~= deep_seq(
                            old_items.push(v),
                        ) + rest);
                    }
                    items.push(v);
                    cur = end;
                },
            }
        }
    } else if b == 100 {
        if depth == 0 {
            return None;
        }
        let dn = depth - 1;
        let mut pairs: Vec<(Vec<u8>, Bencode)> = Vec::new();
        let mut cur = pos + 1;
        proof {
            assert(deep_pairs(pairs@) =~= Seq::<(Seq<u8>, BSpec)>::empty());
            assert(dec_entries(buf@, pos as int + 1, dn as nat) matches Some((rest, fin)) ==>
                deep_pairs(pairs@) + rest =~= rest);
        }
        loop
            invariant
                pos + 1 <= cur <= len,
                len == buf@.len(),
                pos < len,
                buf@[pos as int] == 100,
                depth >= 1,
                dn == depth - 1,
                distinct_keys(deep_pairs(pairs@)),
                (match dec_entries(buf@, cur as int, dn as nat) {
                    Some((rest, fin)) => dec_entries(buf@, pos as int + 1, dn as nat) == Some(
                        (deep_pairs(pairs@) + rest, fin),
                    ),
                    None => dec_entries(buf@, pos as int + 1, dn as nat) is None,
                }),
            decreases len - cur,
        {
            if cur >= len {
                return None;
            }
            if buf[cur] == 101 {
                proof {
                    assert(deep_pairs(pairs@) + Seq::<(Seq<u8>, BSpec)>::empty() =~= deep_pairs(
                        pairs@,
                    ));
                }
                return Some((Bencode::Dictionary(pairs), cur + 1));
            }
            if !(48 <= buf[cur] && buf[cur] <= 57) {
                return None;
            }
            let (key, mid) = match decode_str(buf, cur) {
                None => {
                    return None;
                },
                Some(km) => km,
            };
            match decode_at(buf, mid, dn) {
                None => {
                    return None;
                },
                Some((v, end)) => {
                    proof {
                        lemma_deep_pairs_index(pairs@);
                    }
                    if contains_key(&pairs, key.as_slice()) {
                        proof {
                            let dp = deep_pairs(pairs@);
                            let j = choose|j: int|
                                0 <= j < pairs@.len() && (#[trigger] pairs@[j]).0@ == key@;
                            if dec_entries(buf@, end as int, dn as nat) is Some {
                                assert(dec_entries(buf@, cur as int, dn as nat) matches Some(
                                    (es, fin),
                                ) ==> {
                                    &&& es == seq![(key@, v.deep())] + dec_entries(
                                        buf@,
                                        end as int,
                                        dn as nat,
                                    )->Some_0.0
                                    &&& (dp + es)[j] == dp[j]
                                    &&& (dp + es)[dp.len() as int] == es[0]
                                    &&& !distinct_keys(dp + es)
                                });
                            }
                        }
                        return None;
                    }
                    proof {
                        let old_pairs = pairs@;
                        lemma_deep_pairs_index(old_pairs.push((key, v)));
                        assert(deep_pairs(old_pairs.push((key, v))) =~= deep_pairs(
                            old_pairs,
                        ).push((key@, v.deep())));
                        assert forall|i: int, j: int|
                            0 <= i < j < deep_pairs(old_pairs.push((key, v))).len() implies (
                        deep_pairs(old_pairs.push((key, v)))[i]).0 != (deep_pairs(
                            old_pairs.push((key, v)),
                        )[j]).0 by {
                            if j < old_pairs.len() {
                                assert((deep_pairs(old_pairs)[i]).0 != (deep_pairs(
                                    old_pairs,
                                )[j]).0);
                            }
                        }
                        assert(dec_entries(buf@, end as int, dn as nat) matches Some((rest, fin))
                            ==> deep_pairs(old_pairs) + (seq![(key@, v.deep())] + rest)
                            =~= deep_pairs(old_pairs.push((key, v))) + rest);
                    }
                    pairs.push((key, v));
                    cur = end;
                },
            }
        }
    } else {
        None
    }
}

/// Decodes the value anchored at the start of the buffer, returning it with
/// the count of bytes consumed; trailing bytes are left for the caller.
pub fn decode(buf: &[u8]) -> (r: Option<(Bencode, usize)>)
    ensures
        (match r {
            Some((v, n)) => dec(buf@) == Some((v.deep(), n as int)) && 0 < n <= buf@.len(),
            None => dec(buf@) is None,
        }),
{
    decode_at(buf, 0, DEPTH_LIMIT)
}

} // verus!
