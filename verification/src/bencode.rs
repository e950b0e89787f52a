//! The bencode value model and its grammar.
//!
//! `Bencode` is the executable value tree; `BSpec` is its mathematical
//! counterpart, with `Seq` in place of `Vec` and `int` in place of `i64`.
//! `enc` gives the unique encoding of a `BSpec` value, and is the yardstick
//! the decoder is verified against.

use vstd::prelude::*;

verus! {

/// A decoded bencode value.
///
/// Dictionary entries are kept in the order they appear in the input;
/// the decoder rejects dictionaries with duplicate keys.
pub enum Bencode {
    Integer(i64),
    ByteString(Vec<u8>),
    List(Vec<Bencode>),
    Dictionary(Vec<(Vec<u8>, Bencode)>),
}

/// The mathematical model of a bencode value.
pub enum BSpec {
    Int(int),
    Str(Seq<u8>),
    List(Seq<BSpec>),
    Dict(Seq<(Seq<u8>, BSpec)>),
}

impl Bencode {
    /// The model of this value: `Vec` becomes `Seq`, `i64` becomes `int`.
    pub open spec fn deep(self) -> BSpec
        decreases self,
    {
        match self {
            Bencode::Integer(n) => BSpec::Int(n as int),
            Bencode::ByteString(v) => BSpec::Str(v@),
            Bencode::List(items) => BSpec::List(deep_seq(items@)),
            Bencode::Dictionary(pairs) => BSpec::Dict(deep_pairs(pairs@)),
        }
    }

    /// The dictionary entries, when this value is a dictionary.
    pub fn dict(self) -> (r: Option<Vec<(Vec<u8>, Bencode)>>)
        ensures
            (match self {
                Bencode::Dictionary(d) => r == Some(d),
                _ => r is None,
            }),
    {
        match self {
            Bencode::Dictionary(d) => Some(d),
            _ => None,
        }
    }

    /// The elements, when this value is a list.
    pub fn list(self) -> (r: Option<Vec<Bencode>>)
        ensures
            (match self {
                Bencode::List(items) => r == Some(items),
                _ => r is None,
            }),
    {
        match self {
            Bencode::List(items) => Some(items),
            _ => None,
        }
    }

    /// The bytes, when this value is a byte string.
    pub fn byte_string(self) -> (r: Option<Vec<u8>>)
        ensures
            (match self {
                Bencode::ByteString(b) => r == Some(b),
                _ => r is None,
            }),
    {
        match self {
            Bencode::ByteString(b) => Some(b),
            _ => None,
        }
    }

    /// The integer, when this value is an integer.
    pub fn number(self) -> (r: Option<i64>)
        ensures
            (match self {
                Bencode::Integer(n) => r == Some(n),
                _ => r is None,
            }),
    {
        match self {
            Bencode::Integer(n) => Some(n),
            _ => None,
        }
    }
}

/// The models of a sequence of values, in order.
pub open spec fn deep_seq(items: Seq<Bencode>) -> Seq<BSpec>
    decreases items,
{
    if items.len() == 0 {
        Seq::empty()
    } else {
        seq![items[0].deep()] + deep_seq(items.subrange(1, items.len() as int))
    }
}

/// The models of a sequence of key/value pairs, in order.
pub open spec fn deep_pairs(pairs: Seq<(Vec<u8>, Bencode)>) -> Seq<(Seq<u8>, BSpec)>
    decreases pairs,
{
    if pairs.len() == 0 {
        Seq::empty()
    } else {
        seq![(pairs[0].0@, pairs[0].1.deep())] + deep_pairs(pairs.subrange(1, pairs.len() as int))
    }
}

/// The decimal digits of `n`, most significant first, no leading zero.
pub open spec fn digits_of(n: nat) -> Seq<u8>
    decreases n,
{
    if n < 10 {
        seq![(48 + n) as u8]
    } else {
        digits_of(n / 10) + seq![(48 + n % 10) as u8]
    }
}

/// The encoding of an integer's sign and digits.
pub open spec fn int_digits(n: int) -> Seq<u8> {
    if n < 0 {
        seq![45u8] + digits_of((-n) as nat)
    } else {
        digits_of(n as nat)
    }
}

/// The encoding of a byte string: decimal length, `:`, the bytes.
pub open spec fn enc_str(s: Seq<u8>) -> Seq<u8> {
    digits_of(s.len()) + seq![58u8] + s
}

/// The unique encoding of a bencode value.
pub open spec fn enc(v: BSpec) -> Seq<u8>
    decreases v,
{
    match v {
        BSpec::Int(n) => seq![105u8] + int_digits(n) + seq![101u8],
        BSpec::Str(s) => enc_str(s),
        BSpec::List(items) => seq![108u8] + enc_seq(items) + seq![101u8],
        BSpec::Dict(pairs) => seq![100u8] + enc_pairs(pairs) + seq![101u8],
    }
}

/// The concatenated encodings of a sequence of values.
pub open spec fn enc_seq(items: Seq<BSpec>) -> Seq<u8>
    decreases items,
{
    if items.len() == 0 {
        Seq::empty()
    } else {
        enc(items[0]) + enc_seq(items.subrange(1, items.len() as int))
    }
}

/// The concatenated encodings of a sequence of key/value pairs.
pub open spec fn enc_pairs(pairs: Seq<(Seq<u8>, BSpec)>) -> Seq<u8>
    decreases pairs,
{
    if pairs.len() == 0 {
        Seq::empty()
    } else {
        enc_str(pairs[0].0) + enc(pairs[0].1) + enc_pairs(pairs.subrange(1, pairs.len() as int))
    }
}

/// Cap on the nesting depth of lists and dictionaries, so that decoding
/// cannot exhaust the call stack on adversarial input.
pub const DEPTH_LIMIT: usize = 2048;

/// Whether `b` is an ASCII decimal digit.
pub open spec fn is_digit(b: u8) -> bool {
    48 <= b <= 57
}

/// The value of a run of ASCII digits, most significant first.
pub open spec fn digits_val(s: Seq<u8>) -> nat
    decreases s.len(),
{
    if s.len() == 0 {
        0
    } else {
        digits_val(s.drop_last()) * 10 + (s.last() - 48) as nat
    }
}

/// The first position at or after `pos` that does not hold a digit.
pub open spec fn digits_end(s: Seq<u8>, pos: int) -> int
    decreases s.len() - pos,
{
    if 0 <= pos < s.len() && is_digit(s[pos]) {
        digits_end(s, pos + 1)
    } else {
        pos
    }
}

/// Whether no two entries share a key.
pub open spec fn distinct_keys(pairs: Seq<(Seq<u8>, BSpec)>) -> bool {
    forall|i: int, j: int| 0 <= i < j < pairs.len() ==> pairs[i].0 != pairs[j].0
}

/// The value bound to `key`, taking the first entry that matches.
pub open spec fn lookup(pairs: Seq<(Seq<u8>, BSpec)>, key: Seq<u8>) -> Option<BSpec>
    decreases pairs.len(),
{
    if pairs.len() == 0 {
        None
    } else if pairs[0].0 == key {
        Some(pairs[0].1)
    } else {
        lookup(pairs.subrange(1, pairs.len() as int), key)
    }
}

/// Decodes an integer anchored at `pos`, where `s[pos]` is `i`.
///
/// The digits must fit a signed 64-bit integer, carry no leading zero
/// (except the literal `0` itself), and `-0` is rejected.
pub open spec fn dec_int(s: Seq<u8>, pos: int) -> Option<(BSpec, int)> {
    let neg = pos + 1 < s.len() && s[pos + 1] == 45;
    let numstart = if neg { pos + 2 } else { pos + 1 };
    let dend = digits_end(s, numstart);
    let run = s.subrange(numstart, dend);
    if run.len() == 0 {
        None
    } else if run[0] == 48 && run.len() > 1 {
        None
    } else if neg && run[0] == 48 {
        None
    } else if !(dend < s.len() && s[dend] == 101) {
        None
    } else {
        let m = digits_val(run) as int;
        let vi = if neg { -m } else { m };
        if i64::MIN as int <= vi <= i64::MAX as int {
            Some((BSpec::Int(vi), dend + 1))
        } else {
            None
        }
    }
}

/// Decodes a byte string anchored at `pos`, where `s[pos]` is a digit:
/// a decimal length without leading zeros, `:`, then exactly that many bytes.
pub open spec fn dec_str(s: Seq<u8>, pos: int) -> Option<(Seq<u8>, int)> {
    let dend = digits_end(s, pos);
    let run = s.subrange(pos, dend);
    if run.len() == 0 {
        None
    } else if run[0] == 48 && run.len() > 1 {
        None
    } else if !(dend < s.len() && s[dend] == 58) {
        None
    } else {
        let n = digits_val(run) as int;
        if dend + 1 + n <= s.len() {
            Some((s.subrange(dend + 1, dend + 1 + n), dend + 1 + n))
        } else {
            None
        }
    }
}

/// Decodes one value anchored at `pos`, dispatching on the first byte.
///
/// `depth` bounds how many levels of lists and dictionaries may still be
/// opened; a compound value at depth zero is rejected.
pub open spec fn dec_at(s: Seq<u8>, pos: int, depth: nat) -> Option<(BSpec, int)>
    decreases s.len() - pos, 0int,
{
    if pos < 0 || pos >= s.len() {
        None
    } else if s[pos] == 105 {
        dec_int(s, pos)
    } else if is_digit(s[pos]) {
        match dec_str(s, pos) {
            Some((b, end)) => Some((BSpec::Str(b), end)),
            None => None,
        }
    } else if s[pos] == 108 {
        if depth == 0 {
            None
        } else {
            match dec_items(s, pos + 1, (depth - 1) as nat) {
                Some((items, end)) => Some((BSpec::List(items), end)),
                None => None,
            }
        }
    } else if s[pos] == 100 {
        if depth == 0 {
            None
        } else {
            match dec_entries(s, pos + 1, (depth - 1) as nat) {
                Some((pairs, end)) => if distinct_keys(pairs) {
                    Some((BSpec::Dict(pairs), end))
                } else {
                    None
                },
                None => None,
            }
        }
    } else {
        None
    }
}

/// Decodes list elements from `pos` up to the terminating `e`.
pub open spec fn dec_items(s: Seq<u8>, pos: int, depth: nat) -> Option<(Seq<BSpec>, int)>
    decreases s.len() - pos, 1int,
{
    if pos < 0 || pos >= s.len() {
        None
    } else if s[pos] == 101 {
        Some((Seq::empty(), pos + 1))
    } else {
        match dec_at(s, pos, depth) {
            Some((v, end)) => if pos < end <= s.len() {
                match dec_items(s, end, depth) {
                    Some((rest, fin)) => Some((seq![v] + rest, fin)),
                    None => None,
                }
            } else {
                None
            },
            None => None,
        }
    }
}

/// Decodes dictionary entries from `pos` up to the terminating `e`.
/// Every key must be a byte string; key order is kept as found.
pub open spec fn dec_entries(s: Seq<u8>, pos: int, depth: nat) -> Option<
    (Seq<(Seq<u8>, BSpec)>, int),
>
    decreases s.len() - pos, 1int,
{
    if pos < 0 || pos >= s.len() {
        None
    } else if s[pos] == 101 {
        Some((Seq::empty(), pos + 1))
    } else if !is_digit(s[pos]) {
        None
    } else {
        match dec_str(s, pos) {
            Some((k, mid)) => if pos < mid <= s.len() {
                match dec_at(s, mid, depth) {
                    Some((v, end)) => if mid < end <= s.len() {
                        match dec_entries(s, end, depth) {
                            Some((rest, fin)) => Some((seq![(k, v)] + rest, fin)),
                            None => None,
                        }
                    } else {
                        None
                    },
                    None => None,
                }
            } else {
                None
            },
            None => None,
        }
    }
}

/// Decodes the value anchored at the start of the buffer; trailing bytes
/// after the value are allowed and reported through the end position.
pub open spec fn dec(s: Seq<u8>) -> Option<(BSpec, int)> {
    dec_at(s, 0, DEPTH_LIMIT as nat)
}

/// Whether every integer of the tree fits a signed 64-bit integer and
/// every dictionary has pairwise distinct keys.
pub open spec fn valid_value(v: BSpec) -> bool
    decreases v,
{
    match v {
        BSpec::Int(n) => i64::MIN as int <= n <= i64::MAX as int,
        BSpec::Str(_) => true,
        BSpec::List(items) => forall|i: int|
            0 <= i < items.len() ==> valid_value(#[trigger] items[i]),
        BSpec::Dict(pairs) => distinct_keys(pairs) && forall|i: int|
            0 <= i < pairs.len() ==> valid_value(#[trigger] pairs[i].1),
    }
}

/// Whether the tree opens at most `d` levels of lists and dictionaries.
pub open spec fn depth_le(v: BSpec, d: nat) -> bool
    decreases v,
{
    match v {
        BSpec::Int(_) => true,
        BSpec::Str(_) => true,
        BSpec::List(items) => d > 0 && forall|i: int|
            0 <= i < items.len() ==> depth_le(#[trigger] items[i], (d - 1) as nat),
        BSpec::Dict(pairs) => d > 0 && forall|i: int|
            0 <= i < pairs.len() ==> depth_le(#[trigger] pairs[i].1, (d - 1) as nat),
    }
}

/// `deep_seq` maps the model over the elements, one for one.
pub proof fn lemma_deep_seq_index(items: Seq<Bencode>)
    ensures
        deep_seq(items).len() == items.len(),
        forall|i: int| 0 <= i < items.len() ==> #[trigger] deep_seq(items)[i] == items[i].deep(),
    decreases items.len(),
{
    if items.len() > 0 {
        lemma_deep_seq_index(items.subrange(1, items.len() as int));
    }
}

/// `lookup` returns the value of the first entry whose key matches, when
/// the entries before `i` do not carry the key.
pub proof fn lemma_lookup_first(pairs: Seq<(Seq<u8>, BSpec)>, i: int, k: Seq<u8>)
    requires
        0 <= i < pairs.len(),
        pairs[i].0 == k,
        forall|j: int| 0 <= j < i ==> (#[trigger] pairs[j]).0 != k,
    ensures
        lookup(pairs, k) == Some(pairs[i].1),
    decreases i,
{
    if i > 0 {
        let t = pairs.subrange(1, pairs.len() as int);
        assert(t[i - 1] == pairs[i]);
        assert(forall|j: int| 0 <= j < i - 1 ==> (#[trigger] t[j]).0 != k);
        lemma_lookup_first(t, i - 1, k);
    }
}

/// `lookup` misses when no entry carries the key.
pub proof fn lemma_lookup_absent(pairs: Seq<(Seq<u8>, BSpec)>, k: Seq<u8>)
    requires
        forall|j: int| 0 <= j < pairs.len() ==> (#[trigger] pairs[j]).0 != k,
    ensures
        lookup(pairs, k) is None,
    decreases pairs.len(),
{
    if pairs.len() > 0 {
        let t = pairs.subrange(1, pairs.len() as int);
        assert(forall|j: int| 0 <= j < t.len() ==> (#[trigger] t[j]).0 != k);
        lemma_lookup_absent(t, k);
    }
}

/// Removing the first entry of one key leaves every other key's `lookup`
/// unchanged.
pub proof fn lemma_lookup_remove_first(pairs: Seq<(Seq<u8>, BSpec)>, i: int, k: Seq<u8>)
    requires
        0 <= i < pairs.len(),
        forall|j: int| 0 <= j < i ==> (#[trigger] pairs[j]).0 != pairs[i].0,
        k != pairs[i].0,
    ensures
        lookup(pairs.remove(i), k) == lookup(pairs, k),
    decreases pairs.len(),
{
    if i == 0 {
        assert(pairs.remove(0) =~= pairs.subrange(1, pairs.len() as int));
    } else {
        assert(pairs.remove(i)[0] == pairs[0]);
        if pairs[0].0 != k {
            let t = pairs.subrange(1, pairs.len() as int);
            assert(pairs.remove(i).subrange(1, pairs.remove(i).len() as int) =~= t.remove(i - 1));
            assert(t[i - 1] == pairs[i]);
            assert(forall|j: int| 0 <= j < i - 1 ==> (#[trigger] t[j]).0 != t[i - 1].0);
            lemma_lookup_remove_first(t, i - 1, k);
        }
    }
}

/// `lookup` over a concatenation takes the left side first.
pub proof fn lemma_lookup_concat(a: Seq<(Seq<u8>, BSpec)>, b: Seq<(Seq<u8>, BSpec)>, k: Seq<u8>)
    ensures
        lookup(a + b, k) == (match lookup(a, k) {
            Some(v) => Some(v),
            None => lookup(b, k),
        }),
    decreases a.len(),
{
    if a.len() == 0 {
        assert(a + b =~= b);
    } else {
        assert((a + b)[0] == a[0]);
        if a[0].0 != k {
            assert((a + b).subrange(1, (a + b).len() as int) =~= a.subrange(1, a.len() as int)
                + b);
            lemma_lookup_concat(a.subrange(1, a.len() as int), b, k);
        }
    }
}

/// `deep_pairs` maps the model over the entries, one for one.
pub proof fn lemma_deep_pairs_index(pairs: Seq<(Vec<u8>, Bencode)>)
    ensures
        deep_pairs(pairs).len() == pairs.len(),
        forall|i: int|
            0 <= i < pairs.len() ==> #[trigger] deep_pairs(pairs)[i] == (pairs[i].0@,
            pairs[i].1.deep()),
    decreases pairs.len(),
{
    if pairs.len() > 0 {
        lemma_deep_pairs_index(pairs.subrange(1, pairs.len() as int));
    }
}

} // verus!
