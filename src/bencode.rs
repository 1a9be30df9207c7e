//! Bencode, the metadata container format: integers, byte strings, lists and
//! dictionaries, decoded by recursive descent.
use vstd::prelude::*;

use crate::bytes::copy_range;

verus! {

/// A decoded bencode value.
#[derive(Debug)]
pub enum BencodeValue {
    Integer(i64),
    Bytes(Vec<u8>),
    List(Vec<BencodeValue>),
    Dict(Vec<(Vec<u8>, BencodeValue)>),
}

/// The mathematical value of a [`BencodeValue`].
pub enum BencodeModel {
    Integer(int),
    Bytes(Seq<u8>),
    List(Seq<BencodeModel>),
    Dict(Seq<(Seq<u8>, BencodeModel)>),
}

impl BencodeValue {
    pub open spec fn model(&self) -> BencodeModel
        decreases self,
    {
        match self {
            BencodeValue::Integer(n) => BencodeModel::Integer(*n as int),
            BencodeValue::Bytes(b) => BencodeModel::Bytes(b@),
            BencodeValue::List(l) => BencodeModel::List(
                Seq::new(l@.len(), |i: int| if 0 <= i < l@.len() { l@[i].model() } else { BencodeModel::Integer(0) }),
            ),
            BencodeValue::Dict(d) => BencodeModel::Dict(
                Seq::new(d@.len(), |i: int| if 0 <= i < d@.len() { (d@[i].0@, d@[i].1.model()) } else { (Seq::empty(), BencodeModel::Integer(0)) }),
            ),
        }
    }
}

pub const INT_START: u8 = 0x69; // 'i'
pub const LIST_START: u8 = 0x6c; // 'l'
pub const DICT_START: u8 = 0x64; // 'd'
pub const END: u8 = 0x65; // 'e'
pub const COLON: u8 = 0x3a; // ':'
pub const MINUS: u8 = 0x2d; // '-'
pub const PLUS: u8 = 0x2b; // '+'

/// The magnitude of `i64::MIN`.
pub const I64_MIN_MAGNITUDE: u128 = 9223372036854775808;

/// Whether `b` is an ASCII decimal digit.
pub open spec fn is_digit(b: u8) -> bool {
    0x30 <= b <= 0x39
}

/// Whether `d` is a non-empty run of ASCII decimal digits.
pub open spec fn all_digits(d: Seq<u8>) -> bool {
    d.len() > 0 && forall|i: int| 0 <= i < d.len() ==> is_digit(#[trigger] d[i])
}

/// The number that ASCII decimal digits `d` write.
pub open spec fn digits_value(d: Seq<u8>) -> int
    decreases d.len(),
{
    if d.len() == 0 {
        0
    } else {
        digits_value(d.drop_last()) * 10 + (d.last() - 0x30)
    }
}

/// The first position at or after `from` that holds `b`, or `s.len()`.
pub open spec fn find_byte(s: Seq<u8>, from: int, b: u8) -> int
    decreases s.len() - from,
{
    if from >= s.len() {
        s.len() as int
    } else if s[from] == b {
        from
    } else {
        find_byte(s, from + 1, b)
    }
}

/// The `i64` that text `t` writes: an optional sign, then digits.
pub open spec fn int_text_value(t: Seq<u8>) -> Option<int> {
    if t.len() > 0 && t[0] == MINUS {
        let d = t.drop_first();
        if all_digits(d) && digits_value(d) <= I64_MIN_MAGNITUDE {
            Some(-digits_value(d))
        } else {
            None
        }
    } else {
        let d = if t.len() > 0 && t[0] == PLUS {
            t.drop_first()
        } else {
            t
        };
        if all_digits(d) && digits_value(d) <= i64::MAX {
            Some(digits_value(d))
        } else {
            None
        }
    }
}

/// The value that starts at `pos` and the position just after it.
pub open spec fn parse_value(s: Seq<u8>, pos: int) -> Option<(BencodeModel, int)>
    decreases s.len() - pos, 0int,
{
    if pos < 0 || pos >= s.len() {
        None
    } else if s[pos] == INT_START {
        let e = find_byte(s, pos + 1, END);
        if e >= s.len() {
            None
        } else {
            match int_text_value(s.subrange(pos + 1, e)) {
                Some(v) => Some((BencodeModel::Integer(v), e + 1)),
                None => None,
            }
        }
    } else if s[pos] == LIST_START {
        parse_items(s, pos + 1, seq![])
    } else if s[pos] == DICT_START {
        parse_entries(s, pos + 1, seq![])
    } else if is_digit(s[pos]) {
        let colon = find_byte(s, pos, COLON);
        let n = digits_value(s.subrange(pos, colon));
        if colon < s.len() && all_digits(s.subrange(pos, colon)) && colon + 1 + n <= s.len() {
            Some((BencodeModel::Bytes(s.subrange(colon + 1, colon + 1 + n)), colon + 1 + n))
        } else {
            None
        }
    } else {
        None
    }
}

/// The rest of a list whose items so far are `acc`, from `pos` to its end.
pub open spec fn parse_items(s: Seq<u8>, pos: int, acc: Seq<BencodeModel>) -> Option<
    (BencodeModel, int),
>
    decreases s.len() - pos, 1int,
{
    if pos < 0 || pos >= s.len() {
        None
    } else if s[pos] == END {
        Some((BencodeModel::List(acc), pos + 1))
    } else {
        match parse_value(s, pos) {
            Some((v, next)) => if pos < next <= s.len() {
                parse_items(s, next, acc.push(v))
            } else {
                None
            },
            None => None,
        }
    }
}

/// The rest of a dictionary whose entries so far are `acc`, from `pos` to
/// its end; every key is a byte string.
pub open spec fn parse_entries(s: Seq<u8>, pos: int, acc: Seq<(Seq<u8>, BencodeModel)>) -> Option<
    (BencodeModel, int),
>
    decreases s.len() - pos, 1int,
{
    if pos < 0 || pos >= s.len() {
        None
    } else if s[pos] == END {
        Some((BencodeModel::Dict(acc), pos + 1))
    } else {
        match parse_value(s, pos) {
            Some((BencodeModel::Bytes(k), next)) => if pos < next <= s.len() {
                match parse_value(s, next) {
                    Some((v, after)) => if next < after <= s.len() {
                        parse_entries(s, after, acc.push((k, v)))
                    } else {
                        None
                    },
                    None => None,
                }
            } else {
                None
            },
            _ => None,
        }
    }
}

/// The position of the first `b` at or after `from`, or the length.
fn find(s: &[u8], from: usize, b: u8) -> (r: usize)
    requires
        from <= s@.len(),
    ensures
        r as int == find_byte(s@, from as int, b),
        from <= r <= s@.len(),
{
    let mut i = from;
    while i < s.len()
        invariant
            from <= i <= s@.len(),
            find_byte(s@, i as int, b) == find_byte(s@, from as int, b),
        decreases s@.len() - i,
    {
        if s[i] == b {
            return i;
        }
        i = i + 1;
    }
    i
}

proof fn lemma_digits_prefix(d: Seq<u8>, k: int)
    requires
        0 <= k <= d.len(),
        forall|i: int| 0 <= i < d.len() ==> is_digit(#[trigger] d[i]),
    ensures
        0 <= digits_value(d.subrange(0, k)) <= digits_value(d),
    decreases d.len() - k,
{
    if k == d.len() {
        assert(d.subrange(0, k) =~= d);
        lemma_digits_nonneg(d);
    } else {
        lemma_digits_prefix(d, k + 1);
        let p = d.subrange(0, k + 1);
        assert(p.drop_last() =~= d.subrange(0, k));
        lemma_digits_nonneg(d.subrange(0, k));
    }
}

proof fn lemma_digits_nonneg(d: Seq<u8>)
    requires
        forall|i: int| 0 <= i < d.len() ==> is_digit(#[trigger] d[i]),
    ensures
        digits_value(d) >= 0,
    decreases d.len(),
{
    if d.len() > 0 {
        assert(forall|i: int| 0 <= i < d.drop_last().len() ==> d.drop_last()[i] == d[i]);
        lemma_digits_nonneg(d.drop_last());
    }
}

/// The number that the digits `s[from..to]` write, when they are all digits
/// and that number is at most `limit`.
fn digits_within(s: &[u8], from: usize, to: usize, limit: u128) -> (r: Option<u128>)
    requires
        from <= to <= s@.len(),
        limit <= u64::MAX,
    ensures
        r is Some <==> all_digits(s@.subrange(from as int, to as int)) && digits_value(
            s@.subrange(from as int, to as int),
        ) <= limit,
        r matches Some(v) ==> v == digits_value(s@.subrange(from as int, to as int)),
{
    let ghost d = s@.subrange(from as int, to as int);
    if from == to {
        return None;
    }
    let mut acc: u128 = 0;
    let mut i = from;
    while i < to
        invariant
            from <= i <= to <= s@.len(),
            d == s@.subrange(from as int, to as int),
            limit <= u64::MAX,
            forall|k: int| 0 <= k < i - from ==> is_digit(#[trigger] d[k]),
            acc == digits_value(d.subrange(0, i - from)),
            acc <= limit,
        decreases to - i,
    {
        let b = s[i];
        if b < 0x30 || b > 0x39 {
            assert(!is_digit(d[i - from]));
            return None;
        }
        let next = acc * 10 + (b - 0x30) as u128;
        proof {
            let p = d.subrange(0, i - from + 1);
            assert(p.drop_last() =~= d.subrange(0, i - from));
        }
        if next > limit {
            proof {
                if forall|k: int| 0 <= k < d.len() ==> is_digit(#[trigger] d[k]) {
                    lemma_digits_prefix(d, i - from + 1);
                }
            }
            return None;
        }
        acc = next;
        i = i + 1;
    }
    assert(d.subrange(0, i - from) =~= d);
    Some(acc)
}

/// The `i64` that the text `s[from..to]` writes.
fn int_within(s: &[u8], from: usize, to: usize) -> (r: Option<i64>)
    requires
        from <= to <= s@.len(),
    ensures
        r matches Some(v) ==> int_text_value(s@.subrange(from as int, to as int)) == Some(
            v as int,
        ),
        r is None ==> int_text_value(s@.subrange(from as int, to as int)) is None,
{
    let ghost t = s@.subrange(from as int, to as int);
    if from < to && s[from] == MINUS {
        assert(t.drop_first() =~= s@.subrange(from + 1, to as int));
        match digits_within(s, from + 1, to, I64_MIN_MAGNITUDE) {
            Some(v) => Some((-(v as i128)) as i64),
            None => None,
        }
    } else {
        let start = if from < to && s[from] == PLUS {
            from + 1
        } else {
            from
        };
        assert(t.len() > 0 && t[0] == PLUS ==> t.drop_first() =~= s@.subrange(start as int, to as int));
        assert(!(t.len() > 0 && t[0] == PLUS) ==> t =~= s@.subrange(start as int, to as int));
        match digits_within(s, start, to, 9223372036854775807) {
            Some(v) => Some(v as i64),
            None => None,
        }
    }
}

/// The models of decoded items.
pub open spec fn models(v: Seq<BencodeValue>) -> Seq<BencodeModel> {
    Seq::new(v.len(), |i: int| v[i].model())
}

/// The models of decoded dictionary entries.
pub open spec fn entry_models(v: Seq<(Vec<u8>, BencodeValue)>) -> Seq<(Seq<u8>, BencodeModel)> {
    Seq::new(v.len(), |i: int| (v[i].0@, v[i].1.model()))
}

/// Decodes the value that starts at `pos`; returns it with the position just
/// after it.
fn decode_at(s: &[u8], pos: usize) -> (r: Option<(BencodeValue, usize)>)
    requires
        pos <= s@.len(),
    ensures
        match r {
            Some((v, end)) => parse_value(s@, pos as int) == Some((v.model(), end as int)) && pos
                < end <= s@.len(),
            None => parse_value(s@, pos as int) is None,
        },
    decreases s@.len() - pos,
{
    if pos >= s.len() {
        return None;
    }
    let c = s[pos];
    if c == INT_START {
        let e = find(s, pos + 1, END);
        if e >= s.len() {
            return None;
        }
        match int_within(s, pos + 1, e) {
            Some(v) => Some((BencodeValue::Integer(v), e + 1)),
            None => None,
        }
    } else if c == LIST_START {
        let mut items: Vec<BencodeValue> = Vec::new();
        let mut p = pos + 1;
        assert(models(items@) =~= seq![]);
        assert(parse_value(s@, pos as int) == parse_items(s@, pos + 1, seq![]));
        while p < s.len() && s[p] != END
            invariant
                pos < p <= s@.len(),
                parse_items(s@, p as int, models(items@)) == parse_items(s@, pos + 1, seq![]),
                parse_value(s@, pos as int) == parse_items(s@, pos + 1, seq![]),
            decreases s@.len() - p,
        {
            match decode_at(s, p) {
                Some((v, next)) => {
                    let ghost before = models(items@);
                    items.push(v);
                    assert(models(items@) =~= before.push(v.model()));
                    p = next;
                },
                None => {
                    assert(parse_items(s@, p as int, models(items@)) is None);
                    return None;
                },
            }
        }
        if p >= s.len() {
            return None;
        }
        let ghost iv = items@;
        let r = BencodeValue::List(items);
        proof {
            let m = r.model()->List_0;
            assert(m =~= models(iv));
        }
        Some((r, p + 1))
    } else if c == DICT_START {
        let mut entries: Vec<(Vec<u8>, BencodeValue)> = Vec::new();
        let mut p = pos + 1;
        assert(entry_models(entries@) =~= seq![]);
        assert(parse_value(s@, pos as int) == parse_entries(s@, pos + 1, seq![]));
        while p < s.len() && s[p] != END
            invariant
                pos < p <= s@.len(),
                parse_entries(s@, p as int, entry_models(entries@)) == parse_entries(
                    s@,
                    pos + 1,
                    seq![],
                ),
                parse_value(s@, pos as int) == parse_entries(s@, pos + 1, seq![]),
            decreases s@.len() - p,
        {
            let key = match decode_at(s, p) {
                Some((BencodeValue::Bytes(k), next)) => (k, next),
                _ => {
                    assert(parse_entries(s@, p as int, entry_models(entries@)) is None);
                    return None;
                },
            };
            let (k, next) = key;
            match decode_at(s, next) {
                Some((v, after)) => {
                    let ghost before = entry_models(entries@);
                    entries.push((k, v));
                    assert(entry_models(entries@) =~= before.push((k@, v.model())));
                    p = after;
                },
                None => {
                    assert(parse_entries(s@, p as int, entry_models(entries@)) is None);
                    return None;
                },
            }
        }
        if p >= s.len() {
            return None;
        }
        let ghost ev = entries@;
        let r = BencodeValue::Dict(entries);
        proof {
            let m = r.model()->Dict_0;
            assert(m =~= entry_models(ev));
        }
        Some((r, p + 1))
    } else if 0x30 <= c && c <= 0x39 {
        let colon = find(s, pos, COLON);
        if colon >= s.len() {
            return None;
        }
        match digits_within(s, pos, colon, (s.len() - colon - 1) as u128) {
            Some(n) => {
                let n = n as usize;
                let end = colon + 1 + n;
                Some((BencodeValue::Bytes(copy_range(s, colon + 1, end)), end))
            },
            None => {
                proof {
                    let d = s@.subrange(pos as int, colon as int);
                    if all_digits(d) {
                        lemma_digits_nonneg(d);
                    }
                }
                None
            },
        }
    } else {
        None
    }
}

/// Decodes one bencode value at the start of `encoded`; returns it with the
/// number of bytes it takes, or `None` when the bytes do not start with a
/// well-formed value.
pub fn decode_bencoded_value(encoded: &[u8]) -> (r: Option<(BencodeValue, usize)>)
    ensures
        match r {
            Some((v, n)) => parse_value(encoded@, 0) == Some((v.model(), n as int)),
            None => parse_value(encoded@, 0) is None,
        },
{
    decode_at(encoded, 0)
}

} // verus!
