//! The bencode format: byte strings, integers, lists and dictionaries.
use vstd::prelude::*;

verus! {

/// A decoded bencode value. Dictionary entries are kept in key order.
#[derive(Debug)]
pub enum Value {
    Bytes(Vec<u8>),
    Int(i64),
    List(Vec<Value>),
    Dict(Vec<(Vec<u8>, Value)>),
}

/// The mathematical form of a bencode value.
pub enum BValue {
    Bytes(Seq<u8>),
    Int(int),
    List(Seq<BValue>),
    Dict(Seq<(Seq<u8>, BValue)>),
}

pub open spec fn view_value(v: Value) -> BValue
    decreases v, 0int,
{
    match v {
        Value::Bytes(b) => BValue::Bytes(b@),
        Value::Int(i) => BValue::Int(i as int),
        Value::List(items) => BValue::List(view_list(items@)),
        Value::Dict(entries) => BValue::Dict(view_entries(entries@)),
    }
}

pub open spec fn view_list(items: Seq<Value>) -> Seq<BValue>
    decreases items, 1int,
{
    if items.len() == 0 {
        Seq::empty()
    } else {
        view_list(items.subrange(0, items.len() - 1)).push(view_value(items[items.len() - 1]))
    }
}

pub open spec fn view_entries(entries: Seq<(Vec<u8>, Value)>) -> Seq<(Seq<u8>, BValue)>
    decreases entries, 1int,
{
    if entries.len() == 0 {
        Seq::empty()
    } else {
        let last = entries[entries.len() - 1];
        view_entries(entries.subrange(0, entries.len() - 1)).push((last.0@, view_value(last.1)))
    }
}

impl View for Value {
    type V = BValue;

    open spec fn view(&self) -> BValue {
        view_value(*self)
    }
}

pub proof fn lemma_view_list(items: Seq<Value>)
    ensures
        view_list(items).len() == items.len(),
        forall|i: int| 0 <= i < items.len() ==> #[trigger] view_list(items)[i] == items[i]@,
    decreases items.len(),
{
    if items.len() > 0 {
        let p = items.subrange(0, items.len() - 1);
        lemma_view_list(p);
        assert forall|i: int| 0 <= i < items.len() - 1 implies #[trigger] view_list(items)[i] == items[i]@ by {
            assert(p[i] == items[i]);
        }
    }
}

pub proof fn lemma_view_entries(entries: Seq<(Vec<u8>, Value)>)
    ensures
        view_entries(entries).len() == entries.len(),
        forall|i: int| 0 <= i < entries.len() ==> #[trigger] view_entries(entries)[i] == (entries[i].0@, entries[i].1@),
    decreases entries.len(),
{
    if entries.len() > 0 {
        let p = entries.subrange(0, entries.len() - 1);
        lemma_view_entries(p);
        assert forall|i: int| 0 <= i < entries.len() - 1 implies #[trigger] view_entries(entries)[i] == (entries[i].0@, entries[i].1@) by {
            assert(p[i] == entries[i]);
        }
    }
}

pub open spec fn is_digit(b: u8) -> bool {
    48 <= b <= 57
}

/// The canonical decimal text of a natural number.
pub open spec fn decimal(n: nat) -> Seq<u8>
    decreases n,
{
    if n < 10 {
        seq![(48 + n) as u8]
    } else {
        decimal(n / 10).push((48 + n % 10) as u8)
    }
}

pub open spec fn abs(i: int) -> nat {
    if i < 0 {
        (-i) as nat
    } else {
        i as nat
    }
}

/// The text of an integer: an optional minus sign, then its decimal digits.
pub open spec fn int_text(i: int) -> Seq<u8> {
    if i < 0 {
        seq![45u8] + decimal(abs(i))
    } else {
        decimal(abs(i))
    }
}

/// `<length>:<bytes>`
pub open spec fn encode_bytes(b: Seq<u8>) -> Seq<u8> {
    decimal(b.len()) + seq![58u8] + b
}

pub open spec fn encode(v: BValue) -> Seq<u8>
    decreases v, 0int,
{
    match v {
        BValue::Bytes(b) => encode_bytes(b),
        BValue::Int(i) => seq![105u8] + int_text(i) + seq![101u8],
        BValue::List(items) => seq![108u8] + encode_list(items) + seq![101u8],
        BValue::Dict(entries) => seq![100u8] + encode_dict(entries) + seq![101u8],
    }
}

/// The concatenated encodings of a sequence of values.
pub open spec fn encode_list(items: Seq<BValue>) -> Seq<u8>
    decreases items, 1int,
{
    if items.len() == 0 {
        Seq::empty()
    } else {
        encode_list(items.subrange(0, items.len() - 1)) + encode(items[items.len() - 1])
    }
}

/// The concatenated encodings of dictionary entries, each key then its value.
pub open spec fn encode_dict(entries: Seq<(Seq<u8>, BValue)>) -> Seq<u8>
    decreases entries, 1int,
{
    if entries.len() == 0 {
        Seq::empty()
    } else {
        let last = entries[entries.len() - 1];
        encode_dict(entries.subrange(0, entries.len() - 1)) + encode_bytes(last.0) + encode(last.1)
    }
}

/// `a` sorts strictly before `b`, comparing raw bytes lexicographically.
pub open spec fn lex_lt(a: Seq<u8>, b: Seq<u8>) -> bool {
    exists|k: int|
        0 <= k <= a.len() && k <= b.len() && a.subrange(0, k) =~= b.subrange(0, k) && (
        (k == a.len() && k < b.len()) || (k < a.len() && k < b.len() && a[k] < b[k]))
}

/// Dictionary keys are strictly ascending.
pub open spec fn keys_ascending(entries: Seq<(Seq<u8>, BValue)>) -> bool {
    forall|i: int| 0 < i < entries.len() ==> lex_lt(#[trigger] entries[i - 1].0, entries[i].0)
}

/// A value with a canonical encoding: every dictionary's keys ascend.
pub open spec fn valid(v: BValue) -> bool
    decreases v,
{
    match v {
        BValue::Bytes(_) => true,
        BValue::Int(i) => i64::MIN <= i <= i64::MAX,
        BValue::List(items) => forall|i: int| 0 <= i < items.len() ==> valid(#[trigger] items[i]),
        BValue::Dict(entries) => keys_ascending(entries) && forall|i: int|
            0 <= i < entries.len() ==> valid(#[trigger] entries[i].1),
    }
}

proof fn lemma_encode_list_step(items: Seq<BValue>, i: int)
    requires
        0 <= i < items.len(),
    ensures
        encode_list(items.subrange(0, i + 1)) == encode_list(items.subrange(0, i)) + encode(items[i]),
{
    let s = items.subrange(0, i + 1);
    assert(s.subrange(0, s.len() - 1) =~= items.subrange(0, i));
}

proof fn lemma_encode_dict_step(entries: Seq<(Seq<u8>, BValue)>, i: int)
    requires
        0 <= i < entries.len(),
    ensures
        encode_dict(entries.subrange(0, i + 1)) == encode_dict(entries.subrange(0, i))
            + encode_bytes(entries[i].0) + encode(entries[i].1),
{
    let s = entries.subrange(0, i + 1);
    assert(s.subrange(0, s.len() - 1) =~= entries.subrange(0, i));
}

/// Appends the decimal digits of `n`.
fn push_decimal(n: u64, out: &mut Vec<u8>)
    ensures
        final(out)@ == old(out)@ + decimal(n as nat),
    decreases n,
{
    if n < 10 {
        out.push((48 + n) as u8);
        assert(final(out)@ =~= old(out)@ + decimal(n as nat));
    } else {
        push_decimal(n / 10, out);
        out.push((48 + n % 10) as u8);
        assert(out@ =~= old(out)@ + decimal(n as nat));
    }
}

/// Appends the bytes of `src`.
pub fn push_all(src: &[u8], out: &mut Vec<u8>)
    ensures
        final(out)@ == old(out)@ + src@,
{
    let mut i: usize = 0;
    while i < src.len()
        invariant
            i <= src@.len(),
            out@ == old(out)@ + src@.subrange(0, i as int),
        decreases src@.len() - i,
    {
        out.push(src[i]);
        i = i + 1;
        assert(out@ =~= old(out)@ + src@.subrange(0, i as int));
    }
    assert(src@.subrange(0, i as int) =~= src@);
}

fn push_bytes(b: &[u8], out: &mut Vec<u8>)
    ensures
        final(out)@ == old(out)@ + encode_bytes(b@),
{
    push_decimal(b.len() as u64, out);
    out.push(58u8);
    push_all(b, out);
    assert(out@ =~= old(out)@ + encode_bytes(b@));
}

/// Appends the encoding of `v`.
pub fn encode_into(v: &Value, out: &mut Vec<u8>)
    ensures
        final(out)@ == old(out)@ + encode(v@),
    decreases v,
{
    match v {
        Value::Bytes(b) => {
            push_bytes(b.as_slice(), out);
        },
        Value::Int(i) => {
            out.push(105u8);
            if *i < 0 {
                out.push(45u8);
                let m: u64 = (-(*i as i128)) as u64;
                push_decimal(m, out);
            } else {
                push_decimal(*i as u64, out);
            }
            out.push(101u8);
            assert(out@ =~= old(out)@ + encode(v@));
        },
        Value::List(items) => {
            out.push(108u8);
            let ghost start = out@;
            let mut i: usize = 0;
            while i < items.len()
                invariant
                    i <= items@.len(),
                    out@ == start + encode_list(view_list(items@).subrange(0, i as int)),
                    *v == Value::List(*items),
                decreases items@.len() - i,
            {
                proof {
                    lemma_view_list(items@);
                    lemma_encode_list_step(view_list(items@), i as int);
                    assert(decreases_to!(*v => v->List_0));
                    assert(decreases_to!(*items => items@));
                    assert(decreases_to!(items@ => items@[i as int]));
                }
                encode_into(&items[i], out);
                i = i + 1;
            }
            proof {
                lemma_view_list(items@);
                assert(view_list(items@).subrange(0, i as int) =~= view_list(items@));
            }
            out.push(101u8);
            assert(out@ =~= old(out)@ + encode(v@));
        },
        Value::Dict(entries) => {
            out.push(100u8);
            let ghost start = out@;
            let mut i: usize = 0;
            while i < entries.len()
                invariant
                    i <= entries@.len(),
                    out@ == start + encode_dict(view_entries(entries@).subrange(0, i as int)),
                    *v == Value::Dict(*entries),
                decreases entries@.len() - i,
            {
                proof {
                    lemma_view_entries(entries@);
                    lemma_encode_dict_step(view_entries(entries@), i as int);
                    assert(decreases_to!(*v => v->Dict_0));
                    assert(decreases_to!(*entries => entries@));
                    assert(decreases_to!(entries@ => entries@[i as int]));
                    assert(decreases_to!(entries@[i as int] => entries@[i as int].1));
                }
                push_bytes(entries[i].0.as_slice(), out);
                encode_into(&entries[i].1, out);
                i = i + 1;
            }
            proof {
                lemma_view_entries(entries@);
                assert(view_entries(entries@).subrange(0, i as int) =~= view_entries(entries@));
            }
            out.push(101u8);
            assert(out@ =~= old(out)@ + encode(v@));
        },
    }
}

/// The encoding of `v`.
pub fn encode_value(v: &Value) -> (r: Vec<u8>)
    ensures
        r@ == encode(v@),
{
    let mut out: Vec<u8> = Vec::new();
    encode_into(v, &mut out);
    assert(out@ =~= encode(v@));
    out
}


pub open spec fn all_digits(ds: Seq<u8>) -> bool {
    forall|i: int| 0 <= i < ds.len() ==> is_digit(#[trigger] ds[i])
}

/// The number that a run of decimal digits spells.
pub open spec fn digits_value(ds: Seq<u8>) -> nat
    decreases ds.len(),
{
    if ds.len() == 0 {
        0
    } else {
        digits_value(ds.subrange(0, ds.len() - 1)) * 10 + (ds[ds.len() - 1] - 48) as nat
    }
}

/// Digits without a superfluous leading zero.
pub open spec fn canonical_digits(ds: Seq<u8>) -> bool {
    ds.len() > 0 && all_digits(ds) && (ds[0] != 48 || ds.len() == 1)
}

proof fn lemma_decimal(n: nat)
    ensures
        canonical_digits(decimal(n)),
        digits_value(decimal(n)) == n,
        n > 0 ==> decimal(n)[0] != 48,
    decreases n,
{
    let d = decimal(n);
    if n < 10 {
        assert(d.subrange(0, 0) =~= Seq::<u8>::empty());
        assert(d[0] == 48 + n);
        assert(digits_value(d) == digits_value(d.subrange(0, 0)) * 10 + n);
    } else {
        lemma_decimal(n / 10);
        let p = decimal(n / 10);
        assert(d.subrange(0, d.len() - 1) =~= p);
        assert(d[d.len() - 1] == 48 + n % 10);
        assert(n == (n / 10) * 10 + n % 10);
        assert(digits_value(d) == digits_value(p) * 10 + n % 10);
        assert(d[0] == p[0]);
    }
}

proof fn lemma_value_positive(ds: Seq<u8>)
    requires
        ds.len() > 0,
        all_digits(ds),
        ds[0] != 48,
    ensures
        digits_value(ds) >= 1,
    decreases ds.len(),
{
    if ds.len() > 1 {
        let p = ds.subrange(0, ds.len() - 1);
        assert(p[0] == ds[0]);
        lemma_value_positive(p);
    }
}

proof fn lemma_canonical_decimal(ds: Seq<u8>)
    requires
        canonical_digits(ds),
    ensures
        decimal(digits_value(ds)) == ds,
    decreases ds.len(),
{
    if ds.len() == 1 {
        assert(ds.subrange(0, 0) =~= Seq::<u8>::empty());
        assert(digits_value(ds.subrange(0, 0)) == 0);
        assert(digits_value(ds) == ds[0] - 48);
        assert(decimal(digits_value(ds)) =~= ds);
    } else {
        let p = ds.subrange(0, ds.len() - 1);
        assert(p[0] == ds[0]);
        lemma_canonical_decimal(p);
        lemma_value_positive(p);
        let n = digits_value(ds);
        let m = digits_value(p);
        let d = (ds[ds.len() - 1] - 48) as nat;
        assert(n == m * 10 + d);
        assert(n / 10 == m && n % 10 == d) by (nonlinear_arith)
            requires
                n == m * 10 + d,
                d < 10,
        ;
        assert(decimal(n) =~= ds);
    }
}

/// The first index at or after `p` that does not hold a digit.
pub open spec fn digit_end(s: Seq<u8>, p: int) -> int
    decreases s.len() - p,
{
    if p < 0 || p >= s.len() || !is_digit(s[p]) {
        p
    } else {
        digit_end(s, p + 1)
    }
}

/// The first index at or after `p` that does not hold a digit.
fn scan_digits(input: &[u8], p: usize) -> (q: usize)
    requires
        p <= input@.len(),
    ensures
        q == digit_end(input@, p as int),
        p <= q <= input@.len(),
        all_digits(input@.subrange(p as int, q as int)),
        q < input@.len() ==> !is_digit(input@[q as int]),
{
    let mut q = p;
    while q < input.len() && 48 <= input[q] && input[q] <= 57
        invariant
            p <= q <= input@.len(),
            all_digits(input@.subrange(p as int, q as int)),
            digit_end(input@, p as int) == digit_end(input@, q as int),
        decreases input@.len() - q,
    {
        q = q + 1;
        assert(forall|i: int| 0 <= i < q - p ==> input@.subrange(p as int, q as int)[i] == input@[p + i]);
    }
    q
}

/// Where the digits of a number end: if `ds` followed by a non-digit stands at
/// `p`, a scan from `p` stops right after `ds`.
proof fn lemma_scan_stops(input: Seq<u8>, p: int, q: int, ds: Seq<u8>)
    requires
        0 <= p <= q <= input.len(),
        all_digits(input.subrange(p, q)),
        q < input.len() ==> !is_digit(input[q]),
        all_digits(ds),
        p + ds.len() < input.len(),
        input.subrange(p, p + ds.len()) == ds,
        !is_digit(input[p + ds.len()]),
    ensures
        q == p + ds.len(),
{
    if q < p + ds.len() {
        assert(input[q] == ds[q - p]);
    } else if q > p + ds.len() {
        assert(input.subrange(p, q)[ds.len() as int] == input[p + ds.len()]);
    }
}

/// The value of the digits in `[p, q)`, or `None` when it exceeds `limit`.
fn parse_digits(input: &[u8], p: usize, q: usize, limit: u64) -> (r: Option<u64>)
    requires
        p <= q <= input@.len(),
        all_digits(input@.subrange(p as int, q as int)),
    ensures
        r == (if digits_value(input@.subrange(p as int, q as int)) <= limit {
            Some(digits_value(input@.subrange(p as int, q as int)) as u64)
        } else {
            None::<u64>
        }),
{
    let mut acc: u64 = 0;
    let mut over = false;
    let mut i = p;
    while i < q
        invariant
            p <= i <= q <= input@.len(),
            all_digits(input@.subrange(p as int, q as int)),
            over <==> digits_value(input@.subrange(p as int, i as int)) > limit,
            !over ==> acc == digits_value(input@.subrange(p as int, i as int)),
        decreases q - i,
    {
        let ghost prev = input@.subrange(p as int, i as int);
        let ghost next = input@.subrange(p as int, i + 1);
        assert(next.subrange(0, next.len() - 1) =~= prev);
        assert(input@.subrange(p as int, q as int)[i - p] == input@[i as int]);
        let d = (input[i] - 48) as u64;
        assert(digits_value(next) == digits_value(prev) * 10 + d);
        if !over {
            if d > limit || acc > (limit - d) / 10 {
                over = true;
                assert(digits_value(next) > limit) by (nonlinear_arith)
                    requires
                        digits_value(next) == acc * 10 + d,
                        d > limit || acc > (limit - d) / 10,
                        limit >= 0,
                ;
            } else {
                assert(acc * 10 + d <= limit) by (nonlinear_arith)
                    requires
                        acc <= (limit - d) / 10,
                        d <= limit,
                ;
                acc = acc * 10 + d;
            }
        }
        i = i + 1;
    }
    if over {
        None
    } else {
        Some(acc)
    }
}


/// What went wrong while decoding.
#[derive(Debug, Clone, Copy, PartialEq, Eq, Structural)]
pub enum DecodeErrorKind {
    /// The input ended inside a value.
    UnexpectedEnd,
    /// A byte that cannot stand where it was found.
    UnexpectedByte,
    /// A number written with a superfluous leading zero.
    LeadingZero,
    /// The integer `-0`.
    NegativeZero,
    /// An integer outside the signed 64-bit range.
    OutOfRange,
    /// Dictionary keys not in strictly ascending order.
    UnsortedKeys,
    /// Bytes left over after a complete value.
    TrailingData,
}

/// A decoding failure and the byte offset where it was detected.
#[derive(Debug, Clone, Copy, PartialEq, Eq, Structural)]
pub struct DecodeError {
    pub kind: DecodeErrorKind,
    pub offset: usize,
}

pub open spec fn error_at(kind: DecodeErrorKind, offset: int) -> DecodeError {
    DecodeError { kind, offset: offset as usize }
}

/// The error, if any, in reading an integer `i<digits>e` whose `i` is at
/// `pos`.
pub open spec fn int_error(s: Seq<u8>, pos: int) -> Option<DecodeError> {
    let neg = pos + 1 < s.len() && s[pos + 1] == 45u8;
    let p = if neg { pos + 2 } else { pos + 1 };
    let q = digit_end(s, p);
    let limit: int = if neg { 0x8000_0000_0000_0000 } else { 0x7fff_ffff_ffff_ffff };
    if q == s.len() {
        Some(error_at(DecodeErrorKind::UnexpectedEnd, q))
    } else if q == p || s[q] != 101u8 {
        Some(error_at(DecodeErrorKind::UnexpectedByte, q))
    } else if s[p] == 48u8 && q - p > 1 {
        Some(error_at(DecodeErrorKind::LeadingZero, p))
    } else if digits_value(s.subrange(p, q)) > limit {
        Some(error_at(DecodeErrorKind::OutOfRange, p))
    } else if neg && digits_value(s.subrange(p, q)) == 0 {
        Some(error_at(DecodeErrorKind::NegativeZero, p))
    } else {
        None
    }
}

/// The error, if any, in reading a byte string `<length>:<bytes>` at `pos`.
pub open spec fn bytes_error(s: Seq<u8>, pos: int) -> Option<DecodeError> {
    let q = digit_end(s, pos);
    if q == s.len() {
        Some(error_at(DecodeErrorKind::UnexpectedEnd, q))
    } else if q == pos || s[q] != 58u8 {
        Some(error_at(DecodeErrorKind::UnexpectedByte, q))
    } else if s[pos] == 48u8 && q - pos > 1 {
        Some(error_at(DecodeErrorKind::LeadingZero, pos))
    } else if digits_value(s.subrange(pos, q)) > s.len() - q - 1 {
        Some(error_at(DecodeErrorKind::UnexpectedEnd, s.len() as int))
    } else {
        None
    }
}

/// A dictionary whose values are each valid but whose keys are not in
/// strictly ascending order.
pub open spec fn unsorted_dict(es: Seq<(Seq<u8>, BValue)>) -> bool {
    &&& forall|i: int| 0 <= i < es.len() ==> valid(#[trigger] es[i].1)
    &&& !keys_ascending(es)
}

/// An error reports the end of the input exactly when the input ran out.
pub open spec fn error_placed(e: DecodeError, len: int) -> bool {
    &&& (e.kind == DecodeErrorKind::UnexpectedEnd <==> e.offset == len)
    &&& e.offset <= len
    &&& e.kind != DecodeErrorKind::TrailingData
}

fn fail<T>(kind: DecodeErrorKind, offset: usize) -> (r: Result<T, DecodeError>)
    ensures
        r == Err::<T, DecodeError>(DecodeError { kind, offset }),
{
    Err(DecodeError { kind, offset })
}

/// `s` stands in `input` at `pos`.
pub open spec fn occurs_at(input: Seq<u8>, pos: int, s: Seq<u8>) -> bool {
    0 <= pos && pos + s.len() <= input.len() && input.subrange(pos, pos + s.len()) == s
}

/// A valid value whose encoding stands in `input` at `pos`.
pub open spec fn encodes_at(input: Seq<u8>, pos: int, v: BValue) -> bool {
    valid(v) && occurs_at(input, pos, encode(v))
}

proof fn lemma_occurs_split(input: Seq<u8>, pos: int, a: Seq<u8>, b: Seq<u8>)
    requires
        occurs_at(input, pos, a + b),
    ensures
        occurs_at(input, pos, a),
        occurs_at(input, pos + a.len(), b),
{
    let whole = input.subrange(pos, pos + a.len() + b.len());
    assert(whole =~= a + b);
    assert(input.subrange(pos, pos + a.len()) =~= whole.subrange(0, a.len() as int));
    assert(whole.subrange(0, a.len() as int) =~= a);
    assert(input.subrange(pos + a.len(), pos + a.len() + b.len()) =~= whole.subrange(
        a.len() as int,
        whole.len() as int,
    ));
    assert(whole.subrange(a.len() as int, whole.len() as int) =~= b);
}

proof fn lemma_occurs_join(input: Seq<u8>, pos: int, a: Seq<u8>, b: Seq<u8>)
    requires
        occurs_at(input, pos, a),
        occurs_at(input, pos + a.len(), b),
    ensures
        occurs_at(input, pos, a + b),
{
    assert(input.subrange(pos, pos + a.len() + b.len()) =~= a + b);
}

/// Reads a byte string `<length>:<bytes>` at `pos`.
fn decode_bytes_at(input: &[u8], pos: usize) -> (r: Result<(Vec<u8>, usize), DecodeError>)
    requires
        pos <= input@.len(),
    ensures
        r matches Ok((b, end)) ==> occurs_at(input@, pos as int, encode_bytes(b@)) && end == pos
            + encode_bytes(b@).len(),
        forall|b: Seq<u8>|
            occurs_at(input@, pos as int, #[trigger] encode_bytes(b)) ==> (r matches Ok((bv, _))
                && bv@ == b),
        r is Err <==> bytes_error(input@, pos as int) is Some,
        r matches Err(e) ==> bytes_error(input@, pos as int) == Some(e) && error_placed(e, input@.len() as int)
            && e.kind != DecodeErrorKind::UnsortedKeys,
{
    let q = scan_digits(input, pos);
    let ghost complete = forall|b: Seq<u8>|
        occurs_at(input@, pos as int, #[trigger] encode_bytes(b)) ==> {
            &&& q == pos + decimal(b.len()).len()
            &&& q > pos
            &&& q < input@.len()
            &&& input@[q as int] == 58u8
            &&& input@.subrange(pos as int, q as int) == decimal(b.len())
            &&& occurs_at(input@, q as int, seq![58u8] + b)
        };
    assert(complete) by {
        assert forall|b: Seq<u8>| occurs_at(input@, pos as int, #[trigger] encode_bytes(b)) implies {
            &&& q == pos + decimal(b.len()).len()
            &&& q > pos
            &&& q < input@.len()
            &&& input@[q as int] == 58u8
            &&& input@.subrange(pos as int, q as int) == decimal(b.len())
            &&& occurs_at(input@, q as int, seq![58u8] + b)
        } by {
            let ds = decimal(b.len());
            lemma_decimal(b.len());
            assert(encode_bytes(b) =~= ds + (seq![58u8] + b));
            lemma_occurs_split(input@, pos as int, ds, seq![58u8] + b);
            assert(input@.subrange(pos + ds.len(), pos + ds.len() + 1 + b.len())[0] == input@[pos + ds.len()]);
            assert(input@[pos + ds.len()] == 58u8);
            lemma_scan_stops(input@, pos as int, q as int, ds);
        }
    }
    if q == input.len() {
        return fail(DecodeErrorKind::UnexpectedEnd, q);
    }
    if q == pos || input[q] != 58u8 {
        return fail(DecodeErrorKind::UnexpectedByte, q);
    }
    if input[pos] == 48u8 && q - pos > 1 {
        proof {
            assert forall|b: Seq<u8>| !occurs_at(input@, pos as int, #[trigger] encode_bytes(b)) by {
                if occurs_at(input@, pos as int, encode_bytes(b)) {
                    lemma_decimal(b.len());
                    assert(input@.subrange(pos as int, q as int)[0] == input@[pos as int]);
                }
            }
        }
        return fail(DecodeErrorKind::LeadingZero, pos);
    }
    let n = parse_digits(input, pos, q, (input.len() - q - 1) as u64);
    let ghost ds = input@.subrange(pos as int, q as int);
    proof {
        assert forall|b: Seq<u8>| occurs_at(input@, pos as int, #[trigger] encode_bytes(b)) implies digits_value(ds) == b.len()
            && b.len() <= input@.len() - q - 1 by {
            lemma_decimal(b.len());
        }
    }
    match n {
        None => {
            return fail(DecodeErrorKind::UnexpectedEnd, input.len());
        },
        Some(n) => {
            let n = n as usize;
            let mut b: Vec<u8> = Vec::new();
            push_all(&input[q + 1..q + 1 + n], &mut b);
            proof {
                assert(canonical_digits(ds)) by {
                    assert(ds[0] == input@[pos as int]);
                }
                lemma_canonical_decimal(ds);
                assert(input@.subrange(pos as int, q + 1 + n) =~= encode_bytes(b@));
                assert forall|bb: Seq<u8>| occurs_at(input@, pos as int, #[trigger] encode_bytes(bb)) implies b@ == bb by {
                    assert((seq![58u8] + bb).subrange(1, 1 + bb.len() as int) =~= bb);
                    assert(input@.subrange(q + 1, q + 1 + n) =~= input@.subrange(q as int, q + 1 + n).subrange(1, 1 + n as int));
                }
            }
            Ok((b, q + 1 + n))
        },
    }
}


proof fn lemma_int_layout(input: Seq<u8>, pos: int, i: int)
    requires
        occurs_at(input, pos, encode(BValue::Int(i))),
    ensures
        input[pos] == 105u8,
        pos + 1 < input.len(),
        (input[pos + 1] == 45u8) <==> i < 0,
        ({
            let at = if i < 0 { pos + 2 } else { pos + 1 };
            &&& occurs_at(input, at, decimal(abs(i)))
            &&& at + decimal(abs(i)).len() < input.len()
            &&& input[at + decimal(abs(i)).len()] == 101u8
        }),
{
    let ds = decimal(abs(i));
    lemma_decimal(abs(i));
    let sign: Seq<u8> = if i < 0 { seq![45u8] } else { Seq::empty() };
    assert(encode(BValue::Int(i)) =~= seq![105u8] + sign + (ds + seq![101u8]));
    lemma_occurs_split(input, pos, seq![105u8] + sign, ds + seq![101u8]);
    lemma_occurs_split(input, pos, seq![105u8], sign);
    assert(input.subrange(pos, pos + 1)[0] == input[pos]);
    if i < 0 {
        assert(input.subrange(pos + 1, pos + 2)[0] == input[pos + 1]);
    } else {
        assert(input.subrange(pos + 1, pos + 1 + ds.len() + 1)[0] == input[pos + 1]);
        assert(is_digit(ds[0]));
    }
    let at = pos + 1 + sign.len();
    lemma_occurs_split(input, at, ds, seq![101u8]);
    assert(input.subrange(at + ds.len(), at + ds.len() + 1)[0] == input[at + ds.len()]);
}

/// Reads an integer `i<digits>e` at `pos`.
#[verifier::rlimit(40)]
fn decode_int_at(input: &[u8], pos: usize) -> (r: Result<(i64, usize), DecodeError>)
    requires
        pos < input@.len(),
        input@[pos as int] == 105u8,
    ensures
        r matches Ok((i, end)) ==> occurs_at(input@, pos as int, encode(BValue::Int(i as int)))
            && end == pos + encode(BValue::Int(i as int)).len(),
        forall|i: int|
            i64::MIN <= i <= i64::MAX && occurs_at(input@, pos as int, #[trigger] encode(BValue::Int(i)))
                ==> (r matches Ok((j, _)) && j == i),
        r is Err <==> int_error(input@, pos as int) is Some,
        r matches Err(e) ==> int_error(input@, pos as int) == Some(e) && error_placed(e, input@.len() as int)
            && e.kind != DecodeErrorKind::UnsortedKeys,
{
    let len = input.len();
    let mut p: usize = pos + 1;
    let neg = p < len && input[p] == 45u8;
    if neg {
        p = p + 1;
    }
    let q = scan_digits(input, p);
    let ghost complete = forall|i: int|
        occurs_at(input@, pos as int, #[trigger] encode(BValue::Int(i))) ==> {
            &&& (neg <==> i < 0)
            &&& q == p + decimal(abs(i)).len()
            &&& q > p
            &&& q < input@.len()
            &&& input@[q as int] == 101u8
            &&& input@.subrange(p as int, q as int) == decimal(abs(i))
        };
    assert(complete) by {
        assert forall|i: int| occurs_at(input@, pos as int, #[trigger] encode(BValue::Int(i))) implies {
            &&& (neg <==> i < 0)
            &&& q == p + decimal(abs(i)).len()
            &&& q > p
            &&& q < input@.len()
            &&& input@[q as int] == 101u8
            &&& input@.subrange(p as int, q as int) == decimal(abs(i))
        } by {
            lemma_int_layout(input@, pos as int, i);
            lemma_decimal(abs(i));
            lemma_scan_stops(input@, p as int, q as int, decimal(abs(i)));
        }
    }
    if q == len {
        return fail(DecodeErrorKind::UnexpectedEnd, q);
    }
    if q == p || input[q] != 101u8 {
        return fail(DecodeErrorKind::UnexpectedByte, q);
    }
    let ghost ds = input@.subrange(p as int, q as int);
    if input[p] == 48u8 && q - p > 1 {
        proof {
            assert forall|i: int| !occurs_at(input@, pos as int, #[trigger] encode(BValue::Int(i))) by {
                if occurs_at(input@, pos as int, encode(BValue::Int(i))) {
                    lemma_decimal(abs(i));
                    assert(ds[0] == input@[p as int]);
                }
            }
        }
        return fail(DecodeErrorKind::LeadingZero, p);
    }
    let limit: u64 = if neg { 0x8000_0000_0000_0000u64 } else { 0x7fff_ffff_ffff_ffffu64 };
    let m = parse_digits(input, p, q, limit);
    proof {
        assert forall|i: int| i64::MIN <= i <= i64::MAX && occurs_at(input@, pos as int, #[trigger] encode(BValue::Int(i)))
            implies digits_value(ds) == abs(i) && abs(i) <= limit by {
            lemma_decimal(abs(i));
        }
    }
    match m {
        None => fail(DecodeErrorKind::OutOfRange, p),
        Some(m) => {
            if neg && m == 0 {
                return fail(DecodeErrorKind::NegativeZero, p);
            }
            let v: i64 = if !neg {
                m as i64
            } else if m == 0x8000_0000_0000_0000u64 {
                i64::MIN
            } else {
                -(m as i64)
            };
            proof {
                assert(canonical_digits(ds)) by {
                    assert(ds[0] == input@[p as int]);
                }
                lemma_canonical_decimal(ds);
                assert(abs(v as int) == m);
                assert(input@.subrange(pos as int, q + 1) =~= encode(BValue::Int(v as int)));
            }
            Ok((v, q + 1))
        },
    }
}


proof fn lemma_first_byte(w: BValue)
    ensures
        encode(w).len() > 0,
        encode(w)[0] != 101u8,
        encode(w)[0] == 105u8 ==> w is Int,
        encode(w)[0] == 108u8 ==> w is List,
        encode(w)[0] == 100u8 ==> w is Dict,
        is_digit(encode(w)[0]) <==> w is Bytes,
        w is Int ==> encode(w)[0] == 105u8,
        w is List ==> encode(w)[0] == 108u8,
        w is Dict ==> encode(w)[0] == 100u8,
{
    match w {
        BValue::Bytes(b) => {
            lemma_decimal(b.len());
            assert(encode(w)[0] == decimal(b.len())[0]);
        },
        _ => {},
    }
}

proof fn lemma_occurs_prefix(input: Seq<u8>, pos: int, a: Seq<u8>, m: int)
    requires
        occurs_at(input, pos, a),
        0 <= m <= a.len(),
    ensures
        occurs_at(input, pos, a.subrange(0, m)),
{
    assert(input.subrange(pos, pos + m) =~= input.subrange(pos, pos + a.len()).subrange(0, m));
}

proof fn lemma_list_prefix(s: Seq<BValue>, k: int)
    requires
        0 <= k <= s.len(),
    ensures
        encode_list(s.subrange(0, k)).len() <= encode_list(s).len(),
        encode_list(s).subrange(0, encode_list(s.subrange(0, k)).len() as int) == encode_list(
            s.subrange(0, k),
        ),
    decreases s.len(),
{
    if k == s.len() {
        assert(s.subrange(0, k) =~= s);
        assert(encode_list(s).subrange(0, encode_list(s).len() as int) =~= encode_list(s));
    } else {
        let p = s.subrange(0, s.len() - 1);
        lemma_list_prefix(p, k);
        assert(p.subrange(0, k) =~= s.subrange(0, k));
        let a = encode_list(s.subrange(0, k));
        assert(encode_list(s).subrange(0, a.len() as int) =~= encode_list(p).subrange(0, a.len() as int));
    }
}

proof fn lemma_dict_prefix(s: Seq<(Seq<u8>, BValue)>, k: int)
    requires
        0 <= k <= s.len(),
    ensures
        encode_dict(s.subrange(0, k)).len() <= encode_dict(s).len(),
        encode_dict(s).subrange(0, encode_dict(s.subrange(0, k)).len() as int) == encode_dict(
            s.subrange(0, k),
        ),
    decreases s.len(),
{
    if k == s.len() {
        assert(s.subrange(0, k) =~= s);
        assert(encode_dict(s).subrange(0, encode_dict(s).len() as int) =~= encode_dict(s));
    } else {
        let p = s.subrange(0, s.len() - 1);
        lemma_dict_prefix(p, k);
        assert(p.subrange(0, k) =~= s.subrange(0, k));
        let a = encode_dict(s.subrange(0, k));
        assert(encode_dict(s).subrange(0, a.len() as int) =~= encode_dict(p).subrange(0, a.len() as int));
    }
}

/// In a list encoded at `pos`, the item after the first `k` stands right after
/// their encodings.
proof fn lemma_list_item_at(input: Seq<u8>, pos: int, ws: Seq<BValue>, k: int)
    requires
        occurs_at(input, pos, encode(BValue::List(ws))),
        0 <= k < ws.len(),
    ensures
        occurs_at(input, pos + 1 + encode_list(ws.subrange(0, k)).len(), encode(ws[k])),
{
    let body = encode_list(ws);
    assert(encode(BValue::List(ws)) =~= seq![108u8] + (body + seq![101u8]));
    lemma_occurs_split(input, pos, seq![108u8], body + seq![101u8]);
    lemma_occurs_split(input, pos + 1, body, seq![101u8]);
    lemma_list_prefix(ws, k + 1);
    lemma_encode_list_step(ws, k);
    lemma_occurs_prefix(input, pos + 1, body, encode_list(ws.subrange(0, k + 1)).len() as int);
    lemma_occurs_split(input, pos + 1, encode_list(ws.subrange(0, k)), encode(ws[k]));
}

/// In a list encoded at `pos`, the closing `e` follows all items.
proof fn lemma_list_end_at(input: Seq<u8>, pos: int, ws: Seq<BValue>)
    requires
        occurs_at(input, pos, encode(BValue::List(ws))),
    ensures
        input[pos + 1 + encode_list(ws).len()] == 101u8,
        pos + 1 + encode_list(ws).len() < input.len(),
{
    let body = encode_list(ws);
    assert(encode(BValue::List(ws)) =~= seq![108u8] + (body + seq![101u8]));
    lemma_occurs_split(input, pos, seq![108u8], body + seq![101u8]);
    lemma_occurs_split(input, pos + 1, body, seq![101u8]);
    assert(input.subrange(pos + 1 + body.len(), pos + 2 + body.len())[0] == input[pos + 1 + body.len()]);
}

proof fn lemma_dict_entry_at(input: Seq<u8>, pos: int, es: Seq<(Seq<u8>, BValue)>, k: int)
    requires
        occurs_at(input, pos, encode(BValue::Dict(es))),
        0 <= k < es.len(),
    ensures
        occurs_at(input, pos + 1 + encode_dict(es.subrange(0, k)).len(), encode_bytes(es[k].0)),
        occurs_at(
            input,
            pos + 1 + encode_dict(es.subrange(0, k)).len() + encode_bytes(es[k].0).len(),
            encode(es[k].1),
        ),
{
    let body = encode_dict(es);
    assert(encode(BValue::Dict(es)) =~= seq![100u8] + (body + seq![101u8]));
    lemma_occurs_split(input, pos, seq![100u8], body + seq![101u8]);
    lemma_occurs_split(input, pos + 1, body, seq![101u8]);
    lemma_dict_prefix(es, k + 1);
    lemma_encode_dict_step(es, k);
    lemma_occurs_prefix(input, pos + 1, body, encode_dict(es.subrange(0, k + 1)).len() as int);
    let before = encode_dict(es.subrange(0, k));
    assert(encode_dict(es.subrange(0, k + 1)) =~= before + (encode_bytes(es[k].0) + encode(es[k].1)));
    lemma_occurs_split(input, pos + 1, before, encode_bytes(es[k].0) + encode(es[k].1));
    lemma_occurs_split(input, pos + 1 + before.len(), encode_bytes(es[k].0), encode(es[k].1));
}

proof fn lemma_dict_end_at(input: Seq<u8>, pos: int, es: Seq<(Seq<u8>, BValue)>)
    requires
        occurs_at(input, pos, encode(BValue::Dict(es))),
    ensures
        input[pos + 1 + encode_dict(es).len()] == 101u8,
        pos + 1 + encode_dict(es).len() < input.len(),
{
    let body = encode_dict(es);
    assert(encode(BValue::Dict(es)) =~= seq![100u8] + (body + seq![101u8]));
    lemma_occurs_split(input, pos, seq![100u8], body + seq![101u8]);
    lemma_occurs_split(input, pos + 1, body, seq![101u8]);
    assert(input.subrange(pos + 1 + body.len(), pos + 2 + body.len())[0] == input[pos + 1 + body.len()]);
}

/// Whether `a` sorts strictly before `b`.
pub fn bytes_lt(a: &[u8], b: &[u8]) -> (r: bool)
    ensures
        r == lex_lt(a@, b@),
{
    let mut i: usize = 0;
    while i < a.len() && i < b.len() && a[i] == b[i]
        invariant
            i <= a@.len(),
            i <= b@.len(),
            a@.subrange(0, i as int) =~= b@.subrange(0, i as int),
        decreases a@.len() - i,
    {
        i = i + 1;
    }
    let r = if i < a.len() && i < b.len() {
        a[i] < b[i]
    } else {
        i == a.len() && i < b.len()
    };
    proof {
        if r {
            assert(lex_lt(a@, b@));
        } else {
            assert forall|k: int|
                0 <= k <= a@.len() && k <= b@.len() && a@.subrange(0, k) =~= b@.subrange(0, k)
                    implies !((k == a@.len() && k < b@.len()) || (k < a@.len() && k < b@.len() && a@[k] < b@[k])) by {
                if k < i {
                    assert(a@[k] == a@.subrange(0, i as int)[k]);
                    assert(b@[k] == b@.subrange(0, i as int)[k]);
                } else if k > i {
                    assert(a@[i as int] == a@.subrange(0, k)[i as int]);
                    assert(b@[i as int] == b@.subrange(0, k)[i as int]);
                }
            }
        }
    }
    r
}


/// Decodes the value that starts at `pos`, and returns it with the offset just
/// past its end. Whatever follows it is left unread.
pub fn decode_prefix(input: &[u8], pos: usize) -> (r: Result<(Value, usize), DecodeError>)
    requires
        pos <= input@.len(),
    ensures
        r matches Ok((v, end)) ==> encodes_at(input@, pos as int, v@) && end == pos + encode(
            v@,
        ).len(),
        forall|w: BValue| #[trigger]
            encodes_at(input@, pos as int, w) ==> (r matches Ok((v, _)) && v@ == w),
        pos == input@.len() ==> r == Err::<(Value, usize), DecodeError>(
            error_at(DecodeErrorKind::UnexpectedEnd, pos as int),
        ),
        pos < input@.len() && input@[pos as int] == 105u8 ==> (r is Err <==> int_error(input@, pos as int) is Some),
        pos < input@.len() && input@[pos as int] == 105u8 && r is Err ==> Some(r->Err_0) == int_error(input@, pos as int),
        pos < input@.len() && is_digit(input@[pos as int]) ==> (r is Err <==> bytes_error(input@, pos as int) is Some),
        pos < input@.len() && is_digit(input@[pos as int]) && r is Err ==> Some(r->Err_0) == bytes_error(input@, pos as int),
        pos < input@.len() && !is_digit(input@[pos as int]) && input@[pos as int] != 105u8 && input@[pos as int] != 108u8
            && input@[pos as int] != 100u8 ==> r == Err::<(Value, usize), DecodeError>(
            error_at(DecodeErrorKind::UnexpectedByte, pos as int),
        ),
        r matches Err(e) ==> error_placed(e, input@.len() as int),
        forall|es: Seq<(Seq<u8>, BValue)>|
            unsorted_dict(es) && occurs_at(input@, pos as int, #[trigger] encode(BValue::Dict(es))) ==> (r is Err
                && r->Err_0.kind == DecodeErrorKind::UnsortedKeys),
        forall|w: BValue| #[trigger]
            cut_short(input@, pos as int, w) ==> r == Err::<(Value, usize), DecodeError>(
                error_at(DecodeErrorKind::UnexpectedEnd, input@.len() as int),
            ),
    decreases input@.len() - pos,
{
    let len = input.len();
    proof {
        assert forall|w: BValue| #[trigger] cut_short(input@, pos as int, w) && pos < input@.len() implies (
        w is Int ==> int_error(input@, pos as int) == Some(error_at(DecodeErrorKind::UnexpectedEnd, input@.len() as int)))
            && (w is Bytes ==> bytes_error(input@, pos as int) == Some(error_at(DecodeErrorKind::UnexpectedEnd, input@.len() as int)))
            && input@[pos as int] == encode(w)[0] by {
            lemma_first_byte(w);
            assert(input@.subrange(pos as int, input@.len() as int)[0] == input@[pos as int]);
            match w {
                BValue::Int(i) => { lemma_int_cut(input@, pos as int, i); },
                BValue::Bytes(b) => { lemma_bytes_cut(input@, pos as int, b); },
                _ => {},
            }
        }
        assert forall|es: Seq<(Seq<u8>, BValue)>|
            unsorted_dict(es) && occurs_at(input@, pos as int, #[trigger] encode(BValue::Dict(es)))
            implies pos < input@.len() && input@[pos as int] == 100u8 by {
            lemma_first_byte(BValue::Dict(es));
            assert(input@.subrange(pos as int, pos + encode(BValue::Dict(es)).len())[0] == input@[pos as int]);
        }
    }
    if pos == len {
        proof {
            assert forall|w: BValue| !#[trigger] encodes_at(input@, pos as int, w) by {
                lemma_first_byte(w);
            }
        }
        return fail(DecodeErrorKind::UnexpectedEnd, pos);
    }
    let c = input[pos];
    proof {
        assert forall|w: BValue| #[trigger] encodes_at(input@, pos as int, w) implies encode(w)[0] == c by {
            assert(input@.subrange(pos as int, pos + encode(w).len())[0] == input@[pos as int]);
            lemma_first_byte(w);
        }
    }
    if c == 105u8 {
        match decode_int_at(input, pos) {
            Ok((i, end)) => {
                let v = Value::Int(i);
                proof {
                    assert forall|w: BValue| #[trigger] encodes_at(input@, pos as int, w) implies v@ == w by {
                        lemma_first_byte(w);
                    }
                }
                Ok((v, end))
            },
            Err(e) => {
                proof {
                    assert forall|w: BValue| !#[trigger] encodes_at(input@, pos as int, w) by {
                        lemma_first_byte(w);
                        if encodes_at(input@, pos as int, w) {
                            if let BValue::Int(i) = w {
                                assert(occurs_at(input@, pos as int, encode(BValue::Int(i))));
                            }
                        }
                    }
                }
                Err(e)
            },
        }
    } else if 48 <= c && c <= 57 {
        match decode_bytes_at(input, pos) {
            Ok((b, end)) => {
                let v = Value::Bytes(b);
                proof {
                    assert forall|w: BValue| #[trigger] encodes_at(input@, pos as int, w) implies v@ == w by {
                        lemma_first_byte(w);
                        if let BValue::Bytes(bb) = w {
                            assert(occurs_at(input@, pos as int, encode_bytes(bb)));
                        }
                    }
                }
                Ok((v, end))
            },
            Err(e) => {
                proof {
                    assert forall|w: BValue| !#[trigger] encodes_at(input@, pos as int, w) by {
                        lemma_first_byte(w);
                        if encodes_at(input@, pos as int, w) {
                            if let BValue::Bytes(bb) = w {
                                assert(occurs_at(input@, pos as int, encode_bytes(bb)));
                            }
                        }
                    }
                }
                Err(e)
            },
        }
    } else if c == 108u8 {
        let r = decode_list_at(input, pos);
        proof {
            assert forall|w: BValue| #[trigger] cut_short(input@, pos as int, w) implies w == BValue::List(w->List_0) by {
                lemma_first_byte(w);
            }
        }
        r
    } else if c == 100u8 {
        let r = decode_dict_at(input, pos);
        proof {
            assert forall|w: BValue| #[trigger] cut_short(input@, pos as int, w) implies w == BValue::Dict(w->Dict_0) by {
                lemma_first_byte(w);
            }
        }
        r
    } else {
        proof {
            assert forall|w: BValue| !#[trigger] encodes_at(input@, pos as int, w) by {
                lemma_first_byte(w);
                if encodes_at(input@, pos as int, w) {
                    match w {
                        BValue::Bytes(b) => {},
                        _ => {},
                    }
                }
            }
        }
        fail(DecodeErrorKind::UnexpectedByte, pos)
    }
}

fn decode_list_at(input: &[u8], pos: usize) -> (r: Result<(Value, usize), DecodeError>)
    requires
        pos < input@.len(),
        input@[pos as int] == 108u8,
    ensures
        r matches Ok((v, end)) ==> encodes_at(input@, pos as int, v@) && end == pos + encode(
            v@,
        ).len(),
        forall|w: BValue| #[trigger]
            encodes_at(input@, pos as int, w) ==> (r matches Ok((v, _)) && v@ == w),
        r matches Err(e) ==> error_placed(e, input@.len() as int),
        forall|ws: Seq<BValue>| #[trigger]
            cut_short(input@, pos as int, BValue::List(ws)) ==> r == Err::<(Value, usize), DecodeError>(
                error_at(DecodeErrorKind::UnexpectedEnd, input@.len() as int),
            ),
    decreases input@.len() - pos, 0int,
{
    let len = input.len();
    let mut items: Vec<Value> = Vec::new();
    let mut p: usize = pos + 1;
    proof {
        assert(input@.subrange(pos as int, pos + 1) =~= seq![108u8] + encode_list(view_list(items@)));
        assert forall|w: BValue| #[trigger] encodes_at(input@, pos as int, w) implies w is List by {
            assert(input@.subrange(pos as int, pos + encode(w).len())[0] == input@[pos as int]);
            lemma_first_byte(w);
        }
    }
    loop
        invariant
            pos < p <= len,
            len == input@.len(),
            input@[pos as int] == 108u8,
            forall|k: int| 0 <= k < items@.len() ==> valid(#[trigger] items@[k]@),
            occurs_at(input@, pos as int, seq![108u8] + encode_list(view_list(items@))),
            p == pos + 1 + encode_list(view_list(items@)).len(),
            forall|w: BValue| #[trigger]
                encodes_at(input@, pos as int, w) ==> w is List && items@.len() <= w->List_0.len()
                    && view_list(items@) == w->List_0.subrange(0, items@.len() as int),
            forall|ws: Seq<BValue>| #[trigger]
                cut_short(input@, pos as int, BValue::List(ws)) ==> items@.len() <= ws.len()
                    && view_list(items@) == ws.subrange(0, items@.len() as int),
        decreases len - p,
    {
        proof {
            lemma_view_list(items@);
        }
        if p == len {
            proof {
                assert forall|w: BValue| !#[trigger] encodes_at(input@, pos as int, w) by {
                    if encodes_at(input@, pos as int, w) {
                        let ws = w->List_0;
                        if items@.len() < ws.len() {
                            lemma_list_item_at(input@, pos as int, ws, items@.len() as int);
                            lemma_first_byte(ws[items@.len() as int]);
                        } else {
                            assert(ws.subrange(0, ws.len() as int) =~= ws);
                            lemma_list_end_at(input@, pos as int, ws);
                        }
                    }
                }
            }
            return fail(DecodeErrorKind::UnexpectedEnd, p);
        }
        proof {
            assert forall|ws: Seq<BValue>| #[trigger] cut_short(input@, pos as int, BValue::List(ws)) implies
                items@.len() < ws.len() && (encodes_at(input@, p as int, ws[items@.len() as int])
                    || cut_short(input@, p as int, ws[items@.len() as int]))
                    && input@[p as int] == encode(ws[items@.len() as int])[0] by {
                lemma_list_cut_step(input@, pos as int, ws, items@.len() as int, p as int);
                lemma_first_byte(ws[items@.len() as int]);
            }
        }
        if input[p] == 101u8 {
            let ghost items_view = view_list(items@);
            proof {
                assert forall|ws: Seq<BValue>| !#[trigger] cut_short(input@, pos as int, BValue::List(ws)) by {
                    if cut_short(input@, pos as int, BValue::List(ws)) {
                        lemma_first_byte(ws[items@.len() as int]);
                    }
                }
            }
            let v = Value::List(items);
            proof {
                assert(v@ == BValue::List(items_view));
                assert(input@.subrange(p as int, p + 1) =~= seq![101u8]);
                lemma_occurs_join(input@, pos as int, seq![108u8] + encode_list(items_view), seq![101u8]);
                assert(seq![108u8] + encode_list(items_view) + seq![101u8] =~= encode(v@));
                assert forall|w: BValue| #[trigger] encodes_at(input@, pos as int, w) implies v@ == w by {
                    let ws = w->List_0;
                    if items_view.len() < ws.len() {
                        lemma_list_item_at(input@, pos as int, ws, items_view.len() as int);
                        let at = pos + 1 + encode_list(ws.subrange(0, items_view.len() as int)).len();
                        assert(input@.subrange(at, at + encode(ws[items_view.len() as int]).len())[0] == input@[at]);
                        lemma_first_byte(ws[items_view.len() as int]);
                    }
                    assert(ws.subrange(0, ws.len() as int) =~= ws);
                }
            }
            return Ok((v, p + 1));
        }
        let ghost old_items = items@;
        match decode_prefix(input, p) {
            Err(e) => {
                proof {
                    assert forall|w: BValue| !#[trigger] encodes_at(input@, pos as int, w) by {
                        if encodes_at(input@, pos as int, w) {
                            let ws = w->List_0;
                            if items@.len() < ws.len() {
                                lemma_list_item_at(input@, pos as int, ws, items@.len() as int);
                                assert(encodes_at(input@, p as int, ws[items@.len() as int]));
                            } else {
                                assert(ws.subrange(0, ws.len() as int) =~= ws);
                                lemma_list_end_at(input@, pos as int, ws);
                            }
                        }
                    }
                }
                return Err(e);
            },
            Ok((v, end)) => {
                let ghost vv = v@;
                items.push(v);
                proof {
                    lemma_view_list(items@);
                    assert(items@.subrange(0, items@.len() - 1) =~= old_items);
                    assert(view_list(items@) == view_list(old_items).push(vv));
                    lemma_encode_list_step(view_list(items@), old_items.len() as int);
                    assert(view_list(items@).subrange(0, old_items.len() as int) =~= view_list(old_items));
                    assert(view_list(items@).subrange(0, items@.len() as int) =~= view_list(items@));
                    lemma_occurs_join(input@, pos as int, seq![108u8] + encode_list(view_list(old_items)), encode(vv));
                    assert(seq![108u8] + encode_list(view_list(old_items)) + encode(vv) =~= seq![108u8] + encode_list(view_list(items@)));
                    assert forall|ws: Seq<BValue>| #[trigger] cut_short(input@, pos as int, BValue::List(ws)) implies
                        items@.len() <= ws.len() && view_list(items@) == ws.subrange(0, items@.len() as int) by {
                        assert(ws.subrange(0, items@.len() as int) =~= ws.subrange(0, old_items.len() as int).push(ws[old_items.len() as int]));
                    }
                    assert forall|w: BValue| #[trigger] encodes_at(input@, pos as int, w) implies w is List && items@.len() <= w->List_0.len()
                        && view_list(items@) == w->List_0.subrange(0, items@.len() as int) by {
                        let ws = w->List_0;
                        if old_items.len() < ws.len() {
                            lemma_list_item_at(input@, pos as int, ws, old_items.len() as int);
                            assert(encodes_at(input@, p as int, ws[old_items.len() as int]));
                            assert(ws.subrange(0, items@.len() as int) =~= ws.subrange(0, old_items.len() as int).push(ws[old_items.len() as int]));
                        } else {
                            assert(ws.subrange(0, ws.len() as int) =~= ws);
                            lemma_list_end_at(input@, pos as int, ws);
                            lemma_first_byte(vv);
                            assert(input@.subrange(p as int, p + encode(vv).len())[0] == input@[p as int]);
                        }
                    }
                }
                p = end;
            },
        }
    }
}


#[verifier::rlimit(100)]
fn decode_dict_at(input: &[u8], pos: usize) -> (r: Result<(Value, usize), DecodeError>)
    requires
        pos < input@.len(),
        input@[pos as int] == 100u8,
    ensures
        r matches Ok((v, end)) ==> encodes_at(input@, pos as int, v@) && end == pos + encode(
            v@,
        ).len(),
        forall|w: BValue| #[trigger]
            encodes_at(input@, pos as int, w) ==> (r matches Ok((v, _)) && v@ == w),
        r matches Err(e) ==> error_placed(e, input@.len() as int),
        forall|es: Seq<(Seq<u8>, BValue)>| #[trigger]
            cut_short(input@, pos as int, BValue::Dict(es)) ==> r == Err::<(Value, usize), DecodeError>(
                error_at(DecodeErrorKind::UnexpectedEnd, input@.len() as int),
            ),
        forall|es: Seq<(Seq<u8>, BValue)>|
            unsorted_dict(es) && occurs_at(input@, pos as int, #[trigger] encode(BValue::Dict(es))) ==> (r is Err
                && r->Err_0.kind == DecodeErrorKind::UnsortedKeys),
    decreases input@.len() - pos, 0int,
{
    let len = input.len();
    let mut entries: Vec<(Vec<u8>, Value)> = Vec::new();
    let mut p: usize = pos + 1;
    proof {
        assert(input@.subrange(pos as int, pos + 1) =~= seq![100u8] + encode_dict(view_entries(entries@)));
        assert forall|w: BValue| #[trigger] encodes_at(input@, pos as int, w) implies w is Dict by {
            assert(input@.subrange(pos as int, pos + encode(w).len())[0] == input@[pos as int]);
            lemma_first_byte(w);
        }
    }
    loop
        invariant
            pos < p <= len,
            len == input@.len(),
            input@[pos as int] == 100u8,
            keys_ascending(view_entries(entries@)),
            forall|k: int| 0 <= k < entries@.len() ==> valid(#[trigger] entries@[k].1@),
            occurs_at(input@, pos as int, seq![100u8] + encode_dict(view_entries(entries@))),
            p == pos + 1 + encode_dict(view_entries(entries@)).len(),
            forall|w: BValue| #[trigger]
                encodes_at(input@, pos as int, w) ==> w is Dict && entries@.len() <= w->Dict_0.len()
                    && view_entries(entries@) == w->Dict_0.subrange(0, entries@.len() as int),
            forall|es: Seq<(Seq<u8>, BValue)>|
                unsorted_dict(es) && occurs_at(input@, pos as int, #[trigger] encode(BValue::Dict(es)))
                    ==> entries@.len() <= es.len() && view_entries(entries@) == es.subrange(0, entries@.len() as int),
            forall|es: Seq<(Seq<u8>, BValue)>| #[trigger]
                cut_short(input@, pos as int, BValue::Dict(es)) ==> entries@.len() <= es.len()
                    && view_entries(entries@) == es.subrange(0, entries@.len() as int),
        decreases len - p,
    {
        proof {
            lemma_view_entries(entries@);
        }
        let ghost old_entries = entries@;
        let ghost n = old_entries.len() as int;
        proof {
            assert forall|es: Seq<(Seq<u8>, BValue)>|
                unsorted_dict(es) && occurs_at(input@, pos as int, #[trigger] encode(BValue::Dict(es)))
                implies n < es.len() && occurs_at(input@, p as int, encode_bytes(es[n].0)) && p < len
                    && is_digit(input@[p as int]) by {
                if n == es.len() {
                    assert(es.subrange(0, n) =~= es);
                }
                lemma_dict_entry_at(input@, pos as int, es, n);
                lemma_decimal(es[n].0.len());
                let bs = encode_bytes(es[n].0);
                assert(input@.subrange(p as int, p + bs.len())[0] == input@[p as int]);
                assert(bs[0] == decimal(es[n].0.len())[0]);
            }
        }
        proof {
            assert forall|es: Seq<(Seq<u8>, BValue)>| #[trigger] cut_short(input@, pos as int, BValue::Dict(es))
                && p < len implies n < es.len() && is_digit(input@[p as int]) by {
                lemma_dict_cut_step(input@, pos as int, es, n, p as int);
            }
        }
        if p == len || input[p] == 101u8 {
            if p == len {
                proof {
                    assert forall|w: BValue| !#[trigger] encodes_at(input@, pos as int, w) by {
                        if encodes_at(input@, pos as int, w) {
                            let es = w->Dict_0;
                            if n < es.len() {
                                lemma_dict_entry_at(input@, pos as int, es, n);
                                lemma_decimal(es[n].0.len());
                            } else {
                                assert(es.subrange(0, es.len() as int) =~= es);
                                lemma_dict_end_at(input@, pos as int, es);
                            }
                        }
                    }
                }
                return fail(DecodeErrorKind::UnexpectedEnd, p);
            }
            let ghost ev = view_entries(entries@);
            let v = Value::Dict(entries);
            proof {
                assert(v@ == BValue::Dict(ev));
                assert(input@.subrange(p as int, p + 1) =~= seq![101u8]);
                lemma_occurs_join(input@, pos as int, seq![100u8] + encode_dict(ev), seq![101u8]);
                assert(seq![100u8] + encode_dict(ev) + seq![101u8] =~= encode(v@));
                assert forall|w: BValue| #[trigger] encodes_at(input@, pos as int, w) implies v@ == w by {
                    let es = w->Dict_0;
                    if n < es.len() {
                        lemma_dict_entry_at(input@, pos as int, es, n);
                        lemma_decimal(es[n].0.len());
                        let bs = encode_bytes(es[n].0);
                        assert(input@.subrange(p as int, p + bs.len())[0] == input@[p as int]);
                        assert(bs[0] == decimal(es[n].0.len())[0]);
                    }
                    assert(es.subrange(0, es.len() as int) =~= es);
                }
            }
            return Ok((v, p + 1));
        }
        let (key, e1) = match decode_bytes_at(input, p) {
            Err(e) => {
                proof {
                    assert forall|es: Seq<(Seq<u8>, BValue)>| #[trigger] cut_short(input@, pos as int, BValue::Dict(es))
                        implies e == error_at(DecodeErrorKind::UnexpectedEnd, input@.len() as int) by {
                        lemma_dict_cut_step(input@, pos as int, es, n, p as int);
                        if !occurs_at(input@, p as int, encode_bytes(es[n].0)) {
                            lemma_bytes_cut(input@, p as int, es[n].0);
                        }
                    }
                    assert forall|w: BValue| !#[trigger] encodes_at(input@, pos as int, w) by {
                        if encodes_at(input@, pos as int, w) {
                            let es = w->Dict_0;
                            if n < es.len() {
                                lemma_dict_entry_at(input@, pos as int, es, n);
                            } else {
                                assert(es.subrange(0, es.len() as int) =~= es);
                                lemma_dict_end_at(input@, pos as int, es);
                            }
                        }
                    }
                }
                return Err(e);
            },
            Ok(x) => x,
        };
        let ghost complete = forall|w: BValue| #[trigger]
            encodes_at(input@, pos as int, w) ==> n < w->Dict_0.len() && w->Dict_0[n].0 == key@;
        assert(complete) by {
            assert forall|w: BValue| #[trigger] encodes_at(input@, pos as int, w) implies n < w->Dict_0.len() && w->Dict_0[n].0 == key@ by {
                let es = w->Dict_0;
                if n < es.len() {
                    lemma_dict_entry_at(input@, pos as int, es, n);
                } else {
                    assert(es.subrange(0, es.len() as int) =~= es);
                    lemma_dict_end_at(input@, pos as int, es);
                    lemma_decimal(key@.len());
                    let bs = encode_bytes(key@);
                    assert(input@.subrange(p as int, p + bs.len())[0] == input@[p as int]);
                    assert(bs[0] == decimal(key@.len())[0]);
                }
            }
        }
        proof {
            assert forall|es: Seq<(Seq<u8>, BValue)>|
                unsorted_dict(es) && occurs_at(input@, pos as int, #[trigger] encode(BValue::Dict(es)))
                implies es[n].0 == key@ && encodes_at(input@, e1 as int, es[n].1) by {
                lemma_dict_entry_at(input@, pos as int, es, n);
            }
        }
        proof {
            assert forall|es: Seq<(Seq<u8>, BValue)>| #[trigger] cut_short(input@, pos as int, BValue::Dict(es))
                implies es[n].0 == key@ && (encodes_at(input@, e1 as int, es[n].1) || cut_short(input@, e1 as int, es[n].1))
                    && (n > 0 ==> lex_lt(es[n - 1].0, es[n].0)) by {
                lemma_dict_cut_step(input@, pos as int, es, n, p as int);
                if !occurs_at(input@, p as int, encode_bytes(es[n].0)) {
                    lemma_bytes_cut(input@, p as int, es[n].0);
                }
                assert(valid(BValue::Dict(es)));
            }
        }
        if entries.len() > 0 && !bytes_lt(entries[entries.len() - 1].0.as_slice(), key.as_slice()) {
            proof {
                assert forall|es: Seq<(Seq<u8>, BValue)>| !#[trigger] cut_short(input@, pos as int, BValue::Dict(es)) by {
                    if cut_short(input@, pos as int, BValue::Dict(es)) {
                        assert(view_entries(old_entries)[n - 1] == es.subrange(0, n)[n - 1]);
                    }
                }
                assert forall|w: BValue| !#[trigger] encodes_at(input@, pos as int, w) by {
                    if encodes_at(input@, pos as int, w) {
                        let es = w->Dict_0;
                        assert(view_entries(old_entries)[n - 1] == es.subrange(0, n)[n - 1]);
                        assert(valid(w));
                        assert(lex_lt(es[n - 1].0, es[n].0));
                    }
                }
            }
            return fail(DecodeErrorKind::UnsortedKeys, p);
        }
        match decode_prefix(input, e1) {
            Err(e) => {
                proof {
                    assert forall|w: BValue| !#[trigger] encodes_at(input@, pos as int, w) by {
                        if encodes_at(input@, pos as int, w) {
                            let es = w->Dict_0;
                            lemma_dict_entry_at(input@, pos as int, es, n);
                            assert(valid(es[n].1));
                            assert(encodes_at(input@, e1 as int, es[n].1));
                        }
                    }
                }
                return Err(e);
            },
            Ok((v, end)) => {
                let ghost vv = v@;
                let ghost kk = key@;
                entries.push((key, v));
                proof {
                    lemma_view_entries(entries@);
                    assert(entries@.subrange(0, entries@.len() - 1) =~= old_entries);
                    assert(view_entries(entries@) == view_entries(old_entries).push((kk, vv)));
                    lemma_encode_dict_step(view_entries(entries@), n);
                    assert(view_entries(entries@).subrange(0, n) =~= view_entries(old_entries));
                    lemma_occurs_join(input@, pos as int, seq![100u8] + encode_dict(view_entries(old_entries)), encode_bytes(kk));
                    lemma_occurs_join(input@, pos as int, seq![100u8] + encode_dict(view_entries(old_entries)) + encode_bytes(kk), encode(vv));
                    assert(seq![100u8] + encode_dict(view_entries(old_entries)) + encode_bytes(kk) + encode(vv) =~= seq![100u8] + encode_dict(view_entries(entries@)));
                    assert(keys_ascending(view_entries(entries@))) by {
                        assert forall|i: int| 0 < i < view_entries(entries@).len() implies lex_lt(#[trigger] view_entries(entries@)[i - 1].0, view_entries(entries@)[i].0) by {
                            if i < n {
                                assert(view_entries(entries@)[i - 1] == view_entries(old_entries)[i - 1]);
                                assert(view_entries(entries@)[i] == view_entries(old_entries)[i]);
                            }
                        }
                    }
                    assert forall|es: Seq<(Seq<u8>, BValue)>| #[trigger] cut_short(input@, pos as int, BValue::Dict(es))
                        implies entries@.len() <= es.len() && view_entries(entries@) == es.subrange(0, entries@.len() as int) by {
                        assert(es.subrange(0, n + 1) =~= es.subrange(0, n).push(es[n]));
                    }
                    assert forall|es: Seq<(Seq<u8>, BValue)>|
                        unsorted_dict(es) && occurs_at(input@, pos as int, #[trigger] encode(BValue::Dict(es)))
                        implies entries@.len() <= es.len() && view_entries(entries@) == es.subrange(0, entries@.len() as int) by {
                        assert(es.subrange(0, n + 1) =~= es.subrange(0, n).push(es[n]));
                    }
                    assert forall|w: BValue| #[trigger] encodes_at(input@, pos as int, w) implies w is Dict && entries@.len() <= w->Dict_0.len()
                        && view_entries(entries@) == w->Dict_0.subrange(0, entries@.len() as int) by {
                        let es = w->Dict_0;
                        lemma_dict_entry_at(input@, pos as int, es, n);
                        assert(valid(es[n].1));
                        assert(encodes_at(input@, e1 as int, es[n].1));
                        assert(es.subrange(0, n + 1) =~= es.subrange(0, n).push(es[n]));
                    }
                }
                p = end;
            },
        }
    }
}


/// `x` is exactly the encoding of a valid value.
pub open spec fn is_bencoded(x: Seq<u8>) -> bool {
    exists|w: BValue| valid(w) && encode(w) == x
}

/// The value whose encoding is `x`.
pub open spec fn parse(x: Seq<u8>) -> BValue
    recommends
        is_bencoded(x),
{
    choose|w: BValue| valid(w) && encode(w) == x
}

/// Decodes a whole input that holds exactly one value.
pub fn decode(input: &[u8]) -> (r: Result<Value, DecodeError>)
    ensures
        r is Ok <==> is_bencoded(input@),
        r matches Ok(v) ==> valid(v@) && encode(v@) == input@ && v@ == parse(input@),
        input@.len() == 0 ==> r == Err::<Value, DecodeError>(error_at(DecodeErrorKind::UnexpectedEnd, 0)),
        input@.len() > 0 && input@[0] == 105u8 && int_error(input@, 0) is Some ==> r == Err::<Value, DecodeError>(
            int_error(input@, 0)->0,
        ),
        input@.len() > 0 && is_digit(input@[0]) && bytes_error(input@, 0) is Some ==> r == Err::<Value, DecodeError>(
            bytes_error(input@, 0)->0,
        ),
        input@.len() > 0 && !is_digit(input@[0]) && input@[0] != 105u8 && input@[0] != 108u8 && input@[0] != 100u8
            ==> r == Err::<Value, DecodeError>(error_at(DecodeErrorKind::UnexpectedByte, 0)),
        (r is Err && r->Err_0.kind == DecodeErrorKind::TrailingData) <==> exists|w: BValue|
            #[trigger] encodes_at(input@, 0, w) && encode(w).len() < input@.len(),
        r is Err && r->Err_0.kind == DecodeErrorKind::TrailingData ==> r->Err_0.offset < input@.len()
            && exists|w: BValue| #[trigger] encodes_at(input@, 0, w) && encode(w).len() == r->Err_0.offset,
        r is Err && r->Err_0.kind != DecodeErrorKind::TrailingData ==> (r->Err_0.kind
            == DecodeErrorKind::UnexpectedEnd <==> r->Err_0.offset == input@.len()),
        forall|es: Seq<(Seq<u8>, BValue)>|
            unsorted_dict(es) && input@ == #[trigger] encode(BValue::Dict(es)) ==> (r is Err && r->Err_0.kind
                == DecodeErrorKind::UnsortedKeys),
        forall|w: BValue| #[trigger]
            cut_short(input@, 0, w) ==> r == Err::<Value, DecodeError>(
                error_at(DecodeErrorKind::UnexpectedEnd, input@.len() as int),
            ),
{
    proof {
        assert forall|es: Seq<(Seq<u8>, BValue)>|
            unsorted_dict(es) && input@ == #[trigger] encode(BValue::Dict(es)) implies occurs_at(input@, 0, encode(BValue::Dict(es))) by {
            assert(input@.subrange(0, input@.len() as int) =~= input@);
        }
    }
    match decode_prefix(input, 0) {
        Err(e) => {
            proof {
                if is_bencoded(input@) {
                    let w = parse(input@);
                    assert(input@.subrange(0, input@.len() as int) =~= input@);
                    assert(encodes_at(input@, 0, w));
                }
            }
            Err(e)
        },
        Ok((v, end)) => {
            if end != input.len() {
                proof {
                    if is_bencoded(input@) {
                        let w = parse(input@);
                        assert(input@.subrange(0, input@.len() as int) =~= input@);
                        assert(encodes_at(input@, 0, w));
                    }
                    assert(encodes_at(input@, 0, v@));
                }
                return fail(DecodeErrorKind::TrailingData, end);
            }
            proof {
                assert(input@.subrange(0, input@.len() as int) =~= input@);
                let w = parse(input@);
                assert(encodes_at(input@, 0, w));
            }
            Ok(v)
        },
    }
}

/// Round trip: re-encoding what a valid bencoded byte string decodes to gives
/// back the same bytes.
pub proof fn lemma_round_trip(x: Seq<u8>)
    requires
        is_bencoded(x),
    ensures
        valid(parse(x)),
        encode(parse(x)) == x,
{
}


/// The value stored under `key`, looking from the last entry back.
pub open spec fn lookup(es: Seq<(Seq<u8>, BValue)>, key: Seq<u8>) -> Option<BValue>
    decreases es.len(),
{
    if es.len() == 0 {
        None
    } else if es[es.len() - 1].0 == key {
        Some(es[es.len() - 1].1)
    } else {
        lookup(es.subrange(0, es.len() - 1), key)
    }
}

/// Whether two byte sequences are equal.
pub fn bytes_eq(a: &[u8], b: &[u8]) -> (r: bool)
    ensures
        r == (a@ == b@),
{
    if a.len() != b.len() {
        return false;
    }
    let mut i: usize = 0;
    while i < a.len()
        invariant
            i <= a@.len(),
            a@.len() == b@.len(),
            a@.subrange(0, i as int) =~= b@.subrange(0, i as int),
        decreases a@.len() - i,
    {
        if a[i] != b[i] {
            return false;
        }
        i = i + 1;
    }
    assert(a@ =~= a@.subrange(0, i as int));
    assert(b@ =~= b@.subrange(0, i as int));
    true
}

/// The value stored under `key` in a dictionary's entries.
pub fn dict_get<'a>(entries: &'a Vec<(Vec<u8>, Value)>, key: &[u8]) -> (r: Option<&'a Value>)
    ensures
        r matches Some(v) ==> lookup(view_entries(entries@), key@) == Some(v@),
        r is None ==> lookup(view_entries(entries@), key@) is None,
{
    let mut i: usize = entries.len();
    proof {
        lemma_view_entries(entries@);
        assert(view_entries(entries@).subrange(0, i as int) =~= view_entries(entries@));
    }
    while i > 0
        invariant
            i <= entries@.len(),
            lookup(view_entries(entries@), key@) == lookup(view_entries(entries@).subrange(0, i as int), key@),
        decreases i,
    {
        proof {
            lemma_view_entries(entries@);
        }
        let ghost es = view_entries(entries@).subrange(0, i as int);
        if bytes_eq(entries[i - 1].0.as_slice(), key) {
            return Some(&entries[i - 1].1);
        }
        i = i - 1;
        assert(es.subrange(0, es.len() - 1) =~= view_entries(entries@).subrange(0, i as int));
    }
    None
}

proof fn lemma_lookup_occurs_in_body(es: Seq<(Seq<u8>, BValue)>, key: Seq<u8>)
    requires
        lookup(es, key) is Some,
    ensures
        exists|a: int| occurs_at(encode_dict(es), a, encode(lookup(es, key)->0)),
    decreases es.len(),
{
    let v = lookup(es, key)->0;
    let body = encode_dict(es);
    let p = es.subrange(0, es.len() - 1);
    let last = es[es.len() - 1];
    let pre = encode_dict(p) + encode_bytes(last.0);
    if last.0 == key {
        assert(body =~= pre + encode(v));
        assert(body.subrange(0, body.len() as int) =~= body);
        assert(occurs_at(body, 0, pre + encode(v)));
        lemma_occurs_split(body, 0, pre, encode(v));
    } else {
        lemma_lookup_occurs_in_body(p, key);
        let a = choose|a: int| occurs_at(encode_dict(p), a, encode(v));
        assert(body =~= encode_dict(p) + (encode_bytes(last.0) + encode(last.1)));
        assert(body.subrange(a, a + encode(v).len()) =~= encode_dict(p).subrange(a, a + encode(v).len()));
        assert(occurs_at(body, a, encode(v)));
    }
}

/// Each value in a dictionary is encoded verbatim inside the dictionary's own
/// encoding.
pub proof fn lemma_lookup_occurs(es: Seq<(Seq<u8>, BValue)>, key: Seq<u8>)
    requires
        lookup(es, key) is Some,
    ensures
        exists|a: int| occurs_at(encode(BValue::Dict(es)), a, encode(lookup(es, key)->0)),
{
    let v = lookup(es, key)->0;
    let whole = encode(BValue::Dict(es));
    let body = encode_dict(es);
    lemma_lookup_occurs_in_body(es, key);
    let a = choose|a: int| occurs_at(body, a, encode(v));
    assert(whole =~= seq![100u8] + body + seq![101u8]);
    assert(whole.subrange(a + 1, a + 1 + encode(v).len()) =~= body.subrange(a, a + encode(v).len()));
    assert(occurs_at(whole, a + 1, encode(v)));
}


pub open spec fn pow10(k: nat) -> nat
    decreases k,
{
    if k == 0 {
        1
    } else {
        10 * pow10((k - 1) as nat)
    }
}

/// A number below `10^k` has at most `k` digits.
pub proof fn lemma_decimal_len(n: nat, k: nat)
    requires
        k >= 1,
        n < pow10(k),
    ensures
        decimal(n).len() <= k,
    decreases k,
{
    if n >= 10 {
        assert(n / 10 < pow10((k - 1) as nat)) by {
            assert(k >= 2) by {
                if k == 1 {
                    assert(pow10(1) == 10 * pow10(0));
                }
            }
        }
        lemma_decimal_len(n / 10, (k - 1) as nat);
    }
}

/// The encoded length of a one-entry dictionary.
pub proof fn lemma_dict1_len(k: Seq<u8>, v: BValue)
    ensures
        encode(BValue::Dict(seq![(k, v)])).len() == 2 + encode_bytes(k).len() + encode(v).len(),
{
    let es = seq![(k, v)];
    assert(es.subrange(0, 0) =~= Seq::<(Seq<u8>, BValue)>::empty());
    assert(encode_dict(es.subrange(0, 0)).len() == 0);
}

/// The encoded length of a two-entry dictionary.
pub proof fn lemma_dict2_len(k1: Seq<u8>, v1: BValue, k2: Seq<u8>, v2: BValue)
    ensures
        encode(BValue::Dict(seq![(k1, v1), (k2, v2)])).len() == 2 + encode_bytes(k1).len() + encode(
            v1,
        ).len() + encode_bytes(k2).len() + encode(v2).len(),
{
    let es = seq![(k1, v1), (k2, v2)];
    assert(es.subrange(0, 1) =~= seq![(k1, v1)]);
    assert(es.subrange(0, 1).subrange(0, 0) =~= Seq::<(Seq<u8>, BValue)>::empty());
    assert(encode_dict(es.subrange(0, 1).subrange(0, 0)).len() == 0);
    assert(encode_dict(es) == encode_dict(es.subrange(0, 1)) + encode_bytes(k2) + encode(v2));
    assert(encode_dict(es.subrange(0, 1)) == encode_dict(es.subrange(0, 1).subrange(0, 0))
        + encode_bytes(k1) + encode(v1));
}


/// Two runs of decimal digits that both stand at `p`, each followed by a
/// non-digit, are the same run.
proof fn lemma_same_digits(input: Seq<u8>, p: int, a: Seq<u8>, b: Seq<u8>)
    requires
        all_digits(a),
        all_digits(b),
        occurs_at(input, p, a),
        occurs_at(input, p, b),
        p + a.len() < input.len(),
        p + b.len() < input.len(),
        !is_digit(input[p + a.len()]),
        !is_digit(input[p + b.len()]),
    ensures
        a == b,
{
    let q = p + b.len();
    assert(input.subrange(p, q) == b);
    lemma_scan_stops(input, p, q, a);
}

proof fn lemma_bytes_unique(input: Seq<u8>, pos: int, b: Seq<u8>, c: Seq<u8>)
    requires
        occurs_at(input, pos, encode_bytes(b)),
        occurs_at(input, pos, encode_bytes(c)),
    ensures
        b == c,
{
    let db = decimal(b.len());
    let dc = decimal(c.len());
    lemma_decimal(b.len());
    lemma_decimal(c.len());
    assert(encode_bytes(b) =~= db + (seq![58u8] + b));
    assert(encode_bytes(c) =~= dc + (seq![58u8] + c));
    lemma_occurs_split(input, pos, db, seq![58u8] + b);
    lemma_occurs_split(input, pos, dc, seq![58u8] + c);
    assert(input.subrange(pos + db.len(), pos + db.len() + 1 + b.len())[0] == input[pos + db.len()]);
    assert(input.subrange(pos + dc.len(), pos + dc.len() + 1 + c.len())[0] == input[pos + dc.len()]);
    lemma_same_digits(input, pos, db, dc);
    lemma_occurs_split(input, pos + db.len(), seq![58u8], b);
    lemma_occurs_split(input, pos + dc.len(), seq![58u8], c);
}

proof fn lemma_int_unique(input: Seq<u8>, pos: int, i: int, j: int)
    requires
        occurs_at(input, pos, encode(BValue::Int(i))),
        occurs_at(input, pos, encode(BValue::Int(j))),
    ensures
        i == j,
{
    lemma_int_layout(input, pos, i);
    lemma_int_layout(input, pos, j);
    lemma_decimal(abs(i));
    lemma_decimal(abs(j));
    let at = if i < 0 { pos + 2 } else { pos + 1 };
    lemma_same_digits(input, at, decimal(abs(i)), decimal(abs(j)));
}

/// At most one valid value is encoded at a given place: a canonical encoding
/// is never a proper prefix of another.
pub proof fn lemma_unique_at(input: Seq<u8>, pos: int, v: BValue, w: BValue)
    requires
        encodes_at(input, pos, v),
        encodes_at(input, pos, w),
    ensures
        v == w,
    decreases v, 0int,
{
    lemma_first_byte(v);
    lemma_first_byte(w);
    assert(input.subrange(pos, pos + encode(v).len())[0] == input[pos]);
    assert(input.subrange(pos, pos + encode(w).len())[0] == input[pos]);
    match v {
        BValue::Bytes(b) => {
            let c = w->Bytes_0;
            lemma_bytes_unique(input, pos, b, c);
        },
        BValue::Int(i) => {
            lemma_int_unique(input, pos, i, w->Int_0);
        },
        BValue::List(items) => {
            let ws = w->List_0;
            assert(items.subrange(0, 0) =~= ws.subrange(0, 0));
            assert(decreases_to!(v => items));
            lemma_unique_items(input, pos, v, items, ws, 0);
        },
        BValue::Dict(es) => {
            let fs = w->Dict_0;
            assert(es.subrange(0, 0) =~= fs.subrange(0, 0));
            assert(decreases_to!(v => es));
            lemma_unique_entries(input, pos, v, es, fs, 0);
        },
    }
}

proof fn lemma_unique_items(input: Seq<u8>, pos: int, v: BValue, items: Seq<BValue>, ws: Seq<BValue>, k: int)
    requires
        v == BValue::List(items),
        encodes_at(input, pos, v),
        encodes_at(input, pos, BValue::List(ws)),
        0 <= k <= items.len(),
        k <= ws.len(),
        items.subrange(0, k) == ws.subrange(0, k),
    ensures
        items == ws,
    decreases items, items.len() - k,
{
    let w = BValue::List(ws);
    if k < items.len() && k < ws.len() {
        lemma_list_item_at(input, pos, items, k);
        lemma_list_item_at(input, pos, ws, k);
        assert(decreases_to!(items => items[k]));
        lemma_unique_at(input, pos + 1 + encode_list(items.subrange(0, k)).len(), items[k], ws[k]);
        assert(items.subrange(0, k + 1) =~= items.subrange(0, k).push(items[k]));
        assert(ws.subrange(0, k + 1) =~= ws.subrange(0, k).push(ws[k]));
        lemma_unique_items(input, pos, v, items, ws, k + 1);
    } else if k < items.len() {
        assert(ws.subrange(0, k) =~= ws);
        lemma_list_end_at(input, pos, ws);
        lemma_list_item_at(input, pos, items, k);
        let at = pos + 1 + encode_list(ws).len();
        lemma_first_byte(items[k]);
        assert(input.subrange(at, at + encode(items[k]).len())[0] == input[at]);
    } else if k < ws.len() {
        assert(items.subrange(0, k) =~= items);
        lemma_list_end_at(input, pos, items);
        lemma_list_item_at(input, pos, ws, k);
        let at = pos + 1 + encode_list(items).len();
        lemma_first_byte(ws[k]);
        assert(input.subrange(at, at + encode(ws[k]).len())[0] == input[at]);
    } else {
        assert(items =~= items.subrange(0, k));
        assert(ws =~= ws.subrange(0, k));
    }
}

proof fn lemma_unique_entries(
    input: Seq<u8>,
    pos: int,
    v: BValue,
    es: Seq<(Seq<u8>, BValue)>,
    fs: Seq<(Seq<u8>, BValue)>,
    k: int,
)
    requires
        v == BValue::Dict(es),
        encodes_at(input, pos, v),
        encodes_at(input, pos, BValue::Dict(fs)),
        0 <= k <= es.len(),
        k <= fs.len(),
        es.subrange(0, k) == fs.subrange(0, k),
    ensures
        es == fs,
    decreases es, es.len() - k,
{
    if k < es.len() && k < fs.len() {
        lemma_dict_entry_at(input, pos, es, k);
        lemma_dict_entry_at(input, pos, fs, k);
        let at = pos + 1 + encode_dict(es.subrange(0, k)).len();
        lemma_bytes_unique(input, at, es[k].0, fs[k].0);
        assert(decreases_to!(es => es[k]));
        assert(decreases_to!(es[k] => es[k].1));
        lemma_unique_at(input, at + encode_bytes(es[k].0).len(), es[k].1, fs[k].1);
        assert(es.subrange(0, k + 1) =~= es.subrange(0, k).push(es[k]));
        assert(fs.subrange(0, k + 1) =~= fs.subrange(0, k).push(fs[k]));
        lemma_unique_entries(input, pos, v, es, fs, k + 1);
    } else if k < es.len() {
        assert(fs.subrange(0, k) =~= fs);
        lemma_dict_end_at(input, pos, fs);
        lemma_dict_entry_at(input, pos, es, k);
        let at = pos + 1 + encode_dict(fs).len();
        lemma_decimal(es[k].0.len());
        assert(input.subrange(at, at + encode_bytes(es[k].0).len())[0] == input[at]);
        assert(encode_bytes(es[k].0)[0] == decimal(es[k].0.len())[0]);
    } else if k < fs.len() {
        assert(es.subrange(0, k) =~= es);
        lemma_dict_end_at(input, pos, es);
        lemma_dict_entry_at(input, pos, fs, k);
        let at = pos + 1 + encode_dict(es).len();
        lemma_decimal(fs[k].0.len());
        assert(input.subrange(at, at + encode_bytes(fs[k].0).len())[0] == input[at]);
        assert(encode_bytes(fs[k].0)[0] == decimal(fs[k].0.len())[0]);
    } else {
        assert(es =~= es.subrange(0, k));
        assert(fs =~= fs.subrange(0, k));
    }
}

/// The other round trip: decoding the encoding of a valid value gives the
/// value back.
pub proof fn lemma_parse_encode(v: BValue)
    requires
        valid(v),
    ensures
        is_bencoded(encode(v)),
        parse(encode(v)) == v,
{
    let x = encode(v);
    assert(x.subrange(0, x.len() as int) =~= x);
    assert(encodes_at(x, 0, v));
    let w = parse(x);
    assert(encodes_at(x, 0, w));
    lemma_unique_at(x, 0, v, w);
}


/// The input from `pos` on ends inside the encoding of the valid value `w`.
pub open spec fn cut_short(input: Seq<u8>, pos: int, w: BValue) -> bool {
    &&& valid(w)
    &&& 0 <= pos <= input.len()
    &&& input.len() - pos < encode(w).len()
    &&& input.subrange(pos, input.len() as int) == encode(w).subrange(0, input.len() - pos)
}

proof fn lemma_digit_end_run(s: Seq<u8>, p: int, e: int)
    requires
        0 <= p <= e <= s.len(),
        forall|j: int| p <= j < e ==> is_digit(#[trigger] s[j]),
        e == s.len() || !is_digit(s[e]),
    ensures
        digit_end(s, p) == e,
    decreases e - p,
{
    if p < e {
        lemma_digit_end_run(s, p + 1, e);
    }
}

/// A part of an encoding that the input reaches either stands in it whole,
/// or the input ends inside that part.
proof fn lemma_cut_part(input: Seq<u8>, pos: int, enc: Seq<u8>, off: int, part: Seq<u8>)
    requires
        0 <= pos <= input.len(),
        input.len() - pos < enc.len(),
        input.subrange(pos, input.len() as int) == enc.subrange(0, input.len() - pos),
        0 <= off,
        pos + off <= input.len(),
        off + part.len() <= enc.len(),
        enc.subrange(off, off + part.len()) == part,
    ensures
        occurs_at(input, pos + off, part) || (input.len() - (pos + off) < part.len()
            && input.subrange(pos + off, input.len() as int) == part.subrange(
            0,
            input.len() - (pos + off),
        )),
{
    let len = input.len() as int;
    assert forall|j: int| pos <= j < len implies input[j] == enc[j - pos] by {
        assert(input.subrange(pos, len)[j - pos] == input[j]);
    }
    if pos + off + part.len() <= len {
        assert(input.subrange(pos + off, pos + off + part.len()) =~= part) by {
            assert forall|t: int| 0 <= t < part.len() implies #[trigger] input.subrange(pos + off, pos + off + part.len())[t]
                == part[t] by {
                assert(enc.subrange(off, off + part.len())[t] == enc[off + t]);
            }
        }
    } else {
        assert(input.subrange(pos + off, len) =~= part.subrange(0, len - (pos + off))) by {
            assert forall|t: int| 0 <= t < len - (pos + off) implies #[trigger] input.subrange(pos + off, len)[t]
                == part.subrange(0, len - (pos + off))[t] by {
                assert(enc.subrange(off, off + part.len())[t] == enc[off + t]);
            }
        }
    }
}

proof fn lemma_int_cut(input: Seq<u8>, pos: int, i: int)
    requires
        cut_short(input, pos, BValue::Int(i)),
        pos < input.len(),
    ensures
        int_error(input, pos) == Some(error_at(DecodeErrorKind::UnexpectedEnd, input.len() as int)),
{
    let len = input.len() as int;
    let enc = encode(BValue::Int(i));
    let ds = decimal(abs(i));
    lemma_decimal(abs(i));
    let sign: Seq<u8> = if i < 0 { seq![45u8] } else { Seq::empty() };
    assert(enc =~= seq![105u8] + sign + ds + seq![101u8]);
    assert forall|j: int| pos <= j < len implies input[j] == enc[j - pos] by {
        assert(input.subrange(pos, len)[j - pos] == input[j]);
    }
    if pos + 1 < len {
        if i >= 0 {
            assert(enc[1] == ds[0]);
        }
    }
    let neg = pos + 1 < len && input[pos + 1] == 45u8;
    let p = if neg { pos + 2 } else { pos + 1 };
    assert forall|j: int| p <= j < len implies is_digit(#[trigger] input[j]) by {
        assert(enc[j - pos] == ds[j - pos - 1 - sign.len()]);
    }
    lemma_digit_end_run(input, p, len);
}

proof fn lemma_bytes_cut(input: Seq<u8>, pos: int, b: Seq<u8>)
    requires
        cut_short(input, pos, BValue::Bytes(b)),
        pos < input.len(),
    ensures
        bytes_error(input, pos) == Some(error_at(DecodeErrorKind::UnexpectedEnd, input.len() as int)),
{
    let len = input.len() as int;
    let enc = encode(BValue::Bytes(b));
    let ds = decimal(b.len());
    lemma_decimal(b.len());
    assert(enc =~= ds + seq![58u8] + b);
    assert forall|j: int| pos <= j < len implies input[j] == enc[j - pos] by {
        assert(input.subrange(pos, len)[j - pos] == input[j]);
    }
    if len <= pos + ds.len() {
        assert forall|j: int| pos <= j < len implies is_digit(#[trigger] input[j]) by {
            assert(enc[j - pos] == ds[j - pos]);
        }
        lemma_digit_end_run(input, pos, len);
    } else {
        let q = pos + ds.len();
        assert forall|j: int| pos <= j < q implies is_digit(#[trigger] input[j]) by {
            assert(enc[j - pos] == ds[j - pos]);
        }
        assert(input[q] == 58u8);
        lemma_digit_end_run(input, pos, q);
        assert(input.subrange(pos, q) =~= ds) by {
            assert forall|t: int| 0 <= t < ds.len() implies #[trigger] input.subrange(pos, q)[t] == ds[t] by {
                assert(enc[t] == ds[t]);
            }
        }
        assert(input[pos] == ds[0]);
    }
}


proof fn lemma_list_cut_step(input: Seq<u8>, pos: int, ws: Seq<BValue>, k: int, p: int)
    requires
        cut_short(input, pos, BValue::List(ws)),
        0 <= k <= ws.len(),
        p == pos + 1 + encode_list(ws.subrange(0, k)).len(),
        p < input.len(),
    ensures
        k < ws.len(),
        encodes_at(input, p, ws[k]) || cut_short(input, p, ws[k]),
        input[p] == encode(ws[k])[0],
{
    let enc = encode(BValue::List(ws));
    assert(enc =~= seq![108u8] + encode_list(ws) + seq![101u8]);
    assert(enc.subrange(0, enc.len() as int) =~= enc);
    if k == ws.len() {
        assert(ws.subrange(0, k) =~= ws);
    }
    lemma_list_item_at(enc, 0, ws, k);
    let part = encode(ws[k]);
    let off: int = 1 + encode_list(ws.subrange(0, k)).len() as int;
    lemma_cut_part(input, pos, enc, off, part);
    lemma_first_byte(ws[k]);
    if occurs_at(input, p, part) {
        assert(input.subrange(p, p + part.len())[0] == input[p]);
    } else {
        assert(input.subrange(p, input.len() as int)[0] == input[p]);
    }
}

proof fn lemma_dict_cut_step(input: Seq<u8>, pos: int, es: Seq<(Seq<u8>, BValue)>, n: int, p: int)
    requires
        cut_short(input, pos, BValue::Dict(es)),
        0 <= n <= es.len(),
        p == pos + 1 + encode_dict(es.subrange(0, n)).len(),
        p < input.len(),
    ensures
        n < es.len(),
        is_digit(input[p]),
        occurs_at(input, p, encode_bytes(es[n].0)) || cut_short(input, p, BValue::Bytes(es[n].0)),
        occurs_at(input, p, encode_bytes(es[n].0)) ==> (encodes_at(
            input,
            p + encode_bytes(es[n].0).len(),
            es[n].1,
        ) || cut_short(input, p + encode_bytes(es[n].0).len(), es[n].1)),
{
    let enc = encode(BValue::Dict(es));
    assert(enc =~= seq![100u8] + encode_dict(es) + seq![101u8]);
    assert(enc.subrange(0, enc.len() as int) =~= enc);
    if n == es.len() {
        assert(es.subrange(0, n) =~= es);
    }
    lemma_dict_entry_at(enc, 0, es, n);
    let kb = encode_bytes(es[n].0);
    let off: int = 1 + encode_dict(es.subrange(0, n)).len() as int;
    lemma_cut_part(input, pos, enc, off, kb);
    lemma_decimal(es[n].0.len());
    assert(kb[0] == decimal(es[n].0.len())[0]);
    assert(encode(BValue::Bytes(es[n].0)) == kb);
    if occurs_at(input, p, kb) {
        assert(input.subrange(p, p + kb.len())[0] == input[p]);
        lemma_cut_part(input, pos, enc, off + kb.len() as int, encode(es[n].1));
    } else {
        assert(input.subrange(p, input.len() as int)[0] == input[p]);
    }
}

} // verus!
