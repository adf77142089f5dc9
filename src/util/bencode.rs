use vstd::prelude::*;

use crate::errors::{Error, ParseError};

verus! {

/// The largest magnitude that a decoded integer may have (that of `i64::MIN`).
pub const MAX_MAGNITUDE: u64 = 9223372036854775808;

/// The longest byte string that a length prefix may declare.
pub const MAX_LENGTH: u64 = 18446744073709551615;

/// The mathematical value that bencoded bytes denote.
pub enum BValue {
    Str(Seq<u8>),
    Int(int),
    List(Seq<BValue>),
    Dict(Seq<(Seq<u8>, BValue)>),
}

/// A bencoded value held in memory.
#[derive(Debug, PartialEq)]
pub enum Value {
    String(Vec<u8>),
    Integer(i64),
    List(Vec<Value>),
    Dict(Vec<(Vec<u8>, Value)>),
}

pub open spec fn list_view(l: Seq<Value>) -> Seq<BValue>
    decreases l,
{
    if l.len() == 0 {
        Seq::empty()
    } else {
        list_view(l.drop_last()).push(value_view(l.last()))
    }
}

pub open spec fn dict_view(d: Seq<(Vec<u8>, Value)>) -> Seq<(Seq<u8>, BValue)>
    decreases d,
{
    if d.len() == 0 {
        Seq::empty()
    } else {
        dict_view(d.drop_last()).push((d.last().0@, value_view(d.last().1)))
    }
}

pub open spec fn value_view(v: Value) -> BValue
    decreases v,
{
    match v {
        Value::String(s) => BValue::Str(s@),
        Value::Integer(i) => BValue::Int(i as int),
        Value::List(l) => BValue::List(list_view(l@)),
        Value::Dict(d) => BValue::Dict(dict_view(d@)),
    }
}

impl View for Value {
    type V = BValue;

    open spec fn view(&self) -> BValue {
        value_view(*self)
    }
}

pub proof fn lemma_list_view(l: Seq<Value>)
    ensures
        list_view(l).len() == l.len(),
        forall|i: int| 0 <= i < l.len() ==> #[trigger] list_view(l)[i] == value_view(l[i]),
    decreases l.len(),
{
    if l.len() > 0 {
        lemma_list_view(l.drop_last());
    }
}

pub proof fn lemma_dict_view(d: Seq<(Vec<u8>, Value)>)
    ensures
        dict_view(d).len() == d.len(),
        forall|i: int|
            0 <= i < d.len() ==> #[trigger] dict_view(d)[i] == (d[i].0@, value_view(d[i].1)),
    decreases d.len(),
{
    if d.len() > 0 {
        lemma_dict_view(d.drop_last());
    }
}

// ---------------------------------------------------------------------------
// Byte order of dictionary keys

/// Lexicographic order on raw bytes: `a` sorts strictly before `b`.
pub open spec fn key_lt(a: Seq<u8>, b: Seq<u8>) -> bool
    decreases a.len(),
{
    if a.len() == 0 {
        b.len() > 0
    } else if b.len() == 0 {
        false
    } else if a[0] != b[0] {
        a[0] < b[0]
    } else {
        key_lt(a.drop_first(), b.drop_first())
    }
}

pub proof fn lemma_key_lt_irreflexive(a: Seq<u8>)
    ensures
        !key_lt(a, a),
    decreases a.len(),
{
    if a.len() > 0 {
        lemma_key_lt_irreflexive(a.drop_first());
    }
}

pub proof fn lemma_key_lt_asymmetric(a: Seq<u8>, b: Seq<u8>)
    ensures
        !(key_lt(a, b) && key_lt(b, a)),
    decreases a.len(),
{
    if a.len() > 0 && b.len() > 0 && a[0] == b[0] {
        lemma_key_lt_asymmetric(a.drop_first(), b.drop_first());
    }
}

pub proof fn lemma_key_lt_total(a: Seq<u8>, b: Seq<u8>)
    ensures
        key_lt(a, b) || key_lt(b, a) || a == b,
    decreases a.len(),
{
    if a.len() > 0 && b.len() > 0 && a[0] == b[0] {
        lemma_key_lt_total(a.drop_first(), b.drop_first());
        if a.drop_first() == b.drop_first() {
            assert(a =~= seq![a[0]] + a.drop_first());
            assert(b =~= seq![b[0]] + b.drop_first());
        }
    } else if a.len() == 0 && b.len() == 0 {
        assert(a =~= b);
    }
}

pub proof fn lemma_key_lt_transitive(a: Seq<u8>, b: Seq<u8>, c: Seq<u8>)
    requires
        key_lt(a, b),
        key_lt(b, c),
    ensures
        key_lt(a, c),
    decreases a.len(),
{
    if a.len() > 0 && b.len() > 0 && c.len() > 0 && a[0] == b[0] && b[0] == c[0] {
        lemma_key_lt_transitive(a.drop_first(), b.drop_first(), c.drop_first());
    }
}

/// Keys that agree below `i` and differ first at `i` are ordered by that byte.
pub proof fn lemma_key_lt_at(a: Seq<u8>, b: Seq<u8>, i: int)
    requires
        0 <= i < a.len(),
        i < b.len(),
        a.take(i) == b.take(i),
        a[i] < b[i],
    ensures
        key_lt(a, b),
    decreases i,
{
    if i > 0 {
        assert(a[0] == a.take(i)[0]);
        assert(b[0] == b.take(i)[0]);
        assert(a.drop_first().take(i - 1) =~= a.take(i).drop_first());
        assert(b.drop_first().take(i - 1) =~= b.take(i).drop_first());
        lemma_key_lt_at(a.drop_first(), b.drop_first(), i - 1);
    }
}

// ---------------------------------------------------------------------------
// Well-formed values: the ones that have an encoding

/// Keys strictly ascending in byte order (hence unique).
pub open spec fn keys_sorted(d: Seq<(Seq<u8>, BValue)>) -> bool {
    forall|i: int, j: int| 0 <= i < j < d.len() ==> key_lt(#[trigger] d[i].0, #[trigger] d[j].0)
}

pub open spec fn wf(v: BValue) -> bool
    decreases v,
{
    match v {
        BValue::Str(b) => b.len() <= MAX_LENGTH,
        BValue::Int(i) => -(MAX_MAGNITUDE as int) <= i < MAX_MAGNITUDE as int,
        BValue::List(l) => wf_list(l),
        BValue::Dict(d) => keys_sorted(d) && wf_dict(d),
    }
}

pub open spec fn wf_list(l: Seq<BValue>) -> bool
    decreases l,
{
    l.len() > 0 ==> wf(l[0]) && wf_list(l.drop_first())
}

pub open spec fn wf_dict(d: Seq<(Seq<u8>, BValue)>) -> bool
    decreases d,
{
    d.len() > 0 ==> d[0].0.len() <= MAX_LENGTH && wf(d[0].1) && wf_dict(d.drop_first())
}

// ---------------------------------------------------------------------------
// Encoding

/// Decimal digits of `n`, most significant first, without leading zeros.
pub open spec fn nat_text(n: nat) -> Seq<u8>
    decreases n,
{
    if n < 10 {
        seq![(48 + n) as u8]
    } else {
        nat_text(n / 10).push((48 + n % 10) as u8)
    }
}

pub open spec fn int_text(i: int) -> Seq<u8> {
    if i < 0 {
        seq![45u8] + nat_text((-i) as nat)
    } else {
        nat_text(i as nat)
    }
}

pub open spec fn enc_str(s: Seq<u8>) -> Seq<u8> {
    nat_text(s.len()) + seq![58u8] + s
}

/// The canonical bencoding of a value.
pub open spec fn enc(v: BValue) -> Seq<u8>
    decreases v,
{
    match v {
        BValue::Str(s) => enc_str(s),
        BValue::Int(i) => seq![105u8] + int_text(i) + seq![101u8],
        BValue::List(l) => seq![108u8] + enc_list(l) + seq![101u8],
        BValue::Dict(d) => seq![100u8] + enc_dict(d) + seq![101u8],
    }
}

pub open spec fn enc_list(l: Seq<BValue>) -> Seq<u8>
    decreases l,
{
    if l.len() == 0 {
        Seq::empty()
    } else {
        enc(l[0]) + enc_list(l.drop_first())
    }
}

pub open spec fn enc_dict(d: Seq<(Seq<u8>, BValue)>) -> Seq<u8>
    decreases d,
{
    if d.len() == 0 {
        Seq::empty()
    } else {
        enc_str(d[0].0) + enc(d[0].1) + enc_dict(d.drop_first())
    }
}

// ---------------------------------------------------------------------------
// Decoding

pub open spec fn is_digit(b: u8) -> bool {
    48 <= b <= 57
}

/// The first position at or after `p` that holds no decimal digit.
pub open spec fn digits_end(s: Seq<u8>, p: int) -> int
    decreases s.len() - p,
{
    if 0 <= p < s.len() && is_digit(s[p]) {
        digits_end(s, p + 1)
    } else {
        p
    }
}

/// The number that a run of decimal digits spells.
pub open spec fn digits_value(d: Seq<u8>) -> nat
    decreases d.len(),
{
    if d.len() == 0 {
        0
    } else {
        digits_value(d.drop_last()) * 10 + (d.last() - 48) as nat
    }
}

/// An integer `i[-]<digits>e` that starts at `p`.
pub open spec fn spec_int(s: Seq<u8>, p: int) -> Result<(BValue, int), ParseError> {
    let neg = s.len() - p > 1 && s[p + 1] == 45;
    let start = if neg { p + 2 } else { p + 1 };
    let end = digits_end(s, start);
    let d = s.subrange(start, end);
    let mag = digits_value(d);
    if end < s.len() && s[end] == 101 {
        if d.len() == 0 {
            Err(ParseError::EmptyInteger)
        } else if d.len() > 1 && d[0] == 48 {
            Err(ParseError::InvalidInteger)
        } else if neg && mag == 0 {
            Err(ParseError::InvalidInteger)
        } else if (neg && mag > MAX_MAGNITUDE) || (!neg && mag >= MAX_MAGNITUDE) {
            Err(ParseError::InvalidInteger)
        } else {
            Ok((BValue::Int(if neg { -mag } else { mag as int }), end + 1))
        }
    } else {
        Err(ParseError::InvalidFormat)
    }
}

/// A byte string `<length>:<bytes>` that starts at `p`.
pub open spec fn spec_str(s: Seq<u8>, p: int) -> Result<(Seq<u8>, int), ParseError> {
    let end = digits_end(s, p);
    let n = digits_value(s.subrange(p, end));
    if end < s.len() && s[end] == 58 {
        if n > MAX_LENGTH {
            Err(ParseError::InvalidInteger)
        } else if n > s.len() - (end + 1) {
            Err(ParseError::StringLength { want: n as u64, got: (s.len() - (end + 1)) as u64 })
        } else {
            Ok((s.subrange(end + 1, end + 1 + n), end + 1 + n))
        }
    } else {
        Err(ParseError::InvalidFormat)
    }
}

/// `d` with `k` bound to `v`: the entry of key `k` is replaced, or a new one
/// goes before the first larger key.
pub open spec fn dict_put(d: Seq<(Seq<u8>, BValue)>, k: Seq<u8>, v: BValue) -> Seq<
    (Seq<u8>, BValue),
>
    decreases d.len(),
{
    if d.len() == 0 {
        seq![(k, v)]
    } else if d[0].0 == k {
        seq![(k, v)] + d.drop_first()
    } else if key_lt(k, d[0].0) {
        seq![(k, v)] + d
    } else {
        seq![d[0]] + dict_put(d.drop_first(), k, v)
    }
}

/// The value that starts at `p`, and the position after it.
pub open spec fn spec_value(s: Seq<u8>, p: int) -> Result<(BValue, int), ParseError>
    decreases s.len() - p, 0int,
{
    if p < 0 || p >= s.len() {
        Err(ParseError::InvalidContent(s.len() as usize))
    } else if s[p] == 105 {
        spec_int(s, p)
    } else if is_digit(s[p]) {
        match spec_str(s, p) {
            Ok((b, q)) => Ok((BValue::Str(b), q)),
            Err(e) => Err(e),
        }
    } else if s[p] == 108 {
        spec_list(s, p + 1, Seq::empty())
    } else if s[p] == 100 {
        spec_dict(s, p + 1, Seq::empty())
    } else {
        Err(ParseError::InvalidContent(p as usize))
    }
}

/// The items of a list from `p` on, after the items `acc` already read.
pub open spec fn spec_list(s: Seq<u8>, p: int, acc: Seq<BValue>) -> Result<
    (BValue, int),
    ParseError,
>
    decreases s.len() - p, 1int,
{
    if p < 0 || p >= s.len() {
        Err(ParseError::ListEnd)
    } else if s[p] == 101 {
        Ok((BValue::List(acc), p + 1))
    } else {
        match spec_value(s, p) {
            Ok((v, q)) => if p < q <= s.len() {
                spec_list(s, q, acc.push(v))
            } else {
                Err(ParseError::ListEnd)
            },
            Err(e) => Err(e),
        }
    }
}

/// The entries of a dictionary from `p` on, after the entries `acc` already read.
pub open spec fn spec_dict(s: Seq<u8>, p: int, acc: Seq<(Seq<u8>, BValue)>) -> Result<
    (BValue, int),
    ParseError,
>
    decreases s.len() - p, 1int,
{
    if p < 0 || p >= s.len() {
        Err(ParseError::DictEnd)
    } else if s[p] == 101 {
        Ok((BValue::Dict(acc), p + 1))
    } else if !is_digit(s[p]) {
        Err(ParseError::DictKey)
    } else {
        match spec_str(s, p) {
            Ok((k, q)) => if p < q <= s.len() {
                match spec_value(s, q) {
                    Ok((v, r)) => if q < r <= s.len() {
                        spec_dict(s, r, dict_put(acc, k, v))
                    } else {
                        Err(ParseError::DictEnd)
                    },
                    Err(e) => Err(e),
                }
            } else {
                Err(ParseError::DictEnd)
            },
            Err(e) => Err(e),
        }
    }
}

/// What the bytes `s` decode to: the first value they hold.
pub open spec fn spec_decode(s: Seq<u8>) -> Result<BValue, ParseError> {
    match spec_value(s, 0) {
        Ok((v, _)) => Ok(v),
        Err(e) => Err(e),
    }
}

// ---------------------------------------------------------------------------
// Decoder

pub open spec fn res_view(r: Result<(Value, usize), ParseError>) -> Result<(BValue, int), ParseError> {
    match r {
        Ok((v, q)) => Ok((v@, q as int)),
        Err(e) => Err(e),
    }
}

/// The bytes `s[from..to]` in a vector of their own.
pub(crate) fn copy_range(s: &[u8], from: usize, to: usize) -> (r: Vec<u8>)
    requires
        from <= to <= s@.len(),
    ensures
        r@ == s@.subrange(from as int, to as int),
{
    let mut r: Vec<u8> = Vec::new();
    let mut i: usize = from;
    while i < to
        invariant
            from <= i <= to <= s@.len(),
            r@ == s@.subrange(from as int, i as int),
        decreases to - i,
    {
        r.push(s[i]);
        i += 1;
        assert(r@ =~= s@.subrange(from as int, i as int));
    }
    r
}

/// The bytes `s` in a vector of their own.
pub(crate) fn copy_bytes(s: &[u8]) -> (r: Vec<u8>)
    ensures
        r@ == s@,
{
    let r = copy_range(s, 0, s.len());
    assert(r@ =~= s@);
    r
}

/// Reads the run of digits at `start`: where it ends, its value, and whether
/// that value exceeds `cap` (the value is exact only when it does not).
fn scan_digits(s: &[u8], start: usize, cap: u64) -> (r: (usize, u64, bool))
    requires
        start <= s@.len(),
    ensures
        r.0 as int == digits_end(s@, start as int),
        start <= r.0 <= s@.len(),
        r.2 == (digits_value(s@.subrange(start as int, r.0 as int)) > cap),
        !r.2 ==> r.1 == digits_value(s@.subrange(start as int, r.0 as int)),
{
    let mut i: usize = start;
    let mut mag: u64 = 0;
    let mut big: bool = false;
    assert(s@.subrange(start as int, start as int).len() == 0);
    while i < s.len() && 48 <= s[i] && s[i] <= 57
        invariant
            start <= i <= s@.len(),
            digits_end(s@, i as int) == digits_end(s@, start as int),
            big == (digits_value(s@.subrange(start as int, i as int)) > cap),
            !big ==> mag == digits_value(s@.subrange(start as int, i as int)),
        decreases s@.len() - i,
    {
        let d = s[i] - 48;
        assert(s@.subrange(start as int, i + 1).drop_last() =~= s@.subrange(start as int, i as int));
        if !big {
            let n: u128 = (mag as u128) * 10 + (d as u128);
            if n > cap as u128 {
                big = true;
            } else {
                mag = n as u64;
            }
        }
        i += 1;
    }
    (i, mag, big)
}

fn parse_int(s: &[u8], p: usize) -> (r: Result<(Value, usize), ParseError>)
    requires
        p < s@.len(),
        s@[p as int] == 105,
    ensures
        res_view(r) == spec_int(s@, p as int),
        r matches Ok((_, q)) ==> p < q <= s@.len(),
{
    let neg = s.len() - p > 1 && s[p + 1] == 45;
    let start = if neg { p + 2 } else { p + 1 };
    let (end, mag, big) = scan_digits(s, start, MAX_MAGNITUDE);
    if end < s.len() && s[end] == 101 {
        if end == start {
            Err(ParseError::EmptyInteger)
        } else if end - start > 1 && s[start] == 48 {
            Err(ParseError::InvalidInteger)
        } else if big || (neg && mag == 0) || (!neg && mag == MAX_MAGNITUDE) {
            Err(ParseError::InvalidInteger)
        } else {
            let i: i64 = if !neg {
                mag as i64
            } else if mag == MAX_MAGNITUDE {
                i64::MIN
            } else {
                -(mag as i64)
            };
            Ok((Value::Integer(i), end + 1))
        }
    } else {
        Err(ParseError::InvalidFormat)
    }
}

fn parse_str(s: &[u8], p: usize) -> (r: Result<(Vec<u8>, usize), ParseError>)
    requires
        p < s@.len(),
        is_digit(s@[p as int]),
    ensures
        match r {
            Ok((b, q)) => spec_str(s@, p as int) == Ok::<(Seq<u8>, int), ParseError>((b@, q as int)),
            Err(e) => spec_str(s@, p as int) == Err::<(Seq<u8>, int), ParseError>(e),
        },
        r matches Ok((_, q)) ==> p < q <= s@.len(),
{
    let (end, n, big) = scan_digits(s, p, MAX_LENGTH);
    if end < s.len() && s[end] == 58 {
        let rest = s.len() - (end + 1);
        if big {
            Err(ParseError::InvalidInteger)
        } else if n > rest as u64 {
            Err(ParseError::StringLength { want: n, got: rest as u64 })
        } else {
            let stop = end + 1 + n as usize;
            Ok((copy_range(s, end + 1, stop), stop))
        }
    } else {
        Err(ParseError::InvalidFormat)
    }
}

/// Orders two keys bytewise: negative, zero or positive as `a` sorts before,
/// equal to, or after `b`.
pub(crate) fn compare_keys(a: &[u8], b: &[u8]) -> (r: i8)
    ensures
        (r < 0) == key_lt(a@, b@),
        (r == 0) == (a@ == b@),
        (r > 0) == key_lt(b@, a@),
{
    let mut i: usize = 0;
    assert(a@.skip(0) =~= a@);
    assert(b@.skip(0) =~= b@);
    while i < a.len() && i < b.len()
        invariant
            i <= a@.len(),
            i <= b@.len(),
            a@.subrange(0, i as int) == b@.subrange(0, i as int),
            key_lt(a@, b@) == key_lt(a@.skip(i as int), b@.skip(i as int)),
            key_lt(b@, a@) == key_lt(b@.skip(i as int), a@.skip(i as int)),
        decreases a@.len() - i,
    {
        if a[i] != b[i] {
            assert(a@.skip(i as int)[0] == a@[i as int]);
            assert(b@.skip(i as int)[0] == b@[i as int]);
            return if a[i] < b[i] {
                -1
            } else {
                1
            };
        }
        assert(a@.skip(i as int).drop_first() =~= a@.skip(i + 1));
        assert(b@.skip(i as int).drop_first() =~= b@.skip(i + 1));
        assert(a@.subrange(0, i + 1) =~= a@.subrange(0, i as int).push(a@[i as int]));
        assert(b@.subrange(0, i + 1) =~= b@.subrange(0, i as int).push(b@[i as int]));
        i += 1;
    }
    if a.len() < b.len() {
        -1
    } else if a.len() > b.len() {
        1
    } else {
        assert(a@ =~= a@.subrange(0, i as int));
        assert(b@ =~= b@.subrange(0, i as int));
        0
    }
}

proof fn lemma_dict_put_at(d: Seq<(Seq<u8>, BValue)>, k: Seq<u8>, v: BValue, i: int)
    requires
        0 <= i <= d.len(),
        forall|j: int| 0 <= j < i ==> key_lt(#[trigger] d[j].0, k),
        i < d.len() ==> !key_lt(d[i].0, k),
    ensures
        i < d.len() && d[i].0 == k ==> dict_put(d, k, v) == d.update(i, (k, v)),
        !(i < d.len() && d[i].0 == k) ==> dict_put(d, k, v) == d.insert(i, (k, v)),
    decreases i,
{
    if i == 0 {
        if d.len() > 0 && d[0].0 != k {
            lemma_key_lt_total(d[0].0, k);
            assert(dict_put(d, k, v) =~= d.insert(0, (k, v)));
        } else if d.len() > 0 {
            assert(dict_put(d, k, v) =~= d.update(0, (k, v)));
        } else {
            assert(dict_put(d, k, v) =~= d.insert(0, (k, v)));
        }
    } else {
        lemma_key_lt_irreflexive(k);
        lemma_key_lt_asymmetric(d[0].0, k);
        let t = d.drop_first();
        assert forall|j: int| 0 <= j < i - 1 implies key_lt(#[trigger] t[j].0, k) by {
            assert(t[j] == d[j + 1]);
        }
        lemma_dict_put_at(t, k, v, i - 1);
        if i < d.len() && d[i].0 == k {
            assert(dict_put(d, k, v) =~= d.update(i, (k, v)));
        } else {
            assert(dict_put(d, k, v) =~= d.insert(i, (k, v)));
        }
    }
}

/// Binds `k` to `v` in entries kept in ascending key order.
fn dict_insert(d: &mut Vec<(Vec<u8>, Value)>, k: Vec<u8>, v: Value)
    ensures
        dict_view(final(d)@) == dict_put(dict_view(old(d)@), k@, v@),
{
    proof {
        lemma_dict_view(d@);
    }
    let mut i: usize = 0;
    while i < d.len() && compare_keys(d[i].0.as_slice(), k.as_slice()) < 0
        invariant
            i <= d@.len(),
            d@ == old(d)@,
            forall|j: int| 0 <= j < i ==> key_lt(#[trigger] d@[j].0@, k@),
        decreases d@.len() - i,
    {
        i += 1;
    }
    let ghost dv = dict_view(d@);
    proof {
        lemma_dict_put_at(dv, k@, v@, i as int);
    }
    if i < d.len() && compare_keys(d[i].0.as_slice(), k.as_slice()) == 0 {
        d.remove(i);
        d.insert(i, (k, v));
        proof {
            lemma_dict_view(d@);
            assert(dict_view(d@) =~= dv.update(i as int, (k@, v@)));
        }
    } else {
        d.insert(i, (k, v));
        proof {
            lemma_dict_view(d@);
            assert(dict_view(d@) =~= dv.insert(i as int, (k@, v@)));
        }
    }
}

/// Reads the value that starts at `p`.
fn decode_at(s: &[u8], p: usize) -> (r: Result<(Value, usize), ParseError>)
    requires
        p <= s@.len(),
    ensures
        res_view(r) == spec_value(s@, p as int),
        r matches Ok((_, q)) ==> p < q <= s@.len(),
    decreases s@.len() - p, 0int,
{
    if p >= s.len() {
        Err(ParseError::InvalidContent(s.len()))
    } else if s[p] == 105 {
        parse_int(s, p)
    } else if 48 <= s[p] && s[p] <= 57 {
        match parse_str(s, p) {
            Ok((b, q)) => Ok((Value::String(b), q)),
            Err(e) => Err(e),
        }
    } else if s[p] == 108 {
        parse_list(s, p + 1)
    } else if s[p] == 100 {
        parse_dict(s, p + 1)
    } else {
        Err(ParseError::InvalidContent(p))
    }
}

/// Reads the items of a list that opened just before `p`, and its closing `e`.
fn parse_list(s: &[u8], p: usize) -> (r: Result<(Value, usize), ParseError>)
    requires
        1 <= p <= s@.len(),
    ensures
        res_view(r) == spec_list(s@, p as int, Seq::empty()),
        r matches Ok((_, q)) ==> p < q <= s@.len(),
    decreases s@.len() - p, 1int,
{
    let mut items: Vec<Value> = Vec::new();
    let mut i: usize = p;
    assert(list_view(items@) =~= Seq::<BValue>::empty());
    loop
        invariant
            p <= i <= s@.len(),
            spec_list(s@, i as int, list_view(items@)) == spec_list(s@, p as int, Seq::empty()),
        decreases s@.len() - i,
    {
        if i >= s.len() {
            return Err(ParseError::ListEnd);
        }
        if s[i] == 101 {
            return Ok((Value::List(items), i + 1));
        }
        match decode_at(s, i) {
            Ok((v, q)) => {
                let ghost before = items@;
                items.push(v);
                assert(items@.drop_last() =~= before);
                i = q;
            },
            Err(e) => {
                return Err(e);
            },
        }
    }
}

/// Reads the entries of a dictionary that opened just before `p`, and its
/// closing `e`.
fn parse_dict(s: &[u8], p: usize) -> (r: Result<(Value, usize), ParseError>)
    requires
        1 <= p <= s@.len(),
    ensures
        res_view(r) == spec_dict(s@, p as int, Seq::empty()),
        r matches Ok((_, q)) ==> p < q <= s@.len(),
    decreases s@.len() - p, 1int,
{
    let mut entries: Vec<(Vec<u8>, Value)> = Vec::new();
    let mut i: usize = p;
    assert(dict_view(entries@) =~= Seq::<(Seq<u8>, BValue)>::empty());
    loop
        invariant
            p <= i <= s@.len(),
            spec_dict(s@, i as int, dict_view(entries@)) == spec_dict(s@, p as int, Seq::empty()),
        decreases s@.len() - i,
    {
        if i >= s.len() {
            return Err(ParseError::DictEnd);
        }
        if s[i] == 101 {
            return Ok((Value::Dict(entries), i + 1));
        }
        if !(48 <= s[i] && s[i] <= 57) {
            return Err(ParseError::DictKey);
        }
        let (k, q) = match parse_str(s, i) {
            Ok(kq) => kq,
            Err(e) => {
                return Err(e);
            },
        };
        match decode_at(s, q) {
            Ok((v, r)) => {
                dict_insert(&mut entries, k, v);
                i = r;
            },
            Err(e) => {
                return Err(e);
            },
        }
    }
}

/// Decodes the first value that `input` holds; bytes after it are left unread.
pub fn decode(input: &[u8]) -> (r: Result<Value, Error>)
    ensures
        match spec_decode(input@) {
            Ok(v) => r matches Ok(x) && x@ == v,
            Err(e) => r == Err::<Value, Error>(Error::BencodeParseError(e)),
        },
{
    match decode_at(input, 0) {
        Ok((v, _)) => Ok(v),
        Err(e) => Err(Error::BencodeParseError(e)),
    }
}

// ---------------------------------------------------------------------------
// Encoder

pub proof fn lemma_list_push(l: Seq<BValue>, x: BValue)
    ensures
        enc_list(l.push(x)) == enc_list(l) + enc(x),
        wf_list(l.push(x)) == (wf_list(l) && wf(x)),
    decreases l.len(),
{
    if l.len() == 0 {
        assert(l.push(x).drop_first() =~= l);
        assert(enc_list(l.push(x)) =~= enc_list(l) + enc(x));
    } else {
        lemma_list_push(l.drop_first(), x);
        assert(l.push(x).drop_first() =~= l.drop_first().push(x));
        assert(enc_list(l.push(x)) =~= enc_list(l) + enc(x));
    }
}

pub proof fn lemma_dict_push(d: Seq<(Seq<u8>, BValue)>, x: (Seq<u8>, BValue))
    ensures
        enc_dict(d.push(x)) == enc_dict(d) + enc_str(x.0) + enc(x.1),
        wf_dict(d.push(x)) == (wf_dict(d) && x.0.len() <= MAX_LENGTH && wf(x.1)),
    decreases d.len(),
{
    if d.len() == 0 {
        assert(d.push(x).drop_first() =~= d);
        assert(enc_dict(d.push(x)) =~= enc_dict(d) + enc_str(x.0) + enc(x.1));
    } else {
        lemma_dict_push(d.drop_first(), x);
        assert(d.push(x).drop_first() =~= d.drop_first().push(x));
        assert(enc_dict(d.push(x)) =~= enc_dict(d) + enc_str(x.0) + enc(x.1));
    }
}

/// Keys that ascend from each entry to the next ascend throughout.
pub proof fn lemma_keys_sorted_by_neighbours(d: Seq<(Seq<u8>, BValue)>)
    requires
        forall|i: int| 0 <= i < d.len() - 1 ==> key_lt(#[trigger] d[i].0, d[i + 1].0),
    ensures
        keys_sorted(d),
    decreases d.len(),
{
    if d.len() > 1 {
        let t = d.drop_last();
        assert forall|i: int| 0 <= i < t.len() - 1 implies key_lt(#[trigger] t[i].0, t[i + 1].0) by {
            assert(key_lt(d[i].0, d[i + 1].0));
        }
        lemma_keys_sorted_by_neighbours(t);
        assert forall|i: int, j: int| 0 <= i < j < d.len() implies key_lt(
            #[trigger] d[i].0,
            #[trigger] d[j].0,
        ) by {
            if j < d.len() - 1 {
                assert(key_lt(t[i].0, t[j].0));
            } else if i < d.len() - 2 {
                assert(key_lt(t[i].0, t[d.len() - 2].0));
                assert(key_lt(d[d.len() - 2].0, d[d.len() - 1].0));
                lemma_key_lt_transitive(d[i].0, d[d.len() - 2].0, d[j].0);
            } else {
                assert(key_lt(d[i].0, d[i + 1].0));
            }
        }
    }
}

pub proof fn lemma_wf_list_all(l: Seq<BValue>)
    requires
        forall|i: int| 0 <= i < l.len() ==> wf(#[trigger] l[i]),
    ensures
        wf_list(l),
    decreases l.len(),
{
    if l.len() > 0 {
        let t = l.drop_first();
        assert forall|i: int| 0 <= i < t.len() implies wf(#[trigger] t[i]) by {
            assert(wf(l[i + 1]));
        }
        lemma_wf_list_all(t);
    }
}

pub proof fn lemma_wf_dict_all(d: Seq<(Seq<u8>, BValue)>)
    requires
        forall|i: int| 0 <= i < d.len() ==> wf(#[trigger] d[i].1) && d[i].0.len() <= MAX_LENGTH,
    ensures
        wf_dict(d),
    decreases d.len(),
{
    if d.len() > 0 {
        let t = d.drop_first();
        assert forall|i: int| 0 <= i < t.len() implies wf(#[trigger] t[i].1) && t[i].0.len()
            <= MAX_LENGTH by {
            assert(wf(d[i + 1].1) && d[i + 1].0.len() <= MAX_LENGTH);
        }
        lemma_wf_dict_all(t);
        assert(wf(d[0].1) && d[0].0.len() <= MAX_LENGTH);
    }
}

pub proof fn lemma_wf_list_index(l: Seq<BValue>, j: int)
    requires
        wf_list(l),
        0 <= j < l.len(),
    ensures
        wf(l[j]),
    decreases j,
{
    if j > 0 {
        lemma_wf_list_index(l.drop_first(), j - 1);
    }
}

pub proof fn lemma_wf_dict_index(d: Seq<(Seq<u8>, BValue)>, j: int)
    requires
        wf_dict(d),
        0 <= j < d.len(),
    ensures
        wf(d[j].1),
        d[j].0.len() <= MAX_LENGTH,
    decreases j,
{
    if j > 0 {
        lemma_wf_dict_index(d.drop_first(), j - 1);
    }
}

/// Appends the decimal digits of `n`.
fn push_decimal(out: &mut Vec<u8>, n: u64)
    ensures
        final(out)@ == old(out)@ + nat_text(n as nat),
    decreases n,
{
    if n >= 10 {
        push_decimal(out, n / 10);
    }
    out.push((48 + n % 10) as u8);
    assert(final(out)@ =~= old(out)@ + nat_text(n as nat));
}

fn push_all(out: &mut Vec<u8>, b: &[u8])
    ensures
        final(out)@ == old(out)@ + b@,
{
    let ghost start = out@;
    let mut i: usize = 0;
    while i < b.len()
        invariant
            i <= b@.len(),
            out@ == start + b@.subrange(0, i as int),
        decreases b@.len() - i,
    {
        out.push(b[i]);
        i += 1;
        assert(out@ =~= start + b@.subrange(0, i as int));
    }
    assert(b@.subrange(0, i as int) =~= b@);
}

fn push_str(out: &mut Vec<u8>, b: &[u8])
    ensures
        final(out)@ == old(out)@ + enc_str(b@),
{
    push_decimal(out, b.len() as u64);
    out.push(58);
    push_all(out, b);
    assert(final(out)@ =~= old(out)@ + enc_str(b@));
}

// ---------------------------------------------------------------------------
// Decimal text

pub open spec fn all_digits(d: Seq<u8>) -> bool {
    forall|i: int| 0 <= i < d.len() ==> is_digit(#[trigger] d[i])
}

/// The text of `n` is a run of digits, without a leading zero, that spells `n`.
pub proof fn lemma_nat_text(n: nat)
    ensures
        nat_text(n).len() >= 1,
        all_digits(nat_text(n)),
        digits_value(nat_text(n)) == n,
        nat_text(n).len() == 1 || nat_text(n)[0] != 48,
        n < 10 ==> nat_text(n) == seq![(48 + n) as u8],
        n >= 10 ==> nat_text(n).len() >= 2,
    decreases n,
{
    if n < 10 {
        let t = seq![(48 + n) as u8];
        assert(t.drop_last() =~= Seq::<u8>::empty());
        assert(digits_value(Seq::<u8>::empty()) == 0);
        assert(digits_value(t) == digits_value(t.drop_last()) * 10 + (t.last() - 48) as nat);
    } else {
        lemma_nat_text(n / 10);
        let t = nat_text(n / 10);
        let x = (48 + n % 10) as u8;
        assert(nat_text(n) == t.push(x));
        assert(t.push(x).drop_last() =~= t);
        assert(t.push(x).last() == x);
        assert((x - 48) as nat == n % 10);
        assert(n == (n / 10) * 10 + n % 10);
        assert(digits_value(t.push(x)) == digits_value(t) * 10 + (x - 48) as nat);
        assert(t.push(x)[0] == t[0]);
        if n / 10 < 10 {
            assert(t[0] == (48 + n / 10) as u8);
        }
    }
}

/// A run of digits with no leading zero that spells `n` is `n`'s text.
pub proof fn lemma_digits_text(d: Seq<u8>)
    requires
        d.len() >= 1,
        all_digits(d),
        d.len() == 1 || d[0] != 48,
    ensures
        nat_text(digits_value(d)) == d,
        d[0] != 48 ==> digits_value(d) >= 1,
    decreases d.len(),
{
    let k = (d.last() - 48) as nat;
    if d.len() == 1 {
        assert(d.drop_last() =~= Seq::<u8>::empty());
        assert(digits_value(Seq::<u8>::empty()) == 0);
        assert(digits_value(d) == digits_value(d.drop_last()) * 10 + k);
        assert(digits_value(d) == k);
        assert(nat_text(k) =~= d);
    } else {
        let e = d.drop_last();
        assert(e[0] == d[0]);
        lemma_digits_text(e);
        let v = digits_value(d);
        let ve = digits_value(e);
        assert(v == ve * 10 + k);
        assert(v / 10 == ve && v % 10 == k);
        assert(nat_text(v) == nat_text(ve).push((48 + k) as u8));
        assert(nat_text(v) =~= d);
    }
}

/// Digits from `p` up to `q`, then none: the run that starts at `p` ends at `q`.
pub proof fn lemma_digits_end(s: Seq<u8>, p: int, q: int)
    requires
        0 <= p <= q <= s.len(),
        forall|i: int| p <= i < q ==> is_digit(#[trigger] s[i]),
        q == s.len() || !is_digit(s[q]),
    ensures
        digits_end(s, p) == q,
    decreases q - p,
{
    if p < q {
        lemma_digits_end(s, p + 1, q);
    }
}

/// `t` stands in `s` from position `q` on.
pub open spec fn text_at(s: Seq<u8>, q: int, t: Seq<u8>) -> bool {
    0 <= q && q + t.len() <= s.len() && s.subrange(q, q + t.len()) == t
}

pub proof fn lemma_text_at_concat(s: Seq<u8>, q: int, x: Seq<u8>, y: Seq<u8>)
    ensures
        text_at(s, q, x + y) == (text_at(s, q, x) && text_at(s, q + x.len(), y)),
{
    let n = x.len() as int;
    let m = y.len() as int;
    if text_at(s, q, x + y) {
        let w = s.subrange(q, q + n + m);
        assert(w == x + y);
        assert(s.subrange(q, q + n) =~= w.subrange(0, n));
        assert(w.subrange(0, n) =~= x);
        assert(s.subrange(q + n, q + n + m) =~= w.subrange(n, n + m));
        assert(w.subrange(n, n + m) =~= y);
    }
    if text_at(s, q, x) && text_at(s, q + n, y) {
        assert forall|i: int| 0 <= i < n + m implies s.subrange(q, q + n + m)[i] == (x + y)[i] by {
            if i < n {
                assert(s.subrange(q, q + n)[i] == x[i]);
            } else {
                assert(s.subrange(q + n, q + n + m)[i - n] == y[i - n]);
            }
        }
        assert(s.subrange(q, q + n + m) =~= x + y);
    }
}

// ---------------------------------------------------------------------------
// Decoding what was encoded

proof fn lemma_first_byte(v: BValue)
    ensures
        enc(v).len() >= 1,
        enc(v)[0] != 101,
        is_digit(enc(v)[0]) == (v is Str),
    decreases v,
{
    match v {
        BValue::Str(b) => {
            lemma_nat_text(b.len());
            assert(enc(v)[0] == nat_text(b.len())[0]);
        },
        _ => {},
    }
}

proof fn lemma_parse_str(b: Seq<u8>, s: Seq<u8>, p: int)
    requires
        b.len() <= MAX_LENGTH,
        text_at(s, p, enc_str(b)),
    ensures
        spec_str(s, p) == Ok::<(Seq<u8>, int), ParseError>((b, p + enc_str(b).len())),
{
    let t = nat_text(b.len());
    lemma_nat_text(b.len());
    lemma_text_at_concat(s, p, t + seq![58u8], b);
    lemma_text_at_concat(s, p, t, seq![58u8]);
    let e = p + t.len();
    assert(s.subrange(e, e + 1)[0] == s[e]);
    assert forall|i: int| p <= i < e implies is_digit(#[trigger] s[i]) by {
        assert(s.subrange(p, e)[i - p] == t[i - p]);
    }
    lemma_digits_end(s, p, e);
}

proof fn lemma_parse_int(i: int, s: Seq<u8>, p: int)
    requires
        -(MAX_MAGNITUDE as int) <= i < MAX_MAGNITUDE as int,
        text_at(s, p, enc(BValue::Int(i))),
    ensures
        spec_int(s, p) == Ok::<(BValue, int), ParseError>((BValue::Int(i), p + enc(BValue::Int(i)).len())),
{
    let mag: nat = if i < 0 { (-i) as nat } else { i as nat };
    let t = nat_text(mag);
    lemma_nat_text(mag);
    let sign = if i < 0 { seq![45u8] } else { Seq::<u8>::empty() };
    assert(int_text(i) =~= sign + t);
    assert(enc(BValue::Int(i)) =~= seq![105u8] + sign + t + seq![101u8]);
    lemma_text_at_concat(s, p, seq![105u8] + sign + t, seq![101u8]);
    lemma_text_at_concat(s, p, seq![105u8] + sign, t);
    lemma_text_at_concat(s, p, seq![105u8], sign);
    let start = p + 1 + sign.len();
    let e = start + t.len();
    assert(s.subrange(e, e + 1)[0] == s[e]);
    assert(s.subrange(start, e)[0] == t[0]);
    if i < 0 {
        assert(s.subrange(p + 1, p + 2)[0] == s[p + 1]);
    }
    assert forall|k: int| start <= k < e implies is_digit(#[trigger] s[k]) by {
        assert(s.subrange(start, e)[k - start] == t[k - start]);
    }
    lemma_digits_end(s, start, e);
}

proof fn lemma_dict_put_append(acc: Seq<(Seq<u8>, BValue)>, k: Seq<u8>, v: BValue)
    requires
        forall|i: int| 0 <= i < acc.len() ==> key_lt(#[trigger] acc[i].0, k),
    ensures
        dict_put(acc, k, v) == acc.push((k, v)),
    decreases acc.len(),
{
    if acc.len() > 0 {
        lemma_key_lt_irreflexive(k);
        lemma_key_lt_asymmetric(acc[0].0, k);
        let t = acc.drop_first();
        assert forall|i: int| 0 <= i < t.len() implies key_lt(#[trigger] t[i].0, k) by {
            assert(t[i] == acc[i + 1]);
        }
        lemma_dict_put_append(t, k, v);
        assert(dict_put(acc, k, v) =~= acc.push((k, v)));
    }
}

/// The encoding of a well-formed value, wherever it stands, decodes to it.
pub proof fn lemma_parse_enc(v: BValue, s: Seq<u8>, p: int)
    requires
        wf(v),
        text_at(s, p, enc(v)),
    ensures
        spec_value(s, p) == Ok::<(BValue, int), ParseError>((v, p + enc(v).len())),
    decreases v, 0int,
{
    lemma_first_byte(v);
    assert(s.subrange(p, p + enc(v).len())[0] == s[p]);
    match v {
        BValue::Str(b) => {
            lemma_parse_str(b, s, p);
        },
        BValue::Int(i) => {
            lemma_parse_int(i, s, p);
        },
        BValue::List(l) => {
            assert(enc(v) =~= seq![108u8] + (enc_list(l) + seq![101u8]));
            lemma_text_at_concat(s, p, seq![108u8], enc_list(l) + seq![101u8]);
            lemma_parse_list(l, s, p + 1, Seq::empty());
            assert(Seq::<BValue>::empty() + l =~= l);
        },
        BValue::Dict(d) => {
            assert(enc(v) =~= seq![100u8] + (enc_dict(d) + seq![101u8]));
            lemma_text_at_concat(s, p, seq![100u8], enc_dict(d) + seq![101u8]);
            assert(Seq::<(Seq<u8>, BValue)>::empty() + d =~= d);
            lemma_parse_dict(d, s, p + 1, Seq::empty());
        },
    }
}

proof fn lemma_parse_list(l: Seq<BValue>, s: Seq<u8>, q: int, acc: Seq<BValue>)
    requires
        wf_list(l),
        text_at(s, q, enc_list(l) + seq![101u8]),
    ensures
        spec_list(s, q, acc) == Ok::<(BValue, int), ParseError>(
            (BValue::List(acc + l), q + enc_list(l).len() + 1),
        ),
    decreases l, 0int,
{
    if l.len() == 0 {
        assert(s.subrange(q, q + 1)[0] == s[q]);
        assert(acc + l =~= acc);
    } else {
        let x = l[0];
        let rest = l.drop_first();
        assert(enc_list(l) + seq![101u8] =~= enc(x) + (enc_list(rest) + seq![101u8]));
        lemma_text_at_concat(s, q, enc(x), enc_list(rest) + seq![101u8]);
        lemma_first_byte(x);
        assert(s.subrange(q, q + enc(x).len())[0] == s[q]);
        lemma_parse_enc(x, s, q);
        lemma_parse_list(rest, s, q + enc(x).len(), acc.push(x));
        assert(acc.push(x) + rest =~= acc + l);
    }
}

proof fn lemma_parse_dict(d: Seq<(Seq<u8>, BValue)>, s: Seq<u8>, q: int, acc: Seq<(Seq<u8>, BValue)>)
    requires
        wf_dict(d),
        keys_sorted(acc + d),
        text_at(s, q, enc_dict(d) + seq![101u8]),
    ensures
        spec_dict(s, q, acc) == Ok::<(BValue, int), ParseError>(
            (BValue::Dict(acc + d), q + enc_dict(d).len() + 1),
        ),
    decreases d, 0int,
{
    if d.len() == 0 {
        assert(s.subrange(q, q + 1)[0] == s[q]);
        assert(acc + d =~= acc);
    } else {
        let (k, x) = d[0];
        let rest = d.drop_first();
        assert(enc_dict(d) + seq![101u8] =~= enc_str(k) + (enc(x) + (enc_dict(rest) + seq![101u8])));
        lemma_text_at_concat(s, q, enc_str(k), enc(x) + (enc_dict(rest) + seq![101u8]));
        let q1 = q + enc_str(k).len();
        lemma_text_at_concat(s, q1, enc(x), enc_dict(rest) + seq![101u8]);
        lemma_nat_text(k.len());
        assert(s.subrange(q, q1)[0] == s[q]);
        assert(enc_str(k)[0] == nat_text(k.len())[0]);
        lemma_parse_str(k, s, q);
        assert(decreases_to!(d => d[0]));
        lemma_parse_enc(x, s, q1);
        let q2 = q1 + enc(x).len();
        assert forall|i: int| 0 <= i < acc.len() implies key_lt(#[trigger] acc[i].0, k) by {
            assert((acc + d)[i] == acc[i]);
            assert((acc + d)[acc.len() as int] == d[0]);
        }
        lemma_dict_put_append(acc, k, x);
        assert(acc.push((k, x)) + rest =~= acc + d);
        lemma_parse_dict(rest, s, q2, acc.push((k, x)));
    }
}

// ---------------------------------------------------------------------------
// What decoding produces is well-formed

proof fn lemma_sorted_cons(x: (Seq<u8>, BValue), t: Seq<(Seq<u8>, BValue)>)
    requires
        keys_sorted(t),
        forall|j: int| 0 <= j < t.len() ==> key_lt(x.0, #[trigger] t[j].0),
    ensures
        keys_sorted(seq![x] + t),
{
    let r = seq![x] + t;
    assert forall|i: int, j: int| 0 <= i < j < r.len() implies key_lt(#[trigger] r[i].0, #[trigger] r[j].0) by {
        assert(r[j] == t[j - 1]);
        if i > 0 {
            assert(r[i] == t[i - 1]);
        }
    }
}

proof fn lemma_sorted_tail(d: Seq<(Seq<u8>, BValue)>)
    requires
        keys_sorted(d),
        d.len() > 0,
    ensures
        keys_sorted(d.drop_first()),
        forall|j: int| 0 <= j < d.len() - 1 ==> key_lt(d[0].0, #[trigger] d.drop_first()[j].0),
{
    let t = d.drop_first();
    assert forall|i: int, j: int| 0 <= i < j < t.len() implies key_lt(#[trigger] t[i].0, #[trigger] t[j].0) by {
        assert(key_lt(d[i + 1].0, d[j + 1].0));
    }
    assert forall|j: int| 0 <= j < d.len() - 1 implies key_lt(d[0].0, #[trigger] t[j].0) by {
        assert(key_lt(d[0].0, d[j + 1].0));
    }
}

/// Keys above `x` stay above it when `k`, also above it, is put in.
proof fn lemma_dict_put_above(d: Seq<(Seq<u8>, BValue)>, k: Seq<u8>, v: BValue, x: Seq<u8>)
    requires
        forall|j: int| 0 <= j < d.len() ==> key_lt(x, #[trigger] d[j].0),
        key_lt(x, k),
    ensures
        forall|j: int| 0 <= j < dict_put(d, k, v).len() ==> key_lt(x, #[trigger] dict_put(d, k, v)[j].0),
    decreases d.len(),
{
    let r = dict_put(d, k, v);
    if d.len() > 0 && !(d[0].0 == k) && !key_lt(k, d[0].0) {
        let t = d.drop_first();
        assert forall|j: int| 0 <= j < t.len() implies key_lt(x, #[trigger] t[j].0) by {
            assert(t[j] == d[j + 1]);
        }
        lemma_dict_put_above(t, k, v, x);
        assert forall|j: int| 0 <= j < r.len() implies key_lt(x, #[trigger] r[j].0) by {
            if j > 0 {
                assert(r[j] == dict_put(t, k, v)[j - 1]);
            }
        }
    } else if d.len() > 0 && d[0].0 == k {
        assert forall|j: int| 0 <= j < r.len() implies key_lt(x, #[trigger] r[j].0) by {
            if j > 0 {
                assert(r[j] == d[j]);
            }
        }
    } else if d.len() > 0 {
        assert forall|j: int| 0 <= j < r.len() implies key_lt(x, #[trigger] r[j].0) by {
            if j > 0 {
                assert(r[j] == d[j - 1]);
            }
        }
    }
}

proof fn lemma_dict_put_wf(d: Seq<(Seq<u8>, BValue)>, k: Seq<u8>, v: BValue)
    requires
        keys_sorted(d),
        wf_dict(d),
        k.len() <= MAX_LENGTH,
        wf(v),
    ensures
        keys_sorted(dict_put(d, k, v)),
        wf_dict(dict_put(d, k, v)),
    decreases d.len(),
{
    let r = dict_put(d, k, v);
    let e = Seq::<(Seq<u8>, BValue)>::empty();
    if d.len() == 0 {
        assert(r.drop_first() =~= e);
        assert(wf_dict(e));
        assert(r[0] == (k, v));
        assert(wf_dict(r));
    } else {
        let t = d.drop_first();
        lemma_sorted_tail(d);
        assert(wf_dict(t) && wf(d[0].1) && d[0].0.len() <= MAX_LENGTH);
        if d[0].0 == k {
            assert(r.drop_first() =~= t);
            lemma_sorted_cons((k, v), t);
            assert(r =~= seq![(k, v)] + t);
            assert(r[0] == (k, v));
            assert(wf_dict(r));
        } else if key_lt(k, d[0].0) {
            assert(r.drop_first() =~= d);
            assert forall|j: int| 0 <= j < d.len() implies key_lt(k, #[trigger] d[j].0) by {
                if j > 0 {
                    assert(key_lt(d[0].0, d[j].0));
                    lemma_key_lt_transitive(k, d[0].0, d[j].0);
                }
            }
            lemma_sorted_cons((k, v), d);
            assert(r =~= seq![(k, v)] + d);
            assert(r[0] == (k, v));
            assert(wf_dict(r));
        } else {
            lemma_key_lt_total(k, d[0].0);
            lemma_dict_put_wf(t, k, v);
            lemma_dict_put_above(t, k, v, d[0].0);
            lemma_sorted_cons(d[0], dict_put(t, k, v));
            assert(r =~= seq![d[0]] + dict_put(t, k, v));
            assert(r.drop_first() =~= dict_put(t, k, v));
            assert(r[0] == d[0]);
            assert(wf_dict(r));
        }
    }
}

proof fn lemma_digits_end_after(s: Seq<u8>, p: int)
    ensures
        digits_end(s, p) >= p,
    decreases s.len() - p,
{
    if 0 <= p < s.len() && is_digit(s[p]) {
        lemma_digits_end_after(s, p + 1);
    }
}

proof fn lemma_str_fits(s: Seq<u8>, p: int)
    requires
        0 <= p,
    ensures
        spec_str(s, p) matches Ok((b, _)) ==> b.len() <= MAX_LENGTH,
{
    lemma_digits_end_after(s, p);
}

proof fn lemma_value_wf(s: Seq<u8>, p: int)
    ensures
        spec_value(s, p) matches Ok((v, _)) ==> wf(v),
    decreases s.len() - p, 0int,
{
    if 0 <= p < s.len() {
        if s[p] == 105 {
            if let Ok((v, q)) = spec_int(s, p) {
                assert(wf(v));
            }
        } else if is_digit(s[p]) {
            lemma_str_fits(s, p);
        } else if s[p] == 108 {
            lemma_list_wf(s, p + 1, Seq::empty());
        } else if s[p] == 100 {
            lemma_dict_wf(s, p + 1, Seq::empty());
        }
    }
}

proof fn lemma_list_wf(s: Seq<u8>, p: int, acc: Seq<BValue>)
    requires
        wf_list(acc),
    ensures
        spec_list(s, p, acc) matches Ok((v, _)) ==> wf(v),
    decreases s.len() - p, 1int,
{
    if 0 <= p < s.len() && s[p] != 101 {
        if let Ok((v, q)) = spec_value(s, p) {
            if p < q <= s.len() {
                lemma_value_wf(s, p);
                lemma_list_push(acc, v);
                lemma_list_wf(s, q, acc.push(v));
            }
        }
    }
}

proof fn lemma_dict_wf(s: Seq<u8>, p: int, acc: Seq<(Seq<u8>, BValue)>)
    requires
        keys_sorted(acc),
        wf_dict(acc),
    ensures
        spec_dict(s, p, acc) matches Ok((v, _)) ==> wf(v),
    decreases s.len() - p, 1int,
{
    if 0 <= p < s.len() && s[p] != 101 && is_digit(s[p]) {
        lemma_str_fits(s, p);
        if let Ok((k, q)) = spec_str(s, p) {
            if p < q <= s.len() {
                if let Ok((v, r)) = spec_value(s, q) {
                    if q < r <= s.len() {
                        lemma_value_wf(s, q);
                        lemma_dict_put_wf(acc, k, v);
                        lemma_dict_wf(s, r, dict_put(acc, k, v));
                    }
                }
            }
        }
    }
}

/// Decoding, then encoding, then decoding again: every value that `decode`
/// produces is well-formed, so `encode` takes it, and its encoding decodes
/// to the same value.
pub proof fn lemma_round_trip(s: Seq<u8>)
    requires
        spec_decode(s) is Ok,
    ensures
        wf(spec_decode(s)->Ok_0),
        spec_decode(enc(spec_decode(s)->Ok_0)) == spec_decode(s),
{
    let v = spec_decode(s)->Ok_0;
    lemma_value_wf(s, 0);
    lemma_decode_encode(v);
}

/// The canonical encoding of a well-formed value decodes to that value.
pub proof fn lemma_decode_encode(v: BValue)
    requires
        wf(v),
    ensures
        spec_decode(enc(v)) == Ok::<BValue, ParseError>(v),
{
    let b = enc(v);
    assert(b.subrange(0, b.len() as int) =~= b);
    lemma_parse_enc(v, b, 0);
}

/// The encoding is canonical: two well-formed values with the same encoding
/// are the same value.
pub proof fn lemma_encoding_injective(v: BValue, w: BValue)
    requires
        wf(v),
        wf(w),
        enc(v) == enc(w),
    ensures
        v == w,
{
    lemma_decode_encode(v);
    lemma_decode_encode(w);
}

// ---------------------------------------------------------------------------
// Values that have an encoding, and the canonical form they encode in

/// No two entries share a key.
pub open spec fn unique_keys(d: Seq<(Seq<u8>, BValue)>) -> bool {
    forall|i: int, j: int| 0 <= i < j < d.len() ==> (#[trigger] d[i]).0 != (#[trigger] d[j]).0
}

/// A value that has an encoding: strings that a length prefix can declare,
/// 64-bit integers, and dictionaries whose keys are unique (in any order).
pub open spec fn encodable(v: BValue) -> bool
    decreases v,
{
    match v {
        BValue::Str(b) => b.len() <= MAX_LENGTH,
        BValue::Int(i) => -(MAX_MAGNITUDE as int) <= i < MAX_MAGNITUDE as int,
        BValue::List(l) => encodable_list(l),
        BValue::Dict(d) => unique_keys(d) && encodable_dict(d),
    }
}

pub open spec fn encodable_list(l: Seq<BValue>) -> bool
    decreases l,
{
    l.len() > 0 ==> encodable_list(l.drop_last()) && encodable(l.last())
}

pub open spec fn encodable_dict(d: Seq<(Seq<u8>, BValue)>) -> bool
    decreases d,
{
    d.len() > 0 ==> encodable_dict(d.drop_last()) && d.last().0.len() <= MAX_LENGTH && encodable(
        d.last().1,
    )
}

/// The value with every dictionary's entries put in ascending key order.
pub open spec fn canon(v: BValue) -> BValue
    decreases v,
{
    match v {
        BValue::List(l) => BValue::List(canon_list(l)),
        BValue::Dict(d) => BValue::Dict(canon_dict(d)),
        _ => v,
    }
}

pub open spec fn canon_list(l: Seq<BValue>) -> Seq<BValue>
    decreases l,
{
    if l.len() == 0 {
        Seq::empty()
    } else {
        canon_list(l.drop_last()).push(canon(l.last()))
    }
}

/// The entries of `d`, values in canonical form, put one by one in ascending
/// key order.
pub open spec fn canon_dict(d: Seq<(Seq<u8>, BValue)>) -> Seq<(Seq<u8>, BValue)>
    decreases d,
{
    if d.len() == 0 {
        Seq::empty()
    } else {
        dict_put(canon_dict(d.drop_last()), d.last().0, canon(d.last().1))
    }
}

pub proof fn lemma_encodable_list_index(l: Seq<BValue>, i: int)
    requires
        encodable_list(l),
        0 <= i < l.len(),
    ensures
        encodable(l[i]),
    decreases l.len(),
{
    if i < l.len() - 1 {
        assert(l.drop_last()[i] == l[i]);
        lemma_encodable_list_index(l.drop_last(), i);
    }
}

pub proof fn lemma_encodable_dict_index(d: Seq<(Seq<u8>, BValue)>, i: int)
    requires
        encodable_dict(d),
        0 <= i < d.len(),
    ensures
        encodable(d[i].1),
    decreases d.len(),
{
    if i < d.len() - 1 {
        assert(d.drop_last()[i] == d[i]);
        lemma_encodable_dict_index(d.drop_last(), i);
    }
}

/// An entry whose key fits a length prefix and whose value has an encoding.
pub open spec fn entry_ok(e: (Seq<u8>, BValue)) -> bool {
    e.0.len() <= MAX_LENGTH && encodable(e.1)
}

pub proof fn lemma_encodable_dict_all(d: Seq<(Seq<u8>, BValue)>)
    requires
        forall|i: int| 0 <= i < d.len() ==> #[trigger] entry_ok(d[i]),
    ensures
        encodable_dict(d),
    decreases d.len(),
{
    if d.len() > 0 {
        let t = d.drop_last();
        assert forall|i: int| 0 <= i < t.len() implies #[trigger] entry_ok(t[i]) by {
            assert(t[i] == d[i]);
            assert(entry_ok(d[i]));
        }
        lemma_encodable_dict_all(t);
        assert(entry_ok(d[d.len() - 1]));
    }
}

/// The canonical form of a value that has an encoding is well-formed.
pub proof fn lemma_canon_wf(v: BValue)
    requires
        encodable(v),
    ensures
        wf(canon(v)),
    decreases v, 1int,
{
    match v {
        BValue::List(l) => lemma_canon_list_wf(l),
        BValue::Dict(d) => lemma_canon_dict_wf(d),
        _ => {},
    }
}

proof fn lemma_canon_list_wf(l: Seq<BValue>)
    requires
        encodable_list(l),
    ensures
        wf_list(canon_list(l)),
    decreases l, 0int,
{
    if l.len() > 0 {
        lemma_canon_list_wf(l.drop_last());
        lemma_canon_wf(l.last());
        lemma_list_push(canon_list(l.drop_last()), canon(l.last()));
    }
}

proof fn lemma_canon_dict_wf(d: Seq<(Seq<u8>, BValue)>)
    requires
        encodable_dict(d),
    ensures
        keys_sorted(canon_dict(d)),
        wf_dict(canon_dict(d)),
    decreases d, 0int,
{
    if d.len() > 0 {
        lemma_canon_dict_wf(d.drop_last());
        assert(decreases_to!(d => d[d.len() - 1]));
        lemma_canon_wf(d.last().1);
        lemma_dict_put_wf(canon_dict(d.drop_last()), d.last().0, canon(d.last().1));
    } else {
        assert(wf_dict(Seq::<(Seq<u8>, BValue)>::empty()));
    }
}

/// A well-formed value has an encoding and is its own canonical form.
pub proof fn lemma_canon_id(v: BValue)
    requires
        wf(v),
    ensures
        encodable(v),
        canon(v) == v,
    decreases v, 1int,
{
    match v {
        BValue::List(l) => {
            assert forall|i: int| 0 <= i < l.len() implies wf(#[trigger] l[i]) by {
                lemma_wf_list_index(l, i);
            }
            lemma_canon_list_id(l);
        },
        BValue::Dict(d) => {
            assert forall|i: int| 0 <= i < d.len() implies wf(#[trigger] d[i].1) && d[i].0.len()
                <= MAX_LENGTH by {
                lemma_wf_dict_index(d, i);
            }
            lemma_canon_dict_id(d);
            assert forall|i: int, j: int| 0 <= i < j < d.len() implies (#[trigger] d[i]).0 != (
            #[trigger] d[j]).0 by {
                assert(key_lt(d[i].0, d[j].0));
                lemma_key_lt_irreflexive(d[i].0);
            }
        },
        _ => {},
    }
}

proof fn lemma_canon_list_id(l: Seq<BValue>)
    requires
        forall|i: int| 0 <= i < l.len() ==> wf(#[trigger] l[i]),
    ensures
        encodable_list(l),
        canon_list(l) == l,
    decreases l, 0int,
{
    if l.len() > 0 {
        let t = l.drop_last();
        assert forall|i: int| 0 <= i < t.len() implies wf(#[trigger] t[i]) by {
            assert(t[i] == l[i]);
        }
        lemma_canon_list_id(t);
        assert(wf(l[l.len() - 1]));
        lemma_canon_id(l.last());
        assert(canon_list(l) =~= l);
    }
}

proof fn lemma_canon_dict_id(d: Seq<(Seq<u8>, BValue)>)
    requires
        keys_sorted(d),
        forall|i: int| 0 <= i < d.len() ==> wf(#[trigger] d[i].1) && d[i].0.len() <= MAX_LENGTH,
    ensures
        encodable_dict(d),
        canon_dict(d) == d,
    decreases d, 0int,
{
    if d.len() > 0 {
        let t = d.drop_last();
        let n = d.len() - 1;
        assert forall|i: int| 0 <= i < t.len() implies wf(#[trigger] t[i].1) && t[i].0.len()
            <= MAX_LENGTH by {
            assert(t[i] == d[i]);
        }
        assert forall|i: int, j: int| 0 <= i < j < t.len() implies key_lt(
            #[trigger] t[i].0,
            #[trigger] t[j].0,
        ) by {
            assert(key_lt(d[i].0, d[j].0));
        }
        lemma_canon_dict_id(t);
        assert(wf(d[n].1));
        assert(decreases_to!(d => d[n]));
        lemma_canon_id(d[n].1);
        assert forall|i: int| 0 <= i < t.len() implies key_lt(#[trigger] t[i].0, d[n].0) by {
            assert(key_lt(d[i].0, d[n].0));
        }
        lemma_dict_put_append(t, d[n].0, d[n].1);
        assert(canon_dict(d) =~= d);
    }
}

/// Encoding is canonical: the bytes `encode` gives for a value with an
/// encoding are those of a well-formed value (every dictionary's keys in
/// strictly ascending order, at any depth), which they decode back to; a
/// well-formed value encodes as itself.
pub proof fn lemma_encode_canonical(v: BValue)
    requires
        encodable(v),
    ensures
        wf(canon(v)),
        spec_decode(enc(canon(v))) == Ok::<BValue, ParseError>(canon(v)),
        wf(v) ==> canon(v) == v,
{
    lemma_canon_wf(v);
    lemma_decode_encode(canon(v));
    if wf(v) {
        lemma_canon_id(v);
    }
}

/// The entries `d` picked in the order of the indices `o`, values in
/// canonical form.
pub open spec fn picked(d: Seq<(Seq<u8>, BValue)>, o: Seq<usize>) -> Seq<(Seq<u8>, BValue)> {
    o.map_values(|x: usize| (d[x as int].0, canon(d[x as int].1)))
}

/// The index `j` stands in `o`.
pub open spec fn listed(o: Seq<usize>, j: int) -> bool {
    exists|x: int| 0 <= x < o.len() && o[x] == j
}

/// Whether the keys of `d` are unique.
fn keys_unique(d: &Vec<(Vec<u8>, Value)>) -> (r: bool)
    ensures
        r == unique_keys(dict_view(d@)),
{
    proof {
        lemma_dict_view(d@);
    }
    let ghost dv = dict_view(d@);
    let mut a: usize = 0;
    while a < d.len()
        invariant
            a <= d@.len(),
            dv == dict_view(d@),
            dv.len() == d@.len(),
            forall|j: int| 0 <= j < d@.len() ==> #[trigger] dv[j] == (d@[j].0@, d@[j].1@),
            forall|i: int, j: int| 0 <= i < a && i < j < dv.len() ==> (#[trigger] dv[i]).0 != (
            #[trigger] dv[j]).0,
        decreases d@.len() - a,
    {
        let mut b: usize = a + 1;
        while b < d.len()
            invariant
                a < d@.len(),
                a < b <= d@.len(),
                dv == dict_view(d@),
                dv.len() == d@.len(),
                forall|j: int| 0 <= j < d@.len() ==> #[trigger] dv[j] == (d@[j].0@, d@[j].1@),
                forall|i: int, j: int| 0 <= i < a && i < j < dv.len() ==> (#[trigger] dv[i]).0
                    != (#[trigger] dv[j]).0,
                forall|j: int| a < j < b ==> dv[a as int].0 != (#[trigger] dv[j]).0,
            decreases d@.len() - b,
        {
            if compare_keys(d[a].0.as_slice(), d[b].0.as_slice()) == 0 {
                assert(dv[a as int].0 == dv[b as int].0);
                return false;
            }
            b += 1;
        }
        a += 1;
    }
    true
}

impl Value {
    /// Appends the encoding of the value's canonical form; false, with `out`
    /// left in an unspecified state, when the value has no encoding.
    fn encode_into(&self, out: &mut Vec<u8>) -> (ok: bool)
        ensures
            ok == encodable(self@),
            ok ==> final(out)@ == old(out)@ + enc(canon(self@)),
        decreases self,
    {
        let ghost start = out@;
        match self {
            Value::String(b) => {
                let len = b.len();
                assert(b@.len() == len);
                push_str(out, b.as_slice());
                true
            },
            Value::Integer(i) => {
                out.push(105);
                if *i < 0 {
                    out.push(45);
                    push_decimal(out, (-(*i as i128)) as u64);
                } else {
                    push_decimal(out, *i as u64);
                }
                out.push(101);
                assert(out@ =~= start + enc(canon(self@)));
                true
            },
            Value::List(l) => {
                proof {
                    lemma_list_view(l@);
                }
                let ghost lv = list_view(l@);
                out.push(108);
                let mut i: usize = 0;
                assert(lv.take(0) =~= Seq::<BValue>::empty());
                while i < l.len()
                    invariant
                        i <= l@.len(),
                        lv == list_view(l@),
                        *self == Value::List(*l),
                        lv.len() == l@.len(),
                        forall|j: int| 0 <= j < l@.len() ==> #[trigger] lv[j] == value_view(l@[j]),
                        encodable_list(lv.take(i as int)),
                        out@ == start + seq![108u8] + enc_list(canon_list(lv.take(i as int))),
                    decreases l@.len() - i,
                {
                    proof {
                        assert(decreases_to!(l => l[i as int]));
                    }
                    let ok = l[i].encode_into(out);
                    if !ok {
                        proof {
                            if encodable_list(lv) {
                                lemma_encodable_list_index(lv, i as int);
                            }
                            assert(self@ == BValue::List(lv));
                        }
                        return false;
                    }
                    proof {
                        let t = lv.take(i + 1);
                        assert(t.drop_last() =~= lv.take(i as int));
                        assert(t.last() == lv[i as int]);
                        lemma_list_push(canon_list(lv.take(i as int)), canon(lv[i as int]));
                    }
                    i += 1;
                }
                out.push(101);
                assert(lv.take(i as int) =~= lv);
                assert(out@ =~= start + enc(canon(self@)));
                true
            },
            Value::Dict(d) => {
                proof {
                    lemma_dict_view(d@);
                }
                let ghost dv = dict_view(d@);
                if !keys_unique(d) {
                    return false;
                }
                // the entries' indices, in ascending key order
                let mut order: Vec<usize> = Vec::new();
                let mut i: usize = 0;
                assert(dv.take(0) =~= Seq::<(Seq<u8>, BValue)>::empty());
                assert(picked(dv, order@) =~= Seq::<(Seq<u8>, BValue)>::empty());
                while i < d.len()
                    invariant
                        i <= d@.len(),
                        dv == dict_view(d@),
                        dv.len() == d@.len(),
                        forall|j: int|
                            0 <= j < d@.len() ==> #[trigger] dv[j] == (d@[j].0@, d@[j].1@),
                        unique_keys(dv),
                        forall|x: int| 0 <= x < order@.len() ==> #[trigger] order@[x] < i,
                        forall|j: int| 0 <= j < i ==> #[trigger] listed(order@, j),
                        picked(dv, order@) == canon_dict(dv.take(i as int)),
                    decreases d@.len() - i,
                {
                    let ghost pv = picked(dv, order@);
                    let ghost k = dv[i as int].0;
                    let mut pos: usize = 0;
                    while pos < order.len()
                        invariant
                            pos <= order@.len(),
                            i < d@.len(),
                            k == dv[i as int].0,
                            pv == picked(dv, order@),
                            forall|x: int| 0 <= x < order@.len() ==> #[trigger] order@[x] < i,
                            forall|j: int|
                                0 <= j < d@.len() ==> #[trigger] dv[j] == (d@[j].0@, d@[j].1@),
                            forall|x: int| 0 <= x < pos ==> key_lt(#[trigger] pv[x].0, k),
                        ensures
                            pos <= order@.len(),
                            forall|x: int| 0 <= x < pos ==> key_lt(#[trigger] pv[x].0, k),
                            pos < order@.len() ==> !key_lt(pv[pos as int].0, k),
                        decreases order@.len() - pos,
                    {
                        assert(pv[pos as int].0 == dv[order@[pos as int] as int].0);
                        if compare_keys(d[order[pos]].0.as_slice(), d[i].0.as_slice()) >= 0 {
                            break;
                        }
                        pos += 1;
                    }
                    proof {
                        if pos < order@.len() {
                            assert(pv[pos as int].0 == dv[order@[pos as int] as int].0);
                            assert(order@[pos as int] < i);
                        }
                        lemma_dict_put_at(pv, k, canon(dv[i as int].1), pos as int);
                    }
                    let ghost old_order = order@;
                    order.insert(pos, i);
                    proof {
                        let t = dv.take(i + 1);
                        assert(t.drop_last() =~= dv.take(i as int));
                        assert(t.last() == dv[i as int]);
                        assert(picked(dv, order@) =~= pv.insert(
                            pos as int,
                            (k, canon(dv[i as int].1)),
                        ));
                        assert forall|j: int| 0 <= j < i + 1 implies #[trigger] listed(order@, j) by {
                            if j == i {
                                assert(order@[pos as int] == j);
                            } else {
                                assert(listed(old_order, j));
                                let x = choose|x: int| 0 <= x < old_order.len() && old_order[x] == j;
                                if x < pos {
                                    assert(order@[x] == j);
                                } else {
                                    assert(order@[x + 1] == j);
                                }
                            }
                        }
                    }
                    i += 1;
                }
                assert(dv.take(i as int) =~= dv);
                let ghost sorted = picked(dv, order@);
                out.push(100);
                let mut t: usize = 0;
                assert(sorted.take(0) =~= Seq::<(Seq<u8>, BValue)>::empty());
                while t < order.len()
                    invariant
                        t <= order@.len(),
                        order@.len() == sorted.len(),
                        sorted == picked(dv, order@),
                        dv == dict_view(d@),
                        *self == Value::Dict(*d),
                        forall|j: int|
                            0 <= j < d@.len() ==> #[trigger] dv[j] == (d@[j].0@, d@[j].1@),
                        forall|x: int| 0 <= x < order@.len() ==> #[trigger] order@[x] < d@.len(),
                        dv.len() == d@.len(),
                        forall|x: int| 0 <= x < t ==> encodable(#[trigger] dv[order@[x] as int].1)
                            && dv[order@[x] as int].0.len() <= MAX_LENGTH,
                        out@ == start + seq![100u8] + enc_dict(sorted.take(t as int)),
                    decreases order@.len() - t,
                {
                    let x = order[t];
                    let key_len = d[x].0.len();
                    assert(dv[x as int].0.len() == key_len);
                    push_str(out, d[x].0.as_slice());
                    proof {
                        assert(decreases_to!(d => d[x as int]));
                        assert(decreases_to!(d[x as int] => d[x as int].1));
                    }
                    let ok = d[x].1.encode_into(out);
                    if !ok {
                        proof {
                            if encodable_dict(dv) {
                                lemma_encodable_dict_index(dv, x as int);
                            }
                            assert(self@ == BValue::Dict(dv));
                        }
                        return false;
                    }
                    proof {
                        assert(sorted[t as int] == (dv[x as int].0, canon(dv[x as int].1)));
                        assert(sorted.take(t + 1) =~= sorted.take(t as int).push(sorted[t as int]));
                        lemma_dict_push(sorted.take(t as int), sorted[t as int]);
                    }
                    t += 1;
                }
                out.push(101);
                proof {
                    assert(sorted.take(t as int) =~= sorted);
                    assert forall|j: int| 0 <= j < dv.len() implies #[trigger] entry_ok(dv[j]) by {
                        assert(listed(order@, j));
                        let x = choose|x: int| 0 <= x < order@.len() && order@[x] == j;
                        assert(encodable(dv[order@[x] as int].1));
                        assert(dv[j].0.len() == d@[j].0@.len());
                    }
                    lemma_encodable_dict_all(dv);
                    assert(self@ == BValue::Dict(dv));
                    assert(out@ =~= start + enc(canon(self@)));
                }
                true
            },
        }
    }

    /// The canonical bencoding of the value: every dictionary's entries
    /// emitted in ascending key order, whatever order they are held in. A
    /// dictionary with a repeated key (or a string too long for a length
    /// prefix) has none, and gives `InvalidValue`.
    pub fn encode(&self) -> (r: Result<Vec<u8>, Error>)
        ensures
            encodable(self@) ==> (r matches Ok(b) && b@ == enc(canon(self@))),
            !encodable(self@) ==> r == Err::<Vec<u8>, Error>(Error::InvalidValue),
    {
        let mut out: Vec<u8> = Vec::new();
        if self.encode_into(&mut out) {
            assert(out@ =~= enc(canon(self@)));
            Ok(out)
        } else {
            Err(Error::InvalidValue)
        }
    }
}

// ---------------------------------------------------------------------------
// Malformed input

/// `ie` and `i-e`, integers without digits, are errors wherever they stand.
pub proof fn lemma_empty_integer(s: Seq<u8>, p: int)
    requires
        0 <= p,
        p + 2 < s.len(),
        s[p] == 105,
        s[p + 1] == 101 || (s[p + 1] == 45 && s[p + 2] == 101),
    ensures
        spec_value(s, p) == Err::<(BValue, int), ParseError>(ParseError::EmptyInteger),
{
}

/// A string that declares more bytes than follow it is an error.
pub proof fn lemma_short_string(n: nat, w: Seq<u8>)
    requires
        w.len() < n,
    ensures
        spec_decode(nat_text(n) + seq![58u8] + w) is Err,
{
    let t = nat_text(n);
    let s = t + seq![58u8] + w;
    lemma_nat_text(n);
    assert(s[0] == t[0]);
    assert forall|i: int| 0 <= i < t.len() implies is_digit(#[trigger] s[i]) by {
        assert(s[i] == t[i]);
    }
    assert(s[t.len() as int] == 58);
    lemma_digits_end(s, 0, t.len() as int);
    assert(s.subrange(0, t.len() as int) =~= t);
}

/// A list whose items are all there but whose closing `e` is missing is an
/// error, never a shorter list.
pub proof fn lemma_unclosed_list(l: Seq<BValue>)
    requires
        wf_list(l),
    ensures
        spec_decode(seq![108u8] + enc_list(l)) == Err::<BValue, ParseError>(ParseError::ListEnd),
{
    let s = seq![108u8] + enc_list(l);
    assert(s.subrange(1, s.len() as int) =~= enc_list(l));
    lemma_unclosed_items(l, s, 1, Seq::empty());
}

proof fn lemma_unclosed_items(l: Seq<BValue>, s: Seq<u8>, q: int, acc: Seq<BValue>)
    requires
        wf_list(l),
        1 <= q,
        text_at(s, q, enc_list(l)),
        q + enc_list(l).len() == s.len(),
    ensures
        spec_list(s, q, acc) == Err::<(BValue, int), ParseError>(ParseError::ListEnd),
    decreases l.len(),
{
    if l.len() > 0 {
        let x = l[0];
        let rest = l.drop_first();
        lemma_text_at_concat(s, q, enc(x), enc_list(rest));
        lemma_first_byte(x);
        assert(s.subrange(q, q + enc(x).len())[0] == s[q]);
        lemma_parse_enc(x, s, q);
        lemma_unclosed_items(rest, s, q + enc(x).len(), acc.push(x));
    }
}

/// A dictionary whose entries are all there but whose closing `e` is
/// missing is an error, never a smaller dictionary.
pub proof fn lemma_unclosed_dict(d: Seq<(Seq<u8>, BValue)>)
    requires
        wf(BValue::Dict(d)),
    ensures
        spec_decode(seq![100u8] + enc_dict(d)) == Err::<BValue, ParseError>(ParseError::DictEnd),
{
    let s = seq![100u8] + enc_dict(d);
    assert(s.subrange(1, s.len() as int) =~= enc_dict(d));
    assert(Seq::<(Seq<u8>, BValue)>::empty() + d =~= d);
    lemma_unclosed_entries(d, s, 1, Seq::empty());
}

proof fn lemma_unclosed_entries(
    d: Seq<(Seq<u8>, BValue)>,
    s: Seq<u8>,
    q: int,
    acc: Seq<(Seq<u8>, BValue)>,
)
    requires
        wf_dict(d),
        keys_sorted(acc + d),
        1 <= q,
        text_at(s, q, enc_dict(d)),
        q + enc_dict(d).len() == s.len(),
    ensures
        spec_dict(s, q, acc) == Err::<(BValue, int), ParseError>(ParseError::DictEnd),
    decreases d.len(),
{
    if d.len() > 0 {
        let (k, x) = d[0];
        let rest = d.drop_first();
        assert(enc_dict(d) =~= enc_str(k) + (enc(x) + enc_dict(rest)));
        lemma_text_at_concat(s, q, enc_str(k), enc(x) + enc_dict(rest));
        let q1 = q + enc_str(k).len();
        lemma_text_at_concat(s, q1, enc(x), enc_dict(rest));
        lemma_nat_text(k.len());
        assert(s.subrange(q, q1)[0] == s[q]);
        assert(enc_str(k)[0] == nat_text(k.len())[0]);
        lemma_parse_str(k, s, q);
        lemma_parse_enc(x, s, q1);
        assert forall|i: int| 0 <= i < acc.len() implies key_lt(#[trigger] acc[i].0, k) by {
            assert((acc + d)[i] == acc[i]);
            assert((acc + d)[acc.len() as int] == d[0]);
        }
        lemma_dict_put_append(acc, k, x);
        assert(acc.push((k, x)) + rest =~= acc + d);
        lemma_unclosed_entries(rest, s, q1 + enc(x).len(), acc.push((k, x)));
    }
}

} // verus!
