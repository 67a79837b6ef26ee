use vstd::prelude::*;
use crate::value::{Value, Bencode, DecodeError};

verus! {

/// How deeply lists and dictionaries may nest when no limit is given.
pub const DEFAULT_MAX_DEPTH: usize = 64;

pub open spec fn is_digit(b: u8) -> bool {
    48 <= b <= 57
}

pub open spec fn all_digits(t: Seq<u8>) -> bool {
    forall|i: int| 0 <= i < t.len() ==> is_digit(#[trigger] t[i])
}

/// The number that a run of decimal digits denotes.
pub open spec fn digits_value(t: Seq<u8>) -> nat
    decreases t.len(),
{
    if t.len() == 0 {
        0
    } else {
        digits_value(t.drop_last()) * 10 + (t.last() - 48) as nat
    }
}

/// The integer that a text denotes as `i64::from_str` reads it: an optional
/// `+` or `-`, then one or more decimal digits.
pub open spec fn int_text_value(t: Seq<u8>) -> Option<int> {
    if t.len() > 1 && t[0] == 45 && all_digits(t.drop_first()) {
        Some(-digits_value(t.drop_first()))
    } else if t.len() > 1 && t[0] == 43 && all_digits(t.drop_first()) {
        Some(digits_value(t.drop_first()) as int)
    } else if t.len() > 0 && all_digits(t) {
        Some(digits_value(t) as int)
    } else {
        None
    }
}

/// The first position at or after `start` that holds byte `c`.
pub open spec fn find_byte(s: Seq<u8>, start: int, c: u8) -> Option<int>
    decreases s.len() - start,
{
    if start < 0 || start >= s.len() {
        None
    } else if s[start] == c {
        Some(start)
    } else {
        find_byte(s, start + 1, c)
    }
}

/// The end of the run of digits that starts at `start`.
pub open spec fn digit_run_end(s: Seq<u8>, start: int) -> int
    decreases s.len() - start,
{
    if start < 0 || start >= s.len() || !is_digit(s[start]) {
        start
    } else {
        digit_run_end(s, start + 1)
    }
}

/// The first position at or after `i` whose key is `key`, or -1.
pub open spec fn key_position(d: Seq<(Seq<u8>, Bencode)>, key: Seq<u8>, i: int) -> int
    decreases d.len() - i,
{
    if i < 0 || i >= d.len() {
        -1
    } else if d[i].0 == key {
        i
    } else {
        key_position(d, key, i + 1)
    }
}

/// Entries after `key` is set to `v`: in place if present, else at the end.
pub open spec fn dict_insert(d: Seq<(Seq<u8>, Bencode)>, key: Seq<u8>, v: Bencode) -> Seq<
    (Seq<u8>, Bencode),
> {
    let p = key_position(d, key, 0);
    if p >= 0 {
        d.update(p, (key, v))
    } else {
        d.push((key, v))
    }
}

/// An integer `i<text>e` starting at `pos`.
pub open spec fn parse_integer(s: Seq<u8>, pos: int) -> Result<(Bencode, int), DecodeError> {
    match find_byte(s, pos + 1, 101) {
        None => Err(DecodeError::MalformedInteger),
        Some(end) => match int_text_value(s.subrange(pos + 1, end)) {
            Some(n) => if i64::MIN <= n <= i64::MAX {
                Ok((Bencode::Int(n), end + 1))
            } else {
                Err(DecodeError::MalformedInteger)
            },
            None => Err(DecodeError::MalformedInteger),
        },
    }
}

/// A byte string `<length>:<bytes>` starting at `pos`, which holds a digit.
pub open spec fn parse_byte_string(s: Seq<u8>, pos: int) -> Result<(Bencode, int), DecodeError> {
    let colon = digit_run_end(s, pos);
    if colon >= s.len() || s[colon] != 58 {
        Err(DecodeError::UnrecognizedValue)
    } else {
        let len = digits_value(s.subrange(pos, colon));
        if colon + 1 + len > s.len() {
            Err(DecodeError::TruncatedString)
        } else {
            Ok((Bencode::Bytes(s.subrange(colon + 1, colon + 1 + len)), colon + 1 + len))
        }
    }
}

/// The value that starts at `pos`, with the position just past it; lists and
/// dictionaries may nest `depth` levels.
pub open spec fn parse_value(s: Seq<u8>, pos: int, depth: nat) -> Result<(Bencode, int), DecodeError>
    decreases s.len() - pos, 0int,
{
    if pos < 0 || pos >= s.len() {
        Err(DecodeError::UnrecognizedValue)
    } else if s[pos] == 105 {
        parse_integer(s, pos)
    } else if is_digit(s[pos]) {
        parse_byte_string(s, pos)
    } else if s[pos] == 108 {
        if depth == 0 {
            Err(DecodeError::NestingTooDeep)
        } else {
            parse_list(s, pos + 1, (depth - 1) as nat, Seq::empty())
        }
    } else if s[pos] == 100 {
        if depth == 0 {
            Err(DecodeError::NestingTooDeep)
        } else {
            parse_dict(s, pos + 1, (depth - 1) as nat, Seq::empty())
        }
    } else {
        Err(DecodeError::UnrecognizedValue)
    }
}

/// The rest of a list from `pos`, after the items `acc`.
pub open spec fn parse_list(s: Seq<u8>, pos: int, depth: nat, acc: Seq<Bencode>) -> Result<
    (Bencode, int),
    DecodeError,
>
    decreases s.len() - pos, 1int,
{
    if 0 <= pos < s.len() && s[pos] == 101 {
        Ok((Bencode::List(acc), pos + 1))
    } else {
        match parse_value(s, pos, depth) {
            Err(e) => Err(e),
            Ok((v, next)) => if next <= pos || next > s.len() {
                Err(DecodeError::UnrecognizedValue)
            } else {
                parse_list(s, next, depth, acc.push(v))
            },
        }
    }
}

/// The rest of a dictionary from `pos`, after the entries `acc`.
pub open spec fn parse_dict(
    s: Seq<u8>,
    pos: int,
    depth: nat,
    acc: Seq<(Seq<u8>, Bencode)>,
) -> Result<(Bencode, int), DecodeError>
    decreases s.len() - pos, 1int,
{
    if 0 <= pos < s.len() && s[pos] == 101 {
        Ok((Bencode::Dict(acc), pos + 1))
    } else {
        match parse_value(s, pos, depth) {
            Err(e) => Err(e),
            Ok((k, kend)) => if kend <= pos || kend > s.len() {
                Err(DecodeError::UnrecognizedValue)
            } else {
                match k {
                    Bencode::Bytes(key) => match parse_value(s, kend, depth) {
                        Err(e) => Err(e),
                        Ok((v, vend)) => if vend <= kend || vend > s.len() {
                            Err(DecodeError::UnrecognizedValue)
                        } else {
                            parse_dict(s, vend, depth, dict_insert(acc, key, v))
                        },
                    },
                    _ => Err(DecodeError::NonStringKey),
                }
            },
        }
    }
}

/// What decoding `s` gives: the value at its start and the bytes after it.
pub open spec fn decode_spec(s: Seq<u8>, depth: nat) -> Result<(Bencode, Seq<u8>), DecodeError> {
    match parse_value(s, 0, depth) {
        Ok((v, e)) => Ok((v, s.subrange(e, s.len() as int))),
        Err(err) => Err(err),
    }
}

/// The model of a decoding's result.
pub open spec fn decoded(r: Result<(Value, Vec<u8>), DecodeError>) -> Result<(Bencode, Seq<u8>), DecodeError> {
    match r {
        Ok((v, rest)) => Ok((v.model(), rest@)),
        Err(err) => Err(err),
    }
}

/// The model of a decoder's outcome.
pub open spec fn outcome(r: Result<(Value, usize), DecodeError>) -> Result<(Bencode, int), DecodeError> {
    match r {
        Ok((v, e)) => Ok((v.model(), e as int)),
        Err(err) => Err(err),
    }
}

pub open spec fn models(items: Seq<Value>) -> Seq<Bencode> {
    Seq::new(items.len(), |i: int| items[i].model())
}

pub open spec fn entry_models(entries: Seq<(Vec<u8>, Value)>) -> Seq<(Seq<u8>, Bencode)> {
    Seq::new(entries.len(), |i: int| (entries[i].0@, entries[i].1.model()))
}

proof fn lemma_digits_step(t: Seq<u8>, i: int)
    requires
        0 <= i < t.len(),
    ensures
        digits_value(t.subrange(0, i + 1)) == digits_value(t.subrange(0, i)) * 10 + (t[i] - 48) as nat,
{
    assert(t.subrange(0, i + 1).drop_last() =~= t.subrange(0, i));
}

/// A longer run of digits denotes a number at least as large.
proof fn lemma_digits_prefix_le(t: Seq<u8>, i: int, j: int)
    requires
        0 <= i <= j <= t.len(),
        all_digits(t),
    ensures
        digits_value(t.subrange(0, i)) <= digits_value(t.subrange(0, j)),
    decreases j - i,
{
    if i < j {
        lemma_digits_prefix_le(t, i, j - 1);
        lemma_digits_step(t, j - 1);
    }
}

/// Reads `s[start..end]` as `i64::from_str` does.
fn parse_i64(s: &[u8], start: usize, end: usize) -> (r: Option<i64>)
    requires
        start <= end <= s.len(),
    ensures
        match int_text_value(s@.subrange(start as int, end as int)) {
            Some(n) => if i64::MIN <= n <= i64::MAX {
                r == Some(n as i64)
            } else {
                r is None
            },
            None => r is None,
        },
{
    let ghost t = s@.subrange(start as int, end as int);
    if start == end {
        return None;
    }
    let mut negative = false;
    let mut first: usize = start;
    if s[start] == 45 {
        negative = true;
        first = start + 1;
    } else if s[start] == 43 {
        first = start + 1;
    }
    if first == end {
        return None;
    }
    let ghost u = s@.subrange(first as int, end as int);
    assert(first > start ==> u =~= t.drop_first());
    assert(first == start ==> u =~= t);
    let mut mag: u64 = 0;
    let mut i: usize = first;
    while i < end
        invariant
            first <= i <= end <= s.len(),
            start <= first <= start + 1,
            first == start + 1 <==> (t[0] == 45 || t[0] == 43),
            negative <==> t[0] == 45,
            u == s@.subrange(first as int, end as int),
            t == s@.subrange(start as int, end as int),
            first > start ==> u =~= t.drop_first(),
            first == start ==> u =~= t,
            all_digits(u.subrange(0, i - first)),
            mag == digits_value(u.subrange(0, i - first)),
            mag <= 9223372036854775808,
        decreases end - i,
    {
        let b = s[i];
        if b < 48 || b > 57 {
            assert(!is_digit(u[i - first]));
            return None;
        }
        let d = (b - 48) as u64;
        proof {
            lemma_digits_step(u, i - first);
            assert(u.subrange(0, i - first + 1) =~= u.subrange(0, i - first).push(b));
        }
        if mag > 922337203685477580 || (mag == 922337203685477580 && d > 8) {
            proof {
                if all_digits(u) {
                    lemma_digits_prefix_le(u, i - first + 1, u.len() as int);
                    assert(u.subrange(0, u.len() as int) =~= u);
                }
            }
            return None;
        }
        mag = mag * 10 + d;
        i = i + 1;
    }
    assert(u.subrange(0, i - first) =~= u);
    if negative {
        if mag == 9223372036854775808 {
            Some(i64::MIN)
        } else {
            Some(-(mag as i64))
        }
    } else if mag > 9223372036854775807 {
        None
    } else {
        Some(mag as i64)
    }
}

/// Decodes the integer `i<text>e` at `pos`.
fn decode_integer(s: &[u8], pos: usize) -> (r: Result<(Value, usize), DecodeError>)
    requires
        pos < s.len(),
    ensures
        outcome(r) == parse_integer(s@, pos as int),
        r matches Ok((_, e)) ==> pos < e <= s.len(),
{
    let mut i: usize = pos + 1;
    while i < s.len() && s[i] != 101
        invariant
            pos < i <= s.len(),
            find_byte(s@, pos + 1, 101) == find_byte(s@, i as int, 101),
        decreases s.len() - i,
    {
        i = i + 1;
    }
    if i == s.len() {
        return Err(DecodeError::MalformedInteger);
    }
    match parse_i64(s, pos + 1, i) {
        Some(n) => Ok((Value::Integer(n), i + 1)),
        None => Err(DecodeError::MalformedInteger),
    }
}

/// Decodes the byte string `<length>:<bytes>` at `pos`.
fn decode_byte_string(s: &[u8], pos: usize) -> (r: Result<(Value, usize), DecodeError>)
    requires
        pos < s.len(),
    ensures
        outcome(r) == parse_byte_string(s@, pos as int),
        r matches Ok((_, e)) ==> pos < e <= s.len(),
{
    let mut i: usize = pos;
    let mut n: usize = 0;
    let mut over = false;
    while i < s.len() && 48 <= s[i] && s[i] <= 57
        invariant
            pos <= i <= s.len(),
            digit_run_end(s@, pos as int) == digit_run_end(s@, i as int),
            !over ==> n == digits_value(s@.subrange(pos as int, i as int)) && n <= s.len(),
            over ==> digits_value(s@.subrange(pos as int, i as int)) > s.len(),
        decreases s.len() - i,
    {
        let ghost t = s@.subrange(pos as int, s.len() as int);
        proof {
            lemma_digits_step(t, i - pos);
            assert(t.subrange(0, i - pos) =~= s@.subrange(pos as int, i as int));
            assert(t.subrange(0, i - pos + 1) =~= s@.subrange(pos as int, i + 1));
        }
        if !over {
            let next: u128 = n as u128 * 10 + (s[i] - 48) as u128;
            if next > s.len() as u128 {
                over = true;
            } else {
                n = next as usize;
            }
        }
        i = i + 1;
    }
    if i == s.len() || s[i] != 58 {
        return Err(DecodeError::UnrecognizedValue);
    }
    if over || n > s.len() - (i + 1) {
        return Err(DecodeError::TruncatedString);
    }
    let bytes = vstd::slice::slice_to_vec(vstd::slice::slice_subrange(s, i + 1, i + 1 + n));
    Ok((Value::ByteString(bytes), i + 1 + n))
}

pub(crate) fn bytes_eq(a: &[u8], b: &[u8]) -> (r: bool)
    ensures
        r == (a@ == b@),
{
    if a.len() != b.len() {
        return false;
    }
    let mut i: usize = 0;
    while i < a.len()
        invariant
            i <= a.len() == b.len(),
            forall|j: int| 0 <= j < i ==> a@[j] == b@[j],
        decreases a.len() - i,
    {
        if a[i] != b[i] {
            return false;
        }
        i = i + 1;
    }
    assert(a@ =~= b@);
    true
}

/// Sets `key` to `v` in `entries`: in place where the key is present, else at the end.
fn insert_entry(entries: &mut Vec<(Vec<u8>, Value)>, key: Vec<u8>, v: Value)
    ensures
        entry_models(final(entries)@) == dict_insert(entry_models(old(entries)@), key@, v.model()),
{
    let ghost d = entry_models(entries@);
    let mut i: usize = 0;
    while i < entries.len()
        invariant
            i <= entries.len(),
            d == entry_models(entries@),
            entries@ == old(entries)@,
            key_position(d, key@, 0) == key_position(d, key@, i as int),
        decreases entries.len() - i,
    {
        if bytes_eq(entries[i].0.as_slice(), key.as_slice()) {
            let ghost kv = key@;
            let ghost m = v.model();
            assert(d[i as int].0 == kv);
            assert(key_position(d, kv, i as int) == i as int);
            entries.set(i, (key, v));
            assert(entry_models(entries@) =~= d.update(i as int, (kv, m)));
            return;
        }
        i = i + 1;
    }
    let ghost kv = key@;
    let ghost m = v.model();
    entries.push((key, v));
    assert(entry_models(entries@) =~= d.push((kv, m)));
}

/// Decodes the value at `pos`, letting lists and dictionaries nest `depth` levels.
pub fn decode_value_at(s: &[u8], pos: usize, depth: usize) -> (r: Result<(Value, usize), DecodeError>)
    requires
        pos <= s.len(),
    ensures
        outcome(r) == parse_value(s@, pos as int, depth as nat),
        r matches Ok((_, e)) ==> pos < e <= s.len(),
    decreases s@.len() - pos, 0int,
{
    if pos >= s.len() {
        return Err(DecodeError::UnrecognizedValue);
    }
    let tag = s[pos];
    if tag == 105 {
        decode_integer(s, pos)
    } else if 48 <= tag && tag <= 57 {
        decode_byte_string(s, pos)
    } else if tag == 108 {
        if depth == 0 {
            Err(DecodeError::NestingTooDeep)
        } else {
            decode_list(s, pos + 1, depth - 1)
        }
    } else if tag == 100 {
        if depth == 0 {
            Err(DecodeError::NestingTooDeep)
        } else {
            decode_dict(s, pos + 1, depth - 1)
        }
    } else {
        Err(DecodeError::UnrecognizedValue)
    }
}

fn decode_list(s: &[u8], pos: usize, depth: usize) -> (r: Result<(Value, usize), DecodeError>)
    requires
        pos <= s.len(),
    ensures
        outcome(r) == parse_list(s@, pos as int, depth as nat, Seq::empty()),
        r matches Ok((_, e)) ==> pos < e <= s.len(),
    decreases s@.len() - pos, 1int,
{
    let mut items: Vec<Value> = Vec::new();
    let mut cur: usize = pos;
    assert(models(items@) =~= Seq::<Bencode>::empty());
    loop
        invariant
            pos <= cur <= s.len(),
            parse_list(s@, pos as int, depth as nat, Seq::empty()) == parse_list(
                s@,
                cur as int,
                depth as nat,
                models(items@),
            ),
        decreases s.len() - cur,
    {
        if cur < s.len() && s[cur] == 101 {
            let ghost m = models(items@);
            let r = Value::List(items);
            assert(r.model() matches Bencode::List(ms) && ms =~= m);
            return Ok((r, cur + 1));
        }
        match decode_value_at(s, cur, depth) {
            Err(e) => {
                return Err(e);
            },
            Ok((v, next)) => {
                let ghost m = v.model();
                let ghost prev = models(items@);
                items.push(v);
                assert(models(items@) =~= prev.push(m));
                cur = next;
            },
        }
    }
}

fn decode_dict(s: &[u8], pos: usize, depth: usize) -> (r: Result<(Value, usize), DecodeError>)
    requires
        pos <= s.len(),
    ensures
        outcome(r) == parse_dict(s@, pos as int, depth as nat, Seq::empty()),
        r matches Ok((_, e)) ==> pos < e <= s.len(),
    decreases s@.len() - pos, 1int,
{
    let mut entries: Vec<(Vec<u8>, Value)> = Vec::new();
    let mut cur: usize = pos;
    assert(entry_models(entries@) =~= Seq::<(Seq<u8>, Bencode)>::empty());
    loop
        invariant
            pos <= cur <= s.len(),
            parse_dict(s@, pos as int, depth as nat, Seq::empty()) == parse_dict(
                s@,
                cur as int,
                depth as nat,
                entry_models(entries@),
            ),
        decreases s.len() - cur,
    {
        if cur < s.len() && s[cur] == 101 {
            let ghost m = entry_models(entries@);
            let r = Value::Dictionary(entries);
            assert(r.model() matches Bencode::Dict(ms) && ms =~= m);
            return Ok((r, cur + 1));
        }
        let (k, key_end) = match decode_value_at(s, cur, depth) {
            Err(e) => {
                return Err(e);
            },
            Ok(kv) => kv,
        };
        let key = match k {
            Value::ByteString(key) => key,
            _ => {
                return Err(DecodeError::NonStringKey);
            },
        };
        match decode_value_at(s, key_end, depth) {
            Err(e) => {
                return Err(e);
            },
            Ok((v, next)) => {
                insert_entry(&mut entries, key, v);
                cur = next;
            },
        }
    }
}

/// Decodes the value at the start of `input`, letting lists and dictionaries
/// nest at most `max_depth` levels. Returns the value and the bytes after it.
pub fn decode_with_max_depth(input: &[u8], max_depth: usize) -> (r: Result<(Value, Vec<u8>), DecodeError>)
    ensures
        decoded(r) == decode_spec(input@, max_depth as nat),
{
    match decode_value_at(input, 0, max_depth) {
        Ok((v, e)) => {
            let rest = vstd::slice::slice_to_vec(vstd::slice::slice_subrange(input, e, input.len()));
            Ok((v, rest))
        },
        Err(err) => Err(err),
    }
}

/// Decodes the value at the start of `input` with the default nesting limit.
/// Returns the value and the bytes after it.
pub fn decode_bencoded_value(input: &[u8]) -> (r: Result<(Value, Vec<u8>), DecodeError>)
    ensures
        decoded(r) == decode_spec(input@, DEFAULT_MAX_DEPTH as nat),
{
    decode_with_max_depth(input, DEFAULT_MAX_DEPTH)
}

/// The decimal digits of `n`, as `to_string` writes them.
pub open spec fn nat_text(n: nat) -> Seq<u8>
    decreases n,
{
    if n < 10 {
        seq![(48 + n) as u8]
    } else {
        nat_text(n / 10).push((48 + n % 10) as u8)
    }
}

/// The text of `n`, as `to_string` writes it: a `-` before a negative number.
pub open spec fn int_text(n: int) -> Seq<u8> {
    if n < 0 {
        seq![45u8] + nat_text((-n) as nat)
    } else {
        nat_text(n as nat)
    }
}

proof fn lemma_nat_text(n: nat)
    ensures
        nat_text(n).len() >= 1,
        all_digits(nat_text(n)),
        digits_value(nat_text(n)) == n,
    decreases n,
{
    if n >= 10 {
        lemma_nat_text(n / 10);
        assert(nat_text(n).drop_last() =~= nat_text(n / 10));
        assert(nat_text(n).last() - 48 == n % 10);
        assert(digits_value(nat_text(n)) == digits_value(nat_text(n / 10)) * 10 + n % 10);
        assert((n / 10) * 10 + n % 10 == n) by (nonlinear_arith);
    } else {
        let t = nat_text(n);
        assert(t.drop_last() =~= Seq::<u8>::empty());
        assert(digits_value(t.drop_last()) == 0);
        assert(t.last() - 48 == n);
    }
}

proof fn lemma_find_byte_skip(s: Seq<u8>, start: int, end: int, c: u8)
    requires
        0 <= start <= end,
        forall|j: int| start <= j < end ==> s[j] != c,
        end <= s.len(),
    ensures
        find_byte(s, start, c) == find_byte(s, end, c),
    decreases end - start,
{
    if start < end {
        lemma_find_byte_skip(s, start + 1, end, c);
    }
}

proof fn lemma_digit_run_skip(s: Seq<u8>, start: int, end: int)
    requires
        0 <= start <= end <= s.len(),
        forall|j: int| start <= j < end ==> is_digit(#[trigger] s[j]),
    ensures
        digit_run_end(s, start) == digit_run_end(s, end),
    decreases end - start,
{
    if start < end {
        lemma_digit_run_skip(s, start + 1, end);
    }
}

/// Decoding `i`, then the decimal text of any `i64`, then `e`, gives that
/// integer back and leaves nothing over.
pub proof fn law_integer_round_trip(n: i64, depth: nat)
    ensures
        decode_spec(seq![105u8] + int_text(n as int) + seq![101u8], depth) == Ok::<
            (Bencode, Seq<u8>),
            DecodeError,
        >((Bencode::Int(n as int), Seq::empty())),
{
    let t = int_text(n as int);
    let s = seq![105u8] + t + seq![101u8];
    let m: nat = if n < 0 { (-n) as nat } else { n as nat };
    lemma_nat_text(m);
    assert(forall|j: int| 1 <= j < 1 + t.len() ==> s[j] == t[j - 1]);
    if n < 0 {
        assert(t.drop_first() =~= nat_text(m));
        assert forall|j: int| 0 <= j < t.len() implies t[j] != 101 by {
            if j > 0 {
                assert(t[j] == nat_text(m)[j - 1]);
            }
        }
    } else {
        assert(forall|j: int| 0 <= j < t.len() ==> is_digit(#[trigger] t[j]));
    }
    let k = 1 + t.len() as int;
    lemma_find_byte_skip(s, 1, k, 101);
    assert(s[k] == 101);
    assert(find_byte(s, 1, 101) == Some(k));
    assert(s.subrange(1, 1 + t.len() as int) =~= t);
    assert(s.subrange(s.len() as int, s.len() as int) =~= Seq::<u8>::empty());
}

/// Decoding the decimal length of any byte sequence, then `:`, then the
/// bytes, gives those bytes back and leaves nothing over.
pub proof fn law_byte_string_round_trip(b: Seq<u8>, depth: nat)
    ensures
        decode_spec(nat_text(b.len()) + seq![58u8] + b, depth) == Ok::<
            (Bencode, Seq<u8>),
            DecodeError,
        >((Bencode::Bytes(b), Seq::empty())),
{
    let t = nat_text(b.len());
    let s = t + seq![58u8] + b;
    lemma_nat_text(b.len());
    let k = t.len() as int;
    assert(forall|j: int| 0 <= j < k ==> s[j] == t[j]);
    assert(forall|j: int| 0 <= j < k ==> is_digit(#[trigger] s[j]));
    lemma_digit_run_skip(s, 0, k);
    assert(s[k] == 58);
    assert(digit_run_end(s, k) == k);
    assert(s.subrange(0, k) =~= t);
    assert(s.subrange(k + 1, k + 1 + b.len()) =~= b);
    assert(s.subrange(s.len() as int, s.len() as int) =~= Seq::<u8>::empty());
}

} // verus!



