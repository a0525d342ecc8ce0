//! The wire grammar: a recursive-descent decoder and its inverse encoder.
//!
//! Every header line is `tag byte, argument bytes, CR, LF`.  The tags are
//! `+` simple text, `-` error text, `:` signed integer, `#` boolean,
//! `$` length-prefixed binary string, `*` list, `%` mapping and `~` set.
//! The decoder reports `Incomplete` when the buffered bytes are a valid
//! prefix of a message and more bytes may still arrive, and a distinct
//! malformed outcome when the bytes violate the grammar.

use vstd::prelude::*;

use crate::model::equiv;
use crate::model::model;
use crate::model::models;
use crate::model::models_pairs;
use crate::model::vequiv;
use crate::model::Value;
use crate::model::ValueModel;

verus! {

broadcast use
    vstd::seq::group_seq_axioms,
    vstd::std_specs::vec::group_vec_axioms,
    crate::model::lemma_models_index,
    crate::model::lemma_models_pairs_index;

pub const CR: u8 = 13;

pub const LF: u8 = 10;

/// Why a decode call did not return a value: either the buffered bytes are
/// only a prefix of a message (`Incomplete`), or they violate the grammar.
#[derive(Debug, Clone, Copy, PartialEq, Eq, Structural)]
pub enum ParseError {
    /// The bytes so far are a valid prefix; more bytes are required.
    Incomplete,
    /// An integer or length argument is not a valid decimal number, or it
    /// does not fit the target range.
    InvalidInteger,
    /// A boolean argument is neither `t` nor `f`.
    InvalidBoolean,
    /// A binary string payload is not followed by the delimiter.
    MissingTerminator,
    /// The header's first byte is not one of the known tags.
    UnknownType(u8),
}

/// The delimiter pair CR LF starts at index `i` of `s`.
pub open spec fn crlf_at(s: Seq<u8>, i: int) -> bool {
    0 <= i && i + 1 < s.len() && s[i] == CR && s[i + 1] == LF
}

/// No delimiter pair occurs anywhere in `s`.
pub open spec fn no_crlf(s: Seq<u8>) -> bool {
    forall|i: int| !#[trigger] crlf_at(s, i)
}

/// The index of the first delimiter pair at or after `pos`, if any.
pub open spec fn find_crlf(s: Seq<u8>, pos: int) -> Option<int>
    decreases s.len() - pos,
{
    if pos < 0 || pos + 1 >= s.len() {
        None
    } else if s[pos] == CR && s[pos + 1] == LF {
        Some(pos)
    } else {
        find_crlf(s, pos + 1)
    }
}

/// `c` is a decimal digit.
pub open spec fn is_digit(c: u8) -> bool {
    48 <= c <= 57
}

/// Every byte of `s` is a decimal digit.
pub open spec fn all_digits(s: Seq<u8>) -> bool {
    forall|i: int| 0 <= i < s.len() ==> is_digit(#[trigger] s[i])
}

/// The value of a digit string, most significant digit first.
pub open spec fn dec_val(s: Seq<u8>) -> int
    decreases s.len(),
{
    if s.len() == 0 {
        0
    } else {
        dec_val(s.drop_last()) * 10 + (s.last() - 48)
    }
}

/// The decimal digits of `n`, most significant first, without a sign and
/// without leading zeros (a single `0` for zero).
pub open spec fn dec_rep(n: nat) -> Seq<u8>
    decreases n,
{
    if n < 10 {
        seq![(48 + n) as u8]
    } else {
        dec_rep(n / 10).push((48 + n % 10) as u8)
    }
}

/// The wire form of a signed integer: an optional minus sign, then digits.
pub open spec fn int_rep(n: i64) -> Seq<u8> {
    if n < 0 {
        seq![45u8] + dec_rep((-(n as int)) as nat)
    } else {
        dec_rep(n as nat)
    }
}

/// The signed integer denoted by a header argument: an optional `+` or `-`
/// sign followed by at least one digit, whose value fits a 64-bit signed
/// integer.  `None` when the argument has any other shape.
pub open spec fn parse_int_arg(s: Seq<u8>) -> Option<i64> {
    let digits = if s.len() > 0 && (s[0] == 43 || s[0] == 45) {
        s.subrange(1, s.len() as int)
    } else {
        s
    };
    let neg = s.len() > 0 && s[0] == 45;
    if digits.len() == 0 || !all_digits(digits) {
        None
    } else {
        let v = if neg {
            -dec_val(digits)
        } else {
            dec_val(digits)
        };
        if i64::MIN <= v <= i64::MAX {
            Some(v as i64)
        } else {
            None
        }
    }
}

/// The non-negative length denoted by a header argument: an optional `+`
/// sign followed by at least one digit, whose value fits the machine's
/// vector length.  `None` when the argument has any other shape.
pub open spec fn parse_len_arg(s: Seq<u8>) -> Option<int> {
    let digits = if s.len() > 0 && s[0] == 43 {
        s.subrange(1, s.len() as int)
    } else {
        s
    };
    if digits.len() == 0 || !all_digits(digits) {
        None
    } else if dec_val(digits) > usize::MAX {
        None
    } else {
        Some(dec_val(digits))
    }
}

/// The index of the first pair of `ps` at or after `from` whose key is
/// equivalent to `k`, if any.
pub open spec fn find_key(ps: Seq<(ValueModel, ValueModel)>, k: ValueModel, from: int) -> Option<int>
    decreases ps.len() - from,
{
    if from < 0 || from >= ps.len() {
        None
    } else if vequiv(ps[from].0, k) {
        Some(from)
    } else {
        find_key(ps, k, from + 1)
    }
}

/// The index of the first member of `vs` at or after `from` equivalent to
/// `x`, if any.
pub open spec fn find_member(vs: Seq<ValueModel>, x: ValueModel, from: int) -> Option<int>
    decreases vs.len() - from,
{
    if from < 0 || from >= vs.len() {
        None
    } else if vequiv(vs[from], x) {
        Some(from)
    } else {
        find_member(vs, x, from + 1)
    }
}

/// Insert a decoded pair into a mapping under the last-wins policy: when a
/// stored pair has an equivalent key, the newly decoded pair replaces it;
/// otherwise the pair is appended.
pub open spec fn map_insert(
    ps: Seq<(ValueModel, ValueModel)>,
    k: ValueModel,
    v: ValueModel,
) -> Seq<(ValueModel, ValueModel)> {
    match find_key(ps, k, 0) {
        Some(i) => ps.update(i, (k, v)),
        None => ps.push((k, v)),
    }
}

/// Insert a decoded member into a set: a duplicate of a stored member is
/// silently absorbed.
pub open spec fn set_insert(vs: Seq<ValueModel>, x: ValueModel) -> Seq<ValueModel> {
    match find_member(vs, x, 0) {
        Some(_) => vs,
        None => vs.push(x),
    }
}

/// A found delimiter index lies between the scan start and the buffer end.
pub proof fn lemma_find_crlf_in_range(s: Seq<u8>, pos: int)
    ensures
        find_crlf(s, pos) matches Some(j) ==> pos <= j && j + 1 < s.len(),
    decreases s.len() - pos,
{
    if pos < 0 || pos + 1 >= s.len() {
    } else if s[pos] == CR && s[pos + 1] == LF {
    } else {
        lemma_find_crlf_in_range(s, pos + 1);
    }
}

/// The decode relation: what a decode of `buf` starting at `pos` yields.
/// On success the result carries the decoded value and the index just past
/// the consumed bytes.
pub open spec fn spec_parse(buf: Seq<u8>, pos: int) -> Result<(ValueModel, int), ParseError>
    decreases buf.len() - pos, 0int, 0int,
    via spec_parse_decreases
{
    match find_crlf(buf, pos) {
        None => Err(ParseError::Incomplete),
        Some(j) => {
            let tag = buf[pos];
            let arg = buf.subrange(pos + 1, j);
            let body_end = j + 2;
            if tag == 43 {
                Ok((ValueModel::SimpleText(arg), body_end))
            } else if tag == 45 {
                Ok((ValueModel::ErrorText(arg), body_end))
            } else if tag == 58 {
                match parse_int_arg(arg) {
                    None => Err(ParseError::InvalidInteger),
                    Some(n) => Ok((ValueModel::Integer(n), body_end)),
                }
            } else if tag == 35 {
                if arg == seq![116u8] {
                    Ok((ValueModel::Boolean(true), body_end))
                } else if arg == seq![102u8] {
                    Ok((ValueModel::Boolean(false), body_end))
                } else {
                    Err(ParseError::InvalidBoolean)
                }
            } else if tag == 36 {
                match parse_len_arg(arg) {
                    None => Err(ParseError::InvalidInteger),
                    Some(n) => if buf.len() < body_end + n + 2 {
                        Err(ParseError::Incomplete)
                    } else if !(buf[body_end + n] == CR && buf[body_end + n + 1] == LF) {
                        Err(ParseError::MissingTerminator)
                    } else {
                        Ok((ValueModel::BinaryString(buf.subrange(body_end, body_end + n)), body_end + n + 2))
                    },
                }
            } else if tag == 42 {
                match parse_len_arg(arg) {
                    None => Err(ParseError::InvalidInteger),
                    Some(n) => match spec_parse_items(buf, body_end, n as nat, Seq::empty()) {
                        Err(e) => Err(e),
                        Ok((vs, end)) => Ok((ValueModel::List(vs), end)),
                    },
                }
            } else if tag == 37 {
                match parse_len_arg(arg) {
                    None => Err(ParseError::InvalidInteger),
                    Some(n) => match spec_parse_pairs(buf, body_end, n as nat, Seq::empty()) {
                        Err(e) => Err(e),
                        Ok((ps, end)) => Ok((ValueModel::Mapping(ps), end)),
                    },
                }
            } else if tag == 126 {
                match parse_len_arg(arg) {
                    None => Err(ParseError::InvalidInteger),
                    Some(n) => match spec_parse_set(buf, body_end, n as nat, Seq::empty()) {
                        Err(e) => Err(e),
                        Ok((vs, end)) => Ok((ValueModel::UniqueSet(vs), end)),
                    },
                }
            } else {
                Err(ParseError::UnknownType(tag))
            }
        },
    }
}

#[via_fn]
proof fn spec_parse_decreases(buf: Seq<u8>, pos: int) {
    lemma_find_crlf_in_range(buf, pos);
}

/// Decode `n` further list members after the members of `acc`.
///
/// A successful inner decode always lands strictly past its start and
/// within the buffer (the advance lemma); the guard below only keeps the
/// recursion well founded.
pub open spec fn spec_parse_items(buf: Seq<u8>, pos: int, n: nat, acc: Seq<ValueModel>) -> Result<
    (Seq<ValueModel>, int),
    ParseError,
>
    decreases buf.len() - pos, n, 1int,
{
    if n == 0 {
        Ok((acc, pos))
    } else {
        match spec_parse(buf, pos) {
            Err(e) => Err(e),
            Ok((v, p2)) => if pos < p2 <= buf.len() {
                spec_parse_items(buf, p2, (n - 1) as nat, acc.push(v))
            } else {
                Err(ParseError::Incomplete)
            },
        }
    }
}

/// Decode `n` further key/value pairs into the mapping `acc`, applying the
/// last-wins policy on duplicate keys.
pub open spec fn spec_parse_pairs(
    buf: Seq<u8>,
    pos: int,
    n: nat,
    acc: Seq<(ValueModel, ValueModel)>,
) -> Result<(Seq<(ValueModel, ValueModel)>, int), ParseError>
    decreases buf.len() - pos, n, 1int,
{
    if n == 0 {
        Ok((acc, pos))
    } else {
        match spec_parse(buf, pos) {
            Err(e) => Err(e),
            Ok((k, p2)) => if pos < p2 <= buf.len() {
                match spec_parse(buf, p2) {
                    Err(e) => Err(e),
                    Ok((v, p3)) => if p2 < p3 <= buf.len() {
                        spec_parse_pairs(buf, p3, (n - 1) as nat, map_insert(acc, k, v))
                    } else {
                        Err(ParseError::Incomplete)
                    },
                }
            } else {
                Err(ParseError::Incomplete)
            },
        }
    }
}

/// Decode `n` further members into the set `acc`, absorbing duplicates.
pub open spec fn spec_parse_set(buf: Seq<u8>, pos: int, n: nat, acc: Seq<ValueModel>) -> Result<
    (Seq<ValueModel>, int),
    ParseError,
>
    decreases buf.len() - pos, n, 1int,
{
    if n == 0 {
        Ok((acc, pos))
    } else {
        match spec_parse(buf, pos) {
            Err(e) => Err(e),
            Ok((v, p2)) => if pos < p2 <= buf.len() {
                spec_parse_set(buf, p2, (n - 1) as nat, set_insert(acc, v))
            } else {
                Err(ParseError::Incomplete)
            },
        }
    }
}

/// A value that the encoder can turn into bytes that decode back to it:
/// its texts contain no delimiter pair, its lengths fit the machine, its
/// mapping keys and set members are free of duplicates, recursively.
pub open spec fn wf(v: ValueModel) -> bool
    decreases v,
{
    match v {
        ValueModel::SimpleText(s) => no_crlf(s),
        ValueModel::ErrorText(s) => no_crlf(s),
        ValueModel::Integer(_) => true,
        ValueModel::BinaryString(b) => b.len() <= usize::MAX,
        ValueModel::Boolean(_) => true,
        ValueModel::List(vs) => vs.len() <= usize::MAX && (forall|i: int|
            0 <= i < vs.len() ==> wf(#[trigger] vs[i])),
        ValueModel::Mapping(ps) => ps.len() <= usize::MAX && (forall|i: int|
            0 <= i < ps.len() ==> wf((#[trigger] ps[i]).0) && wf(ps[i].1)) && (forall|i: int, j: int|
            0 <= i < ps.len() && 0 <= j < ps.len() && i != j ==> !vequiv(
                (#[trigger] ps[i]).0,
                (#[trigger] ps[j]).0,
            )),
        ValueModel::UniqueSet(vs) => vs.len() <= usize::MAX && (forall|i: int|
            0 <= i < vs.len() ==> wf(#[trigger] vs[i])) && (forall|i: int, j: int|
            0 <= i < vs.len() && 0 <= j < vs.len() && i != j ==> !vequiv(
                #[trigger] vs[i],
                #[trigger] vs[j],
            )),
    }
}

/// The encoding of a value: the exact inverse of the grammar.  List members
/// are encoded in stored order; mapping pairs and set members in the order
/// the container holds them.
pub open spec fn encoded(v: ValueModel) -> Seq<u8>
    decreases v, 1int, 0int,
{
    match v {
        ValueModel::SimpleText(s) => seq![43u8] + s + seq![CR, LF],
        ValueModel::ErrorText(s) => seq![45u8] + s + seq![CR, LF],
        ValueModel::Integer(n) => seq![58u8] + int_rep(n) + seq![CR, LF],
        ValueModel::BinaryString(b) => seq![36u8] + dec_rep(b.len()) + seq![CR, LF] + b + seq![CR, LF],
        ValueModel::Boolean(b) => seq![35u8, if b { 116u8 } else { 102u8 }, CR, LF],
        ValueModel::List(vs) => seq![42u8] + dec_rep(vs.len()) + seq![CR, LF] + encoded_items(vs, 0),
        ValueModel::Mapping(ps) => seq![37u8] + dec_rep(ps.len()) + seq![CR, LF] + encoded_pairs(ps, 0),
        ValueModel::UniqueSet(vs) => seq![126u8] + dec_rep(vs.len()) + seq![CR, LF] + encoded_items(vs, 0),
    }
}

/// The concatenated encodings of the members of `vs` from index `i` on.
pub open spec fn encoded_items(vs: Seq<ValueModel>, i: int) -> Seq<u8>
    decreases vs, 0int, vs.len() - i,
{
    if i < 0 || i >= vs.len() {
        Seq::empty()
    } else {
        encoded(vs[i]) + encoded_items(vs, i + 1)
    }
}

/// The concatenated encodings of the pairs of `ps` from index `i` on, each
/// pair as key then value.
pub open spec fn encoded_pairs(ps: Seq<(ValueModel, ValueModel)>, i: int) -> Seq<u8>
    decreases ps, 0int, ps.len() - i,
{
    if i < 0 || i >= ps.len() {
        Seq::empty()
    } else {
        encoded(ps[i].0) + encoded(ps[i].1) + encoded_pairs(ps, i + 1)
    }
}

/// The value of a digit string is non-negative.
pub proof fn lemma_dec_val_nonneg(s: Seq<u8>)
    requires
        all_digits(s),
    ensures
        dec_val(s) >= 0,
    decreases s.len(),
{
    if s.len() > 0 {
        assert(all_digits(s.drop_last()));
        lemma_dec_val_nonneg(s.drop_last());
    }
}

/// Appending digits can only grow the value of a digit string.
pub proof fn lemma_dec_val_extend(s: Seq<u8>, t: Seq<u8>)
    requires
        all_digits(s),
        all_digits(t),
    ensures
        dec_val(s + t) >= dec_val(s),
    decreases t.len(),
{
    if t.len() == 0 {
        assert(s + t =~= s);
    } else {
        let t0 = t.drop_last();
        assert(all_digits(t0));
        lemma_dec_val_extend(s, t0);
        assert(s + t =~= (s + t0).push(t.last()));
        assert((s + t0).push(t.last()).drop_last() =~= s + t0);
        assert(all_digits(s + t0));
        lemma_dec_val_nonneg(s + t0);
        assert(dec_val((s + t0).push(t.last())) == dec_val(s + t0) * 10 + (t.last() - 48));
    }
}

/// Scan for the first delimiter pair at or after `pos`.
fn scan_crlf(buf: &Vec<u8>, pos: usize) -> (r: Option<usize>)
    ensures
        match r {
            Some(j) => find_crlf(buf@, pos as int) == Some(j as int) && pos <= j && j + 1
                < buf.len() && crlf_at(buf@, j as int),
            None => find_crlf(buf@, pos as int) is None,
        },
{
    if buf.len() < 2 {
        return None;
    }
    let mut j = pos;
    while j < buf.len() - 1
        invariant
            pos <= j,
            buf.len() >= 2,
            find_crlf(buf@, pos as int) == find_crlf(buf@, j as int),
        decreases buf@.len() - j,
    {
        if buf[j] == CR && buf[j + 1] == LF {
            return Some(j);
        }
        j = j + 1;
    }
    None
}

/// Read the decimal digits of `buf[a..b]` into a machine word, bounded by
/// `limit`.
#[verifier::loop_isolation(false)]
fn read_digits(buf: &Vec<u8>, a: usize, b: usize, limit: u64) -> (r: Option<u64>)
    requires
        a <= b && b <= buf.len(),
        limit >= 9,
    ensures
        ({
            let s = buf@.subrange(a as int, b as int);
            match r {
                Some(m) => s.len() > 0 && all_digits(s) && dec_val(s) == m && m <= limit,
                None => s.len() == 0 || !all_digits(s) || dec_val(s) > limit,
            }
        }),
{
    let ghost s = buf@.subrange(a as int, b as int);
    if a == b {
        return None;
    }
    let mut m: u64 = 0;
    let mut i: usize = a;
    while i < b
        invariant
            a <= i <= b,
            m <= limit,
            all_digits(buf@.subrange(a as int, i as int)),
            dec_val(buf@.subrange(a as int, i as int)) == m,
        decreases b - i,
    {
        let ghost p = buf@.subrange(a as int, i as int);
        let c = buf[i];
        if c < 48 || c > 57 {
            proof {
                assert(s[i - a] == c);
                assert(!is_digit(s[i - a]));
            }
            return None;
        }
        let d: u64 = (c - 48) as u64;
        proof {
            assert(buf@.subrange(a as int, i + 1 as int) =~= p.push(c));
            assert(p.push(c).drop_last() =~= p);
            assert(dec_val(p.push(c)) == m * 10 + d);
            assert(all_digits(p.push(c)));
        }
        if m > (limit - d) / 10 {
            proof {
                let q = ((limit - d) / 10) as int;
                assert(q * 10 + 9 >= limit - d) by (nonlinear_arith)
                    requires
                        q == ((limit - d) as u64 / 10u64) as int,
                        d <= limit,
                ;
                assert(m * 10 + d > limit);
                if all_digits(s) {
                    assert(s =~= p.push(c) + s.subrange(i - a + 1, s.len() as int));
                    assert(all_digits(p.push(c)));
                    assert(all_digits(s.subrange(i - a + 1, s.len() as int)));
                    lemma_dec_val_extend(p.push(c), s.subrange(i - a + 1, s.len() as int));
                    assert(dec_val(s) > limit);
                }
            }
            return None;
        }
        proof {
            let q = ((limit - d) / 10) as int;
            assert(q * 10 <= limit - d) by (nonlinear_arith)
                requires
                    q == ((limit - d) as u64 / 10u64) as int,
                    d <= limit,
            ;
            assert(m * 10 + d <= limit);
        }
        m = m * 10 + d;
        i = i + 1;
    }
    Some(m)
}

/// Read the signed integer argument held in `buf[a..b]`.
fn read_int_arg(buf: &Vec<u8>, a: usize, b: usize) -> (r: Option<i64>)
    requires
        a <= b && b <= buf.len(),
    ensures
        r == parse_int_arg(buf@.subrange(a as int, b as int)),
{
    let ghost s = buf@.subrange(a as int, b as int);
    if a == b {
        return None;
    }
    let c0 = buf[a];
    let neg = c0 == 45;
    let signed = c0 == 43 || c0 == 45;
    let digits_start = if signed {
        a + 1
    } else {
        a
    };
    proof {
        if signed {
            assert(buf@.subrange(digits_start as int, b as int) =~= s.subrange(1, s.len() as int));
        } else {
            assert(buf@.subrange(digits_start as int, b as int) =~= s);
        }
    }
    let limit: u64 = if neg {
        9223372036854775808u64
    } else {
        9223372036854775807u64
    };
    match read_digits(buf, digits_start, b, limit) {
        None => None,
        Some(m) => if neg {
            if m == 9223372036854775808u64 {
                Some(i64::MIN)
            } else {
                Some(-(m as i64))
            }
        } else {
            Some(m as i64)
        },
    }
}

/// Read the non-negative length argument held in `buf[a..b]`.
fn read_len_arg(buf: &Vec<u8>, a: usize, b: usize) -> (r: Option<usize>)
    requires
        a <= b && b <= buf.len(),
    ensures
        match r {
            Some(n) => parse_len_arg(buf@.subrange(a as int, b as int)) == Some(n as int),
            None => parse_len_arg(buf@.subrange(a as int, b as int)) is None,
        },
{
    let ghost s = buf@.subrange(a as int, b as int);
    if a == b {
        return None;
    }
    let signed = buf[a] == 43;
    let digits_start = if signed {
        a + 1
    } else {
        a
    };
    proof {
        if signed {
            assert(buf@.subrange(digits_start as int, b as int) =~= s.subrange(1, s.len() as int));
        } else {
            assert(buf@.subrange(digits_start as int, b as int) =~= s);
        }
    }
    let limit: u64 = usize::MAX as u64;
    match read_digits(buf, digits_start, b, limit) {
        None => None,
        Some(m) => Some(m as usize),
    }
}

/// Insert a decoded pair into a mapping vector under the last-wins policy.
#[verifier::loop_isolation(false)]
fn mapping_put(ps: &mut Vec<(Value, Value)>, k: Value, v: Value)
    ensures
        models_pairs(final(ps)@) == map_insert(models_pairs(old(ps)@), k@, v@),
{
    let ghost mps = models_pairs(ps@);
    let mut i: usize = 0;
    while i < ps.len()
        invariant
            i <= ps@.len(),
            ps@ == old(ps)@,
            find_key(mps, k@, 0) == find_key(mps, k@, i as int),
        decreases ps@.len() - i,
    {
        if equiv(&ps[i].0, &k) {
            let ghost gi = i as int;
            ps[i] = (k, v);
            proof {
                assert(find_key(mps, k@, gi) == Some(gi));
                assert(models_pairs(ps@) =~= mps.update(gi, (model(ps@[gi].0), model(ps@[gi].1))));
                assert(models_pairs(ps@) =~= mps.update(gi, (k@, v@)));
            }
            return ;
        }
        i = i + 1;
    }
    proof {
        assert(find_key(mps, k@, ps@.len() as int) is None);
    }
    ps.push((k, v));
    proof {
        assert(models_pairs(ps@) =~= mps.push((k@, v@)));
    }
}

/// Insert a decoded member into a set vector, absorbing duplicates.
#[verifier::loop_isolation(false)]
fn set_put(vs: &mut Vec<Value>, x: Value)
    ensures
        models(final(vs)@) == set_insert(models(old(vs)@), x@),
{
    let ghost mvs = models(vs@);
    let mut i: usize = 0;
    while i < vs.len()
        invariant
            i <= vs@.len(),
            vs@ == old(vs)@,
            find_member(mvs, x@, 0) == find_member(mvs, x@, i as int),
        decreases vs@.len() - i,
    {
        if equiv(&vs[i], &x) {
            proof {
                assert(find_member(mvs, x@, i as int) == Some(i as int));
            }
            return ;
        }
        i = i + 1;
    }
    proof {
        assert(find_member(mvs, x@, vs@.len() as int) is None);
    }
    vs.push(x);
    proof {
        assert(models(vs@) =~= mvs.push(x@));
    }
}

/// Copy the bytes of `buf[a..b]` into a fresh vector.
fn copy_range(buf: &Vec<u8>, a: usize, b: usize) -> (r: Vec<u8>)
    requires
        a <= b && b <= buf.len(),
    ensures
        r@ == buf@.subrange(a as int, b as int),
{
    let mut out: Vec<u8> = Vec::new();
    let mut i = a;
    while i < b
        invariant
            a <= i <= b && b <= buf.len(),
            out@ == buf@.subrange(a as int, i as int),
        decreases b - i,
    {
        out.push(buf[i]);
        proof {
            assert(buf@.subrange(a as int, i + 1 as int) =~= buf@.subrange(a as int, i as int).push(
                buf@[i as int],
            ));
        }
        i = i + 1;
    }
    out
}

/// Decode one value from `buf` starting at `pos`.
///
/// On success the result carries the decoded value and the index just past
/// the consumed bytes, so that several messages can be decoded from one
/// buffer in sequence.  `Incomplete` means more bytes may still arrive;
/// every other error is a grammar violation.
#[verifier::loop_isolation(false)]
pub fn parse(buf: &Vec<u8>, pos: usize) -> (r: Result<(Value, usize), ParseError>)
    ensures
        match r {
            Ok(p) => spec_parse(buf@, pos as int) == Ok::<(ValueModel, int), ParseError>(
                (p.0@, p.1 as int),
            ) && pos < p.1 && p.1 <= buf.len(),
            Err(e) => spec_parse(buf@, pos as int) == Err::<(ValueModel, int), ParseError>(e),
        },
    decreases buf@.len() - pos,
{
    let j = match scan_crlf(buf, pos) {
        None => {
            return Err(ParseError::Incomplete);
        },
        Some(j) => j,
    };
    let tag = buf[pos];
    let body_end = j + 2;
    let ghost garg = buf@.subrange(pos + 1, j as int);
    if tag == 43 {
        let s = copy_range(buf, pos + 1, j);
        Ok((Value::SimpleText(s), body_end))
    } else if tag == 45 {
        let s = copy_range(buf, pos + 1, j);
        Ok((Value::ErrorText(s), body_end))
    } else if tag == 58 {
        match read_int_arg(buf, pos + 1, j) {
            None => Err(ParseError::InvalidInteger),
            Some(n) => Ok((Value::Integer(n), body_end)),
        }
    } else if tag == 35 {
        if j - pos == 2 && buf[pos + 1] == 116 {
            proof {
                assert(garg =~= seq![116u8]);
            }
            Ok((Value::Boolean(true), body_end))
        } else if j - pos == 2 && buf[pos + 1] == 102 {
            proof {
                assert(garg =~= seq![102u8]);
            }
            Ok((Value::Boolean(false), body_end))
        } else {
            proof {
                assert(garg.len() == j - pos - 1);
                if garg.len() == 1 {
                    assert(garg[0] == buf@[pos + 1]);
                    assert(garg != seq![116u8] && garg != seq![102u8]);
                } else {
                    assert(seq![116u8].len() == 1 && seq![102u8].len() == 1);
                    assert(garg != seq![116u8] && garg != seq![102u8]);
                }
            }
            Err(ParseError::InvalidBoolean)
        }
    } else if tag == 36 {
        match read_len_arg(buf, pos + 1, j) {
            None => Err(ParseError::InvalidInteger),
            Some(n) => {
                let avail = buf.len() - body_end;
                if avail < n || avail - n < 2 {
                    Err(ParseError::Incomplete)
                } else if !(buf[body_end + n] == CR && buf[body_end + n + 1] == LF) {
                    Err(ParseError::MissingTerminator)
                } else {
                    let payload = copy_range(buf, body_end, body_end + n);
                    Ok((Value::BinaryString(payload), body_end + n + 2))
                }
            },
        }
    } else if tag == 42 {
        match read_len_arg(buf, pos + 1, j) {
            None => Err(ParseError::InvalidInteger),
            Some(n) => {
                let ghost target = spec_parse_items(buf@, body_end as int, n as nat, Seq::empty());
                let mut items: Vec<Value> = Vec::new();
                proof {
                    assert(models(items@) =~= Seq::<ValueModel>::empty());
                }
                let mut cur = body_end;
                let mut i: usize = 0;
                while i < n
                    invariant
                        i <= n,
                        pos < cur <= buf.len(),
                        target == spec_parse_items(
                            buf@,
                            cur as int,
                            (n - i) as nat,
                            models(items@),
                        ),
                    decreases n - i,
                {
                    match parse(buf, cur) {
                        Err(e) => {
                            return Err(e);
                        },
                        Ok((v, p2)) => {
                            proof {
                                assert(models(items@.push(v)) =~= models(items@).push(v@));
                            }
                            items.push(v);
                            cur = p2;
                            i = i + 1;
                        },
                    }
                }
                Ok((Value::List(items), cur))
            },
        }
    } else if tag == 37 {
        match read_len_arg(buf, pos + 1, j) {
            None => Err(ParseError::InvalidInteger),
            Some(n) => {
                let ghost target = spec_parse_pairs(buf@, body_end as int, n as nat, Seq::empty());
                let mut pairs: Vec<(Value, Value)> = Vec::new();
                proof {
                    assert(models_pairs(pairs@) =~= Seq::<(ValueModel, ValueModel)>::empty());
                }
                let mut cur = body_end;
                let mut i: usize = 0;
                while i < n
                    invariant
                        i <= n,
                        pos < cur <= buf.len(),
                        target == spec_parse_pairs(
                            buf@,
                            cur as int,
                            (n - i) as nat,
                            models_pairs(pairs@),
                        ),
                    decreases n - i,
                {
                    let k = match parse(buf, cur) {
                        Err(e) => {
                            return Err(e);
                        },
                        Ok((k, p2)) => {
                            cur = p2;
                            k
                        },
                    };
                    match parse(buf, cur) {
                        Err(e) => {
                            return Err(e);
                        },
                        Ok((v, p3)) => {
                            mapping_put(&mut pairs, k, v);
                            cur = p3;
                            i = i + 1;
                        },
                    }
                }
                Ok((Value::Mapping(pairs), cur))
            },
        }
    } else if tag == 126 {
        match read_len_arg(buf, pos + 1, j) {
            None => Err(ParseError::InvalidInteger),
            Some(n) => {
                let ghost target = spec_parse_set(buf@, body_end as int, n as nat, Seq::empty());
                let mut members: Vec<Value> = Vec::new();
                proof {
                    assert(models(members@) =~= Seq::<ValueModel>::empty());
                }
                let mut cur = body_end;
                let mut i: usize = 0;
                while i < n
                    invariant
                        i <= n,
                        pos < cur <= buf.len(),
                        target == spec_parse_set(
                            buf@,
                            cur as int,
                            (n - i) as nat,
                            models(members@),
                        ),
                    decreases n - i,
                {
                    match parse(buf, cur) {
                        Err(e) => {
                            return Err(e);
                        },
                        Ok((v, p2)) => {
                            set_put(&mut members, v);
                            cur = p2;
                            i = i + 1;
                        },
                    }
                }
                Ok((Value::UniqueSet(members), cur))
            },
        }
    } else {
        Err(ParseError::UnknownType(tag))
    }
}

/// Append the bytes of `b` to `out`.
fn push_bytes(out: &mut Vec<u8>, b: &Vec<u8>)
    ensures
        final(out)@ == old(out)@ + b@,
{
    proof {
        assert(old(out)@ + b@.subrange(0, 0) =~= old(out)@);
    }
    let mut i: usize = 0;
    while i < b.len()
        invariant
            i <= b.len(),
            out@ == old(out)@ + b@.subrange(0, i as int),
        decreases b@.len() - i,
    {
        out.push(b[i]);
        proof {
            assert(old(out)@ + b@.subrange(0, i + 1 as int) =~= (old(out)@ + b@.subrange(
                0,
                i as int,
            )).push(b@[i as int]));
        }
        i = i + 1;
    }
    proof {
        assert(b@.subrange(0, b@.len() as int) =~= b@);
    }
}

/// Append the decimal digits of `n` to `out`.
fn push_dec(out: &mut Vec<u8>, n: u64)
    ensures
        final(out)@ == old(out)@ + dec_rep(n as nat),
    decreases n,
{
    if n < 10 {
        let d: u8 = 48 + (n as u8);
        out.push(d);
        proof {
            assert(old(out)@ + dec_rep(n as nat) =~= old(out)@.push(d));
        }
    } else {
        push_dec(out, n / 10);
        let d: u8 = 48 + ((n % 10) as u8);
        out.push(d);
        proof {
            assert(old(out)@ + dec_rep(n as nat) =~= (old(out)@ + dec_rep((n / 10) as nat)).push(d));
        }
    }
}

/// Append the encoding of `v` to `out`.
#[verifier::loop_isolation(false)]
fn pack_into(v: &Value, out: &mut Vec<u8>)
    ensures
        final(out)@ == old(out)@ + encoded(v@),
    decreases *v,
{
    match v {
        Value::SimpleText(s) => {
            out.push(43);
            push_bytes(out, s);
            out.push(CR);
            out.push(LF);
            proof {
                assert(out@ =~= old(out)@ + (seq![43u8] + s@ + seq![CR, LF]));
            }
        },
        Value::ErrorText(s) => {
            out.push(45);
            push_bytes(out, s);
            out.push(CR);
            out.push(LF);
            proof {
                assert(out@ =~= old(out)@ + (seq![45u8] + s@ + seq![CR, LF]));
            }
        },
        Value::Integer(n) => {
            out.push(58);
            let m: i64 = *n;
            if m < 0 {
                out.push(45);
                let mag: u64 = (-(m as i128)) as u64;
                push_dec(out, mag);
                proof {
                    assert(out@ =~= old(out)@ + (seq![58u8] + (seq![45u8] + dec_rep(
                        (-(m as int)) as nat,
                    )) + seq![CR, LF]).drop_last().drop_last());
                }
            } else {
                push_dec(out, m as u64);
            }
            out.push(CR);
            out.push(LF);
            proof {
                assert(out@ =~= old(out)@ + (seq![58u8] + int_rep(m) + seq![CR, LF]));
            }
        },
        Value::BinaryString(b) => {
            out.push(36);
            push_dec(out, b.len() as u64);
            out.push(CR);
            out.push(LF);
            push_bytes(out, b);
            out.push(CR);
            out.push(LF);
            proof {
                assert(out@ =~= old(out)@ + (seq![36u8] + dec_rep(b@.len()) + seq![CR, LF] + b@
                    + seq![CR, LF]));
            }
        },
        Value::Boolean(b) => {
            out.push(35);
            out.push(
                if *b {
                    116
                } else {
                    102
                },
            );
            out.push(CR);
            out.push(LF);
            proof {
                assert(out@ =~= old(out)@ + seq![
                    35u8,
                    if *b {
                        116u8
                    } else {
                        102u8
                    },
                    CR,
                    LF,
                ]);
            }
        },
        Value::List(xs) => {
            out.push(42);
            push_dec(out, xs.len() as u64);
            out.push(CR);
            out.push(LF);
            let ghost mxs = models(xs@);
            let ghost base = out@;
            let mut i: usize = 0;
            while i < xs.len()
                invariant
                    i <= xs.len(),
                    out@ + encoded_items(mxs, i as int) == base + encoded_items(mxs, 0),
                decreases xs@.len() - i,
            {
                let ghost before = out@;
                pack_into(&xs[i], out);
                proof {
                    assert(encoded_items(mxs, i as int) == encoded(mxs[i as int]) + encoded_items(
                        mxs,
                        i + 1,
                    ));
                    assert(before + encoded_items(mxs, i as int) =~= (before + encoded(
                        mxs[i as int],
                    )) + encoded_items(mxs, i + 1));
                }
                i = i + 1;
            }
            proof {
                assert(out@ + encoded_items(mxs, xs@.len() as int) =~= out@);
                assert(out@ =~= old(out)@ + (seq![42u8] + dec_rep(mxs.len()) + seq![CR, LF]
                    + encoded_items(mxs, 0)));
            }
        },
        Value::Mapping(ps) => {
            out.push(37);
            push_dec(out, ps.len() as u64);
            out.push(CR);
            out.push(LF);
            let ghost mps = models_pairs(ps@);
            let ghost base = out@;
            let mut i: usize = 0;
            while i < ps.len()
                invariant
                    i <= ps.len(),
                    out@ + encoded_pairs(mps, i as int) == base + encoded_pairs(mps, 0),
                decreases ps@.len() - i,
            {
                let ghost before = out@;
                pack_into(&ps[i].0, out);
                pack_into(&ps[i].1, out);
                proof {
                    assert(encoded_pairs(mps, i as int) == encoded(mps[i as int].0) + encoded(
                        mps[i as int].1,
                    ) + encoded_pairs(mps, i + 1));
                    assert(before + encoded_pairs(mps, i as int) =~= ((before + encoded(
                        mps[i as int].0,
                    )) + encoded(mps[i as int].1)) + encoded_pairs(mps, i + 1));
                }
                i = i + 1;
            }
            proof {
                assert(out@ + encoded_pairs(mps, ps@.len() as int) =~= out@);
                assert(out@ =~= old(out)@ + (seq![37u8] + dec_rep(mps.len()) + seq![CR, LF]
                    + encoded_pairs(mps, 0)));
            }
        },
        Value::UniqueSet(xs) => {
            out.push(126);
            push_dec(out, xs.len() as u64);
            out.push(CR);
            out.push(LF);
            let ghost mxs = models(xs@);
            let ghost base = out@;
            let mut i: usize = 0;
            while i < xs.len()
                invariant
                    i <= xs.len(),
                    out@ + encoded_items(mxs, i as int) == base + encoded_items(mxs, 0),
                decreases xs@.len() - i,
            {
                let ghost before = out@;
                pack_into(&xs[i], out);
                proof {
                    assert(encoded_items(mxs, i as int) == encoded(mxs[i as int]) + encoded_items(
                        mxs,
                        i + 1,
                    ));
                    assert(before + encoded_items(mxs, i as int) =~= (before + encoded(
                        mxs[i as int],
                    )) + encoded_items(mxs, i + 1));
                }
                i = i + 1;
            }
            proof {
                assert(out@ + encoded_items(mxs, xs@.len() as int) =~= out@);
                assert(out@ =~= old(out)@ + (seq![126u8] + dec_rep(mxs.len()) + seq![CR, LF]
                    + encoded_items(mxs, 0)));
            }
        },
    }
}

/// Encode a value into its wire bytes: the exact inverse of the grammar.
/// Every constructible value is encodable; there is no error outcome.
pub fn pack(value: Value) -> (r: Vec<u8>)
    ensures
        r@ == encoded(value@),
{
    let mut out: Vec<u8> = Vec::new();
    pack_into(&value, &mut out);
    proof {
        assert(Seq::<u8>::empty() + encoded(value@) =~= encoded(value@));
    }
    out
}

/// Decode one whole message.
///
/// Bytes past the first complete message are ignored: the transport layer
/// hands the decoder exactly one message per call.
pub fn unpack(msg: Vec<u8>) -> (r: Result<Value, ParseError>)
    ensures
        match r {
            Ok(v) => spec_parse(msg@, 0) matches Ok(p) && p.0 == v@,
            Err(e) => spec_parse(msg@, 0) == Err::<(ValueModel, int), ParseError>(e),
        },
{
    match parse(&msg, 0) {
        Ok((v, _)) => Ok(v),
        Err(e) => Err(e),
    }
}

} // verus!
