//! The laws of the codec: the decoder advances through the buffer, an
//! encoded well-formed value decodes back to itself, a decode outcome other
//! than `Incomplete` never changes when more bytes arrive, and truncating a
//! decodable message anywhere before its end yields `Incomplete`.

use vstd::prelude::*;

use crate::model::member_matched;
use crate::model::member_covers;
use crate::model::pair_matched;
use crate::model::pair_covers;
use crate::model::ValueModel;
use crate::model::vequiv;
use crate::resp::all_digits;
use crate::resp::crlf_at;
use crate::resp::dec_rep;
use crate::resp::dec_val;
use crate::resp::encoded;
use crate::resp::encoded_items;
use crate::resp::encoded_pairs;
use crate::resp::find_crlf;
use crate::resp::find_key;
use crate::resp::find_member;
use crate::resp::int_rep;
use crate::resp::is_digit;
use crate::resp::lemma_dec_val_nonneg;
use crate::resp::lemma_find_crlf_in_range;
use crate::resp::map_insert;
use crate::resp::parse_int_arg;
use crate::resp::parse_len_arg;
use crate::resp::set_insert;
use crate::resp::spec_parse;
use crate::resp::spec_parse_items;
use crate::resp::spec_parse_pairs;
use crate::resp::spec_parse_set;
use crate::resp::wf;
use crate::resp::ParseError;
use crate::resp::CR;
use crate::resp::LF;

verus! {

broadcast use vstd::seq::group_seq_axioms;

/// A decodable length argument denotes a machine-range length.
pub proof fn lemma_parse_len_bounds(s: Seq<u8>)
    ensures
        parse_len_arg(s) matches Some(n) ==> 0 <= n <= usize::MAX,
{
    let digits = if s.len() > 0 && s[0] == 43 {
        s.subrange(1, s.len() as int)
    } else {
        s
    };
    if digits.len() > 0 && all_digits(digits) {
        lemma_dec_val_nonneg(digits);
    }
}

/// A successful decode lands strictly past its start and within the buffer.
pub proof fn lemma_parse_advances(buf: Seq<u8>, pos: int)
    ensures
        spec_parse(buf, pos) matches Ok(p) ==> pos < p.1 <= buf.len(),
{
    lemma_find_crlf_in_range(buf, pos);
    if let Some(j) = find_crlf(buf, pos) {
        let tag = buf[pos];
        let arg = buf.subrange(pos + 1, j);
        let body_end = j + 2;
        lemma_parse_len_bounds(arg);
        if tag == 42 {
            if let Some(n) = parse_len_arg(arg) {
                lemma_items_advance(buf, body_end, n as nat, Seq::empty());
            }
        } else if tag == 37 {
            if let Some(n) = parse_len_arg(arg) {
                lemma_pairs_advance(buf, body_end, n as nat, Seq::empty());
            }
        } else if tag == 126 {
            if let Some(n) = parse_len_arg(arg) {
                lemma_set_advance(buf, body_end, n as nat, Seq::empty());
            }
        }
    }
}

/// Helper for `lemma_parse_advances`, list form.
proof fn lemma_items_advance(buf: Seq<u8>, pos: int, n: nat, acc: Seq<ValueModel>)
    requires
        pos <= buf.len(),
    ensures
        spec_parse_items(buf, pos, n, acc) matches Ok(p) ==> pos <= p.1 <= buf.len(),
    decreases buf.len() - pos, n,
{
    if n > 0 {
        if let Ok((v, p2)) = spec_parse(buf, pos) {
            if pos < p2 <= buf.len() {
                lemma_items_advance(buf, p2, (n - 1) as nat, acc.push(v));
            }
        }
    }
}

/// Helper for `lemma_parse_advances`, mapping form.
proof fn lemma_pairs_advance(buf: Seq<u8>, pos: int, n: nat, acc: Seq<(ValueModel, ValueModel)>)
    requires
        pos <= buf.len(),
    ensures
        spec_parse_pairs(buf, pos, n, acc) matches Ok(p) ==> pos <= p.1 <= buf.len(),
    decreases buf.len() - pos, n,
{
    if n > 0 {
        if let Ok((k, p2)) = spec_parse(buf, pos) {
            if pos < p2 <= buf.len() {
                if let Ok((v, p3)) = spec_parse(buf, p2) {
                    if p2 < p3 <= buf.len() {
                        lemma_pairs_advance(buf, p3, (n - 1) as nat, map_insert(acc, k, v));
                    }
                }
            }
        }
    }
}

/// Helper for `lemma_parse_advances`, set form.
proof fn lemma_set_advance(buf: Seq<u8>, pos: int, n: nat, acc: Seq<ValueModel>)
    requires
        pos <= buf.len(),
    ensures
        spec_parse_set(buf, pos, n, acc) matches Ok(p) ==> pos <= p.1 <= buf.len(),
    decreases buf.len() - pos, n,
{
    if n > 0 {
        if let Ok((v, p2)) = spec_parse(buf, pos) {
            if pos < p2 <= buf.len() {
                lemma_set_advance(buf, p2, (n - 1) as nat, set_insert(acc, v));
            }
        }
    }
}

/// What the delimiter scan finds: the first delimiter pair, if any.
pub proof fn lemma_find_crlf_spec(s: Seq<u8>, pos: int)
    requires
        0 <= pos,
    ensures
        match find_crlf(s, pos) {
            Some(j) => pos <= j && crlf_at(s, j) && (forall|k: int|
                pos <= k < j ==> !crlf_at(s, k)),
            None => forall|k: int| k >= pos ==> !crlf_at(s, k),
        },
    decreases s.len() - pos,
{
    if pos + 1 >= s.len() {
    } else if s[pos] == CR && s[pos + 1] == LF {
    } else {
        lemma_find_crlf_spec(s, pos + 1);
    }
}

/// A known delimiter layout determines the scan result exactly.
pub proof fn lemma_find_crlf_exact(s: Seq<u8>, pos: int, j: int)
    requires
        0 <= pos <= j,
        crlf_at(s, j),
        forall|k: int| pos <= k < j ==> !crlf_at(s, k),
    ensures
        find_crlf(s, pos) == Some(j),
{
    lemma_find_crlf_spec(s, pos);
    match find_crlf(s, pos) {
        None => {
            assert(!crlf_at(s, j));
            assert(false);
        },
        Some(j2) => {
            if j2 < j {
                assert(!crlf_at(s, j2));
                assert(false);
            }
            if j2 > j {
                assert(!crlf_at(s, j));
                assert(false);
            }
        },
    }
}

/// The decimal digits of `n` are digits, are at least one, and denote `n`.
pub proof fn lemma_dec_rep(n: nat)
    ensures
        all_digits(dec_rep(n)),
        dec_rep(n).len() >= 1,
        dec_val(dec_rep(n)) == n,
    decreases n,
{
    if n < 10 {
        assert(dec_rep(n).drop_last() =~= Seq::<u8>::empty());
        assert(dec_val(Seq::<u8>::empty()) == 0);
        assert(is_digit(dec_rep(n)[0]));
        assert(dec_val(dec_rep(n)) == dec_val(dec_rep(n).drop_last()) * 10 + (dec_rep(n).last()
            - 48));
    } else {
        lemma_dec_rep(n / 10);
        let d = (48 + n % 10) as u8;
        let w = dec_rep(n / 10).push(d);
        assert(w.drop_last() =~= dec_rep(n / 10));
        assert forall|i: int| 0 <= i < w.len() implies is_digit(#[trigger] w[i]) by {
            if i < w.len() - 1 {
                assert(w[i] == dec_rep(n / 10)[i]);
            }
        }
        assert(dec_val(w) == dec_val(dec_rep(n / 10)) * 10 + (d - 48));
        assert((n / 10) * 10 + n % 10 == n);
    }
}

/// A slice of a matched region equals the same slice of the pattern.
proof fn lemma_slice_slice(buf: Seq<u8>, pos: int, e: Seq<u8>, a: int, b: int)
    requires
        0 <= pos,
        pos + e.len() <= buf.len(),
        buf.subrange(pos, pos + e.len() as int) == e,
        0 <= a <= b <= e.len(),
    ensures
        buf.subrange(pos + a, pos + b) == e.subrange(a, b),
{
    assert forall|k: int| 0 <= k < b - a implies buf.subrange(pos + a, pos + b)[k] == e.subrange(
        a,
        b,
    )[k] by {
        assert(buf.subrange(pos, pos + e.len() as int)[a + k] == buf[pos + a + k]);
    }
    assert(buf.subrange(pos + a, pos + b) =~= e.subrange(a, b));
}

/// Each byte of a matched region is the pattern's byte.
proof fn lemma_bytes_at(buf: Seq<u8>, pos: int, e: Seq<u8>)
    requires
        0 <= pos,
        pos + e.len() <= buf.len(),
        buf.subrange(pos, pos + e.len() as int) == e,
    ensures
        forall|k: int| 0 <= k < e.len() ==> buf[pos + k] == #[trigger] e[k],
{
    assert forall|k: int| 0 <= k < e.len() implies buf[pos + k] == #[trigger] e[k] by {
        assert(buf.subrange(pos, pos + e.len() as int)[k] == buf[pos + k]);
    }
}

/// No pair of `ps` from `from` on has a key equivalent to `k`, so the scan
/// finds nothing.
proof fn lemma_find_key_none(ps: Seq<(ValueModel, ValueModel)>, k: ValueModel, from: int)
    requires
        forall|j: int| from <= j < ps.len() ==> !vequiv((#[trigger] ps[j]).0, k),
    ensures
        find_key(ps, k, from) is None,
    decreases ps.len() - from,
{
    if from < 0 || from >= ps.len() {
    } else {
        lemma_find_key_none(ps, k, from + 1);
    }
}

/// No member of `vs` from `from` on is equivalent to `x`, so the scan finds
/// nothing.
proof fn lemma_find_member_none(vs: Seq<ValueModel>, x: ValueModel, from: int)
    requires
        forall|j: int| from <= j < vs.len() ==> !vequiv(#[trigger] vs[j], x),
    ensures
        find_member(vs, x, from) is None,
    decreases vs.len() - from,
{
    if from < 0 || from >= vs.len() {
    } else {
        lemma_find_member_none(vs, x, from + 1);
    }
}

/// An encoding is at least tag plus delimiter long.
pub proof fn lemma_encoded_len(v: ValueModel)
    ensures
        encoded(v).len() >= 3,
{
    match v {
        ValueModel::Integer(n) => {
            lemma_dec_rep(if n < 0 {
                (-(n as int)) as nat
            } else {
                n as nat
            });
        },
        _ => {},
    }
}

/// A header match: `buf` carries `e` at `pos`, `e` has its first delimiter
/// pair at `hlen`, so the scan from `pos` finds exactly `pos + hlen`.
proof fn lemma_header_find(buf: Seq<u8>, pos: int, e: Seq<u8>, hlen: int)
    requires
        0 <= pos,
        pos + e.len() <= buf.len(),
        buf.subrange(pos, pos + e.len() as int) == e,
        0 <= hlen,
        hlen + 2 <= e.len(),
        e[hlen] == CR,
        e[hlen + 1] == LF,
        forall|k: int| 0 <= k < hlen ==> !((#[trigger] e[k]) == CR && e[k + 1] == LF),
    ensures
        find_crlf(buf, pos) == Some(pos + hlen),
{
    lemma_bytes_at(buf, pos, e);
    assert(crlf_at(buf, pos + hlen));
    assert forall|k: int| pos <= k < pos + hlen implies !crlf_at(buf, k) by {
        assert(buf[k] == e[k - pos]);
        assert(buf[k + 1] == e[k - pos + 1]);
    }
    lemma_find_crlf_exact(buf, pos, pos + hlen);
}

/// Round trip, one value: the bytes of `encoded(v)` sitting at `pos` decode
/// to exactly `v`, consuming exactly the encoding, whatever follows them.
#[verifier::rlimit(100)]
pub proof fn lemma_encoded_parses(v: ValueModel, buf: Seq<u8>, pos: int)
    requires
        wf(v),
        0 <= pos,
        pos + encoded(v).len() <= buf.len(),
        buf.subrange(pos, pos + encoded(v).len() as int) == encoded(v),
    ensures
        spec_parse(buf, pos) == Ok::<(ValueModel, int), ParseError>((v, pos + encoded(v).len())),
    decreases v, 1int, 0int,
{
    let e = encoded(v);
    lemma_bytes_at(buf, pos, e);
    match v {
        ValueModel::SimpleText(s) => {
            let hlen = 1 + s.len() as int;
            assert(e[hlen] == CR && e[hlen + 1] == LF);
            assert forall|k: int| 0 <= k < hlen implies !((#[trigger] e[k]) == CR && e[k + 1]
                == LF) by {
                if k > 0 && k + 1 < hlen {
                    assert(e[k] == s[k - 1]);
                    assert(e[k + 1] == s[k]);
                    assert(!crlf_at(s, k - 1));
                }
            }
            lemma_header_find(buf, pos, e, hlen);
            assert(buf[pos] == e[0] && e[0] == 43u8);
            lemma_slice_slice(buf, pos, e, 1, hlen);
            assert(e.subrange(1, hlen) =~= s);
        },
        ValueModel::ErrorText(s) => {
            let hlen = 1 + s.len() as int;
            assert(e[hlen] == CR && e[hlen + 1] == LF);
            assert forall|k: int| 0 <= k < hlen implies !((#[trigger] e[k]) == CR && e[k + 1]
                == LF) by {
                if k > 0 && k + 1 < hlen {
                    assert(e[k] == s[k - 1]);
                    assert(e[k + 1] == s[k]);
                    assert(!crlf_at(s, k - 1));
                }
            }
            lemma_header_find(buf, pos, e, hlen);
            assert(buf[pos] == e[0] && e[0] == 45u8);
            lemma_slice_slice(buf, pos, e, 1, hlen);
            assert(e.subrange(1, hlen) =~= s);
        },
        ValueModel::Integer(n) => {
            let mag: nat = if n < 0 {
                (-(n as int)) as nat
            } else {
                n as nat
            };
            lemma_dec_rep(mag);
            let rep = int_rep(n);
            let hlen = 1 + rep.len() as int;
            assert(e[hlen] == CR && e[hlen + 1] == LF);
            assert forall|k: int| 0 <= k < hlen implies !((#[trigger] e[k]) == CR && e[k + 1]
                == LF) by {
                if k > 0 {
                    assert(e[k] == rep[k - 1]);
                    if n < 0 {
                        if k > 1 {
                            assert(rep[k - 1] == dec_rep(mag)[k - 2]);
                            assert(is_digit(dec_rep(mag)[k - 2]));
                        }
                    } else {
                        assert(is_digit(dec_rep(mag)[k - 1]));
                    }
                }
            }
            lemma_header_find(buf, pos, e, hlen);
            assert(buf[pos] == e[0] && e[0] == 58u8);
            lemma_slice_slice(buf, pos, e, 1, hlen);
            assert(e.subrange(1, hlen) =~= rep);
            let j = pos + hlen;
            assert(buf.subrange(pos + 1, j) == rep);
            if n < 0 {
                assert(rep[0] == 45);
                assert(rep.subrange(1, rep.len() as int) =~= dec_rep(mag));
                assert(parse_int_arg(rep) == Some(n));
            } else {
                assert(rep == dec_rep(mag));
                assert(is_digit(rep[0]));
                assert(parse_int_arg(rep) == Some(n));
            }
        },
        ValueModel::Boolean(b) => {
            let hlen = 2;
            assert(e[2] == CR && e[3] == LF);
            assert(e[0] == 35);
            assert(e[1] != CR);
            lemma_header_find(buf, pos, e, hlen);
            assert(buf[pos] == e[0] && e[0] == 35u8);
            let j = pos + 2;
            assert(buf.subrange(pos + 1, j) =~= seq![e[1]]);
            if b {
                assert(buf.subrange(pos + 1, j) == seq![116u8]);
            } else {
                assert(buf.subrange(pos + 1, j) == seq![102u8]);
                assert(buf.subrange(pos + 1, j) != seq![116u8]);
            }
        },
        ValueModel::BinaryString(bs) => {
            lemma_dec_rep(bs.len());
            let d = dec_rep(bs.len());
            let hlen = 1 + d.len() as int;
            assert(e[hlen] == CR && e[hlen + 1] == LF);
            assert forall|k: int| 0 <= k < hlen implies !((#[trigger] e[k]) == CR && e[k + 1]
                == LF) by {
                if k > 0 {
                    assert(e[k] == d[k - 1]);
                    assert(is_digit(d[k - 1]));
                }
            }
            lemma_header_find(buf, pos, e, hlen);
            assert(buf[pos] == e[0] && e[0] == 36u8);
            let j = pos + hlen;
            lemma_slice_slice(buf, pos, e, 1, hlen);
            assert(e.subrange(1, hlen) =~= d);
            assert(is_digit(d[0]));
            lemma_dec_val_nonneg(d);
            assert(parse_len_arg(d) == Some(bs.len() as int));
            let body_end = j + 2;
            let n = bs.len() as int;
            assert(buf[body_end + n] == e[hlen + 2 + n] && e[hlen + 2 + n] == CR);
            assert(buf[body_end + n + 1] == e[hlen + 2 + n + 1] && e[hlen + 2 + n + 1] == LF);
            lemma_slice_slice(buf, pos, e, hlen + 2, hlen + 2 + n);
            assert(e.subrange(hlen + 2, hlen + 2 + n) =~= bs);
            assert(buf.subrange(body_end, body_end + n) == bs);
        },
        ValueModel::List(vs) => {
            lemma_dec_rep(vs.len());
            let d = dec_rep(vs.len());
            let hlen = 1 + d.len() as int;
            assert(e[hlen] == CR && e[hlen + 1] == LF);
            assert forall|k: int| 0 <= k < hlen implies !((#[trigger] e[k]) == CR && e[k + 1]
                == LF) by {
                if k > 0 {
                    assert(e[k] == d[k - 1]);
                    assert(is_digit(d[k - 1]));
                }
            }
            lemma_header_find(buf, pos, e, hlen);
            assert(buf[pos] == e[0] && e[0] == 42u8);
            let j = pos + hlen;
            lemma_slice_slice(buf, pos, e, 1, hlen);
            assert(e.subrange(1, hlen) =~= d);
            assert(is_digit(d[0]));
            lemma_dec_val_nonneg(d);
            assert(parse_len_arg(d) == Some(vs.len() as int));
            let body_end = j + 2;
            lemma_slice_slice(buf, pos, e, hlen + 2, e.len() as int);
            assert(e.subrange(hlen + 2, e.len() as int) =~= encoded_items(vs, 0));
            assert(decreases_to!(v => vs));
            lemma_encoded_items_parse(v, vs, buf, body_end, 0, Seq::empty());
            assert(Seq::empty() + vs.subrange(0, vs.len() as int) =~= vs);
        },
        ValueModel::Mapping(ps) => {
            lemma_dec_rep(ps.len());
            let d = dec_rep(ps.len());
            let hlen = 1 + d.len() as int;
            assert(e[hlen] == CR && e[hlen + 1] == LF);
            assert forall|k: int| 0 <= k < hlen implies !((#[trigger] e[k]) == CR && e[k + 1]
                == LF) by {
                if k > 0 {
                    assert(e[k] == d[k - 1]);
                    assert(is_digit(d[k - 1]));
                }
            }
            lemma_header_find(buf, pos, e, hlen);
            assert(buf[pos] == e[0] && e[0] == 37u8);
            let j = pos + hlen;
            lemma_slice_slice(buf, pos, e, 1, hlen);
            assert(e.subrange(1, hlen) =~= d);
            assert(is_digit(d[0]));
            lemma_dec_val_nonneg(d);
            assert(parse_len_arg(d) == Some(ps.len() as int));
            let body_end = j + 2;
            lemma_slice_slice(buf, pos, e, hlen + 2, e.len() as int);
            assert(e.subrange(hlen + 2, e.len() as int) =~= encoded_pairs(ps, 0));
            lemma_encoded_pairs_parse(v, ps, buf, body_end, 0);
            assert(ps.subrange(0, 0) =~= Seq::<(ValueModel, ValueModel)>::empty());
        },
        ValueModel::UniqueSet(vs) => {
            lemma_dec_rep(vs.len());
            let d = dec_rep(vs.len());
            let hlen = 1 + d.len() as int;
            assert(e[hlen] == CR && e[hlen + 1] == LF);
            assert forall|k: int| 0 <= k < hlen implies !((#[trigger] e[k]) == CR && e[k + 1]
                == LF) by {
                if k > 0 {
                    assert(e[k] == d[k - 1]);
                    assert(is_digit(d[k - 1]));
                }
            }
            lemma_header_find(buf, pos, e, hlen);
            assert(buf[pos] == e[0] && e[0] == 126u8);
            let j = pos + hlen;
            lemma_slice_slice(buf, pos, e, 1, hlen);
            assert(e.subrange(1, hlen) =~= d);
            assert(is_digit(d[0]));
            lemma_dec_val_nonneg(d);
            assert(parse_len_arg(d) == Some(vs.len() as int));
            let body_end = j + 2;
            lemma_slice_slice(buf, pos, e, hlen + 2, e.len() as int);
            assert(e.subrange(hlen + 2, e.len() as int) =~= encoded_items(vs, 0));
            lemma_encoded_set_parse(v, vs, buf, body_end, 0);
            assert(vs.subrange(0, 0) =~= Seq::<ValueModel>::empty());
        },
    }
}

/// Round trip, list members from index `i` on, decoded after the members
/// already in `acc`.
proof fn lemma_encoded_items_parse(
    parent: ValueModel,
    vs: Seq<ValueModel>,
    buf: Seq<u8>,
    pos: int,
    i: int,
    acc: Seq<ValueModel>,
)
    requires
        decreases_to!(parent => vs),
        forall|k: int| 0 <= k < vs.len() ==> wf(#[trigger] vs[k]),
        0 <= i <= vs.len(),
        0 <= pos,
        pos + encoded_items(vs, i).len() <= buf.len(),
        buf.subrange(pos, pos + encoded_items(vs, i).len() as int) == encoded_items(vs, i),
    ensures
        spec_parse_items(buf, pos, (vs.len() - i) as nat, acc) == Ok::<
            (Seq<ValueModel>, int),
            ParseError,
        >((acc + vs.subrange(i, vs.len() as int), pos + encoded_items(vs, i).len())),
    decreases parent, 0int, vs.len() - i,
{
    if i == vs.len() {
        assert(acc + vs.subrange(i, vs.len() as int) =~= acc);
    } else {
        let whole = encoded_items(vs, i);
        let ev = encoded(vs[i]);
        let rest = encoded_items(vs, i + 1);
        assert(whole == ev + rest);
        lemma_slice_slice(buf, pos, whole, 0, ev.len() as int);
        assert(whole.subrange(0, ev.len() as int) =~= ev);
        assert(decreases_to!(vs => vs[i]));
        lemma_encoded_parses(vs[i], buf, pos);
        lemma_encoded_len(vs[i]);
        let p2 = pos + ev.len() as int;
        lemma_slice_slice(buf, pos, whole, ev.len() as int, whole.len() as int);
        assert(whole.subrange(ev.len() as int, whole.len() as int) =~= rest);
        lemma_encoded_items_parse(parent, vs, buf, p2, i + 1, acc.push(vs[i]));
        assert(acc.push(vs[i]) + vs.subrange(i + 1, vs.len() as int) =~= acc + vs.subrange(
            i,
            vs.len() as int,
        ));
    }
}

/// Round trip, mapping pairs from index `i` on: since a well-formed mapping
/// has no duplicate keys, every decoded pair is appended and the mapping is
/// rebuilt exactly.
proof fn lemma_encoded_pairs_parse(
    parent: ValueModel,
    ps: Seq<(ValueModel, ValueModel)>,
    buf: Seq<u8>,
    pos: int,
    i: int,
)
    requires
        parent == ValueModel::Mapping(ps),
        wf(parent),
        0 <= i <= ps.len(),
        0 <= pos,
        pos + encoded_pairs(ps, i).len() <= buf.len(),
        buf.subrange(pos, pos + encoded_pairs(ps, i).len() as int) == encoded_pairs(ps, i),
    ensures
        spec_parse_pairs(buf, pos, (ps.len() - i) as nat, ps.subrange(0, i)) == Ok::<
            (Seq<(ValueModel, ValueModel)>, int),
            ParseError,
        >((ps, pos + encoded_pairs(ps, i).len())),
    decreases parent, 0int, ps.len() - i,
{
    if i == ps.len() {
        assert(ps.subrange(0, i) =~= ps);
    } else {
        let whole = encoded_pairs(ps, i);
        let ek = encoded(ps[i].0);
        let ev = encoded(ps[i].1);
        let rest = encoded_pairs(ps, i + 1);
        assert(whole == ek + ev + rest);
        lemma_slice_slice(buf, pos, whole, 0, ek.len() as int);
        assert(whole.subrange(0, ek.len() as int) =~= ek);
        assert(decreases_to!(ps => ps[i]));
        lemma_encoded_parses(ps[i].0, buf, pos);
        lemma_encoded_len(ps[i].0);
        let p2 = pos + ek.len() as int;
        lemma_slice_slice(buf, pos, whole, ek.len() as int, ek.len() + ev.len() as int);
        assert(whole.subrange(ek.len() as int, ek.len() + ev.len() as int) =~= ev);
        lemma_encoded_parses(ps[i].1, buf, p2);
        lemma_encoded_len(ps[i].1);
        let p3 = p2 + ev.len() as int;
        lemma_slice_slice(buf, pos, whole, ek.len() + ev.len() as int, whole.len() as int);
        assert(whole.subrange(ek.len() + ev.len() as int, whole.len() as int) =~= rest);
        let acc = ps.subrange(0, i);
        assert forall|jj: int| 0 <= jj < acc.len() implies !vequiv(
            (#[trigger] acc[jj]).0,
            ps[i].0,
        ) by {
            assert(acc[jj] == ps[jj]);
            assert(!vequiv(ps[jj].0, ps[i].0));
        }
        lemma_find_key_none(acc, ps[i].0, 0);
        assert((ps[i].0, ps[i].1) == ps[i]);
        assert(map_insert(acc, ps[i].0, ps[i].1) =~= ps.subrange(0, i + 1));
        lemma_encoded_pairs_parse(parent, ps, buf, p3, i + 1);
    }
}

/// Round trip, set members from index `i` on: since a well-formed set has
/// no duplicate members, every decoded member is appended and the set is
/// rebuilt exactly.
proof fn lemma_encoded_set_parse(
    parent: ValueModel,
    vs: Seq<ValueModel>,
    buf: Seq<u8>,
    pos: int,
    i: int,
)
    requires
        parent == ValueModel::UniqueSet(vs),
        wf(parent),
        0 <= i <= vs.len(),
        0 <= pos,
        pos + encoded_items(vs, i).len() <= buf.len(),
        buf.subrange(pos, pos + encoded_items(vs, i).len() as int) == encoded_items(vs, i),
    ensures
        spec_parse_set(buf, pos, (vs.len() - i) as nat, vs.subrange(0, i)) == Ok::<
            (Seq<ValueModel>, int),
            ParseError,
        >((vs, pos + encoded_items(vs, i).len())),
    decreases parent, 0int, vs.len() - i,
{
    if i == vs.len() {
        assert(vs.subrange(0, i) =~= vs);
    } else {
        let whole = encoded_items(vs, i);
        let ev = encoded(vs[i]);
        let rest = encoded_items(vs, i + 1);
        assert(whole == ev + rest);
        lemma_slice_slice(buf, pos, whole, 0, ev.len() as int);
        assert(whole.subrange(0, ev.len() as int) =~= ev);
        assert(decreases_to!(vs => vs[i]));
        lemma_encoded_parses(vs[i], buf, pos);
        lemma_encoded_len(vs[i]);
        let p2 = pos + ev.len() as int;
        lemma_slice_slice(buf, pos, whole, ev.len() as int, whole.len() as int);
        assert(whole.subrange(ev.len() as int, whole.len() as int) =~= rest);
        let acc = vs.subrange(0, i);
        assert forall|jj: int| 0 <= jj < acc.len() implies !vequiv(#[trigger] acc[jj], vs[i]) by {
            assert(acc[jj] == vs[jj]);
            assert(!vequiv(vs[jj], vs[i]));
        }
        lemma_find_member_none(acc, vs[i], 0);
        assert(set_insert(acc, vs[i]) =~= vs.subrange(0, i + 1));
        lemma_encoded_set_parse(parent, vs, buf, p2, i + 1);
    }
}

/// Round trip: decoding the encoding of a well-formed value yields the
/// value back, consuming exactly the encoding.
pub proof fn lemma_round_trip(v: ValueModel)
    requires
        wf(v),
    ensures
        spec_parse(encoded(v), 0) == Ok::<(ValueModel, int), ParseError>(
            (v, encoded(v).len() as int),
        ),
{
    assert(encoded(v).subrange(0, encoded(v).len() as int) =~= encoded(v));
    lemma_encoded_parses(v, encoded(v), 0);
}

/// A decode outcome other than `Incomplete` is final: however many bytes
/// arrive after the buffered ones, the outcome does not change.
pub proof fn lemma_parse_extend(buf: Seq<u8>, ext: Seq<u8>, pos: int)
    requires
        0 <= pos,
        spec_parse(buf, pos) != Err::<(ValueModel, int), ParseError>(ParseError::Incomplete),
    ensures
        spec_parse(buf + ext, pos) == spec_parse(buf, pos),
    decreases buf.len() - pos, 0int, 0int,
{
    let big = buf + ext;
    lemma_find_crlf_spec(buf, pos);
    match find_crlf(buf, pos) {
        None => {
            assert(false);
        },
        Some(j) => {
            assert(crlf_at(big, j));
            assert forall|k: int| pos <= k < j implies !crlf_at(big, k) by {
                assert(big[k] == buf[k]);
                assert(big[k + 1] == buf[k + 1]);
                assert(!crlf_at(buf, k));
            }
            lemma_find_crlf_exact(big, pos, j);
            assert(big[pos] == buf[pos]);
            let tag = buf[pos];
            let arg = buf.subrange(pos + 1, j);
            if pos < j {
                assert forall|k: int| 0 <= k < j - (pos + 1) implies big.subrange(pos + 1, j)[k]
                    == arg[k] by {
                    assert(big[pos + 1 + k] == buf[pos + 1 + k]);
                }
                assert(big.subrange(pos + 1, j) =~= arg);
            }
            let body_end = j + 2;
            lemma_parse_len_bounds(arg);
            if tag == 36 {
                if let Some(n) = parse_len_arg(arg) {
                    if buf.len() < body_end + n + 2 {
                        assert(false);
                    } else {
                        assert(big[body_end + n] == buf[body_end + n]);
                        assert(big[body_end + n + 1] == buf[body_end + n + 1]);
                        if buf[body_end + n] == CR && buf[body_end + n + 1] == LF {
                            assert(big.subrange(body_end, body_end + n) =~= buf.subrange(
                                body_end,
                                body_end + n,
                            ));
                        }
                    }
                }
            } else if tag == 42 {
                if let Some(n) = parse_len_arg(arg) {
                    lemma_items_extend(buf, ext, body_end, n as nat, Seq::empty());
                }
            } else if tag == 37 {
                if let Some(n) = parse_len_arg(arg) {
                    lemma_pairs_extend(buf, ext, body_end, n as nat, Seq::empty());
                }
            } else if tag == 126 {
                if let Some(n) = parse_len_arg(arg) {
                    lemma_set_extend(buf, ext, body_end, n as nat, Seq::empty());
                }
            }
        },
    }
}

/// Helper for `lemma_parse_extend`, list form.
proof fn lemma_items_extend(buf: Seq<u8>, ext: Seq<u8>, pos: int, n: nat, acc: Seq<ValueModel>)
    requires
        0 <= pos <= buf.len(),
        spec_parse_items(buf, pos, n, acc) != Err::<(Seq<ValueModel>, int), ParseError>(
            ParseError::Incomplete,
        ),
    ensures
        spec_parse_items(buf + ext, pos, n, acc) == spec_parse_items(buf, pos, n, acc),
    decreases buf.len() - pos, n, 1int,
{
    if n > 0 {
        match spec_parse(buf, pos) {
            Err(e) => {
                lemma_parse_extend(buf, ext, pos);
            },
            Ok((v, p2)) => {
                lemma_parse_extend(buf, ext, pos);
                if pos < p2 <= buf.len() {
                    lemma_items_extend(buf, ext, p2, (n - 1) as nat, acc.push(v));
                } else {
                    assert(false);
                }
            },
        }
    }
}

/// Helper for `lemma_parse_extend`, mapping form.
proof fn lemma_pairs_extend(
    buf: Seq<u8>,
    ext: Seq<u8>,
    pos: int,
    n: nat,
    acc: Seq<(ValueModel, ValueModel)>,
)
    requires
        0 <= pos <= buf.len(),
        spec_parse_pairs(buf, pos, n, acc) != Err::<(Seq<(ValueModel, ValueModel)>, int), ParseError>(
            ParseError::Incomplete,
        ),
    ensures
        spec_parse_pairs(buf + ext, pos, n, acc) == spec_parse_pairs(buf, pos, n, acc),
    decreases buf.len() - pos, n, 1int,
{
    if n > 0 {
        match spec_parse(buf, pos) {
            Err(e) => {
                lemma_parse_extend(buf, ext, pos);
            },
            Ok((k, p2)) => {
                lemma_parse_extend(buf, ext, pos);
                if pos < p2 <= buf.len() {
                    match spec_parse(buf, p2) {
                        Err(e) => {
                            lemma_parse_extend(buf, ext, p2);
                        },
                        Ok((v, p3)) => {
                            lemma_parse_extend(buf, ext, p2);
                            if p2 < p3 <= buf.len() {
                                lemma_pairs_extend(
                                    buf,
                                    ext,
                                    p3,
                                    (n - 1) as nat,
                                    map_insert(acc, k, v),
                                );
                            } else {
                                assert(false);
                            }
                        },
                    }
                } else {
                    assert(false);
                }
            },
        }
    }
}

/// Helper for `lemma_parse_extend`, set form.
proof fn lemma_set_extend(buf: Seq<u8>, ext: Seq<u8>, pos: int, n: nat, acc: Seq<ValueModel>)
    requires
        0 <= pos <= buf.len(),
        spec_parse_set(buf, pos, n, acc) != Err::<(Seq<ValueModel>, int), ParseError>(
            ParseError::Incomplete,
        ),
    ensures
        spec_parse_set(buf + ext, pos, n, acc) == spec_parse_set(buf, pos, n, acc),
    decreases buf.len() - pos, n, 1int,
{
    if n > 0 {
        match spec_parse(buf, pos) {
            Err(e) => {
                lemma_parse_extend(buf, ext, pos);
            },
            Ok((v, p2)) => {
                lemma_parse_extend(buf, ext, pos);
                if pos < p2 <= buf.len() {
                    lemma_set_extend(buf, ext, p2, (n - 1) as nat, set_insert(acc, v));
                } else {
                    assert(false);
                }
            },
        }
    }
}

/// Partial-read convergence: truncating a decodable message anywhere
/// strictly before its end yields `Incomplete` — never a value and never a
/// malformed outcome — and the full buffer still decodes to the full value.
pub proof fn lemma_prefix_incomplete(buf: Seq<u8>, cut: int)
    requires
        0 <= cut,
        spec_parse(buf, 0) matches Ok(p) && cut < p.1,
    ensures
        spec_parse(buf.subrange(0, cut), 0) == Err::<(ValueModel, int), ParseError>(
            ParseError::Incomplete,
        ),
{
    lemma_parse_advances(buf, 0);
    let t = buf.subrange(0, cut);
    let rest = buf.subrange(cut, buf.len() as int);
    assert(t + rest =~= buf);
    match spec_parse(t, 0) {
        Err(e) => {
            if e != ParseError::Incomplete {
                lemma_parse_extend(t, rest, 0);
                assert(false);
            }
        },
        Ok(q) => {
            lemma_parse_advances(t, 0);
            lemma_parse_extend(t, rest, 0);
            assert(false);
        },
    }
}

/// Binary exactness: a binary string payload of any bytes, the delimiter
/// sequence included, survives the round trip unchanged.
pub proof fn lemma_binary_round_trip(b: Seq<u8>)
    requires
        b.len() <= usize::MAX,
    ensures
        spec_parse(encoded(ValueModel::BinaryString(b)), 0) == Ok::<(ValueModel, int), ParseError>(
            (ValueModel::BinaryString(b), encoded(ValueModel::BinaryString(b)).len() as int),
        ),
{
    lemma_round_trip(ValueModel::BinaryString(b));
}

/// Structural equivalence is reflexive: every value is equivalent to
/// itself.
pub proof fn lemma_vequiv_refl(v: ValueModel)
    ensures
        vequiv(v, v),
    decreases v,
{
    match v {
        ValueModel::List(x) => {
            assert forall|i: int| 0 <= i < x.len() implies vequiv(#[trigger] x[i], x[i]) by {
                lemma_vequiv_refl(x[i]);
            }
        },
        ValueModel::Mapping(x) => {
            assert forall|i: int| 0 <= i < x.len() implies pair_matched(#[trigger] x[i], x) by {
                lemma_vequiv_refl(x[i].0);
                lemma_vequiv_refl(x[i].1);
                assert(0 <= i < x.len() && vequiv(x[i].0, (x[i]).0) && vequiv(x[i].1, x[i].1));
            }
            assert forall|j: int| 0 <= j < x.len() implies pair_covers(x, #[trigger] x[j]) by {
                lemma_vequiv_refl(x[j].0);
                lemma_vequiv_refl(x[j].1);
                assert(0 <= j < x.len() && vequiv((x[j]).0, x[j].0) && vequiv(x[j].1, x[j].1));
            }
        },
        ValueModel::UniqueSet(x) => {
            assert forall|i: int| 0 <= i < x.len() implies member_matched(#[trigger] x[i], x) by {
                lemma_vequiv_refl(x[i]);
            }
            assert forall|j: int| 0 <= j < x.len() implies member_covers(x, #[trigger] x[j]) by {
                lemma_vequiv_refl(x[j]);
            }
        },
        _ => {},
    }
}

/// Structural equivalence is symmetric.
pub proof fn lemma_vequiv_sym(a: ValueModel, b: ValueModel)
    requires
        vequiv(a, b),
    ensures
        vequiv(b, a),
    decreases a,
{
    match (a, b) {
        (ValueModel::List(x), ValueModel::List(y)) => {
            assert forall|i: int| 0 <= i < y.len() implies vequiv(#[trigger] y[i], x[i]) by {
                assert(vequiv(x[i], y[i]));
                lemma_vequiv_sym(x[i], y[i]);
            }
        },
        (ValueModel::Mapping(x), ValueModel::Mapping(y)) => {
            assert forall|i: int| 0 <= i < y.len() implies pair_matched(#[trigger] y[i], x) by {
                assert(pair_covers(x, y[i]));
                let w = choose|w: int|
                    0 <= w < x.len() && vequiv((#[trigger] x[w]).0, y[i].0) && vequiv(
                        x[w].1,
                        y[i].1,
                    );
                lemma_vequiv_sym(x[w].0, y[i].0);
                lemma_vequiv_sym(x[w].1, y[i].1);
                assert(0 <= w < x.len() && vequiv(y[i].0, (x[w]).0) && vequiv(y[i].1, x[w].1));
            }
            assert forall|j: int| 0 <= j < x.len() implies pair_covers(y, #[trigger] x[j]) by {
                assert(pair_matched(x[j], y));
                let w = choose|w: int|
                    0 <= w < y.len() && vequiv(x[j].0, (#[trigger] y[w]).0) && vequiv(
                        x[j].1,
                        y[w].1,
                    );
                lemma_vequiv_sym(x[j].0, y[w].0);
                lemma_vequiv_sym(x[j].1, y[w].1);
                assert(0 <= w < y.len() && vequiv((y[w]).0, x[j].0) && vequiv(y[w].1, x[j].1));
            }
        },
        (ValueModel::UniqueSet(x), ValueModel::UniqueSet(y)) => {
            assert forall|i: int| 0 <= i < y.len() implies member_matched(#[trigger] y[i], x) by {
                assert(member_covers(x, y[i]));
                let w = choose|w: int| 0 <= w < x.len() && vequiv(#[trigger] x[w], y[i]);
                lemma_vequiv_sym(x[w], y[i]);
                assert(0 <= w < x.len() && vequiv(y[i], x[w]));
            }
            assert forall|j: int| 0 <= j < x.len() implies member_covers(y, #[trigger] x[j]) by {
                assert(member_matched(x[j], y));
                let w = choose|w: int| 0 <= w < y.len() && vequiv(x[j], #[trigger] y[w]);
                lemma_vequiv_sym(x[j], y[w]);
                assert(0 <= w < y.len() && vequiv(y[w], x[j]));
            }
        },
        _ => {},
    }
}

/// Round trip, stated with the protocol's structural equality: decoding an
/// encoded well-formed value yields a structurally equal value.
pub proof fn lemma_round_trip_equiv(v: ValueModel)
    requires
        wf(v),
    ensures
        spec_parse(encoded(v), 0) matches Ok(p) && vequiv(p.0, v),
{
    lemma_round_trip(v);
    lemma_vequiv_refl(v);
}

/// Structural equivalence is transitive.
pub proof fn lemma_vequiv_trans(a: ValueModel, b: ValueModel, c: ValueModel)
    requires
        vequiv(a, b),
        vequiv(b, c),
    ensures
        vequiv(a, c),
    decreases a,
{
    match (a, b, c) {
        (ValueModel::List(x), ValueModel::List(y), ValueModel::List(z)) => {
            assert forall|i: int| 0 <= i < x.len() implies vequiv(#[trigger] x[i], z[i]) by {
                assert(vequiv(x[i], y[i]));
                assert(vequiv(y[i], z[i]));
                lemma_vequiv_trans(x[i], y[i], z[i]);
            }
        },
        (ValueModel::Mapping(x), ValueModel::Mapping(y), ValueModel::Mapping(z)) => {
            assert forall|i: int| 0 <= i < x.len() implies pair_matched(#[trigger] x[i], z) by {
                assert(pair_matched(x[i], y));
                let w = choose|w: int|
                    0 <= w < y.len() && vequiv(x[i].0, (#[trigger] y[w]).0) && vequiv(
                        x[i].1,
                        y[w].1,
                    );
                assert(pair_matched(y[w], z));
                let u = choose|u: int|
                    0 <= u < z.len() && vequiv(y[w].0, (#[trigger] z[u]).0) && vequiv(
                        y[w].1,
                        z[u].1,
                    );
                lemma_vequiv_trans(x[i].0, y[w].0, z[u].0);
                lemma_vequiv_trans(x[i].1, y[w].1, z[u].1);
                assert(0 <= u < z.len() && vequiv(x[i].0, (z[u]).0) && vequiv(x[i].1, z[u].1));
            }
            assert forall|j: int| 0 <= j < z.len() implies pair_covers(x, #[trigger] z[j]) by {
                assert(pair_covers(y, z[j]));
                let w = choose|w: int|
                    0 <= w < y.len() && vequiv((#[trigger] y[w]).0, z[j].0) && vequiv(
                        y[w].1,
                        z[j].1,
                    );
                assert(pair_covers(x, y[w]));
                let u = choose|u: int|
                    0 <= u < x.len() && vequiv((#[trigger] x[u]).0, y[w].0) && vequiv(
                        x[u].1,
                        y[w].1,
                    );
                lemma_vequiv_trans(x[u].0, y[w].0, z[j].0);
                lemma_vequiv_trans(x[u].1, y[w].1, z[j].1);
                assert(0 <= u < x.len() && vequiv((x[u]).0, z[j].0) && vequiv(x[u].1, z[j].1));
            }
        },
        (ValueModel::UniqueSet(x), ValueModel::UniqueSet(y), ValueModel::UniqueSet(z)) => {
            assert forall|i: int| 0 <= i < x.len() implies member_matched(#[trigger] x[i], z) by {
                assert(member_matched(x[i], y));
                let w = choose|w: int| 0 <= w < y.len() && vequiv(x[i], #[trigger] y[w]);
                assert(member_matched(y[w], z));
                let u = choose|u: int| 0 <= u < z.len() && vequiv(y[w], #[trigger] z[u]);
                lemma_vequiv_trans(x[i], y[w], z[u]);
                assert(0 <= u < z.len() && vequiv(x[i], z[u]));
            }
            assert forall|j: int| 0 <= j < z.len() implies member_covers(x, #[trigger] z[j]) by {
                assert(member_covers(y, z[j]));
                let w = choose|w: int| 0 <= w < y.len() && vequiv(#[trigger] y[w], z[j]);
                assert(member_covers(x, y[w]));
                let u = choose|u: int| 0 <= u < x.len() && vequiv(#[trigger] x[u], y[w]);
                lemma_vequiv_trans(x[u], y[w], z[j]);
                assert(0 <= u < x.len() && vequiv(x[u], z[j]));
            }
        },
        _ => {},
    }
}

/// What the key scan finds: the first pair whose key is equivalent, if any.
proof fn lemma_find_key_spec(ps: Seq<(ValueModel, ValueModel)>, k: ValueModel, from: int)
    requires
        0 <= from,
    ensures
        match find_key(ps, k, from) {
            Some(i) => from <= i < ps.len() && vequiv(ps[i].0, k) && (forall|j: int|
                from <= j < i ==> !vequiv((#[trigger] ps[j]).0, k)),
            None => forall|j: int| from <= j < ps.len() ==> !vequiv((#[trigger] ps[j]).0, k),
        },
    decreases ps.len() - from,
{
    if from < ps.len() && !vequiv(ps[from].0, k) {
        lemma_find_key_spec(ps, k, from + 1);
    }
}

/// What the member scan finds: the first equivalent member, if any.
proof fn lemma_find_member_spec(vs: Seq<ValueModel>, x: ValueModel, from: int)
    requires
        0 <= from,
    ensures
        match find_member(vs, x, from) {
            Some(i) => from <= i < vs.len() && vequiv(vs[i], x) && (forall|j: int|
                from <= j < i ==> !vequiv(#[trigger] vs[j], x)),
            None => forall|j: int| from <= j < vs.len() ==> !vequiv(#[trigger] vs[j], x),
        },
    decreases vs.len() - from,
{
    if from < vs.len() && !vequiv(vs[from], x) {
        lemma_find_member_spec(vs, x, from + 1);
    }
}

/// Soundness of the decoder against the data model: a decoded value is
/// well formed — its text payloads hold no delimiter pair, its lengths fit
/// the machine, its mapping keys and set members are unique under
/// structural equivalence, recursively.
pub proof fn lemma_parse_wf(buf: Seq<u8>, pos: int)
    ensures
        spec_parse(buf, pos) matches Ok(p) ==> wf(p.0),
    decreases buf.len() - pos, 0int, 0int,
{
    if pos < 0 {
        return ;
    }
    lemma_find_crlf_spec(buf, pos);
    if let Some(j) = find_crlf(buf, pos) {
        let tag = buf[pos];
        let arg = buf.subrange(pos + 1, j);
        let body_end = j + 2;
        lemma_parse_len_bounds(arg);
        if tag == 43 || tag == 45 {
            assert forall|k: int| !crlf_at(arg, k) by {
                if 0 <= k && k + 1 < arg.len() {
                    assert(arg[k] == buf[pos + 1 + k]);
                    assert(arg[k + 1] == buf[pos + 1 + k + 1]);
                    assert(!crlf_at(buf, pos + 1 + k));
                }
            }
        } else if tag == 42 {
            if let Some(n) = parse_len_arg(arg) {
                lemma_items_wf(buf, body_end, n as nat, Seq::empty());
            }
        } else if tag == 37 {
            if let Some(n) = parse_len_arg(arg) {
                lemma_pairs_wf(buf, body_end, n as nat, Seq::empty());
            }
        } else if tag == 126 {
            if let Some(n) = parse_len_arg(arg) {
                lemma_set_wf(buf, body_end, n as nat, Seq::empty());
            }
        }
    }
}

/// Helper for `lemma_parse_wf`, list form.
proof fn lemma_items_wf(buf: Seq<u8>, pos: int, n: nat, acc: Seq<ValueModel>)
    requires
        pos <= buf.len(),
        acc.len() + n <= usize::MAX,
        forall|k: int| 0 <= k < acc.len() ==> wf(#[trigger] acc[k]),
    ensures
        spec_parse_items(buf, pos, n, acc) matches Ok(p) ==> wf(ValueModel::List(p.0)),
    decreases buf.len() - pos, n, 1int,
{
    if n > 0 {
        if let Ok((v, p2)) = spec_parse(buf, pos) {
            if pos < p2 <= buf.len() {
                lemma_parse_wf(buf, pos);
                assert forall|k: int| 0 <= k < acc.push(v).len() implies wf(
                    #[trigger] acc.push(v)[k],
                ) by {
                    if k < acc.len() {
                        assert(acc.push(v)[k] == acc[k]);
                    }
                }
                lemma_items_wf(buf, p2, (n - 1) as nat, acc.push(v));
            }
        }
    }
}

/// Helper for `lemma_parse_wf`, mapping form: last-wins insertion keeps the
/// keys pairwise non-equivalent.
proof fn lemma_pairs_wf(buf: Seq<u8>, pos: int, n: nat, acc: Seq<(ValueModel, ValueModel)>)
    requires
        pos <= buf.len(),
        acc.len() + n <= usize::MAX,
        forall|k: int| 0 <= k < acc.len() ==> wf((#[trigger] acc[k]).0) && wf(acc[k].1),
        forall|i: int, j: int|
            0 <= i < acc.len() && 0 <= j < acc.len() && i != j ==> !vequiv(
                (#[trigger] acc[i]).0,
                (#[trigger] acc[j]).0,
            ),
    ensures
        spec_parse_pairs(buf, pos, n, acc) matches Ok(p) ==> wf(ValueModel::Mapping(p.0)),
    decreases buf.len() - pos, n, 1int,
{
    if n > 0 {
        if let Ok((k, p2)) = spec_parse(buf, pos) {
            if pos < p2 <= buf.len() {
                if let Ok((v, p3)) = spec_parse(buf, p2) {
                    if p2 < p3 <= buf.len() {
                        lemma_parse_wf(buf, pos);
                        lemma_parse_wf(buf, p2);
                        lemma_find_key_spec(acc, k, 0);
                        let acc2 = map_insert(acc, k, v);
                        match find_key(acc, k, 0) {
                            Some(i) => {
                                assert(acc2 == acc.update(i, (k, v)));
                                assert forall|l: int| 0 <= l < acc2.len() implies wf(
                                    (#[trigger] acc2[l]).0,
                                ) && wf(acc2[l].1) by {
                                    if l != i {
                                        assert(acc2[l] == acc[l]);
                                    }
                                }
                                assert forall|l: int, m: int|
                                    0 <= l < acc2.len() && 0 <= m < acc2.len() && l
                                        != m implies !vequiv(
                                    (#[trigger] acc2[l]).0,
                                    (#[trigger] acc2[m]).0,
                                ) by {
                                    if l != i && m != i {
                                        assert(acc2[l] == acc[l] && acc2[m] == acc[m]);
                                        assert(!vequiv(acc[l].0, acc[m].0));
                                    } else if l == i {
                                        assert(acc2[m] == acc[m]);
                                        if vequiv(k, acc[m].0) {
                                            lemma_vequiv_trans(acc[i].0, k, acc[m].0);
                                            assert(!vequiv(acc[i].0, acc[m].0));
                                            assert(false);
                                        }
                                    } else {
                                        assert(acc2[l] == acc[l]);
                                        if vequiv(acc[l].0, k) {
                                            lemma_vequiv_sym(acc[i].0, k);
                                            lemma_vequiv_trans(acc[l].0, k, acc[i].0);
                                            assert(!vequiv(acc[l].0, acc[i].0));
                                            assert(false);
                                        }
                                    }
                                }
                            },
                            None => {
                                assert(acc2 == acc.push((k, v)));
                                assert forall|l: int| 0 <= l < acc2.len() implies wf(
                                    (#[trigger] acc2[l]).0,
                                ) && wf(acc2[l].1) by {
                                    if l < acc.len() {
                                        assert(acc2[l] == acc[l]);
                                    }
                                }
                                assert forall|l: int, m: int|
                                    0 <= l < acc2.len() && 0 <= m < acc2.len() && l
                                        != m implies !vequiv(
                                    (#[trigger] acc2[l]).0,
                                    (#[trigger] acc2[m]).0,
                                ) by {
                                    if l < acc.len() && m < acc.len() {
                                        assert(acc2[l] == acc[l] && acc2[m] == acc[m]);
                                        assert(!vequiv(acc[l].0, acc[m].0));
                                    } else if m == acc.len() as int {
                                        assert(acc2[l] == acc[l]);
                                        assert(!vequiv(acc[l].0, k));
                                    } else {
                                        assert(acc2[m] == acc[m]);
                                        if vequiv(k, acc[m].0) {
                                            lemma_vequiv_sym(k, acc[m].0);
                                            assert(!vequiv(acc[m].0, k));
                                            assert(false);
                                        }
                                    }
                                }
                            },
                        }
                        lemma_pairs_wf(buf, p3, (n - 1) as nat, acc2);
                    }
                }
            }
        }
    }
}

/// Helper for `lemma_parse_wf`, set form: duplicate absorption keeps the
/// members pairwise non-equivalent.
proof fn lemma_set_wf(buf: Seq<u8>, pos: int, n: nat, acc: Seq<ValueModel>)
    requires
        pos <= buf.len(),
        acc.len() + n <= usize::MAX,
        forall|k: int| 0 <= k < acc.len() ==> wf(#[trigger] acc[k]),
        forall|i: int, j: int|
            0 <= i < acc.len() && 0 <= j < acc.len() && i != j ==> !vequiv(
                #[trigger] acc[i],
                #[trigger] acc[j],
            ),
    ensures
        spec_parse_set(buf, pos, n, acc) matches Ok(p) ==> wf(ValueModel::UniqueSet(p.0)),
    decreases buf.len() - pos, n, 1int,
{
    if n > 0 {
        if let Ok((v, p2)) = spec_parse(buf, pos) {
            if pos < p2 <= buf.len() {
                lemma_parse_wf(buf, pos);
                lemma_find_member_spec(acc, v, 0);
                let acc2 = set_insert(acc, v);
                match find_member(acc, v, 0) {
                    Some(_) => {
                        assert(acc2 == acc);
                    },
                    None => {
                        assert(acc2 == acc.push(v));
                        assert forall|l: int| 0 <= l < acc2.len() implies wf(
                            #[trigger] acc2[l],
                        ) by {
                            if l < acc.len() {
                                assert(acc2[l] == acc[l]);
                            }
                        }
                        assert forall|l: int, m: int|
                            0 <= l < acc2.len() && 0 <= m < acc2.len() && l != m implies !vequiv(
                            #[trigger] acc2[l],
                            #[trigger] acc2[m],
                        ) by {
                            if l < acc.len() && m < acc.len() {
                                assert(acc2[l] == acc[l] && acc2[m] == acc[m]);
                                assert(!vequiv(acc[l], acc[m]));
                            } else if m == acc.len() as int {
                                assert(acc2[l] == acc[l]);
                                assert(!vequiv(acc[l], v));
                            } else {
                                assert(acc2[m] == acc[m]);
                                if vequiv(v, acc[m]) {
                                    lemma_vequiv_sym(v, acc[m]);
                                    assert(!vequiv(acc[m], v));
                                    assert(false);
                                }
                            }
                        }
                    },
                }
                lemma_set_wf(buf, p2, (n - 1) as nat, acc2);
            }
        }
    }
}

} // verus!
