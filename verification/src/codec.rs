//! The snapshot wire format: a leaf table as UTF-8 JSON text, with a proved
//! round trip between the serializer and the strict deserializer.
//!
//! The shape is `{"items":[[b,…,b],…],"values":[v,…,v]}`: 256 arrays of 32
//! decimal bytes (the digest slots), then the 256 decimal values behind them.
//! The digest slots alone would not suffice: a digest is not invertible, and
//! the values behind the slots must survive a revert and answer historical
//! queries, so snapshots carry both columns, and the deserializer checks
//! that each slot is the digest of its value.

use vstd::prelude::*;

use crate::hashes::{hash_value, bytes_eq, digest_eq};
use crate::merkle::digests_of;
use crate::state_machine::{leaves_consistent, leaves_wf, Leaves, LeavesModel};

verus! {

// ---------------------------------------------------------------- decimal

/// An ASCII decimal digit.
pub open spec fn is_digit(b: u8) -> bool {
    48 <= b <= 57
}

/// The shortest decimal spelling of `v`, as ASCII bytes.
pub open spec fn dec_bytes(v: nat) -> Seq<u8>
    decreases v,
{
    if v < 10 {
        seq![(48 + v) as u8]
    } else {
        dec_bytes(v / 10) + seq![(48 + v % 10) as u8]
    }
}

/// The number a digit string spells.
pub open spec fn dec_val(s: Seq<u8>) -> int
    decreases s.len(),
{
    if s.len() == 0 {
        0
    } else {
        dec_val(s.drop_last()) * 10 + (s.last() - 48)
    }
}

pub proof fn lemma_dec_bytes_digits(v: nat)
    ensures
        dec_bytes(v).len() >= 1,
        forall|j: int| 0 <= j < dec_bytes(v).len() ==> is_digit(#[trigger] dec_bytes(v)[j]),
    decreases v,
{
    if v >= 10 {
        lemma_dec_bytes_digits(v / 10);
    }
}

proof fn lemma_dec_val_of_dec_bytes(v: nat)
    ensures
        dec_val(dec_bytes(v)) == v,
    decreases v,
{
    if v < 10 {
        assert(dec_val(Seq::<u8>::empty()) == 0);
        assert(dec_bytes(v).drop_last() =~= Seq::<u8>::empty());
        assert(dec_bytes(v).last() == (48 + v) as u8);
        assert((48 + v) as u8 == 48 + v);
    } else {
        lemma_dec_val_of_dec_bytes(v / 10);
        assert(dec_bytes(v).drop_last() =~= dec_bytes(v / 10));
        assert(dec_bytes(v).last() == (48 + v % 10) as u8);
        assert((48 + v % 10) as u8 == 48 + v % 10);
        assert(dec_val(dec_bytes(v)) == dec_val(dec_bytes(v / 10)) * 10 + v % 10);
    }
}

/// Distinct numbers have distinct decimal spellings.
pub proof fn lemma_dec_bytes_injective(a: nat, b: nat)
    ensures
        dec_bytes(a) == dec_bytes(b) ==> a == b,
{
    if dec_bytes(a) == dec_bytes(b) {
        lemma_dec_val_of_dec_bytes(a);
        lemma_dec_val_of_dec_bytes(b);
    }
}

proof fn lemma_dec_val_prefix(s: Seq<u8>, i: int)
    requires
        0 <= i <= s.len(),
        forall|j: int| 0 <= j < s.len() ==> is_digit(#[trigger] s[j]),
    ensures
        0 <= dec_val(s.take(i)) <= dec_val(s),
    decreases s.len(),
{
    if i == s.len() {
        assert(s.take(i) =~= s);
        if s.len() > 0 {
            lemma_dec_val_prefix(s.drop_last(), s.len() - 1);
            assert(s.drop_last().take(s.len() - 1) =~= s.drop_last());
        }
    } else {
        lemma_dec_val_prefix(s.drop_last(), i);
        assert(s.take(i) =~= s.drop_last().take(i));
        lemma_dec_val_prefix(s.drop_last(), s.len() - 1);
        assert(s.drop_last().take(s.len() - 1) =~= s.drop_last());
    }
}

/// Appends the decimal spelling of `v`.
pub fn push_dec(out: &mut Vec<u8>, v: u64)
    ensures
        final(out)@ == old(out)@ + dec_bytes(v as nat),
    decreases v,
{
    if v < 10 {
        out.push(48 + v as u8);
        proof {
            assert(out@ =~= old(out)@ + dec_bytes(v as nat));
        }
    } else {
        push_dec(out, v / 10);
        out.push(48 + (v % 10) as u8);
        proof {
            assert(out@ =~= old(out)@ + dec_bytes(v as nat));
        }
    }
}

// ------------------------------------------------------------ byte matching

/// `pat` occurs in `s` at position `i`.
pub open spec fn matches_at(s: Seq<u8>, i: int, pat: Seq<u8>) -> bool {
    &&& 0 <= i
    &&& i + pat.len() <= s.len()
    &&& s.subrange(i, i + pat.len()) == pat
}

pub proof fn lemma_matches_split(s: Seq<u8>, i: int, a: Seq<u8>, b: Seq<u8>)
    ensures
        matches_at(s, i, a + b) <==> (matches_at(s, i, a) && matches_at(s, i + a.len(), b)),
{
    let ab = a + b;
    if matches_at(s, i, ab) {
        assert forall|j: int| 0 <= j < ab.len() implies s[i + j] == ab[j] by {
            assert(s.subrange(i, i + ab.len())[j] == s[i + j]);
        }
        assert(s.subrange(i, i + a.len()) =~= a) by {
            assert forall|j: int| 0 <= j < a.len() implies s.subrange(i, i + a.len())[j] == a[j] by {
                assert(s.subrange(i, i + a.len())[j] == s[i + j]);
                assert(ab[j] == a[j]);
            }
        }
        assert(s.subrange(i + a.len(), i + a.len() + b.len()) =~= b) by {
            assert forall|j: int|
                0 <= j < b.len() implies s.subrange(i + a.len(), i + a.len() + b.len())[j] == b[j] by {
                assert(s.subrange(i + a.len(), i + a.len() + b.len())[j] == s[i + a.len() + j]);
                assert(ab[a.len() + j] == b[j]);
            }
        }
    }
    if matches_at(s, i, a) && matches_at(s, i + a.len(), b) {
        assert(s.subrange(i, i + ab.len()) =~= ab) by {
            assert forall|j: int| 0 <= j < ab.len() implies s.subrange(i, i + ab.len())[j] == ab[j] by {
                assert(s.subrange(i, i + ab.len())[j] == s[i + j]);
                if j < a.len() {
                    assert(s.subrange(i, i + a.len())[j] == s[i + j]);
                } else {
                    assert(s.subrange(i + a.len(), i + a.len() + b.len())[j - a.len()] == s[i + j]);
                }
            }
        }
    }
}

pub proof fn lemma_matches_byte(s: Seq<u8>, i: int, pat: Seq<u8>, j: int)
    requires
        matches_at(s, i, pat),
        0 <= j < pat.len(),
    ensures
        s[i + j] == pat[j],
{
    assert(s.subrange(i, i + pat.len())[j] == s[i + j]);
}

// ------------------------------------------------------------ number parse

/// Where the run of digits starting at `i` ends: the first index at or
/// after `i` that is past the end or holds a non-digit.
pub open spec fn num_end(s: Seq<u8>, i: int) -> int
    decreases s.len() - i,
{
    if 0 <= i < s.len() && is_digit(s[i]) {
        num_end(s, i + 1)
    } else {
        i
    }
}

pub proof fn lemma_num_end_bounds(s: Seq<u8>, i: int)
    requires
        0 <= i <= s.len(),
    ensures
        i <= num_end(s, i) <= s.len(),
        forall|j: int| i <= j < num_end(s, i) ==> is_digit(#[trigger] s[j]),
        num_end(s, i) == s.len() || !is_digit(s[num_end(s, i)]),
    decreases s.len() - i,
{
    if i < s.len() && is_digit(s[i]) {
        lemma_num_end_bounds(s, i + 1);
    }
}

/// The digit run's end is the one index with digits before it and a
/// non-digit (or the end) at it.
pub proof fn lemma_num_end_unique(s: Seq<u8>, i: int, j: int)
    requires
        0 <= i <= j <= s.len(),
        forall|q: int| i <= q < j ==> is_digit(#[trigger] s[q]),
        j == s.len() || !is_digit(s[j]),
    ensures
        num_end(s, i) == j,
    decreases j - i,
{
    if i < j {
        lemma_num_end_unique(s, i + 1, j);
    }
}

/// The input at `i` spells exactly the decimal of `v0` and then stops: the
/// byte after it, if any, is not a digit.
pub open spec fn spells_u64(s: Seq<u8>, i: int, v0: u64) -> bool {
    &&& matches_at(s, i, dec_bytes(v0 as nat))
    &&& (i + dec_bytes(v0 as nat).len() == s.len() || !is_digit(
        s[i + dec_bytes(v0 as nat).len()],
    ))
}

/// Scans a decimal number. Whenever the input at `i` spells a number and
/// stops, the scan returns exactly that number and the position after it.
pub fn parse_u64(s: &Vec<u8>, i: usize) -> (r: Option<(u64, usize)>)
    requires
        i <= s@.len(),
    ensures
        r matches Some(p) ==> i < p.1 <= s@.len(),
        forall|v0: u64| #[trigger]
            spells_u64(s@, i as int, v0) ==> (r matches Some(p) && p.0 == v0 && p.1 as int == i
                + dec_bytes(v0 as nat).len()),
        r matches Some(p) ==> (num_end(s@, i as int) > i && p.1 as int == num_end(s@, i as int)
            && p.0 == dec_val(s@.subrange(i as int, num_end(s@, i as int)))),
        r is None ==> (num_end(s@, i as int) == i || dec_val(
            s@.subrange(i as int, num_end(s@, i as int)),
        ) > u64::MAX),
{
    let ghost gi = i as int;
    let n = s.len();
    let mut pos: usize = i;
    let mut acc: u64 = 0;
    loop
        invariant
            gi == i as int,
            i <= pos <= n,
            n == s@.len(),
            forall|j: int| gi <= j < pos ==> is_digit(#[trigger] s@[j]),
            acc == dec_val(s@.subrange(gi, pos as int)),
        decreases n - pos,
    {
        if pos < n {
            let b = s[pos];
            if 48 <= b && b <= 57 {
                let d = b - 48;
                proof {
                    let sub1 = s@.subrange(gi, pos + 1);
                    assert(sub1.drop_last() =~= s@.subrange(gi, pos as int)) by {
                        assert forall|j: int|
                            0 <= j < pos - gi implies sub1.drop_last()[j] == #[trigger] s@.subrange(
                            gi,
                            pos as int,
                        )[j] by {
                            assert(sub1.drop_last()[j] == sub1[j]);
                            assert(sub1[j] == s@[gi + j]);
                        }
                    }
                    assert(sub1.last() == s@[pos as int]);
                    assert(dec_val(sub1) == acc * 10 + (s@[pos as int] - 48));
                }
                if acc > (u64::MAX - (d as u64)) / 10 {
                    proof {
                        lemma_num_end_bounds(s@, gi);
                        let ne = num_end(s@, gi);
                        let full = s@.subrange(gi, ne);
                        assert((pos as int) < ne) by {
                            if pos as int >= ne {
                                assert(is_digit(s@[pos as int]));
                                if pos as int == ne {
                                    assert(ne < s@.len());
                                } else {
                                    assert(is_digit(s@[ne]));
                                }
                            }
                        }
                        assert(dec_val(full) > u64::MAX) by {
                            lemma_dec_val_prefix(full, pos + 1 - gi);
                            assert(full.take(pos + 1 - gi) =~= s@.subrange(gi, pos + 1));
                            let q0 = (u64::MAX - (d as u64)) / 10;
                            assert((u64::MAX - (d as u64)) < (q0 + 1) * 10) by (nonlinear_arith)
                                requires
                                    q0 == (u64::MAX - (d as u64)) / 10,
                                    0 <= d <= 9,
                            ;
                            assert(acc * 10 + d > u64::MAX) by (nonlinear_arith)
                                requires
                                    acc > q0,
                                    (u64::MAX - (d as u64)) < (q0 + 1) * 10,
                                    0 <= d <= 9,
                                    q0 >= 0,
                            ;
                            assert(dec_val(s@.subrange(gi, pos + 1)) == acc * 10 + d);
                        }
                        let q = (u64::MAX - (d as u64)) / 10;
                        assert((u64::MAX - (d as u64)) < (q + 1) * 10) by (nonlinear_arith)
                            requires
                                q == (u64::MAX - (d as u64)) / 10,
                                0 <= d <= 9,
                        ;
                        assert forall|v0: u64| #[trigger]
                            spells_u64(s@, gi, v0) implies false by {
                            let db = dec_bytes(v0 as nat);
                            lemma_dec_bytes_digits(v0 as nat);
                            lemma_dec_val_of_dec_bytes(v0 as nat);
                            assert(is_digit(s@[pos as int]));
                            if pos as int >= gi + db.len() {
                                if pos as int == gi + db.len() {
                                    assert(gi + db.len() < s@.len());
                                    assert(!is_digit(s@[pos as int]));
                                } else {
                                    assert(is_digit(s@[gi + db.len()]));
                                    assert(gi + db.len() < s@.len());
                                    assert(!is_digit(s@[gi + db.len()]));
                                }
                            }
                            assert((pos as int) < gi + db.len());
                            assert(s@.subrange(gi, pos + 1) =~= db.take(pos + 1 - gi)) by {
                                assert forall|j: int| 0 <= j < pos + 1 - gi implies s@.subrange(
                                    gi,
                                    pos + 1,
                                )[j] == #[trigger] db.take(pos + 1 - gi)[j] by {
                                    lemma_matches_byte(s@, gi, db, j);
                                }
                            }
                            lemma_dec_val_prefix(db, pos + 1 - gi);
                            assert(dec_val(db.take(pos + 1 - gi)) <= v0);
                            assert(acc * 10 + d > u64::MAX) by (nonlinear_arith)
                                requires
                                    acc > q,
                                    (u64::MAX - (d as u64)) < (q + 1) * 10,
                                    0 <= d <= 9,
                                    q >= 0,
                            ;
                            assert(dec_val(s@.subrange(gi, pos + 1)) == acc * 10 + d);
                        }
                    }
                    return None;
                }
                proof {
                    let q = (u64::MAX - (d as u64)) / 10;
                    assert(acc * 10 + d <= u64::MAX) by (nonlinear_arith)
                        requires
                            acc <= q,
                            q == (u64::MAX - (d as u64)) / 10,
                            0 <= d <= 9,
                    ;
                }
                acc = acc * 10 + (d as u64);
                pos = pos + 1;
                continue;
            }
        }
        // Here the scan has stopped: end of input or a non-digit.
        if pos == i {
            proof {
                lemma_num_end_unique(s@, gi, gi);
                assert forall|v0: u64| #[trigger] spells_u64(s@, gi, v0) implies false by {
                    let db = dec_bytes(v0 as nat);
                    lemma_dec_bytes_digits(v0 as nat);
                    lemma_matches_byte(s@, gi, db, 0);
                    assert(is_digit(s@[gi]));
                }
            }
            return None;
        }
        proof {
            lemma_num_end_unique(s@, gi, pos as int);
            assert(acc == dec_val(s@.subrange(gi, num_end(s@, gi))));
            assert forall|v0: u64| #[trigger]
                spells_u64(s@, gi, v0) implies (acc == v0 && pos as int == gi + dec_bytes(
                v0 as nat,
            ).len()) by {
                let db = dec_bytes(v0 as nat);
                lemma_dec_bytes_digits(v0 as nat);
                lemma_dec_val_of_dec_bytes(v0 as nat);
                if (pos as int) < gi + db.len() {
                    lemma_matches_byte(s@, gi, db, pos - gi);
                    assert(is_digit(s@[pos as int]));
                    assert(pos < n);
                }
                if pos as int > gi + db.len() {
                    assert(is_digit(s@[gi + db.len()]));
                    assert(gi + db.len() < s@.len());
                }
                assert(pos as int == gi + db.len());
                assert(s@.subrange(gi, pos as int) =~= db) by {
                    assert forall|j: int| 0 <= j < db.len() implies s@.subrange(gi, pos as int)[j]
                        == db[j] by {
                        lemma_matches_byte(s@, gi, db, j);
                    }
                }
                assert(acc == v0);
            }
        }
        return Some((acc, pos));
    }
}

// ------------------------------------------------------------- JSON shape

/// The bytes of `{"items":[`.
pub open spec fn json_head() -> Seq<u8> {
    seq![123u8, 34u8, 105u8, 116u8, 101u8, 109u8, 115u8, 34u8, 58u8, 91u8]
}

/// The bytes of `],"values":[`.
pub open spec fn json_mid() -> Seq<u8> {
    seq![93u8, 44u8, 34u8, 118u8, 97u8, 108u8, 117u8, 101u8, 115u8, 34u8, 58u8, 91u8]
}

/// The bytes of `]}`.
pub open spec fn json_tail() -> Seq<u8> {
    seq![93u8, 125u8]
}

/// The decimals of the given numbers, comma-separated.
pub open spec fn dec_list(vals: Seq<u64>) -> Seq<u8>
    decreases vals.len(),
{
    if vals.len() == 0 {
        Seq::empty()
    } else if vals.len() == 1 {
        dec_bytes(vals[0] as nat)
    } else {
        dec_bytes(vals[0] as nat) + seq![44u8] + dec_list(vals.drop_first())
    }
}

/// One digest as a JSON array of its bytes.
pub open spec fn digest_json(d: Seq<u8>) -> Seq<u8> {
    seq![91u8] + dec_list(d.map_values(|b: u8| b as u64)) + seq![93u8]
}

/// The digests as JSON arrays, comma-separated.
pub open spec fn digest_list(items: Seq<Seq<u8>>) -> Seq<u8>
    decreases items.len(),
{
    if items.len() == 0 {
        Seq::empty()
    } else if items.len() == 1 {
        digest_json(items[0])
    } else {
        digest_json(items[0]) + seq![44u8] + digest_list(items.drop_first())
    }
}

/// The serialized form of a leaf table.
pub open spec fn ser_spec(m: LeavesModel) -> Seq<u8> {
    json_head() + digest_list(m.items) + json_mid() + dec_list(m.values) + json_tail()
}

proof fn lemma_dec_list_push(vals: Seq<u64>, x: u64)
    ensures
        vals.len() == 0 ==> dec_list(vals.push(x)) == dec_bytes(x as nat),
        vals.len() > 0 ==> dec_list(vals.push(x)) == dec_list(vals) + seq![44u8] + dec_bytes(
            x as nat,
        ),
    decreases vals.len(),
{
    if vals.len() == 0 {
        assert(vals.push(x)[0] == x);
    } else {
        lemma_dec_list_push(vals.drop_first(), x);
        assert(vals.push(x).drop_first() =~= vals.drop_first().push(x));
        assert(vals.push(x)[0] == vals[0]);
        if vals.len() == 1 {
            assert(dec_list(vals.push(x)) =~= dec_list(vals) + seq![44u8] + dec_bytes(x as nat));
        } else {
            assert(dec_list(vals.push(x)) =~= dec_list(vals) + seq![44u8] + dec_bytes(x as nat));
        }
    }
}

proof fn lemma_digest_list_push(items: Seq<Seq<u8>>, x: Seq<u8>)
    ensures
        items.len() == 0 ==> digest_list(items.push(x)) == digest_json(x),
        items.len() > 0 ==> digest_list(items.push(x)) == digest_list(items) + seq![44u8]
            + digest_json(x),
    decreases items.len(),
{
    if items.len() == 0 {
        assert(items.push(x)[0] == x);
    } else {
        lemma_digest_list_push(items.drop_first(), x);
        assert(items.push(x).drop_first() =~= items.drop_first().push(x));
        assert(items.push(x)[0] == items[0]);
        assert(digest_list(items.push(x)) =~= digest_list(items) + seq![44u8] + digest_json(x));
    }
}

// ------------------------------------------------------------- serializer

/// Appends one digest as a JSON array of its 32 bytes.
fn push_digest_json(out: &mut Vec<u8>, d: &[u8; 32])
    ensures
        final(out)@ == old(out)@ + digest_json(d@),
{
    let ghost md = d@.map_values(|b: u8| b as u64);
    out.push(91);
    let mut k: usize = 0;
    while k < 32
        invariant
            k <= 32,
            md == d@.map_values(|b: u8| b as u64),
            out@ == old(out)@ + seq![91u8] + dec_list(md.take(k as int)),
        decreases 32 - k,
    {
        if k > 0 {
            out.push(44);
        }
        push_dec(out, d[k] as u64);
        proof {
            lemma_dec_list_push(md.take(k as int), md[k as int]);
            assert(md.take(k + 1) =~= md.take(k as int).push(md[k as int]));
            assert(md[k as int] == d@[k as int] as u64);
            assert(out@ =~= old(out)@ + seq![91u8] + dec_list(md.take(k + 1)));
        }
        k += 1;
    }
    out.push(93);
    proof {
        assert(md.take(32) =~= md);
        assert(out@ =~= old(out)@ + digest_json(d@));
    }
}

/// Serializes a leaf table to its JSON text.
pub fn serialize_leaves(l: &Leaves) -> (r: Vec<u8>)
    requires
        leaves_wf(l@),
    ensures
        r@ == ser_spec(l@),
{
    let items = l.inner();
    let mut out: Vec<u8> = Vec::new();
    let head = json_head_bytes();
    crate::hashes::push_bytes(&mut out, head.as_slice());
    let mut k: usize = 0;
    while k < 256
        invariant
            leaves_wf(l@),
            digests_of(items@) == l@.items,
            items@.len() == 256,
            k <= 256,
            out@ == json_head() + digest_list(l@.items.take(k as int)),
        decreases 256 - k,
    {
        if k > 0 {
            out.push(44);
        }
        let d = items[k];
        push_digest_json(&mut out, &d);
        proof {
            assert(d@ == l@.items[k as int]);
            lemma_digest_list_push(l@.items.take(k as int), l@.items[k as int]);
            assert(l@.items.take(k + 1) =~= l@.items.take(k as int).push(l@.items[k as int]));
            assert(out@ =~= json_head() + digest_list(l@.items.take(k + 1)));
        }
        k += 1;
    }
    proof {
        assert(l@.items.take(256) =~= l@.items);
    }
    let mid = json_mid_bytes();
    crate::hashes::push_bytes(&mut out, mid.as_slice());
    let ghost after_mid = out@;
    let mut k2: usize = 0;
    while k2 < 256
        invariant
            leaves_wf(l@),
            l.wf(),
            k2 <= 256,
            out@ == after_mid + dec_list(l@.values.take(k2 as int)),
        decreases 256 - k2,
    {
        if k2 > 0 {
            out.push(44);
        }
        let v = l.value(k2 as u8);
        push_dec(&mut out, v);
        proof {
            lemma_dec_list_push(l@.values.take(k2 as int), l@.values[k2 as int]);
            assert(l@.values.take(k2 + 1) =~= l@.values.take(k2 as int).push(l@.values[k2 as int]));
            assert(out@ =~= after_mid + dec_list(l@.values.take(k2 + 1)));
        }
        k2 += 1;
    }
    proof {
        assert(l@.values.take(256) =~= l@.values);
    }
    let tail = json_tail_bytes();
    crate::hashes::push_bytes(&mut out, tail.as_slice());
    proof {
        assert(out@ =~= ser_spec(l@));
    }
    out
}

fn json_head_bytes() -> (r: Vec<u8>)
    ensures
        r@ == json_head(),
{
    let r: Vec<u8> = vec![123u8, 34u8, 105u8, 116u8, 101u8, 109u8, 115u8, 34u8, 58u8, 91u8];
    proof {
        assert(r@ =~= json_head());
    }
    r
}

fn json_mid_bytes() -> (r: Vec<u8>)
    ensures
        r@ == json_mid(),
{
    let r: Vec<u8> = vec![93u8, 44u8, 34u8, 118u8, 97u8, 108u8, 117u8, 101u8, 115u8, 34u8, 58u8, 91u8];
    proof {
        assert(r@ =~= json_mid());
    }
    r
}

fn json_tail_bytes() -> (r: Vec<u8>)
    ensures
        r@ == json_tail(),
{
    let r: Vec<u8> = vec![93u8, 125u8];
    proof {
        assert(r@ =~= json_tail());
    }
    r
}

// --------------------------------------------------------------- parser

/// Expects the exact bytes of `lit` at `i`.
pub(crate) fn parse_lit(s: &Vec<u8>, i: usize, lit: &Vec<u8>) -> (r: Option<usize>)
    requires
        i <= s@.len(),
    ensures
        r matches Some(j) ==> j as int == i + lit@.len() && j <= s@.len() && matches_at(
            s@,
            i as int,
            lit@,
        ),
        matches_at(s@, i as int, lit@) ==> r == Some((i + lit@.len()) as usize),
{
    let n = s.len();
    if n - i < lit.len() {
        return None;
    }
    let mut k: usize = 0;
    while k < lit.len()
        invariant
            k <= lit@.len(),
            n == s@.len(),
            i + lit@.len() <= n,
            forall|j: int| 0 <= j < k ==> s@[i + j] == lit@[j],
        decreases lit@.len() - k,
    {
        if s[i + k] != lit[k] {
            proof {
                if matches_at(s@, i as int, lit@) {
                    lemma_matches_byte(s@, i as int, lit@, k as int);
                }
            }
            return None;
        }
        k += 1;
    }
    proof {
        assert(s@.subrange(i as int, i + lit@.len()) =~= lit@);
    }
    Some(i + lit.len())
}

/// Expects a single byte at `i`.
pub(crate) fn parse_byte(s: &Vec<u8>, i: usize, b: u8) -> (r: Option<usize>)
    requires
        i <= s@.len(),
    ensures
        r matches Some(j) ==> j as int == i + 1 && j <= s@.len(),
        (i < s@.len() && s@[i as int] == b) ==> r == Some((i + 1) as usize),
        r matches Some(j) ==> s@[i as int] == b,
{
    if i < s.len() {
        if s[i] == b {
            return Some(i + 1);
        }
    }
    None
}

proof fn lemma_dec_list_decomp(vals: Seq<u64>, k: int)
    requires
        0 <= k < vals.len(),
    ensures
        vals.len() - k > 1 ==> dec_list(vals.skip(k)) == dec_bytes(vals[k] as nat) + seq![44u8]
            + dec_list(vals.skip(k + 1)),
        vals.len() - k == 1 ==> dec_list(vals.skip(k)) == dec_bytes(vals[k] as nat),
{
    let rest = vals.skip(k);
    assert(rest.len() == vals.len() - k);
    assert(rest[0] == vals[k]);
    if vals.len() - k > 1 {
        assert(rest.drop_first() =~= vals.skip(k + 1));
    }
}

proof fn lemma_digest_list_decomp(items: Seq<Seq<u8>>, k: int)
    requires
        0 <= k < items.len(),
    ensures
        items.len() - k > 1 ==> digest_list(items.skip(k)) == digest_json(items[k]) + seq![44u8]
            + digest_list(items.skip(k + 1)),
        items.len() - k == 1 ==> digest_list(items.skip(k)) == digest_json(items[k]),
{
    let rest = items.skip(k);
    assert(rest.len() == items.len() - k);
    assert(rest[0] == items[k]);
    if items.len() - k > 1 {
        assert(rest.drop_first() =~= items.skip(k + 1));
    }
}

/// The hypothesis under which one digest parse is pinned down.
spec fn digest_hyp(s: Seq<u8>, gi: int, d: Seq<u8>) -> bool {
    &&& d.len() == 32
    &&& matches_at(s, gi, digest_json(d))
}

/// What one digest-parsing step expects of the input under a hypothesis `d`.
spec fn digest_step_ok(s: Seq<u8>, gi: int, pos: int, k: int, arr: Seq<u8>, d: Seq<u8>) -> bool {
    let md = d.map_values(|b: u8| b as u64);
    &&& matches_at(s, pos, dec_list(md.skip(k)) + seq![93u8])
    &&& pos + dec_list(md.skip(k)).len() + 1 == gi + digest_json(d).len()
    &&& forall|j: int| 0 <= j < k ==> arr[j] == d[j]
}

/// Parses one digest: `[` then 32 decimal bytes, comma-separated, then `]`.
fn parse_digest(s: &Vec<u8>, i: usize) -> (r: Option<([u8; 32], usize)>)
    requires
        i <= s@.len(),
    ensures
        r matches Some(p) ==> i <= p.1 <= s@.len(),
        forall|d: Seq<u8>| #[trigger]
            digest_hyp(s@, i as int, d) ==> (r matches Some(p) && p.0@ == d && p.1 as int == i
                + digest_json(d).len()),
{
    let ghost gi = i as int;
    let r0 = parse_byte(s, i, 91);
    let mut pos: usize;
    match r0 {
        Some(j) => {
            pos = j;
        },
        None => {
            proof {
                assert forall|d: Seq<u8>| #[trigger] digest_hyp(s@, gi, d) implies false by {
                    let md = d.map_values(|b: u8| b as u64);
                    assert(digest_json(d) =~= seq![91u8] + (dec_list(md) + seq![93u8]));
                    lemma_matches_split(s@, gi, seq![91u8], dec_list(md) + seq![93u8]);
                    lemma_matches_byte(s@, gi, seq![91u8], 0);
                }
            }
            return None;
        },
    }
    let mut arr: [u8; 32] = [0u8; 32];
    proof {
        assert forall|d: Seq<u8>| #[trigger] digest_hyp(s@, gi, d) implies digest_step_ok(
            s@,
            gi,
            pos as int,
            0,
            arr@,
            d,
        ) by {
            let md = d.map_values(|b: u8| b as u64);
            assert(digest_json(d) =~= seq![91u8] + (dec_list(md) + seq![93u8]));
            lemma_matches_split(s@, gi, seq![91u8], dec_list(md) + seq![93u8]);
            assert(md.skip(0) =~= md);
        }
    }
    let mut k: usize = 0;
    while k < 32
        invariant
            k <= 32,
            gi == i as int,
            i < pos <= s@.len(),
            forall|d: Seq<u8>| #[trigger]
                digest_hyp(s@, gi, d) ==> digest_step_ok(s@, gi, pos as int, k as int, arr@, d),
        decreases 32 - k,
    {
        let ghost prev_pos = pos as int;
        let ghost prev_arr = arr@;
        proof {
            assert forall|d: Seq<u8>| #[trigger] digest_hyp(s@, gi, d) implies (
            spells_u64(s@, prev_pos, d.map_values(|b: u8| b as u64)[k as int]) && (k < 31
                ==> matches_at(
                s@,
                prev_pos + dec_bytes(d.map_values(|b: u8| b as u64)[k as int] as nat).len(),
                seq![44u8] + (dec_list(d.map_values(|b: u8| b as u64).skip(k + 1)) + seq![93u8]),
            ))) by {
                let md = d.map_values(|b: u8| b as u64);
                assert(digest_step_ok(s@, gi, prev_pos, k as int, arr@, d));
                lemma_dec_list_decomp(md, k as int);
                if k < 31 {
                    assert(dec_list(md.skip(k as int)) + seq![93u8] =~= dec_bytes(
                        md[k as int] as nat,
                    ) + (seq![44u8] + (dec_list(md.skip(k + 1)) + seq![93u8])));
                    lemma_matches_split(
                        s@,
                        prev_pos,
                        dec_bytes(md[k as int] as nat),
                        seq![44u8] + (dec_list(md.skip(k + 1)) + seq![93u8]),
                    );
                    lemma_matches_byte(
                        s@,
                        prev_pos + dec_bytes(md[k as int] as nat).len(),
                        seq![44u8] + (dec_list(md.skip(k + 1)) + seq![93u8]),
                        0,
                    );
                } else {
                    assert(dec_list(md.skip(k as int)) + seq![93u8] =~= dec_bytes(
                        md[k as int] as nat,
                    ) + seq![93u8]);
                    lemma_matches_split(s@, prev_pos, dec_bytes(md[k as int] as nat), seq![93u8]);
                    lemma_matches_byte(
                        s@,
                        prev_pos + dec_bytes(md[k as int] as nat).len(),
                        seq![93u8],
                        0,
                    );
                }
            }
        }
        let rnum = parse_u64(s, pos);
        let v: u64;
        match rnum {
            Some(p) => {
                v = p.0;
                pos = p.1;
            },
            None => {
                proof {
                    assert forall|d: Seq<u8>| #[trigger] digest_hyp(s@, gi, d) implies false by {
                        assert(spells_u64(s@, prev_pos, d.map_values(|b: u8| b as u64)[k as int]));
                    }
                }
                return None;
            },
        }
        if v > 255 {
            proof {
                assert forall|d: Seq<u8>| #[trigger] digest_hyp(s@, gi, d) implies false by {
                    let md = d.map_values(|b: u8| b as u64);
                    assert(spells_u64(s@, prev_pos, md[k as int]));
                    assert(v == md[k as int]);
                    assert(md[k as int] == d[k as int] as u64);
                }
            }
            return None;
        }
        arr[k] = v as u8;
        if k < 31 {
            let rc = parse_byte(s, pos, 44);
            match rc {
                Some(j) => {
                    pos = j;
                },
                None => {
                    proof {
                        assert forall|d: Seq<u8>| #[trigger] digest_hyp(s@, gi, d) implies false by {
                            let md = d.map_values(|b: u8| b as u64);
                            assert(spells_u64(s@, prev_pos, md[k as int]));
                            lemma_matches_byte(
                                s@,
                                prev_pos + dec_bytes(md[k as int] as nat).len(),
                                seq![44u8] + (dec_list(md.skip(k + 1)) + seq![93u8]),
                                0,
                            );
                            assert(s@[pos as int] == 44);
                        }
                    }
                    return None;
                },
            }
        }
        proof {
            assert forall|d: Seq<u8>| #[trigger] digest_hyp(s@, gi, d) implies digest_step_ok(
                s@,
                gi,
                pos as int,
                k + 1,
                arr@,
                d,
            ) by {
                let md = d.map_values(|b: u8| b as u64);
                assert(digest_step_ok(s@, gi, prev_pos, k as int, prev_arr, d));
                lemma_dec_list_decomp(md, k as int);
                assert(spells_u64(s@, prev_pos, md[k as int]));
                assert(v == md[k as int]);
                assert(md[k as int] == d[k as int] as u64);
                assert(arr@[k as int] == d[k as int]);
                assert(forall|j: int| 0 <= j < k ==> arr@[j] == prev_arr[j]);
                if k < 31 {
                    lemma_matches_split(
                        s@,
                        prev_pos + dec_bytes(md[k as int] as nat).len(),
                        seq![44u8],
                        dec_list(md.skip(k + 1)) + seq![93u8],
                    );
                } else {
                    assert(md.skip(k + 1) =~= Seq::<u64>::empty());
                    assert(dec_list(Seq::<u64>::empty()) == Seq::<u8>::empty());
                    assert(dec_list(md.skip(k + 1)) + seq![93u8] =~= seq![93u8]);
                    assert(dec_list(md.skip(k as int)) + seq![93u8] =~= dec_bytes(
                        md[k as int] as nat,
                    ) + seq![93u8]);
                    lemma_matches_split(s@, prev_pos, dec_bytes(md[k as int] as nat), seq![93u8]);
                }
            }
        }
        k += 1;
    }
    let rb = parse_byte(s, pos, 93);
    let endpos: usize;
    match rb {
        Some(j) => {
            endpos = j;
        },
        None => {
            proof {
                assert forall|d: Seq<u8>| #[trigger] digest_hyp(s@, gi, d) implies false by {
                    let md = d.map_values(|b: u8| b as u64);
                    assert(digest_step_ok(s@, gi, pos as int, 32, arr@, d));
                    assert(md.skip(32) =~= Seq::<u64>::empty());
                    assert(dec_list(md.skip(32)) + seq![93u8] =~= seq![93u8]);
                    lemma_matches_byte(s@, pos as int, seq![93u8], 0);
                }
            }
            return None;
        },
    }
    proof {
        assert forall|d: Seq<u8>| #[trigger] digest_hyp(s@, gi, d) implies (arr@ == d
            && endpos as int == gi + digest_json(d).len()) by {
            let md = d.map_values(|b: u8| b as u64);
            assert(digest_step_ok(s@, gi, pos as int, 32, arr@, d));
            assert(md.skip(32) =~= Seq::<u64>::empty());
            assert(dec_list(md.skip(32)) + seq![93u8] =~= seq![93u8]);
            assert(arr@ =~= d);
        }
    }
    Some((arr, endpos))
}

/// What one item-list step expects of the input under a hypothesis `its`.
spec fn items_step_ok(s: Seq<u8>, gi: int, pos: int, k: int, got: Seq<[u8; 32]>, its: Seq<Seq<u8>>) -> bool {
    &&& matches_at(s, pos, digest_list(its.skip(k)))
    &&& pos + digest_list(its.skip(k)).len() == gi + digest_list(its).len()
    &&& got.len() == k
    &&& forall|j: int| 0 <= j < k ==> got[j]@ == its[j]
}

/// The hypothesis under which the item-list parse is pinned down.
spec fn items_hyp(s: Seq<u8>, gi: int, its: Seq<Seq<u8>>) -> bool {
    &&& its.len() == 256
    &&& forall|k: int| 0 <= k < 256 ==> its[k].len() == 32
    &&& matches_at(s, gi, digest_list(its))
}

/// Parses the 256 comma-separated digests of the items column.
fn parse_items(s: &Vec<u8>, i: usize) -> (r: Option<(Vec<[u8; 32]>, usize)>)
    requires
        i <= s@.len(),
    ensures
        r matches Some(p) ==> i <= p.1 <= s@.len() && p.0@.len() == 256,
        forall|its: Seq<Seq<u8>>| #[trigger]
            items_hyp(s@, i as int, its) ==> (r matches Some(p) && digests_of(p.0@) == its
                && p.1 as int == i + digest_list(its).len()),
{
    let ghost gi = i as int;
    let mut out: Vec<[u8; 32]> = Vec::new();
    let mut pos: usize = i;
    proof {
        assert forall|its: Seq<Seq<u8>>| #[trigger]
            items_hyp(s@, gi, its) implies items_step_ok(s@, gi, pos as int, 0, out@, its) by {
            assert(its.skip(0) =~= its);
        }
    }
    let mut k: usize = 0;
    while k < 256
        invariant
            k <= 256,
            gi == i as int,
            i <= pos <= s@.len(),
            out@.len() == k,
            forall|its: Seq<Seq<u8>>| #[trigger]
                items_hyp(s@, gi, its) ==> items_step_ok(s@, gi, pos as int, k as int, out@, its),
        decreases 256 - k,
    {
        let ghost prev_pos = pos as int;
        let ghost prev_out = out@;
        proof {
            assert forall|its: Seq<Seq<u8>>| #[trigger]
                items_hyp(s@, gi, its) implies (digest_hyp(s@, prev_pos, its[k as int]) && (k < 255
                ==> matches_at(
                s@,
                prev_pos + digest_json(its[k as int]).len(),
                seq![44u8] + digest_list(its.skip(k + 1)),
            ))) by {
                assert(items_step_ok(s@, gi, prev_pos, k as int, out@, its));
                lemma_digest_list_decomp(its, k as int);
                if k < 255 {
                    assert(digest_list(its.skip(k as int)) =~= digest_json(its[k as int]) + (
                    seq![44u8] + digest_list(its.skip(k + 1))));
                    lemma_matches_split(
                        s@,
                        prev_pos,
                        digest_json(its[k as int]),
                        seq![44u8] + digest_list(its.skip(k + 1)),
                    );
                } else {
                    lemma_matches_split(s@, prev_pos, digest_json(its[k as int]), Seq::empty());
                    assert(digest_list(its.skip(k as int)) == digest_json(its[k as int]));
                }
            }
        }
        let rd = parse_digest(s, pos);
        let d: [u8; 32];
        match rd {
            Some(p) => {
                d = p.0;
                pos = p.1;
            },
            None => {
                proof {
                    assert forall|its: Seq<Seq<u8>>| #[trigger]
                        items_hyp(s@, gi, its) implies false by {
                        assert(digest_hyp(s@, prev_pos, its[k as int]));
                    }
                }
                return None;
            },
        }
        out.push(d);
        if k < 255 {
            let rc = parse_byte(s, pos, 44);
            match rc {
                Some(j) => {
                    pos = j;
                },
                None => {
                    proof {
                        assert forall|its: Seq<Seq<u8>>| #[trigger]
                            items_hyp(s@, gi, its) implies false by {
                            lemma_matches_byte(
                                s@,
                                prev_pos + digest_json(its[k as int]).len(),
                                seq![44u8] + digest_list(its.skip(k + 1)),
                                0,
                            );
                        }
                    }
                    return None;
                },
            }
        }
        proof {
            assert forall|its: Seq<Seq<u8>>| #[trigger]
                items_hyp(s@, gi, its) implies items_step_ok(
                s@,
                gi,
                pos as int,
                k + 1,
                out@,
                its,
            ) by {
                assert(items_step_ok(s@, gi, prev_pos, k as int, prev_out, its));
                lemma_digest_list_decomp(its, k as int);
                assert(d@ == its[k as int]);
                assert(out@[k as int]@ == its[k as int]);
                assert(forall|j: int| 0 <= j < k ==> out@[j] == prev_out[j]);
                if k < 255 {
                    lemma_matches_split(
                        s@,
                        prev_pos + digest_json(its[k as int]).len(),
                        seq![44u8],
                        digest_list(its.skip(k + 1)),
                    );
                } else {
                    assert(its.skip(k + 1) =~= Seq::<Seq<u8>>::empty());
                    assert(digest_list(its.skip(k + 1)) == Seq::<u8>::empty());
                    assert(s@.subrange(pos as int, pos as int) =~= Seq::<u8>::empty());
                }
            }
        }
        k += 1;
    }
    proof {
        assert forall|its: Seq<Seq<u8>>| #[trigger]
            items_hyp(s@, gi, its) implies (digests_of(out@) == its && pos as int == gi
            + digest_list(its).len()) by {
            assert(items_step_ok(s@, gi, pos as int, 256, out@, its));
            assert(its.skip(256) =~= Seq::<Seq<u8>>::empty());
            assert(digests_of(out@) =~= its);
        }
    }
    Some((out, pos))
}

/// What one value-list step expects of the input under a hypothesis `vals`.
spec fn values_step_ok(s: Seq<u8>, gi: int, pos: int, k: int, got: Seq<u64>, vals: Seq<u64>) -> bool {
    &&& matches_at(s, pos, dec_list(vals.skip(k)))
    &&& pos + dec_list(vals.skip(k)).len() == gi + dec_list(vals).len()
    &&& got.len() == k
    &&& forall|j: int| 0 <= j < k ==> got[j] == vals[j]
}

/// The hypothesis under which the value-list parse is pinned down: the list
/// is at `gi` and the byte after it, if any, is not a digit.
spec fn values_hyp(s: Seq<u8>, gi: int, vals: Seq<u64>) -> bool {
    &&& vals.len() == 256
    &&& matches_at(s, gi, dec_list(vals))
    &&& (gi + dec_list(vals).len() == s.len() || !is_digit(s[gi + dec_list(vals).len() as int]))
}

/// Parses the 256 comma-separated decimal values.
fn parse_values(s: &Vec<u8>, i: usize) -> (r: Option<(Vec<u64>, usize)>)
    requires
        i <= s@.len(),
    ensures
        r matches Some(p) ==> i <= p.1 <= s@.len() && p.0@.len() == 256,
        forall|vals: Seq<u64>| #[trigger]
            values_hyp(s@, i as int, vals) ==> (r matches Some(p) && p.0@ == vals && p.1 as int == i
                + dec_list(vals).len()),
{
    let ghost gi = i as int;
    let mut out: Vec<u64> = Vec::new();
    let mut pos: usize = i;
    proof {
        assert forall|vals: Seq<u64>| #[trigger]
            values_hyp(s@, gi, vals) implies values_step_ok(s@, gi, pos as int, 0, out@, vals) by {
            assert(vals.skip(0) =~= vals);
        }
    }
    let mut k: usize = 0;
    while k < 256
        invariant
            k <= 256,
            gi == i as int,
            i <= pos <= s@.len(),
            out@.len() == k,
            forall|vals: Seq<u64>| #[trigger]
                values_hyp(s@, gi, vals) ==> values_step_ok(s@, gi, pos as int, k as int, out@, vals),
        decreases 256 - k,
    {
        let ghost prev_pos = pos as int;
        let ghost prev_out = out@;
        proof {
            assert forall|vals: Seq<u64>| #[trigger]
                values_hyp(s@, gi, vals) implies (spells_u64(s@, prev_pos, vals[k as int]) && (k
                < 255 ==> matches_at(
                s@,
                prev_pos + dec_bytes(vals[k as int] as nat).len(),
                seq![44u8] + dec_list(vals.skip(k + 1)),
            ))) by {
                assert(values_step_ok(s@, gi, prev_pos, k as int, out@, vals));
                lemma_dec_list_decomp(vals, k as int);
                if k < 255 {
                    assert(dec_list(vals.skip(k as int)) =~= dec_bytes(vals[k as int] as nat) + (
                    seq![44u8] + dec_list(vals.skip(k + 1))));
                    lemma_matches_split(
                        s@,
                        prev_pos,
                        dec_bytes(vals[k as int] as nat),
                        seq![44u8] + dec_list(vals.skip(k + 1)),
                    );
                    lemma_matches_byte(
                        s@,
                        prev_pos + dec_bytes(vals[k as int] as nat).len(),
                        seq![44u8] + dec_list(vals.skip(k + 1)),
                        0,
                    );
                } else {
                    // The last value: the byte after the whole list bounds it.
                    assert(dec_list(vals.skip(k as int)) == dec_bytes(vals[k as int] as nat));
                    assert(prev_pos + dec_bytes(vals[k as int] as nat).len() == gi + dec_list(
                        vals,
                    ).len());
                }
            }
        }
        let rnum = parse_u64(s, pos);
        let v: u64;
        match rnum {
            Some(p) => {
                v = p.0;
                pos = p.1;
            },
            None => {
                proof {
                    assert forall|vals: Seq<u64>| #[trigger]
                        values_hyp(s@, gi, vals) implies false by {
                        assert(spells_u64(s@, prev_pos, vals[k as int]));
                    }
                }
                return None;
            },
        }
        out.push(v);
        if k < 255 {
            let rc = parse_byte(s, pos, 44);
            match rc {
                Some(j) => {
                    pos = j;
                },
                None => {
                    proof {
                        assert forall|vals: Seq<u64>| #[trigger]
                            values_hyp(s@, gi, vals) implies false by {
                            assert(spells_u64(s@, prev_pos, vals[k as int]));
                            lemma_matches_byte(
                                s@,
                                prev_pos + dec_bytes(vals[k as int] as nat).len(),
                                seq![44u8] + dec_list(vals.skip(k + 1)),
                                0,
                            );
                            assert(s@[pos as int] == 44);
                        }
                    }
                    return None;
                },
            }
        }
        proof {
            assert forall|vals: Seq<u64>| #[trigger]
                values_hyp(s@, gi, vals) implies values_step_ok(
                s@,
                gi,
                pos as int,
                k + 1,
                out@,
                vals,
            ) by {
                assert(values_step_ok(s@, gi, prev_pos, k as int, prev_out, vals));
                lemma_dec_list_decomp(vals, k as int);
                assert(spells_u64(s@, prev_pos, vals[k as int]));
                assert(v == vals[k as int]);
                assert(forall|j: int| 0 <= j < k ==> out@[j] == prev_out[j]);
                if k < 255 {
                    lemma_matches_split(
                        s@,
                        prev_pos + dec_bytes(vals[k as int] as nat).len(),
                        seq![44u8],
                        dec_list(vals.skip(k + 1)),
                    );
                } else {
                    assert(vals.skip(k + 1) =~= Seq::<u64>::empty());
                    assert(dec_list(vals.skip(k + 1)) =~= Seq::<u8>::empty());
                    assert(s@.subrange(pos as int, pos as int) =~= Seq::<u8>::empty());
                }
            }
        }
        k += 1;
    }
    proof {
        assert forall|vals: Seq<u64>| #[trigger]
            values_hyp(s@, gi, vals) implies (out@ == vals && pos as int == gi + dec_list(
            vals,
        ).len()) by {
            assert(values_step_ok(s@, gi, pos as int, 256, out@, vals));
            assert(vals.skip(256) =~= Seq::<u64>::empty());
            assert(out@ =~= vals);
        }
    }
    Some((out, pos))
}

// ------------------------------------------------------------ deserializer

/// Recomputes the digest of every value and compares it with the stored slot.
fn check_consistent(items: &Vec<[u8; 32]>, values: &Vec<u64>) -> (r: bool)
    requires
        items@.len() == 256,
        values@.len() == 256,
    ensures
        r <==> (forall|j: int|
            0 <= j < 256 ==> items@[j]@ == crate::hashes::leaf_digest(#[trigger] values@[j])),
{
    let mut k: usize = 0;
    while k < 256
        invariant
            k <= 256,
            items@.len() == 256,
            values@.len() == 256,
            forall|j: int|
                0 <= j < k ==> items@[j]@ == crate::hashes::leaf_digest(#[trigger] values@[j]),
        decreases 256 - k,
    {
        let expect = hash_value(values[k]);
        if !digest_eq(&items[k], &expect) {
            return false;
        }
        k += 1;
    }
    true
}


/// Parses serialized leaves back, accepting exactly the serializer's output:
/// the parse is re-serialized and compared, and the digest of every value is
/// recomputed and compared, so a `Some` is always a consistent table whose
/// serialization is the input.
#[verifier::rlimit(100)]
pub fn deserialize_leaves(bytes: &Vec<u8>) -> (r: Option<Leaves>)
    ensures
        r matches Some(l) ==> leaves_consistent(l@) && bytes@ == ser_spec(l@),
        forall|m: LeavesModel|
            (leaves_consistent(m) && bytes@ == #[trigger] ser_spec(m)) ==> (r matches Some(l)
                && l@ == m),
{
    proof {
        assert forall|m: LeavesModel| leaves_consistent(m) && bytes@ == #[trigger] ser_spec(m)
            implies (matches_at(bytes@, 0, json_head()) && items_hyp(
            bytes@,
            json_head().len() as int,
            m.items,
        ) && matches_at(
            bytes@,
            json_head().len() + digest_list(m.items).len() as int,
            json_mid(),
        ) && values_hyp(
            bytes@,
            json_head().len() + digest_list(m.items).len() + json_mid().len() as int,
            m.values,
        ) && matches_at(
            bytes@,
            json_head().len() + digest_list(m.items).len() + json_mid().len() + dec_list(
                m.values,
            ).len() as int,
            json_tail(),
        ) && ser_spec(m).len() == bytes@.len()) by {
            let a = json_head();
            let b = digest_list(m.items);
            let c = json_mid();
            let d = dec_list(m.values);
            let e = json_tail();
            assert(matches_at(bytes@, 0, bytes@)) by {
                assert(bytes@.subrange(0, bytes@.len() as int) =~= bytes@);
            }
            assert(bytes@ =~= a + (b + (c + (d + e))));
            lemma_matches_split(bytes@, 0, a, b + (c + (d + e)));
            lemma_matches_split(bytes@, a.len() as int, b, c + (d + e));
            lemma_matches_split(bytes@, a.len() + b.len() as int, c, d + e);
            lemma_matches_split(bytes@, a.len() + b.len() + c.len() as int, d, e);
            lemma_matches_byte(bytes@, a.len() + b.len() + c.len() + d.len() as int, e, 0);
        }
    }
    let head = json_head_bytes();
    let r0 = parse_lit(bytes, 0, &head);
    let mut pos: usize;
    match r0 {
        Some(j) => {
            pos = j;
        },
        None => {
            return None;
        },
    }
    let ritems = parse_items(bytes, pos);
    let items: Vec<[u8; 32]>;
    match ritems {
        Some(p) => {
            items = p.0;
            pos = p.1;
        },
        None => {
            return None;
        },
    }
    let mid = json_mid_bytes();
    let r1 = parse_lit(bytes, pos, &mid);
    match r1 {
        Some(j) => {
            pos = j;
        },
        None => {
            return None;
        },
    }
    let rvals = parse_values(bytes, pos);
    let values: Vec<u64>;
    match rvals {
        Some(p) => {
            values = p.0;
            pos = p.1;
        },
        None => {
            return None;
        },
    }
    let tail = json_tail_bytes();
    let r2 = parse_lit(bytes, pos, &tail);
    match r2 {
        Some(j) => {
            pos = j;
        },
        None => {
            return None;
        },
    }
    if pos != bytes.len() {
        return None;
    }
    // Recompute the digest of every value: a `Some` result is consistent.
    let ok = check_consistent(&items, &values);
    proof {
        assert(digests_of(items@) == items@.map_values(|d: [u8; 32]| d@));
        assert forall|m: LeavesModel|
            leaves_consistent(m) && bytes@ == #[trigger] ser_spec(m) implies ok by {
            assert forall|j: int|
                0 <= j < 256 implies items@[j]@ == crate::hashes::leaf_digest(
                #[trigger] values@[j],
            ) by {
                assert(items@.map_values(|d: [u8; 32]| d@)[j] == items@[j]@);
                assert(items@[j]@ == m.items[j]);
                assert(m.items[j] == crate::hashes::leaf_digest(m.values[j]));
            }
        }
    }
    if !ok {
        return None;
    }
    let l = Leaves::from_parts(items, values);
    // Re-serialize and compare: a `Some` result serializes to the input.
    let again = serialize_leaves(&l);
    if !bytes_eq(&again, bytes) {
        return None;
    }
    proof {
        assert(leaves_consistent(l@));
        assert forall|m: LeavesModel|
            leaves_consistent(m) && bytes@ == #[trigger] ser_spec(m) implies l@ == m by {
            assert(digests_of(items@) == m.items);
            assert(values@ == m.values);
        }
    }
    Some(l)
}

} // verus!
