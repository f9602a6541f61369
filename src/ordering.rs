//! How the order of encoded slots follows the order of the values.
use vstd::prelude::*;
use crate::array::{Array, PrimitiveArray, bool_keys, binary_view, utf8_view};
use vstd::arithmetic::power2::{lemma2_to64, lemma2_to64_rest};
use crate::list::{enc_slot, enc_slots, slot_bytes, slot_len, lemma_enc_slot_len};
use crate::fixed::{be_bytes, fixed_item, fixed_items, lemma_be_len, lemma_fixed_items_len};
use crate::variable::{var_blocks, var_item, var_items, zeros};
use crate::order::{lemma_differs_append, lemma_differs_prepend, lemma_prefix_prepend, 
    bytes_lt, complement, differs_below, is_strict_prefix, lemma_complement_differs,
    lemma_complement_prefix, lemma_complement_twice,
};

verus! {

/// In either direction, the bytes written for a slot are exactly as many as
/// `encode_len` reports for it, at any depth of nesting.
pub proof fn lemma_written_len_agrees(v: Option<Array>, descending: bool)
    ensures
        slot_bytes(v, descending).len() == slot_len(v),
{
    lemma_enc_slot_len(v);
}

/// In ascending direction a null slot sorts before an empty list, and an
/// empty list before a non-empty one.
pub proof fn lemma_null_empty_non_empty(empty: Array, non_empty: Array)
    requires
        empty.spec_len() == 0,
        non_empty.spec_len() > 0,
    ensures
        bytes_lt(slot_bytes(None, false), slot_bytes(Some(empty), false)),
        bytes_lt(slot_bytes(Some(empty), false), slot_bytes(Some(non_empty), false)),
{
    let (n, e, f) = (enc_slot(None), enc_slot(Some(empty)), enc_slot(Some(non_empty)));
    assert(n.take(0) =~= e.take(0));
    assert(n[0] < e[0]);
    assert(differs_below(n, e));
    assert(e.take(0) =~= f.take(0));
    assert(e[0] < f[0]);
    assert(differs_below(e, f));
}

/// Descending direction reverses the comparison of two slots whose
/// ascending encodings are not one a strict prefix of the other: one sorts
/// before the other descending exactly when it sorts after it ascending,
/// and they are equal in one direction exactly when in the other.
pub proof fn lemma_descending_reverses(a: Option<Array>, b: Option<Array>)
    requires
        !is_strict_prefix(enc_slot(a), enc_slot(b)),
        !is_strict_prefix(enc_slot(b), enc_slot(a)),
    ensures
        bytes_lt(slot_bytes(a, true), slot_bytes(b, true)) <==> bytes_lt(
            slot_bytes(b, false),
            slot_bytes(a, false),
        ),
        (slot_bytes(a, true) == slot_bytes(b, true)) <==> (slot_bytes(a, false) == slot_bytes(
            b,
            false,
        )),
{
    let (x, y) = (enc_slot(a), enc_slot(b));
    lemma_complement_twice(x);
    lemma_complement_twice(y);
    lemma_complement_prefix(x, y);
    lemma_complement_prefix(y, x);
    if differs_below(complement(x), complement(y)) {
        lemma_complement_differs(complement(x), complement(y));
    }
    if differs_below(y, x) {
        lemma_complement_differs(y, x);
    }
}

/// `256` to the power `w`.
pub open spec fn pow256(w: nat) -> nat
    decreases w,
{
    if w == 0 {
        1
    } else {
        256 * pow256((w - 1) as nat)
    }
}

/// Order of optional keys: null first, then by value.
pub open spec fn key_lt(a: Option<nat>, b: Option<nat>) -> bool {
    match (a, b) {
        (None, Some(_)) => true,
        (Some(x), Some(y)) => x < y,
        _ => false,
    }
}

/// Every key fits in `w` bytes.
pub open spec fn keys_fit(s: Seq<Option<nat>>, w: nat) -> bool {
    forall|i: int|
        0 <= i < s.len() ==> match #[trigger] s[i] {
            Some(k) => k < pow256(w),
            None => true,
        }
}

/// The first position where two sequences of one length differ.
proof fn lemma_first_diff(x: Seq<u8>, y: Seq<u8>) -> (j: int)
    requires
        x.len() == y.len(),
        x != y,
    ensures
        0 <= j < x.len(),
        x.take(j) == y.take(j),
        x[j] != y[j],
    decreases x.len(),
{
    if x.len() == 0 {
        assert(x =~= y);
        0
    } else if x.drop_last() == y.drop_last() {
        let j = x.len() - 1;
        assert(x.take(j) =~= x.drop_last());
        assert(y.take(j) =~= y.drop_last());
        if x[j] == y[j] {
            assert(x =~= y.drop_last().push(y[j]));
            assert(y =~= y.drop_last().push(y[j]));
        }
        j
    } else {
        let j = lemma_first_diff(x.drop_last(), y.drop_last());
        assert(x.take(j) =~= x.drop_last().take(j));
        assert(y.take(j) =~= y.drop_last().take(j));
        j
    }
}

/// Big-endian digits order as the numbers they spell.
pub proof fn lemma_be_lt(k1: nat, k2: nat, w: nat)
    requires
        k1 < k2 < pow256(w),
    ensures
        differs_below(be_bytes(k1, w), be_bytes(k2, w)),
    decreases w,
{
    let p = pow256((w - 1) as nat);
    let (q1, q2) = (k1 / 256, k2 / 256);
    assert(q2 < p) by (nonlinear_arith)
        requires
            k2 < 256 * p,
            q2 == k2 / 256,
    ;
    assert(q1 <= q2) by (nonlinear_arith)
        requires
            k1 < k2,
            q1 == k1 / 256,
            q2 == k2 / 256,
    ;
    let (r1, r2) = ((k1 % 256) as u8, (k2 % 256) as u8);
    lemma_be_len(q1, (w - 1) as nat);
    lemma_be_len(q2, (w - 1) as nat);
    assert(be_bytes(k1, w) =~= be_bytes(q1, (w - 1) as nat) + seq![r1]);
    assert(be_bytes(k2, w) =~= be_bytes(q2, (w - 1) as nat) + seq![r2]);
    if q1 < q2 {
        lemma_be_lt(q1, q2, (w - 1) as nat);
        lemma_differs_append(be_bytes(q1, (w - 1) as nat), be_bytes(q2, (w - 1) as nat), seq![r1], seq![r2]);
    } else {
        assert(r1 < r2);
        let i = w - 1;
        assert(be_bytes(k1, w).take(i) =~= be_bytes(k2, w).take(i));
        assert(be_bytes(k1, w)[i] == r1 && be_bytes(k2, w)[i] == r2);
    }
}

/// Fixed-width encodings of two keys differ as the keys are ordered.
pub proof fn lemma_fixed_item_lt(a: Option<nat>, b: Option<nat>, w: nat)
    requires
        key_lt(a, b),
        match b {
            Some(k) => k < pow256(w),
            None => true,
        },
    ensures
        differs_below(fixed_item(a, w), fixed_item(b, w)),
{
    let (x, y) = (fixed_item(a, w), fixed_item(b, w));
    match a {
        None => {
            assert(x.take(0) =~= y.take(0));
            assert(x[0] < y[0]);
        },
        Some(k1) => {
            let k2 = b->0;
            lemma_be_lt(k1, k2, w);
            lemma_differs_prepend(seq![1u8], be_bytes(k1, w), be_bytes(k2, w));
        },
    }
}

/// `s` sorts before `t` at the first position where they differ.
pub open spec fn seq_lt_at<E>(s: Seq<E>, t: Seq<E>, lt: spec_fn(E, E) -> bool) -> bool {
    exists|i: int|
        #![trigger s[i], t[i]]
        0 <= i < s.len() && i < t.len() && s.take(i) == t.take(i) && lt(s[i], t[i])
}

/// `s` is a strict prefix of `t`.
pub open spec fn is_seq_prefix<E>(s: Seq<E>, t: Seq<E>) -> bool {
    s.len() < t.len() && t.take(s.len() as int) == s
}

/// Lexicographic order of sequences of items under an order on items; a
/// strict prefix sorts first.
pub open spec fn seq_lt<E>(s: Seq<E>, t: Seq<E>, lt: spec_fn(E, E) -> bool) -> bool {
    seq_lt_at(s, t, lt) || is_seq_prefix(s, t)
}

proof fn lemma_fixed_items_one(x: Option<nat>, w: nat)
    ensures
        fixed_items(seq![x], w) == fixed_item(x, w),
{
    assert(seq![x].drop_last() =~= Seq::<Option<nat>>::empty());
    assert(fixed_items(Seq::<Option<nat>>::empty(), w) + fixed_item(x, w) =~= fixed_item(x, w));
}

pub proof fn lemma_fixed_items_concat(a: Seq<Option<nat>>, b: Seq<Option<nat>>, w: nat)
    ensures
        fixed_items(a + b, w) == fixed_items(a, w) + fixed_items(b, w),
    decreases b.len(),
{
    if b.len() == 0 {
        assert(a + b =~= a);
        assert(fixed_items(a, w) + fixed_items(b, w) =~= fixed_items(a, w));
    } else {
        assert((a + b).drop_last() =~= a + b.drop_last());
        lemma_fixed_items_concat(a, b.drop_last(), w);
        assert(fixed_items(a + b, w) =~= fixed_items(a, w) + fixed_items(b, w));
    }
}

/// Fixed-width encodings of key sequences order as the sequences do.
pub proof fn lemma_fixed_items_lt(s: Seq<Option<nat>>, t: Seq<Option<nat>>, w: nat)
    requires
        seq_lt(s, t, |a: Option<nat>, b: Option<nat>| key_lt(a, b)),
        keys_fit(t, w),
    ensures
        bytes_lt(fixed_items(s, w), fixed_items(t, w)),
        seq_lt_at(s, t, |a: Option<nat>, b: Option<nat>| key_lt(a, b)) ==> differs_below(
            fixed_items(s, w),
            fixed_items(t, w),
        ),
{
    if exists|i: int|
        #![trigger s[i], t[i]]
        0 <= i < s.len() && i < t.len() && s.take(i) == t.take(i) && key_lt(s[i], t[i]) {
        let i = choose|i: int|
            #![trigger s[i], t[i]]
            0 <= i < s.len() && i < t.len() && s.take(i) == t.take(i) && key_lt(s[i], t[i]);
        let p = s.take(i);
        assert(s =~= p + (seq![s[i]] + s.skip(i + 1)));
        assert(t =~= p + (seq![t[i]] + t.skip(i + 1)));
        lemma_fixed_items_concat(p, seq![s[i]] + s.skip(i + 1), w);
        lemma_fixed_items_concat(p, seq![t[i]] + t.skip(i + 1), w);
        lemma_fixed_items_concat(seq![s[i]], s.skip(i + 1), w);
        lemma_fixed_items_concat(seq![t[i]], t.skip(i + 1), w);
        lemma_fixed_items_one(s[i], w);
        lemma_fixed_items_one(t[i], w);
        assert(match t[i] {
            Some(k) => k < pow256(w),
            None => true,
        });
        lemma_fixed_item_lt(s[i], t[i], w);
        lemma_differs_append(fixed_item(s[i], w), fixed_item(t[i], w), fixed_items(s.skip(i + 1), w), fixed_items(t.skip(i + 1), w));
        lemma_differs_prepend(
            fixed_items(p, w),
            fixed_item(s[i], w) + fixed_items(s.skip(i + 1), w),
            fixed_item(t[i], w) + fixed_items(t.skip(i + 1), w),
        );
    } else {
        let rest = t.skip(s.len() as int);
        assert(t =~= s + rest);
        lemma_fixed_items_concat(s, rest, w);
        lemma_fixed_items_len(rest, w);
        assert(rest.len() * (w + 1) > 0) by (nonlinear_arith)
            requires
                rest.len() > 0,
        ;
        assert(fixed_items(t, w).take(fixed_items(s, w).len() as int) =~= fixed_items(s, w));
    }
}

/// The first block of a non-empty string, padded with zeros to 32 bytes.
pub open spec fn block_head(s: Seq<u8>) -> Seq<u8> {
    if s.len() <= 32 {
        s + zeros((32 - s.len()) as nat)
    } else {
        s.take(32)
    }
}

/// The byte after the first block: its length if it is the last, else the
/// continuation marker.
pub open spec fn block_mark(s: Seq<u8>) -> u8 {
    if s.len() <= 32 {
        s.len() as u8
    } else {
        0xFFu8
    }
}

/// Block encodings of non-empty strings differ as the strings are ordered.
pub proof fn lemma_var_blocks_lt(s: Seq<u8>, t: Seq<u8>)
    requires
        s.len() > 0,
        t.len() > 0,
        bytes_lt(s, t),
    ensures
        differs_below(var_blocks(s), var_blocks(t)),
    decreases s.len(),
{
    let (hs, ht) = (block_head(s), block_head(t));
    let (ms, mt) = (block_mark(s), block_mark(t));
    let rs = if s.len() <= 32 { Seq::<u8>::empty() } else { var_blocks(s.skip(32)) };
    let rt = if t.len() <= 32 { Seq::<u8>::empty() } else { var_blocks(t.skip(32)) };
    assert(var_blocks(s) =~= hs + (seq![ms] + rs));
    assert(var_blocks(t) =~= ht + (seq![mt] + rt));
    assert(hs.len() == 32 && ht.len() == 32);
    if exists|i: int|
        #![trigger s[i], t[i]]
        0 <= i < s.len() && i < t.len() && s.take(i) == t.take(i) && s[i] < t[i] && i < 32 {
        let i = choose|i: int|
            #![trigger s[i], t[i]]
            0 <= i < s.len() && i < t.len() && s.take(i) == t.take(i) && s[i] < t[i] && i < 32;
        assert(hs.take(i) =~= s.take(i));
        assert(ht.take(i) =~= t.take(i));
        assert(hs[i] == s[i] && ht[i] == t[i]);
        lemma_differs_append(hs, ht, seq![ms] + rs, seq![mt] + rt);
    } else {
        if s.len() > 32 {
            assert(t.len() > 32);
            assert(hs =~= ht) by {
                if differs_below(s, t) {
                    let i = choose|i: int|
                        #![trigger s[i], t[i]]
                        0 <= i < s.len() && i < t.len() && s.take(i) == t.take(i) && s[i] < t[i];
                    assert(s.take(i).take(32) =~= hs);
                    assert(t.take(i).take(32) =~= ht);
                } else {
                    assert(t.take(s.len() as int).take(32) =~= ht);
                }
            }
            let (s2, t2) = (s.skip(32), t.skip(32));
            assert(bytes_lt(s2, t2)) by {
                if differs_below(s, t) {
                    let i = choose|i: int|
                        #![trigger s[i], t[i]]
                        0 <= i < s.len() && i < t.len() && s.take(i) == t.take(i) && s[i] < t[i];
                    let k = i - 32;
                    assert(s2.take(k) =~= s.take(i).skip(32));
                    assert(t2.take(k) =~= t.take(i).skip(32));
                    assert(s2[k] == s[i] && t2[k] == t[i]);
                } else {
                    assert(t2.take(s2.len() as int) =~= t.take(s.len() as int).skip(32));
                }
            }
            lemma_var_blocks_lt(s2, t2);
            lemma_differs_prepend(hs + seq![0xFFu8], rs, rt);
            assert(var_blocks(s) =~= (hs + seq![0xFFu8]) + rs);
            assert(var_blocks(t) =~= (hs + seq![0xFFu8]) + rt);
        } else {
            assert(is_strict_prefix(s, t));
            if hs == ht {
                assert(ms < mt);
                assert(var_blocks(s).take(32) =~= var_blocks(t).take(32));
                assert(var_blocks(s)[32] == ms && var_blocks(t)[32] == mt);
            } else {
                let j = lemma_first_diff(hs, ht);
                if j < s.len() {
                    assert(hs[j] == s[j]);
                    assert(ht[j] == t.take(s.len() as int)[j]);
                }
                assert(hs[j] == 0);
                lemma_differs_append(hs, ht, seq![ms] + rs, seq![mt] + rt);
            }
        }
    }
}

/// Variable-length encodings of two optional strings differ as the strings
/// are ordered: null first, then by bytes.
pub open spec fn str_lt(a: Option<Seq<u8>>, b: Option<Seq<u8>>) -> bool {
    match (a, b) {
        (None, Some(_)) => true,
        (Some(x), Some(y)) => bytes_lt(x, y),
        _ => false,
    }
}

pub proof fn lemma_var_item_lt(a: Option<Seq<u8>>, b: Option<Seq<u8>>)
    requires
        str_lt(a, b),
    ensures
        differs_below(var_item(a), var_item(b)),
{
    let (x, y) = (var_item(a), var_item(b));
    match a {
        None => {
            assert(x.take(0) =~= y.take(0));
            assert(x[0] < y[0]);
        },
        Some(s) => {
            let t = b->0;
            if s.len() == 0 {
                if differs_below(s, t) {
                    let i = choose|i: int|
                        #![trigger s[i], t[i]]
                        0 <= i < s.len() && i < t.len() && s.take(i) == t.take(i) && s[i] < t[i];
                }
                assert(x.take(0) =~= y.take(0));
                assert(x[0] < y[0]);
            } else {
                assert(t.len() > 0);
                lemma_var_blocks_lt(s, t);
                lemma_differs_prepend(seq![2u8], var_blocks(s), var_blocks(t));
            }
        },
    }
}

proof fn lemma_var_items_one(x: Option<Seq<u8>>)
    ensures
        var_items(seq![x]) == var_item(x),
{
    assert(seq![x].drop_last() =~= Seq::<Option<Seq<u8>>>::empty());
    assert(var_items(Seq::<Option<Seq<u8>>>::empty()) + var_item(x) =~= var_item(x));
}

pub proof fn lemma_var_items_concat(a: Seq<Option<Seq<u8>>>, b: Seq<Option<Seq<u8>>>)
    ensures
        var_items(a + b) == var_items(a) + var_items(b),
    decreases b.len(),
{
    if b.len() == 0 {
        assert(a + b =~= a);
        assert(var_items(a) + var_items(b) =~= var_items(a));
    } else {
        assert((a + b).drop_last() =~= a + b.drop_last());
        lemma_var_items_concat(a, b.drop_last());
        assert(var_items(a + b) =~= var_items(a) + var_items(b));
    }
}

/// Variable-length encodings of string sequences order as the sequences do.
pub proof fn lemma_var_items_lt(s: Seq<Option<Seq<u8>>>, t: Seq<Option<Seq<u8>>>)
    requires
        seq_lt(s, t, |a: Option<Seq<u8>>, b: Option<Seq<u8>>| str_lt(a, b)),
    ensures
        bytes_lt(var_items(s), var_items(t)),
        seq_lt_at(s, t, |a: Option<Seq<u8>>, b: Option<Seq<u8>>| str_lt(a, b)) ==> differs_below(
            var_items(s),
            var_items(t),
        ),
{
    if exists|i: int|
        #![trigger s[i], t[i]]
        0 <= i < s.len() && i < t.len() && s.take(i) == t.take(i) && str_lt(s[i], t[i]) {
        let i = choose|i: int|
            #![trigger s[i], t[i]]
            0 <= i < s.len() && i < t.len() && s.take(i) == t.take(i) && str_lt(s[i], t[i]);
        let p = s.take(i);
        assert(s =~= p + (seq![s[i]] + s.skip(i + 1)));
        assert(t =~= p + (seq![t[i]] + t.skip(i + 1)));
        lemma_var_items_concat(p, seq![s[i]] + s.skip(i + 1));
        lemma_var_items_concat(p, seq![t[i]] + t.skip(i + 1));
        lemma_var_items_concat(seq![s[i]], s.skip(i + 1));
        lemma_var_items_concat(seq![t[i]], t.skip(i + 1));
        lemma_var_items_one(s[i]);
        lemma_var_items_one(t[i]);
        lemma_var_item_lt(s[i], t[i]);
        lemma_differs_append(var_item(s[i]), var_item(t[i]), var_items(s.skip(i + 1)), var_items(t.skip(i + 1)));
        lemma_differs_prepend(
            var_items(p),
            var_item(s[i]) + var_items(s.skip(i + 1)),
            var_item(t[i]) + var_items(t.skip(i + 1)),
        );
    } else {
        let rest = t.skip(s.len() as int);
        assert(t =~= s + rest);
        lemma_var_items_concat(s, rest);
        lemma_var_items_concat(seq![rest[0]], rest.skip(1));
        assert(rest =~= seq![rest[0]] + rest.skip(1));
        lemma_var_items_one(rest[0]);
        crate::variable::lemma_var_item_len(rest[0]);
        assert(var_items(t).take(var_items(s).len() as int) =~= var_items(s));
    }
}

/// Two primitive columns of the same numeric kind.
pub open spec fn same_primitive_kind(p: PrimitiveArray, q: PrimitiveArray) -> bool {
    match (p, q) {
        (PrimitiveArray::Int8(_), PrimitiveArray::Int8(_)) => true,
        (PrimitiveArray::Int16(_), PrimitiveArray::Int16(_)) => true,
        (PrimitiveArray::Int32(_), PrimitiveArray::Int32(_)) => true,
        (PrimitiveArray::Int64(_), PrimitiveArray::Int64(_)) => true,
        (PrimitiveArray::UInt8(_), PrimitiveArray::UInt8(_)) => true,
        (PrimitiveArray::UInt16(_), PrimitiveArray::UInt16(_)) => true,
        (PrimitiveArray::UInt32(_), PrimitiveArray::UInt32(_)) => true,
        (PrimitiveArray::UInt64(_), PrimitiveArray::UInt64(_)) => true,
        _ => false,
    }
}

/// Order of two list slots, element by element: null first, then the empty
/// list, then at the first element where they differ, with a strict prefix
/// first. Leaf elements order as their kind does, a null element first.
///
/// With `at_byte` set, or at an element of a nested list that is not the
/// last of `a`'s, a strict prefix does not decide the order: the encoding
/// has no terminator after a nested list, so what follows such a prefix in
/// `a` would be compared against the rest of the longer element. Lists of
/// the null type that are both non-empty are not ordered: they all encode
/// alike.
pub open spec fn list_lt(a: Option<Array>, b: Option<Array>, at_byte: bool) -> bool
    decreases a,
{
    match (a, b) {
        (None, Some(_)) => true,
        (Some(x), Some(y)) => if x.spec_len() == 0 {
            y.spec_len() > 0
        } else if y.spec_len() == 0 {
            false
        } else {
            match (x, y) {
                (Array::Boolean(p), Array::Boolean(q)) => {
                    ||| seq_lt_at(bool_keys(p@), bool_keys(q@), |u: Option<nat>, v: Option<nat>| key_lt(u, v))
                    ||| !at_byte && is_seq_prefix(bool_keys(p@), bool_keys(q@))
                },
                (Array::Primitive(p), Array::Primitive(q)) => same_primitive_kind(p, q) && {
                    ||| seq_lt_at(p.keys(), q.keys(), |u: Option<nat>, v: Option<nat>| key_lt(u, v))
                    ||| !at_byte && is_seq_prefix(p.keys(), q.keys())
                },
                (Array::Binary(p), Array::Binary(q))
                | (Array::LargeBinary(p), Array::LargeBinary(q)) => {
                    ||| seq_lt_at(
                        binary_view(p@),
                        binary_view(q@),
                        |u: Option<Seq<u8>>, v: Option<Seq<u8>>| str_lt(u, v),
                    )
                    ||| !at_byte && is_seq_prefix(binary_view(p@), binary_view(q@))
                },
                (Array::Utf8(p), Array::Utf8(q)) | (Array::LargeUtf8(p), Array::LargeUtf8(q)) => {
                    ||| seq_lt_at(
                        utf8_view(p@),
                        utf8_view(q@),
                        |u: Option<Seq<u8>>, v: Option<Seq<u8>>| str_lt(u, v),
                    )
                    ||| !at_byte && is_seq_prefix(utf8_view(p@), utf8_view(q@))
                },
                (Array::FixedSizeList(c), Array::FixedSizeList(d))
                | (Array::List(c), Array::List(d))
                | (Array::LargeList(c), Array::LargeList(d)) => {
                    ||| !at_byte && is_seq_prefix(c@, d@)
                    ||| exists|i: int|
                        #![trigger c@[i], d@[i]]
                        0 <= i < c@.len() && i < d@.len() && c@.take(i) == d@.take(i) && list_lt(
                            c@[i],
                            d@[i],
                            at_byte || i + 1 < c@.len(),
                        )
                },
                _ => false,
            }
        },
        _ => false,
    }
}

/// Every key of a primitive column fits in its width.
pub proof fn lemma_primitive_keys_fit(p: PrimitiveArray)
    ensures
        keys_fit(p.keys(), p.spec_width()),
{
    reveal_with_fuel(pow256, 9);
    lemma2_to64();
    lemma2_to64_rest();
    assert(pow256(1) == 0x100);
    assert(pow256(2) == 0x1_0000);
    assert(pow256(4) == 0x1_0000_0000);
    assert(pow256(8) == 0x1_0000_0000_0000_0000);
}

/// Boolean keys fit in one byte.
pub proof fn lemma_bool_keys_fit(b: Seq<Option<bool>>)
    ensures
        keys_fit(bool_keys(b), 1),
{
    reveal_with_fuel(pow256, 2);
}

/// `list_lt` on the elements of two lists of lists.
pub open spec fn children_lt(c: Seq<Option<Array>>, d: Seq<Option<Array>>, at_byte: bool) -> bool
    decreases c,
{
    ||| !at_byte && is_seq_prefix(c, d)
    ||| exists|i: int|
        #![trigger c[i], d[i]]
        0 <= i < c.len() && i < d.len() && c.take(i) == d.take(i) && list_lt(
            c[i],
            d[i],
            at_byte || i + 1 < c.len(),
        )
}

proof fn lemma_enc_slots_one(x: Option<Array>)
    ensures
        enc_slots(seq![x]) == enc_slot(x),
{
    assert(seq![x].drop_last() =~= Seq::<Option<Array>>::empty());
    assert(enc_slots(Seq::<Option<Array>>::empty()) + enc_slot(x) =~= enc_slot(x));
}

pub proof fn lemma_enc_slots_concat(a: Seq<Option<Array>>, b: Seq<Option<Array>>)
    ensures
        enc_slots(a + b) == enc_slots(a) + enc_slots(b),
    decreases b.len(),
{
    if b.len() == 0 {
        assert(a + b =~= a);
        assert(enc_slots(a) + enc_slots(b) =~= enc_slots(a));
    } else {
        assert((a + b).drop_last() =~= a + b.drop_last());
        lemma_enc_slots_concat(a, b.drop_last());
        assert(enc_slots(a + b) =~= enc_slots(a) + enc_slots(b));
    }
}

/// The encodings order as `list_lt` does; with `at_byte` they differ at a
/// byte.
proof fn lemma_list_lt_bytes(a: Option<Array>, b: Option<Array>, at_byte: bool)
    requires
        list_lt(a, b, at_byte),
    ensures
        bytes_lt(enc_slot(a), enc_slot(b)),
        at_byte ==> differs_below(enc_slot(a), enc_slot(b)),
    decreases a,
{
    let (x, y) = (enc_slot(a), enc_slot(b));
    if a is None || a->0.spec_len() == 0 {
        assert(x.take(0) =~= y.take(0));
        assert(x[0] < y[0]);
    } else {
        let (l, r) = (a->0, b->0);
        let (px, py) = (x.skip(1), y.skip(1));
        assert(x =~= seq![2u8] + px);
        assert(y =~= seq![2u8] + py);
        match (l, r) {
            (Array::Boolean(p), Array::Boolean(q)) => {
                lemma_bool_keys_fit(q@);
                lemma_fixed_items_lt(bool_keys(p@), bool_keys(q@), 1);
                assert(px =~= fixed_items(bool_keys(p@), 1));
                assert(py =~= fixed_items(bool_keys(q@), 1));
            },
            (Array::Primitive(p), Array::Primitive(q)) => {
                lemma_primitive_keys_fit(q);
                assert(p.spec_width() == q.spec_width());
                lemma_fixed_items_lt(p.keys(), q.keys(), q.spec_width());
                assert(px =~= fixed_items(p.keys(), p.spec_width()));
                assert(py =~= fixed_items(q.keys(), q.spec_width()));
            },
            (Array::Binary(p), Array::Binary(q)) | (Array::LargeBinary(p), Array::LargeBinary(q)) => {
                lemma_var_items_lt(binary_view(p@), binary_view(q@));
                assert(px =~= var_items(binary_view(p@)));
                assert(py =~= var_items(binary_view(q@)));
            },
            (Array::Utf8(p), Array::Utf8(q)) | (Array::LargeUtf8(p), Array::LargeUtf8(q)) => {
                lemma_var_items_lt(utf8_view(p@), utf8_view(q@));
                assert(px =~= var_items(utf8_view(p@)));
                assert(py =~= var_items(utf8_view(q@)));
            },
            (Array::FixedSizeList(c), Array::FixedSizeList(d)) => {
                assert(px =~= enc_slots(c@));
                assert(py =~= enc_slots(d@));
                assert(decreases_to!(c => c@));
                lemma_children_lt_bytes(c@, d@, at_byte);
            },
            (Array::List(c), Array::List(d)) => {
                assert(px =~= enc_slots(c@));
                assert(py =~= enc_slots(d@));
                assert(decreases_to!(c => c@));
                lemma_children_lt_bytes(c@, d@, at_byte);
            },
            (Array::LargeList(c), Array::LargeList(d)) => {
                assert(px =~= enc_slots(c@));
                assert(py =~= enc_slots(d@));
                assert(decreases_to!(c => c@));
                lemma_children_lt_bytes(c@, d@, at_byte);
            },
            _ => {
                assert(false);
            },
        }
        if differs_below(px, py) {
            lemma_differs_prepend(seq![2u8], px, py);
        } else {
            lemma_prefix_prepend(seq![2u8], px, py);
        }
    }
}

/// The children's part of `lemma_list_lt_bytes`.
proof fn lemma_children_lt_bytes(c: Seq<Option<Array>>, d: Seq<Option<Array>>, at_byte: bool)
    requires
        children_lt(c, d, at_byte),
    ensures
        bytes_lt(enc_slots(c), enc_slots(d)),
        at_byte ==> differs_below(enc_slots(c), enc_slots(d)),
    decreases c,
{
    if exists|i: int|
        #![trigger c[i], d[i]]
        0 <= i < c.len() && i < d.len() && c.take(i) == d.take(i) && list_lt(
            c[i],
            d[i],
            at_byte || i + 1 < c.len(),
        ) {
        let i = choose|i: int|
            #![trigger c[i], d[i]]
            0 <= i < c.len() && i < d.len() && c.take(i) == d.take(i) && list_lt(
                c[i],
                d[i],
                at_byte || i + 1 < c.len(),
            );
        let inner = at_byte || i + 1 < c.len();
        lemma_list_lt_bytes(c[i], d[i], inner);
        let p = c.take(i);
        let (cs, ds) = (c.skip(i + 1), d.skip(i + 1));
        assert(c =~= p + (seq![c[i]] + cs));
        assert(d =~= p + (seq![d[i]] + ds));
        lemma_enc_slots_concat(p, seq![c[i]] + cs);
        lemma_enc_slots_concat(p, seq![d[i]] + ds);
        lemma_enc_slots_concat(seq![c[i]], cs);
        lemma_enc_slots_concat(seq![d[i]], ds);
        lemma_enc_slots_one(c[i]);
        lemma_enc_slots_one(d[i]);
        let (ec, ed) = (enc_slot(c[i]), enc_slot(d[i]));
        if differs_below(ec, ed) {
            lemma_differs_append(ec, ed, enc_slots(cs), enc_slots(ds));
            lemma_differs_prepend(enc_slots(p), ec + enc_slots(cs), ed + enc_slots(ds));
        } else {
            assert(cs.len() == 0);
            assert(enc_slots(cs) =~= Seq::<u8>::empty());
            assert(is_strict_prefix(ec, ed + enc_slots(ds))) by {
                assert((ed + enc_slots(ds)).take(ec.len() as int) =~= ed.take(ec.len() as int));
            }
            lemma_prefix_prepend(enc_slots(p), ec, ed + enc_slots(ds));
            assert(enc_slots(c) =~= enc_slots(p) + ec);
        }
    } else {
        let rest = d.skip(c.len() as int);
        assert(d =~= c + rest);
        lemma_enc_slots_concat(c, rest);
        lemma_enc_slots_concat(seq![rest[0]], rest.skip(1));
        assert(rest =~= seq![rest[0]] + rest.skip(1));
        lemma_enc_slots_one(rest[0]);
        lemma_enc_slot_len(rest[0]);
        assert(enc_slots(d).take(enc_slots(c).len() as int) =~= enc_slots(c));
    }
}

/// In ascending direction, a list slot that sorts before another by
/// `list_lt` encodes to bytes that sort before the other's.
pub proof fn lemma_order_preserved(a: Option<Array>, b: Option<Array>)
    requires
        list_lt(a, b, false),
    ensures
        bytes_lt(slot_bytes(a, false), slot_bytes(b, false)),
{
    lemma_list_lt_bytes(a, b, false);
}

} // verus!
