//! Encoding of list values into rows.
//!
//! Each list slot starts with a sentinel: `0` for null, `1` for an empty
//! list and `2` for a non-empty one, which is followed by the encodings of
//! its elements in order.
use vstd::prelude::*;
use crate::array::{Array, Rows, SortOptions, EncodeError, UnsupportedKind, bool_keys, binary_view, utf8_view};
use crate::fixed::{fixed_items, nat_keys, lemma_fixed_items_len, write_fixed_all};
use crate::order::{spliced, complement, lemma_spliced_twice};
use crate::variable::{
    var_items, var_items_len, opt_bytes, lemma_var_items_len, lemma_var_items_len_take, write_byte,
    write_var, EMPTY_SENTINEL, NON_EMPTY_SENTINEL,
};

verus! {

broadcast use vstd::std_specs::vec::group_vec_axioms;

/// The first unsupported physical type met in a walk of the value, slots
/// in order; `None` when every type in it is supported.
pub open spec fn first_unsupported(v: Option<Array>) -> Option<UnsupportedKind>
    decreases v,
{
    match v {
        None => None,
        Some(a) => match a {
            Array::Unsupported(k, _) => Some(k),
            Array::FixedSizeList(c) | Array::List(c) | Array::LargeList(c) => first_unsupported_in(c@),
            _ => None,
        },
    }
}

/// The first unsupported physical type met in a sequence of slots.
pub open spec fn first_unsupported_in(s: Seq<Option<Array>>) -> Option<UnsupportedKind>
    decreases s,
{
    if s.len() == 0 {
        None
    } else {
        match first_unsupported_in(s.drop_last()) {
            Some(k) => Some(k),
            None => first_unsupported(s.last()),
        }
    }
}

/// Every physical type in the value is supported.
pub open spec fn supported(v: Option<Array>) -> bool {
    first_unsupported(v) is None
}

/// Number of bytes that the encoding of one slot takes: one sentinel byte,
/// plus what the elements of a list take.
pub open spec fn slot_len(v: Option<Array>) -> nat
    decreases v,
{
    match v {
        None => 1,
        Some(a) => 1 + match a {
            Array::Null(_) => 0,
            Array::Boolean(b) => b@.len() * 2,
            Array::Primitive(p) => p.spec_len() * (p.spec_width() + 1),
            Array::Binary(b) | Array::LargeBinary(b) => var_items_len(binary_view(b@)),
            Array::Utf8(t) | Array::LargeUtf8(t) => var_items_len(utf8_view(t@)),
            Array::FixedSizeList(c) | Array::List(c) | Array::LargeList(c) => slots_len(c@),
            Array::Unsupported(_, _) => 0,
        },
    }
}

/// Sum of the encoded lengths of a sequence of slots.
pub open spec fn slots_len(s: Seq<Option<Array>>) -> nat
    decreases s,
{
    if s.len() == 0 {
        0
    } else {
        slots_len(s.drop_last()) + slot_len(s.last())
    }
}

/// The ascending encoding of one slot.
pub open spec fn enc_slot(v: Option<Array>) -> Seq<u8>
    decreases v,
{
    match v {
        None => seq![0u8],
        Some(a) => if a.spec_len() == 0 {
            seq![1u8]
        } else {
            seq![2u8] + match a {
                Array::Null(_) => Seq::empty(),
                Array::Boolean(b) => fixed_items(bool_keys(b@), 1),
                Array::Primitive(p) => fixed_items(p.keys(), p.spec_width()),
                Array::Binary(b) | Array::LargeBinary(b) => var_items(binary_view(b@)),
                Array::Utf8(t) | Array::LargeUtf8(t) => var_items(utf8_view(t@)),
                Array::FixedSizeList(c) | Array::List(c) | Array::LargeList(c) => enc_slots(c@),
                Array::Unsupported(_, _) => Seq::empty(),
            }
        },
    }
}

/// The ascending encodings of a sequence of slots, one after the other.
pub open spec fn enc_slots(s: Seq<Option<Array>>) -> Seq<u8>
    decreases s,
{
    if s.len() == 0 {
        Seq::empty()
    } else {
        enc_slots(s.drop_last()) + enc_slot(s.last())
    }
}

/// A prefix of a sequence of slots takes no more bytes than the whole.
pub proof fn lemma_slots_len_take(s: Seq<Option<Array>>, i: int)
    requires
        0 <= i <= s.len(),
    ensures
        slots_len(s.take(i)) <= slots_len(s),
    decreases s.len(),
{
    if i < s.len() {
        assert(s.drop_last().take(i) =~= s.take(i));
        lemma_slots_len_take(s.drop_last(), i);
    } else {
        assert(s.take(i) =~= s);
    }
}

/// Number of bytes the encoding of one list slot takes, or the first
/// unsupported physical type in it.
pub fn encode_len(array: &Option<Array>) -> (r: Result<usize, EncodeError>)
    requires
        slot_len(*array) <= usize::MAX,
    ensures
        match first_unsupported(*array) {
            None => r == Ok::<usize, EncodeError>(slot_len(*array) as usize),
            Some(k) => r == Err::<usize, EncodeError>(EncodeError::UnsupportedType(k)),
        },
    decreases array,
{
    match array {
        None => Ok(1),
        Some(list) => {
            let mut len: usize = 1;
            match list {
                Array::Null(_) => {},
                Array::Boolean(b) => {
                    len = len + b.len() * 2;
                },
                Array::Primitive(p) => {
                    let n = p.len();
                    let w = p.width();
                    proof {
                        assert(1 + n * (w + 1) <= usize::MAX);
                        assert(n * (w + 1) == n * w + n) by (nonlinear_arith);
                    }
                    len = len + n * (w + 1);
                },
                Array::Binary(b) | Array::LargeBinary(b) => {
                    len = len + binary_len(b);
                },
                Array::Utf8(t) | Array::LargeUtf8(t) => {
                    len = len + utf8_len(t);
                },
                Array::FixedSizeList(c) => {
                    len = len + slots_encode_len(c)?;
                },
                Array::List(c) => {
                    len = len + slots_encode_len(c)?;
                },
                Array::LargeList(c) => {
                    len = len + slots_encode_len(c)?;
                },
                Array::Unsupported(k, _) => {
                    return Err(EncodeError::UnsupportedType(*k));
                },
            }
            Ok(len)
        },
    }
}

/// Number of bytes the encodings of a sequence of slots take, or the first
/// unsupported physical type in them.
fn slots_encode_len(c: &Vec<Option<Array>>) -> (r: Result<usize, EncodeError>)
    requires
        1 + slots_len(c@) <= usize::MAX,
    ensures
        match first_unsupported_in(c@) {
            None => r == Ok::<usize, EncodeError>(slots_len(c@) as usize),
            Some(k) => r == Err::<usize, EncodeError>(EncodeError::UnsupportedType(k)),
        },
    decreases c,
{
    let mut len: usize = 0;
    let mut i: usize = 0;
    while i < c.len()
        invariant
            i <= c@.len(),
            1 + slots_len(c@) <= usize::MAX,
            len == slots_len(c@.take(i as int)),
            first_unsupported_in(c@.take(i as int)) is None,
        decreases c@.len() - i,
    {
        proof {
            assert(c@.take(i + 1).drop_last() =~= c@.take(i as int));
            assert(c@.take(i + 1).last() == c@[i as int]);
            lemma_slots_len_take(c@, i + 1);
            assert(decreases_to!(c => c@));
            assert(decreases_to!(c@ => c@[i as int]));
        }
        match encode_len(&c[i]) {
            Ok(l) => {
                len = len + l;
            },
            Err(e) => {
                proof {
                    lemma_first_unsupported_take(c@, i + 1);
                }
                return Err(e);
            },
        }
        i = i + 1;
    }
    proof {
        assert(c@.take(i as int) =~= c@);
    }
    Ok(len)
}

/// An unsupported type in a prefix is the first one of the whole sequence.
pub proof fn lemma_first_unsupported_take(s: Seq<Option<Array>>, i: int)
    requires
        0 <= i <= s.len(),
        first_unsupported_in(s.take(i)) is Some,
    ensures
        first_unsupported_in(s) == first_unsupported_in(s.take(i)),
    decreases s.len(),
{
    if i < s.len() {
        assert(s.drop_last().take(i) =~= s.take(i));
        lemma_first_unsupported_take(s.drop_last(), i);
    } else {
        assert(s.take(i) =~= s);
    }
}

/// Total encoded length of a binary column.
fn binary_len(b: &Vec<Option<Vec<u8>>>) -> (r: usize)
    requires
        1 + var_items_len(binary_view(b@)) <= usize::MAX,
    ensures
        r == var_items_len(binary_view(b@)),
{
    let ghost view = binary_view(b@);
    let mut len: usize = 0;
    let mut i: usize = 0;
    while i < b.len()
        invariant
            i <= b@.len(),
            view == binary_view(b@),
            1 + var_items_len(view) <= usize::MAX,
            len == var_items_len(view.take(i as int)),
        decreases b@.len() - i,
    {
        let item: Option<&[u8]> = match &b[i] {
            Some(x) => Some(x.as_slice()),
            None => None,
        };
        proof {
            assert(view.take(i + 1).drop_last() =~= view.take(i as int));
            assert(opt_bytes(item) == view[i as int]);
            lemma_var_items_len_take(view, i + 1);
        }
        len = len + crate::variable::encoded_len(item);
        i = i + 1;
    }
    proof {
        assert(view.take(i as int) =~= view);
    }
    len
}

/// Total encoded length of a text column.
fn utf8_len(t: &Vec<Option<String>>) -> (r: usize)
    requires
        1 + var_items_len(utf8_view(t@)) <= usize::MAX,
    ensures
        r == var_items_len(utf8_view(t@)),
{
    let ghost view = utf8_view(t@);
    let mut len: usize = 0;
    let mut i: usize = 0;
    while i < t.len()
        invariant
            i <= t@.len(),
            view == utf8_view(t@),
            1 + var_items_len(view) <= usize::MAX,
            len == var_items_len(view.take(i as int)),
        decreases t@.len() - i,
    {
        let item: Option<&[u8]> = match &t[i] {
            Some(x) => Some(x.as_str().as_bytes()),
            None => None,
        };
        proof {
            assert(view.take(i + 1).drop_last() =~= view.take(i as int));
            assert(opt_bytes(item) == view[i as int]);
            lemma_var_items_len_take(view, i + 1);
        }
        len = len + crate::variable::encoded_len(item);
        i = i + 1;
    }
    proof {
        assert(view.take(i as int) =~= view);
    }
    len
}

/// The bytes a slot's encoding takes are as many as its reported length.
pub proof fn lemma_enc_slot_len(v: Option<Array>)
    ensures
        enc_slot(v).len() == slot_len(v),
    decreases v,
{
    if let Some(a) = v {
        match a {
            Array::Boolean(b) => {
                lemma_fixed_items_len(bool_keys(b@), 1);
            },
            Array::Primitive(p) => {
                lemma_fixed_items_len(p.keys(), p.spec_width());
            },
            Array::Binary(b) | Array::LargeBinary(b) => {
                lemma_var_items_len(binary_view(b@));
            },
            Array::Utf8(t) | Array::LargeUtf8(t) => {
                lemma_var_items_len(utf8_view(t@));
            },
            Array::FixedSizeList(c) | Array::List(c) | Array::LargeList(c) => {
                lemma_enc_slots_len(c@);
            },
            _ => {},
        }
    }
}

/// The bytes a sequence of slots takes are as many as its reported length.
pub proof fn lemma_enc_slots_len(s: Seq<Option<Array>>)
    ensures
        enc_slots(s).len() == slots_len(s),
    decreases s,
{
    if s.len() > 0 {
        lemma_enc_slots_len(s.drop_last());
        lemma_enc_slot_len(s.last());
    }
}

/// Every slot of a sequence with no unsupported type has none either.
pub proof fn lemma_supported_each(s: Seq<Option<Array>>, i: int)
    requires
        0 <= i < s.len(),
        first_unsupported_in(s) is None,
    ensures
        supported(s[i]),
    decreases s.len(),
{
    if i < s.len() - 1 {
        lemma_supported_each(s.drop_last(), i);
    }
}

/// Order keys of a boolean column.
fn bool_key_vec(b: &Vec<Option<bool>>) -> (r: Vec<Option<u64>>)
    ensures
        nat_keys(r@) == bool_keys(b@),
{
    let mut r: Vec<Option<u64>> = Vec::new();
    let mut i: usize = 0;
    while i < b.len()
        invariant
            i <= b@.len(),
            nat_keys(r@) == bool_keys(b@).take(i as int),
        decreases b@.len() - i,
    {
        let k: Option<u64> = match b[i] {
            Some(x) => Some(if x { 1 } else { 0 }),
            None => None,
        };
        let ghost prev = r@;
        r.push(k);
        proof {
            assert(crate::fixed::opt_nat(k) == bool_keys(b@)[i as int]);
            assert(r@ == prev.push(k));
            assert(nat_keys(r@) =~= nat_keys(prev).push(crate::fixed::opt_nat(k)));
        }
        i = i + 1;
        proof {
            assert(nat_keys(r@) =~= bool_keys(b@).take(i as int));
        }
    }
    proof {
        assert(bool_keys(b@).take(i as int) =~= bool_keys(b@));
    }
    r
}

/// Order keys of a primitive column.
fn primitive_key_vec(p: &crate::array::PrimitiveArray) -> (r: Vec<Option<u64>>)
    ensures
        nat_keys(r@) == p.keys(),
{
    let mut r: Vec<Option<u64>> = Vec::new();
    let n = p.len();
    let mut i: usize = 0;
    while i < n
        invariant
            i <= n == p.spec_len() == p.keys().len(),
            nat_keys(r@) == p.keys().take(i as int),
        decreases n - i,
    {
        let k = p.key_at(i);
        let ghost prev = r@;
        r.push(k);
        proof {
            assert(r@ == prev.push(k));
            assert(nat_keys(r@) =~= nat_keys(prev).push(crate::fixed::opt_nat(k)));
        }
        i = i + 1;
        proof {
            assert(nat_keys(r@) =~= p.keys().take(i as int));
        }
    }
    proof {
        assert(p.keys().take(i as int) =~= p.keys());
    }
    r
}

/// Writes the encodings of a binary column from `pos` on.
fn write_binary(buf: &mut [u8], pos: usize, b: &Vec<Option<Vec<u8>>>) -> (end: usize)
    requires
        pos + var_items_len(binary_view(b@)) <= old(buf)@.len(),
    ensures
        end == pos + var_items_len(binary_view(b@)),
        final(buf)@ == spliced(old(buf)@, pos as int, var_items(binary_view(b@))),
{
    let ghost view = binary_view(b@);
    let mut cur = pos;
    let mut i: usize = 0;
    while i < b.len()
        invariant
            i <= b@.len(),
            view == binary_view(b@),
            buf@.len() == old(buf)@.len(),
            pos + var_items_len(view) <= buf@.len(),
            cur == pos + var_items_len(view.take(i as int)),
            buf@ == spliced(old(buf)@, pos as int, var_items(view.take(i as int))),
        decreases b@.len() - i,
    {
        let item: Option<&[u8]> = match &b[i] {
            Some(x) => Some(x.as_slice()),
            None => None,
        };
        proof {
            assert(view.take(i + 1).drop_last() =~= view.take(i as int));
            assert(opt_bytes(item) == view[i as int]);
            lemma_var_items_len_take(view, i + 1);
            lemma_var_items_len(view.take(i as int));
            lemma_var_items_len(view.take(i + 1));
        }
        cur = write_var(buf, cur, item);
        proof {
            lemma_spliced_twice(old(buf)@, pos as int, var_items(view.take(i as int)), crate::variable::var_item(view[i as int]));
        }
        i = i + 1;
    }
    proof {
        assert(view.take(i as int) =~= view);
    }
    cur
}

/// Writes the encodings of a text column, as UTF-8 bytes, from `pos` on.
fn write_utf8(buf: &mut [u8], pos: usize, t: &Vec<Option<String>>) -> (end: usize)
    requires
        pos + var_items_len(utf8_view(t@)) <= old(buf)@.len(),
    ensures
        end == pos + var_items_len(utf8_view(t@)),
        final(buf)@ == spliced(old(buf)@, pos as int, var_items(utf8_view(t@))),
{
    let ghost view = utf8_view(t@);
    let mut cur = pos;
    let mut i: usize = 0;
    while i < t.len()
        invariant
            i <= t@.len(),
            view == utf8_view(t@),
            buf@.len() == old(buf)@.len(),
            pos + var_items_len(view) <= buf@.len(),
            cur == pos + var_items_len(view.take(i as int)),
            buf@ == spliced(old(buf)@, pos as int, var_items(view.take(i as int))),
        decreases t@.len() - i,
    {
        let item: Option<&[u8]> = match &t[i] {
            Some(x) => Some(x.as_str().as_bytes()),
            None => None,
        };
        proof {
            assert(view.take(i + 1).drop_last() =~= view.take(i as int));
            assert(opt_bytes(item) == view[i as int]);
            lemma_var_items_len_take(view, i + 1);
            lemma_var_items_len(view.take(i as int));
            lemma_var_items_len(view.take(i + 1));
        }
        cur = write_var(buf, cur, item);
        proof {
            lemma_spliced_twice(old(buf)@, pos as int, var_items(view.take(i as int)), crate::variable::var_item(view[i as int]));
        }
        i = i + 1;
    }
    proof {
        assert(view.take(i as int) =~= view);
    }
    cur
}

/// Writes the ascending encoding of one slot at `pos` and returns where it ends.
fn write_slot(buf: &mut [u8], pos: usize, v: &Option<Array>) -> (end: usize)
    requires
        supported(*v),
        pos + slot_len(*v) <= old(buf)@.len(),
    ensures
        end == pos + slot_len(*v),
        final(buf)@ == spliced(old(buf)@, pos as int, enc_slot(*v)),
    decreases v,
{
    let blen = buf.len();
    proof {
        lemma_enc_slot_len(*v);
    }
    match v {
        None => {
            write_byte(buf, pos, 0);
            pos + 1
        },
        Some(list) => {
            if list.is_empty() {
                write_byte(buf, pos, EMPTY_SENTINEL);
                return pos + 1;
            }
            write_byte(buf, pos, NON_EMPTY_SENTINEL);
            let ghost mid = buf@;
            let ghost payload = enc_slot(*v).skip(1);
            let end = match list {
                Array::Null(_) => pos + 1,
                Array::Boolean(b) => {
                    let keys = bool_key_vec(b);
                    proof {
                        lemma_fixed_items_len(bool_keys(b@), 1);
                    }
                    write_fixed_all(buf, pos + 1, &keys, 1)
                },
                Array::Primitive(p) => {
                    let keys = primitive_key_vec(p);
                    proof {
                        lemma_fixed_items_len(p.keys(), p.spec_width());
                    }
                    write_fixed_all(buf, pos + 1, &keys, p.width())
                },
                Array::Binary(b) => write_binary(buf, pos + 1, b),
                Array::LargeBinary(b) => write_binary(buf, pos + 1, b),
                Array::Utf8(t) => write_utf8(buf, pos + 1, t),
                Array::LargeUtf8(t) => write_utf8(buf, pos + 1, t),
                Array::FixedSizeList(c) => write_slots(buf, pos + 1, c),
                Array::List(c) => write_slots(buf, pos + 1, c),
                Array::LargeList(c) => write_slots(buf, pos + 1, c),
                Array::Unsupported(_, _) => pos + 1,
            };
            proof {
                assert(enc_slot(*v) =~= seq![2u8] + payload);
                assert(buf@ == spliced(mid, pos + 1, payload));
                lemma_spliced_twice(old(buf)@, pos as int, seq![2u8], payload);
            }
            end
        },
    }
}

/// Writes the ascending encodings of a sequence of slots from `pos` on and
/// returns where they end.
fn write_slots(buf: &mut [u8], pos: usize, c: &Vec<Option<Array>>) -> (end: usize)
    requires
        first_unsupported_in(c@) is None,
        pos + slots_len(c@) <= old(buf)@.len(),
    ensures
        end == pos + slots_len(c@),
        final(buf)@ == spliced(old(buf)@, pos as int, enc_slots(c@)),
    decreases c,
{
    let mut cur = pos;
    let mut i: usize = 0;
    while i < c.len()
        invariant
            i <= c@.len(),
            first_unsupported_in(c@) is None,
            buf@.len() == old(buf)@.len(),
            pos + slots_len(c@) <= buf@.len(),
            cur == pos + slots_len(c@.take(i as int)),
            buf@ == spliced(old(buf)@, pos as int, enc_slots(c@.take(i as int))),
        decreases c@.len() - i,
    {
        proof {
            assert(c@.take(i + 1).drop_last() =~= c@.take(i as int));
            assert(c@.take(i + 1).last() == c@[i as int]);
            lemma_slots_len_take(c@, i + 1);
            lemma_supported_each(c@, i as int);
            lemma_enc_slots_len(c@.take(i as int));
            lemma_enc_slot_len(c@[i as int]);
            assert(decreases_to!(c => c@));
            assert(decreases_to!(c@ => c@[i as int]));
        }
        cur = write_slot(buf, cur, &c[i]);
        proof {
            lemma_spliced_twice(old(buf)@, pos as int, enc_slots(c@.take(i as int)), enc_slot(c@[i as int]));
        }
        i = i + 1;
    }
    proof {
        assert(c@.take(i as int) =~= c@);
    }
    cur
}

/// The encoding of one slot in the given direction: descending complements
/// every byte of the ascending encoding.
pub open spec fn slot_bytes(v: Option<Array>, descending: bool) -> Seq<u8> {
    if descending {
        complement(enc_slot(v))
    } else {
        enc_slot(v)
    }
}

/// Number of rows that `encode` writes: one per cursor after the first,
/// and no more than there are values.
pub open spec fn rows_count(n_offsets: nat, n_values: nat) -> nat {
    if n_offsets == 0 {
        0
    } else if n_offsets - 1 <= n_values {
        (n_offsets - 1) as nat
    } else {
        n_values
    }
}

/// The buffer after the first `r` rows were written, row `k` at cursor
/// `offsets[k + 1]`, each over what was there before.
pub open spec fn rows_written(
    buf: Seq<u8>,
    offsets: Seq<usize>,
    values: Seq<Option<Array>>,
    descending: bool,
    r: nat,
) -> Seq<u8>
    decreases r,
{
    if r == 0 {
        buf
    } else {
        spliced(
            rows_written(buf, offsets, values, descending, (r - 1) as nat),
            offsets[r as int] as int,
            slot_bytes(values[r - 1], descending),
        )
    }
}

/// Complements every byte of `buf[lo..hi]`.
fn complement_range(buf: &mut [u8], lo: usize, hi: usize)
    requires
        lo <= hi <= old(buf)@.len(),
    ensures
        final(buf)@ == spliced(old(buf)@, lo as int, complement(old(buf)@.subrange(lo as int, hi as int))),
{
    let mut k: usize = lo;
    while k < hi
        invariant
            lo <= k <= hi <= buf@.len(),
            buf@.len() == old(buf)@.len(),
            buf@ == spliced(old(buf)@, lo as int, complement(old(buf)@.subrange(lo as int, k as int))),
        decreases hi - k,
    {
        let b = buf[k];
        buf[k] = !b;
        proof {
            assert(buf@ =~= spliced(old(buf)@, lo as int, complement(old(buf)@.subrange(lo as int, k + 1))));
        }
        k = k + 1;
    }
}

/// Encodes one list value per slot into `buffer`, one after the other from
/// its start, in ascending direction.
pub fn encode_raw(buffer: &mut [u8], values: &Vec<Option<Array>>)
    requires
        first_unsupported_in(values@) is None,
        slots_len(values@) <= old(buffer)@.len(),
    ensures
        final(buffer)@ == spliced(old(buffer)@, 0, enc_slots(values@)),
{
    write_slots(buffer, 0, values);
}

/// Encodes one list value per row into the shared row buffer: row `r` is
/// written at cursor `offsets[r + 1]`, which then moves past it. In
/// descending direction every byte of the slot is complemented.
pub fn encode(out: &mut Rows, values: &Vec<Option<Array>>, opts: SortOptions)
    requires
        forall|r: int|
            0 <= r < rows_count(old(out).offsets@.len(), values@.len()) ==> {
                &&& supported(#[trigger] values@[r])
                &&& old(out).offsets@[r + 1] + slot_len(values@[r]) <= old(out).buffer@.len()
            },
    ensures
        final(out).offsets@.len() == old(out).offsets@.len(),
        forall|k: int|
            0 <= k < old(out).offsets@.len() ==> #[trigger] final(out).offsets@[k] == if 1 <= k
                <= rows_count(old(out).offsets@.len(), values@.len()) {
                old(out).offsets@[k] + slot_len(values@[k - 1])
            } else {
                old(out).offsets@[k] as int
            },
        final(out).buffer@ == rows_written(
            old(out).buffer@,
            old(out).offsets@,
            values@,
            opts.descending,
            rows_count(old(out).offsets@.len(), values@.len()),
        ),
{
    let n_offsets = out.offsets.len();
    let m: usize = if n_offsets == 0 {
        0
    } else if n_offsets - 1 <= values.len() {
        n_offsets - 1
    } else {
        values.len()
    };
    let ghost old_offsets = out.offsets@;
    let ghost old_buffer = out.buffer@;
    let mut r: usize = 0;
    while r < m
        invariant
            r <= m == rows_count(old_offsets.len(), values@.len()),
            n_offsets == old_offsets.len(),
            m == 0 || m < n_offsets,
            m <= values@.len(),
            old_offsets == old(out).offsets@,
            old_buffer == old(out).buffer@,
            forall|q: int|
                0 <= q < m ==> {
                    &&& supported(#[trigger] values@[q])
                    &&& old_offsets[q + 1] + slot_len(values@[q]) <= old_buffer.len()
                },
            out.buffer@.len() == old_buffer.len(),
            out.offsets@.len() == n_offsets,
            forall|k: int|
                0 <= k < n_offsets ==> #[trigger] out.offsets@[k] == if 1 <= k <= r {
                    old_offsets[k] + slot_len(values@[k - 1])
                } else {
                    old_offsets[k] as int
                },
            out.buffer@ == rows_written(old_buffer, old_offsets, values@, opts.descending, r as nat),
        decreases m - r,
    {
        let start = out.offsets[r + 1];
        let ghost before = out.buffer@;
        proof {
            assert(supported(values@[r as int]));
            lemma_enc_slot_len(values@[r as int]);
        }
        let end = write_slot(out.buffer.as_mut_slice(), start, &values[r]);
        if opts.descending {
            let ghost asc = out.buffer@;
            complement_range(out.buffer.as_mut_slice(), start, end);
            proof {
                assert(asc.subrange(start as int, end as int) =~= enc_slot(values@[r as int]));
                assert(out.buffer@ =~= spliced(before, start as int, complement(enc_slot(values@[r as int]))));
            }
        }
        out.offsets.set(r + 1, end);
        r = r + 1;
        proof {
            assert(out.buffer@ == rows_written(old_buffer, old_offsets, values@, opts.descending, r as nat));
        }
    }
}

} // verus!
