//! Unsigned lexicographic order on byte sequences.
use vstd::prelude::*;

verus! {

/// `x` and `y` first differ at a position that both hold, and `x` holds the
/// smaller byte there.
pub open spec fn differs_below(x: Seq<u8>, y: Seq<u8>) -> bool {
    exists|i: int|
        #![trigger x[i], y[i]]
        0 <= i < x.len() && i < y.len() && x.take(i) == y.take(i) && x[i] < y[i]
}

/// `x` is a strict prefix of `y`.
pub open spec fn is_strict_prefix(x: Seq<u8>, y: Seq<u8>) -> bool {
    x.len() < y.len() && y.take(x.len() as int) == x
}

/// Unsigned lexicographic "less than": a strict prefix sorts first.
pub open spec fn bytes_lt(x: Seq<u8>, y: Seq<u8>) -> bool {
    differs_below(x, y) || is_strict_prefix(x, y)
}

/// Every byte bit-complemented.
pub open spec fn complement(x: Seq<u8>) -> Seq<u8> {
    Seq::new(x.len(), |i: int| !x[i])
}

/// A difference at a position is kept whatever follows either side.
pub proof fn lemma_differs_append(x: Seq<u8>, y: Seq<u8>, c: Seq<u8>, d: Seq<u8>)
    requires
        differs_below(x, y),
    ensures
        differs_below(x + c, y + d),
{
    let i = choose|i: int|
        #![trigger x[i], y[i]]
        0 <= i < x.len() && i < y.len() && x.take(i) == y.take(i) && x[i] < y[i];
    assert((x + c).take(i) =~= x.take(i));
    assert((y + d).take(i) =~= y.take(i));
    assert((x + c)[i] == x[i] && (y + d)[i] == y[i]);
}

/// A difference at a position is kept behind a common prefix.
pub proof fn lemma_differs_prepend(p: Seq<u8>, x: Seq<u8>, y: Seq<u8>)
    requires
        differs_below(x, y),
    ensures
        differs_below(p + x, p + y),
{
    let i = choose|i: int|
        #![trigger x[i], y[i]]
        0 <= i < x.len() && i < y.len() && x.take(i) == y.take(i) && x[i] < y[i];
    let j = p.len() + i;
    assert((p + x).take(j) =~= p + x.take(i));
    assert((p + y).take(j) =~= p + y.take(i));
    assert((p + x)[j] == x[i] && (p + y)[j] == y[i]);
}

/// A strict prefix stays one behind a common prefix.
pub proof fn lemma_prefix_prepend(p: Seq<u8>, x: Seq<u8>, y: Seq<u8>)
    requires
        is_strict_prefix(x, y),
    ensures
        is_strict_prefix(p + x, p + y),
{
    assert((p + y).take((p + x).len() as int) =~= p + y.take(x.len() as int));
}

/// Complementing both sides turns a difference around.
pub proof fn lemma_complement_differs(x: Seq<u8>, y: Seq<u8>)
    requires
        differs_below(x, y),
    ensures
        differs_below(complement(y), complement(x)),
{
    let i = choose|i: int|
        #![trigger x[i], y[i]]
        0 <= i < x.len() && i < y.len() && x.take(i) == y.take(i) && x[i] < y[i];
    assert(complement(y).take(i) =~= complement(x).take(i)) by {
        assert forall|k: int| 0 <= k < i implies complement(y)[k] == complement(x)[k] by {
            assert(x.take(i)[k] == y.take(i)[k]);
        }
    }
    let (a, b) = (x[i], y[i]);
    assert(a < b ==> !b < !a) by (bit_vector);
    assert(complement(y)[i] < complement(x)[i]);
}

/// Complementing twice gives the sequence back.
pub proof fn lemma_complement_twice(x: Seq<u8>)
    ensures
        complement(complement(x)) == x,
{
    assert forall|k: int| 0 <= k < x.len() implies complement(complement(x))[k] == x[k] by {
        let a = x[k];
        assert(!!a == a) by (bit_vector);
    }
    assert(complement(complement(x)) =~= x);
}

/// Complementing keeps the strict-prefix relation.
pub proof fn lemma_complement_prefix(x: Seq<u8>, y: Seq<u8>)
    ensures
        is_strict_prefix(x, y) <==> is_strict_prefix(complement(x), complement(y)),
{
    if is_strict_prefix(x, y) {
        assert(complement(y).take(x.len() as int) =~= complement(x)) by {
            assert forall|k: int| 0 <= k < x.len() implies complement(y)[k] == complement(x)[k] by {
                assert(y.take(x.len() as int)[k] == x[k]);
            }
        }
    }
    if is_strict_prefix(complement(x), complement(y)) {
        assert(y.take(x.len() as int) =~= x) by {
            assert forall|k: int| 0 <= k < x.len() implies y[k] == x[k] by {
                assert(complement(y).take(x.len() as int)[k] == complement(x)[k]);
                let (a, b) = (x[k], y[k]);
                assert(!a == !b ==> a == b) by (bit_vector);
            }
        }
    }
}

/// `buf` with `bytes` written over it from position `pos` on.
pub open spec fn spliced(buf: Seq<u8>, pos: int, bytes: Seq<u8>) -> Seq<u8> {
    buf.take(pos) + bytes + buf.skip(pos + bytes.len())
}

/// Writing `x` and then `y` right behind it is writing `x + y`.
pub proof fn lemma_spliced_twice(buf: Seq<u8>, pos: int, x: Seq<u8>, y: Seq<u8>)
    requires
        0 <= pos,
        pos + x.len() + y.len() <= buf.len(),
    ensures
        spliced(spliced(buf, pos, x), pos + x.len(), y) == spliced(buf, pos, x + y),
{
    assert(spliced(spliced(buf, pos, x), pos + x.len(), y) =~= spliced(buf, pos, x + y));
}

} // verus!
