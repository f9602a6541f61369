//! Variable-length leaf encoding of byte strings: a sentinel byte, then the
//! bytes in blocks of 32, each block followed by a continuation marker or,
//! for the last block, the number of bytes it holds.
use vstd::prelude::*;
use crate::order::{spliced, lemma_spliced_twice};

verus! {

pub const BLOCK_SIZE: usize = 32;

pub const BLOCK_CONTINUATION: u8 = 0xFF;

pub const EMPTY_SENTINEL: u8 = 1;

pub const NON_EMPTY_SENTINEL: u8 = 2;

/// `n` zero bytes.
pub open spec fn zeros(n: nat) -> Seq<u8> {
    Seq::new(n, |i: int| 0u8)
}

/// The block form of a non-empty byte string.
pub open spec fn var_blocks(s: Seq<u8>) -> Seq<u8>
    decreases s.len(),
{
    if s.len() <= 32 {
        s + zeros((32 - s.len()) as nat) + seq![s.len() as u8]
    } else {
        s.take(32) + seq![0xFFu8] + var_blocks(s.skip(32))
    }
}

/// The encoding of one optional byte string.
pub open spec fn var_item(o: Option<Seq<u8>>) -> Seq<u8> {
    match o {
        None => seq![0u8],
        Some(s) => if s.len() == 0 {
            seq![1u8]
        } else {
            seq![2u8] + var_blocks(s)
        },
    }
}

/// The encodings of a sequence of optional byte strings, one after the other.
pub open spec fn var_items(s: Seq<Option<Seq<u8>>>) -> Seq<u8>
    decreases s.len(),
{
    if s.len() == 0 {
        Seq::empty()
    } else {
        var_items(s.drop_last()) + var_item(s.last())
    }
}

/// Length of the encoding of a string of `n` bytes: the sentinel, then
/// 33 bytes for each started block.
pub open spec fn var_len(n: nat) -> nat {
    1 + ((n + 31) / 32) * 33
}

/// Length of the encoding of one optional byte string.
pub open spec fn var_item_len(o: Option<Seq<u8>>) -> nat {
    match o {
        None => 1,
        Some(s) => var_len(s.len()),
    }
}

/// Sum of the encoded lengths of a sequence of optional byte strings.
pub open spec fn var_items_len(s: Seq<Option<Seq<u8>>>) -> nat
    decreases s.len(),
{
    if s.len() == 0 {
        0
    } else {
        var_items_len(s.drop_last()) + var_item_len(s.last())
    }
}

pub proof fn lemma_var_blocks_len(s: Seq<u8>)
    requires
        s.len() > 0,
    ensures
        var_blocks(s).len() == ((s.len() + 31) / 32) * 33,
    decreases s.len(),
{
    if s.len() > 32 {
        lemma_var_blocks_len(s.skip(32));
    }
}

pub proof fn lemma_var_item_len(o: Option<Seq<u8>>)
    ensures
        var_item(o).len() == var_item_len(o),
{
    if let Some(s) = o {
        if s.len() > 0 {
            lemma_var_blocks_len(s);
        }
    }
}

pub proof fn lemma_var_items_len(s: Seq<Option<Seq<u8>>>)
    ensures
        var_items(s).len() == var_items_len(s),
    decreases s.len(),
{
    if s.len() > 0 {
        lemma_var_items_len(s.drop_last());
        lemma_var_item_len(s.last());
    }
}

/// A prefix of the sequence needs no more bytes than the whole.
pub proof fn lemma_var_items_len_take(s: Seq<Option<Seq<u8>>>, i: int)
    requires
        0 <= i <= s.len(),
    ensures
        var_items_len(s.take(i)) <= var_items_len(s),
    decreases s.len(),
{
    if i < s.len() {
        assert(s.drop_last().take(i) =~= s.take(i));
        lemma_var_items_len_take(s.drop_last(), i);
    } else {
        assert(s.take(i) =~= s);
    }
}

pub open spec fn opt_bytes(o: Option<&[u8]>) -> Option<Seq<u8>> {
    match o {
        Some(b) => Some(b@),
        None => None,
    }
}

/// Number of bytes the encoding of `a` takes.
pub fn encoded_len(a: Option<&[u8]>) -> (r: usize)
    requires
        var_item_len(opt_bytes(a)) <= usize::MAX,
    ensures
        r == var_item_len(opt_bytes(a)),
{
    match a {
        Some(b) => 1 + ((b.len() + 31) / 32) * 33,
        None => 1,
    }
}

/// Writes one byte at `pos`.
pub(crate) fn write_byte(buf: &mut [u8], pos: usize, b: u8)
    requires
        pos < old(buf)@.len(),
    ensures
        final(buf)@ == spliced(old(buf)@, pos as int, seq![b]),
{
    buf[pos] = b;
    assert(buf@ =~= spliced(old(buf)@, pos as int, seq![b]));
}

/// Copies `src[lo..hi]` to `pos`.
fn copy_bytes(buf: &mut [u8], pos: usize, src: &[u8], lo: usize, hi: usize)
    requires
        lo <= hi <= src@.len(),
        pos + (hi - lo) <= old(buf)@.len(),
    ensures
        final(buf)@ == spliced(old(buf)@, pos as int, src@.subrange(lo as int, hi as int)),
{
    let blen = buf.len();
    let mut k: usize = lo;
    while k < hi
        invariant
            lo <= k <= hi <= src@.len(),
            pos + (hi - lo) <= buf@.len(),
            buf@.len() == blen,
            buf@.len() == old(buf)@.len(),
            buf@ == spliced(old(buf)@, pos as int, src@.subrange(lo as int, k as int)),
        decreases hi - k,
    {
        write_byte(buf, pos + (k - lo), src[k]);
        proof {
            lemma_spliced_twice(
                old(buf)@,
                pos as int,
                src@.subrange(lo as int, k as int),
                seq![src@[k as int]],
            );
            assert(src@.subrange(lo as int, k as int) + seq![src@[k as int]] =~= src@.subrange(
                lo as int,
                k + 1,
            ));
        }
        k = k + 1;
    }
}

/// Writes `count` zero bytes at `pos`.
fn write_zeros(buf: &mut [u8], pos: usize, count: usize)
    requires
        pos + count <= old(buf)@.len(),
    ensures
        final(buf)@ == spliced(old(buf)@, pos as int, zeros(count as nat)),
{
    let blen = buf.len();
    let mut k: usize = 0;
    while k < count
        invariant
            k <= count,
            pos + count <= buf@.len(),
            buf@.len() == blen,
            buf@.len() == old(buf)@.len(),
            buf@ == spliced(old(buf)@, pos as int, zeros(k as nat)),
        decreases count - k,
    {
        write_byte(buf, pos + k, 0);
        proof {
            lemma_spliced_twice(old(buf)@, pos as int, zeros(k as nat), seq![0u8]);
            assert(zeros(k as nat) + seq![0u8] =~= zeros((k + 1) as nat));
        }
        k = k + 1;
    }
}

/// Writes the encoding of one optional byte string at `pos` and returns
/// where it ends.
pub fn write_var(buf: &mut [u8], pos: usize, a: Option<&[u8]>) -> (end: usize)
    requires
        pos + var_item_len(opt_bytes(a)) <= old(buf)@.len(),
    ensures
        end == pos + var_item_len(opt_bytes(a)),
        final(buf)@ == spliced(old(buf)@, pos as int, var_item(opt_bytes(a))),
{
    let blen = buf.len();
    proof {
        lemma_var_item_len(opt_bytes(a));
    }
    match a {
        None => {
            write_byte(buf, pos, 0);
            pos + 1
        },
        Some(s) => {
            let n = s.len();
            if n == 0 {
                write_byte(buf, pos, EMPTY_SENTINEL);
                return pos + 1;
            }
            write_byte(buf, pos, NON_EMPTY_SENTINEL);
            let ghost target = spliced(old(buf)@, pos as int, var_item(opt_bytes(a)));
            proof {
                lemma_var_blocks_len(s@);
                lemma_spliced_twice(old(buf)@, pos as int, seq![2u8], var_blocks(s@));
                assert(s@.skip(0) =~= s@);
            }
            let mut cur = pos + 1;
            let mut start: usize = 0;
            while n - start > BLOCK_SIZE
                invariant
                    start < n == s@.len(),
                    buf@.len() == old(buf)@.len(),
                    buf@.len() == blen,
                    cur + var_blocks(s@.skip(start as int)).len() <= buf@.len(),
                    cur + var_blocks(s@.skip(start as int)).len() == pos + var_len(n as nat),
                    spliced(buf@, cur as int, var_blocks(s@.skip(start as int))) == target,
                decreases n - start,
            {
                let ghost rest = s@.skip(start as int);
                let ghost before = buf@;
                proof {
                    lemma_var_blocks_len(rest.skip(32));
                    assert(rest.skip(32) =~= s@.skip(start + 32));
                    assert(rest.take(32) =~= s@.subrange(start as int, start + 32));
                }
                copy_bytes(buf, cur, s, start, start + BLOCK_SIZE);
                write_byte(buf, cur + BLOCK_SIZE, BLOCK_CONTINUATION);
                proof {
                    lemma_spliced_twice(before, cur as int, rest.take(32), seq![0xFFu8]);
                    lemma_spliced_twice(
                        before,
                        cur as int,
                        rest.take(32) + seq![0xFFu8],
                        var_blocks(s@.skip(start + 32)),
                    );
                }
                cur = cur + BLOCK_SIZE + 1;
                start = start + BLOCK_SIZE;
            }
            let ghost rest = s@.skip(start as int);
            let ghost before = buf@;
            let r = n - start;
            proof {
                assert(rest =~= s@.subrange(start as int, n as int));
            }
            copy_bytes(buf, cur, s, start, n);
            write_zeros(buf, cur + r, BLOCK_SIZE - r);
            write_byte(buf, cur + BLOCK_SIZE, r as u8);
            proof {
                lemma_spliced_twice(before, cur as int, rest, zeros((32 - r) as nat));
                lemma_spliced_twice(before, cur as int, rest + zeros((32 - r) as nat), seq![r as u8]);
            }
            cur + BLOCK_SIZE + 1
        },
    }
}

} // verus!
