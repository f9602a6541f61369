//! Fixed-width leaf encoding: a validity byte, then the value's order key
//! in big-endian order.
use vstd::prelude::*;
use crate::order::{spliced, lemma_spliced_twice};

verus! {

/// An optional machine key as an optional number.
pub open spec fn opt_nat(o: Option<u64>) -> Option<nat> {
    match o {
        Some(k) => Some(k as nat),
        None => None,
    }
}

pub open spec fn nat_keys(s: Seq<Option<u64>>) -> Seq<Option<nat>> {
    s.map_values(|o: Option<u64>| opt_nat(o))
}

/// The last `w` base-256 digits of `k`, most significant first.
pub open spec fn be_bytes(k: nat, w: nat) -> Seq<u8>
    decreases w,
{
    if w == 0 {
        Seq::empty()
    } else {
        be_bytes(k / 256, (w - 1) as nat).push((k % 256) as u8)
    }
}

/// The encoding of one optional key: `1` and the key, or `0` and zeros.
pub open spec fn fixed_item(o: Option<nat>, w: nat) -> Seq<u8> {
    match o {
        Some(k) => seq![1u8] + be_bytes(k, w),
        None => seq![0u8] + be_bytes(0, w),
    }
}

/// The encodings of a sequence of optional keys, one after the other.
pub open spec fn fixed_items(s: Seq<Option<nat>>, w: nat) -> Seq<u8>
    decreases s.len(),
{
    if s.len() == 0 {
        Seq::empty()
    } else {
        fixed_items(s.drop_last(), w) + fixed_item(s.last(), w)
    }
}

pub proof fn lemma_be_len(k: nat, w: nat)
    ensures
        be_bytes(k, w).len() == w,
    decreases w,
{
    if w > 0 {
        lemma_be_len(k / 256, (w - 1) as nat);
    }
}

pub proof fn lemma_fixed_item_len(o: Option<nat>, w: nat)
    ensures
        fixed_item(o, w).len() == w + 1,
{
    lemma_be_len(0, w);
    if let Some(k) = o {
        lemma_be_len(k, w);
    }
}

/// Each item takes one byte more than the width.
pub proof fn lemma_fixed_items_len(s: Seq<Option<nat>>, w: nat)
    ensures
        fixed_items(s, w).len() == s.len() * (w + 1),
    decreases s.len(),
{
    if s.len() > 0 {
        lemma_fixed_items_len(s.drop_last(), w);
        lemma_be_len(0, w);
        if let Some(k) = s.last() {
            lemma_be_len(k, w);
        }
        assert(s.len() * (w + 1) == (s.len() - 1) * (w + 1) + (w + 1)) by (nonlinear_arith);
    }
}

/// Writes the encoding of one optional key at `pos` and returns where it ends.
pub fn write_fixed(buf: &mut [u8], pos: usize, item: Option<u64>, width: usize) -> (end: usize)
    requires
        pos + 1 + width <= old(buf)@.len(),
    ensures
        end == pos + 1 + width,
        final(buf)@ == spliced(old(buf)@, pos as int, fixed_item(opt_nat(item), width as nat)),
{
    let (valid, key): (u8, u64) = match item {
        Some(k) => (1, k),
        None => (0, 0),
    };
    let n = buf.len();
    buf[pos] = valid;
    let ghost start = buf@;
    let mut k: u64 = key;
    let mut j: usize = width;
    proof {
        lemma_be_len(key as nat, width as nat);
    }
    while j > 0
        invariant
            j <= width,
            pos + 1 + width <= buf@.len(),
            buf@.len() == n,
            buf@.len() == start.len(),
            be_bytes(key as nat, width as nat) == be_bytes(k as nat, j as nat) + buf@.subrange(
                pos + 1 + j,
                pos + 1 + width,
            ),
            buf@.take(pos + 1 + j) == start.take(pos + 1 + j),
            buf@.skip(pos + 1 + width) == start.skip(pos + 1 + width),
        decreases j,
    {
        let ghost before = buf@;
        buf[pos + j] = (k % 256) as u8;
        proof {
            assert(be_bytes(k as nat, j as nat) == be_bytes((k / 256) as nat, (j - 1) as nat).push(
                (k % 256) as u8,
            ));
            assert(buf@.subrange(pos + j, pos + 1 + width) =~= seq![(k % 256) as u8]
                + before.subrange(pos + 1 + j, pos + 1 + width));
            assert(buf@.take(pos + j) =~= before.take(pos + j));
            assert(before.take(pos + j) =~= start.take(pos + 1 + j).take(pos + j));
            assert(buf@.skip(pos + 1 + width) =~= before.skip(pos + 1 + width));
        }
        k = k / 256;
        j = j - 1;
        proof {
            assert(be_bytes(key as nat, width as nat) =~= be_bytes(k as nat, j as nat) + buf@.subrange(
                pos + 1 + j,
                pos + 1 + width,
            ));
            assert(buf@.take(pos + 1 + j) =~= start.take(pos + 1 + j));
        }
    }
    let end = pos + 1 + width;
    proof {
        let bytes = fixed_item(opt_nat(item), width as nat);
        assert(be_bytes(0, 0) =~= Seq::<u8>::empty());
        assert(bytes =~= seq![valid] + be_bytes(key as nat, width as nat));
        assert(buf@.subrange(pos + 1, pos + 1 + width) =~= be_bytes(key as nat, width as nat));
        assert(buf@.take(pos as int) =~= old(buf)@.take(pos as int)) by {
            assert(buf@.take(pos as int) =~= start.take(pos + 1).take(pos as int));
        }
        assert(buf@[pos as int] == valid) by {
            assert(buf@.take(pos + 1)[pos as int] == start.take(pos + 1)[pos as int]);
        }
        assert(buf@.skip(pos + 1 + width) =~= old(buf)@.skip(pos + 1 + width));
        assert(buf@ =~= buf@.take(pos as int) + (seq![valid] + buf@.subrange(pos + 1, pos + 1 + width))
            + buf@.skip(pos + 1 + width));
    }
    end
}

/// Writes the encodings of the optional keys one after another, from `pos` on.
pub fn write_fixed_all(buf: &mut [u8], pos: usize, keys: &Vec<Option<u64>>, width: usize) -> (end: usize)
    requires
        pos + fixed_items(nat_keys(keys@), width as nat).len()
            <= old(buf)@.len(),
    ensures
        final(buf)@ == spliced(
            old(buf)@,
            pos as int,
            fixed_items(nat_keys(keys@), width as nat),
        ),
        end == pos + fixed_items(nat_keys(keys@), width as nat).len(),
{
    let ghost all = nat_keys(keys@);
    proof {
        lemma_fixed_items_len(all, width as nat);
    }
    let mut cur = pos;
    let mut i: usize = 0;
    while i < keys.len()
        invariant
            i <= keys.len(),
            all == nat_keys(keys@),
            fixed_items(all, width as nat).len() == all.len() * (width + 1),
            pos + all.len() * (width + 1) <= buf@.len(),
            buf@.len() == old(buf)@.len(),
            cur == pos + i * (width + 1),
            buf@ == spliced(old(buf)@, pos as int, fixed_items(all.take(i as int), width as nat)),
        decreases keys.len() - i,
    {
        let ghost before = buf@;
        proof {
            lemma_fixed_items_len(all.take(i as int), width as nat);
            assert((i + 1) * (width + 1) <= all.len() * (width + 1)) by (nonlinear_arith)
                requires i + 1 <= all.len();
            assert((i + 1) * (width + 1) == i * (width + 1) + width + 1) by (nonlinear_arith);
        }
        cur = write_fixed(buf, cur, keys[i], width);
        proof {
            lemma_fixed_item_len(opt_nat(keys@[i as int]), width as nat);
        }
        proof {
            let item = fixed_item(all[i as int], width as nat);
            lemma_fixed_item_len(all[i as int], width as nat);
            lemma_spliced_twice(old(buf)@, pos as int, fixed_items(all.take(i as int), width as nat), item);
            assert(all.take(i + 1).drop_last() =~= all.take(i as int));
        }
        i = i + 1;
    }
    proof {
        assert(all.take(i as int) =~= all);
    }
    cur
}

} // verus!
