//! Fragment arithmetic shared by the sending and the reassembling side: how a
//! payload of a given length is cut into fragments and grouped into blocks,
//! and what it means for a fragment to be a genuine slice of a payload.

use vstd::arithmetic::div_mod::{lemma_fundamental_div_mod, lemma_fundamental_div_mod_converse};
use vstd::arithmetic::mul::lemma_mul_inequality;
use vstd::prelude::*;

use crate::envelope::{Fragment, MsgId};
use crate::{BLOCK_SIZE, FRAG_SIZE};

verus! {

/// Offset of the first byte of fragment `i` within the payload.
pub open spec fn frag_start(i: nat) -> nat {
    i * (FRAG_SIZE as nat)
}

/// One past the offset of the last byte of fragment `i` of a payload of
/// `len` bytes: a full fragment's worth, clipped to the payload length for
/// the final fragment.
pub open spec fn frag_end(i: nat, len: nat) -> nat {
    if (i + 1) * (FRAG_SIZE as nat) <= len {
        (i + 1) * (FRAG_SIZE as nat)
    } else {
        len
    }
}

/// Number of payload bytes carried by fragment `i`.
pub open spec fn frag_size(i: nat, len: nat) -> nat {
    (frag_end(i, len) - frag_start(i)) as nat
}

/// How many fragments a payload of `len` bytes is cut into. A zero-length
/// payload is carried by a single virtual fragment with no data.
pub open spec fn spec_num_frags(len: nat) -> nat {
    if len == 0 {
        1
    } else {
        ((len + FRAG_SIZE - 1) as nat) / (FRAG_SIZE as nat)
    }
}

/// How many blocks the fragments of a payload of `len` bytes form.
pub open spec fn spec_num_blocks(len: nat) -> nat {
    ((spec_num_frags(len) + BLOCK_SIZE - 1) as nat) / (BLOCK_SIZE as nat)
}

/// The fragment is a genuine slice of payload `p` under transfer `msg_id`:
/// its ids are in range and agree, and its data is exactly the payload bytes
/// of its slot.
pub open spec fn frag_from(p: Seq<u8>, msg_id: MsgId, frag: Fragment) -> bool {
    &&& frag.msg_id == msg_id
    &&& frag.msg_len == p.len()
    &&& (frag.frag_id as nat) < spec_num_frags(p.len())
    &&& frag.block_id == frag.frag_id / (BLOCK_SIZE as u32)
    &&& frag.data@ == p.subrange(
        frag_start(frag.frag_id as nat) as int,
        frag_end(frag.frag_id as nat, p.len()) as int,
    )
}

/// A fragment id below the fragment count addresses a slot that lies within
/// the payload: its start is below `len` (when there is any payload at all),
/// its end never exceeds `len`, and every fragment but the last is full.
pub proof fn lemma_frag_bounds(len: nat, i: nat)
    requires
        i < spec_num_frags(len),
    ensures
        frag_start(i) <= frag_end(i, len) <= len,
        len > 0 ==> frag_start(i) < frag_end(i, len),
        frag_size(i, len) <= FRAG_SIZE,
        i + 1 < spec_num_frags(len) ==> frag_end(i, len) == frag_start(i) + FRAG_SIZE,
        len > 0 ==> frag_size(i, len) > 0,
{
    let f = FRAG_SIZE as nat;
    if len == 0 {
        assert(i == 0);
        assert(frag_start(0) == 0) by {
            lemma_mul_inequality(0, 0, f as int);
        }
    } else {
        let q = ((len - 1) as nat) / f;
        let r = ((len - 1) as nat) % f;
        lemma_fundamental_div_mod((len - 1) as int, f as int);
        // len + f - 1 == (q + 1) * f + r, so the fragment count is q + 1.
        lemma_fundamental_div_mod_converse(
            (len + f - 1) as int,
            f as int,
            (q + 1) as int,
            r as int,
        );
        assert(spec_num_frags(len) == q + 1);
        // i <= q, so i * f <= q * f <= len - 1 < len.
        lemma_mul_inequality(i as int, q as int, f as int);
        assert(q * f <= len - 1);
        assert(frag_start(i) < len);
        if i + 1 < spec_num_frags(len) {
            // i + 1 <= q, so (i + 1) * f <= q * f < len.
            lemma_mul_inequality((i + 1) as int, q as int, f as int);
            assert(frag_end(i, len) == (i + 1) * f);
        }
        assert((i + 1) * f == i * f + f) by {
            vstd::arithmetic::mul::lemma_mul_is_distributive_add_other_way(
                f as int,
                i as int,
                1,
            );
        }
    }
}

/// The fragment count itself is bounded: a payload of at most `u32::MAX`
/// bytes has fewer than `u32::MAX` fragments, and each fragment's slot fits
/// comfortably in 64 bits.
pub proof fn lemma_num_frags_bound(len: nat)
    requires
        len <= u32::MAX,
    ensures
        spec_num_frags(len) <= 0x10_0000,
        spec_num_blocks(len) <= 0x10_0000,
{
    let f = FRAG_SIZE as nat;
    if len > 0 {
        vstd::arithmetic::div_mod::lemma_div_is_ordered(
            (len + f - 1) as int,
            (u32::MAX + f - 1) as int,
            f as int,
        );
    }
    vstd::arithmetic::div_mod::lemma_div_is_ordered(
        (spec_num_frags(len) + BLOCK_SIZE - 1) as int,
        (0x10_0000 + BLOCK_SIZE - 1) as int,
        BLOCK_SIZE as int,
    );
}

/// Number of fragments of a payload of `len` bytes.
pub fn num_frags(len: u32) -> (r: u32)
    ensures
        r as nat == spec_num_frags(len as nat),
        r >= 1,
{
    if len == 0 {
        1
    } else {
        proof {
            lemma_num_frags_bound(len as nat);
        }
        ((len as u64 + (FRAG_SIZE as u64 - 1)) / FRAG_SIZE as u64) as u32
    }
}

/// Number of blocks of a payload of `len` bytes.
pub fn num_blocks(len: u32) -> (r: u32)
    ensures
        r as nat == spec_num_blocks(len as nat),
        r >= 1,
{
    proof {
        lemma_num_frags_bound(len as nat);
    }
    let nf = num_frags(len);
    (nf + (BLOCK_SIZE as u32 - 1)) / BLOCK_SIZE as u32
}

} // verus!
