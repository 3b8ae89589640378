//! The sending side of the fragmented reliable transport: cutting a payload
//! into genuine fragments, assembling the fragments of one block, and the
//! block/ack state machine that decides when to advance and when to resend.
//!
//! The datagram loop around this machine transmits the current block's
//! fragments, waits for an acknowledgement with a fixed timeout, and feeds
//! every ack (or the timeout) back in; on timeout it simply retransmits the
//! same block, which is the protocol's only recovery from loss.

use vstd::arithmetic::div_mod::{lemma_fundamental_div_mod, lemma_fundamental_div_mod_converse};
use vstd::arithmetic::mul::{lemma_mul_inequality, lemma_mul_is_distributive_add_other_way};
use vstd::prelude::*;

use crate::envelope::{Addr, Fragment, Msg, MsgId, Type};
use crate::transfer::{
    frag_end, frag_from, frag_start, lemma_frag_bounds, num_blocks, num_frags, spec_num_blocks,
    spec_num_frags,
};
use crate::{BLOCK_SIZE, FRAG_SIZE};

verus! {

/// The first fragment of a block in range names a fragment in range.
pub proof fn lemma_block_start_in_range(len: nat, b: nat)
    requires
        b < spec_num_blocks(len),
    ensures
        b * (BLOCK_SIZE as nat) < spec_num_frags(len),
{
    let bs = BLOCK_SIZE as nat;
    let nf = spec_num_frags(len);
    let q = ((nf - 1) as nat) / bs;
    let r = ((nf - 1) as nat) % bs;
    lemma_fundamental_div_mod((nf - 1) as int, bs as int);
    lemma_fundamental_div_mod_converse((nf + bs - 1) as int, bs as int, (q + 1) as int, r as int);
    assert(spec_num_blocks(len) == q + 1);
    lemma_mul_inequality(b as int, q as int, bs as int);
    assert(q * bs <= nf - 1);
}

/// Builds the genuine fragment with id `frag_id` of the given payload.
pub fn build_fragment(data: &Vec<u8>, msg_id: MsgId, frag_id: u32) -> (frag: Fragment)
    requires
        data@.len() <= u32::MAX,
        (frag_id as nat) < spec_num_frags(data@.len()),
    ensures
        frag_from(data@, msg_id, frag),
        frag.frag_id == frag_id,
{
    let len = data.len();
    proof {
        lemma_frag_bounds(data@.len(), frag_id as nat);
        assert((frag_id + 1) as nat * (FRAG_SIZE as nat)
            == frag_id as nat * (FRAG_SIZE as nat) + FRAG_SIZE as nat) by {
            lemma_mul_is_distributive_add_other_way(FRAG_SIZE as int, frag_id as int, 1);
        }
    }
    let st: usize = FRAG_SIZE * (frag_id as usize);
    let end: usize = if len - st > FRAG_SIZE {
        st + FRAG_SIZE
    } else {
        len
    };
    let mut frag_data: Vec<u8> = Vec::new();
    let mut k: usize = st;
    while k < end
        invariant
            st <= k <= end,
            end <= data@.len(),
            frag_data@ == data@.subrange(st as int, k as int),
        decreases end - k,
    {
        frag_data.push(data[k]);
        proof {
            assert(frag_data@ == data@.subrange(st as int, k + 1));
        }
        k = k + 1;
    }
    Fragment {
        msg_id,
        block_id: frag_id / (BLOCK_SIZE as u32),
        frag_id,
        msg_len: len as u32,
        data: frag_data,
    }
}

/// Builds every fragment whose id falls in block `block` of the payload:
/// fragment ids `block * BLOCK_SIZE` up to the end of the block or of the
/// whole transfer, in increasing order.
pub fn block_fragments(data: &Vec<u8>, msg_id: MsgId, block: u32) -> (frags: Vec<Fragment>)
    requires
        data@.len() <= u32::MAX,
        (block as nat) < spec_num_blocks(data@.len()),
    ensures
        frags@.len() >= 1,
        forall|k: int| 0 <= k < frags@.len() ==> #[trigger] frag_from(data@, msg_id, frags@[k]),
        forall|k: int|
            0 <= k < frags@.len() ==> (#[trigger] frags@[k]).frag_id as nat == block as nat * (
            BLOCK_SIZE as nat) + k,
        // the block's fragments run to the end of the block or of the transfer
        block as nat * (BLOCK_SIZE as nat) + frags@.len() == vstd::math::min(
            (block as nat * (BLOCK_SIZE as nat) + BLOCK_SIZE as nat) as int,
            spec_num_frags(data@.len()) as int,
        ),
{
    proof {
        lemma_block_start_in_range(data@.len(), block as nat);
        crate::transfer::lemma_num_frags_bound(data@.len());
        assert((block + 1) as nat * (BLOCK_SIZE as nat)
            == block as nat * (BLOCK_SIZE as nat) + BLOCK_SIZE as nat) by {
            lemma_mul_is_distributive_add_other_way(BLOCK_SIZE as int, block as int, 1);
        }
        assert(block as int * (BLOCK_SIZE as int) == (BLOCK_SIZE as int) * (block as int)) by {
            vstd::arithmetic::mul::lemma_mul_is_commutative(block as int, BLOCK_SIZE as int);
        }
        assert((BLOCK_SIZE as int) * (block as int) < 0x10_0000);
    }
    let nf = num_frags(data.len() as u32);
    let frag_st: u32 = (BLOCK_SIZE as u32) * block;
    let frag_end: u32 = if frag_st + (BLOCK_SIZE as u32) <= nf {
        frag_st + (BLOCK_SIZE as u32)
    } else {
        nf
    };
    let mut frags: Vec<Fragment> = Vec::new();
    let mut id: u32 = frag_st;
    while id < frag_end
        invariant
            frag_st <= id <= frag_end,
            frag_end as nat <= spec_num_frags(data@.len()),
            frags@.len() == id - frag_st,
            data@.len() <= u32::MAX,
            forall|k: int| 0 <= k < frags@.len() ==> #[trigger] frag_from(data@, msg_id, frags@[k]),
            forall|k: int|
                0 <= k < frags@.len() ==> (#[trigger] frags@[k]).frag_id == frag_st + k,
        decreases frag_end - id,
    {
        let frag = build_fragment(data, msg_id, id);
        frags.push(frag);
        id = id + 1;
    }
    frags
}

/// Sender-side progress of one transfer: every block below `curr_block` has
/// been acknowledged; the transfer is done when every block has been.
pub struct SendState {
    pub msg_id: MsgId,
    pub msg_len: u32,
    pub curr_block: u32,
}

impl SendState {
    /// The current block never runs past the block count.
    pub open spec fn wf(self) -> bool {
        self.curr_block as nat <= spec_num_blocks(self.msg_len as nat)
    }

    /// Every block has been acknowledged.
    pub open spec fn spec_done(self) -> bool {
        self.curr_block as nat == spec_num_blocks(self.msg_len as nat)
    }

    /// Starts a transfer, rejecting up front a payload larger than the
    /// length field can represent: nothing of it is ever transmitted.
    pub fn try_new(msg_id: MsgId, data: &Vec<u8>) -> (r: Option<Self>)
        ensures
            (r is Some) == (data@.len() <= u32::MAX),
            r matches Some(s) ==> s.wf() && s.msg_id == msg_id && s.msg_len == data@.len()
                && s.curr_block == 0 && !s.spec_done(),
    {
        if data.len() as u64 > u32::MAX as u64 {
            None
        } else {
            Some(Self::new(msg_id, data))
        }
    }

    /// Starts a transfer of the given payload at its first block.
    pub fn new(msg_id: MsgId, data: &Vec<u8>) -> (s: Self)
        requires
            data@.len() <= u32::MAX,
        ensures
            s.wf(),
            s.msg_id == msg_id,
            s.msg_len == data@.len(),
            s.curr_block == 0,
            !s.spec_done(),
    {
        proof {
            crate::transfer::lemma_num_frags_bound(data@.len());
        }
        let s = SendState { msg_id, msg_len: data.len() as u32, curr_block: 0 };
        let nb = num_blocks(s.msg_len);
        s
    }

    /// Whether every block has been acknowledged.
    pub fn done(&self) -> (r: bool)
        requires
            self.wf(),
        ensures
            r == self.spec_done(),
    {
        proof {
            crate::transfer::lemma_num_frags_bound(self.msg_len as nat);
        }
        self.curr_block >= num_blocks(self.msg_len)
    }

    /// The fragments to transmit (or retransmit) for the current block.
    pub fn current_fragments(&self, data: &Vec<u8>) -> (frags: Vec<Fragment>)
        requires
            self.wf(),
            !self.spec_done(),
            data@.len() == self.msg_len,
            data@.len() <= u32::MAX,
        ensures
            frags@.len() >= 1,
            forall|k: int|
                0 <= k < frags@.len() ==> #[trigger] frag_from(data@, self.msg_id, frags@[k]),
            forall|k: int|
                0 <= k < frags@.len() ==> (#[trigger] frags@[k]).frag_id as nat == self.curr_block
                    as nat * (BLOCK_SIZE as nat) + k,
    {
        block_fragments(data, self.msg_id, self.curr_block)
    }

    /// Feeds one acknowledgement in: the sender advances to the next block
    /// exactly when the ack names this transfer and the current block;
    /// anything else (a stale ack, another transfer's ack) leaves it where
    /// it stands, and a timeout is simply the absence of such an ack.
    pub fn on_ack(&mut self, msg_id: MsgId, block_id: u32)
        requires
            old(self).wf(),
        ensures
            final(self).wf(),
            final(self).msg_id == old(self).msg_id,
            final(self).msg_len == old(self).msg_len,
            (msg_id == old(self).msg_id && block_id == old(self).curr_block && !old(self).spec_done()) ==> final(self).curr_block == old(self).curr_block + 1,
            !(msg_id == old(self).msg_id && block_id == old(self).curr_block && !old(self).spec_done()) ==> final(self).curr_block == old(self).curr_block,
    {
        let advance = msg_id == self.msg_id && block_id == self.curr_block && !self.done();
        if advance {
            self.curr_block = self.curr_block + 1;
        }
    }
}

/// Wraps one fragment in an envelope of kind `Fragment` from `sender` to
/// `receiver`, as the transmit loops do for every fragment of a block.
pub fn fragment_msg(sender: Addr, receiver: Addr, frag: Fragment) -> (m: Msg)
    ensures
        m.sender == sender,
        m.receiver == receiver,
        m.msg_type matches Type::Fragment(f) && f == frag,
        m.payload is None,
{
    Msg { sender, receiver, msg_type: Type::Fragment(frag), payload: None }
}

} // verus!
