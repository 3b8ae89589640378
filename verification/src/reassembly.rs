//! The receiving side of the fragmented reliable transport: one reassembly
//! buffer per in-flight transfer, created lazily on the first fragment,
//! absorbing out-of-order and duplicated fragments idempotently, emitting
//! cumulative block acknowledgements, and signalling completion exactly when
//! every payload byte has been received.

use vstd::arithmetic::div_mod::{
    lemma_div_is_ordered, lemma_fundamental_div_mod, lemma_fundamental_div_mod_converse,
};
use vstd::arithmetic::mul::{lemma_mul_inequality, lemma_mul_is_distributive_add_other_way};
use vstd::prelude::*;

use crate::envelope::{Fragment, MsgId};
use crate::transfer::{
    frag_end, frag_size, frag_start, lemma_frag_bounds, lemma_num_frags_bound, num_frags,
    spec_num_blocks, spec_num_frags,
};
use crate::{BLOCK_SIZE, FRAG_SIZE};

verus! {

/// Bytes covered by one full block of fragments.
pub open spec fn block_bytes() -> nat {
    (FRAG_SIZE * BLOCK_SIZE) as nat
}

/// The mathematical state of one reassembly buffer.
#[verifier::ext_equal]
pub ghost struct BufView {
    pub data: Seq<u8>,
    pub msg_len: nat,
    pub received_len: nat,
    pub frags: Seq<bool>,
}

/// The mathematical content of one fragment, as reassembly reads it.
#[verifier::ext_equal]
pub ghost struct FragView {
    pub msg_id: MsgId,
    pub frag_id: nat,
    pub msg_len: nat,
    pub data: Seq<u8>,
}

/// Total bytes of the fragments marked received among the first `n` slots.
pub open spec fn sum_received(frags: Seq<bool>, len: nat, n: nat) -> nat
    decreases n,
{
    if n == 0 {
        0
    } else {
        sum_received(frags, len, (n - 1) as nat) + if frags[n - 1] {
            frag_size((n - 1) as nat, len)
        } else {
            0
        }
    }
}

/// Largest byte count the first `n` fragment slots can cover.
pub open spec fn prefix_cap(n: nat, len: nat) -> nat {
    if n * (FRAG_SIZE as nat) <= len {
        n * (FRAG_SIZE as nat)
    } else {
        len
    }
}

impl BufView {
    /// Shape and accounting invariant: the buffer is sized to the transfer,
    /// there is one received-mark per fragment slot, and `received_len` is
    /// exactly the bytes of the marked slots.
    pub open spec fn wf(self) -> bool {
        &&& self.data.len() == self.msg_len
        &&& self.frags.len() == spec_num_frags(self.msg_len)
        &&& self.received_len == sum_received(self.frags, self.msg_len, self.frags.len())
    }

    /// Fragment slot `i` has been received.
    pub open spec fn seen(self, i: nat) -> bool {
        i < self.frags.len() && self.frags[i as int]
    }

    /// Every payload byte has been received.
    pub open spec fn complete(self) -> bool {
        self.received_len == self.msg_len
    }
}

/// Byte `b` of the buffer agrees with payload `p` wherever its fragment has
/// been received.
pub open spec fn byte_ok(v: BufView, p: Seq<u8>, b: int) -> bool {
    v.frags[b / (FRAG_SIZE as int)] ==> v.data[b] == p[b]
}

/// The buffer holds only bytes of payload `p`: every received fragment's
/// slot agrees with `p` byte for byte.
pub open spec fn from_payload(v: BufView, p: Seq<u8>) -> bool {
    &&& v.msg_len == p.len()
    &&& v.data.len() == p.len()
    &&& forall|b: int| 0 <= b < p.len() ==> #[trigger] byte_ok(v, p, b)
}

/// The fragment addresses a slot of this buffer's transfer and carries
/// exactly that slot's worth of bytes.
pub open spec fn valid_for(v: BufView, f: FragView) -> bool {
    &&& f.msg_len == v.msg_len
    &&& f.frag_id < spec_num_frags(v.msg_len)
    &&& f.data.len() == frag_size(f.frag_id, v.msg_len)
}

/// The fragment's data is the slice of payload `p` that its id names.
pub open spec fn frag_data_from(p: Seq<u8>, f: FragView) -> bool {
    &&& f.msg_len == p.len()
    &&& f.frag_id < spec_num_frags(p.len())
    &&& f.data == p.subrange(frag_start(f.frag_id) as int, frag_end(f.frag_id, p.len()) as int)
}

/// The one-step reassembly transition: a duplicate changes nothing; a new
/// fragment is copied into its slot, marked, and counted.
pub open spec fn deliver(v: BufView, f: FragView) -> BufView {
    if v.seen(f.frag_id) {
        v
    } else {
        let st = frag_start(f.frag_id) as int;
        let end = frag_end(f.frag_id, v.msg_len) as int;
        BufView {
            data: Seq::new(
                v.data.len(),
                |b: int|
                    if st <= b < end {
                        f.data[b - st]
                    } else {
                        v.data[b]
                    },
            ),
            msg_len: v.msg_len,
            received_len: (v.received_len + frag_size(f.frag_id, v.msg_len)) as nat,
            frags: v.frags.update(f.frag_id as int, true),
        }
    }
}

/// The buffer a zero-initialised transfer of `len` bytes starts from.
pub open spec fn fresh_view(len: nat) -> BufView {
    BufView {
        data: Seq::new(len, |b: int| 0u8),
        msg_len: len,
        received_len: 0,
        frags: Seq::new(spec_num_frags(len), |i: int| false),
    }
}

/// Cumulative block index named by an ack sent at `rl` received bytes: the
/// index of the last block any of whose bytes have been counted. An empty
/// transfer acknowledges block 0.
pub open spec fn ack_block_of(rl: nat) -> nat {
    if rl == 0 {
        0
    } else {
        ((rl - 1) as nat) / block_bytes()
    }
}

/// A new fragment triggers an ack when it completes the transfer or carries
/// the received count across a multiple of a block's bytes; a duplicate
/// re-triggers the cumulative ack when the count sits at such a point, so a
/// lost ack is resent when the sender retransmits.
pub open spec fn ack_due(v: BufView, f: FragView) -> bool {
    if v.seen(f.frag_id) {
        v.received_len == v.msg_len || (v.received_len > 0 && v.received_len % block_bytes() == 0)
    } else {
        let rl2 = deliver(v, f).received_len;
        rl2 == v.msg_len || v.received_len / block_bytes() < rl2 / block_bytes()
    }
}

/// The received count an ack emitted by this delivery speaks of.
pub open spec fn ack_rl(v: BufView, f: FragView) -> nat {
    if v.seen(f.frag_id) {
        v.received_len
    } else {
        deliver(v, f).received_len
    }
}

// ------------------------------------------------------------------
// Accounting lemmas for `sum_received`.
// ------------------------------------------------------------------

/// The first `n` slots never account for more than `prefix_cap(n, len)` bytes.
pub proof fn lemma_sum_cap(frags: Seq<bool>, len: nat, n: nat)
    requires
        n <= spec_num_frags(len),
        frags.len() == spec_num_frags(len),
    ensures
        sum_received(frags, len, n) <= prefix_cap(n, len),
        prefix_cap(n, len) <= len,
    decreases n,
{
    let f = FRAG_SIZE as nat;
    if n == 0 {
        lemma_mul_inequality(0, 0, f as int);
    } else {
        lemma_sum_cap(frags, len, (n - 1) as nat);
        lemma_frag_bounds(len, (n - 1) as nat);
        assert(n * f == (n - 1) as nat * f + f) by {
            lemma_mul_is_distributive_add_other_way(f as int, n as int - 1, 1);
        }
        // the slot n-1 starts within the payload, so its cap is exact
        assert(prefix_cap((n - 1) as nat, len) == (n - 1) as nat * f || len == 0);
        assert(prefix_cap((n - 1) as nat, len) + frag_size((n - 1) as nat, len) == prefix_cap(
            n,
            len,
        ));
    }
}

/// With slot `j` missing, the first `n` slots leave at least `j`'s bytes
/// unaccounted for.
pub proof fn lemma_sum_missing(frags: Seq<bool>, len: nat, n: nat, j: nat)
    requires
        j < n <= spec_num_frags(len),
        frags.len() == spec_num_frags(len),
        !frags[j as int],
    ensures
        sum_received(frags, len, n) + frag_size(j, len) <= prefix_cap(n, len),
    decreases n,
{
    let f = FRAG_SIZE as nat;
    lemma_frag_bounds(len, (n - 1) as nat);
    assert(n * f == (n - 1) as nat * f + f) by {
        lemma_mul_is_distributive_add_other_way(f as int, n as int - 1, 1);
    }
    if j == n - 1 {
        lemma_sum_cap(frags, len, (n - 1) as nat);
        assert(prefix_cap((n - 1) as nat, len) + frag_size((n - 1) as nat, len) == prefix_cap(
            n,
            len,
        ));
    } else {
        lemma_sum_missing(frags, len, (n - 1) as nat, j);
        assert(prefix_cap((n - 1) as nat, len) + frag_size((n - 1) as nat, len) == prefix_cap(
            n,
            len,
        ));
    }
}

/// Marking a missing slot `j` adds exactly `j`'s bytes to any prefix that
/// contains it and nothing to one that does not.
pub proof fn lemma_sum_update(frags: Seq<bool>, len: nat, n: nat, j: nat)
    requires
        n <= frags.len(),
        j < frags.len(),
        !frags[j as int],
    ensures
        sum_received(frags.update(j as int, true), len, n) == sum_received(frags, len, n) + if j
            < n {
            frag_size(j, len)
        } else {
            0
        },
    decreases n,
{
    if n > 0 {
        lemma_sum_update(frags, len, (n - 1) as nat, j);
    }
}

/// A prefix of unmarked slots accounts for nothing.
pub proof fn lemma_sum_none(frags: Seq<bool>, len: nat, n: nat)
    requires
        n <= frags.len(),
        forall|i: int| 0 <= i < n ==> !frags[i],
    ensures
        sum_received(frags, len, n) == 0,
    decreases n,
{
    if n > 0 {
        lemma_sum_none(frags, len, (n - 1) as nat);
    }
}

/// A complete non-empty buffer has every fragment slot marked: the byte
/// count can only reach the payload length with no slot missing.
pub proof fn lemma_complete_all_seen(frags: Seq<bool>, len: nat)
    requires
        len > 0,
        frags.len() == spec_num_frags(len),
        sum_received(frags, len, frags.len()) == len,
    ensures
        forall|j: int| 0 <= j < frags.len() ==> frags[j],
{
    let nf = spec_num_frags(len);
    assert forall|j: int| 0 <= j < frags.len() implies frags[j] by {
        if !frags[j] {
            lemma_sum_missing(frags, len, nf, j as nat);
            lemma_sum_cap(frags, len, nf);
            lemma_frag_bounds(len, j as nat);
            assert(false);
        }
    }
}

/// Delivering a duplicate is a no-op: reassembly is idempotent.
pub proof fn lemma_deliver_idempotent(v: BufView, f: FragView)
    requires
        v.wf(),
        valid_for(v, f),
    ensures
        deliver(deliver(v, f), f) == deliver(v, f),
{
    if !v.seen(f.frag_id) {
        assert(deliver(v, f).seen(f.frag_id));
    }
}

/// Delivering a valid fragment preserves the buffer invariant, never
/// shrinks the received count, and completes the buffer exactly when the
/// count reaches the payload length.
pub proof fn lemma_deliver_wf(v: BufView, f: FragView)
    requires
        v.wf(),
        valid_for(v, f),
    ensures
        deliver(v, f).wf(),
        deliver(v, f).msg_len == v.msg_len,
        v.received_len <= deliver(v, f).received_len <= v.msg_len,
        !v.seen(f.frag_id) ==> deliver(v, f).received_len == v.received_len + frag_size(
            f.frag_id,
            v.msg_len,
        ),
        deliver(v, f).seen(f.frag_id),
        forall|i: nat| i != f.frag_id ==> deliver(v, f).seen(i) == v.seen(i),
{
    let nf = spec_num_frags(v.msg_len);
    lemma_sum_cap(v.frags, v.msg_len, nf);
    if !v.seen(f.frag_id) {
        lemma_sum_update(v.frags, v.msg_len, nf, f.frag_id);
        lemma_sum_cap(v.frags.update(f.frag_id as int, true), v.msg_len, nf);
    }
}

/// Delivering a genuine fragment of payload `p` keeps the buffer consistent
/// with `p`.
pub proof fn lemma_deliver_from_payload(v: BufView, f: FragView, p: Seq<u8>)
    requires
        v.wf(),
        valid_for(v, f),
        from_payload(v, p),
        frag_data_from(p, f),
    ensures
        from_payload(deliver(v, f), p),
{
    let v2 = deliver(v, f);
    if !v.seen(f.frag_id) {
        let st = frag_start(f.frag_id) as int;
        let end = frag_end(f.frag_id, v.msg_len) as int;
        lemma_frag_bounds(p.len(), f.frag_id);
        assert forall|b: int| 0 <= b < p.len() implies #[trigger] byte_ok(v2, p, b) by {
            assert(byte_ok(v, p, b));
            lemma_byte_slot(p.len(), b);
            if st <= b < end {
                // the new bytes are p's own bytes for this slot
                assert(f.data[b - st] == p[b]);
            } else {
                // this byte's slot is another fragment's, so its mark and
                // its data are unchanged
                assert(b / (FRAG_SIZE as int) != f.frag_id as int) by {
                    if b < st {
                        // b lies before the slot, so its quotient is smaller
                        assert(f.frag_id >= 1);
                        assert((f.frag_id as int - 1) * (FRAG_SIZE as int) == f.frag_id as int * (
                        FRAG_SIZE as int) - FRAG_SIZE as int) by {
                            vstd::arithmetic::mul::lemma_mul_is_distributive_sub_other_way(
                                FRAG_SIZE as int,
                                f.frag_id as int,
                                1,
                            );
                        }
                        lemma_fundamental_div_mod_converse(
                            st - 1,
                            FRAG_SIZE as int,
                            f.frag_id as int - 1,
                            FRAG_SIZE as int - 1,
                        );
                        lemma_div_is_ordered(b, st - 1, FRAG_SIZE as int);
                    } else {
                        assert(end <= b);
                        if (f.frag_id + 1) * (FRAG_SIZE as nat) <= v.msg_len {
                            assert(end == (f.frag_id + 1) * (FRAG_SIZE as nat));
                            lemma_div_is_ordered(end, b, FRAG_SIZE as int);
                            lemma_fundamental_div_mod_converse(
                                end,
                                FRAG_SIZE as int,
                                f.frag_id as int + 1,
                                0,
                            );
                        } else {
                            assert(end == v.msg_len);
                            assert(false);
                        }
                    }
                }
            }
        }
    }
}

/// Each payload byte belongs to the fragment its offset names, and that
/// fragment's id is in range.
pub proof fn lemma_byte_slot(len: nat, b: int)
    requires
        0 <= b < len,
    ensures
        b / (FRAG_SIZE as int) < spec_num_frags(len),
        frag_start((b / (FRAG_SIZE as int)) as nat) <= b < frag_end(
            (b / (FRAG_SIZE as int)) as nat,
            len,
        ),
{
    let f = FRAG_SIZE as int;
    let i = b / f;
    lemma_fundamental_div_mod(b, f);
    vstd::arithmetic::div_mod::lemma_mod_bound(b, f);
    // i <= (len - 1) / f, and the fragment count is (len - 1) / f + 1
    lemma_div_is_ordered(b, len as int - 1, f);
    let q = ((len - 1) as nat) / (f as nat);
    let r = ((len - 1) as nat) % (f as nat);
    lemma_fundamental_div_mod(len as int - 1, f);
    lemma_fundamental_div_mod_converse((len + f - 1) as int, f, (q + 1) as int, r as int);
    assert(spec_num_frags(len) == q + 1);
    // b lies in slot i: i * f <= b < i * f + f, and the slot's end is at
    // least b + 1
    assert((i + 1) * f == i * f + f) by {
        lemma_mul_is_distributive_add_other_way(f, i, 1);
    }
}

/// A prefix of marked slots accounts for exactly its cap.
pub proof fn lemma_sum_full(frags: Seq<bool>, len: nat, n: nat)
    requires
        n <= spec_num_frags(len),
        frags.len() == spec_num_frags(len),
        forall|i: int| 0 <= i < n ==> frags[i],
    ensures
        sum_received(frags, len, n) == prefix_cap(n, len),
    decreases n,
{
    let f = FRAG_SIZE as nat;
    if n == 0 {
        lemma_mul_inequality(0, 0, f as int);
    } else {
        lemma_sum_full(frags, len, (n - 1) as nat);
        lemma_frag_bounds(len, (n - 1) as nat);
        assert(n * f == (n - 1) as nat * f + f) by {
            lemma_mul_is_distributive_add_other_way(f as int, n as int - 1, 1);
        }
        assert(prefix_cap((n - 1) as nat, len) + frag_size((n - 1) as nat, len) == prefix_cap(
            n,
            len,
        ));
    }
}

/// All fragment slots together cover the whole payload.
pub proof fn lemma_cap_total(len: nat)
    ensures
        prefix_cap(spec_num_frags(len), len) == len,
{
    let f = FRAG_SIZE as nat;
    if len > 0 {
        let q = ((len - 1) as nat) / f;
        let r = ((len - 1) as nat) % f;
        lemma_fundamental_div_mod(len as int - 1, f as int);
        lemma_fundamental_div_mod_converse(
            (len + f - 1) as int,
            f as int,
            (q + 1) as int,
            r as int,
        );
        assert(spec_num_frags(len) == q + 1);
        assert((q + 1) * f == q * f + f) by {
            lemma_mul_is_distributive_add_other_way(f as int, q as int, 1);
        }
    }
}

/// A complete well-formed buffer consistent with payload `p` holds exactly
/// `p`: reassembly never completes with a garbled or partial payload, and
/// any two complete buffers built from the same payload agree.
pub proof fn lemma_complete_payload(v: BufView, p: Seq<u8>)
    requires
        v.wf(),
        from_payload(v, p),
        v.complete(),
    ensures
        v.data =~= p,
{
    if p.len() > 0 {
        lemma_complete_all_seen(v.frags, v.msg_len);
        assert forall|b: int| 0 <= b < p.len() implies v.data[b] == p[b] by {
            lemma_byte_slot(p.len(), b);
            assert(byte_ok(v, p, b));
        }
    }
}

// ------------------------------------------------------------------
// The executable reassembly buffer.
// ------------------------------------------------------------------

/// One in-flight transfer's reassembly buffer: the payload bytes received so
/// far, the transfer's total length, the count of bytes received, and one
/// mark per fragment slot.
#[derive(Debug)]
pub struct BigMessage {
    pub data: Vec<u8>,
    pub msg_len: u32,
    pub received_len: u32,
    pub received_frags: Vec<bool>,
}

impl View for Fragment {
    type V = FragView;

    open spec fn view(&self) -> FragView {
        FragView {
            msg_id: self.msg_id,
            frag_id: self.frag_id as nat,
            msg_len: self.msg_len as nat,
            data: self.data@,
        }
    }
}

impl View for BigMessage {
    type V = BufView;

    open spec fn view(&self) -> BufView {
        BufView {
            data: self.data@,
            msg_len: self.msg_len as nat,
            received_len: self.received_len as nat,
            frags: self.received_frags@,
        }
    }
}

/// A fragment genuine for payload `p` under any transfer id carries exactly
/// the slice of `p` its id names.
pub proof fn lemma_frag_from_view(p: Seq<u8>, msg_id: MsgId, frag: Fragment)
    requires
        crate::transfer::frag_from(p, msg_id, frag),
    ensures
        frag_data_from(p, frag@),
        frag@.msg_len == p.len(),
        frag@.data.len() == frag_size(frag@.frag_id, p.len()),
{
    lemma_frag_bounds(p.len(), frag@.frag_id);
}

/// What one call of `absorb` reports: whether the fragment was new, the
/// cumulative block ack to send (if one is due), and whether this delivery
/// completed the transfer.
pub struct FragOutcome {
    pub fresh: bool,
    pub ack_block: Option<u32>,
    pub completed: bool,
}

/// Cumulative block index acknowledged at `rl` received bytes.
pub fn ack_block(rl: u32) -> (r: u32)
    ensures
        r as nat == ack_block_of(rl as nat),
{
    let bb: u32 = (FRAG_SIZE * BLOCK_SIZE) as u32;
    if rl == 0 {
        0
    } else {
        (rl - 1) / bb
    }
}

impl BigMessage {
    /// The executable buffer is well formed when its view is.
    pub open spec fn wf(self) -> bool {
        self@.wf()
    }

    /// The empty placeholder buffer: a zero-length transfer, not yet
    /// containing its one virtual fragment.
    pub fn default_msg() -> (m: Self)
        ensures
            m@ == fresh_view(0),
            m.wf(),
    {
        let mut received_frags: Vec<bool> = Vec::new();
        received_frags.push(false);
        let m = BigMessage { data: Vec::new(), msg_len: 0, received_len: 0, received_frags };
        proof {
            assert(sum_received(m@.frags, 0, 0) == 0);
            assert(m@.data =~= fresh_view(0).data);
            assert(m@.frags =~= fresh_view(0).frags);
            assert(m@ =~= fresh_view(0));
        }
        m
    }

    /// A sender-side buffer that already holds the whole payload but has
    /// received none of it.
    pub fn from_data(data: Vec<u8>) -> (m: Self)
        requires
            data@.len() <= u32::MAX,
        ensures
            m.wf(),
            m@.data == data@,
            m@.msg_len == data@.len(),
            m@.received_len == 0,
            forall|i: nat| !m@.seen(i),
    {
        let msg_len = data.len() as u32;
        proof {
            lemma_num_frags_bound(msg_len as nat);
        }
        let nf = num_frags(msg_len);
        let mut received_frags: Vec<bool> = Vec::new();
        let mut i: u32 = 0;
        while i < nf
            invariant
                i <= nf,
                received_frags@.len() == i as nat,
                forall|j: int| 0 <= j < i ==> !received_frags@[j],
            decreases nf - i,
        {
            received_frags.push(false);
            i = i + 1;
        }
        let m = BigMessage { data, msg_len, received_len: 0, received_frags };
        proof {
            lemma_sum_none(m@.frags, m@.msg_len, m@.frags.len());
        }
        m
    }

    /// A zero-initialised receive buffer for a transfer of `msg_len` bytes,
    /// created lazily on the transfer's first fragment.
    pub fn fresh(msg_len: u32) -> (m: Self)
        ensures
            m@ == fresh_view(msg_len as nat),
            m.wf(),
    {
        proof {
            lemma_num_frags_bound(msg_len as nat);
        }
        let nf = num_frags(msg_len);
        let data: Vec<u8> = vec![0u8; msg_len as usize];
        let mut received_frags: Vec<bool> = Vec::new();
        let mut i: u32 = 0;
        while i < nf
            invariant
                i <= nf,
                received_frags@.len() == i as nat,
                forall|j: int| 0 <= j < i ==> !received_frags@[j],
            decreases nf - i,
        {
            received_frags.push(false);
            i = i + 1;
        }
        let m = BigMessage { data, msg_len, received_len: 0, received_frags };
        proof {
            lemma_sum_none(m@.frags, m@.msg_len, m@.frags.len());
            assert(m@.data =~= fresh_view(msg_len as nat).data);
            assert(m@.frags =~= fresh_view(msg_len as nat).frags);
            assert(m@ =~= fresh_view(msg_len as nat));
        }
        m
    }

    /// The buffer reports completion exactly when the received byte count
    /// equals the transfer's total length.
    pub fn is_complete(&self) -> (r: bool)
        ensures
            r == self@.complete(),
    {
        self.received_len == self.msg_len
    }

    /// Hands the assembled payload out, consuming the buffer.
    pub fn into_data(self) -> (d: Vec<u8>)
        ensures
            d@ == self@.data,
    {
        self.data
    }

    /// Delivers one fragment into the buffer: a duplicate is dropped (it may
    /// still re-trigger the cumulative ack), a new fragment's bytes are
    /// copied into its slot and counted, a block ack is emitted when the
    /// count completes the transfer or crosses a block's worth of bytes, and
    /// completion is signalled exactly when every byte has been received.
    pub fn absorb(&mut self, frag: &Fragment) -> (o: FragOutcome)
        requires
            old(self).wf(),
            valid_for(old(self)@, frag@),
        ensures
            final(self)@ == deliver(old(self)@, frag@),
            final(self).wf(),
            o.fresh == !old(self)@.seen(frag@.frag_id),
            (o.ack_block is Some) == ack_due(old(self)@, frag@),
            o.ack_block matches Some(b) ==> b as nat == ack_block_of(
                ack_rl(old(self)@, frag@),
            ),
            o.completed == (o.fresh && deliver(old(self)@, frag@).complete()),
    {
        let ghost v0 = self@;
        let ghost fv = frag@;
        proof {
            lemma_frag_bounds(v0.msg_len, fv.frag_id);
            lemma_sum_cap(v0.frags, v0.msg_len, v0.frags.len());
        }
        let bb: u32 = (FRAG_SIZE * BLOCK_SIZE) as u32;
        let fid = frag.frag_id as usize;
        if self.received_frags[fid] {
            // duplicate: drop it, but re-emit the cumulative ack when the
            // count sits at a block boundary or at completion
            let rl = self.received_len;
            let due = rl == self.msg_len || (rl > 0 && rl % bb == 0);
            let ack = if due {
                Some(ack_block(rl))
            } else {
                None
            };
            FragOutcome { fresh: false, ack_block: ack, completed: false }
        } else {
            let rl0 = self.received_len;
            let st: usize = FRAG_SIZE * fid;
            let size = frag.data.len();
            let ghost d0 = self.data@;
            proof {
                assert((fv.frag_id + 1) * (FRAG_SIZE as nat) == fv.frag_id * (FRAG_SIZE as nat)
                    + FRAG_SIZE as nat) by {
                    lemma_mul_is_distributive_add_other_way(FRAG_SIZE as int, fv.frag_id as int, 1);
                }
                assert(st + size == frag_end(fv.frag_id, v0.msg_len));
            }
            let mut k: usize = 0;
            while k < size
                invariant
                    0 <= k <= size,
                    size == frag.data@.len(),
                    st + size <= self.data@.len(),
                    st + size <= usize::MAX,
                    self.data@.len() == d0.len(),
                    self.msg_len == v0.msg_len,
                    self.received_len == v0.received_len,
                    self.received_frags@ == v0.frags,
                    frag@ == fv,
                    forall|b: int|
                        0 <= b < d0.len() ==> self.data@[b] == if st <= b < st + k {
                            frag.data@[b - st]
                        } else {
                            d0[b]
                        },
                decreases size - k,
            {
                self.data[st + k] = frag.data[k];
                k = k + 1;
            }
            proof {
                lemma_sum_update(v0.frags, v0.msg_len, v0.frags.len(), fv.frag_id);
                lemma_sum_cap(
                    v0.frags.update(fv.frag_id as int, true),
                    v0.msg_len,
                    spec_num_frags(v0.msg_len),
                );
            }
            self.received_frags[fid] = true;
            self.received_len = self.received_len + size as u32;
            let rl2 = self.received_len;
            proof {
                assert(self@.data =~= deliver(v0, fv).data);
                assert(self@ =~= deliver(v0, fv));
            }
            let complete = rl2 == self.msg_len;
            let due = complete || rl0 / bb < rl2 / bb;
            let ack = if due {
                Some(ack_block(rl2))
            } else {
                None
            };
            FragOutcome { fresh: true, ack_block: ack, completed: complete }
        }
    }
}

// ------------------------------------------------------------------
// Delivery sequences: what any run of deliveries yields.
// ------------------------------------------------------------------

/// Folds a whole sequence of fragment deliveries over a buffer.
pub open spec fn deliver_seq(v: BufView, fs: Seq<FragView>) -> BufView
    decreases fs.len(),
{
    if fs.len() == 0 {
        v
    } else {
        deliver_seq(deliver(v, fs[0]), fs.drop_first())
    }
}

/// Any run of genuine fragments of payload `p` keeps the buffer well formed
/// and consistent with `p`, and a slot ends marked exactly when it started
/// marked or some delivered fragment named it.
pub proof fn lemma_deliver_seq_props(v: BufView, fs: Seq<FragView>, p: Seq<u8>)
    requires
        v.wf(),
        from_payload(v, p),
        forall|k: int| 0 <= k < fs.len() ==> frag_data_from(p, #[trigger] fs[k]),
    ensures
        deliver_seq(v, fs).wf(),
        from_payload(deliver_seq(v, fs), p),
        forall|i: nat|
            #[trigger] deliver_seq(v, fs).seen(i) <==> (v.seen(i) || exists|k: int|
                0 <= k < fs.len() && (#[trigger] fs[k]).frag_id == i),
    decreases fs.len(),
{
    if fs.len() > 0 {
        let f = fs[0];
        let v2 = deliver(v, f);
        lemma_deliver_wf(v, f);
        lemma_deliver_from_payload(v, f, p);
        lemma_deliver_seq_props(v2, fs.drop_first(), p);
        let w = deliver_seq(v, fs);
        assert forall|i: nat| #[trigger] w.seen(i) implies (v.seen(i) || exists|k: int|
            0 <= k < fs.len() && (#[trigger] fs[k]).frag_id == i) by {
            if !v.seen(i) {
                if v2.seen(i) {
                    assert(fs[0].frag_id == i);
                } else {
                    let k = choose|k: int|
                        0 <= k < fs.drop_first().len() && (#[trigger] fs.drop_first()[k]).frag_id
                            == i;
                    assert(fs[k + 1].frag_id == i);
                }
            }
        }
        assert forall|i: nat|
            (v.seen(i) || exists|k: int|
                0 <= k < fs.len() && (#[trigger] fs[k]).frag_id == i) implies #[trigger] w.seen(
            i,
        ) by {
            if !v.seen(i) {
                let k = choose|k: int| 0 <= k < fs.len() && (#[trigger] fs[k]).frag_id == i;
                if k == 0 {
                    assert(v2.seen(i));
                } else {
                    assert(fs.drop_first()[k - 1].frag_id == i);
                }
            }
        }
    }
}

/// Some fragment of the run names slot `i`.
pub open spec fn covers(fs: Seq<FragView>, i: nat) -> bool {
    exists|k: int| 0 <= k < fs.len() && (#[trigger] fs[k]).frag_id == i
}

/// Round trip: delivering, in any order and with any duplication, a set of
/// genuine fragments of payload `p` that covers every fragment id into a
/// fresh buffer completes the transfer and reassembles `p` byte for byte.
pub proof fn lemma_round_trip(p: Seq<u8>, fs: Seq<FragView>)
    requires
        p.len() <= u32::MAX,
        forall|k: int| 0 <= k < fs.len() ==> frag_data_from(p, #[trigger] fs[k]),
        forall|i: nat| i < spec_num_frags(p.len()) ==> #[trigger] covers(fs, i),
    ensures
        deliver_seq(fresh_view(p.len()), fs).complete(),
        deliver_seq(fresh_view(p.len()), fs).data =~= p,
{
    let v0 = fresh_view(p.len());
    let nf = spec_num_frags(p.len());
    proof_fresh_wf(p.len());
    assert(from_payload(v0, p)) by {
        assert forall|b: int| 0 <= b < p.len() implies #[trigger] byte_ok(v0, p, b) by {
            lemma_byte_slot(p.len(), b);
        }
    }
    lemma_deliver_seq_props(v0, fs, p);
    let w = deliver_seq(v0, fs);
    assert forall|i: int| 0 <= i < w.frags.len() implies w.frags[i] by {
        assert(covers(fs, i as nat));
        let k = choose|k: int| 0 <= k < fs.len() && (#[trigger] fs[k]).frag_id == i as nat;
        assert(fs[k].frag_id == i as nat);
        assert(w.seen(i as nat));
    }
    lemma_sum_full(w.frags, p.len(), nf);
    lemma_cap_total(p.len());
    lemma_complete_payload(w, p);
}

/// Idempotent reassembly, order-insensitively: two delivery runs over the
/// same payload that each cover every fragment id — in any order, with any
/// duplication — reassemble the same bytes, the payload itself.
pub proof fn lemma_order_insensitive(p: Seq<u8>, fs1: Seq<FragView>, fs2: Seq<FragView>)
    requires
        p.len() <= u32::MAX,
        forall|k: int| 0 <= k < fs1.len() ==> frag_data_from(p, #[trigger] fs1[k]),
        forall|k: int| 0 <= k < fs2.len() ==> frag_data_from(p, #[trigger] fs2[k]),
        forall|i: nat| i < spec_num_frags(p.len()) ==> #[trigger] covers(fs1, i),
        forall|i: nat| i < spec_num_frags(p.len()) ==> #[trigger] covers(fs2, i),
    ensures
        deliver_seq(fresh_view(p.len()), fs1).data == deliver_seq(fresh_view(p.len()), fs2).data,
{
    lemma_round_trip(p, fs1);
    lemma_round_trip(p, fs2);
    assert(deliver_seq(fresh_view(p.len()), fs1).data =~= p);
    assert(deliver_seq(fresh_view(p.len()), fs2).data =~= p);
}

/// A fresh buffer is well formed.
pub proof fn proof_fresh_wf(len: nat)
    ensures
        fresh_view(len).wf(),
        !fresh_view(len).complete() || len == 0,
        forall|i: nat| !fresh_view(len).seen(i),
{
    lemma_sum_none(fresh_view(len).frags, len, fresh_view(len).frags.len());
}

// ------------------------------------------------------------------
// An in-order session: one ack per block, strictly increasing.
// ------------------------------------------------------------------

/// Delivering one more fragment after a run is one more delivery.
pub proof fn lemma_deliver_seq_snoc(v: BufView, fs: Seq<FragView>, f: FragView)
    ensures
        deliver_seq(v, fs.push(f)) == deliver(deliver_seq(v, fs), f),
    decreases fs.len(),
{
    if fs.len() == 0 {
        assert(fs.push(f)[0] == f);
        assert(fs.push(f).drop_first() =~= Seq::<FragView>::empty());
        assert(deliver_seq(v, fs.push(f)) == deliver_seq(deliver(v, f), Seq::<FragView>::empty()));
    } else {
        assert(fs.push(f)[0] == fs[0]);
        assert(fs.push(f).drop_first() =~= fs.drop_first().push(f));
        lemma_deliver_seq_snoc(deliver(v, fs[0]), fs.drop_first(), f);
    }
}

/// The genuine fragments of a payload, in id order.
pub open spec fn in_order_frags(p: Seq<u8>, msg_id: MsgId) -> Seq<FragView> {
    Seq::new(
        spec_num_frags(p.len()),
        |i: int|
            FragView {
                msg_id,
                frag_id: i as nat,
                msg_len: p.len(),
                data: p.subrange(frag_start(i as nat) as int, frag_end(i as nat, p.len()) as int),
            },
    )
}

/// The buffer after the first `n` in-order fragments of the payload.
pub open spec fn in_order_state(p: Seq<u8>, msg_id: MsgId, n: int) -> BufView {
    deliver_seq(fresh_view(p.len()), in_order_frags(p, msg_id).subrange(0, n))
}

/// Whether the in-order delivery of fragment `i` triggers an ack: at the
/// end of each block, and at the end of the transfer.
pub open spec fn in_order_fires(len: nat, i: int) -> bool {
    (i + 1) % (BLOCK_SIZE as int) == 0 || i == spec_num_frags(len) - 1
}

/// How many acks the first `n` in-order deliveries trigger.
pub open spec fn in_order_ack_count(len: nat, n: int) -> int
    decreases n,
{
    if n <= 0 {
        0
    } else {
        in_order_ack_count(len, n - 1) + if in_order_fires(len, n - 1) {
            1int
        } else {
            0int
        }
    }
}

/// A whole fragment offset falls into the block its id names.
proof fn lemma_frag_offset_block(i: int)
    requires
        0 <= i,
    ensures
        (i * (FRAG_SIZE as int)) / (block_bytes() as int) == i / (BLOCK_SIZE as int),
{
    let f = FRAG_SIZE as int;
    let bs = BLOCK_SIZE as int;
    vstd::arithmetic::div_mod::lemma_div_denominator(i * f, f, bs);
    assert(i * f == f * i) by {
        vstd::arithmetic::mul::lemma_mul_is_commutative(i, f);
    }
    vstd::arithmetic::div_mod::lemma_div_multiples_vanish(i, f);
    assert(block_bytes() as int == f * bs);
}

/// After `n` in-order fragments, the buffer holds exactly the first `n`
/// slots and counts exactly their bytes.
pub proof fn lemma_in_order_state(p: Seq<u8>, msg_id: MsgId, n: int)
    requires
        p.len() <= u32::MAX,
        0 <= n <= spec_num_frags(p.len()),
    ensures
        in_order_state(p, msg_id, n).wf(),
        in_order_state(p, msg_id, n).msg_len == p.len(),
        in_order_state(p, msg_id, n).received_len == prefix_cap(n as nat, p.len()),
        in_order_state(p, msg_id, n).frags.len() == spec_num_frags(p.len()),
        forall|j: int|
            0 <= j < spec_num_frags(p.len()) ==> (in_order_state(p, msg_id, n).frags[j] <==> j
                < n),
    decreases n,
{
    let len = p.len();
    let nf = spec_num_frags(len);
    let fs = in_order_frags(p, msg_id);
    proof_fresh_wf(len);
    if n == 0 {
        assert(fs.subrange(0, 0) =~= Seq::<FragView>::empty());
        assert(prefix_cap(0, len) == 0) by {
            lemma_mul_inequality(0, 0, FRAG_SIZE as int);
        }
    } else {
        lemma_in_order_state(p, msg_id, n - 1);
        let v = in_order_state(p, msg_id, n - 1);
        let f = fs[n - 1];
        assert(fs.subrange(0, n) =~= fs.subrange(0, n - 1).push(f));
        lemma_deliver_seq_snoc(fresh_view(len), fs.subrange(0, n - 1), f);
        lemma_frag_bounds(len, (n - 1) as nat);
        assert(valid_for(v, f));
        assert(!v.seen(f.frag_id));
        lemma_deliver_wf(v, f);
        // one more slot's bytes take the count to the next cap
        assert((n - 1) * (FRAG_SIZE as int) + FRAG_SIZE as int == n * (FRAG_SIZE as int)) by {
            lemma_mul_is_distributive_add_other_way(FRAG_SIZE as int, n - 1, 1);
        }
        assert(prefix_cap((n - 1) as nat, len) + frag_size((n - 1) as nat, len) == prefix_cap(
            n as nat,
            len,
        ));
    }
}

/// In an in-order session, delivering fragment `i` is always fresh, it
/// triggers an ack exactly at block ends and at the transfer's end, and the
/// ack it triggers names block `i / BLOCK_SIZE`.
pub proof fn lemma_in_order_acks(p: Seq<u8>, msg_id: MsgId, i: int)
    requires
        p.len() <= u32::MAX,
        0 <= i < spec_num_frags(p.len()),
    ensures
        !in_order_state(p, msg_id, i).seen(i as nat),
        ack_due(in_order_state(p, msg_id, i), in_order_frags(p, msg_id)[i]) == in_order_fires(
            p.len(),
            i,
        ),
        in_order_fires(p.len(), i) ==> ack_block_of(
            ack_rl(in_order_state(p, msg_id, i), in_order_frags(p, msg_id)[i]),
        ) == i / (BLOCK_SIZE as int),
{
    let len = p.len();
    let nf = spec_num_frags(len);
    let f = FRAG_SIZE as int;
    let bs = BLOCK_SIZE as int;
    let fb = block_bytes() as int;
    let v = in_order_state(p, msg_id, i);
    let fv = in_order_frags(p, msg_id)[i];
    lemma_in_order_state(p, msg_id, i);
    lemma_frag_bounds(len, i as nat);
    assert(valid_for(v, fv));
    assert(!v.seen(i as nat));
    lemma_deliver_wf(v, fv);
    let rl1 = v.received_len;
    let rl2 = deliver(v, fv).received_len;
    assert((i + 1) * f == i * f + f) by {
        lemma_mul_is_distributive_add_other_way(f, i, 1);
    }
    assert(prefix_cap(i as nat, len) + frag_size(i as nat, len) == prefix_cap((i + 1) as nat, len));
    assert(rl2 == prefix_cap((i + 1) as nat, len));
    if len == 0 {
        // the one virtual fragment completes the empty transfer at once
        assert(nf == 1 && i == 0);
        assert(rl2 == 0);
        assert(in_order_fires(len, 0));
        assert(ack_block_of(0) == 0);
        assert(0int / bs == 0) by {
            vstd::arithmetic::div_mod::lemma_div_of0(bs);
        }
    } else {
        assert(rl1 == i * f);
        let q = i / bs;
        let r = i % bs;
        lemma_fundamental_div_mod(i, bs);
        vstd::arithmetic::div_mod::lemma_mod_bound(i, bs);
        if i + 1 < nf {
            // a full fragment short of the end: the count crosses a block
            // boundary exactly at block ends
            lemma_frag_bounds(len, (i + 1) as nat);
            assert(frag_start((i + 1) as nat) < len);
            assert(rl2 == (i + 1) * f);
            lemma_frag_offset_block(i);
            lemma_frag_offset_block(i + 1);
            assert(rl2 != len);
            if r + 1 == bs {
                // end of a block: i + 1 == (q + 1) * bs
                assert(i + 1 == (q + 1) * bs + 0) by {
                    lemma_mul_is_distributive_add_other_way(bs, q, 1);
                }
                lemma_fundamental_div_mod_converse(i + 1, bs, q + 1, 0);
                assert(ack_due(v, fv));
                assert(in_order_fires(len, i));
                // the ack names block q: rl2 - 1 sits in block q
                assert(rl2 == (q + 1) * fb) by {
                    lemma_mul_is_distributive_add_other_way(bs, q, 1);
                    assert((i + 1) * f == ((q + 1) * bs) * f);
                    assert(((q + 1) * bs) * f == (q + 1) * (bs * f)) by {
                        vstd::arithmetic::mul::lemma_mul_is_associative(q + 1, bs, f);
                    }
                    assert(bs * f == fb) by {
                        vstd::arithmetic::mul::lemma_mul_is_commutative(bs, f);
                    }
                }
                assert(rl2 - 1 == q * fb + (fb - 1)) by {
                    lemma_mul_is_distributive_add_other_way(fb, q, 1);
                }
                lemma_fundamental_div_mod_converse(rl2 - 1, fb, q, fb - 1);
                assert(ack_block_of(rl2 as nat) == q);
            } else {
                // inside a block: i + 1 keeps the quotient, so no crossing
                lemma_fundamental_div_mod_converse(i + 1, bs, q, r + 1);
                assert((i + 1) / bs == q && (i + 1) % bs == r + 1);
                assert(!ack_due(v, fv));
                assert(!in_order_fires(len, i));
            }
        } else {
            // the final fragment completes the transfer
            assert(i == nf - 1);
            lemma_cap_total(len);
            assert(rl2 == len);
            assert(ack_due(v, fv));
            assert(in_order_fires(len, i));
            // the completion ack names the last block, which is i's block
            let qf = ((len - 1) as nat) / (f as nat);
            lemma_fundamental_div_mod(len as int - 1, f);
            lemma_fundamental_div_mod_converse(
                (len + f - 1) as int,
                f,
                (qf + 1) as int,
                (((len - 1) as nat) % (f as nat)) as int,
            );
            assert(nf == qf + 1);
            vstd::arithmetic::div_mod::lemma_div_denominator(len as int - 1, f, bs);
            assert(fb == f * bs);
            assert(ack_block_of(len) == qf as int / bs);
        }
    }
}

/// Acks of an in-order session name strictly increasing blocks.
pub proof fn lemma_in_order_strict(len: nat, i1: int, i2: int)
    requires
        0 <= i1 < i2 < spec_num_frags(len),
        in_order_fires(len, i1),
        in_order_fires(len, i2),
    ensures
        i1 / (BLOCK_SIZE as int) < i2 / (BLOCK_SIZE as int),
{
    let bs = BLOCK_SIZE as int;
    // i1 ends a block (it is not the last fragment), so i1 + 1 is a block
    // multiple and every later fragment sits in a later block
    assert((i1 + 1) % bs == 0);
    let q = (i1 + 1) / bs;
    lemma_fundamental_div_mod(i1 + 1, bs);
    assert(i1 == q * bs + (bs - 1) - bs) by {}
    assert(i1 == (q - 1) * bs + (bs - 1)) by {
        vstd::arithmetic::mul::lemma_mul_is_distributive_sub_other_way(bs, q, 1);
    }
    lemma_fundamental_div_mod_converse(i1, bs, q - 1, bs - 1);
    vstd::arithmetic::div_mod::lemma_div_is_ordered(i1 + 1, i2, bs);
}

/// For a session of `N` blocks delivered in order, the receiver emits
/// exactly `N` cumulative acks.
pub proof fn lemma_in_order_ack_total(len: nat, n: int)
    requires
        len <= u32::MAX,
        0 <= n <= spec_num_frags(len),
    ensures
        in_order_ack_count(len, n) == if n < spec_num_frags(len) {
            n / (BLOCK_SIZE as int)
        } else {
            spec_num_blocks(len) as int
        },
    decreases n,
{
    let bs = BLOCK_SIZE as int;
    let nf = spec_num_frags(len);
    if n == 0 {
        vstd::arithmetic::div_mod::lemma_div_of0(bs);
    } else {
        lemma_in_order_ack_total(len, n - 1);
        let q = (n - 1) / bs;
        let r = (n - 1) % bs;
        lemma_fundamental_div_mod(n - 1, bs);
        vstd::arithmetic::div_mod::lemma_mod_bound(n - 1, bs);
        if r + 1 == bs {
            assert(n == (q + 1) * bs + 0) by {
                lemma_mul_is_distributive_add_other_way(bs, q, 1);
            }
            lemma_fundamental_div_mod_converse(n, bs, q + 1, 0);
        } else {
            lemma_fundamental_div_mod_converse(n, bs, q, r + 1);
        }
        if n == nf {
            // the final delivery always acks; the count reaches the block
            // count
            let qb = ((nf - 1) as nat) / (bs as nat);
            lemma_fundamental_div_mod((nf - 1) as int, bs);
            lemma_fundamental_div_mod_converse(
                (nf + bs - 1) as int,
                bs,
                (qb + 1) as int,
                (((nf - 1) as nat) % (bs as nat)) as int,
            );
            assert(spec_num_blocks(len) == qb + 1);
        }
    }
}

// ------------------------------------------------------------------
// Cumulative acks.
// ------------------------------------------------------------------

/// Ack block indices never decrease as the received count grows.
pub proof fn lemma_ack_monotone(rl1: nat, rl2: nat)
    requires
        rl1 <= rl2,
    ensures
        ack_block_of(rl1) <= ack_block_of(rl2),
{
    if rl1 > 0 {
        lemma_div_is_ordered(rl1 as int - 1, rl2 as int - 1, block_bytes() as int);
    }
}

/// Every ack a transfer of `len` bytes can emit names a block of that
/// transfer, and the ack at completion names the last block.
pub proof fn lemma_ack_in_range(rl: nat, len: nat)
    requires
        rl <= len,
    ensures
        ack_block_of(rl) < spec_num_blocks(len),
        len > 0 ==> ack_block_of(len) + 1 == spec_num_blocks(len),
{
    let f = FRAG_SIZE as nat;
    let b = BLOCK_SIZE as nat;
    if len == 0 {
        assert(spec_num_blocks(0) == 1) by {
            lemma_fundamental_div_mod_converse((1 + b - 1) as int, b as int, 1, 0);
        }
    } else {
        // the fragment count is (len - 1) / f + 1
        let qf = ((len - 1) as nat) / f;
        lemma_fundamental_div_mod(len as int - 1, f as int);
        lemma_fundamental_div_mod_converse(
            (len + f - 1) as int,
            f as int,
            (qf + 1) as int,
            (((len - 1) as nat) % f) as int,
        );
        let nf = spec_num_frags(len);
        assert(nf == qf + 1);
        // the block count is (nf - 1) / b + 1 == qf / b + 1
        let qb = qf / b;
        lemma_fundamental_div_mod(qf as int, b as int);
        lemma_fundamental_div_mod_converse(
            (qf + b) as int,
            b as int,
            (qb + 1) as int,
            (qf % b) as int,
        );
        assert(spec_num_blocks(len) == qb + 1);
        // composing the two divisions: (len - 1) / (f * b) == qf / b
        vstd::arithmetic::div_mod::lemma_div_denominator(len as int - 1, f as int, b as int);
        assert(ack_block_of(len) == qb);
        lemma_ack_monotone(rl, len);
    }
}

// ------------------------------------------------------------------
// The per-transfer reassembly map.
// ------------------------------------------------------------------

/// What one call of `receive_fragment` reports: whether the fragment was
/// dropped as malformed, whether it was new to its transfer, the cumulative
/// block ack to send, and the id of the transfer this delivery completed.
pub struct ReceiveOutcome {
    pub rejected: bool,
    pub fresh: bool,
    pub ack_block: Option<u32>,
    pub completed: Option<MsgId>,
}

/// A fragment whose ids and data length do not fit its own transfer length
/// is malformed and is dropped without touching any buffer.
pub open spec fn spec_valid_frag(f: FragView) -> bool {
    &&& f.frag_id < spec_num_frags(f.msg_len)
    &&& f.data.len() == frag_size(f.frag_id, f.msg_len)
}

/// The reassembly buffers of every in-flight transfer, keyed by transfer id.
pub struct ReassemblyMap {
    pub entries: Vec<(MsgId, BigMessage)>,
}

impl ReassemblyMap {
    /// The key of the entry at position `i`.
    pub open spec fn key_at(self, i: int) -> MsgId {
        self.entries@[i].0
    }

    /// Some entry is keyed by `id`.
    pub open spec fn has(self, id: MsgId) -> bool {
        exists|i: int| 0 <= i < self.entries@.len() && self.key_at(i) == id
    }

    /// The position of the entry keyed by `id`.
    pub open spec fn index_of(self, id: MsgId) -> int {
        choose|i: int| 0 <= i < self.entries@.len() && self.key_at(i) == id
    }

    /// The buffer of the transfer keyed by `id`.
    pub open spec fn buf(self, id: MsgId) -> BufView {
        self.entries@[self.index_of(id)].1@
    }

    /// Keys are unique and every buffer is well formed.
    pub open spec fn wf(self) -> bool {
        &&& forall|i: int, j: int|
            0 <= i < j < self.entries@.len() ==> self.key_at(i) != self.key_at(j)
        &&& forall|i: int|
            0 <= i < self.entries@.len() ==> (#[trigger] self.entries@[i].1)@.wf()
    }

    /// An entry position with the sought key is the position `index_of`
    /// names: keys are unique.
    pub proof fn lemma_index_at(self, id: MsgId, i: int)
        requires
            self.wf(),
            0 <= i < self.entries@.len(),
            self.key_at(i) == id,
        ensures
            self.has(id),
            self.index_of(id) == i,
    {
        assert(self.has(id));
        let j = self.index_of(id);
        if i < j {
            assert(self.key_at(i) != self.key_at(j));
        } else if j < i {
            assert(self.key_at(j) != self.key_at(i));
        }
    }

    /// An empty map: no transfer in flight.
    pub fn new() -> (m: Self)
        ensures
            m.wf(),
            m.entries@.len() == 0,
            forall|id: MsgId| !m.has(id),
    {
        ReassemblyMap { entries: Vec::new() }
    }

    /// The position of the entry keyed by `id`, if any.
    fn find(&self, id: MsgId) -> (r: Option<usize>)
        ensures
            r matches Some(i) ==> 0 <= i < self.entries@.len() && self.key_at(i as int) == id,
            r is None ==> !self.has(id),
    {
        let n = self.entries.len();
        let mut i: usize = 0;
        while i < n
            invariant
                i <= n == self.entries@.len(),
                forall|j: int| 0 <= j < i ==> self.key_at(j) != id,
            decreases n - i,
        {
            if self.entries[i].0 == id {
                return Some(i);
            }
            i = i + 1;
        }
        None
    }

    /// Looks up (or lazily creates) the buffer of the fragment's transfer
    /// and delivers the fragment into it. A malformed fragment, or one whose
    /// total length contradicts its transfer's buffer, is dropped. Reports
    /// the ack due and the completed transfer id, if any.
    pub fn receive_fragment(&mut self, frag: &Fragment) -> (o: ReceiveOutcome)
        requires
            old(self).wf(),
        ensures
            final(self).wf(),
            o.rejected == (!spec_valid_frag(frag@) || (old(self).has(frag.msg_id) && old(self).buf(frag.msg_id).msg_len != frag@.msg_len)),
            o.rejected ==> *final(self) == *old(self) && !o.fresh && o.ack_block is None
                && o.completed is None,
            !o.rejected ==> {
                let pre = if old(self).has(frag.msg_id) {
                    old(self).buf(frag.msg_id)
                } else {
                    fresh_view(frag@.msg_len)
                };
                &&& final(self).has(frag.msg_id)
                &&& final(self).buf(frag.msg_id) == deliver(pre, frag@)
                &&& forall|id: MsgId|
                    id != frag.msg_id ==> final(self).has(id) == old(self).has(id)
                &&& forall|id: MsgId|
                    id != frag.msg_id && old(self).has(id) ==> final(self).buf(id) == old(self).buf(id)
                &&& o.fresh == !pre.seen(frag@.frag_id)
                &&& (o.ack_block is Some) == ack_due(pre, frag@)
                &&& (o.ack_block matches Some(b) ==> b as nat == ack_block_of(ack_rl(pre, frag@)))
                &&& o.completed == if o.fresh && deliver(pre, frag@).complete() {
                    Some(frag.msg_id)
                } else {
                    None::<MsgId>
                }
            },
    {
        let rejected = ReceiveOutcome {
            rejected: true,
            fresh: false,
            ack_block: None,
            completed: None,
        };
        // validate the fragment against its own transfer length
        let nf = num_frags(frag.msg_len);
        if frag.frag_id >= nf {
            return rejected;
        }
        proof {
            lemma_frag_bounds(frag@.msg_len, frag@.frag_id);
            assert((frag@.frag_id + 1) * (FRAG_SIZE as nat) == frag@.frag_id * (FRAG_SIZE as nat)
                + FRAG_SIZE as nat) by {
                lemma_mul_is_distributive_add_other_way(FRAG_SIZE as int, frag.frag_id as int, 1);
            }
        }
        let st64: u64 = (frag.frag_id as u64) * (FRAG_SIZE as u64);
        let end64: u64 = if st64 + (FRAG_SIZE as u64) <= frag.msg_len as u64 {
            st64 + (FRAG_SIZE as u64)
        } else {
            frag.msg_len as u64
        };
        if frag.data.len() as u64 != end64 - st64 {
            return rejected;
        }
        assert(spec_valid_frag(frag@));
        // look the transfer up, creating its buffer on the first fragment
        let ghost m0 = *self;
        let found = self.find(frag.msg_id);
        let i: usize = match found {
            Some(i) => {
                if self.entries[i].1.msg_len != frag.msg_len {
                    proof {
                        m0.lemma_index_at(frag.msg_id, i as int);
                    }
                    return rejected;
                }
                i
            },
            None => {
                let b = BigMessage::fresh(frag.msg_len);
                self.entries.push((frag.msg_id, b));
                proof {
                    proof_fresh_wf(frag@.msg_len);
                    assert forall|k: int, j: int|
                        0 <= k < j < self.entries@.len() implies self.key_at(k) != self.key_at(
                        j,
                    ) by {
                        if j == self.entries@.len() - 1 {
                            assert(!m0.has(frag.msg_id));
                            assert(m0.key_at(k) != frag.msg_id);
                        } else {
                            assert(m0.key_at(k) != m0.key_at(j));
                        }
                    }
                    assert forall|k: int|
                        0 <= k < self.entries@.len() implies (#[trigger] self.entries@[k].1)@.wf()
                        by {
                        if k < self.entries@.len() - 1 {
                            assert(self.entries@[k] == m0.entries@[k]);
                            assert(m0.entries@[k].1@.wf());
                        }
                    }
                }
                self.entries.len() - 1
            },
        };
        let ghost m1 = *self;
        proof {
            assert(self.wf());
            self.lemma_index_at(frag.msg_id, i as int);
            if m0.has(frag.msg_id) {
                m0.lemma_index_at(frag.msg_id, i as int);
            }
            // pushing a new key touches no other transfer
            assert forall|id: MsgId| id != frag.msg_id implies final_has_eq(m0, m1, id) by {
                if m0.has(id) {
                    let j = m0.index_of(id);
                    m0.lemma_index_at(id, j);
                    assert(self.key_at(j) == id);
                    self.lemma_index_at(id, j);
                    assert(self.entries@[j] == m0.entries@[j]);
                } else {
                    if self.has(id) {
                        let j = self.index_of(id);
                        if j < m0.entries@.len() {
                            assert(m0.key_at(j) == id);
                        } else {
                            assert(self.key_at(j) == frag.msg_id);
                        }
                        assert(false);
                    }
                }
            }
        }
        let ghost pre = self.entries@[i as int].1@;
        let e = vstd::std_specs::vec::vec_index_mut(&mut self.entries, i);
        let o = e.1.absorb(frag);
        proof {
            assert(self.entries@[i as int].0 == frag.msg_id);
            assert(self.entries@[i as int].1@ == deliver(pre, frag@));
            assert forall|k: int, j: int|
                0 <= k < j < self.entries@.len() implies self.key_at(k) != self.key_at(j) by {
                assert(m1.key_at(k) != m1.key_at(j));
            }
            assert forall|k: int|
                0 <= k < self.entries@.len() implies (#[trigger] self.entries@[k].1)@.wf() by {
                if k != i {
                    assert(self.entries@[k] == m1.entries@[k]);
                    assert(m1.entries@[k].1@.wf());
                }
            }
            self.lemma_index_at(frag.msg_id, i as int);
            // updating one transfer's buffer touches no other transfer
            assert forall|id: MsgId| id != frag.msg_id implies final_has_eq(m1, *self, id) by {
                if m1.has(id) {
                    let j = m1.index_of(id);
                    m1.lemma_index_at(id, j);
                    assert(self.key_at(j) == id);
                    self.lemma_index_at(id, j);
                    assert(j != i);
                    assert(self.entries@[j] == m1.entries@[j]);
                } else {
                    if self.has(id) {
                        let j = self.index_of(id);
                        assert(m1.key_at(j) == id);
                        assert(m1.has(id));
                    }
                }
            }
        }
        proof {
            assert forall|id: MsgId| id != frag.msg_id implies self.has(id) == m0.has(id) by {
                assert(final_has_eq(m0, m1, id));
                assert(final_has_eq(m1, *self, id));
            }
            assert forall|id: MsgId| id != frag.msg_id && m0.has(id) implies self.buf(id)
                == m0.buf(id) by {
                assert(final_has_eq(m0, m1, id));
                assert(final_has_eq(m1, *self, id));
            }
        }
        let completed = if o.completed {
            Some(frag.msg_id)
        } else {
            None
        };
        ReceiveOutcome { rejected: false, fresh: o.fresh, ack_block: o.ack_block, completed }
    }
}

impl ReassemblyMap {
    /// Moves the buffer of a completed transfer out of the map, removing its
    /// entry; the caller extracts the payload. Absent transfers are a no-op.
    pub fn extract(&mut self, msg_id: MsgId) -> (r: Option<BigMessage>)
        requires
            old(self).wf(),
        ensures
            final(self).wf(),
            (r is Some) == old(self).has(msg_id),
            r matches Some(b) ==> b@ == old(self).buf(msg_id) && !final(self).has(msg_id),
            r is None ==> *final(self) == *old(self),
            forall|id: MsgId| id != msg_id ==> final(self).has(id) == old(self).has(id),
            forall|id: MsgId|
                id != msg_id && old(self).has(id) ==> final(self).buf(id) == old(self).buf(id),
    {
        let ghost m0 = *self;
        match self.find(msg_id) {
            Some(i) => {
                proof {
                    m0.lemma_index_at(msg_id, i as int);
                }
                let (_key, b) = self.entries.remove(i);
                proof {
                    // each surviving entry is one of the old entries
                    assert forall|k: int|
                        0 <= k < self.entries@.len() implies self.entries@[k] == if k < i {
                        m0.entries@[k]
                    } else {
                        m0.entries@[k + 1]
                    } by {}
                    assert forall|k: int, j: int|
                        0 <= k < j < self.entries@.len() implies self.key_at(k) != self.key_at(
                        j,
                    ) by {
                        let k0 = if k < i { k } else { k + 1 };
                        let j0 = if j < i { j } else { j + 1 };
                        assert(m0.key_at(k0) != m0.key_at(j0));
                    }
                    assert forall|k: int|
                        0 <= k < self.entries@.len() implies (#[trigger] self.entries@[k].1)@.wf()
                        by {
                        let k0 = if k < i { k } else { k + 1 };
                        assert(m0.entries@[k0].1@.wf());
                    }
                    assert(!self.has(msg_id)) by {
                        if self.has(msg_id) {
                            let j = self.index_of(msg_id);
                            let j0 = if j < i { j } else { j + 1 };
                            assert(m0.key_at(j0) == msg_id);
                            m0.lemma_index_at(msg_id, j0);
                        }
                    }
                    assert forall|id: MsgId| id != msg_id implies self.has(id) == m0.has(id)
                        && (m0.has(id) ==> self.buf(id) == m0.buf(id)) by {
                        if m0.has(id) {
                            let j0 = m0.index_of(id);
                            m0.lemma_index_at(id, j0);
                            let j = if j0 < i { j0 } else { j0 - 1 };
                            assert(self.key_at(j) == id);
                            self.lemma_index_at(id, j);
                            assert(self.entries@[j] == m0.entries@[j0]);
                        } else {
                            if self.has(id) {
                                let j = self.index_of(id);
                                let j0 = if j < i { j } else { j + 1 };
                                assert(m0.key_at(j0) == id);
                            }
                        }
                    }
                }
                Some(b)
            },
            None => None,
        }
    }
}

/// Transfer `id` stands in both maps alike, with the same buffer.
pub open spec fn final_has_eq(m1: ReassemblyMap, m2: ReassemblyMap, id: MsgId) -> bool {
    &&& m2.has(id) == m1.has(id)
    &&& (m1.has(id) ==> m2.buf(id) == m1.buf(id))
}

} // verus!
