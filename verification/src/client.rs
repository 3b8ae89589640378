//! The client side of arbitration: broadcast one request to every known
//! server, then poll a bounded number of times for a reply that reads as a
//! socket address — the chosen handler — and report failure once the
//! attempts are spent. Also the parsing of the persisted request counter.

use vstd::prelude::*;

use crate::codec::{dec_addr_at, decode_addr};
use crate::envelope::{Addr, Msg, MsgId, Type};

verus! {

/// How many replies (or failed reads) the client waits for before giving up.
pub const CLIENT_ATTEMPTS: u32 = 5;

/// The ClientRequest envelope sent to one server.
pub fn make_client_request(sender: Addr, receiver: Addr, counter: u32) -> (m: Msg)
    ensures
        m.sender == sender,
        m.receiver == receiver,
        m.msg_type matches Type::ClientRequest(c) && c == counter,
        m.payload is None,
{
    Msg { sender, receiver, msg_type: Type::ClientRequest(counter), payload: None }
}

/// The whole broadcast round: one ClientRequest per known server.
pub fn client_request_round(servers: &Vec<Addr>, sender: Addr, counter: u32) -> (msgs: Vec<Msg>)
    ensures
        msgs@.len() == servers@.len(),
        forall|k: int|
            0 <= k < msgs@.len() ==> {
                let m = #[trigger] msgs@[k];
                &&& m.sender == sender
                &&& m.receiver == servers@[k]
                &&& m.msg_type matches Type::ClientRequest(c) && c == counter
                &&& m.payload is None
            },
{
    let n = servers.len();
    let mut msgs: Vec<Msg> = Vec::new();
    let mut i: usize = 0;
    while i < n
        invariant
            i <= n == servers@.len(),
            msgs@.len() == i,
            forall|k: int|
                0 <= k < i ==> {
                    let m = #[trigger] msgs@[k];
                    &&& m.sender == sender
                    &&& m.receiver == servers@[k]
                    &&& m.msg_type matches Type::ClientRequest(c) && c == counter
                    &&& m.payload is None
                },
        decreases n - i,
    {
        msgs.push(make_client_request(sender, servers[i], counter));
        i = i + 1;
    }
    msgs
}

/// The bounded wait for the arbitration's outcome: each reply read (valid
/// or not) spends one attempt; the first one that reads as an address ends
/// the wait in the client's favour.
pub struct RequestPoll {
    pub remaining: u32,
}

impl RequestPoll {
    /// A fresh wait with the full attempt budget.
    pub fn new() -> (p: Self)
        ensures
            p.remaining == CLIENT_ATTEMPTS,
    {
        RequestPoll { remaining: CLIENT_ATTEMPTS }
    }

    /// The attempts are spent: no server responded.
    pub fn exhausted(&self) -> (r: bool)
        ensures
            r == (self.remaining == 0),
    {
        self.remaining == 0
    }

    /// Feeds one received reply in: exactly a six-byte address ends the
    /// wait with the chosen handler; anything else spends one attempt.
    pub fn on_reply(&mut self, bytes: &Vec<u8>) -> (r: Option<Addr>)
        requires
            old(self).remaining > 0,
        ensures
            (r is Some) == (bytes@.len() == 6),
            r matches Some(a) ==> a == dec_addr_at(bytes@, 0) && *final(self) == *old(self),
            r is None ==> final(self).remaining == old(self).remaining - 1,
    {
        match decode_addr(bytes) {
            Some(a) => Some(a),
            None => {
                self.remaining = self.remaining - 1;
                None
            },
        }
    }
}

/// The transfer id the client stamps on its next upload: its own address
/// and its request counter.
pub fn make_msg_id(own: Addr, counter: u32) -> (id: MsgId)
    ensures
        id.addr == own,
        id.counter == counter,
{
    MsgId { addr: own, counter }
}

/// The numeric value of a decimal digit string.
pub open spec fn spec_digits_value(s: Seq<u8>) -> int
    decreases s.len(),
{
    if s.len() == 0 {
        0
    } else {
        spec_digits_value(s.drop_last()) * 10 + (s.last() - 0x30)
    }
}

/// Every byte is a decimal digit.
pub open spec fn spec_all_digits(s: Seq<u8>) -> bool {
    forall|i: int| 0 <= i < s.len() ==> 0x30 <= #[trigger] s[i] <= 0x39
}

/// Reads the persisted request counter: the value of a non-empty decimal
/// digit string that fits the counter's width, and one otherwise.
pub fn parse_req_counter(bytes: &Vec<u8>) -> (r: u32)
    ensures
        (bytes@.len() > 0 && spec_all_digits(bytes@) && spec_digits_value(bytes@) <= u32::MAX)
            ==> r == spec_digits_value(bytes@),
        !(bytes@.len() > 0 && spec_all_digits(bytes@) && spec_digits_value(bytes@) <= u32::MAX)
            ==> r == 1,
{
    let n = bytes.len();
    if n == 0 {
        return 1;
    }
    let mut value: u64 = 0;
    let mut i: usize = 0;
    while i < n
        invariant
            i <= n == bytes@.len(),
            spec_all_digits(bytes@.subrange(0, i as int)),
            value == spec_digits_value(bytes@.subrange(0, i as int)),
            value <= u32::MAX,
        decreases n - i,
    {
        let b = bytes[i];
        if b < 0x30 || b > 0x39 {
            proof {
                assert(bytes@.subrange(0, n as int) =~= bytes@);
                assert(!spec_all_digits(bytes@));
            }
            return 1;
        }
        let next = value * 10 + ((b - 0x30) as u64);
        proof {
            let pre = bytes@.subrange(0, i + 1);
            assert(pre.drop_last() =~= bytes@.subrange(0, i as int));
            assert(pre.last() == bytes@[i as int]);
        }
        if next > u32::MAX as u64 {
            proof {
                if spec_all_digits(bytes@) && spec_digits_value(bytes@) <= u32::MAX {
                    assert(bytes@.subrange(0, n as int) =~= bytes@);
                    lemma_digits_monotone(bytes@, i + 1, n as int);
                    assert(false);
                }
            }
            return 1;
        }
        value = next;
        i = i + 1;
    }
    proof {
        assert(bytes@.subrange(0, n as int) =~= bytes@);
    }
    value as u32
}

/// A digit string's value is never negative.
proof fn lemma_digits_nonneg(s: Seq<u8>)
    requires
        spec_all_digits(s),
    ensures
        spec_digits_value(s) >= 0,
    decreases s.len(),
{
    if s.len() > 0 {
        assert(spec_all_digits(s.drop_last())) by {
            assert forall|i: int|
                0 <= i < s.len() - 1 implies 0x30 <= #[trigger] s.drop_last()[i] <= 0x39 by {
                assert(s.drop_last()[i] == s[i]);
            }
        }
        lemma_digits_nonneg(s.drop_last());
    }
}

/// A digit string's value only grows as digits are appended.
proof fn lemma_digits_monotone(s: Seq<u8>, i: int, n: int)
    requires
        0 <= i <= n <= s.len(),
        spec_all_digits(s.subrange(0, n)),
    ensures
        spec_digits_value(s.subrange(0, i)) <= spec_digits_value(s.subrange(0, n)),
    decreases n - i,
{
    if i < n {
        lemma_digits_monotone(s, i + 1, n);
        let pre = s.subrange(0, i + 1);
        assert(pre.drop_last() =~= s.subrange(0, i));
        assert(0x30 <= pre.last() <= 0x39) by {
            assert(s.subrange(0, n)[i] == s[i]);
            assert(pre[i] == s[i]);
        }
        assert(spec_all_digits(s.subrange(0, i))) by {
            assert forall|j: int|
                0 <= j < i implies 0x30 <= #[trigger] s.subrange(0, i)[j] <= 0x39 by {
                assert(s.subrange(0, n)[j] == s[j]);
                assert(s.subrange(0, i)[j] == s[j]);
            }
        }
        lemma_digits_nonneg(s.subrange(0, i));
    }
}

} // verus!
