//! The per-request arbitration engine: a randomized-priority, broadcast
//! contention protocol that settles, per client request, which single
//! server handles it. Each request moves through unseen, electing and
//! resolved; ties between equal priorities are broken by the higher
//! election port, so `(priority, port)` pairs are totally ordered. The
//! engine is the decision core: the datagram loops feed it events and
//! perform the sends and waits it calls for.

use vstd::prelude::*;

use crate::envelope::{Addr, Msg, MsgId, ReqId, Type};
use crate::rng::draw_in_range;
use crate::table::ReqTable;

verus! {

/// The three addresses one server listens on.
#[derive(Clone, Copy, Debug, PartialEq, Eq, Structural)]
pub struct PeerServer {
    pub service: Addr,
    pub election: Addr,
    pub sendback: Addr,
}

/// One request's election state on one server.
#[derive(Clone, Copy, Debug, PartialEq, Eq, Structural)]
pub struct ElectionState {
    pub own_priority: u32,
    pub initiated_by_me: bool,
    pub received_ok: bool,
}

/// Contender `(p1, port1)` wins against `(p2, port2)`: higher priority, or
/// equal priority and higher election port. Over distinct ports this is a
/// total order.
pub open spec fn beats(p1: u32, port1: u16, p2: u32, port2: u16) -> bool {
    p1 > p2 || (p1 == p2 && port1 > port2)
}

/// Over distinct ports, exactly one of two contenders beats the other.
pub proof fn lemma_beats_total(p1: u32, port1: u16, p2: u32, port2: u16)
    requires
        port1 != port2,
    ensures
        beats(p1, port1, p2, port2) <==> !beats(p2, port2, p1, port1),
{
}

/// Equal priorities are settled deterministically: the higher election
/// port always wins, the lower never does.
pub proof fn lemma_tie_break(p: u32, port_hi: u16, port_lo: u16)
    requires
        port_hi > port_lo,
    ensures
        beats(p, port_hi, p, port_lo),
        !beats(p, port_lo, p, port_hi),
{
}

/// What the engine asks the election loop to send on one inbound
/// election request.
pub struct ElectionReaction {
    /// Reply OKMsg with this priority to the requester: it lost to us.
    pub send_ok: Option<u32>,
    /// Broadcast our own ElectionRequest with this priority to every peer:
    /// we had not yet contended for this request.
    pub broadcast: Option<u32>,
}

/// What the engine decides at the end of an initiator's wait window.
pub struct Conclusion {
    /// No OK arrived: this server is the coordinator for the request.
    pub won: bool,
    /// The buffered client to reply to, if the request is still buffered.
    pub reply_to: Option<Addr>,
}

/// One server's arbitration state: the per-request election states, the
/// buffered client requests, the static peer list and own addresses, and
/// the simulated-crash flag.
pub struct ServerStats {
    pub elections: ReqTable<ElectionState>,
    pub requests_buffer: ReqTable<Msg>,
    pub peer_servers: Vec<PeerServer>,
    pub own: PeerServer,
    pub down: bool,
}

impl ServerStats {
    /// Both tables keep their keys unique.
    pub open spec fn wf(self) -> bool {
        &&& self.elections.wf()
        &&& self.requests_buffer.wf()
    }

    /// A server that knows its own addresses and its peers, with no
    /// request in flight.
    pub fn new(own: PeerServer, peer_servers: Vec<PeerServer>) -> (s: Self)
        ensures
            s.wf(),
            s.own == own,
            s.peer_servers == peer_servers,
            !s.down,
            forall|id: ReqId| !s.elections.has(id),
            forall|id: ReqId| !s.requests_buffer.has(id),
            s.elections.spec_is_empty(),
    {
        ServerStats {
            elections: ReqTable::new(),
            requests_buffer: ReqTable::new(),
            peer_servers,
            own,
            down: false,
        }
    }

    /// The static peer list.
    pub fn get_peer_servers(&self) -> (r: Vec<PeerServer>)
        ensures
            r@ == self.peer_servers@,
    {
        let n = self.peer_servers.len();
        let mut r: Vec<PeerServer> = Vec::new();
        let mut i: usize = 0;
        while i < n
            invariant
                i <= n == self.peer_servers@.len(),
                r@ == self.peer_servers@.subrange(0, i as int),
            decreases n - i,
        {
            r.push(self.peer_servers[i]);
            proof {
                assert(r@ =~= self.peer_servers@.subrange(0, i + 1));
            }
            i = i + 1;
        }
        proof {
            assert(r@ =~= self.peer_servers@);
        }
        r
    }

    /// Buffers a fresh client request so the eventual winner can reply to
    /// the right client, and reports whether an election for it is already
    /// running; a request already buffered is kept as it was.
    pub fn buffer_request(&mut self, req_id: ReqId, msg: Msg) -> (running: bool)
        requires
            old(self).wf(),
        ensures
            final(self).wf(),
            running == old(self).elections.has(req_id),
            final(self).requests_buffer.has(req_id),
            !old(self).requests_buffer.has(req_id) ==> final(self).requests_buffer.val(req_id)
                == msg,
            old(self).requests_buffer.has(req_id) ==> final(self).requests_buffer.val(req_id)
                == old(self).requests_buffer.val(req_id),
            forall|id: ReqId|
                id != req_id ==> final(self).requests_buffer.has(id) == old(self).requests_buffer.has(id),
            forall|id: ReqId|
                id != req_id && old(self).requests_buffer.has(id) ==> final(self).requests_buffer.val(id) == old(self).requests_buffer.val(id),
            final(self).elections == old(self).elections,
            final(self).peer_servers == old(self).peer_servers,
            final(self).own == old(self).own,
            final(self).down == old(self).down,
    {
        if !self.requests_buffer.contains(req_id) {
            self.requests_buffer.insert(req_id, msg);
        }
        self.elections.contains(req_id)
    }

    /// Starts contending for a request with the drawn priority, marking
    /// this server an initiator and returning the priority to broadcast in
    /// an ElectionRequest to every peer. With `only_if_fresh` (the
    /// direct-client path, after the jitter) nothing happens if an election
    /// for the request is already known; otherwise an existing priority is
    /// reused and only the initiator mark is added.
    pub fn start_election(&mut self, req_id: ReqId, drawn: u32, only_if_fresh: bool) -> (r: Option<
        u32,
    >)
        requires
            old(self).wf(),
        ensures
            final(self).wf(),
            (r is None) == (only_if_fresh && old(self).elections.has(req_id)),
            r matches Some(p) ==> {
                let p0 = if old(self).elections.has(req_id) {
                    old(self).elections.val(req_id).own_priority
                } else {
                    drawn
                };
                &&& p == p0
                &&& final(self).elections.has(req_id)
                &&& final(self).elections.val(req_id) == (ElectionState {
                    own_priority: p0,
                    initiated_by_me: true,
                    received_ok: old(self).elections.has(req_id) && old(self).elections.val(
                        req_id,
                    ).received_ok,
                })
            },
            r is None ==> final(self).elections == old(self).elections,
            forall|id: ReqId|
                id != req_id ==> final(self).elections.has(id) == old(self).elections.has(id),
            forall|id: ReqId|
                id != req_id && old(self).elections.has(id) ==> final(self).elections.val(id)
                    == old(self).elections.val(id),
            final(self).requests_buffer == old(self).requests_buffer,
            final(self).peer_servers == old(self).peer_servers,
            final(self).own == old(self).own,
            final(self).down == old(self).down,
    {
        let existing = self.elections.get(req_id);
        match existing {
            Some(st) => {
                if only_if_fresh {
                    return None;
                }
                let st = *st;
                let p0 = st.own_priority;
                self.elections.insert(
                    req_id,
                    ElectionState {
                        own_priority: p0,
                        initiated_by_me: true,
                        received_ok: st.received_ok,
                    },
                );
                Some(p0)
            },
            None => {
                self.elections.insert(
                    req_id,
                    ElectionState {
                        own_priority: drawn,
                        initiated_by_me: true,
                        received_ok: false,
                    },
                );
                Some(drawn)
            },
        }
    }

    /// Reacts to a peer's ElectionRequest carrying priority `p` from the
    /// election port `sender_port`: lazily assigns (or reuses) this
    /// server's own priority; replies OK exactly when this server beats the
    /// requester under the `(priority, port)` order, and then also contends
    /// itself if it had not yet; a losing comparison concedes silently.
    pub fn handle_election_request(
        &mut self,
        req_id: ReqId,
        p: u32,
        sender_port: u16,
        drawn: u32,
    ) -> (r: ElectionReaction)
        requires
            old(self).wf(),
        ensures
            final(self).wf(),
            ({
                let p0 = if old(self).elections.has(req_id) {
                    old(self).elections.val(req_id).own_priority
                } else {
                    drawn
                };
                let init0 = old(self).elections.has(req_id) && old(self).elections.val(
                    req_id,
                ).initiated_by_me;
                let win = beats(p0, old(self).own.election.port, p, sender_port);
                &&& (r.send_ok is Some) == win
                &&& (r.send_ok matches Some(x) ==> x == p0)
                &&& (r.broadcast is Some) == (win && !init0)
                &&& (r.broadcast matches Some(x) ==> x == p0)
                &&& final(self).elections.has(req_id)
                &&& final(self).elections.val(req_id) == (ElectionState {
                    own_priority: p0,
                    initiated_by_me: init0 || (win && !init0),
                    received_ok: old(self).elections.has(req_id) && old(self).elections.val(
                        req_id,
                    ).received_ok,
                })
            }),
            forall|id: ReqId|
                id != req_id ==> final(self).elections.has(id) == old(self).elections.has(id),
            forall|id: ReqId|
                id != req_id && old(self).elections.has(id) ==> final(self).elections.val(id)
                    == old(self).elections.val(id),
            final(self).requests_buffer == old(self).requests_buffer,
            final(self).peer_servers == old(self).peer_servers,
            final(self).own == old(self).own,
            final(self).down == old(self).down,
    {
        let existing = self.elections.get(req_id);
        let st = match existing {
            Some(st) => *st,
            None => ElectionState {
                own_priority: drawn,
                initiated_by_me: false,
                received_ok: false,
            },
        };
        let own_port = self.own.election.port;
        let win = st.own_priority > p || (st.own_priority == p && own_port > sender_port);
        if win {
            let propagate = !st.initiated_by_me;
            self.elections.insert(
                req_id,
                ElectionState {
                    own_priority: st.own_priority,
                    initiated_by_me: true,
                    received_ok: st.received_ok,
                },
            );
            ElectionReaction {
                send_ok: Some(st.own_priority),
                broadcast: if propagate {
                    Some(st.own_priority)
                } else {
                    None
                },
            }
        } else {
            // concede silently: keep the (possibly lazily created) state
            self.elections.insert(req_id, st);
            ElectionReaction { send_ok: None, broadcast: None }
        }
    }

    /// Records an OKMsg for a request: some higher-priority server beat
    /// this one, so it will not declare itself coordinator. The election
    /// state is lazily created if the OK outruns everything else.
    pub fn handle_ok_msg(&mut self, req_id: ReqId, drawn: u32)
        requires
            old(self).wf(),
        ensures
            final(self).wf(),
            final(self).elections.has(req_id),
            final(self).elections.val(req_id) == (ElectionState {
                own_priority: if old(self).elections.has(req_id) {
                    old(self).elections.val(req_id).own_priority
                } else {
                    drawn
                },
                initiated_by_me: old(self).elections.has(req_id) && old(self).elections.val(
                    req_id,
                ).initiated_by_me,
                received_ok: true,
            }),
            forall|id: ReqId|
                id != req_id ==> final(self).elections.has(id) == old(self).elections.has(id),
            forall|id: ReqId|
                id != req_id && old(self).elections.has(id) ==> final(self).elections.val(id)
                    == old(self).elections.val(id),
            final(self).requests_buffer == old(self).requests_buffer,
            final(self).peer_servers == old(self).peer_servers,
            final(self).own == old(self).own,
            final(self).down == old(self).down,
    {
        let existing = self.elections.get(req_id);
        let st = match existing {
            Some(st) => *st,
            None => ElectionState {
                own_priority: drawn,
                initiated_by_me: false,
                received_ok: false,
            },
        };
        self.elections.insert(
            req_id,
            ElectionState {
                own_priority: st.own_priority,
                initiated_by_me: st.initiated_by_me,
                received_ok: true,
            },
        );
    }

    /// Ends an initiator's wait window: with no OK received this server
    /// wins and must broadcast CoordinatorBrdCast and reply to the buffered
    /// client; with an OK received it concedes. Either way the request's
    /// state and buffered envelope are discarded. A server that never
    /// initiated the election leaves everything unchanged.
    pub fn conclude_election(&mut self, req_id: ReqId) -> (c: Conclusion)
        requires
            old(self).wf(),
        ensures
            final(self).wf(),
            c.won == (old(self).elections.has(req_id) && old(self).elections.val(
                req_id,
            ).initiated_by_me && !old(self).elections.val(req_id).received_ok),
            c.won ==> {
                &&& (c.reply_to is Some) == old(self).requests_buffer.has(req_id)
                &&& (c.reply_to matches Some(a) ==> a == old(self).requests_buffer.val(
                    req_id,
                ).sender)
            },
            !c.won ==> c.reply_to is None,
            (old(self).elections.has(req_id) && old(self).elections.val(
                req_id,
            ).initiated_by_me) ==> !final(self).elections.has(req_id) && !final(self).requests_buffer.has(req_id),
            !(old(self).elections.has(req_id) && old(self).elections.val(
                req_id,
            ).initiated_by_me) ==> *final(self) == *old(self),
            forall|id: ReqId|
                id != req_id ==> final(self).elections.has(id) == old(self).elections.has(id)
                    && final(self).requests_buffer.has(id) == old(self).requests_buffer.has(id),
            forall|id: ReqId|
                id != req_id && old(self).elections.has(id) ==> final(self).elections.val(id)
                    == old(self).elections.val(id),
            forall|id: ReqId|
                id != req_id && old(self).requests_buffer.has(id) ==> final(self).requests_buffer.val(id) == old(self).requests_buffer.val(id),
            final(self).peer_servers == old(self).peer_servers,
            final(self).own == old(self).own,
            final(self).down == old(self).down,
    {
        let initiated = match self.elections.get(req_id) {
            Some(st) => st.initiated_by_me,
            None => false,
        };
        if !initiated {
            return Conclusion { won: false, reply_to: None };
        }
        let won = match self.elections.get(req_id) {
            Some(st) => !st.received_ok,
            None => false,
        };
        let reply_to = if won {
            match self.requests_buffer.get(req_id) {
                Some(m) => Some(m.sender),
                None => None,
            }
        } else {
            None
        };
        let _ = self.elections.remove(req_id);
        let _ = self.requests_buffer.remove(req_id);
        Conclusion { won, reply_to }
    }

    /// Handles a CoordinatorBrdCast: the universal garbage collection for a
    /// request, clearing its election state and buffered envelope whatever
    /// stake this server had in the outcome.
    pub fn handle_coordinator(&mut self, req_id: ReqId)
        requires
            old(self).wf(),
        ensures
            final(self).wf(),
            !final(self).elections.has(req_id),
            !final(self).requests_buffer.has(req_id),
            forall|id: ReqId|
                id != req_id ==> final(self).elections.has(id) == old(self).elections.has(id)
                    && final(self).requests_buffer.has(id) == old(self).requests_buffer.has(id),
            forall|id: ReqId|
                id != req_id && old(self).elections.has(id) ==> final(self).elections.val(id)
                    == old(self).elections.val(id),
            forall|id: ReqId|
                id != req_id && old(self).requests_buffer.has(id) ==> final(self).requests_buffer.val(id) == old(self).requests_buffer.val(id),
            final(self).peer_servers == old(self).peer_servers,
            final(self).own == old(self).own,
            final(self).down == old(self).down,
    {
        let _ = self.elections.remove(req_id);
        let _ = self.requests_buffer.remove(req_id);
    }

    /// Enters or leaves the simulated-crash window.
    pub fn set_down(&mut self, down: bool)
        requires
            old(self).wf(),
        ensures
            final(self).wf(),
            *final(self) == (ServerStats { down, ..*old(self) }),
    {
        self.down = down;
    }

    /// A downed server ignores inbound election traffic for requests it is
    /// not already electing.
    pub fn should_ignore(&self) -> (r: bool)
        ensures
            r == (self.down && self.elections.spec_is_empty()),
    {
        self.down && self.elections.is_empty()
    }

    /// The ElectionRequest envelopes one initiation broadcasts: one per
    /// peer, carrying the priority and naming the request in the payload.
    pub fn election_broadcast(&self, req_id: ReqId, priority: u32) -> (msgs: Vec<Msg>)
        ensures
            msgs@.len() == self.peer_servers@.len(),
            forall|k: int|
                0 <= k < msgs@.len() ==> {
                    let m = #[trigger] msgs@[k];
                    &&& m.sender == self.own.election
                    &&& m.receiver == self.peer_servers@[k].election
                    &&& m.msg_type matches Type::ElectionRequest(x) && x == priority
                    &&& m.payload == Some(req_id)
                },
    {
        let n = self.peer_servers.len();
        let mut msgs: Vec<Msg> = Vec::new();
        let mut i: usize = 0;
        while i < n
            invariant
                i <= n == self.peer_servers@.len(),
                msgs@.len() == i,
                forall|k: int|
                    0 <= k < i ==> {
                        let m = #[trigger] msgs@[k];
                        &&& m.sender == self.own.election
                        &&& m.receiver == self.peer_servers@[k].election
                        &&& m.msg_type matches Type::ElectionRequest(x) && x == priority
                        &&& m.payload == Some(req_id)
                    },
            decreases n - i,
        {
            msgs.push(
                Msg {
                    sender: self.own.election,
                    receiver: self.peer_servers[i].election,
                    msg_type: Type::ElectionRequest(priority),
                    payload: Some(req_id),
                },
            );
            i = i + 1;
        }
        msgs
    }

    /// The CoordinatorBrdCast envelopes the winner broadcasts: one per
    /// peer, announcing this server's election address.
    pub fn coordinator_broadcast(&self, req_id: ReqId) -> (msgs: Vec<Msg>)
        ensures
            msgs@.len() == self.peer_servers@.len(),
            forall|k: int|
                0 <= k < msgs@.len() ==> {
                    let m = #[trigger] msgs@[k];
                    &&& m.sender == self.own.election
                    &&& m.receiver == self.peer_servers@[k].election
                    &&& m.msg_type matches Type::CoordinatorBrdCast(a) && a == self.own.election
                    &&& m.payload == Some(req_id)
                },
    {
        let n = self.peer_servers.len();
        let mut msgs: Vec<Msg> = Vec::new();
        let mut i: usize = 0;
        while i < n
            invariant
                i <= n == self.peer_servers@.len(),
                msgs@.len() == i,
                forall|k: int|
                    0 <= k < i ==> {
                        let m = #[trigger] msgs@[k];
                        &&& m.sender == self.own.election
                        &&& m.receiver == self.peer_servers@[k].election
                        &&& m.msg_type matches Type::CoordinatorBrdCast(a) && a == self.own.election
                        &&& m.payload == Some(req_id)
                    },
            decreases n - i,
        {
            msgs.push(
                Msg {
                    sender: self.own.election,
                    receiver: self.peer_servers[i].election,
                    msg_type: Type::CoordinatorBrdCast(self.own.election),
                    payload: Some(req_id),
                },
            );
            i = i + 1;
        }
        msgs
    }

    /// The OKMsg envelope sent to a beaten requester.
    pub fn ok_msg(&self, req_id: ReqId, priority: u32, to: Addr) -> (m: Msg)
        ensures
            m.sender == self.own.election,
            m.receiver == to,
            m.msg_type matches Type::OKMsg(x) && x == priority,
            m.payload == Some(req_id),
    {
        Msg {
            sender: self.own.election,
            receiver: to,
            msg_type: Type::OKMsg(priority),
            payload: Some(req_id),
        }
    }

    /// Picks a random peer and builds the Fail envelope that forwards the
    /// crash simulation to it; with no peers there is nothing to send.
    pub fn fail_msg(&self, seconds: u32) -> (r: Option<Msg>)
        requires
            self.peer_servers@.len() <= u32::MAX,
        ensures
            (r is Some) == (self.peer_servers@.len() > 0),
            r matches Some(m) ==> {
                &&& m.sender == self.own.election
                &&& (exists|i: int|
                    0 <= i < self.peer_servers@.len() && m.receiver == (
                    #[trigger] self.peer_servers@[i]).election)
                &&& m.msg_type matches Type::Fail(s) && s == seconds
                &&& m.payload is None
            },
    {
        let n = self.peer_servers.len();
        if n == 0 {
            return None;
        }
        let i = draw_in_range(0, n as u32) as usize;
        let target = self.peer_servers[i].election;
        proof {
            assert(self.peer_servers@[i as int].election == target);
        }
        Some(
            Msg {
                sender: self.own.election,
                receiver: target,
                msg_type: Type::Fail(seconds),
                payload: None,
            },
        )
    }
}

} // verus!
