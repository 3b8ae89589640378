//! A lossless, synchronous run of the arbitration protocol over a set of
//! simulated servers: every reachable server observes the same client
//! request inside the jitter window, the election messages and OKs are all
//! delivered, and every initiator's wait window then ends. Exactly one
//! coordinator emerges — the contender that beats every other reachable
//! contender under the `(priority, port)` order — and the reply goes to the
//! client that asked. A server forced into its crash window takes no part,
//! and arbitration still converges among the rest.

use vstd::prelude::*;

use crate::arbitration::{beats, lemma_beats_total, ElectionState, PeerServer, ServerStats};
use crate::envelope::{Addr, Msg, ReqId, Type};

verus! {

/// One simulated server: its addresses, its drawn priority for the request,
/// and whether it sits in its crash window.
#[derive(Clone, Copy, Debug, PartialEq, Eq, Structural)]
pub struct SimServer {
    pub own: PeerServer,
    pub priority: u32,
    pub down: bool,
}

/// What one simulated arbitration run reports.
pub struct SimOutcome {
    /// The one server that declared itself coordinator, if any.
    pub winner: Option<usize>,
    /// How many servers declared themselves coordinator.
    pub coordinator_count: usize,
    /// Where the winner's reply went: the client that asked.
    pub reply_to: Option<Addr>,
    /// The service address the client is told to use: the winner's own.
    pub winner_service: Option<Addr>,
}

/// Reachable server `i` beats every other reachable server.
pub open spec fn champion(ss: Seq<SimServer>, i: int) -> bool {
    &&& 0 <= i < ss.len()
    &&& !ss[i].down
    &&& forall|j: int|
        0 <= j < ss.len() && j != i && !ss[j].down ==> beats(
            ss[i].priority,
            ss[i].own.election.port,
            ss[j].priority,
            ss[j].own.election.port,
        )
}

/// Some reachable server beats server `i`: it will receive an OK.
pub open spec fn beaten(ss: Seq<SimServer>, i: int) -> bool {
    exists|j: int|
        0 <= j < ss.len() && j != i && !ss[j].down && beats(
            ss[j].priority,
            ss[j].own.election.port,
            ss[i].priority,
            ss[i].own.election.port,
        )
}

/// Every two servers listen on distinct election ports.
pub open spec fn distinct_ports(ss: Seq<SimServer>) -> bool {
    forall|i: int, j: int|
        0 <= i < j < ss.len() ==> (#[trigger] ss[i]).own.election.port != (
        #[trigger] ss[j]).own.election.port
}

/// Some server is reachable.
pub open spec fn some_up(ss: Seq<SimServer>) -> bool {
    exists|i: int| 0 <= i < ss.len() && !(#[trigger] ss[i]).down
}

/// The `(priority, port)` order is transitive.
pub proof fn lemma_beats_trans(p1: u32, q1: u16, p2: u32, q2: u16, p3: u32, q3: u16)
    requires
        beats(p1, q1, p2, q2),
        beats(p2, q2, p3, q3),
    ensures
        beats(p1, q1, p3, q3),
{
}

/// At most one champion: two would each beat the other.
pub proof fn lemma_champion_unique(ss: Seq<SimServer>, i: int, j: int)
    requires
        champion(ss, i),
        champion(ss, j),
    ensures
        i == j,
{
}

/// A reachable server that nobody beats is the champion, and conversely,
/// when ports are distinct.
pub proof fn lemma_unbeaten_is_champion(ss: Seq<SimServer>, i: int)
    requires
        distinct_ports(ss),
        0 <= i < ss.len(),
        !ss[i].down,
    ensures
        !beaten(ss, i) <==> champion(ss, i),
{
    if !beaten(ss, i) {
        assert forall|j: int| 0 <= j < ss.len() && j != i && !ss[j].down implies beats(
            ss[i].priority,
            ss[i].own.election.port,
            ss[j].priority,
            ss[j].own.election.port,
        ) by {
            if i < j {
                assert(ss[i].own.election.port != ss[j].own.election.port);
            } else {
                assert(ss[j].own.election.port != ss[i].own.election.port);
            }
            lemma_beats_total(
                ss[j].priority,
                ss[j].own.election.port,
                ss[i].priority,
                ss[i].own.election.port,
            );
        }
    } else {
        let j = choose|j: int|
            0 <= j < ss.len() && j != i && !ss[j].down && beats(
                ss[j].priority,
                ss[j].own.election.port,
                ss[i].priority,
                ss[i].own.election.port,
            );
        if champion(ss, i) {
            assert(beats(
                ss[i].priority,
                ss[i].own.election.port,
                ss[j].priority,
                ss[j].own.election.port,
            ));
        }
    }
}

/// Engine `e` is contending for the request: it buffered the client's
/// envelope, drew its priority, initiated, and has (or has not) been beaten.
pub open spec fn contending(
    e: ServerStats,
    s: SimServer,
    req_id: ReqId,
    client: Addr,
    ok: bool,
) -> bool {
    &&& e.wf()
    &&& e.own == s.own
    &&& e.elections.has(req_id)
    &&& e.elections.val(req_id) == (ElectionState {
        own_priority: s.priority,
        initiated_by_me: true,
        received_ok: ok,
    })
    &&& e.requests_buffer.has(req_id)
    &&& e.requests_buffer.val(req_id).sender == client
}

/// Runs one request's arbitration to the end over a lossless network:
/// delivers the client request to every reachable server, exchanges every
/// election message and OK, and ends every initiator's wait window. With
/// distinct ports, exactly one coordinator emerges whenever any server is
/// reachable — the champion — and it replies to the requesting client with
/// its own service address; a downed contender merely loses by silence.
pub fn simulate_arbitration(servers: &Vec<SimServer>, req_id: ReqId, client: Addr) -> (o:
    SimOutcome)
    requires
        distinct_ports(servers@),
    ensures
        some_up(servers@) ==> {
            &&& o.winner matches Some(w) && champion(servers@, w as int)
            &&& o.coordinator_count == 1
            &&& o.reply_to == Some(client)
            &&& (o.winner matches Some(w) ==> o.winner_service == Some(
                servers@[w as int].own.service,
            ))
        },
        !some_up(servers@) ==> o.winner is None && o.coordinator_count == 0,
{
    let ghost ss = servers@;
    let n = servers.len();
    // every reachable server observes the client request within the jitter
    // window, buffers it, and initiates an election with its drawn priority
    let mut engines: Vec<ServerStats> = Vec::new();
    let mut i: usize = 0;
    while i < n
        invariant
            ss == servers@,
            i <= n == ss.len(),
            engines@.len() == i,
            forall|j: int|
                0 <= j < i && !ss[j].down ==> contending(
                    #[trigger] engines@[j],
                    ss[j],
                    req_id,
                    client,
                    false,
                ),
        decreases n - i,
    {
        let s = servers[i];
        let mut e = ServerStats::new(s.own, Vec::new());
        if !s.down {
            let msg = Msg {
                sender: client,
                receiver: s.own.election,
                msg_type: Type::ClientRequest(req_id.counter),
                payload: None,
            };
            let _ = e.buffer_request(req_id, msg);
            let _ = e.start_election(req_id, s.priority, true);
        }
        engines.push(e);
        i = i + 1;
    }
    // every election broadcast reaches every other reachable server, whose
    // OK (if it beats the sender) reaches the sender
    let mut i: usize = 0;
    while i < n
        invariant
            ss == servers@,
            i <= n == ss.len(),
            engines@.len() == n,
            distinct_ports(ss),
            forall|j: int|
                0 <= j < n && !ss[j].down ==> contending(
                    #[trigger] engines@[j],
                    ss[j],
                    req_id,
                    client,
                    j < i && beaten(ss, j),
                ),
        decreases n - i,
    {
        if !servers[i].down {
            let p_i = servers[i].priority;
            let port_i = servers[i].own.election.port;
            let mut got_ok = false;
            let mut j: usize = 0;
            while j < n
                invariant
                    ss == servers@,
                    j <= n == ss.len(),
                    i < n,
                    !ss[i as int].down,
                    p_i == ss[i as int].priority,
                    port_i == ss[i as int].own.election.port,
                    engines@.len() == n,
                    distinct_ports(ss),
                    got_ok == exists|k: int|
                        0 <= k < j && k != i && !ss[k].down && beats(
                            (#[trigger] ss[k]).priority,
                            ss[k].own.election.port,
                            p_i,
                            port_i,
                        ),
                    forall|k: int|
                        0 <= k < n && !ss[k].down ==> contending(
                            #[trigger] engines@[k],
                            ss[k],
                            req_id,
                            client,
                            k < i && beaten(ss, k),
                        ),
                decreases n - j,
            {
                if j != i && !servers[j].down {
                    let ghost eng0 = engines@;
                    let e = vstd::std_specs::vec::vec_index_mut(&mut engines, j);
                    let r = e.handle_election_request(req_id, p_i, port_i, 0);
                    if r.send_ok.is_some() {
                        got_ok = true;
                    }
                    proof {
                        assert forall|k: int|
                            0 <= k < n && !ss[k].down implies contending(
                            #[trigger] engines@[k],
                            ss[k],
                            req_id,
                            client,
                            k < i && beaten(ss, k),
                        ) by {
                            if k != j {
                                assert(engines@[k] == eng0[k]);
                            }
                        }
                    }
                }
                j = j + 1;
            }
            if got_ok {
                proof {
                    assert(beaten(ss, i as int));
                }
                let ghost eng0 = engines@;
                let e = vstd::std_specs::vec::vec_index_mut(&mut engines, i);
                e.handle_ok_msg(req_id, 0);
                proof {
                    assert forall|k: int|
                        0 <= k < n && !ss[k].down implies contending(
                        #[trigger] engines@[k],
                        ss[k],
                        req_id,
                        client,
                        k < i + 1 && beaten(ss, k),
                    ) by {
                        if k != i {
                            assert(engines@[k] == eng0[k]);
                        }
                    }
                }
            } else {
                proof {
                    if beaten(ss, i as int) {
                        let k = choose|k: int|
                            0 <= k < n && k != i && !ss[k].down && beats(
                                ss[k].priority,
                                ss[k].own.election.port,
                                ss[i as int].priority,
                                ss[i as int].own.election.port,
                            );
                        assert(0 <= k < n && k != i as int && !ss[k].down && beats(
                            ss[k].priority,
                            ss[k].own.election.port,
                            p_i,
                            port_i,
                        ));
                        assert(false);
                    }
                }
            }
        }
        i = i + 1;
    }
    // every initiator's wait window ends: the unbeaten one declares itself
    // coordinator, replies to the buffered client, and flushes its state
    let mut winner: Option<usize> = None;
    let mut coordinator_count: usize = 0;
    let mut reply_to: Option<Addr> = None;
    let mut i: usize = 0;
    while i < n
        invariant
            ss == servers@,
            i <= n == ss.len(),
            engines@.len() == n,
            distinct_ports(ss),
            forall|j: int|
                i <= j < n && !ss[j].down ==> contending(
                    #[trigger] engines@[j],
                    ss[j],
                    req_id,
                    client,
                    beaten(ss, j),
                ),
            winner matches Some(w) ==> champion(ss, w as int) && coordinator_count == 1 && (w as int)
                < i && reply_to == Some(client),
            winner is None ==> coordinator_count == 0 && (forall|j: int|
                0 <= j < i && !ss[j].down ==> !champion(ss, j)),
        decreases n - i,
    {
        if !servers[i].down {
            let ghost eng0 = engines@;
            let e = vstd::std_specs::vec::vec_index_mut(&mut engines, i);
            let c = e.conclude_election(req_id);
            proof {
                lemma_unbeaten_is_champion(ss, i as int);
                assert forall|k: int|
                    i + 1 <= k < n && !ss[k].down implies contending(
                    #[trigger] engines@[k],
                    ss[k],
                    req_id,
                    client,
                    beaten(ss, k),
                ) by {
                    assert(engines@[k] == eng0[k]);
                }
            }
            if c.won {
                proof {
                    match winner {
                        Some(w) => {
                            lemma_champion_unique(ss, w as int, i as int);
                            assert(false);
                        },
                        None => {},
                    }
                }
                winner = Some(i);
                coordinator_count = coordinator_count + 1;
                reply_to = c.reply_to;
            }
        }
        i = i + 1;
    }
    proof {
        if some_up(ss) && winner is None {
            // the champion exists, and the loop found no champion
            lemma_champion_exists(ss);
            let w = champion_index(ss);
            assert(!champion(ss, w));
            assert(false);
        }
    }
    let winner_service = match winner {
        Some(w) => Some(servers[w].own.service),
        None => None,
    };
    SimOutcome { winner, coordinator_count, reply_to, winner_service }
}

/// The index of the champion among the reachable servers.
pub open spec fn champion_index(ss: Seq<SimServer>) -> int {
    choose|i: int| champion(ss, i)
}

/// With distinct ports, some reachable server is the champion: the maximum
/// of a finite nonempty set under a total order.
pub proof fn lemma_champion_exists(ss: Seq<SimServer>)
    requires
        distinct_ports(ss),
        some_up(ss),
    ensures
        champion(ss, champion_index(ss)),
{
    let w = lemma_best_prefix(ss, ss.len() as int);
    assert(champion(ss, w));
    assert(champion(ss, champion_index(ss)));
}

/// Among the first `n` servers, if any is reachable, some reachable one
/// beats all the other reachable ones.
proof fn lemma_best_prefix(ss: Seq<SimServer>, n: int) -> (w: int)
    requires
        distinct_ports(ss),
        n <= ss.len(),
        exists|i: int| 0 <= i < n && !(#[trigger] ss[i]).down,
    ensures
        0 <= w < n,
        !ss[w].down,
        forall|j: int|
            0 <= j < n && j != w && !ss[j].down ==> beats(
                ss[w].priority,
                ss[w].own.election.port,
                ss[j].priority,
                ss[j].own.election.port,
            ),
    decreases n,
{
    let i0 = choose|i: int| 0 <= i < n && !(#[trigger] ss[i]).down;
    if !exists|i: int| 0 <= i < n - 1 && !(#[trigger] ss[i]).down {
        // the last server is the only reachable one in the prefix
        assert forall|j: int| 0 <= j < n - 1 implies (#[trigger] ss[j]).down by {}
        assert(i0 == n - 1);
        i0
    } else {
        let b = lemma_best_prefix(ss, n - 1);
        if ss[n - 1].down {
            b
        } else {
            assert(ss[b].own.election.port != ss[n - 1].own.election.port);
            lemma_beats_total(
                ss[b].priority,
                ss[b].own.election.port,
                ss[n - 1].priority,
                ss[n - 1].own.election.port,
            );
            if beats(
                ss[b].priority,
                ss[b].own.election.port,
                ss[n - 1].priority,
                ss[n - 1].own.election.port,
            ) {
                b
            } else {
                let w = n - 1;
                assert forall|j: int|
                    0 <= j < n && j != w && !ss[j].down implies beats(
                    ss[w].priority,
                    ss[w].own.election.port,
                    ss[j].priority,
                    ss[j].own.election.port,
                ) by {
                    if j != b {
                        lemma_beats_trans(
                            ss[w].priority,
                            ss[w].own.election.port,
                            ss[b].priority,
                            ss[b].own.election.port,
                            ss[j].priority,
                            ss[j].own.election.port,
                        );
                    }
                }
                w
            }
        }
    }
}

} // verus!
