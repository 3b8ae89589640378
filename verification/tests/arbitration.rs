use fragnet::arbitration::{PeerServer, ServerStats};
use fragnet::envelope::{Addr, Msg, MsgId, Type};
use fragnet::sim::{simulate_arbitration, SimServer};

fn addr(ip: u32, port: u16) -> Addr {
    Addr { ip, port }
}

fn peer(ip: u32, elec_port: u16) -> PeerServer {
    PeerServer {
        service: addr(ip, elec_port - 1),
        election: addr(ip, elec_port),
        sendback: addr(ip, elec_port + 1),
    }
}

fn req(counter: u32) -> MsgId {
    MsgId { addr: addr(0x7f000001, 9000), counter }
}

fn client_msg(to: &PeerServer, counter: u32) -> Msg {
    Msg {
        sender: addr(0x7f000001, 9000),
        receiver: to.election,
        msg_type: Type::ClientRequest(counter),
        payload: None,
    }
}

fn sim(priority: u32, port: u16, down: bool) -> SimServer {
    SimServer { own: peer(0x0a000000 + port as u32, port), priority, down }
}

#[test]
fn engine_buffers_and_initiates_once() {
    let own = peer(1, 8081);
    let mut s = ServerStats::new(own, vec![peer(2, 8081), peer(3, 8081)]);
    let r = req(1);
    let running = s.buffer_request(r, client_msg(&own, 1));
    assert!(!running);
    // after the jitter the request is still fresh: initiate
    assert_eq!(s.start_election(r, 17, true), Some(17));
    // a second direct arrival finds the election running
    let running = s.buffer_request(r, client_msg(&own, 1));
    assert!(running);
    assert_eq!(s.start_election(r, 25, true), None);
}

#[test]
fn engine_replies_ok_exactly_when_it_beats_the_requester() {
    let own = peer(1, 8081);
    let mut s = ServerStats::new(own, vec![]);
    let r = req(2);
    // own drawn priority 20 beats 15: OK and propagate
    let reaction = s.handle_election_request(r, 15, 7081, 20);
    assert_eq!(reaction.send_ok, Some(20));
    assert_eq!(reaction.broadcast, Some(20));
    // the same request again: still winning, but already contending
    let reaction = s.handle_election_request(r, 16, 7081, 99);
    assert_eq!(reaction.send_ok, Some(20));
    assert_eq!(reaction.broadcast, None);
    // a stronger contender: concede silently
    let reaction = s.handle_election_request(r, 28, 7081, 99);
    assert_eq!(reaction.send_ok, None);
    assert_eq!(reaction.broadcast, None);
}

#[test]
fn tie_breaks_on_the_higher_port() {
    // equal priorities: the higher election port wins, deterministically
    let hi = peer(1, 8081);
    let mut s = ServerStats::new(hi, vec![]);
    let r = req(3);
    let reaction = s.handle_election_request(r, 20, 8079, 20);
    assert_eq!(reaction.send_ok, Some(20), "port 8081 beats port 8079 at priority 20");
    let lo = peer(2, 7081);
    let mut s = ServerStats::new(lo, vec![]);
    let reaction = s.handle_election_request(r, 20, 8081, 20);
    assert_eq!(reaction.send_ok, None, "port 7081 loses to port 8081 at priority 20");
}

#[test]
fn initiator_wins_without_ok_and_replies_to_client() {
    let own = peer(1, 8081);
    let mut s = ServerStats::new(own, vec![peer(2, 8081)]);
    let r = req(4);
    s.buffer_request(r, client_msg(&own, 4));
    s.start_election(r, 17, true);
    let c = s.conclude_election(r);
    assert!(c.won);
    assert_eq!(c.reply_to, Some(addr(0x7f000001, 9000)));
    // the request's state is flushed with the win
    let c = s.conclude_election(r);
    assert!(!c.won);
}

#[test]
fn initiator_concedes_after_an_ok() {
    let own = peer(1, 8081);
    let mut s = ServerStats::new(own, vec![]);
    let r = req(5);
    s.buffer_request(r, client_msg(&own, 5));
    s.start_election(r, 17, true);
    s.handle_ok_msg(r, 0);
    let c = s.conclude_election(r);
    assert!(!c.won);
    assert_eq!(c.reply_to, None);
}

#[test]
fn coordinator_broadcast_flushes_request_state() {
    let own = peer(1, 8081);
    let mut s = ServerStats::new(own, vec![]);
    let r = req(6);
    s.buffer_request(r, client_msg(&own, 6));
    s.start_election(r, 17, true);
    s.handle_coordinator(r);
    // the initiator's window ends after the flush: nothing happens
    let c = s.conclude_election(r);
    assert!(!c.won);
}

#[test]
fn down_window_ignores_traffic_only_while_idle() {
    let own = peer(1, 8081);
    let mut s = ServerStats::new(own, vec![]);
    assert!(!s.should_ignore());
    s.set_down(true);
    assert!(s.should_ignore());
    // already electing a request: traffic still heard
    let r = req(7);
    s.start_election(r, 17, false);
    assert!(!s.should_ignore());
    s.set_down(false);
    assert!(!s.should_ignore());
}

#[test]
fn broadcasts_name_every_peer() {
    let own = peer(1, 8081);
    let peers = vec![peer(2, 8081), peer(3, 8081), peer(4, 8081)];
    let s = ServerStats::new(own, peers.clone());
    let r = req(8);
    let msgs = s.election_broadcast(r, 21);
    assert_eq!(msgs.len(), 3);
    for (k, m) in msgs.iter().enumerate() {
        assert_eq!(m.receiver, peers[k].election);
        assert_eq!(m.payload, Some(r));
        assert!(matches!(m.msg_type, Type::ElectionRequest(21)));
    }
    let msgs = s.coordinator_broadcast(r);
    assert_eq!(msgs.len(), 3);
    for m in &msgs {
        assert!(matches!(m.msg_type, Type::CoordinatorBrdCast(a) if a == own.election));
    }
}

#[test]
fn fail_message_picks_a_peer() {
    let own = peer(1, 8081);
    let peers = vec![peer(2, 8081), peer(3, 8081)];
    let s = ServerStats::new(own, peers.clone());
    let m = s.fail_msg(60).expect("peers exist");
    assert!(matches!(m.msg_type, Type::Fail(60)));
    assert!(peers.iter().any(|p| p.election == m.receiver));
    let lonely = ServerStats::new(own, vec![]);
    assert!(lonely.fail_msg(60).is_none());
}

#[test]
fn arbitration_elects_exactly_one_of_five() {
    // five servers all receive the same request within the jitter window
    let servers = vec![
        sim(17, 8001, false),
        sim(23, 8002, false),
        sim(11, 8003, false),
        sim(23, 8004, false),
        sim(19, 8005, false),
    ];
    let client = addr(0x7f000001, 9000);
    let o = simulate_arbitration(&servers, req(10), client);
    assert_eq!(o.coordinator_count, 1);
    // priority 23 is drawn twice; the higher port 8004 wins the tie
    assert_eq!(o.winner, Some(3));
    assert_eq!(o.reply_to, Some(client));
    assert_eq!(o.winner_service, Some(servers[3].own.service));
}

#[test]
fn tie_break_is_deterministic_across_runs() {
    let servers = vec![sim(20, 8001, false), sim(20, 8002, false)];
    let client = addr(0x7f000001, 9000);
    for _ in 0..3 {
        let o = simulate_arbitration(&servers, req(11), client);
        assert_eq!(o.winner, Some(1), "the higher port always wins the tie");
        assert_eq!(o.coordinator_count, 1);
    }
}

#[test]
fn crashed_contender_loses_by_silence() {
    // the would-be winner sits in its down window; the rest still converge
    let servers = vec![
        sim(29, 8001, true),
        sim(17, 8002, false),
        sim(23, 8003, false),
    ];
    let client = addr(0x7f000001, 9000);
    let o = simulate_arbitration(&servers, req(12), client);
    assert_eq!(o.coordinator_count, 1);
    assert_eq!(o.winner, Some(2));
    assert_eq!(o.reply_to, Some(client));
}

#[test]
fn no_reachable_server_elects_nobody() {
    let servers = vec![sim(29, 8001, true), sim(17, 8002, true)];
    let o = simulate_arbitration(&servers, req(13), addr(1, 1));
    assert_eq!(o.coordinator_count, 0);
    assert_eq!(o.winner, None);
}

#[test]
fn drawn_priorities_stay_in_the_protocol_range() {
    for _ in 0..50 {
        let p = fragnet::rng::draw_priority();
        assert!((10..30).contains(&p));
        let j = fragnet::rng::draw_jitter_millis();
        assert!((10..30).contains(&j));
        let x = fragnet::rng::draw_in_range(3, 4);
        assert_eq!(x, 3);
    }
}
