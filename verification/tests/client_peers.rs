use fragnet::client::{
    client_request_round, make_client_request, make_msg_id, parse_req_counter, RequestPoll,
    CLIENT_ATTEMPTS,
};
use fragnet::codec::encode_addr;
use fragnet::envelope::{Addr, Type};
use fragnet::peers::{get_cloud_servers, get_ips, get_peer_servers, Mode};
use fragnet::{ELECTION_PORT, SERVICE_PORT, SERVICE_SENDBACK_PORT};

fn addr(ip: u32, port: u16) -> Addr {
    Addr { ip, port }
}

#[test]
fn client_request_round_names_every_server() {
    let servers = vec![addr(1, 8081), addr(2, 8081), addr(3, 8081)];
    let sender = addr(9, 9000);
    let msgs = client_request_round(&servers, sender, 4);
    assert_eq!(msgs.len(), 3);
    for (k, m) in msgs.iter().enumerate() {
        assert_eq!(m.sender, sender);
        assert_eq!(m.receiver, servers[k]);
        assert!(matches!(m.msg_type, Type::ClientRequest(4)));
        assert!(m.payload.is_none());
    }
    let single = make_client_request(sender, servers[0], 4);
    assert_eq!(single.receiver, servers[0]);
}

#[test]
fn poll_accepts_the_first_address_reply() {
    let mut p = RequestPoll::new();
    assert_eq!(p.remaining, CLIENT_ATTEMPTS);
    assert!(!p.exhausted());
    let chosen = addr(0x0a000001, 8080);
    let got = p.on_reply(&encode_addr(chosen));
    assert_eq!(got, Some(chosen));
    assert_eq!(p.remaining, CLIENT_ATTEMPTS, "a valid reply spends no attempt");
}

#[test]
fn poll_reports_failure_after_the_attempt_budget() {
    let mut p = RequestPoll::new();
    for k in 0..CLIENT_ATTEMPTS {
        assert!(!p.exhausted());
        let got = p.on_reply(&vec![0u8; 7 + k as usize]);
        assert_eq!(got, None);
    }
    assert!(p.exhausted());
}

#[test]
fn msg_id_carries_the_sender_and_counter() {
    let own = addr(7, 9001);
    let id = make_msg_id(own, 12);
    assert_eq!(id.addr, own);
    assert_eq!(id.counter, 12);
}

#[test]
fn req_counter_parses_digits_and_defaults_to_one() {
    assert_eq!(parse_req_counter(&b"0".to_vec()), 0);
    assert_eq!(parse_req_counter(&b"41".to_vec()), 41);
    assert_eq!(parse_req_counter(&b"4294967295".to_vec()), u32::MAX);
    assert_eq!(parse_req_counter(&b"4294967296".to_vec()), 1);
    assert_eq!(parse_req_counter(&b"".to_vec()), 1);
    assert_eq!(parse_req_counter(&b"12a".to_vec()), 1);
    assert_eq!(parse_req_counter(&b" 7".to_vec()), 1);
}

#[test]
fn local_mode_derives_neighbouring_ports() {
    let p = get_ips(addr(0x7f000001, 8081), Mode::Local);
    assert_eq!(p.service, addr(0x7f000001, 8080));
    assert_eq!(p.election, addr(0x7f000001, 8081));
    assert_eq!(p.sendback, addr(0x7f000001, 8082));
}

#[test]
fn dist_mode_uses_the_fixed_ports() {
    let p = get_ips(addr(0x0a000007, 0), Mode::Dist);
    assert_eq!(p.service, addr(0x0a000007, SERVICE_PORT));
    assert_eq!(p.election, addr(0x0a000007, ELECTION_PORT));
    assert_eq!(p.sendback, addr(0x0a000007, SERVICE_SENDBACK_PORT));
}

#[test]
fn peer_list_leaves_own_entry_out() {
    let entries = vec![addr(1, 8081), addr(2, 8081), addr(3, 8081)];
    let own_service = addr(2, 8080);
    let peers = get_peer_servers(&entries, own_service, Mode::Local);
    assert_eq!(peers.len(), 2);
    assert_eq!(peers[0].election, addr(1, 8081));
    assert_eq!(peers[1].election, addr(3, 8081));
}

#[test]
fn cloud_list_pairs_service_and_election() {
    let entries = vec![addr(1, 8081), addr(2, 9091)];
    let cloud = get_cloud_servers(&entries, Mode::Local);
    assert_eq!(cloud.len(), 2);
    assert_eq!(cloud[0], (addr(1, 8080), addr(1, 8081)));
    assert_eq!(cloud[1], (addr(2, 9090), addr(2, 9091)));
}
