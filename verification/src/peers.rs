//! Deriving each server's three listening addresses from the configured
//! peer list, and the client-side view of the same list. The configuration
//! file itself is read by the callers; the library works on the parsed
//! plain addresses.

use vstd::prelude::*;

use crate::arbitration::PeerServer;
use crate::envelope::Addr;
use crate::{ELECTION_PORT, SERVICE_PORT, SERVICE_SENDBACK_PORT};

verus! {

/// How the peer list names a server: by a full election endpoint, or by an
/// ip that uses the fixed ports.
#[derive(Clone, Copy, Debug, PartialEq, Eq, Structural)]
pub enum Mode {
    /// The entry holds ip and election port; service sits one port below
    /// and send-back one above.
    Local,
    /// The entry holds only an ip; the three fixed ports apply.
    Dist,
}

/// An entry's port leaves room for the two neighbouring ports.
pub open spec fn entry_ok(a: Addr, mode: Mode) -> bool {
    mode == Mode::Local ==> 1 <= a.port <= 0xfffe
}

/// The three addresses an entry stands for.
pub open spec fn spec_ips(a: Addr, mode: Mode) -> PeerServer {
    match mode {
        Mode::Local => PeerServer {
            service: Addr { ip: a.ip, port: (a.port - 1) as u16 },
            election: a,
            sendback: Addr { ip: a.ip, port: (a.port + 1) as u16 },
        },
        Mode::Dist => PeerServer {
            service: Addr { ip: a.ip, port: SERVICE_PORT },
            election: Addr { ip: a.ip, port: ELECTION_PORT },
            sendback: Addr { ip: a.ip, port: SERVICE_SENDBACK_PORT },
        },
    }
}

/// Derives one server's service, election and send-back addresses from its
/// peer-list entry.
pub fn get_ips(a: Addr, mode: Mode) -> (r: PeerServer)
    requires
        entry_ok(a, mode),
    ensures
        r == spec_ips(a, mode),
{
    match mode {
        Mode::Local => PeerServer {
            service: Addr { ip: a.ip, port: a.port - 1 },
            election: a,
            sendback: Addr { ip: a.ip, port: a.port + 1 },
        },
        Mode::Dist => PeerServer {
            service: Addr { ip: a.ip, port: SERVICE_PORT },
            election: Addr { ip: a.ip, port: ELECTION_PORT },
            sendback: Addr { ip: a.ip, port: SERVICE_SENDBACK_PORT },
        },
    }
}

/// The peer descriptors a server keeps: every entry but its own.
pub open spec fn spec_peers(entries: Seq<Addr>, own_service: Addr, mode: Mode) -> Seq<PeerServer>
    decreases entries.len(),
{
    if entries.len() == 0 {
        Seq::empty()
    } else {
        let rest = spec_peers(entries.drop_last(), own_service, mode);
        let p = spec_ips(entries.last(), mode);
        if p.service == own_service {
            rest
        } else {
            rest.push(p)
        }
    }
}

/// Derives the peer list from the configured entries, leaving this
/// server's own entry out.
pub fn get_peer_servers(entries: &Vec<Addr>, own_service: Addr, mode: Mode) -> (r: Vec<PeerServer>)
    requires
        forall|k: int| 0 <= k < entries@.len() ==> entry_ok(#[trigger] entries@[k], mode),
    ensures
        r@ == spec_peers(entries@, own_service, mode),
{
    let n = entries.len();
    let mut r: Vec<PeerServer> = Vec::new();
    let mut i: usize = 0;
    while i < n
        invariant
            i <= n == entries@.len(),
            forall|k: int| 0 <= k < entries@.len() ==> entry_ok(#[trigger] entries@[k], mode),
            r@ == spec_peers(entries@.subrange(0, i as int), own_service, mode),
        decreases n - i,
    {
        let p = get_ips(entries[i], mode);
        if !(p.service == own_service) {
            r.push(p);
        }
        proof {
            let pre = entries@.subrange(0, i + 1);
            assert(pre.drop_last() =~= entries@.subrange(0, i as int));
            assert(pre.last() == entries@[i as int]);
        }
        i = i + 1;
    }
    proof {
        assert(entries@.subrange(0, n as int) =~= entries@);
    }
    r
}

/// The service and election address of every configured server, as the
/// client sees the cloud.
pub fn get_cloud_servers(entries: &Vec<Addr>, mode: Mode) -> (r: Vec<(Addr, Addr)>)
    requires
        forall|k: int| 0 <= k < entries@.len() ==> entry_ok(#[trigger] entries@[k], mode),
    ensures
        r@.len() == entries@.len(),
        forall|k: int|
            0 <= k < r@.len() ==> #[trigger] r@[k] == (
                spec_ips(entries@[k], mode).service,
                spec_ips(entries@[k], mode).election,
            ),
{
    let n = entries.len();
    let mut r: Vec<(Addr, Addr)> = Vec::new();
    let mut i: usize = 0;
    while i < n
        invariant
            i <= n == entries@.len(),
            forall|k: int| 0 <= k < entries@.len() ==> entry_ok(#[trigger] entries@[k], mode),
            r@.len() == i,
            forall|k: int|
                0 <= k < i ==> #[trigger] r@[k] == (
                    spec_ips(entries@[k], mode).service,
                    spec_ips(entries@[k], mode).election,
                ),
        decreases n - i,
    {
        let p = get_ips(entries[i], mode);
        r.push((p.service, p.election));
        i = i + 1;
    }
    r
}

} // verus!
