//! Telling handshake packets from the packets of the tunnel.

use vstd::prelude::*;

verus! {

/// The first bytes of an SSH banner: `SSH-`.
pub open spec fn ssh_prefix() -> Seq<u8> {
    seq![0x53u8, 0x53u8, 0x48u8, 0x2du8]
}

/// The packet is a handshake packet: it begins as an SSH banner does, or is the handshake packet
/// that the client itself sends.
pub open spec fn is_banner(packet: Seq<u8>, handshake: Option<Seq<u8>>) -> bool {
    ||| ssh_prefix().is_prefix_of(packet)
    ||| handshake == Some(packet)
}

/// What it means to begin as an SSH banner does, byte by byte.
pub proof fn lemma_ssh_prefix(packet: Seq<u8>)
    ensures
        ssh_prefix().is_prefix_of(packet) <==> packet.len() >= 4 && packet[0] == 0x53 && packet[1]
            == 0x53 && packet[2] == 0x48 && packet[3] == 0x2d,
{
    let prefix = ssh_prefix();
    if prefix.is_prefix_of(packet) {
        assert(packet[0] == prefix[0] && packet[1] == prefix[1] && packet[2] == prefix[2]
            && packet[3] == prefix[3]);
    } else if packet.len() >= 4 && packet[0] == 0x53 && packet[1] == 0x53 && packet[2] == 0x48
        && packet[3] == 0x2d {
        assert(packet.subrange(0, 4) =~= prefix);
    }
}

/// Whether the two byte strings are equal.
fn same_bytes(a: &[u8], b: &[u8]) -> (same: bool)
    ensures
        same == (a@ == b@),
{
    if a.len() != b.len() {
        return false;
    }
    for i in 0..a.len()
        invariant
            a@.len() == b@.len(),
            forall|j: int| 0 <= j < i ==> a@[j] == b@[j],
    {
        if a[i] != b[i] {
            return false;
        }
    }
    assert(a@ =~= b@);
    true
}

/// Whether handshake packets are to be filtered: on demand, or because the client sends one
/// itself.
pub fn filters_handshake(demanded: bool, sends_handshake: bool) -> (filter: bool)
    ensures
        filter == (demanded || sends_handshake),
{
    demanded || sends_handshake
}

/// Whether the packet is a handshake packet that is to be filtered out.
pub fn is_handshake_banner(
    filter: bool,
    packet: &[u8],
    handshake: Option<&[u8]>,
) -> (banner: bool)
    ensures
        banner == (filter && is_banner(
            packet@,
            match handshake {
                Some(handshake) => Some(handshake@),
                None => None,
            },
        )),
        banner == (filter && ((packet@.len() >= 4 && packet@[0] == 0x53 && packet@[1] == 0x53
            && packet@[2] == 0x48 && packet@[3] == 0x2d) || (handshake is Some && handshake->0@
            == packet@))),
{
    proof {
        lemma_ssh_prefix(packet@);
    }
    if !filter {
        return false;
    }
    let ssh = packet.len() >= 4 && packet[0] == 0x53 && packet[1] == 0x53 && packet[2] == 0x48
        && packet[3] == 0x2d;
    ssh || match handshake {
        Some(handshake) => same_bytes(packet, handshake),
        None => false,
    }
}

/// A packet that the server sent is handed on.
pub open spec fn hands_on(filter: bool, packet: Seq<u8>, handshake: Option<Seq<u8>>) -> bool {
    packet.len() > 0 && !(filter && is_banner(packet, handshake))
}

/// Whether a packet that the server sent is handed on: it is not empty, and it is no handshake
/// packet that is to be filtered out.
pub fn is_forwarded(filter: bool, packet: &[u8], handshake: Option<&[u8]>) -> (forwarded: bool)
    ensures
        forwarded == (packet@.len() > 0 && !(filter && is_banner(
            packet@,
            match handshake {
                Some(handshake) => Some(handshake@),
                None => None,
            },
        ))),
        forwarded == hands_on(
            filter,
            packet@,
            match handshake {
                Some(handshake) => Some(handshake@),
                None => None,
            },
        ),
        forwarded == (packet@.len() > 0 && !(filter && ((packet@.len() >= 4 && packet@[0] == 0x53
            && packet@[1] == 0x53 && packet@[2] == 0x48 && packet@[3] == 0x2d) || (handshake is Some
            && handshake->0@ == packet@)))),
{
    packet.len() > 0 && !is_handshake_banner(filter, packet, handshake)
}

} // verus!
