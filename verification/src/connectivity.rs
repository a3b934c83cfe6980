//! Which peers may connect.

use vstd::prelude::*;
use crate::config;
use crate::device_id;
use crate::device_id::DeviceId;

verus! {

/// The name that the protocol has when a connection is made.
pub const BEP_PROTOCOL_ID: &'static str = "bep/1.0";

/// The outcome of looking at the certificate of a peer.
#[derive(Debug, Clone, Copy)]
pub struct ClientCheck {
    /// The device that the certificate is of.
    pub client_id: DeviceId,
    /// Whether the device may connect.
    pub accepted: bool,
}

/// Looks at the certificate of a peer: only trusted peers are accepted.
pub fn verify_client_cert(trusted_peers: &Vec<DeviceId>, cert: &[u8]) -> (r: ClientCheck)
    ensures
        r.client_id.id@ == device_id::sha256_of(cert@),
        r.accepted == config::lists_device(trusted_peers@, device_id::sha256_of(cert@)),
{
    let client_id = DeviceId::from_certificate(cert);
    ClientCheck { client_id, accepted: config::has_device(trusted_peers, &client_id) }
}

} // verus!
