//! Answers to discovery probes: a sender broadcasts a request on the discovery
//! port and the receiver tells it where and how to stream.
use vstd::prelude::*;
use crate::wire::PROTOCOL_NAME;

verus! {

/// A discovery probe as sent by a mobile sender.
pub struct DiscoveryRequest {
    pub kind: String,
    pub protocol: String,
}

/// The receiver's answer to a discovery probe.
pub struct DiscoveryResponse {
    pub kind: String,
    pub protocol: String,
    pub name: String,
    pub port: u16,
    pub secure_required: bool,
    pub ips: Vec<String>,
}

/// A probe is answered when it asks for discovery of the `mow2` protocol.
pub open spec fn is_probe(request: &DiscoveryRequest) -> bool {
    request.kind@ == "discover"@ && request.protocol@ == "mow2"@
}

/// The answer to `request` for a receiver listening on `port` at the addresses
/// `ips`; none when the request is not a `mow2` discovery probe.
pub fn discovery_reply(request: &DiscoveryRequest, port: u16, secure_mode: bool, ips: Vec<String>) -> (r: Option<DiscoveryResponse>)
    ensures
        r is Some <==> is_probe(request),
        r matches Some(resp) ==> {
            &&& resp.kind@ == "discover_response"@
            &&& resp.protocol@ == "mow2"@
            &&& resp.name@ == "micOwireless Desktop"@
            &&& resp.port == port
            &&& resp.secure_required == secure_mode
            &&& resp.ips@ == ips@
        },
{
    let discover = String::from_str("discover");
    let protocol = String::from_str(PROTOCOL_NAME);
    if request.kind != discover || request.protocol != protocol {
        return None;
    }
    Some(DiscoveryResponse {
        kind: String::from_str("discover_response"),
        protocol,
        name: String::from_str("micOwireless Desktop"),
        port,
        secure_required: secure_mode,
        ips,
    })
}

} // verus!
