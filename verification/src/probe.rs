//! Data model of the point-to-point probe protocol: a length-prefixed
//! request/response exchange used beside the gossip discovery protocol.
//!
//! The transport negotiation and the frame I/O live outside the library;
//! here stand the protocol's types, its name, and the decision the codec
//! makes on a read frame (an empty frame means the peer closed early and is
//! refused).

use vstd::prelude::*;
use vstd::string::StringSliceAdditionalSpecFns;

verus! {

/// A configuration request carried over the probe protocol.
#[derive(Debug, PartialEq)]
pub struct ConfigurationRequest {
    pub key: String,
}

/// A configuration response carried over the probe protocol.
#[derive(Debug, PartialEq)]
pub struct ConfigurationResponse {
    pub key: String,
    pub value: String,
}

/// The probe protocol marker; its name is sent during negotiation.
#[derive(Debug, Clone)]
pub struct ProbeProtocol();

/// The codec for probe frames: raw bytes in, typed query or response out.
#[derive(Clone)]
pub struct ProbeCodec();

/// The raw bytes of one probe request.
#[derive(Debug, Clone, PartialEq, Eq)]
pub struct ProbeQuery(pub Vec<u8>);

/// The raw bytes of one probe response.
#[derive(Debug, Clone, PartialEq, Eq)]
pub struct ProbeResponse(pub Vec<u8>);

impl ProbeProtocol {
    /// The protocol name offered during negotiation.
    pub fn protocol_name(&self) -> (r: &'static [u8])
        ensures
            r@ == "/probe/1".spec_bytes(),
    {
        "/probe/1".as_bytes()
    }
}

impl ProbeCodec {
    /// Accepts the bytes of one read frame as a request. An empty frame is
    /// refused: the peer closed before sending anything.
    pub fn accept_request(bytes: Vec<u8>) -> (r: Option<ProbeQuery>)
        ensures
            r is None <==> bytes@.len() == 0,
            r matches Some(q) ==> q.0@ == bytes@,
    {
        if bytes.len() == 0 {
            None
        } else {
            Some(ProbeQuery(bytes))
        }
    }

    /// Accepts the bytes of one read frame as a response. An empty frame is
    /// refused: the peer closed before sending anything.
    pub fn accept_response(bytes: Vec<u8>) -> (r: Option<ProbeResponse>)
        ensures
            r is None <==> bytes@.len() == 0,
            r matches Some(p) ==> p.0@ == bytes@,
    {
        if bytes.len() == 0 {
            None
        } else {
            Some(ProbeResponse(bytes))
        }
    }
}

} // verus!
