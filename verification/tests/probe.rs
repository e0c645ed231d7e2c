use magnetited::probe::ConfigurationRequest;
use magnetited::probe::ConfigurationResponse;
use magnetited::probe::ProbeCodec;
use magnetited::probe::ProbeProtocol;
use magnetited::probe::ProbeQuery;
use magnetited::probe::ProbeResponse;

#[test]
fn probe_protocol_name_is_stable() {
    assert_eq!(ProbeProtocol().protocol_name(), b"/probe/1");
}

#[test]
fn empty_probe_frames_are_refused() {
    assert!(ProbeCodec::accept_request(Vec::new()).is_none());
    assert!(ProbeCodec::accept_response(Vec::new()).is_none());
}

#[test]
fn probe_frames_carry_their_bytes() {
    let q = ProbeCodec::accept_request(b"query".to_vec()).unwrap();
    assert_eq!(q, ProbeQuery(b"query".to_vec()));
    let p = ProbeCodec::accept_response(b"response".to_vec()).unwrap();
    assert_eq!(p, ProbeResponse(b"response".to_vec()));
}

#[test]
fn configuration_records_hold_key_and_value() {
    let req = ConfigurationRequest { key: "configservice.port".to_string() };
    assert_eq!(req, ConfigurationRequest { key: "configservice.port".to_string() });
    let resp = ConfigurationResponse { key: "configservice.port".to_string(), value: "61250".to_string() };
    assert!(resp.key == "configservice.port");
    assert!(resp.value == "61250");
}
