use mesos_client::master_detector::{
    elect_leader, leader_path, parse_master_info, DetectorError, MasterInfo,
};

fn names(list: &[&str]) -> Vec<String> {
    list.iter().map(|s| s.to_string()).collect()
}

#[test]
fn election_picks_smallest_matching_name() {
    let children = names(&["json.info_0000000003", "json.info_0000000001", "other_node"]);
    let leader = elect_leader(&children).unwrap();
    assert_eq!(leader, "json.info_0000000001");
}

#[test]
fn election_is_independent_of_listing_order() {
    let a = names(&["json.info_0000000003", "json.info_0000000001", "other_node"]);
    let b = names(&["other_node", "json.info_0000000001", "json.info_0000000003"]);
    let c = names(&["json.info_0000000001", "other_node", "json.info_0000000003"]);
    let la = elect_leader(&a).unwrap();
    let lb = elect_leader(&b).unwrap();
    let lc = elect_leader(&c).unwrap();
    assert_eq!(la, lb);
    assert_eq!(lb, lc);
}

#[test]
fn election_bears_repeated_names() {
    let children = names(&[
        "json.info_0000000002",
        "json.info_0000000002",
        "json.info_0000000005",
    ]);
    assert_eq!(elect_leader(&children).unwrap(), "json.info_0000000002");
}

#[test]
fn election_without_matching_name_reports_no_leader() {
    let children = names(&["other_node", "zk_config", "locks"]);
    assert_eq!(elect_leader(&children), Err(DetectorError::NoLeader));
    let empty: Vec<String> = Vec::new();
    assert_eq!(elect_leader(&empty), Err(DetectorError::NoLeader));
}

#[test]
fn leader_path_is_rooted() {
    assert_eq!(leader_path("json.info_0000000001"), "/json.info_0000000001");
}

#[test]
fn payload_decodes_to_master_address() {
    let payload = b"{\"pid\":\"master@10.0.0.5:5050\"}".to_vec();
    let info = parse_master_info(&payload).unwrap();
    assert_eq!(info.address(), "10.0.0.5:5050");
}

#[test]
fn end_to_end_election_and_decode() {
    let children = names(&["json.info_0000000003", "json.info_0000000001", "other_node"]);
    let leader = elect_leader(&children).unwrap();
    assert_eq!(leader, "json.info_0000000001");
    assert_eq!(leader_path(&leader), "/json.info_0000000001");
    let payload = b"{\"pid\":\"master@10.0.0.5:5050\"}".to_vec();
    let info = parse_master_info(&payload).unwrap();
    assert_eq!(info.address(), "10.0.0.5:5050");
}

#[test]
fn address_without_separator_is_the_whole_identifier() {
    let info = MasterInfo::new("localhost:5050".to_string());
    assert_eq!(info.address(), "localhost:5050");
}

#[test]
fn address_takes_the_part_after_the_last_separator() {
    let info = MasterInfo::new("a@b@10.1.2.3:80".to_string());
    assert_eq!(info.address(), "10.1.2.3:80");
}

fn expect_marshalling(payload: Vec<u8>) {
    match parse_master_info(&payload) {
        Err(e) => assert_eq!(e, DetectorError::Marshalling),
        Ok(_) => panic!("expected a marshalling failure"),
    }
}

#[test]
fn malformed_payloads_are_marshalling_failures() {
    // not UTF-8
    expect_marshalling(vec![0xff, 0xfe, 0x80]);
    // not JSON
    expect_marshalling(b"pid=master@x".to_vec());
    // JSON without a pid field
    expect_marshalling(b"{\"id\":\"x\"}".to_vec());
    // pid is not a string
    expect_marshalling(b"{\"pid\":7}".to_vec());
}
