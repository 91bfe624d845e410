use raft_rs::cluster::{assign_ids, sort_addresses};

fn s(v: &[&str]) -> Vec<String> {
    v.iter().map(|x| x.to_string()).collect()
}

#[test]
fn addresses_sort_bytewise() {
    let nodes = sort_addresses(s(&["b:2", "a:10", "a:9", "a:1"]));
    assert_eq!(nodes, s(&["a:1", "a:10", "a:9", "b:2"]));
    assert_eq!(sort_addresses(Vec::new()), Vec::<String>::new());
}

#[test]
fn ids_follow_sorted_positions() {
    let nodes = sort_addresses(s(&["10.0.0.2:80", "10.0.0.1:80", "10.0.0.3:80"]));
    let (id, members) = assign_ids(&"10.0.0.2:80".to_string(), &nodes);
    assert_eq!(id, 1);
    assert_eq!(members, vec![(0, "10.0.0.1:80".to_string()), (2, "10.0.0.3:80".to_string())]);
}

#[test]
fn unknown_local_address_gets_id_zero() {
    let nodes = s(&["x", "y"]);
    let (id, members) = assign_ids(&"z".to_string(), &nodes);
    assert_eq!(id, 0);
    assert_eq!(members.len(), 2);
}
