use rustkv::allocation::check_partition;
use rustkv::failover::{
    choose_successor, confirm_ready, mark_owner_lost, reassign, route_read, route_write,
    RangeOwnership, RouteError,
};
use rustkv::{select_key_owner, NamespaceAllocation, Node};

fn allocation_of(node: &str, range: std::ops::RangeInclusive<char>) -> NamespaceAllocation {
    NamespaceAllocation { node: node.to_string(), range }
}

#[test]
fn test_correct_routing() {
    let mut key_owners = Vec::new();

    key_owners.push(allocation_of("owner-1", 'a'..='p'));
    key_owners.push(allocation_of("owner-2", 'q'..='z'));

    assert_eq!(
        select_key_owner("abc", &key_owners),
        Some("owner-1".to_string())
    );
    assert_eq!(
        select_key_owner("qr", &key_owners),
        Some("owner-2".to_string())
    );
    assert_eq!(
        select_key_owner("p", &key_owners),
        Some("owner-1".to_string())
    );
    assert_eq!(
        select_key_owner("z", &key_owners),
        Some("owner-2".to_string())
    );
}

#[test]
fn routing_without_owner() {
    let owners = vec![allocation_of("owner-1", 'a'..='p')];
    assert_eq!(select_key_owner("", &owners), None);
    assert_eq!(select_key_owner("zebra", &owners), None);
    assert_eq!(select_key_owner("Apple", &owners), None);
}

#[test]
fn routing_first_match_wins() {
    let owners = vec![allocation_of("first", 'a'..='m'), allocation_of("second", 'k'..='z')];
    assert_eq!(select_key_owner("kite", &owners), Some("first".to_string()));
    assert_eq!(select_key_owner("nest", &owners), Some("second".to_string()));
}

fn three_way() -> Vec<NamespaceAllocation> {
    vec![
        allocation_of("localhost:1337", 'a'..='h'),
        allocation_of("localhost:1338", 'i'..='q'),
        allocation_of("localhost:1339", 'r'..='z'),
    ]
}

#[test]
fn partition_covers_each_letter_once() {
    let allocs = three_way();
    assert!(check_partition(&allocs, 'a', 'z'));
    for c in 'a'..='z' {
        let holders = allocs.iter().filter(|a| a.range.contains(&c)).count();
        assert_eq!(holders, 1);
        let key = format!("{}key", c);
        let owner = select_key_owner(&key, &allocs).unwrap();
        assert!(allocs.iter().any(|a| a.node == owner && a.range.contains(&c)));
    }
}

#[test]
fn partition_with_overlap_is_refused() {
    let allocs = vec![allocation_of("a", 'a'..='m'), allocation_of("b", 'm'..='z')];
    assert!(!check_partition(&allocs, 'a', 'z'));
}

#[test]
fn partition_with_gap_is_refused() {
    let allocs = vec![allocation_of("a", 'a'..='k'), allocation_of("b", 'm'..='z')];
    assert!(!check_partition(&allocs, 'a', 'z'));
    assert!(check_partition(&allocs, 'm', 'z'));
}

#[test]
fn partition_of_nothing_is_refused() {
    assert!(!check_partition(&Vec::new(), 'a', 'z'));
}

#[test]
fn partition_across_the_surrogate_gap() {
    let allocs = vec![allocation_of("low", '\u{0}'..='\u{D7FF}'), allocation_of("high", '\u{E000}'..='\u{10FFFF}')];
    assert!(!check_partition(&allocs, '\u{0}', '\u{10FFFF}'));
    assert!(check_partition(&allocs, '\u{E000}', '\u{10FFFF}'));
}

fn node(id: u8, address: &str) -> Node {
    Node { node_id: id, address: address.to_string() }
}

fn cluster() -> Vec<RangeOwnership> {
    three_way()
        .into_iter()
        .enumerate()
        .map(|(i, allocation)| {
            let replicas = match i {
                0 => vec![node(3, "localhost:1339"), node(2, "localhost:1338")],
                1 => vec![node(1, "localhost:1337"), node(3, "localhost:1339")],
                _ => vec![node(1, "localhost:1337"), node(2, "localhost:1338")],
            };
            RangeOwnership { allocation, replicas, read_only: false }
        })
        .collect()
}

#[test]
fn successor_is_lowest_node_id() {
    let replicas = vec![node(3, "c"), node(2, "b"), node(5, "e")];
    assert_eq!(choose_successor(&replicas, &"x".to_string()), Some(1));
    let replicas = vec![node(1, "dead"), node(4, "d"), node(2, "b")];
    assert_eq!(choose_successor(&replicas, &"dead".to_string()), Some(2));
    let replicas = vec![node(1, "dead")];
    assert_eq!(choose_successor(&replicas, &"dead".to_string()), None);
    let replicas = vec![node(2, "first"), node(2, "second")];
    assert_eq!(choose_successor(&replicas, &"x".to_string()), Some(0));
}

#[test]
fn lost_owner_range_refuses_writes_until_successor_is_ready() {
    let lost = "localhost:1337".to_string();
    let ranges = cluster();
    assert_eq!(route_write("apple", &ranges), Ok(lost.clone()));

    let ranges = mark_owner_lost(ranges, &lost);
    assert!(ranges[0].read_only);
    assert!(!ranges[1].read_only && !ranges[2].read_only);
    assert_eq!(route_write("apple", &ranges), Err(RouteError::ReadOnly));
    assert_eq!(route_write("melon", &ranges), Ok("localhost:1338".to_string()));

    let ranges = reassign(ranges, &lost);
    assert_eq!(ranges[0].allocation.node, "localhost:1338");
    assert!(ranges[0].read_only);
    assert_eq!(route_write("apple", &ranges), Err(RouteError::ReadOnly));
    assert_eq!(route_read("apple", &ranges), Ok("localhost:1338".to_string()));

    let ranges = confirm_ready(ranges, &"localhost:1338".to_string());
    assert!(!ranges[0].read_only);
    assert_eq!(route_write("apple", &ranges), Ok("localhost:1338".to_string()));
}

#[test]
fn reassign_leaves_writable_ranges_alone() {
    let ranges = reassign(cluster(), &"localhost:1337".to_string());
    assert_eq!(ranges[0].allocation.node, "localhost:1337");
    assert!(!ranges[0].read_only);
}

#[test]
fn write_to_unallocated_key_has_no_owner() {
    let ranges = cluster();
    assert_eq!(route_write("", &ranges), Err(RouteError::NoOwner));
    assert_eq!(route_write("Zed", &ranges), Err(RouteError::NoOwner));
    assert_eq!(route_read("9lives", &ranges), Err(RouteError::NoOwner));
}
