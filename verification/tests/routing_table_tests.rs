use cidr_routing_table::{
    HashRoutingTable, Ipv4Cidr, ListRoutingTable, RoutingTable, TrieRoutingTable,
};

fn ip(a: u8, b: u8, c: u8, d: u8) -> u32 {
    u32::from_be_bytes([a, b, c, d])
}

fn empty_test(routing_table: Box<dyn RoutingTable>) {
    let test_cases = [
        ip(0, 0, 0, 0),
        ip(0, 0, 0, 0),
        ip(0, 0, 0, 0),
        ip(192, 168, 0, 0),
        ip(192, 168, 0, 0),
        ip(192, 168, 200, 4),
        ip(192, 168, 200, 8),
        ip(169, 254, 0, 0),
        ip(127, 0, 0, 0),
        ip(100, 64, 0, 0),
    ];

    for addr in test_cases {
        let result = routing_table.find_exact_cidr(addr);

        assert_eq!(result, None, "we expect no cidr is found");
    }

    assert_eq!(0, routing_table.size());
}

fn one_global_cidr(mut routing_table: Box<dyn RoutingTable>) {
    let cidr = Ipv4Cidr::new(ip(0, 0, 0, 0), 0).unwrap();
    routing_table.add_cidr(cidr);

    let test_cases = [
        ip(0, 0, 0, 0),
        ip(0, 0, 0, 0),
        ip(0, 0, 0, 0),
        ip(192, 168, 0, 0),
        ip(192, 168, 0, 0),
        ip(192, 168, 200, 4),
        ip(192, 168, 200, 8),
        ip(169, 254, 0, 0),
        ip(127, 0, 0, 0),
        ip(100, 64, 0, 0),
    ];

    for addr in test_cases {
        let result = routing_table.find_exact_cidr(addr);

        assert_eq!(
            result,
            Some(cidr),
            "we expect global cidr to be always resolvable"
        );
    }

    assert_eq!(1, routing_table.size());
}

fn simple_test(mut routing_table: Box<dyn RoutingTable>) {
    routing_table.add_cidr(Ipv4Cidr::new_host(ip(127, 0, 0, 1)));
    routing_table.add_cidr(Ipv4Cidr::new_host(ip(127, 0, 0, 1)));
    routing_table.add_cidr(Ipv4Cidr::new_host(ip(192, 168, 0, 1)));

    routing_table.remove_cidr(Ipv4Cidr::new_host(ip(127, 0, 0, 1)));

    let test_cases = [
        (ip(0, 0, 0, 0), None),
        (ip(0, 0, 0, 0), None),
        (ip(0, 0, 0, 0), None),
        (ip(192, 168, 0, 0), None),
        (ip(192, 168, 0, 0), None),
        (ip(192, 168, 200, 4), None),
        (ip(192, 168, 200, 8), None),
        (ip(169, 254, 0, 0), None),
        (ip(127, 0, 0, 0), None),
        (ip(127, 0, 0, 1), None),
        (ip(100, 64, 0, 0), None),
        (
            ip(192, 168, 0, 1),
            Some(Ipv4Cidr::new_host(ip(192, 168, 0, 1))),
        ),
    ];

    for (addr, expected) in test_cases {
        let result = routing_table.find_exact_cidr(addr);

        assert_eq!(
            result, expected,
            "we find {addr} inside manager and expect result to be {result:?}"
        );
    }
}

fn complex_test(mut routing_table: Box<dyn RoutingTable>) {
    let cidrs = [
        Ipv4Cidr::new(ip(0, 0, 0, 0), 8).unwrap(),
        Ipv4Cidr::new(ip(0, 0, 0, 0), 32).unwrap(),
        Ipv4Cidr::new(ip(192, 168, 0, 0), 16).unwrap(),
        Ipv4Cidr::new(ip(192, 168, 0, 0), 13).unwrap(),
        Ipv4Cidr::new(ip(192, 168, 200, 4), 30).unwrap(),
        Ipv4Cidr::new(ip(192, 168, 200, 8), 30).unwrap(),
        Ipv4Cidr::new(ip(169, 254, 0, 0), 16).unwrap(),
        Ipv4Cidr::new(ip(127, 0, 0, 0), 8).unwrap(),
        Ipv4Cidr::new(ip(100, 64, 0, 0), 10).unwrap(),
    ];

    for cidr in cidrs {
        routing_table.add_cidr(cidr);
    }

    let test_cases = [
        (ip(0, 0, 0, 0), Some(cidrs[1])),
        (ip(0, 0, 0, 1), Some(cidrs[0])),
        (ip(1, 0, 0, 0), None),
        (ip(192, 168, 200, 4), Some(cidrs[4])),
        (ip(192, 168, 200, 5), Some(cidrs[4])),
        (ip(192, 168, 200, 6), Some(cidrs[4])),
        (ip(192, 168, 200, 7), Some(cidrs[4])),
    ];

    for (addr, expected) in test_cases {
        let result = routing_table.find_exact_cidr(addr);

        assert_eq!(
            result, expected,
            "we find {addr} inside manager and expect result to be {expected:?}"
        );
    }

    assert_eq!(cidrs.len(), routing_table.size());
}

#[test]
fn hash_routing_table_test_hash_empty_case() {
    empty_test(Box::new(HashRoutingTable::new()));
}

#[test]
fn hash_routing_table_test_one_global_cidr() {
    one_global_cidr(Box::new(HashRoutingTable::new()));
}

#[test]
fn hash_routing_table_test_hash_simple() {
    simple_test(Box::new(HashRoutingTable::new()));
}

#[test]
fn hash_routing_table_test_hash_complex() {
    complex_test(Box::new(HashRoutingTable::new()))
}

#[test]
fn test_list_empty_case() {
    empty_test(Box::new(ListRoutingTable::new()));
}

#[test]
fn list_routing_table_test_one_global_cidr() {
    one_global_cidr(Box::new(ListRoutingTable::new()));
}

#[test]
fn test_list_simple() {
    simple_test(Box::new(ListRoutingTable::new()));
}

#[test]
fn test_list_complex() {
    complex_test(Box::new(ListRoutingTable::new()))
}

#[test]
fn trie_routing_table_test_hash_empty_case() {
    empty_test(Box::new(TrieRoutingTable::new()));
}

#[test]
fn trie_routing_table_test_one_global_cidr() {
    one_global_cidr(Box::new(TrieRoutingTable::new()));
}

#[test]
fn trie_routing_table_test_hash_simple() {
    simple_test(Box::new(TrieRoutingTable::new()));
}

#[test]
fn trie_routing_table_test_hash_complex() {
    complex_test(Box::new(TrieRoutingTable::new()))
}
