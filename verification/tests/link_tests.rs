use netlab::mac_table::HashTable;
use netlab::mac_table::MacAddress as TableMac;
use netlab::mcast::generate_well_known_addresses;
use netlab::mcast::Crc32;
use netlab::mcast::HardwareHashTable;
use netlab::mcast::IpAddress;
use netlab::mcast::MacAddress;
use netlab::mcast::MulticastFilterSimulator;
use netlab::mcast::MulticastPacket;
use netlab::mcast::SoftwareFilter;

#[test]
fn crc32_known_values() {
    let crc = Crc32::new();
    // the standard IEEE 802.3 check value
    assert_eq!(crc.compute(b"123456789"), 0xCBF4_3926);
    assert_eq!(crc.compute(b""), 0);
}

#[test]
fn hash_index_stays_in_table() {
    let crc = Crc32::new();
    let mac = MacAddress(0x01, 0x00, 0x5E, 0x00, 0x00, 0x01);
    let idx = crc.hash_to_index(&mac, 4);
    assert!(idx < 16);
    let idx8 = crc.hash_to_index(&mac, 8);
    assert!(idx8 < 256);
}

#[test]
fn multicast_mac_mapping() {
    let mac = MacAddress::from_multicast_ip(&IpAddress(224, 0, 0, 1));
    assert_eq!(mac, MacAddress(0x01, 0x00, 0x5E, 0x00, 0x00, 0x01));
    // the high bit of the second octet is folded away: 192 & 0x7F == 64
    let mac2 = MacAddress::from_multicast_ip(&IpAddress(239, 192, 1, 1));
    assert_eq!(mac2, MacAddress(0x01, 0x00, 0x5E, 0x40, 0x01, 0x01));
}

#[test]
fn multicast_range_bounds() {
    assert!(!IpAddress::new(223, 255, 255, 255).is_multicast());
    assert!(IpAddress::new(224, 0, 0, 0).is_multicast());
    assert!(IpAddress::new(239, 255, 255, 255).is_multicast());
    assert!(!IpAddress::new(240, 0, 0, 0).is_multicast());
}

#[test]
fn hardware_filter_remembers_added_macs() {
    let mut hw = HardwareHashTable::new(4);
    let mac = MacAddress(0x01, 0x00, 0x5E, 0x00, 0x00, 0x05);
    assert!(!hw.check_mac(&mac));
    hw.add_mac(&mac);
    assert!(hw.check_mac(&mac));
}

#[test]
fn software_filter_is_exact() {
    let mut sw = SoftwareFilter::new();
    let a = IpAddress(224, 0, 0, 1);
    let b = IpAddress(224, 0, 0, 2);
    assert!(!sw.is_subscribed(&a));
    sw.subscribe(a);
    assert!(sw.is_subscribed(&a));
    assert!(!sw.is_subscribed(&b));
    sw.subscribe(a);
    assert!(sw.is_subscribed(&a));
}

#[test]
fn simulator_counts_accepted_subscription() {
    let mut sim = MulticastFilterSimulator::new(4);
    let group = IpAddress(224, 0, 0, 1);
    sim.subscribe(group);
    sim.process(MulticastPacket::new(group));
    let stats = sim.stats();
    assert_eq!(stats.total, 1);
    assert_eq!(stats.hw_dropped, 0);
    assert_eq!(stats.hw_passed, 1);
    assert_eq!(stats.sw_accepted, 1);
    assert_eq!(stats.sw_dropped, 0);
}

#[test]
fn simulator_counters_always_add_up() {
    let mut sim = MulticastFilterSimulator::new(4);
    let subs = [
        IpAddress(224, 0, 0, 1),
        IpAddress(224, 0, 0, 5),
        IpAddress(239, 192, 1, 1),
    ];
    for ip in &subs {
        sim.subscribe(*ip);
    }
    let others = [
        IpAddress(224, 0, 0, 2),
        IpAddress(224, 0, 1, 1),
        IpAddress(239, 100, 1, 1),
        IpAddress(230, 5, 5, 5),
    ];
    for ip in subs.iter().chain(others.iter()) {
        for _ in 0..3 {
            sim.process(MulticastPacket::new(*ip));
        }
    }
    let stats = sim.stats();
    assert_eq!(stats.total, 21);
    assert_eq!(stats.total, stats.hw_dropped + stats.hw_passed);
    assert_eq!(stats.hw_passed, stats.sw_accepted + stats.sw_dropped);
    // every frame to a subscribed group passes both stages
    assert_eq!(stats.sw_accepted, 9);
}

#[test]
fn simulator_groups_share_colliding_macs() {
    let mut sim = MulticastFilterSimulator::new(4);
    // 224.0.0.1 and 225.0.0.1 fold to the same multicast MAC
    sim.subscribe(IpAddress(224, 0, 0, 1));
    sim.subscribe(IpAddress(225, 0, 0, 1));
    sim.subscribe(IpAddress(224, 0, 0, 2));
    let groups = sim.groups_list();
    assert_eq!(groups.len(), 2);
    assert_eq!(groups[0].0, MacAddress(0x01, 0x00, 0x5E, 0x00, 0x00, 0x01));
    assert_eq!(groups[0].1.len(), 2);
    assert_eq!(groups[1].1.len(), 1);
}

#[test]
fn well_known_addresses_listed() {
    let addrs = generate_well_known_addresses();
    assert_eq!(addrs.len(), 5);
    assert_eq!(addrs[0], IpAddress(224, 0, 0, 1));
    assert_eq!(addrs[4], IpAddress(224, 0, 0, 9));
    assert!(addrs.iter().all(|a| a.is_multicast()));
}

#[test]
fn mac_fold_xors_halves() {
    let mac = TableMac::new([0x00, 0x1A, 0x2B, 0x3C, 0x4D, 0x5E]);
    assert_eq!(mac.fold_to_32bit(), 0x001A_2B3C ^ 0x0000_4D5E);
    assert_eq!(mac.fold_to_32bit(), 0x001A_6662);
    let zero = TableMac::new([0; 6]);
    assert_eq!(zero.fold_to_32bit(), 0);
}

#[test]
fn mac_parsing_accepts_and_rejects() {
    assert_eq!(
        TableMac::from_string("00:1a:2b:3c:4d:5e"),
        Ok(TableMac::new([0x00, 0x1A, 0x2B, 0x3C, 0x4D, 0x5E]))
    );
    assert_eq!(
        TableMac::from_string("FF:EE:DD:CC:BB:AA"),
        Ok(TableMac::new([0xFF, 0xEE, 0xDD, 0xCC, 0xBB, 0xAA]))
    );
    assert_eq!(
        TableMac::from_string("0:1:2:3:4:5"),
        Ok(TableMac::new([0, 1, 2, 3, 4, 5]))
    );
    assert_eq!(
        TableMac::from_string("00:1a:2b:3c:4d"),
        Err("invalid mac address format".to_string())
    );
    assert_eq!(
        TableMac::from_string("00:1a:2b:3c:4d:5e:6f"),
        Err("invalid mac address format".to_string())
    );
    assert_eq!(
        TableMac::from_string("00:1a:2b:3c:4d:zz"),
        Err("invalid hex in mac address".to_string())
    );
    assert_eq!(
        TableMac::from_string("00:1a:2b:3c:4d:"),
        Err("invalid hex in mac address".to_string())
    );
    assert_eq!(
        TableMac::from_string("00:1a:2b:3c:4d:100"),
        Err("invalid hex in mac address".to_string())
    );
}

#[test]
fn table_insert_lookup_delete() {
    let mut table = HashTable::new(1024);
    let macs = [
        ("00:1a:2b:3c:4d:5e", 1u32),
        ("ff:ee:dd:cc:bb:aa", 2),
        ("12:34:56:78:9a:bc", 3),
        ("aa:bb:cc:dd:ee:ff", 4),
        ("00:00:00:00:00:01", 5),
        ("ff:ff:ff:ff:ff:fe", 6),
    ];
    for (s, port) in &macs {
        let mac = TableMac::from_string(s).unwrap();
        assert_eq!(table.insert(mac, *port), Ok(()));
    }
    assert_eq!(table.count(), 6);
    for (s, port) in &macs {
        let mac = TableMac::from_string(s).unwrap();
        assert_eq!(table.lookup(mac), Some(*port));
    }
    let unknown = TableMac::from_string("de:ad:be:ef:ca:fe").unwrap();
    assert_eq!(table.lookup(unknown), None);
    let victim = TableMac::from_string("00:1a:2b:3c:4d:5e").unwrap();
    assert!(table.delete(victim));
    assert_eq!(table.lookup(victim), None);
    assert!(!table.delete(victim));
    assert_eq!(table.count(), 5);
}

#[test]
fn table_insert_updates_existing_port() {
    let mut table = HashTable::new(16);
    let mac = TableMac::new([1, 2, 3, 4, 5, 6]);
    assert_eq!(table.insert(mac, 7), Ok(()));
    assert_eq!(table.insert(mac, 9), Ok(()));
    assert_eq!(table.lookup(mac), Some(9));
    assert_eq!(table.count(), 1);
}

#[test]
fn table_refuses_when_full() {
    let mut table = HashTable::new(2);
    assert_eq!(table.insert(TableMac::new([0, 0, 0, 0, 0, 1]), 1), Ok(()));
    assert_eq!(table.insert(TableMac::new([0, 0, 0, 0, 0, 2]), 2), Ok(()));
    assert_eq!(
        table.insert(TableMac::new([0, 0, 0, 0, 0, 3]), 3),
        Err("hash table is full".to_string())
    );
}
