//! Reassembly tests: routing, completion and ordered emission.

use std::collections::HashMap;

use file_reassembly::file_manager::{FileManager, PacketGroup};
use file_reassembly::packet::{DataPacket, HeaderPacket, Packet};

#[test]
fn test_process_header_packet() {
    let packet_group1: PacketGroup = PacketGroup {
        file_name: Some(b"test".to_vec()),
        file_id: 4,
        expected_number_of_packets: None,
        packets: HashMap::new(),
    };
    let mut file_manager: FileManager = FileManager {
        packet_groups: vec![packet_group1],
    };

    let header_packet_bytes: [u8; 6] = [0, 1, b't', b'e', b's', b't'];
    let packet = HeaderPacket::try_from(&header_packet_bytes[..]).unwrap();

    file_manager.process_packet(Packet::HeaderPacket(packet));

    assert_eq!(
        file_manager.packet_groups[0].file_name,
        Some(b"test".to_vec())
    );
}

#[test]
fn test_empty_process_header_packet() {
    let mut file_manager: FileManager = FileManager {
        packet_groups: vec![],
    };

    let header_packet_bytes: [u8; 6] = [0, 1, b't', b'e', b's', b't'];
    let packet = HeaderPacket::try_from(&header_packet_bytes[..]).unwrap();

    assert!(file_manager.packet_groups.is_empty());
    file_manager.process_packet(Packet::HeaderPacket(packet));
    assert_eq!(file_manager.packet_groups.len(), 1);
    assert_eq!(
        file_manager.packet_groups[0].file_name,
        Some(b"test".to_vec())
    );
    assert_eq!(file_manager.packet_groups[0].file_id, 1);
}

#[test]
fn test_process_data_packet() {
    let packet_group1: PacketGroup = PacketGroup {
        file_name: Some(b"test".to_vec()),
        file_id: 4,
        expected_number_of_packets: None,
        packets: HashMap::new(),
    };
    let mut file_manager: FileManager = FileManager {
        packet_groups: vec![packet_group1],
    };

    let data_packet_bytes: [u8; 6] = [1, 1, 2, 2, 3, 3];
    let packet = DataPacket::try_from(&data_packet_bytes[..]).unwrap();

    file_manager.process_packet(Packet::DataPacket(packet));
    assert!(file_manager.packet_groups[1].packets.contains_key(&514));
    assert_eq!(
        file_manager.packet_groups[1].packets.get(&514),
        Some(&vec![3, 3])
    );
}

#[test]
fn test_empty_process_data_packet() {
    let mut file_manager: FileManager = FileManager {
        packet_groups: vec![],
    };

    let data_packet_bytes: [u8; 6] = [1, 1, 2, 2, 3, 3];
    let packet = DataPacket::try_from(&data_packet_bytes[..]).unwrap();

    assert!(file_manager.packet_groups.is_empty());
    file_manager.process_packet(Packet::DataPacket(packet));
    assert_eq!(file_manager.packet_groups.len(), 1);
    assert!(file_manager.packet_groups[0].packets.contains_key(&514));
    assert_eq!(
        file_manager.packet_groups[0].packets.get(&514),
        Some(&vec![3, 3])
    );
}

#[test]
fn test_process_last_data_packet() {
    let mut file_manager = FileManager {
        packet_groups: vec![],
    };

    // Create a packet with status byte 3 (last packet)
    let last_data_packet_bytes: [u8; 6] = [3, 1, 0, 5, 3, 3]; // Status byte 3, packet #5
    let packet = DataPacket::try_from(&last_data_packet_bytes[..]).unwrap();

    file_manager.process_packet(Packet::DataPacket(packet));

    // Check if expected_number_of_packets was set correctly
    assert_eq!(
        file_manager.packet_groups[0].expected_number_of_packets,
        Some(6)
    ); // Packet #5 + 1
}

#[test]
fn test_received_all_packets() {
    // Test with incomplete file
    let incomplete_group = PacketGroup {
        file_name: Some(b"test".to_vec()),
        file_id: 1,
        expected_number_of_packets: Some(3),
        packets: {
            let mut packets = HashMap::new();
            packets.insert(0, vec![1, 2, 3]);
            packets.insert(1, vec![4, 5, 6]);
            // Missing packet #2
            packets
        },
    };

    let file_manager = FileManager {
        packet_groups: vec![incomplete_group],
    };

    assert!(!file_manager.received_all_packets());

    // Test with complete file
    let complete_group = PacketGroup {
        file_name: Some(b"test".to_vec()),
        file_id: 1,
        expected_number_of_packets: Some(3),
        packets: {
            let mut packets = HashMap::new();
            packets.insert(0, vec![1, 2, 3]);
            packets.insert(1, vec![4, 5, 6]);
            packets.insert(2, vec![7, 8, 9]);
            packets
        },
    };

    let file_manager = FileManager {
        packet_groups: vec![complete_group],
    };

    assert!(file_manager.received_all_packets());
}

#[test]
fn test_out_of_order_packet_processing() {
    let mut file_manager = FileManager::default();

    // Process data packets before header
    let data_packet1 = DataPacket {
        status_byte: 1,
        file_id: 1,
        packet_number: 0,
        data: vec![1, 2, 3],
    };

    let data_packet2 = DataPacket {
        status_byte: 3, // Last packet
        file_id: 1,
        packet_number: 1,
        data: vec![4, 5, 6],
    };

    file_manager.process_packet(Packet::DataPacket(data_packet1));
    file_manager.process_packet(Packet::DataPacket(data_packet2));

    // Now process header
    let header_packet = HeaderPacket {
        status_byte: 0,
        file_id: 1,
        file_name: b"test.txt".to_vec(),
    };

    file_manager.process_packet(Packet::HeaderPacket(header_packet));

    // Verify everything is set correctly
    assert_eq!(
        file_manager.packet_groups[0].file_name,
        Some(b"test.txt".to_vec())
    );
    assert_eq!(
        file_manager.packet_groups[0].expected_number_of_packets,
        Some(2)
    );
    assert_eq!(file_manager.packet_groups[0].packets.len(), 2);
    assert!(file_manager.received_all_packets());
}

#[test]
fn test_multiple_files_interleaved() {
    let mut file_manager = FileManager::default();

    // Process packets from two different files interleaved
    let header1 = HeaderPacket {
        status_byte: 0,
        file_id: 1,
        file_name: b"file1.txt".to_vec(),
    };

    let data1_file1 = DataPacket {
        status_byte: 1,
        file_id: 1,
        packet_number: 0,
        data: vec![1, 2, 3],
    };

    let header2 = HeaderPacket {
        status_byte: 0,
        file_id: 2,
        file_name: b"file2.txt".to_vec(),
    };

    let data1_file2 = DataPacket {
        status_byte: 1,
        file_id: 2,
        packet_number: 0,
        data: vec![7, 8, 9],
    };

    let data2_file1 = DataPacket {
        status_byte: 3, // Last packet
        file_id: 1,
        packet_number: 1,
        data: vec![4, 5, 6],
    };

    let data2_file2 = DataPacket {
        status_byte: 3, // Last packet
        file_id: 2,
        packet_number: 1,
        data: vec![10, 11, 12],
    };

    // Process in interleaved order
    file_manager.process_packet(Packet::HeaderPacket(header1));
    file_manager.process_packet(Packet::DataPacket(data1_file2));
    file_manager.process_packet(Packet::HeaderPacket(header2));
    file_manager.process_packet(Packet::DataPacket(data1_file1));
    file_manager.process_packet(Packet::DataPacket(data2_file2));
    file_manager.process_packet(Packet::DataPacket(data2_file1));

    assert!(file_manager.received_all_packets());
    assert_eq!(file_manager.packet_groups.len(), 2);
}

#[test]
fn test_edge_case_single_packet_file() {
    let mut file_manager = FileManager::default();

    // File with a single packet
    let header = HeaderPacket {
        status_byte: 0,
        file_id: 1,
        file_name: b"single.txt".to_vec(),
    };

    let data = DataPacket {
        status_byte: 3, // Last packet
        file_id: 1,
        packet_number: 0,
        data: vec![1, 2, 3],
    };

    file_manager.process_packet(Packet::HeaderPacket(header));
    file_manager.process_packet(Packet::DataPacket(data));

    assert!(file_manager.received_all_packets());
    assert_eq!(
        file_manager.packet_groups[0].expected_number_of_packets,
        Some(1)
    );
}
