use scrop::drop_reason::DropReasonResolver;
use scrop::types::PacketResult;

const BTF_KIND_ENUM: u32 = 6;
const BTF_KIND_ENUM64: u32 = 19;

fn make_btf(variants: &[(&str, u32)], kind: u32, leading_int: bool) -> Vec<u8> {
    let mut str_section = vec![0u8];
    let type_name_off = str_section.len() as u32;
    str_section.extend_from_slice(b"skb_drop_reason");
    str_section.push(0);

    let mut variant_offsets = Vec::new();
    for (name, _) in variants {
        let off = str_section.len() as u32;
        str_section.extend_from_slice(name.as_bytes());
        str_section.push(0);
        variant_offsets.push(off);
    }

    let mut type_section = Vec::new();
    if leading_int {
        // an INT record: header plus 4 bytes
        type_section.extend_from_slice(&0u32.to_le_bytes());
        type_section.extend_from_slice(&(1u32 << 24).to_le_bytes());
        type_section.extend_from_slice(&4u32.to_le_bytes());
        type_section.extend_from_slice(&0u32.to_le_bytes());
    }
    type_section.extend_from_slice(&type_name_off.to_le_bytes());
    let info: u32 = (kind << 24) | (variants.len() as u32);
    type_section.extend_from_slice(&info.to_le_bytes());
    type_section.extend_from_slice(&4u32.to_le_bytes());
    for (i, (_, val)) in variants.iter().enumerate() {
        type_section.extend_from_slice(&variant_offsets[i].to_le_bytes());
        type_section.extend_from_slice(&val.to_le_bytes());
        if kind == BTF_KIND_ENUM64 {
            type_section.extend_from_slice(&0u32.to_le_bytes());
        }
    }

    let mut data = Vec::new();
    data.extend_from_slice(&0xEB9Fu16.to_le_bytes());
    data.push(1);
    data.push(0);
    data.extend_from_slice(&24u32.to_le_bytes());
    data.extend_from_slice(&0u32.to_le_bytes());
    data.extend_from_slice(&(type_section.len() as u32).to_le_bytes());
    data.extend_from_slice(&(type_section.len() as u32).to_le_bytes());
    data.extend_from_slice(&(str_section.len() as u32).to_le_bytes());
    data.extend_from_slice(&type_section);
    data.extend_from_slice(&str_section);
    data
}

fn make_test_btf(variants: &[(&str, u32)]) -> Vec<u8> {
    make_btf(variants, BTF_KIND_ENUM, false)
}

#[test]
fn test_parse_drop_reasons() {
    let btf = make_test_btf(&[
        ("SKB_DROP_REASON_NOT_SPECIFIED", 0),
        ("SKB_DROP_REASON_TCP_CSUM", 3),
        ("SKB_DROP_REASON_NETFILTER_DROP", 8),
        ("SKB_DROP_REASON_IPTABLES_REJECT", 20),
        ("SKB_DROP_REASON_NFTABLES_REJECT", 21),
    ]);

    let resolver = DropReasonResolver::from_btf_bytes(&btf).unwrap();

    assert_eq!(resolver.names.len(), 5);
    assert_eq!(resolver.names.get(&0).unwrap(), "NOT_SPECIFIED");
    assert_eq!(resolver.names.get(&3).unwrap(), "TCP_CSUM");
    assert_eq!(resolver.names.get(&8).unwrap(), "NETFILTER_DROP");

    assert!(resolver.fw_reasons.contains(&8));
    assert!(resolver.fw_reasons.contains(&20));
    assert!(resolver.fw_reasons.contains(&21));
    assert!(!resolver.fw_reasons.contains(&0));
    assert!(!resolver.fw_reasons.contains(&3));
}

#[test]
fn test_classify_drop() {
    let btf = make_test_btf(&[
        ("SKB_DROP_REASON_TCP_CSUM", 3),
        ("SKB_DROP_REASON_NETFILTER_DROP", 8),
    ]);
    let resolver = DropReasonResolver::from_btf_bytes(&btf).unwrap();

    assert!(matches!(resolver.classify_drop(8), PacketResult::FwDrop));
    assert!(matches!(resolver.classify_drop(3), PacketResult::NicDrop));
    assert!(matches!(resolver.classify_drop(99), PacketResult::NicDrop));
}

#[test]
fn test_drop_reason_string() {
    let btf = make_test_btf(&[
        ("SKB_DROP_REASON_TCP_CSUM", 3),
        ("SKB_DROP_REASON_NETFILTER_DROP", 8),
    ]);
    let resolver = DropReasonResolver::from_btf_bytes(&btf).unwrap();

    assert_eq!(
        resolver.drop_reason_string(8, &PacketResult::FwDrop),
        "Dropped by firewall (NETFILTER_DROP)"
    );
    assert_eq!(
        resolver.drop_reason_string(3, &PacketResult::NicDrop),
        "Dropped in network stack (TCP_CSUM)"
    );
    assert_eq!(
        resolver.drop_reason_string(99, &PacketResult::NicDrop),
        "Dropped in network stack (unknown reason 99)"
    );
}

#[test]
fn test_invalid_btf() {
    let result = DropReasonResolver::from_btf_bytes(&[0u8; 4]);
    assert!(result.is_err());
}

#[test]
fn short_blob_reports_header_error() {
    let err = DropReasonResolver::from_btf_bytes(&[0u8; 4]).unwrap_err();
    assert_eq!(err, "BTF data too short for header");
}

#[test]
fn wrong_magic_is_reported_in_hex() {
    let mut btf = make_test_btf(&[("SKB_DROP_REASON_TCP_CSUM", 3)]);
    btf[0] = 0x34;
    btf[1] = 0x12;
    let err = DropReasonResolver::from_btf_bytes(&btf).unwrap_err();
    assert_eq!(err, "Invalid BTF magic: expected 0xEB9F, got 0x1234");
}

#[test]
fn truncated_sections_are_rejected() {
    let btf = make_test_btf(&[("SKB_DROP_REASON_TCP_CSUM", 3)]);
    let err = DropReasonResolver::from_btf_bytes(&btf[..btf.len() - 1]).unwrap_err();
    assert_eq!(err, "BTF data too short for type/string sections");
}

#[test]
fn missing_enum_is_reported() {
    let mut btf = make_test_btf(&[("SKB_DROP_REASON_TCP_CSUM", 3)]);
    // rename the enum: "skb_drop_reason" starts at string offset 1
    let str_start = btf.len() - (1 + 16 + 25);
    btf[str_start + 1] = b'x';
    let err = DropReasonResolver::from_btf_bytes(&btf).unwrap_err();
    assert_eq!(err, "enum skb_drop_reason not found in BTF");
}

#[test]
fn enum64_and_skipped_records_are_parsed() {
    let btf = make_btf(
        &[("SKB_DROP_REASON_NFTABLES_DROP", 5), ("OTHER", 6)],
        BTF_KIND_ENUM64,
        true,
    );
    let resolver = DropReasonResolver::from_btf_bytes(&btf).unwrap();
    assert_eq!(resolver.reason_count(), 2);
    assert_eq!(resolver.reason_name(5), Some("NFTABLES_DROP".to_string()));
    assert_eq!(resolver.reason_name(6), Some("OTHER".to_string()));
    assert!(resolver.is_firewall(5));
    assert!(!resolver.is_firewall(6));
}

#[test]
fn lower_case_firewall_names_are_recognised() {
    let btf = make_test_btf(&[("SKB_DROP_REASON_iptables_thing", 30)]);
    let resolver = DropReasonResolver::from_btf_bytes(&btf).unwrap();
    assert!(resolver.is_firewall(30));
    assert_eq!(
        resolver.drop_reason_string(30, &PacketResult::FwDrop),
        "Dropped by firewall (iptables_thing)"
    );
}
