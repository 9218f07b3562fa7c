use ven_dns::dns_header::DnsHeader;
use ven_dns::dns_packet::DnsPacket;
use ven_dns::dns_question::DnsQuestion;
use ven_dns::error::DnsError;

fn encoded(domain: &str) -> Result<Vec<u8>, DnsError> {
    let q = DnsQuestion::builder().name(domain)?.build();
    Ok(q.qname[..q.qname_len].to_vec())
}

fn label(byte: u8, len: usize) -> String {
    String::from_utf8(vec![byte; len]).unwrap()
}

#[test]
fn encodes_google_com_correctly() -> Result<(), DnsError> {
    let q = DnsQuestion::builder()
        .name("google.com")?
        .build();

    let expected = [
        6, b'g', b'o', b'o', b'g', b'l', b'e',
        3, b'c', b'o', b'm',
        0,
    ];

    assert_eq!(
        &q.qname[..q.qname_len],
        &expected
    );

    Ok(())
}

#[test]
fn encodes_chnu_ua_correctly() -> Result<(), DnsError> {
    let q = DnsQuestion::builder()
        .name("chnu.edu.ua")?
        .build();

    let expected = [
        4, b'c', b'h', b'n', b'u',
        3, b'e', b'd', b'u',
        2, b'u', b'a',
        0,
    ];

    assert_eq!(
        &q.qname[..q.qname_len],
        &expected
    );

    Ok(())
}

#[test]
fn single_label_is_encoded() {
    assert_eq!(encoded("localhost"), Ok(vec![9, b'l', b'o', b'c', b'a', b'l', b'h', b'o', b's', b't', 0]));
}

#[test]
fn case_is_kept() {
    assert_eq!(encoded("Ab.C"), Ok(vec![2, b'A', b'b', 1, b'C', 0]));
}

#[test]
fn non_ascii_label_goes_out_as_utf8() {
    assert_eq!(encoded("\u{e9}.fr"), Ok(vec![2, 0xC3, 0xA9, 2, b'f', b'r', 0]));
}

#[test]
fn empty_label_in_the_middle_is_invalid() {
    assert_eq!(encoded("a..b"), Err(DnsError::InvalidLabel));
}

#[test]
fn empty_domain_is_invalid() {
    assert_eq!(encoded(""), Err(DnsError::InvalidLabel));
}

#[test]
fn trailing_dot_is_invalid() {
    assert_eq!(encoded("example.com."), Err(DnsError::InvalidLabel));
}

#[test]
fn leading_dot_is_invalid() {
    assert_eq!(encoded(".com"), Err(DnsError::InvalidLabel));
}

#[test]
fn lone_dot_is_invalid() {
    assert_eq!(encoded("."), Err(DnsError::InvalidLabel));
}

#[test]
fn label_of_63_bytes_is_accepted() {
    let domain = label(b'a', 63);
    let mut expected = vec![63u8];
    expected.extend_from_slice(domain.as_bytes());
    expected.push(0);
    assert_eq!(encoded(&domain), Ok(expected));
}

#[test]
fn label_of_64_bytes_is_invalid() {
    assert_eq!(encoded(&label(b'a', 64)), Err(DnsError::InvalidLabel));
}

#[test]
fn label_of_300_bytes_is_invalid() {
    let domain = format!("www.{}.com", label(b'x', 300));
    assert_eq!(encoded(&domain), Err(DnsError::InvalidLabel));
}

#[test]
fn name_of_128_bytes_with_its_zero_fits() {
    // 64 + 63 bytes of labels, and the final zero.
    let domain = format!("{}.{}", label(b'a', 63), label(b'b', 62));
    let name = encoded(&domain).unwrap();
    assert_eq!(name.len(), 128);
    assert_eq!(name[0], 63);
    assert_eq!(name[64], 62);
    assert_eq!(name[127], 0);
}

#[test]
fn labels_that_take_128_bytes_are_too_long() {
    let domain = format!("{}.{}", label(b'a', 63), label(b'b', 63));
    assert_eq!(encoded(&domain), Err(DnsError::NameTooLong));
}

#[test]
fn long_domain_is_too_long() {
    let parts: Vec<String> = (0..40).map(|_| String::from("abc")).collect();
    assert_eq!(encoded(&parts.join(".")), Err(DnsError::NameTooLong));
}

#[test]
fn first_failing_label_decides_the_error() {
    // The second label fills the buffer before the empty label is reached.
    let overflow_first = format!("{}.{}..c", label(b'a', 63), label(b'b', 63));
    assert_eq!(encoded(&overflow_first), Err(DnsError::NameTooLong));
    // The empty label comes before the buffer is full.
    let empty_first = format!("a..{}.{}", label(b'a', 63), label(b'b', 63));
    assert_eq!(encoded(&empty_first), Err(DnsError::InvalidLabel));
    // A label that is too long fails whatever its size would do to the buffer.
    let long_first = format!("{}.{}", label(b'a', 200), label(b'b', 63));
    assert_eq!(encoded(&long_first), Err(DnsError::InvalidLabel));
}

#[test]
fn encoded_name_ends_in_zero_and_counts_every_label() {
    for domain in ["a", "a.b", "google.com", "chnu.edu.ua", "x.y.z.w.example.org"] {
        let name = encoded(domain).unwrap();
        let expected: usize = domain.split('.').map(|l| l.len() + 1).sum::<usize>() + 1;
        assert_eq!(name.len(), expected);
        assert_eq!(name[name.len() - 1], 0);
    }
}

#[test]
fn builder_asks_for_an_address_in_class_in() {
    let q = DnsQuestion::builder().build();
    assert_eq!(q.qname_len, 0);
    assert_eq!(q.qtype, 1);
    assert_eq!(q.qclass, 1);
}

#[test]
fn qtype_overrides_the_type_only() {
    let q = DnsQuestion::builder().name("a.b").unwrap().qtype(28).build();
    assert_eq!(q.qtype, 28);
    assert_eq!(q.qclass, 1);
    assert_eq!(&q.qname[..q.qname_len], &[1, b'a', 1, b'b', 0]);
    let odd = DnsQuestion::builder().qtype(65280).build();
    assert_eq!(odd.qtype, 65280);
}

#[test]
fn a_second_name_replaces_the_first() {
    let q = DnsQuestion::builder()
        .name("google.com")
        .unwrap()
        .name("a.b")
        .unwrap()
        .qtype(15)
        .build();
    assert_eq!(&q.qname[..q.qname_len], &[1, b'a', 1, b'b', 0]);
    assert_eq!(q.qtype, 15);
}

#[test]
fn question_goes_behind_the_header() {
    let q = DnsQuestion::builder().name("a.bc").unwrap().qtype(0x0f1c).build();
    let mut buf = [0xEEu8; 512];
    q.write_question(&mut buf);
    assert_eq!(&buf[..12], &[0xEE; 12]);
    assert_eq!(&buf[12..22], &[1, b'a', 2, b'b', b'c', 0, 0x0f, 0x1c, 0, 1]);
    assert!(buf[22..].iter().all(|b| *b == 0xEE));
    assert_eq!(q.wire_len(), 10);
}

#[test]
fn header_is_written_big_endian() {
    let h = DnsHeader { id: 0xABCD, flags: 0x0100, qdcount: 1, ancount: 2, nscount: 0x0304, arcount: 5 };
    let mut buf = [0x77u8; 512];
    h.write_header(&mut buf);
    assert_eq!(&buf[..12], &[0xAB, 0xCD, 0x01, 0x00, 0, 1, 0, 2, 3, 4, 0, 5]);
    assert!(buf[12..].iter().all(|b| *b == 0x77));
}

#[test]
fn new_header_is_a_query_for_one_question() {
    let h = DnsHeader::new(0x1234);
    assert_eq!(
        h,
        DnsHeader { id: 0x1234, flags: 0x0100, qdcount: 1, ancount: 0, nscount: 0, arcount: 0 }
    );
}

#[test]
fn header_read_back_is_the_header_written() {
    let h = DnsHeader { id: 65535, flags: 0x8180, qdcount: 1, ancount: 300, nscount: 256, arcount: 255 };
    let mut buf = [0x55u8; 512];
    h.write_header(&mut buf);
    assert_eq!(DnsHeader::read_header(&buf), h);
}

#[test]
fn header_is_read_from_the_first_twelve_bytes() {
    let mut buf = [0u8; 512];
    buf[..12].copy_from_slice(&[0x12, 0x34, 0x81, 0x80, 0, 1, 0, 3, 0, 2, 0, 1]);
    buf[12] = 0xFF;
    assert_eq!(
        DnsHeader::read_header(&buf),
        DnsHeader { id: 0x1234, flags: 0x8180, qdcount: 1, ancount: 3, nscount: 2, arcount: 1 }
    );
}

#[test]
fn random_header_is_a_query_header() {
    for _ in 0..50 {
        let h = DnsHeader::with_random_id();
        assert_eq!(h, DnsHeader::new(h.id));
    }
}

#[test]
fn random_ids_are_not_all_the_same() {
    let first = DnsHeader::with_random_id().id;
    assert!((0..200).any(|_| DnsHeader::with_random_id().id != first));
}

#[test]
fn packet_is_header_then_question() {
    let question = DnsQuestion::builder().name("google.com").unwrap().qtype(28).build();
    let packet = DnsPacket { header: DnsHeader::new(0xBEEF), question };
    let mut buf = [0xAAu8; 512];
    packet.write_packet(&mut buf);
    let expected = [
        0xBE, 0xEF, 0x01, 0x00, 0, 1, 0, 0, 0, 0, 0, 0,
        6, b'g', b'o', b'o', b'g', b'l', b'e', 3, b'c', b'o', b'm', 0,
        0, 28, 0, 1,
    ];
    assert_eq!(packet.used_len(), 28);
    assert_eq!(&buf[..28], &expected);
    assert!(buf[28..].iter().all(|b| *b == 0xAA));
}

#[test]
fn used_len_counts_header_name_type_and_class() {
    let question = DnsQuestion::builder().name("chnu.edu.ua").unwrap().build();
    let packet = DnsPacket { header: DnsHeader::new(1), question };
    assert_eq!(packet.used_len(), 12 + 13 + 4);
    let bare = DnsPacket { header: DnsHeader::new(1), question: DnsQuestion::builder().build() };
    assert_eq!(bare.used_len(), 16);
}

#[test]
fn fresh_builder_has_a_name_buffer_of_zeros() {
    let q = DnsQuestion::builder().build();
    assert_eq!(q.qname, [0u8; 128]);
    assert_eq!(q.qname_len, 0);
}

#[test]
fn qtype_leaves_the_name_buffer_alone() {
    let before = DnsQuestion::builder().name("google.com").unwrap().build();
    let after = DnsQuestion::builder().name("google.com").unwrap().qtype(0xABCD).build();
    assert_eq!(after.qname, before.qname);
    assert_eq!(after.qname_len, before.qname_len);
    assert_eq!(after.qclass, before.qclass);
    assert_eq!(after.qtype, 0xABCD);
    assert_eq!(DnsQuestion::builder().qtype(7).build().qname, [0u8; 128]);
}

#[test]
fn name_overwrites_the_front_of_the_buffer_only() {
    let q = DnsQuestion::builder().name("google.com").unwrap().build();
    let mut expected = [0u8; 128];
    expected[..12].copy_from_slice(&[6, b'g', b'o', b'o', b'g', b'l', b'e', 3, b'c', b'o', b'm', 0]);
    assert_eq!(q.qname, expected);
    // A shorter second name leaves the tail of the first one behind it.
    let q = DnsQuestion::builder().name("google.com").unwrap().name("a.b").unwrap().build();
    expected[..5].copy_from_slice(&[1, b'a', 1, b'b', 0]);
    assert_eq!(q.qname, expected);
    assert_eq!(q.qname_len, 5);
}
