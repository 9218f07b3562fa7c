use ven_dns::dns_header::DnsHeader;
use ven_dns::dns_packet::DnsPacket;
use ven_dns::dns_question::DnsQuestion;
use ven_dns::error::DnsError;
use ven_dns::name_reader::{join_labels, name_labels};
use ven_dns::parse_answer::{read_rdata, read_record, DnsResponse, IpAnswer, RData, RecordType};

const QUESTION: [u8; 16] = [
    6, b'g', b'o', b'o', b'g', b'l', b'e', 3, b'c', b'o', b'm', 0, 0, 1, 0, 1,
];

/// A reply with the question for google.com and `answers` behind it.
fn reply(id: u16, ancount: u16, answers: &[u8]) -> [u8; 512] {
    let mut buf = [0u8; 512];
    buf[0..2].copy_from_slice(&id.to_be_bytes());
    buf[2..4].copy_from_slice(&[0x81, 0x80]);
    buf[4..6].copy_from_slice(&[0, 1]);
    buf[6..8].copy_from_slice(&ancount.to_be_bytes());
    buf[12..28].copy_from_slice(&QUESTION);
    buf[28..28 + answers.len()].copy_from_slice(answers);
    buf
}

/// A record whose name is a pointer to the question's name.
fn record(rtype: u16, ttl: u32, rdlength: u16, rdata: &[u8]) -> Vec<u8> {
    let mut r = vec![0xC0, 0x0C];
    r.extend_from_slice(&rtype.to_be_bytes());
    r.extend_from_slice(&[0, 1]);
    r.extend_from_slice(&ttl.to_be_bytes());
    r.extend_from_slice(&rdlength.to_be_bytes());
    r.extend_from_slice(rdata);
    r
}

fn empty_response(buf: &[u8; 512]) -> DnsResponse {
    DnsResponse { header: DnsHeader::read_header(buf), answers: Vec::new() }
}

fn parsed(buf: &[u8; 512]) -> Result<Vec<IpAnswer>, DnsError> {
    let mut response = empty_response(buf);
    response.parse_response(buf, 16)?;
    Ok(response.answers)
}

#[test]
fn decodes_one_a_record() {
    let buf = reply(7, 1, &record(1, 300, 4, &[93, 184, 216, 34]));
    let answers = parsed(&buf).unwrap();
    assert_eq!(answers.len(), 1);
    assert_eq!(
        answers[0],
        IpAnswer { name_offset: 12, class: 1, ttl: 300, rdata: RData::A([93, 184, 216, 34]) }
    );
}

#[test]
fn decodes_an_aaaa_record() {
    let ip = [0x20, 0x01, 0x0d, 0xb8, 0, 0, 0, 0, 0, 0, 0, 0, 0, 0, 0, 1];
    let buf = reply(7, 1, &record(28, 0x01020304, 16, &ip));
    let answers = parsed(&buf).unwrap();
    assert_eq!(
        answers,
        vec![IpAnswer { name_offset: 12, class: 1, ttl: 0x01020304, rdata: RData::AAAA(ip) }]
    );
}

#[test]
fn decodes_a_cname_that_points_into_the_question() {
    let buf = reply(7, 1, &record(5, 60, 2, &[0xC0, 0x0C]));
    let answers = parsed(&buf).unwrap();
    assert_eq!(
        answers,
        vec![IpAnswer { name_offset: 12, class: 1, ttl: 60, rdata: RData::CNAME { name_offset: 12 } }]
    );
    assert_eq!(DnsResponse::decode_name(&buf, 12), Ok(String::from("google.com")));
}

#[test]
fn cname_with_an_inline_name_keeps_its_position() {
    let mut answers = record(5, 60, 5, &[3, b'w', b'w', b'w', 0]);
    answers.extend_from_slice(&record(1, 1, 4, &[1, 2, 3, 4]));
    let buf = reply(7, 2, &answers);
    let got = parsed(&buf).unwrap();
    assert_eq!(got.len(), 2);
    assert_eq!(got[0].rdata, RData::CNAME { name_offset: 40 });
    assert_eq!(got[1].rdata, RData::A([1, 2, 3, 4]));
    assert_eq!(DnsResponse::decode_name(&buf, 40), Ok(String::from("www")));
}

#[test]
fn decodes_an_mx_record_with_a_pointer() {
    let buf = reply(7, 1, &record(15, 3600, 4, &[0, 10, 0xC0, 0x0C]));
    let answers = parsed(&buf).unwrap();
    assert_eq!(
        answers,
        vec![IpAnswer {
            name_offset: 12,
            class: 1,
            ttl: 3600,
            rdata: RData::MX { preference: 10, exchange_offset: 12 },
        }]
    );
}

#[test]
fn mx_record_ends_where_its_name_ends() {
    // The declared length (200) is not what moves the cursor.
    let mut answers = record(15, 5, 200, &[1, 0, 4, b'm', b'a', b'i', b'l', 0]);
    answers.extend_from_slice(&record(1, 9, 4, &[10, 0, 0, 1]));
    let buf = reply(7, 2, &answers);
    let got = parsed(&buf).unwrap();
    assert_eq!(got.len(), 2);
    assert_eq!(got[0].rdata, RData::MX { preference: 256, exchange_offset: 42 });
    assert_eq!(got[1].rdata, RData::A([10, 0, 0, 1]));
    assert_eq!(got[1].ttl, 9);
}

#[test]
fn unknown_type_keeps_its_code_and_bytes() {
    let mut answers = record(99, 17, 3, &[1, 2, 3]);
    answers.extend_from_slice(&record(1, 300, 4, &[93, 184, 216, 34]));
    let buf = reply(7, 2, &answers);
    let got = parsed(&buf).unwrap();
    assert_eq!(
        got,
        vec![
            IpAnswer {
                name_offset: 12,
                class: 1,
                ttl: 17,
                rdata: RData::Unknown { rtype: 99, data: vec![1, 2, 3] },
            },
            IpAnswer { name_offset: 12, class: 1, ttl: 300, rdata: RData::A([93, 184, 216, 34]) },
        ]
    );
}

#[test]
fn txt_record_is_kept_as_unknown() {
    let buf = reply(7, 1, &record(16, 1, 6, &[5, b'h', b'e', b'l', b'l', b'o']));
    let got = parsed(&buf).unwrap();
    assert_eq!(got[0].rdata, RData::Unknown { rtype: 16, data: vec![5, b'h', b'e', b'l', b'l', b'o'] });
}

#[test]
fn unknown_type_may_have_an_empty_body() {
    let buf = reply(7, 1, &record(0xFFFF, 1, 0, &[]));
    let got = parsed(&buf).unwrap();
    assert_eq!(got[0].rdata, RData::Unknown { rtype: 0xFFFF, data: vec![] });
}

#[test]
fn record_with_an_inline_owner_name() {
    let mut answers = vec![2, b'a', b'b', 0];
    answers.extend_from_slice(&record(1, 5, 4, &[8, 8, 4, 4])[2..]);
    let buf = reply(7, 1, &answers);
    let got = parsed(&buf).unwrap();
    assert_eq!(got, vec![IpAnswer { name_offset: 28, class: 1, ttl: 5, rdata: RData::A([8, 8, 4, 4]) }]);
}

#[test]
fn body_that_runs_past_the_buffer_is_truncated() {
    let buf = reply(7, 1, &record(1, 300, 600, &[93, 184, 216, 34]));
    assert_eq!(parsed(&buf), Err(DnsError::TruncatedMessage));
    let buf = reply(7, 1, &record(99, 300, 473, &[]));
    assert_eq!(parsed(&buf), Err(DnsError::TruncatedMessage));
    // 472 bytes are exactly what is left behind the fixed fields.
    let buf = reply(7, 1, &record(99, 300, 472, &[]));
    assert_eq!(parsed(&buf).unwrap()[0].rdata, RData::Unknown { rtype: 99, data: vec![0; 472] });
}

#[test]
fn record_cut_off_at_the_end_of_the_buffer_is_truncated() {
    let mut buf = reply(7, 1, &[]);
    // The record starts at 500: its body would start at 512.
    buf[500..512].copy_from_slice(&record(1, 300, 4, &[]));
    let mut response = empty_response(&buf);
    assert_eq!(response.parse_response(&buf, 488), Err(DnsError::TruncatedMessage));
    assert!(response.answers.is_empty());
    // The record starts at 506: its fixed fields do not fit.
    let mut buf = reply(7, 1, &[]);
    buf[506..508].copy_from_slice(&[0xC0, 0x0C]);
    let mut response = empty_response(&buf);
    assert_eq!(response.parse_response(&buf, 494), Err(DnsError::TruncatedMessage));
}

#[test]
fn answer_section_behind_the_buffer_is_truncated() {
    let buf = reply(7, 1, &record(1, 300, 4, &[1, 2, 3, 4]));
    for size in [500, 501, 10_000, usize::MAX - 12, usize::MAX - 11, usize::MAX] {
        let mut response = empty_response(&buf);
        assert_eq!(response.parse_response(&buf, size), Err(DnsError::TruncatedMessage));
    }
}

#[test]
fn no_answers_means_nothing_is_read() {
    let buf = reply(7, 0, &record(1, 300, 4, &[1, 2, 3, 4]));
    for size in [16, 500, usize::MAX] {
        let mut response = empty_response(&buf);
        assert_eq!(response.parse_response(&buf, size), Ok(()));
        assert!(response.answers.is_empty());
    }
}

#[test]
fn a_record_of_another_length_is_malformed() {
    let buf = reply(7, 1, &record(1, 300, 5, &[1, 2, 3, 4, 5]));
    assert_eq!(parsed(&buf), Err(DnsError::MalformedRecord));
    let buf = reply(7, 1, &record(1, 300, 0, &[]));
    assert_eq!(parsed(&buf), Err(DnsError::MalformedRecord));
}

#[test]
fn aaaa_record_of_another_length_is_malformed() {
    let buf = reply(7, 1, &record(28, 300, 4, &[1, 2, 3, 4]));
    assert_eq!(parsed(&buf), Err(DnsError::MalformedRecord));
}

#[test]
fn records_before_a_failure_stay() {
    let mut answers = record(1, 300, 4, &[1, 1, 1, 1]);
    answers.extend_from_slice(&record(28, 300, 3, &[1, 2, 3]));
    let buf = reply(7, 2, &answers);
    let mut response = empty_response(&buf);
    assert_eq!(response.parse_response(&buf, 16), Err(DnsError::MalformedRecord));
    assert_eq!(response.answers.len(), 1);
    assert_eq!(response.answers[0].rdata, RData::A([1, 1, 1, 1]));
}

#[test]
fn answers_are_appended_in_wire_order() {
    let mut answers = Vec::new();
    for i in 0..5u8 {
        answers.extend_from_slice(&record(1, i as u32, 4, &[i, i, i, i]));
    }
    let buf = reply(7, 5, &answers);
    let mut response = empty_response(&buf);
    response.answers.push(IpAnswer { name_offset: 0, class: 0, ttl: 99, rdata: RData::CNAME { name_offset: 1 } });
    assert_eq!(response.parse_response(&buf, 16), Ok(()));
    assert_eq!(response.answers.len(), 6);
    assert_eq!(response.answers[0].ttl, 99);
    for i in 0..5u8 {
        assert_eq!(response.answers[1 + i as usize].ttl, i as u32);
        assert_eq!(response.answers[1 + i as usize].rdata, RData::A([i, i, i, i]));
    }
}

#[test]
fn the_count_in_the_reply_decides_how_many_are_read() {
    let mut answers = record(1, 1, 4, &[1, 1, 1, 1]);
    answers.extend_from_slice(&record(1, 2, 4, &[2, 2, 2, 2]));
    let buf = reply(7, 1, &answers);
    let mut response = empty_response(&buf);
    response.header.ancount = 2;
    assert_eq!(response.parse_response(&buf, 16), Ok(()));
    assert_eq!(response.answers.len(), 1);
    assert_eq!(response.header.ancount, 2);
}

#[test]
fn parse_reads_header_and_answers() {
    let buf = reply(0xCAFE, 1, &record(1, 300, 4, &[93, 184, 216, 34]));
    let response = DnsResponse::parse(&buf, 16).unwrap();
    assert_eq!(
        response.header,
        DnsHeader { id: 0xCAFE, flags: 0x8180, qdcount: 1, ancount: 1, nscount: 0, arcount: 0 }
    );
    assert_eq!(
        response.answers,
        vec![IpAnswer { name_offset: 12, class: 1, ttl: 300, rdata: RData::A([93, 184, 216, 34]) }]
    );
    let bad = reply(0xCAFE, 1, &record(1, 300, 3, &[93, 184, 216]));
    assert_eq!(DnsResponse::parse(&bad, 16).unwrap_err(), DnsError::MalformedRecord);
}

#[test]
fn id_mismatch_is_seen_and_does_not_stop_decoding() {
    let buf = reply(0x1111, 1, &record(1, 300, 4, &[93, 184, 216, 34]));
    let mut response = DnsResponse { header: DnsHeader::new(0x2222), answers: Vec::new() };
    assert!(!response.id_matches(&buf));
    assert_eq!(response.parse_response(&buf, 16), Ok(()));
    assert_eq!(response.answers.len(), 1);
    assert_eq!(response.header, DnsHeader::new(0x2222));
    let same = DnsResponse { header: DnsHeader::new(0x1111), answers: Vec::new() };
    assert!(same.id_matches(&buf));
}

#[test]
fn read_name_of_a_pointer_gives_its_offset() {
    let buf = [0xC0u8, 0x0C, 0xFF, 0xFF, 0xC1];
    assert_eq!(DnsResponse::read_name(&buf, 0), Ok((12, 2)));
    assert_eq!(DnsResponse::read_name(&buf, 2), Ok((0x3FFF, 4)));
    assert_eq!(DnsResponse::read_name(&buf, 4), Err(DnsError::TruncatedMessage));
    assert_eq!(DnsResponse::read_name(&buf, 5), Err(DnsError::TruncatedMessage));
}

#[test]
fn read_name_walks_an_inline_name() {
    let buf = [9u8, 3, b'w', b'w', b'w', 2, b'a', b'b', 0, 7];
    assert_eq!(DnsResponse::read_name(&buf, 1), Ok((1, 9)));
    assert_eq!(DnsResponse::read_name(&buf, 5), Ok((5, 9)));
    assert_eq!(DnsResponse::read_name(&buf, 8), Ok((8, 9)));
    // The label at 0 would end at the end of the buffer.
    assert_eq!(DnsResponse::read_name(&buf, 0), Err(DnsError::TruncatedMessage));
    assert_eq!(DnsResponse::read_name(&buf, 9), Err(DnsError::TruncatedMessage));
    assert_eq!(DnsResponse::read_name(&[], 0), Err(DnsError::TruncatedMessage));
}

#[test]
fn inline_walk_takes_every_non_zero_byte_as_a_length() {
    let mut buf = [0u8; 512];
    buf[0..6].copy_from_slice(&[3, b'w', b'w', b'w', 0xC0, 0x0C]);
    // 0xC0 behind the first label is skipped as a label of 192 bytes.
    assert_eq!(DnsResponse::read_name(&buf, 0), Ok((0, 198)));
}

#[test]
fn decode_name_follows_pointers() {
    let mut buf = reply(7, 0, &[]);
    buf[40..46].copy_from_slice(&[3, b'w', b'w', b'w', 0xC0, 0x0C]);
    buf[50..52].copy_from_slice(&[0xC0, 40]);
    assert_eq!(DnsResponse::decode_name(&buf, 12), Ok(String::from("google.com")));
    assert_eq!(DnsResponse::decode_name(&buf, 40), Ok(String::from("www.google.com")));
    assert_eq!(DnsResponse::decode_name(&buf, 50), Ok(String::from("www.google.com")));
    assert_eq!(DnsResponse::decode_name(&buf, 19), Ok(String::from("com")));
}

#[test]
fn decode_name_of_the_root_is_empty() {
    let buf = [0u8; 4];
    assert_eq!(DnsResponse::decode_name(&buf, 2), Ok(String::new()));
    assert_eq!(name_labels(&buf, 2), Ok(Vec::new()));
}

#[test]
fn decode_name_stops_a_pointer_loop() {
    let mut buf = [0u8; 512];
    buf[20..22].copy_from_slice(&[0xC0, 20]);
    assert_eq!(DnsResponse::decode_name(&buf, 20), Err(DnsError::CompressionLoop));
    buf[30..34].copy_from_slice(&[1, b'a', 0xC0, 30]);
    assert_eq!(DnsResponse::decode_name(&buf, 30), Err(DnsError::CompressionLoop));
    buf[60..62].copy_from_slice(&[0xC0, 62]);
    buf[62..64].copy_from_slice(&[0xC0, 60]);
    assert_eq!(name_labels(&buf, 60), Err(DnsError::CompressionLoop));
}

#[test]
fn decode_name_may_take_one_step_more_than_the_buffer_has_bytes() {
    // Two steps in a buffer of one byte.
    assert_eq!(name_labels(&[0], 0), Ok(Vec::new()));
    // Three pointers and the final zero: four steps in a buffer of seven bytes.
    let buf = [0xC0u8, 2, 0xC0, 4, 0xC0, 6, 0];
    assert_eq!(name_labels(&buf, 0), Ok(Vec::new()));
    // Three steps in a buffer of two bytes: one too many.
    let buf = [0xC0u8, 0];
    assert_eq!(name_labels(&buf, 0), Err(DnsError::CompressionLoop));
}

#[test]
fn decode_name_outside_the_buffer_is_truncated() {
    let buf = [3u8, b'a', b'b'];
    assert_eq!(DnsResponse::decode_name(&buf, 0), Err(DnsError::TruncatedMessage));
    assert_eq!(DnsResponse::decode_name(&buf, 3), Err(DnsError::TruncatedMessage));
    assert_eq!(DnsResponse::decode_name(&[0xC0], 0), Err(DnsError::TruncatedMessage));
    // A pointer that leads behind the buffer.
    assert_eq!(DnsResponse::decode_name(&[0xC0, 9], 0), Err(DnsError::TruncatedMessage));
    // A label may end exactly where the buffer ends; the next read fails.
    assert_eq!(DnsResponse::decode_name(&[2, b'a', b'b'], 0), Err(DnsError::TruncatedMessage));
}

#[test]
fn name_labels_are_the_raw_bytes() {
    let buf = [2u8, 0xFF, b'a', 1, b'.', 0];
    assert_eq!(name_labels(&buf, 0), Ok(vec![vec![0xFF, b'a'], vec![b'.']]));
}

#[test]
fn bytes_that_are_not_utf8_become_the_replacement_character() {
    let buf = [2u8, 0xFF, b'a', 2, 0xC3, 0xA9, 0];
    assert_eq!(DnsResponse::decode_name(&buf, 0), Ok(String::from("\u{FFFD}a.\u{e9}")));
}

#[test]
fn join_labels_puts_dots_between() {
    assert_eq!(join_labels(&vec![]), "");
    assert_eq!(join_labels(&vec![String::from("a")]), "a");
    assert_eq!(join_labels(&vec![String::from("a"), String::new(), String::from("bc")]), "a..bc");
}

#[test]
fn read_rdata_by_type() {
    let buf = [0u8, 7, 0xC0, 0x0C, 9, 9];
    assert_eq!(read_rdata(&buf, 0, 1, 4), Ok((RData::A([0, 7, 0xC0, 0x0C]), 4)));
    assert_eq!(read_rdata(&buf, 0, 15, 4), Ok((RData::MX { preference: 7, exchange_offset: 12 }, 4)));
    assert_eq!(read_rdata(&buf, 2, 5, 2), Ok((RData::CNAME { name_offset: 12 }, 4)));
    assert_eq!(read_rdata(&buf, 4, 2, 2), Ok((RData::Unknown { rtype: 2, data: vec![9, 9] }, 6)));
    assert_eq!(read_rdata(&buf, 6, 2, 0), Ok((RData::Unknown { rtype: 2, data: vec![] }, 6)));
    assert_eq!(read_rdata(&buf, 4, 2, 3), Err(DnsError::TruncatedMessage));
    assert_eq!(read_rdata(&buf, 7, 2, 0), Err(DnsError::TruncatedMessage));
    assert_eq!(read_rdata(&buf, 5, 15, 0), Err(DnsError::TruncatedMessage));
    assert_eq!(read_rdata(&buf, 4, 15, 0), Err(DnsError::TruncatedMessage));
    assert_eq!(read_rdata(&buf, 6, 5, 0), Err(DnsError::TruncatedMessage));
    // Out of bounds is found before the wrong length.
    assert_eq!(read_rdata(&buf, 4, 1, 3), Err(DnsError::TruncatedMessage));
    assert_eq!(read_rdata(&buf, 4, 1, 2), Err(DnsError::MalformedRecord));
    assert_eq!(read_rdata(&buf, 0, 28, 6), Err(DnsError::MalformedRecord));
}

#[test]
fn read_record_gives_the_cursor_behind_it() {
    let buf = reply(7, 1, &record(1, 300, 4, &[93, 184, 216, 34]));
    let (answer, next) = read_record(&buf, 28).unwrap();
    assert_eq!(next, 44);
    assert_eq!(answer.ttl, 300);
    assert_eq!(answer.class, 1);
    assert_eq!(answer.name_offset, 12);
}

#[test]
fn record_types_and_their_codes() {
    assert_eq!(RecordType::from_u16(1), Some(RecordType::A));
    assert_eq!(RecordType::from_u16(15), Some(RecordType::MX));
    assert_eq!(RecordType::from_u16(16), Some(RecordType::TXT));
    assert_eq!(RecordType::from_u16(28), Some(RecordType::AAAA));
    assert_eq!(RecordType::from_u16(5), None);
    assert_eq!(RecordType::from_u16(0), None);
    assert_eq!(RecordType::from_u16(65535), None);
    for t in [RecordType::A, RecordType::MX, RecordType::TXT, RecordType::AAAA] {
        assert_eq!(RecordType::from_u16(t.to_u16()), Some(t));
    }
    assert_eq!(RecordType::AAAA.to_u16(), 28);
}

#[test]
fn name_written_by_the_encoder_reads_back() {
    for domain in ["a", "google.com", "chnu.edu.ua", "\u{e9}t\u{e9}.example.fr"] {
        let question = DnsQuestion::builder().name(domain).unwrap().build();
        let packet = DnsPacket { header: DnsHeader::new(9), question };
        let mut buf = [0xFFu8; 512];
        packet.write_packet(&mut buf);
        assert_eq!(DnsResponse::decode_name(&buf, 12), Ok(String::from(domain)));
        assert_eq!(DnsResponse::read_name(&buf, 12), Ok((12, 12 + question.qname_len)));
        let labels: Vec<Vec<u8>> = domain.split('.').map(|l| l.as_bytes().to_vec()).collect();
        assert_eq!(name_labels(&buf, 12), Ok(labels));
    }
}
