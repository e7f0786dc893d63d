use mini_dns::error::DnsError;
use mini_dns::header::{decode_header, encode_header, DnsHeader, FLAGS_QUERY, FLAGS_RESPONSE};
use mini_dns::name::{read_qname, write_qname, CompressionPolicy};
use mini_dns::question::{
    decode_question, decode_questions, encode_question, DnsQuestion, CLASS_IN, TYPE_A,
};
use mini_dns::reader::Reader;
use mini_dns::record::{decode_record, decode_records, encode_a_record, DnsAnswer};
use mini_dns::wire::{put_bytes, put_u16, put_u32};

fn wire_of(name: &str) -> Vec<u8> {
    let mut out = Vec::new();
    write_qname(&mut out, name).unwrap();
    out
}

#[test]
fn u16_is_written_most_significant_octet_first() {
    let mut out = vec![0xaa];
    put_u16(&mut out, 0x1234);
    assert_eq!(out, vec![0xaa, 0x12, 0x34]);
    put_u16(&mut out, 1);
    assert_eq!(out, vec![0xaa, 0x12, 0x34, 0x00, 0x01]);
}

#[test]
fn u32_is_written_most_significant_octet_first() {
    let mut out = Vec::new();
    put_u32(&mut out, 0x0102_0304);
    put_u32(&mut out, 60);
    assert_eq!(out, vec![1, 2, 3, 4, 0, 0, 0, 60]);
}

#[test]
fn u16_is_read_most_significant_octet_first() {
    let buf = [0xff, 0x02, 0x05, 0x03, 0x00];
    let mut r = Reader::new(&buf);
    assert_eq!(r.read_u16(), Ok(0xff02));
    assert_eq!(r.read_u16(), Ok(0x0503));
    let mut r = Reader::new(&buf[1..]);
    assert_eq!(r.read_u16(), Ok(517));
    assert_eq!(r.read_u16(), Ok(768));
}

#[test]
fn u32_is_read_most_significant_octet_first() {
    let buf = [9, 0x00, 0x0f, 0x42, 0x40, 7];
    let mut r = Reader::new(&buf);
    assert_eq!(r.read_u32(), Ok(0x0900_0f42));
    let mut r = Reader::new(&buf[1..]);
    assert_eq!(r.read_u32(), Ok(1_000_000));
}

#[test]
fn extreme_integers_survive_the_wire() {
    for n in [0u16, 1, 255, 256, 0x8180, u16::MAX] {
        let mut out = Vec::new();
        put_u16(&mut out, n);
        assert_eq!(Reader::new(&out).read_u16(), Ok(n));
    }
    for n in [0u32, 1, 255, 256, 65_535, 65_536, 0x00ff_ffff, 0x0100_0000, u32::MAX] {
        let mut out = Vec::new();
        put_u32(&mut out, n);
        assert_eq!(Reader::new(&out).read_u32(), Ok(n));
    }
}

#[test]
fn put_bytes_appends() {
    let mut out = vec![1, 2];
    put_bytes(&mut out, &[3, 4, 5]);
    put_bytes(&mut out, &[]);
    assert_eq!(out, vec![1, 2, 3, 4, 5]);
}

#[test]
fn reader_reads_in_order_and_stops_at_the_end() {
    let buf = [7, 0x12, 0x34, 0, 0, 0, 60, 9, 8];
    let mut r = Reader::new(&buf);
    assert_eq!(r.position(), 0);
    assert_eq!(r.remaining(), 9);
    assert_eq!(r.read_u8(), Ok(7));
    assert_eq!(r.read_u16(), Ok(0x1234));
    assert_eq!(r.read_u32(), Ok(60));
    assert_eq!(r.position(), 7);
    assert_eq!(r.read_u32(), Err(DnsError::TruncatedMessage));
    assert_eq!(r.position(), 7);
    assert_eq!(r.read_exact(3), Err(DnsError::TruncatedMessage));
    assert_eq!(r.read_exact(2), Ok(&[9u8, 8][..]));
    assert_eq!(r.remaining(), 0);
    assert_eq!(r.read_u8(), Err(DnsError::TruncatedMessage));
    assert_eq!(r.read_u16(), Err(DnsError::TruncatedMessage));
    assert_eq!(r.skip(1), Err(DnsError::TruncatedMessage));
    assert_eq!(r.skip(0), Ok(()));
    assert_eq!(r.read_exact(0), Ok(&[][..]));
}

#[test]
fn reader_skips_forward() {
    let buf = [1, 2, 3, 4, 5];
    let mut r = Reader::new(&buf);
    assert_eq!(r.skip(3), Ok(()));
    assert_eq!(r.read_u8(), Ok(4));
    assert_eq!(r.skip(2), Err(DnsError::TruncatedMessage));
    assert_eq!(r.position(), 4);
    assert_eq!(r.skip(usize::MAX), Err(DnsError::TruncatedMessage));
}

#[test]
fn name_is_written_label_by_label() {
    assert_eq!(
        wire_of("local.test"),
        vec![5, b'l', b'o', b'c', b'a', b'l', 4, b't', b'e', b's', b't', 0]
    );
    assert_eq!(wire_of("a"), vec![1, b'a', 0]);
    assert_eq!(wire_of("Www.Example.COM").len(), 17);
}

#[test]
fn name_is_appended_to_what_is_there() {
    let mut out = vec![0xde, 0xad];
    assert_eq!(write_qname(&mut out, "ab.c"), Ok(()));
    assert_eq!(out, vec![0xde, 0xad, 2, b'a', b'b', 1, b'c', 0]);
}

#[test]
fn empty_labels_are_written_as_zero_octets() {
    assert_eq!(wire_of(""), vec![0, 0]);
    assert_eq!(wire_of("a."), vec![1, b'a', 0, 0]);
    assert_eq!(wire_of(".a"), vec![0, 1, b'a', 0]);
    assert_eq!(wire_of("a..b"), vec![1, b'a', 0, 1, b'b', 0]);
}

#[test]
fn label_of_255_octets_is_written() {
    let label = "x".repeat(255);
    let wire = wire_of(&label);
    assert_eq!(wire.len(), 257);
    assert_eq!(wire[0], 255);
    assert_eq!(wire[256], 0);
    assert!(wire[1..256].iter().all(|b| *b == b'x'));
}

#[test]
fn label_of_256_octets_is_refused() {
    let name = format!("ok.{}.test", "x".repeat(256));
    let mut out = vec![1, 2, 3];
    assert_eq!(write_qname(&mut out, &name), Err(DnsError::Encoding));
    assert_eq!(out, vec![1, 2, 3]);
}

#[test]
fn long_name_of_short_labels_is_written() {
    let name = vec!["abcdefgh"; 100].join(".");
    let wire = wire_of(&name);
    assert_eq!(wire.len(), 100 * 9 + 1);
    let mut r = Reader::new(&wire);
    assert_eq!(read_qname(&mut r, CompressionPolicy::Reject), Ok(name));
}

#[test]
fn name_is_read_back() {
    for name in ["local.test", "a", "rust.test", "exemple.com", "Mixed.Case.Example", "a-b.c_d.e"] {
        for policy in [CompressionPolicy::Reject, CompressionPolicy::Verbatim] {
            let mut buf = wire_of(name);
            buf.extend_from_slice(&[0xff, 0xff]);
            let mut r = Reader::new(&buf);
            assert_eq!(read_qname(&mut r, policy), Ok(name.to_string()));
            assert_eq!(r.position(), buf.len() - 2);
        }
    }
}

#[test]
fn name_of_63_octet_labels_is_read_back() {
    let label = "y".repeat(63);
    let name = format!("{label}.{label}.z");
    let buf = wire_of(&name);
    let mut r = Reader::new(&buf);
    assert_eq!(read_qname(&mut r, CompressionPolicy::Reject), Ok(name));
    assert_eq!(r.remaining(), 0);
}

#[test]
fn name_beyond_ascii_is_read_back() {
    let name = "bücher.example";
    let buf = wire_of(name);
    assert_eq!(buf[0], 7);
    let mut r = Reader::new(&buf);
    assert_eq!(read_qname(&mut r, CompressionPolicy::Reject), Ok(name.to_string()));
}

#[test]
fn name_is_read_from_the_readers_position() {
    let buf = [9, 9, 1, b'a', 2, b'b', b'c', 0, 7];
    let mut r = Reader::new(&buf);
    r.skip(2).unwrap();
    assert_eq!(read_qname(&mut r, CompressionPolicy::Reject), Ok("a.bc".to_string()));
    assert_eq!(r.read_u8(), Ok(7));
}

#[test]
fn root_name_is_read_as_empty_text() {
    let buf = [0, 5];
    let mut r = Reader::new(&buf);
    assert_eq!(read_qname(&mut r, CompressionPolicy::Reject), Ok(String::new()));
    assert_eq!(r.position(), 1);
}

#[test]
fn dot_inside_a_label_is_kept() {
    let buf = [3, b'a', b'.', b'b', 0];
    let mut r = Reader::new(&buf);
    assert_eq!(read_qname(&mut r, CompressionPolicy::Reject), Ok("a.b".to_string()));
}

#[test]
fn name_without_end_is_truncated() {
    for buf in [&[][..], &[3, b'a', b'b'][..], &[1, b'a'][..], &[1, b'a', 2, b'b'][..]] {
        let mut r = Reader::new(buf);
        assert_eq!(read_qname(&mut r, CompressionPolicy::Reject), Err(DnsError::TruncatedMessage));
        assert_eq!(r.position(), 0);
    }
}

#[test]
fn pointer_is_refused_on_request() {
    let buf = [1, b'a', 0xc0, 0x0c, 0];
    let mut r = Reader::new(&buf);
    assert_eq!(read_qname(&mut r, CompressionPolicy::Reject), Err(DnsError::CompressedName));
    assert_eq!(r.position(), 0);
    let lowest = [0xc0, 0];
    let mut r = Reader::new(&lowest);
    assert_eq!(read_qname(&mut r, CompressionPolicy::Reject), Err(DnsError::CompressedName));
    let highest = [0xff, 0];
    let mut r = Reader::new(&highest);
    assert_eq!(read_qname(&mut r, CompressionPolicy::Reject), Err(DnsError::CompressedName));
}

#[test]
fn pointer_is_taken_as_length_on_request() {
    let short = [1, b'a', 0xc0, 0x0c, 0];
    let mut r = Reader::new(&short);
    assert_eq!(read_qname(&mut r, CompressionPolicy::Verbatim), Err(DnsError::TruncatedMessage));
    let mut long = vec![0xc0];
    long.extend_from_slice(&[b'z'; 192]);
    long.push(0);
    let mut r = Reader::new(&long);
    assert_eq!(read_qname(&mut r, CompressionPolicy::Verbatim), Ok("z".repeat(192)));
    assert_eq!(r.remaining(), 0);
}

#[test]
fn longest_label_without_marker_is_read_under_both_policies() {
    let mut buf = vec![191];
    buf.extend_from_slice(&[b'q'; 191]);
    buf.push(0);
    for policy in [CompressionPolicy::Reject, CompressionPolicy::Verbatim] {
        let mut r = Reader::new(&buf);
        assert_eq!(read_qname(&mut r, policy), Ok("q".repeat(191)));
    }
}

#[test]
fn label_that_is_not_text_is_refused() {
    let buf = [2, 0xff, 0xfe, 0];
    let mut r = Reader::new(&buf);
    assert_eq!(read_qname(&mut r, CompressionPolicy::Reject), Err(DnsError::MalformedName));
    assert_eq!(r.position(), 0);
    let split = [1, 0xc3, 1, 0xa9, 0];
    let mut r = Reader::new(&split);
    assert_eq!(read_qname(&mut r, CompressionPolicy::Reject), Err(DnsError::MalformedName));
}

#[test]
fn only_well_formed_utf8_is_text() {
    let refused: [&[u8]; 6] = [
        &[2, 0xc0, 0x80, 0],
        &[3, 0xe0, 0x80, 0x80, 0],
        &[3, 0xed, 0xa0, 0x80, 0],
        &[4, 0xf4, 0x90, 0x80, 0x80, 0],
        &[1, 0x80, 0],
        &[2, 0xe2, 0x82, 0],
    ];
    for buf in refused {
        let mut r = Reader::new(buf);
        assert_eq!(read_qname(&mut r, CompressionPolicy::Verbatim), Err(DnsError::MalformedName));
    }
    let accepted: [(&[u8], &str); 4] = [
        (&[2, 0xc2, 0x80, 0], "\u{80}"),
        (&[3, 0xe2, 0x82, 0xac, 0], "\u{20ac}"),
        (&[4, 0xf0, 0x9f, 0x98, 0x80, 0], "\u{1f600}"),
        (&[4, 0xf4, 0x8f, 0xbf, 0xbf, 0], "\u{10ffff}"),
    ];
    for (buf, text) in accepted {
        let mut r = Reader::new(buf);
        assert_eq!(read_qname(&mut r, CompressionPolicy::Verbatim), Ok(text.to_string()));
        let mut back = Vec::new();
        assert_eq!(write_qname(&mut back, text), Ok(()));
        assert_eq!(&back[..], buf);
    }
}

#[test]
fn truncation_is_found_before_bad_text() {
    let buf = [1, 0xff, 4, b'a'];
    let mut r = Reader::new(&buf);
    assert_eq!(read_qname(&mut r, CompressionPolicy::Reject), Err(DnsError::TruncatedMessage));
}

fn sample_header() -> DnsHeader {
    DnsHeader { id: 0x1234, flags: FLAGS_QUERY, qdcount: 1, ancount: 2, nscount: 3, arcount: 4 }
}

#[test]
fn header_is_twelve_octets_in_order() {
    assert_eq!(
        encode_header(&sample_header()),
        vec![0x12, 0x34, 0x01, 0x00, 0, 1, 0, 2, 0, 3, 0, 4]
    );
    let response = DnsHeader {
        id: 0xbeef,
        flags: FLAGS_RESPONSE,
        qdcount: 0x0102,
        ancount: 0,
        nscount: 0,
        arcount: 0xffff,
    };
    assert_eq!(
        encode_header(&response),
        vec![0xbe, 0xef, 0x81, 0x80, 1, 2, 0, 0, 0, 0, 0xff, 0xff]
    );
}

#[test]
fn header_is_read_back() {
    for h in [
        sample_header(),
        DnsHeader { id: 0, flags: 0, qdcount: 0, ancount: 0, nscount: 0, arcount: 0 },
        DnsHeader {
            id: u16::MAX,
            flags: u16::MAX,
            qdcount: u16::MAX,
            ancount: u16::MAX,
            nscount: u16::MAX,
            arcount: u16::MAX,
        },
        DnsHeader {
            id: 0x00ff,
            flags: 0xff00,
            qdcount: 256,
            ancount: 255,
            nscount: 1,
            arcount: 0x8000,
        },
    ] {
        let mut wire = encode_header(&h);
        wire.push(0x55);
        let mut r = Reader::new(&wire);
        assert_eq!(decode_header(&mut r), Ok(h));
        assert_eq!(r.position(), 12);
    }
}

#[test]
fn short_header_is_truncated() {
    let wire = encode_header(&sample_header());
    for len in 0..12 {
        let mut r = Reader::new(&wire[..len]);
        assert_eq!(decode_header(&mut r), Err(DnsError::TruncatedMessage));
        assert_eq!(r.position(), 0);
    }
}

#[test]
fn header_is_read_from_the_readers_position() {
    let mut buf = vec![1, 2, 3];
    buf.extend_from_slice(&encode_header(&sample_header()));
    let mut r = Reader::new(&buf);
    r.skip(3).unwrap();
    assert_eq!(decode_header(&mut r), Ok(sample_header()));
    let mut r = Reader::new(&buf);
    r.skip(4).unwrap();
    assert_eq!(decode_header(&mut r), Err(DnsError::TruncatedMessage));
    assert_eq!(r.position(), 4);
}

fn question(name: &str, qtype: u16, qclass: u16) -> DnsQuestion {
    DnsQuestion { qname: name.to_string(), qtype, qclass }
}

#[test]
fn question_is_name_type_class() {
    assert_eq!(
        encode_question(&question("ab.c", TYPE_A, CLASS_IN)),
        Ok(vec![2, b'a', b'b', 1, b'c', 0, 0, 1, 0, 1])
    );
    assert_eq!(
        encode_question(&question("x", 0x001c, 0x00ff)),
        Ok(vec![1, b'x', 0, 0, 0x1c, 0, 0xff])
    );
}

#[test]
fn question_with_overlong_label_is_refused() {
    let q = question(&"x".repeat(300), TYPE_A, CLASS_IN);
    assert_eq!(encode_question(&q), Err(DnsError::Encoding));
}

#[test]
fn question_is_read_back() {
    let q = question("rust.test", 28, 3);
    let wire = encode_question(&q).unwrap();
    let mut r = Reader::new(&wire);
    assert_eq!(decode_question(&mut r, CompressionPolicy::Reject), Ok(q));
    assert_eq!(r.remaining(), 0);
}

#[test]
fn cut_question_is_truncated() {
    let wire = encode_question(&question("rust.test", TYPE_A, CLASS_IN)).unwrap();
    for len in 0..wire.len() {
        let mut r = Reader::new(&wire[..len]);
        assert_eq!(
            decode_question(&mut r, CompressionPolicy::Reject),
            Err(DnsError::TruncatedMessage)
        );
        assert_eq!(r.position(), 0);
    }
}

#[test]
fn questions_are_read_in_a_row() {
    let first = question("a.b", 1, 1);
    let second = question("c", 2, 3);
    let mut wire = encode_question(&first).unwrap();
    wire.extend_from_slice(&encode_question(&second).unwrap());
    let mut r = Reader::new(&wire);
    assert_eq!(
        decode_questions(&mut r, 2, CompressionPolicy::Reject),
        Ok(vec![first.clone(), second])
    );
    assert_eq!(r.remaining(), 0);
    let mut r = Reader::new(&wire);
    assert_eq!(decode_questions(&mut r, 0, CompressionPolicy::Reject), Ok(vec![]));
    assert_eq!(r.position(), 0);
    let mut r = Reader::new(&wire);
    assert_eq!(decode_questions(&mut r, 1, CompressionPolicy::Reject), Ok(vec![first]));
    assert_eq!(r.position(), 9);
    let mut r = Reader::new(&wire);
    assert_eq!(
        decode_questions(&mut r, 3, CompressionPolicy::Reject),
        Err(DnsError::TruncatedMessage)
    );
    assert_eq!(r.position(), 0);
}

#[test]
fn address_record_has_the_fixed_layout() {
    assert_eq!(
        encode_a_record("local.test", 60, &[127, 0, 0, 1]),
        Ok(vec![
            5, b'l', b'o', b'c', b'a', b'l', 4, b't', b'e', b's', b't', 0, 0, 1, 0, 1, 0, 0, 0,
            60, 0, 4, 127, 0, 0, 1
        ])
    );
    assert_eq!(
        encode_a_record("a", 0x0102_0304, &[8, 8, 4, 4]),
        Ok(vec![1, b'a', 0, 0, 1, 0, 1, 1, 2, 3, 4, 0, 4, 8, 8, 4, 4])
    );
}

#[test]
fn address_record_with_overlong_label_is_refused() {
    let name = "x".repeat(256);
    assert_eq!(encode_a_record(&name, 60, &[1, 2, 3, 4]), Err(DnsError::Encoding));
}

#[test]
fn address_record_is_read_back() {
    let wire = encode_a_record("exemple.com", 3600, &[8, 8, 8, 8]).unwrap();
    let mut r = Reader::new(&wire);
    assert_eq!(
        decode_record(&mut r, CompressionPolicy::Reject),
        Ok(DnsAnswer {
            name: "exemple.com".to_string(),
            atype: 1,
            aclass: 1,
            ttl: 3600,
            rdata: Some([8, 8, 8, 8]),
        })
    );
    assert_eq!(r.remaining(), 0);
}

#[test]
fn data_of_other_records_is_passed_over() {
    let text = [1, b'a', 0, 0, 16, 0, 1, 0, 0, 0, 5, 0, 3, b'x', b'y', b'z', 0x77];
    let mut r = Reader::new(&text);
    assert_eq!(
        decode_record(&mut r, CompressionPolicy::Reject),
        Ok(DnsAnswer { name: "a".to_string(), atype: 16, aclass: 1, ttl: 5, rdata: None })
    );
    assert_eq!(r.read_u8(), Ok(0x77));
    let four_octets_of_another_type = [1, b'a', 0, 0, 2, 0, 1, 0, 0, 0, 5, 0, 4, 1, 2, 3, 4];
    let mut r = Reader::new(&four_octets_of_another_type);
    assert_eq!(decode_record(&mut r, CompressionPolicy::Reject).unwrap().rdata, None);
    assert_eq!(r.remaining(), 0);
}

#[test]
fn address_record_of_another_length_is_passed_over() {
    let five = [1, b'a', 0, 0, 1, 0, 1, 0, 0, 0, 5, 0, 5, 1, 2, 3, 4, 5];
    let mut r = Reader::new(&five);
    assert_eq!(
        decode_record(&mut r, CompressionPolicy::Reject),
        Ok(DnsAnswer { name: "a".to_string(), atype: 1, aclass: 1, ttl: 5, rdata: None })
    );
    assert_eq!(r.remaining(), 0);
    let none = [1, b'a', 0, 0, 1, 0, 1, 0, 0, 0, 5, 0, 0];
    let mut r = Reader::new(&none);
    assert_eq!(decode_record(&mut r, CompressionPolicy::Reject).unwrap().rdata, None);
    assert_eq!(r.remaining(), 0);
}

#[test]
fn record_with_missing_data_is_truncated() {
    let wire = encode_a_record("a.b", 60, &[1, 2, 3, 4]).unwrap();
    for len in 0..wire.len() {
        let mut r = Reader::new(&wire[..len]);
        assert_eq!(
            decode_record(&mut r, CompressionPolicy::Reject),
            Err(DnsError::TruncatedMessage)
        );
        assert_eq!(r.position(), 0);
    }
    let other = [1, b'a', 0, 0, 16, 0, 1, 0, 0, 0, 5, 0, 9, b'x'];
    let mut r = Reader::new(&other);
    assert_eq!(decode_record(&mut r, CompressionPolicy::Reject), Err(DnsError::TruncatedMessage));
    assert_eq!(r.position(), 0);
}

#[test]
fn records_are_read_in_a_row() {
    let mut wire = encode_a_record("a", 1, &[1, 1, 1, 1]).unwrap();
    wire.extend_from_slice(&[1, b'b', 0, 0, 5, 0, 1, 0, 0, 0, 2, 0, 2, 9, 9]);
    wire.extend_from_slice(&encode_a_record("c", 3, &[3, 3, 3, 3]).unwrap());
    let mut r = Reader::new(&wire);
    let records = decode_records(&mut r, 3, CompressionPolicy::Reject).unwrap();
    assert_eq!(records.len(), 3);
    assert_eq!(records[0].rdata, Some([1, 1, 1, 1]));
    assert_eq!(records[1].rdata, None);
    assert_eq!(records[1].name, "b");
    assert_eq!(records[2].rdata, Some([3, 3, 3, 3]));
    assert_eq!(records[2].ttl, 3);
    assert_eq!(r.remaining(), 0);
    let mut r = Reader::new(&wire);
    assert_eq!(
        decode_records(&mut r, 4, CompressionPolicy::Reject),
        Err(DnsError::TruncatedMessage)
    );
    assert_eq!(r.position(), 0);
}
