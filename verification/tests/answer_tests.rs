use simple_dns::answer::{convert_to_vec, encode_domain_name, map_type_class, write_buffer};

fn name_bytes(labels: &[&str]) -> Vec<u8> {
    let mut out = Vec::new();
    for l in labels {
        out.push(l.len() as u8);
        out.extend_from_slice(l.as_bytes());
    }
    out
}

#[test]
fn type_and_class_codes() {
    assert_eq!(map_type_class("A"), 1);
    assert_eq!(map_type_class("IN"), 1);
    assert_eq!(map_type_class("NS"), 2);
    assert_eq!(map_type_class("CH"), 3);
    assert_eq!(map_type_class("HS"), 4);
    assert_eq!(map_type_class("CNAME"), 5);
    assert_eq!(map_type_class("MX"), 15);
    assert_eq!(map_type_class("TXT"), 16);
    assert_eq!(map_type_class("SOA"), 1);
    assert_eq!(map_type_class("a"), 1);
    assert_eq!(map_type_class(""), 1);
}

#[test]
fn encode_fully_qualified_name() {
    let mut expected = name_bytes(&["example", "com"]);
    expected.push(0);
    assert_eq!(encode_domain_name("example.com."), expected);
    // one byte longer than the text
    assert_eq!(encode_domain_name("example.com.").len(), "example.com.".len() + 1);
}

#[test]
fn encode_name_without_final_dot_has_no_root() {
    assert_eq!(encode_domain_name("example.com"), name_bytes(&["example", "com"]));
}

#[test]
fn encode_name_stops_at_empty_label() {
    assert_eq!(encode_domain_name(""), vec![0]);
    assert_eq!(encode_domain_name("."), vec![0]);
    assert_eq!(encode_domain_name("a..b"), vec![1, b'a', 0]);
}

#[test]
fn encode_name_label_length_keeps_low_byte() {
    let label = "x".repeat(300);
    let out = encode_domain_name(&label);
    assert_eq!(out[0], (300 % 256) as u8);
    assert_eq!(out.len(), 301);
}

#[test]
fn address_record_bytes() {
    let out = convert_to_vec("localbase.localhost.", 86400, "IN", "A", "10.10.255.1", 0);
    let mut expected = name_bytes(&["localbase", "localhost"]);
    expected.push(0);
    expected.extend_from_slice(&[0, 1, 0, 1, 0x00, 0x01, 0x51, 0x80, 0, 4, 10, 10, 255, 1]);
    assert_eq!(out, expected);
}

#[test]
fn address_record_with_bad_octets() {
    let out = convert_to_vec("a.", 1, "IN", "A", "1.x.300.+4.5", 0);
    let tail = &out[out.len() - 7..];
    assert_eq!(tail, &[0, 4, 1, 0, 0, 4, 5]);
}

#[test]
fn alias_record_bytes() {
    let out = convert_to_vec("www.example.com.", 60, "CH", "CNAME", "example.com.", 0);
    let mut expected = name_bytes(&["www", "example", "com"]);
    expected.push(0);
    expected.extend_from_slice(&[0, 5, 0, 3, 0, 0, 0, 60]);
    expected.extend_from_slice(&[0, 13]);
    expected.extend_from_slice(&name_bytes(&["example", "com"]));
    expected.push(0);
    assert_eq!(out, expected);
}

#[test]
fn mail_record_bytes() {
    let out = convert_to_vec("mail.example.com.", 300, "IN", "MX", "mx.example.com.", 10);
    let mut expected = name_bytes(&["mail", "example", "com"]);
    expected.push(0);
    expected.extend_from_slice(&[0, 15, 0, 1, 0, 0, 1, 44]);
    expected.extend_from_slice(&[0, 18, 0, 10]);
    expected.extend_from_slice(&name_bytes(&["mx", "example", "com"]));
    expected.push(0);
    assert_eq!(out, expected);
}

#[test]
fn text_record_bytes() {
    let out = convert_to_vec("txt.example.com.", 1, "HS", "TXT", "Hola_Mundo", 0);
    let mut expected = name_bytes(&["txt", "example", "com"]);
    expected.push(0);
    expected.extend_from_slice(&[0, 16, 0, 4, 0, 0, 0, 1, 0, 11, 10]);
    expected.extend_from_slice(b"Hola_Mundo");
    assert_eq!(out, expected);
}

#[test]
fn unknown_type_has_no_data() {
    let out = convert_to_vec("a.", 7, "IN", "SOA", "whatever", 3);
    assert_eq!(out, vec![1, b'a', 0, 0, 1, 0, 1, 0, 0, 0, 7]);
}

#[test]
fn write_buffer_writes_at_offset_only() {
    let mut buffer = [0xAAu8; 64];
    let long = write_buffer(&mut buffer, 5, "a.", 7, "IN", "A", "1.2.3.4", 0);
    let rec = convert_to_vec("a.", 7, "IN", "A", "1.2.3.4", 0);
    assert_eq!(long as usize, rec.len());
    assert_eq!(&buffer[5..5 + rec.len()], rec.as_slice());
    assert!(buffer[..5].iter().all(|b| *b == 0xAA));
    assert!(buffer[5 + rec.len()..].iter().all(|b| *b == 0xAA));
}

/// Reads length-prefixed labels, stopping at a zero length or the end.
fn read_labels(bytes: &[u8]) -> Vec<Vec<u8>> {
    let mut out = Vec::new();
    let mut i = 0;
    while i < bytes.len() && bytes[i] != 0 {
        let end = (i + 1 + bytes[i] as usize).min(bytes.len());
        out.push(bytes[i + 1..end].to_vec());
        i = end;
    }
    out
}

#[test]
fn encoded_name_is_one_byte_longer_and_reads_back() {
    for name in ["example.com.", "example.com", "a", "a.b.c."] {
        let out = encode_domain_name(name);
        assert_eq!(out.len(), name.len() + 1);
        let labels: Vec<Vec<u8>> = name
            .split('.')
            .filter(|p| !p.is_empty())
            .map(|p| p.as_bytes().to_vec())
            .collect();
        assert_eq!(read_labels(&out), labels);
    }
    assert_eq!(*encode_domain_name("a.b.c.").last().unwrap(), 0);
}

#[test]
fn length_field_counts_what_follows() {
    for (typer, data) in [
        ("A", "1.2.3.4"),
        ("CNAME", "example.com."),
        ("NS", "ns.example.com"),
        ("MX", "mx.example.com."),
        ("TXT", "hello world"),
    ] {
        let out = convert_to_vec("q.example.com.", 5, "IN", typer, data, 9);
        let n = encode_domain_name("q.example.com.").len();
        let field = u16::from_be_bytes([out[n + 8], out[n + 9]]) as usize;
        assert_eq!(field, out.len() - (n + 10));
    }
}
