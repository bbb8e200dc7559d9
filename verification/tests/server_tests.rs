use simple_dns::answer::convert_to_vec;
use simple_dns::register::{search_register, Register, Registry};
use simple_dns::server::{answer_query, Answer};

fn reg(q: &str, t: &str, mode: &str, answer: &str, order: u16, ttl: u32) -> Register {
    Register {
        question: q.to_string(),
        register_type: t.to_string(),
        mode: mode.to_string(),
        answer: answer.to_string(),
        order,
        ttl,
    }
}

/// A message buffer whose question takes `len` bytes and asks for `qtype`.
fn query_buffer(len: u16, qtype: u16) -> [u8; 512] {
    let mut buffer = [0u8; 512];
    let off = 9 + len as usize;
    buffer[off] = (qtype >> 8) as u8;
    buffer[off + 1] = (qtype & 0xff) as u8;
    buffer
}

fn sample() -> Registry {
    let mut r = Registry::new();
    r.insert(reg("a.example.com.", "A", "IN", "10.0.0.1", 0, 60));
    r.insert(reg("a.example.com.", "A", "CH", "10.0.0.2", 0, 60));
    r.insert(reg("alias.example.com.", "CNAME", "IN", "a.example.com.", 0, 30));
    r.insert(reg("dangling.example.com.", "CNAME", "IN", "nowhere.example.com.", 0, 30));
    r.insert_mx(reg("mail.example.com.", "MX", "IN", "mx1.example.com.", 10, 300));
    r.insert_mx(reg("mail.example.com.", "MX", "IN", "mx2.example.com.", 20, 300));
    r
}

#[test]
fn insert_then_lookup_gives_it_back() {
    let mut r = Registry::empty();
    r.insert(reg("x.example.com.", "A", "HS", "1.1.1.1", 0, 5));
    let got = search_register(&r, "x.example.com.", 4).unwrap();
    assert_eq!(got.answer, "1.1.1.1");
    r.insert(reg("x.example.com.", "TXT", "HS", "hello", 0, 5));
    let got = search_register(&r, "x.example.com.", 4).unwrap();
    assert_eq!(got.register_type, "TXT");
    assert_eq!(got.answer, "hello");
}

#[test]
fn lookup_prefers_the_selected_class() {
    let r = sample();
    assert_eq!(search_register(&r, "a.example.com.", 3).unwrap().answer, "10.0.0.2");
    assert_eq!(search_register(&r, "a.example.com.", 1).unwrap().answer, "10.0.0.1");
    // HS has no record: any record of the name
    let any = search_register(&r, "a.example.com.", 4).unwrap();
    assert_eq!(any.question, "a.example.com.");
    let any = search_register(&r, "a.example.com.", 0).unwrap();
    assert_eq!(any.question, "a.example.com.");
    assert!(search_register(&r, "b.example.com.", 1).is_none());
}

#[test]
fn answer_address_query() {
    let r = sample();
    let mut buffer = query_buffer(17, 1);
    let before = buffer;
    let a = answer_query(&r, &mut buffer, 17, "a.example.com.").unwrap();
    let rec = convert_to_vec("a.example.com.", 60, "IN", "A", "10.0.0.1", 0);
    assert_eq!(a, Answer { length: 17 + rec.len() as u16, responses: 1, error: 0 });
    assert_eq!(&buffer[28..28 + rec.len()], rec.as_slice());
    assert_eq!(&buffer[..28], &before[..28]);
}

#[test]
fn answer_alias_with_its_target() {
    let r = sample();
    let mut buffer = query_buffer(21, 5);
    let a = answer_query(&r, &mut buffer, 21, "alias.example.com.").unwrap();
    let first = convert_to_vec("alias.example.com.", 30, "IN", "CNAME", "a.example.com.", 0);
    let second = convert_to_vec("a.example.com.", 60, "IN", "A", "10.0.0.1", 0);
    assert_eq!(a.responses, 2);
    assert_eq!(a.error, 0);
    assert_eq!(a.length as usize, 21 + first.len() + second.len());
    assert_eq!(&buffer[32..32 + first.len()], first.as_slice());
    let off = 32 + first.len();
    assert_eq!(&buffer[off..off + second.len()], second.as_slice());
}

#[test]
fn answer_alias_without_target() {
    let r = sample();
    let mut buffer = query_buffer(24, 5);
    let a = answer_query(&r, &mut buffer, 24, "dangling.example.com.").unwrap();
    assert_eq!(a.responses, 1);
    assert_eq!(a.error, 2);
}

#[test]
fn answer_unknown_name() {
    let r = sample();
    let mut buffer = query_buffer(10, 1);
    let before = buffer;
    let a = answer_query(&r, &mut buffer, 10, "zz.example.com.").unwrap();
    assert_eq!(a, Answer { length: 10, responses: 0, error: 3 });
    assert_eq!(buffer, before);
}

#[test]
fn answer_mail_name_with_all_mx() {
    let r = sample();
    let mut buffer = query_buffer(20, 15);
    let a = answer_query(&r, &mut buffer, 20, "mail.example.com.").unwrap();
    let one = convert_to_vec("mail.example.com.", 300, "IN", "MX", "mx1.example.com.", 10);
    let two = convert_to_vec("mail.example.com.", 300, "IN", "MX", "mx2.example.com.", 20);
    assert_eq!(a.responses, 2);
    assert_eq!(a.error, 0);
    assert_eq!(a.length as usize, 20 + one.len() + two.len());
    let written = &buffer[31..31 + one.len() + two.len()];
    let mut a_then_b = one.clone();
    a_then_b.extend_from_slice(&two);
    let mut b_then_a = two.clone();
    b_then_a.extend_from_slice(&one);
    assert!(written == a_then_b.as_slice() || written == b_then_a.as_slice());
}

#[test]
fn answer_that_does_not_fit() {
    let r = sample();
    let mut buffer = [0u8; 40];
    assert!(answer_query(&r, &mut buffer, 20, "mail.example.com.").is_none());
    let mut small = [0u8; 20];
    assert!(answer_query(&r, &mut small, 15, "a.example.com.").is_none());
}
