use simple_dns::register::{mx_registers_for, search_register, Registry};
use simple_dns::tokens::zone_tokens;
use simple_dns::validate::{validate_domain, validate_ip};
use simple_dns::zone::{load_tokens, manage_complete_register, manage_register, Context};

#[test]
fn ip_addresses() {
    assert!(validate_ip("10.10.255.1".to_string()));
    assert!(validate_ip("0.0.0.0".to_string()));
    assert!(validate_ip("+1.2.3.4".to_string()));
    assert!(validate_ip("001.2.3.4".to_string()));
    assert!(!validate_ip("256.1.1.1".to_string()));
    assert!(!validate_ip("1.2.3".to_string()));
    assert!(!validate_ip("1.2.3.4.".to_string()));
    assert!(!validate_ip("1..3.4".to_string()));
    assert!(!validate_ip("-1.2.3.4".to_string()));
    assert!(!validate_ip("+.2.3.4".to_string()));
    assert!(!validate_ip("".to_string()));
}

#[test]
fn domain_names() {
    assert!(validate_domain("ns1.example.com.".to_string()));
    assert!(validate_domain("example.com.".to_string()));
    assert!(validate_domain("sub-trapal.example.com".to_string()));
    assert!(!validate_domain("example.com".to_string()));
    assert!(!validate_domain("-a.example.com.".to_string()));
    assert!(!validate_domain("a.example-.com".to_string()));
    assert!(!validate_domain("a_b.example.com.".to_string()));
    assert!(!validate_domain("a b.example.com.".to_string()));
    let long = format!("{}.example.com.", "a".repeat(51));
    assert_eq!(long.len(), 64);
    assert!(!validate_domain(long));
    let just = format!("{}.example.com.", "a".repeat(50));
    assert!(validate_domain(just));
}

#[test]
fn domain_names_take_unicode_letters() {
    assert!(validate_domain("ñandú.example.com.".to_string()));
}

#[test]
fn tokens_of_a_zone() {
    let content = "$ORIGIN example.com. ; the origin\n\
                   $INCLUDE other.zone\n\
                   \n\
                   www\tIN  A 10.0.0.1\r\n   ;only a comment\n( mail MX 10 mx.example.com. )";
    let tokens = zone_tokens(content);
    let expected: Vec<&str> = vec![
        "$ORIGIN", "example.com.", "www", "IN", "A", "10.0.0.1", "(", "mail", "MX", "10",
        "mx.example.com.", ")",
    ];
    assert_eq!(tokens, expected);
    for t in &tokens {
        assert!(!t.is_empty());
        assert!(!t.chars().any(|c| c.is_whitespace() || c == ';'));
    }
}

#[test]
fn tokens_split_at_unicode_whitespace() {
    let tokens = zone_tokens("a\u{00A0}b\u{3000}c");
    assert_eq!(tokens, vec!["a", "b", "c"]);
}

#[test]
fn tokens_of_empty_content() {
    assert!(zone_tokens("").is_empty());
    assert!(zone_tokens("\n\n   \n; x y").is_empty());
}

fn words(ws: &[&str]) -> Vec<String> {
    ws.iter().map(|s| s.to_string()).collect()
}

#[test]
fn manage_register_takes_origin_and_ttl() {
    let mut c = Context::new();
    c.last_record = "$ORIGIN".to_string();
    assert!(manage_register("example.com.".to_string(), &mut c));
    assert_eq!(c.current_origin, "example.com.");
    assert!(c.last_record.is_empty());

    c.last_record = "$TTL".to_string();
    assert!(manage_register("3600".to_string(), &mut c));
    assert_eq!(c.current_ttl, 3600);

    c.last_record = "$TTL".to_string();
    assert!(!manage_register("lots".to_string(), &mut c));
    assert!(c.last_record.is_empty());
    assert_eq!(c.current_ttl, 3600);
}

#[test]
fn manage_register_mx_reads_priority_then_domain() {
    let mut c = Context::new();
    c.current_origin = "mail.example.com.".to_string();
    c.last_record = "MX".to_string();
    assert!(manage_register("20".to_string(), &mut c));
    assert_eq!(c.mx_priority, 20);
    assert_eq!(c.last_record, "MX");
    assert!(manage_register("mx.example.com.".to_string(), &mut c));
    assert_eq!(c.current_domain, "mx.example.com.");
    assert!(c.last_record.is_empty());

    let mut d = Context::new();
    d.last_record = "MX".to_string();
    assert!(!manage_register("seventy".to_string(), &mut d));
    assert_eq!(d.last_record, "MX");
}

#[test]
fn manage_register_refuses_unknown_directive() {
    let mut c = Context::new();
    c.last_record = "$FOO".to_string();
    assert!(!manage_register("x".to_string(), &mut c));
    assert_eq!(c.last_record, "$FOO");
}

#[test]
fn manage_register_address_needs_origin() {
    let mut c = Context::new();
    c.last_record = "A".to_string();
    assert!(manage_register("1.2.3.4".to_string(), &mut c));
    assert!(c.current_ip.is_empty());
    c.current_origin = "a.example.com.".to_string();
    c.last_record = "A".to_string();
    assert!(manage_register("1.2.3.4".to_string(), &mut c));
    assert_eq!(c.current_ip, "1.2.3.4");
}

#[test]
fn complete_register_files_records() {
    let mut registry = Registry::empty();
    let mut c = Context::new();
    c.current_origin = "a.example.com.".to_string();
    c.current_ip = "1.2.3.4".to_string();
    c.current_ttl = 60;
    assert!(manage_complete_register("A".to_string(), c.clone(), &mut registry));
    let r = search_register(&registry, "a.example.com.", 1).unwrap();
    assert_eq!(r.answer, "1.2.3.4");
    assert_eq!(r.mode, "IN");
    assert_eq!(r.ttl, 60);

    let mut m = Context::new();
    m.current_origin = "mail.example.com.".to_string();
    m.current_domain = "mx.example.com.".to_string();
    m.mx_priority = 5;
    m.machine_mode = "CH".to_string();
    assert!(manage_complete_register("MX".to_string(), m, &mut registry));
    let mx = mx_registers_for(&registry, "mail.example.com.");
    assert_eq!(mx.len(), 1);
    assert_eq!(mx[0].order, 5);
    assert_eq!(mx[0].mode, "IN");

    assert!(!manage_complete_register("SOA".to_string(), Context::new(), &mut registry));
    assert!(!manage_complete_register("A".to_string(), Context::new(), &mut registry));
}

#[test]
fn load_the_readme_zone() {
    let zone = "$ORIGIN example.com.\n\
                $TTL 3600\n\
                subtrapal.example.com.      A       10.10.255.1\n\
                catatumbo.example.com.      CNAME   example.com.\n\
                ns1.example.com.            NS      subtrapal.example.com.\n\
                txt.example.com.            TXT    Hola_Mundo_Encoded!\n\
                mail.example.com.           MX  10  example.com.\n\
                                            MX  20  submail.example.com.\n\
                                            MX  30  submail2.example.com.\n";
    let tokens = zone_tokens(zone);
    let mut registry = Registry::new();
    assert!(load_tokens(&mut registry, &tokens));

    let a = search_register(&registry, "subtrapal.example.com.", 1).unwrap();
    assert_eq!(a.register_type, "A");
    assert_eq!(a.answer, "10.10.255.1");
    assert_eq!(a.ttl, 3600);

    let c = search_register(&registry, "catatumbo.example.com.", 1).unwrap();
    assert_eq!(c.register_type, "CNAME");
    assert_eq!(c.answer, "example.com.");

    let ns = search_register(&registry, "ns1.example.com.", 2).unwrap();
    assert_eq!(ns.register_type, "NS");
    assert_eq!(ns.answer, "subtrapal.example.com.");

    let txt = search_register(&registry, "txt.example.com.", 16).unwrap();
    assert_eq!(txt.register_type, "TXT");
    assert_eq!(txt.answer, "Hola_Mundo_Encoded!");

    let mut orders: Vec<u16> = mx_registers_for(&registry, "mail.example.com.")
        .iter()
        .map(|r| r.order)
        .collect();
    orders.sort();
    assert_eq!(orders, vec![10, 20, 30]);

    // the built-in records are still there
    assert!(search_register(&registry, "localbase.localhost.", 1).is_some());
    assert_eq!(mx_registers_for(&registry, "mail.localbase.localhost.").len(), 1);
}

#[test]
fn load_reports_open_parenthesis() {
    let mut registry = Registry::empty();
    assert!(!load_tokens(&mut registry, &words(&["(", "x"])));
    assert!(load_tokens(&mut registry, &words(&["(", "x", ")"])));
}

#[test]
fn load_classes_and_invalid_values() {
    let mut registry = Registry::empty();
    let tokens = words(&[
        "$ORIGIN", "example.com.", "h.example.com.", "HS", "A", "1.2.3.4", "bad.example.com.",
        "A", "999.1.1.1", "x.example.com.", "CNAME", "nota_domain",
    ]);
    assert!(load_tokens(&mut registry, &tokens));
    let h = search_register(&registry, "h.example.com.", 4).unwrap();
    assert_eq!(h.mode, "HS");
    assert!(search_register(&registry, "bad.example.com.", 1).is_none());
    assert!(search_register(&registry, "x.example.com.", 1).is_none());
}

#[test]
fn loaded_names_are_words_of_the_zone() {
    let tokens = words(&[
        "MX", "10", "mx.example.com.", "TXT", "loose", "$ORIGIN", "z.example.com.", "A", "1.1.1.1",
    ]);
    let mut registry = Registry::empty();
    assert!(load_tokens(&mut registry, &tokens));
    // a text record filed before any origin has the empty name, and takes
    // the domain that the unfinished mail record left behind
    let t = search_register(&registry, "", 1).unwrap();
    assert_eq!(t.register_type, "TXT");
    assert_eq!(t.answer, "mx.example.com.");
    assert_eq!(search_register(&registry, "z.example.com.", 1).unwrap().answer, "1.1.1.1");
}
