use clipboard_utils::detect::{contains_sensitive_info, detect_content_type, report, Findings};

fn kinds(list: &[&str]) -> Vec<String> {
    list.iter().map(|s| s.to_string()).collect()
}

#[test]
fn http_url() {
    assert_eq!(detect_content_type("http://example.com"), "url");
}

#[test]
fn https_url() {
    assert_eq!(detect_content_type("https://example.com/path?q=1"), "url");
}

#[test]
fn ftp_url() {
    assert_eq!(detect_content_type("ftp://files.example.com/doc.pdf"), "url");
}

#[test]
fn custom_protocol_url() {
    assert_eq!(detect_content_type("myapp+custom://open/page"), "url");
}

#[test]
fn www_url() {
    assert_eq!(detect_content_type("www.example.com"), "url");
}

#[test]
fn url_with_whitespace() {
    assert_eq!(detect_content_type("  https://example.com  "), "url");
}

#[test]
fn plain_text_not_url() {
    assert_eq!(detect_content_type("hello world"), "text");
}

#[test]
fn colon_slash_slash_in_plain_text_no_valid_scheme() {
    // Nothing stands before the colon.
    assert_eq!(detect_content_type("://foo"), "text");
}

#[test]
fn code_snippet() {
    assert_eq!(detect_content_type("const x = 1; function foo() {}"), "code");
}

#[test]
fn words_before_the_scheme_make_it_text() {
    assert_eq!(detect_content_type("see http://example.com"), "text");
}

#[test]
fn one_sign_of_code_is_not_enough() {
    assert_eq!(detect_content_type("let it be"), "text");
    assert_eq!(detect_content_type("let it be;"), "code");
    assert_eq!(detect_content_type("one; two"), "text");
    assert_eq!(detect_content_type("{ braces }"), "text");
}

#[test]
fn markup_counts_twice() {
    assert_eq!(detect_content_type("<b>bold</b>"), "code");
    assert_eq!(detect_content_type("</ without end"), "text");
}

#[test]
fn objects_are_code() {
    assert_eq!(detect_content_type(" {\"a\": 1} "), "code");
    assert_eq!(detect_content_type("{a}"), "text");
    assert_eq!(detect_content_type(""), "text");
}

#[test]
fn detects_url() {
    assert!(contains_sensitive_info(
        "visit https://secret.internal/admin",
        &kinds(&["url"]),
        &[],
    ));
}

#[test]
fn detects_ftp_url() {
    assert!(contains_sensitive_info(
        "ftp://files.company.com/secret.zip",
        &kinds(&["url"]),
        &[],
    ));
}

#[test]
fn detects_www_url() {
    assert!(contains_sensitive_info(
        "visit www.example.com/admin",
        &kinds(&["url"]),
        &[],
    ));
}

#[test]
fn no_url_kind_skips_url_check() {
    assert!(!contains_sensitive_info(
        "https://example.com",
        &kinds(&["phone"]),
        &[],
    ));
}

#[test]
fn detects_phone() {
    assert!(contains_sensitive_info(
        "call me 13812345678",
        &kinds(&["phone"]),
        &[],
    ));
}

#[test]
fn detects_email() {
    assert!(contains_sensitive_info(
        "send to user@example.com",
        &kinds(&["email"]),
        &[],
    ));
}

#[test]
fn skips_data_uri() {
    assert!(!contains_sensitive_info(
        "data:image/png;base64,iVBOR...",
        &kinds(&["url", "phone", "email"]),
        &[],
    ));
}

#[test]
fn skips_oversized_text() {
    let big = "a".repeat(5001);
    assert!(!contains_sensitive_info(
        &big,
        &kinds(&["phone"]),
        &[],
    ));
}

#[test]
fn custom_regex_rule() {
    assert!(contains_sensitive_info(
        "order-12345",
        &kinds(&[]),
        &["order-\\d+".to_string()],
    ));
}

#[test]
fn the_limit_counts_bytes() {
    let fits = format!("{}13812345678", "a".repeat(4989));
    assert_eq!(fits.len(), 5000);
    assert!(contains_sensitive_info(&fits, &kinds(&["phone"]), &[]));
    let wide = format!("{}13812345678", "界".repeat(1664));
    assert_eq!(wide.len(), 5003);
    assert!(!contains_sensitive_info(&wide, &kinds(&["phone"]), &[]));
}

#[test]
fn detects_identity_cards() {
    assert!(contains_sensitive_info(
        "id 11010519491231002X",
        &kinds(&["idcard"]),
        &[],
    ));
    assert!(!contains_sensitive_info("id 123456", &kinds(&["idcard"]), &[]));
}

#[test]
fn detects_secrets() {
    assert!(contains_sensitive_info(
        "password: aaaaaaaaaaaaaaaa",
        &kinds(&["secret"]),
        &[],
    ));
    assert!(!contains_sensitive_info("password: short", &kinds(&["secret"]), &[]));
}

#[test]
fn detects_passwords_by_their_characters() {
    let asked = kinds(&["password"]);
    assert!(contains_sensitive_info("Abcdef1!", &asked, &[]));
    assert!(!contains_sensitive_info("Abcde1!", &asked, &[]));
    assert!(!contains_sensitive_info("abcdef1!", &asked, &[]));
    assert!(!contains_sensitive_info("ABCDEF1!", &asked, &[]));
    assert!(!contains_sensitive_info("Abcdefg!", &asked, &[]));
    assert!(!contains_sensitive_info("Abcdefg1", &asked, &[]));
    assert!(!contains_sensitive_info("Abc def1!", &asked, &[]));
    assert!(!contains_sensitive_info("Abc\ndef1!", &asked, &[]));
    let long = format!("A1!{}", "a".repeat(61));
    assert!(contains_sensitive_info(&long, &asked, &[]));
    assert!(!contains_sensitive_info(&format!("{}a", long), &asked, &[]));
}

#[test]
fn passwords_go_by_the_unicode_tables() {
    let asked = kinds(&["password"]);
    assert!(contains_sensitive_info("ÉÉéé½½!!", &asked, &[]));
    assert!(!contains_sensitive_info("ÉÉéé½½aa", &asked, &[]));
}

#[test]
fn rules_that_do_not_compile_are_passed_over() {
    let rules = vec!["(".to_string(), "b+".to_string()];
    assert!(contains_sensitive_info("abc", &[], &rules));
    assert!(!contains_sensitive_info("axc", &[], &rules));
}

#[test]
fn more_kinds_find_what_fewer_find() {
    let text = "call me 13812345678";
    assert!(contains_sensitive_info(text, &kinds(&["phone"]), &[]));
    assert!(contains_sensitive_info(text, &kinds(&["phone", "email"]), &["x{2}".to_string()]));
    assert!(!contains_sensitive_info(text, &[], &[]));
}

#[test]
fn kinds_and_rules_add_up() {
    let lists = [kinds(&["phone"]), kinds(&["email"]), kinds(&[])];
    let rules = [vec!["x{2}".to_string()], vec![]];
    for text in ["call me 13812345678", "axx", "me@example.com", "nothing"] {
        for a in &lists {
            for b in &lists {
                let both: Vec<String> = a.iter().chain(b).cloned().collect();
                assert_eq!(
                    contains_sensitive_info(text, &both, &rules[0]),
                    contains_sensitive_info(text, a, &rules[0])
                        || contains_sensitive_info(text, b, &rules[1])
                );
            }
        }
    }
}

#[test]
fn findings_are_reported_where_they_are_asked_for() {
    let nothing = Findings {
        url: false,
        phone: false,
        idcard: false,
        email: false,
        secret: false,
        password: false,
        custom: false,
    };
    let asked = kinds(&["email", "idcard"]);
    assert!(!report(&asked, nothing));
    assert!(report(&asked, Findings { idcard: true, ..nothing }));
    assert!(!report(&asked, Findings { url: true, phone: true, secret: true, password: true, ..nothing }));
    assert!(report(&[], Findings { custom: true, ..nothing }));
}
