use pii_masker::Masker;

#[test]
fn test_email_basic_cases() {
    let masker = Masker::new().mask_emails();
    assert_eq!(masker.process("alice@example.com"), "a****@example.com");
    assert_eq!(masker.process("a@b.com"), "*@b.com");
    assert_eq!(masker.process("ab@example.com"), "a*@example.com");
    assert_eq!(masker.process("a.b+c_d@example.co.jp"), "a******@example.co.jp");
}

#[test]
fn test_email_mixed_text() {
    let masker = Masker::new().mask_emails();
    assert_eq!(
        masker.process("Contact: alice@example.com."),
        "Contact: a****@example.com."
    );
    assert_eq!(
        masker.process("alice@example.com and bob@example.org"),
        "a****@example.com and b**@example.org"
    );
}

#[test]
fn test_email_edge_cases() {
    let masker = Masker::new().mask_emails();
    assert_eq!(masker.process("alice@example"), "alice@example");
    assert_eq!(masker.process("alice@localhost"), "alice@localhost");
    assert_eq!(masker.process("alice@@example.com"), "alice@@example.com");
    assert_eq!(
        masker.process("first.last+tag@sub.domain.com"),
        "f*************@sub.domain.com"
    );
}

#[test]
fn test_phone_basic_formats() {
    let masker = Masker::new().mask_phones();
    assert_eq!(masker.process("090-1234-5678"), "***-****-5678");
    assert_eq!(masker.process("Call (555) 123-4567"), "Call (***) ***-4567");
    assert_eq!(masker.process("Intl: +81 3 1234 5678"), "Intl: +** * **** 5678");
    assert_eq!(masker.process("+1 (800) 123-4567"), "+* (***) ***-4567");
}

#[test]
fn test_phone_short_and_boundary_lengths() {
    let masker = Masker::new().mask_phones();
    assert_eq!(masker.process("1234"), "1234");
    assert_eq!(masker.process("12345"), "*2345");
    assert_eq!(masker.process("12-3456"), "**-3456");
}

#[test]
fn test_phone_mixed_text() {
    let masker = Masker::new().mask_phones();
    assert_eq!(
        masker.process("Tel: 090-1234-5678 ext. 99"),
        "Tel: ***-****-5678 ext. 99"
    );
    assert_eq!(
        masker.process("Numbers: 111-2222 and 333-4444"),
        "Numbers: ***-2222 and ***-4444"
    );
}

#[test]
fn test_phone_edge_cases() {
    let masker = Masker::new().mask_phones();
    assert_eq!(masker.process("abcdef"), "abcdef");
    assert_eq!(masker.process("+"), "+");
    assert_eq!(masker.process("(12) 345 678"), "(**) **5 678");
}

#[test]
fn test_combined_masking() {
    let masker = Masker::new().mask_emails().mask_phones();
    assert_eq!(
        masker.process("Contact: alice@example.com or 090-1234-5678."),
        "Contact: a****@example.com or ***-****-5678."
    );
    assert_eq!(
        masker.process("Email bob@example.org, phone +1 (800) 123-4567"),
        "Email b**@example.org, phone +* (***) ***-4567"
    );
}

#[test]
fn test_custom_mask_character() {
    let email_masker = Masker::new().mask_emails().with_mask_char('#');
    let phone_masker = Masker::new().mask_phones().with_mask_char('#');
    let combined = Masker::new().mask_emails().mask_phones().with_mask_char('#');

    assert_eq!(email_masker.process("alice@example.com"), "a####@example.com");
    assert_eq!(phone_masker.process("090-1234-5678"), "###-####-5678");
    assert_eq!(
        combined.process("Contact: alice@example.com or 090-1234-5678."),
        "Contact: a####@example.com or ###-####-5678."
    );
}

#[test]
fn test_masker_configuration() {
    let input = "alice@example.com 090-1234-5678";

    let passthrough = Masker::new();
    assert_eq!(passthrough.process(input), input);

    let email_only = Masker::new().mask_emails();
    assert_eq!(email_only.process(input), "a****@example.com 090-1234-5678");

    let phone_only = Masker::new().mask_phones();
    assert_eq!(phone_only.process(input), "alice@example.com ***-****-5678");

    let both = Masker::new().mask_emails().mask_phones();
    assert_eq!(both.process(input), "a****@example.com ***-****-5678");
}

#[test]
fn test_non_ascii_text_is_preserved() {
    let masker = Masker::new().mask_emails().mask_phones();
    let input = "連絡先: alice@example.com と 090-1234-5678";
    let expected = "連絡先: a****@example.com と ***-****-5678";
    assert_eq!(masker.process(input), expected);
}

#[test]
fn test_global_phones() {
    let masker = Masker::new().mask_phones();

    assert_eq!(masker.process("Tel: 090-1234-5678"), "Tel: ***-****-5678");
    assert_eq!(masker.process("Call (555) 123-4567 now"), "Call (***) ***-4567 now");
    assert_eq!(masker.process("Intl: +81 3 1234 5678"), "Intl: +** * **** 5678");
    assert_eq!(masker.process("Short: 12-3456"), "Short: **-3456");
}
