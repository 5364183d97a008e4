use pii_masker::is_domain_byte;
use pii_masker::is_local_byte;
use pii_masker::is_phone_char;
use pii_masker::is_phone_start;
use pii_masker::is_valid_domain;
use pii_masker::mask_emails_in_text;
use pii_masker::mask_local;
use pii_masker::mask_phone_candidate;
use pii_masker::mask_phones_in_text;
use pii_masker::Masker;

#[test]
fn output_has_same_character_count_as_input() {
    let masker = Masker::new().mask_emails().mask_phones();
    let inputs = [
        "",
        "alice@example.com",
        "a@b.com",
        "Contact: alice@example.com or 090-1234-5678.",
        "連絡先: alice@example.com と 090-1234-5678",
        "+1 (800) 123-4567",
        "nothing to mask here",
    ];
    for input in inputs {
        let output = masker.process(input);
        assert_eq!(output.chars().count(), input.chars().count());
    }
}

#[test]
fn default_configuration_passes_text_through() {
    let masker = Masker::default();
    let inputs = [
        "",
        "alice@example.com 090-1234-5678",
        "連絡先: alice@example.com",
    ];
    for input in inputs {
        assert_eq!(masker.process(input), input);
    }
}

#[test]
fn reprocessing_masked_output_is_stable() {
    let masker = Masker::new().mask_emails().mask_phones();
    let inputs = [
        "Contact: alice@example.com or 090-1234-5678.",
        "Email bob@example.org, phone +1 (800) 123-4567",
        "a@b.com and 12345",
        "連絡先: alice@example.com と 090-1234-5678",
    ];
    for input in inputs {
        let once = masker.process(input);
        let twice = masker.process(&once);
        assert_eq!(twice, once);
    }
}

#[test]
fn first_local_character_is_preserved() {
    let masker = Masker::new().mask_emails();
    let output = masker.process("zoe@example.com");
    assert_eq!(output.chars().next(), Some('z'));
    assert_eq!(output, "z**@example.com");
}

#[test]
fn last_four_digits_and_separators_are_preserved() {
    let masker = Masker::new().mask_phones();
    let output = masker.process("090-1234-5678");
    assert_eq!(output, "***-****-5678");
    let digits: String = output.chars().filter(|c| c.is_ascii_digit()).collect();
    assert_eq!(digits, "5678");
    for (a, b) in "090-1234-5678".chars().zip(output.chars()) {
        if !a.is_ascii_digit() {
            assert_eq!(a, b);
        }
    }
}

#[test]
fn mask_local_keeps_only_the_first_character() {
    assert_eq!(mask_local("alice", '*'), "a****");
    assert_eq!(mask_local("ab", '#'), "a#");
    assert_eq!(mask_local("a", '*'), "*");
}

#[test]
fn mask_phone_candidate_masks_all_but_last_four_digits() {
    assert_eq!(mask_phone_candidate("090-1234-5678", '*'), "***-****-5678");
    assert_eq!(mask_phone_candidate("12345", '#'), "#2345");
    assert_eq!(mask_phone_candidate("1234", '*'), "1234");
}

#[test]
fn domain_validity_follows_label_rules() {
    assert!(is_valid_domain("example.com"));
    assert!(is_valid_domain("sub.domain.com"));
    assert!(is_valid_domain("example.co.jp"));
    assert!(!is_valid_domain("localhost"));
    assert!(!is_valid_domain("example.c"));
    assert!(!is_valid_domain("example.com."));
    assert!(!is_valid_domain(".example.com"));
    assert!(!is_valid_domain("a..b"));
    assert!(!is_valid_domain("-a.com"));
    assert!(!is_valid_domain("a-.com"));
    assert!(!is_valid_domain("a.c-m"));
    assert!(!is_valid_domain(""));
}

#[test]
fn character_classes_match_the_documented_sets() {
    assert!(is_local_byte(b'a'));
    assert!(is_local_byte(b'Z'));
    assert!(is_local_byte(b'0'));
    assert!(is_local_byte(b'%'));
    assert!(is_local_byte(b'+'));
    assert!(!is_local_byte(b' '));
    assert!(!is_local_byte(b'@'));

    assert!(is_domain_byte(b'a'));
    assert!(is_domain_byte(b'-'));
    assert!(is_domain_byte(b'.'));
    assert!(!is_domain_byte(b'_'));
    assert!(!is_domain_byte(b'%'));

    assert!(is_phone_start(b'0'));
    assert!(is_phone_start(b'+'));
    assert!(is_phone_start(b'('));
    assert!(!is_phone_start(b')'));
    assert!(!is_phone_start(b'-'));

    assert!(is_phone_char(b'9'));
    assert!(is_phone_char(b' '));
    assert!(is_phone_char(b'-'));
    assert!(is_phone_char(b'('));
    assert!(is_phone_char(b')'));
    assert!(is_phone_char(b'+'));
    assert!(!is_phone_char(b'.'));
}

#[test]
fn email_pass_trims_trailing_punctuation_from_domains() {
    assert_eq!(
        mask_emails_in_text("see alice@example.com, thanks", '*'),
        "see a****@example.com, thanks"
    );
    assert_eq!(mask_emails_in_text("alice@example.com...", '*'), "a****@example.com...");
}

#[test]
fn adjacent_email_candidates_do_not_overlap() {
    assert_eq!(mask_emails_in_text("a@b.comx@y.de", '*'), "*@b.comx@y.de");
}

#[test]
fn phone_pass_trims_run_to_its_final_digit() {
    assert_eq!(mask_phones_in_text("12345(", '*'), "*2345(");
    assert_eq!(mask_phones_in_text("12345   word", '*'), "*2345   word");
    assert_eq!(mask_phones_in_text("(12345)", '*'), "(*2345)");
}

#[test]
fn short_digit_runs_are_never_partially_masked() {
    assert_eq!(mask_phones_in_text("year 2024 and 1999", '*'), "year 2024 and 1999");
    assert_eq!(mask_phones_in_text("12-34", '*'), "12-34");
}
