use dbmask::scanner::{PiiScanner, PiiType};

#[test]
fn test_email_detection() {
    let scanner = PiiScanner::new();

    // Valid emails
    assert_eq!(scanner.scan(b"test@example.com"), Some(PiiType::Email));
    assert_eq!(scanner.scan(b"john.doe@company.org"), Some(PiiType::Email));
    assert_eq!(scanner.scan(b"user+tag@domain.co.uk"), Some(PiiType::Email));
    assert_eq!(scanner.scan(b"USER@EXAMPLE.COM"), Some(PiiType::Email));

    // Invalid emails
    assert_eq!(scanner.scan(b"not-an-email"), None);
    assert_eq!(scanner.scan(b"missing@domain"), None);
    assert_eq!(scanner.scan(b"@nodomain.com"), None);
    assert_eq!(scanner.scan(b"spaces in@email.com"), None);
}

#[test]
fn test_credit_card_detection() {
    let scanner = PiiScanner::new();

    // Valid credit cards
    assert_eq!(scanner.scan(b"1234-5678-9012-3456"), Some(PiiType::CreditCard));
    assert_eq!(scanner.scan(b"1234 5678 9012 3456"), Some(PiiType::CreditCard));
    assert_eq!(scanner.scan(b"1234567890123456"), Some(PiiType::CreditCard));

    // Invalid credit cards
    assert_eq!(scanner.scan(b"1234-5678-9012"), None);
    assert_eq!(scanner.scan(b"not a credit card"), None);
    assert_eq!(scanner.scan(b"12345678901234567890"), None); // Too long
}

#[test]
fn test_non_pii_data() {
    let scanner = PiiScanner::new();

    assert_eq!(scanner.scan(b"John Doe"), None);
    assert_eq!(scanner.scan(b"123 Main Street"), None);
    assert_eq!(scanner.scan(b"Hello, World!"), None);
    assert_eq!(scanner.scan(b""), None);
    assert_eq!(scanner.scan(b"12345"), None);
}

#[test]
fn test_default_trait() {
    let scanner = PiiScanner::default();
    assert_eq!(scanner.scan(b"test@example.com"), Some(PiiType::Email));
}

#[test]
fn test_non_utf8_bytes_are_not_pii() {
    let scanner = PiiScanner::new();
    assert_eq!(scanner.scan(&[0xff, 0xfe, 0x40, 0xff]), None);
    assert_eq!(scanner.scan(&[0x00, 0x01, 0x02]), None);
}

#[test]
fn test_email_needs_two_letter_tld() {
    let scanner = PiiScanner::new();
    assert_eq!(scanner.scan(b"a@b.c"), None);
    assert_eq!(scanner.scan(b"a@b.co"), Some(PiiType::Email));
}

#[test]
fn test_email_wins_over_credit_card() {
    let scanner = PiiScanner::new();
    // Matches only the credit-card pattern.
    assert_eq!(scanner.scan(b"1111222233334444"), Some(PiiType::CreditCard));
    // An email-shaped string is classified as email even with many digits.
    assert_eq!(scanner.scan(b"1234@5678.com"), Some(PiiType::Email));
}

#[test]
fn test_credit_card_mixed_separators() {
    let scanner = PiiScanner::new();
    assert_eq!(scanner.scan(b"1234-5678 9012\t3456"), Some(PiiType::CreditCard));
    assert_eq!(scanner.scan(b"1234--5678-9012-3456"), None);
    assert_eq!(scanner.scan(b"-1234-5678-9012-3456"), None);
    assert_eq!(scanner.scan(b"1234-5678-9012-3456 "), None);
}
