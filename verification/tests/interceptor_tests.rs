use dbmask::config::{AppConfig, MaskingRule};
use dbmask::faker::{mask, Strategy};
use dbmask::interceptor::{Anonymizer, PacketInterceptor};
use dbmask::msg::{DataRow, FieldDescription, RowDescription};

fn no_rules_config() -> AppConfig {
    AppConfig { masking_enabled: true, rules: Vec::new(), tls: None }
}

fn field(name: &[u8]) -> FieldDescription {
    FieldDescription {
        name: name.to_vec(),
        table_oid: 0,
        column_index: 0,
        type_oid: 0,
        type_len: 0,
        type_modifier: 0,
        format_code: 0,
    }
}

#[test]
fn test_heuristic_detection() {
    let config = no_rules_config();
    let mut anonymizer = Anonymizer::new(config);

    // Create a DataRow with an email
    let email = "test@example.com";
    let other = "some data";
    let mut row = DataRow {
        values: vec![Some(email.as_bytes().to_vec()), Some(other.as_bytes().to_vec())],
    };

    // Process the row
    row = anonymizer.on_data_row(row).unwrap();

    // Check results
    let val0 = std::str::from_utf8(row.values[0].as_ref().unwrap()).unwrap();
    let val1 = std::str::from_utf8(row.values[1].as_ref().unwrap()).unwrap();

    assert_ne!(val0, email, "Email should be masked");
    assert!(val0.contains("@"), "Masked value should still be an email");
    assert_eq!(val1, other, "Non-PII data should be unchanged");
}

#[test]
fn test_explicit_rule_overrides_heuristic() {
    let config = AppConfig {
        masking_enabled: true,
        rules: vec![MaskingRule {
            table: None,
            column: "email_col".to_string(),
            strategy: "address".to_string(), // Intentionally wrong strategy to prove override
        }],
        tls: None,
    };
    let mut anonymizer = Anonymizer::new(config);

    let desc = RowDescription { fields: vec![field(b"email_col")] };

    anonymizer.on_row_description(&desc);

    let email = "test@example.com";
    let mut row = DataRow { values: vec![Some(email.as_bytes().to_vec())] };

    row = anonymizer.on_data_row(row).unwrap();
    let val0 = std::str::from_utf8(row.values[0].as_ref().unwrap()).unwrap();

    // Should look like a city, not an email
    assert!(!val0.contains("@"), "Should be masked as address, not email");
}

#[test]
fn test_mask_is_deterministic() {
    // Same input bytes and strategy give the same replacement.
    for s in [
        Strategy::Email,
        Strategy::Phone,
        Strategy::Address,
        Strategy::CreditCard,
        Strategy::Mask,
    ] {
        let a = mask(b"alice@example.com", s);
        let b = mask(b"alice@example.com", s);
        assert_eq!(a, b);
    }
}

#[test]
fn test_mask_depends_on_input() {
    // Different inputs give different replacements: the seeded stream
    // really feeds the recipe.
    let a = mask(b"alice@example.com", Strategy::CreditCard);
    let b = mask(b"bob@example.com", Strategy::CreditCard);
    assert_ne!(a, b);
    let c = mask(b"alice@example.com", Strategy::Email);
    let d = mask(b"bob@example.com", Strategy::Email);
    assert_ne!(c, d);
}

#[test]
fn test_mask_verbatim_constant() {
    assert_eq!(mask(b"whatever", Strategy::Mask), b"MASKED".to_vec());
    assert_eq!(mask(b"", Strategy::Mask), b"MASKED".to_vec());
}

#[test]
fn test_mask_credit_card_shape() {
    let out = mask(b"4111111111111111", Strategy::CreditCard);
    assert_eq!(out.len(), 19);
    for (i, b) in out.iter().enumerate() {
        if i == 4 || i == 9 || i == 14 {
            assert_eq!(*b, b'-');
        } else {
            assert!(b.is_ascii_digit());
        }
    }
}

#[test]
fn test_mask_phone_shape() {
    let out = mask(b"555-0100", Strategy::Phone);
    assert_eq!(out.len(), 12);
    assert_eq!(out[0], b'+');
    assert_eq!(out[1], b'1');
    for b in &out[2..] {
        assert!(b.is_ascii_digit());
    }
}

#[test]
fn test_mask_email_shape() {
    let out = mask(b"someone", Strategy::Email);
    let text = std::str::from_utf8(&out).unwrap();
    assert_eq!(text.matches('@').count(), 1);
    let (local, domain) = text.split_once('@').unwrap();
    assert!(local.contains('.'));
    assert!(domain.contains('.'));
}

#[test]
fn test_null_cells_survive_masking() {
    let config = AppConfig {
        masking_enabled: true,
        rules: vec![MaskingRule {
            table: None,
            column: "c".to_string(),
            strategy: "email".to_string(),
        }],
        tls: None,
    };
    let mut anonymizer = Anonymizer::new(config);
    anonymizer.on_row_description(&RowDescription { fields: vec![field(b"c")] });
    let row = anonymizer.on_data_row(DataRow { values: vec![None] }).unwrap();
    assert_eq!(row.values, vec![None]);
}

#[test]
fn test_unknown_strategy_degrades_to_masked() {
    let config = AppConfig {
        masking_enabled: false,
        rules: vec![MaskingRule {
            table: None,
            column: "c".to_string(),
            strategy: "mystery".to_string(),
        }],
        tls: None,
    };
    let mut anonymizer = Anonymizer::new(config);
    anonymizer.on_row_description(&RowDescription { fields: vec![field(b"c")] });
    let row = anonymizer.on_data_row(DataRow { values: vec![Some(b"secret".to_vec())] }).unwrap();
    assert_eq!(row.values[0].as_ref().unwrap(), &b"MASKED".to_vec());
}

#[test]
fn test_first_matching_rule_wins() {
    let config = AppConfig {
        masking_enabled: false,
        rules: vec![
            MaskingRule { table: None, column: "c".to_string(), strategy: "mask".to_string() },
            MaskingRule {
                table: None,
                column: "c".to_string(),
                strategy: "credit_card".to_string(),
            },
        ],
        tls: None,
    };
    let mut anonymizer = Anonymizer::new(config);
    anonymizer.on_row_description(&RowDescription { fields: vec![field(b"c")] });
    let row = anonymizer.on_data_row(DataRow { values: vec![Some(b"x".to_vec())] }).unwrap();
    assert_eq!(row.values[0].as_ref().unwrap(), &b"MASKED".to_vec());
}

#[test]
fn test_table_scoped_rule_matches_any_table() {
    let config = AppConfig {
        masking_enabled: false,
        rules: vec![MaskingRule {
            table: Some("users".to_string()),
            column: "c".to_string(),
            strategy: "mask".to_string(),
        }],
        tls: None,
    };
    let mut anonymizer = Anonymizer::new(config);
    anonymizer.on_row_description(&RowDescription { fields: vec![field(b"c")] });
    let row = anonymizer.on_data_row(DataRow { values: vec![Some(b"x".to_vec())] }).unwrap();
    assert_eq!(row.values[0].as_ref().unwrap(), &b"MASKED".to_vec());
}

#[test]
fn test_scanner_disabled_passes_pii_through() {
    let config = AppConfig { masking_enabled: false, rules: Vec::new(), tls: None };
    let mut anonymizer = Anonymizer::new(config);
    let row = anonymizer
        .on_data_row(DataRow { values: vec![Some(b"test@example.com".to_vec())] })
        .unwrap();
    assert_eq!(row.values[0].as_ref().unwrap(), &b"test@example.com".to_vec());
}
