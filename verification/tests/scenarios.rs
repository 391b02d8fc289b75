use pii_processor::{
    apply_spans, detect_and_transform, order_spans, process_pii, root, PatternRegistry, PiiError,
    PiiField, PiiRequest, PrivacyPolicy, Span,
};

fn ids(names: &[&str]) -> Vec<String> {
    names.iter().map(|n| n.to_string()).collect()
}

fn triple(kind: &str, original: &str, replacement: &str) -> (String, String, String) {
    (kind.to_string(), original.to_string(), replacement.to_string())
}

#[test]
fn redact_email_scenario() {
    let out = detect_and_transform("Email me at a@b.com", &ids(&["EMAIL"]), PrivacyPolicy::Redact)
        .unwrap();
    let bar = "\u{2588}".repeat(7);
    assert_eq!(out.redacted, format!("Email me at {}", bar));
    assert!(out.redacted.ends_with(&bar));
    assert_eq!(out.map, vec![triple("EMAIL", "a@b.com", &bar)]);
    assert_eq!(out.map[0].2.chars().count(), 7);
}

#[test]
fn anonymize_ssn_scenario() {
    let out = detect_and_transform(
        "SSN 123-45-6789 and 987-65-4321",
        &ids(&["SSN"]),
        PrivacyPolicy::Anonymize,
    )
    .unwrap();
    assert_eq!(out.redacted, "SSN <SSN_2> and <SSN_1>");
    assert_eq!(
        out.map,
        vec![triple("SSN", "987-65-4321", "<SSN_1>"), triple("SSN", "123-45-6789", "<SSN_2>")]
    );
}

#[test]
fn hash_credit_card_scenario() {
    let fields = ids(&["CREDIT_CARD"]);
    let first =
        detect_and_transform("card 4111-1111-1111-1111", &fields, PrivacyPolicy::Hash).unwrap();
    let again =
        detect_and_transform("card 4111-1111-1111-1111", &fields, PrivacyPolicy::Hash).unwrap();
    let other =
        detect_and_transform("card 4111-1111-1111-1112", &fields, PrivacyPolicy::Hash).unwrap();
    assert_eq!(first.redacted, "card b3f846b2");
    assert_eq!(first.map, vec![triple("CREDIT_CARD", "4111-1111-1111-1111", "b3f846b2")]);
    assert_eq!(first.map, again.map);
    assert_eq!(first.redacted, again.redacted);
    assert_eq!(other.map[0].2, "cb8a7732");
    assert_ne!(first.map[0].2, other.map[0].2);
}

#[test]
fn no_match_leaves_text_alone() {
    let text = "nothing to see here, move along";
    let fields = ids(&["EMAIL", "PHONE", "SSN", "CREDIT_CARD"]);
    for policy in [PrivacyPolicy::Redact, PrivacyPolicy::Anonymize, PrivacyPolicy::Hash] {
        let out = detect_and_transform(text, &fields, policy).unwrap();
        assert_eq!(out.redacted, text);
        assert!(out.map.is_empty());
    }
}

#[test]
fn no_fields_leaves_text_alone() {
    let out = detect_and_transform("mail a@b.com", &[], PrivacyPolicy::Redact).unwrap();
    assert_eq!(out.redacted, "mail a@b.com");
    assert!(out.map.is_empty());
}

#[test]
fn empty_text_is_served() {
    let out = detect_and_transform("", &ids(&["EMAIL"]), PrivacyPolicy::Hash).unwrap();
    assert_eq!(out.redacted, "");
    assert!(out.map.is_empty());
}

#[test]
fn unknown_field_is_skipped() {
    let text = "write to a@b.com or c.d@e-f.org";
    for policy in [PrivacyPolicy::Redact, PrivacyPolicy::Anonymize, PrivacyPolicy::Hash] {
        let with = detect_and_transform(text, &ids(&["EMAIL", "BOGUS"]), policy).unwrap();
        let without = detect_and_transform(text, &ids(&["EMAIL"]), policy).unwrap();
        assert_eq!(with.redacted, without.redacted);
        assert_eq!(with.map, without.map);
        assert_eq!(with.map.len(), 2);
    }
}

#[test]
fn unknown_field_alone_finds_nothing() {
    let out = detect_and_transform("a@b.com", &ids(&["BOGUS"]), PrivacyPolicy::Redact).unwrap();
    assert_eq!(out.redacted, "a@b.com");
    assert!(out.map.is_empty());
}

#[test]
fn field_identifiers_ignore_case() {
    let out =
        detect_and_transform("a@b.com", &ids(&["eMaIl"]), PrivacyPolicy::Anonymize).unwrap();
    assert_eq!(out.redacted, "<EMAIL_1>");
    assert_eq!(out.map, vec![triple("EMAIL", "a@b.com", "<EMAIL_1>")]);
}

#[test]
fn two_calls_agree() {
    let text = "Contact john.doe@example.com or call 555-123-4567. SSN 123-45-6789.";
    let fields = ids(&["EMAIL", "PHONE", "SSN"]);
    for policy in [PrivacyPolicy::Redact, PrivacyPolicy::Anonymize, PrivacyPolicy::Hash] {
        let a = detect_and_transform(text, &fields, policy).unwrap();
        let b = detect_and_transform(text, &fields, policy).unwrap();
        assert_eq!(a.redacted, b.redacted);
        assert_eq!(a.map, b.map);
    }
}

#[test]
fn redaction_counts_bytes_of_the_span() {
    let out =
        detect_and_transform("call 555-123-4567 now", &ids(&["PHONE"]), PrivacyPolicy::Redact)
            .unwrap();
    let bar = "\u{2588}".repeat(12);
    assert_eq!(out.redacted, format!("call {} now", bar));
    assert_eq!(out.map, vec![triple("PHONE", "555-123-4567", &bar)]);
    assert_eq!(out.map[0].2.len(), 36);
}

#[test]
fn redaction_after_wide_characters() {
    let out = detect_and_transform("h\u{e9}llo \u{1f600} a@b.com \u{2713}", &ids(&["EMAIL"]), PrivacyPolicy::Redact)
        .unwrap();
    let bar = "\u{2588}".repeat(7);
    assert_eq!(out.redacted, format!("h\u{e9}llo \u{1f600} {} \u{2713}", bar));
    assert_eq!(out.map, vec![triple("EMAIL", "a@b.com", &bar)]);
}

#[test]
fn counters_run_from_the_right_for_each_kind() {
    let text = "a@b.com 123-45-6789 c@d.org 987-65-4321 e@f.net";
    let out =
        detect_and_transform(text, &ids(&["EMAIL", "SSN"]), PrivacyPolicy::Anonymize).unwrap();
    assert_eq!(out.redacted, "<EMAIL_3> <SSN_2> <EMAIL_2> <SSN_1> <EMAIL_1>");
    assert_eq!(
        out.map,
        vec![
            triple("EMAIL", "e@f.net", "<EMAIL_1>"),
            triple("SSN", "987-65-4321", "<SSN_1>"),
            triple("EMAIL", "c@d.org", "<EMAIL_2>"),
            triple("SSN", "123-45-6789", "<SSN_2>"),
            triple("EMAIL", "a@b.com", "<EMAIL_3>"),
        ]
    );
}

#[test]
fn counters_reach_two_digits() {
    let text = "a@b.com ".repeat(12);
    let out = detect_and_transform(&text, &ids(&["EMAIL"]), PrivacyPolicy::Anonymize).unwrap();
    assert_eq!(out.map.len(), 12);
    assert_eq!(out.map[0].2, "<EMAIL_1>");
    assert_eq!(out.map[9].2, "<EMAIL_10>");
    assert_eq!(out.map[11].2, "<EMAIL_12>");
    assert!(out.redacted.starts_with("<EMAIL_12> <EMAIL_11> <EMAIL_10> <EMAIL_9> "));
}

#[test]
fn equal_originals_hash_alike() {
    let out = detect_and_transform(
        "a@b.com wrote to a@b.com and x@y.zz",
        &ids(&["EMAIL"]),
        PrivacyPolicy::Hash,
    )
    .unwrap();
    assert_eq!(out.map.len(), 3);
    assert_eq!(out.map[1].1, "a@b.com");
    assert_eq!(out.map[2].1, "a@b.com");
    assert_eq!(out.map[1].2, "fb98d44a");
    assert_eq!(out.map[1].2, out.map[2].2);
    assert_ne!(out.map[0].2, out.map[1].2);
    for record in &out.map {
        assert_eq!(record.2.len(), 8);
        assert!(record.2.chars().all(|c| c.is_ascii_digit() || ('a'..='f').contains(&c)));
    }
    assert_eq!(out.redacted, format!("fb98d44a wrote to fb98d44a and {}", out.map[0].2));
}

#[test]
fn all_kinds_in_one_text() {
    let text = "Contact John Doe at john.doe@example.com or call 555-123-4567. \nHis SSN is 123-45-6789 and credit card 4111-1111-1111-1111.\nJane Smith can be reached at jane.smith@company.org or (800) 555-1212.";
    let fields = ids(&["EMAIL", "PHONE", "SSN", "CREDIT_CARD"]);
    let out = detect_and_transform(text, &fields, PrivacyPolicy::Anonymize).unwrap();
    assert_eq!(
        out.redacted,
        "Contact John Doe at <EMAIL_2> or call <PHONE_2>. \nHis SSN is <SSN_1> and credit card <CREDIT_CARD_1>.\nJane Smith can be reached at <EMAIL_1> or (<PHONE_1>."
    );
    assert_eq!(out.map.len(), 6);
    assert_eq!(out.map[0], triple("PHONE", "800) 555-1212", "<PHONE_1>"));
    assert_eq!(out.map[5], triple("EMAIL", "john.doe@example.com", "<EMAIL_2>"));
}

#[test]
fn registry_finds_spans_left_to_right() {
    let registry = PatternRegistry::new().unwrap();
    let spans = registry.find(PiiField::Ssn, "SSN 123-45-6789 and 987-65-4321");
    assert_eq!(
        spans,
        vec![
            Span { kind: PiiField::Ssn, start: 4, end: 15 },
            Span { kind: PiiField::Ssn, start: 20, end: 31 },
        ]
    );
    assert!(registry.find(PiiField::Email, "SSN 123-45-6789").is_empty());
}

#[test]
fn registry_collects_in_the_order_of_the_fields() {
    let registry = PatternRegistry::new().unwrap();
    let text = "a@b.com 123-45-6789 c@d.org";
    let spans = registry.collect_spans(text, &ids(&["ssn", "nope", "EMAIL"]));
    assert_eq!(
        spans,
        vec![
            Span { kind: PiiField::Ssn, start: 8, end: 19 },
            Span { kind: PiiField::Email, start: 0, end: 7 },
            Span { kind: PiiField::Email, start: 20, end: 27 },
        ]
    );
}

#[test]
fn registry_serves_many_calls() {
    let registry = PatternRegistry::new().unwrap();
    let a = registry
        .detect_and_transform("a@b.com", &ids(&["EMAIL"]), PrivacyPolicy::Hash)
        .unwrap();
    let b = registry
        .detect_and_transform("x a@b.com", &ids(&["EMAIL"]), PrivacyPolicy::Hash)
        .unwrap();
    assert_eq!(a.redacted, "fb98d44a");
    assert_eq!(b.redacted, "x fb98d44a");
}

#[test]
fn spans_are_ordered_by_descending_start_and_stay_stable() {
    let s = |kind, start, end| Span { kind, start, end };
    let ordered = order_spans(vec![
        s(PiiField::Email, 3, 5),
        s(PiiField::Phone, 9, 12),
        s(PiiField::Ssn, 3, 4),
        s(PiiField::CreditCard, 0, 2),
        s(PiiField::Phone, 9, 10),
    ]);
    assert_eq!(
        ordered,
        vec![
            s(PiiField::Phone, 9, 12),
            s(PiiField::Phone, 9, 10),
            s(PiiField::Email, 3, 5),
            s(PiiField::Ssn, 3, 4),
            s(PiiField::CreditCard, 0, 2),
        ]
    );
    assert!(order_spans(Vec::new()).is_empty());
}

#[test]
fn apply_spans_replaces_in_the_given_order() {
    let spans = [
        Span { kind: PiiField::Phone, start: 6, end: 9 },
        Span { kind: PiiField::Email, start: 0, end: 3 },
    ];
    let out = apply_spans("abc & def", &spans, PrivacyPolicy::Anonymize).unwrap();
    assert_eq!(out.redacted, "<EMAIL_1> & <PHONE_1>");
    assert_eq!(
        out.map,
        vec![triple("PHONE", "def", "<PHONE_1>"), triple("EMAIL", "abc", "<EMAIL_1>")]
    );
    let out = apply_spans("abc & def", &spans, PrivacyPolicy::Redact).unwrap();
    assert_eq!(out.redacted, "\u{2588}\u{2588}\u{2588} & \u{2588}\u{2588}\u{2588}");
    let out = apply_spans("abc & def", &spans, PrivacyPolicy::Hash).unwrap();
    assert_eq!(out.redacted, "ba7816bf & cb8379ac");
}

#[test]
fn apply_spans_takes_an_empty_span() {
    let spans = [Span { kind: PiiField::Ssn, start: 2, end: 2 }];
    let out = apply_spans("abcd", &spans, PrivacyPolicy::Anonymize).unwrap();
    assert_eq!(out.redacted, "ab<SSN_1>cd");
    assert_eq!(out.map, vec![triple("SSN", "", "<SSN_1>")]);
    let out = apply_spans("abcd", &spans, PrivacyPolicy::Redact).unwrap();
    assert_eq!(out.redacted, "abcd");
    assert_eq!(out.map, vec![triple("SSN", "", "")]);
    let out = apply_spans("abcd", &spans, PrivacyPolicy::Hash).unwrap();
    assert_eq!(out.redacted, "abe3b0c442cd");
}

#[test]
fn apply_spans_reads_the_working_text() {
    let spans = [
        Span { kind: PiiField::Email, start: 2, end: 4 },
        Span { kind: PiiField::Phone, start: 2, end: 4 },
    ];
    let out = apply_spans("abcdef", &spans, PrivacyPolicy::Anonymize).unwrap();
    assert_eq!(
        out.map,
        vec![triple("EMAIL", "cd", "<EMAIL_1>"), triple("PHONE", "<E", "<PHONE_1>")]
    );
    assert_eq!(out.redacted, "ab<PHONE_1>MAIL_1>ef");
}

fn reason_of(r: Result<pii_processor::PiiResponse, PiiError>) -> String {
    match r {
        Err(PiiError::ProcessingError(reason)) => reason,
        other => panic!("expected a processing error, got {:?}", other),
    }
}

#[test]
fn span_past_the_end_is_a_processing_error() {
    let spans = [Span { kind: PiiField::Email, start: 2, end: 7 }];
    let reason = reason_of(apply_spans("abcdef", &spans, PrivacyPolicy::Redact));
    assert_eq!(reason, "a span does not fit the working text");
}

#[test]
fn span_with_end_before_start_is_a_processing_error() {
    let spans = [Span { kind: PiiField::Email, start: 4, end: 2 }];
    reason_of(apply_spans("abcdef", &spans, PrivacyPolicy::Hash));
}

#[test]
fn span_inside_a_character_is_a_processing_error() {
    let inside_start = [Span { kind: PiiField::Email, start: 1, end: 3 }];
    reason_of(apply_spans("\u{2588}ab", &inside_start, PrivacyPolicy::Anonymize));
    let inside_end = [Span { kind: PiiField::Email, start: 0, end: 2 }];
    reason_of(apply_spans("\u{2588}ab", &inside_end, PrivacyPolicy::Anonymize));
    let whole = [Span { kind: PiiField::Email, start: 0, end: 3 }];
    let out = apply_spans("\u{2588}ab", &whole, PrivacyPolicy::Anonymize).unwrap();
    assert_eq!(out.redacted, "<EMAIL_1>ab");
}

#[test]
fn later_span_that_no_longer_fits_is_a_processing_error() {
    let spans = [
        Span { kind: PiiField::Email, start: 0, end: 6 },
        Span { kind: PiiField::Email, start: 0, end: 5 },
    ];
    reason_of(apply_spans("abcdef", &spans, PrivacyPolicy::Redact));
}

#[test]
fn same_kind_twice_redacted_fails_on_the_second_pass() {
    let r = detect_and_transform("a@b.com", &ids(&["EMAIL", "EMAIL"]), PrivacyPolicy::Redact);
    reason_of(r);
}

#[test]
fn same_kind_twice_anonymized_reads_the_placeholder() {
    let out = detect_and_transform("a@b.com", &ids(&["EMAIL", "EMAIL"]), PrivacyPolicy::Anonymize)
        .unwrap();
    assert_eq!(
        out.map,
        vec![triple("EMAIL", "a@b.com", "<EMAIL_1>"), triple("EMAIL", "<EMAIL_", "<EMAIL_2>")]
    );
    assert_eq!(out.redacted, "<EMAIL_2>1>");
}

#[test]
fn kinds_resolve_from_their_identifiers() {
    assert_eq!(PiiField::try_from_str("EMAIL").unwrap(), PiiField::Email);
    assert_eq!(PiiField::try_from_str("phone").unwrap(), PiiField::Phone);
    assert_eq!(PiiField::try_from_str("Ssn").unwrap(), PiiField::Ssn);
    assert_eq!(PiiField::try_from_str("credit_card").unwrap(), PiiField::CreditCard);
    assert_eq!(PiiField::from_canonical("SSN"), Some(PiiField::Ssn));
    assert_eq!(PiiField::from_canonical("ssn"), None);
    assert_eq!(PiiField::from_canonical(""), None);
    for kind in [PiiField::Email, PiiField::Phone, PiiField::Ssn, PiiField::CreditCard] {
        assert_eq!(PiiField::from_canonical(kind.as_str()), Some(kind));
    }
    assert_eq!(PiiField::CreditCard.as_str(), "CREDIT_CARD");
}

#[test]
fn unknown_identifier_comes_back_in_the_error() {
    match PiiField::try_from_str("Bogus") {
        Err(PiiError::InvalidFieldType(given)) => assert_eq!(given, "Bogus"),
        other => panic!("expected an invalid field type, got {:?}", other),
    }
    assert!(PiiField::try_from_str("").is_err());
    assert!(PiiField::try_from_str("CREDIT CARD").is_err());
    assert!(PiiField::try_from_str("EMAIL ").is_err());
}

#[test]
fn errors_have_messages() {
    assert_eq!(
        PiiError::InvalidFieldType("Bogus".to_string()).to_message(),
        "Invalid PII field type: Bogus"
    );
    assert_eq!(
        PiiError::ProcessingError("boom".to_string()).to_message(),
        "Processing error: boom"
    );
}

#[test]
fn requests_are_answered() {
    let request = PiiRequest {
        text: "mail a@b.com".to_string(),
        fields: ids(&["EMAIL"]),
        priv_policy: PrivacyPolicy::Anonymize,
    };
    let response = process_pii(&request);
    assert_eq!(response.redacted, "mail <EMAIL_1>");
    assert_eq!(response.map, vec![triple("EMAIL", "a@b.com", "<EMAIL_1>")]);
    let registry = PatternRegistry::new().unwrap();
    let response = registry.respond(&request);
    assert_eq!(response.redacted, "mail <EMAIL_1>");
}

#[test]
fn failed_requests_get_the_fixed_answer() {
    let request = PiiRequest {
        text: "a@b.com".to_string(),
        fields: ids(&["EMAIL", "EMAIL"]),
        priv_policy: PrivacyPolicy::Redact,
    };
    let response = process_pii(&request);
    assert_eq!(
        response.redacted,
        "Error processing PII request. Please check your input and try again."
    );
    assert!(response.map.is_empty());
}

#[test]
fn greeting() {
    assert_eq!(root(), "Hello from PII Processor!");
}

#[test]
fn two_card_numbers_get_two_tags() {
    let fields = ids(&["CREDIT_CARD"]);
    for _ in 0..3 {
        let first =
            detect_and_transform("card 4111-1111-1111-1111", &fields, PrivacyPolicy::Hash).unwrap();
        let second =
            detect_and_transform("card 5500-0000-0000-0004", &fields, PrivacyPolicy::Hash).unwrap();
        assert_eq!(first.map[0].2, "b3f846b2");
        assert_eq!(second.map[0].2, "3ca8b150");
        assert_ne!(first.map[0].2, second.map[0].2);
    }
}

#[test]
fn request_with_lower_case_and_unknown_fields() {
    let request = PiiRequest {
        text: "SSN 123-45-6789 and 987-65-4321".to_string(),
        fields: ids(&["ssn", "nope"]),
        priv_policy: PrivacyPolicy::Anonymize,
    };
    let response = process_pii(&request);
    assert_eq!(response.redacted, "SSN <SSN_2> and <SSN_1>");
    assert_eq!(
        response.map,
        vec![triple("SSN", "987-65-4321", "<SSN_1>"), triple("SSN", "123-45-6789", "<SSN_2>")]
    );
}

#[test]
fn response_is_the_result_of_the_rewriting() {
    let text = "mail a@b.com or c@d.org, call 555-123-4567";
    let fields = ids(&["PHONE", "EMAIL"]);
    for policy in [PrivacyPolicy::Redact, PrivacyPolicy::Anonymize, PrivacyPolicy::Hash] {
        let direct = detect_and_transform(text, &fields, policy).unwrap();
        let request =
            PiiRequest { text: text.to_string(), fields: fields.clone(), priv_policy: policy };
        let response = process_pii(&request);
        assert_eq!(response.redacted, direct.redacted);
        assert_eq!(response.map, direct.map);
        assert_eq!(response.map.len(), 3);
    }
}

#[test]
fn text_without_fields_always_comes_back() {
    let out = detect_and_transform("abc", &[], PrivacyPolicy::Anonymize).unwrap();
    assert_eq!(out.redacted, "abc");
    assert!(out.map.is_empty());
    let request =
        PiiRequest { text: "abc".to_string(), fields: Vec::new(), priv_policy: PrivacyPolicy::Hash };
    assert_eq!(process_pii(&request).redacted, "abc");
    assert!(PatternRegistry::new().is_ok());
}

#[test]
fn matches_of_a_kind_come_left_to_right() {
    let registry = PatternRegistry::new().unwrap();
    let text = "a@b.com, c@d.org; 123-45-6789 e@f.net 5551234567 g@h.io";
    for kind in [PiiField::Email, PiiField::Phone, PiiField::Ssn, PiiField::CreditCard] {
        let spans = registry.find(kind, text);
        for pair in spans.windows(2) {
            assert!(pair[0].end <= pair[1].start);
        }
        for span in &spans {
            assert!(span.start < span.end && span.end <= text.len());
        }
    }
    assert_eq!(registry.find(PiiField::Email, text).len(), 4);
}
