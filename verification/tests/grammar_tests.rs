use tikh_email_parser::scan::Expected;
use tikh_email_parser::EmailAddress;
use tikh_email_parser::EmailParseError;

/// A quoted local-part may contain an `@`; the extracted value keeps
/// the quotes and the `@` verbatim.
#[test]
fn quoted_local_with_at_sign() {
    let email = EmailAddress::parse("\"user@name\"@example.com").unwrap();
    assert_eq!(email.local, "\"user@name\"");
    assert_eq!(email.domain_part, "example.com");
}

/// Comments and whitespace on both sides are stripped from the
/// extracted values.
#[test]
fn surrounding_comments_stripped() {
    let email = EmailAddress::parse("(comment) user@example.com (comment)").unwrap();
    assert_eq!(email.local, "user");
    assert_eq!(email.domain_part, "example.com");
}

/// A comment directly between the local-part and the `@` is tolerated
/// and excluded from the extracted local value, while whitespace and
/// comments between domain labels stay inside the domain value.
#[test]
fn comment_outside_spans_whitespace_inside_domain() {
    let email = EmailAddress::parse("user(note)@ example . com").unwrap();
    assert_eq!(email.local, "user");
    assert_eq!(email.domain_part, "example . com");
}

/// A comment between two domain labels survives inside the extracted
/// domain, `@` inside that comment included.
#[test]
fn domain_interior_comment_kept() {
    let email = EmailAddress::parse("user@exa(m@ple).com").unwrap();
    assert_eq!(email.local, "user");
    assert_eq!(email.domain_part, "exa(m@ple).com");
}

/// An empty quoted string is a valid, non-empty local-part value.
#[test]
fn empty_quoted_string_local() {
    let email = EmailAddress::parse("\"\"@example.com").unwrap();
    assert_eq!(email.local, "\"\"");
    assert_eq!(email.domain_part, "example.com");
}

/// Backslash escapes are not decoded: the backslash stays in the value.
#[test]
fn escapes_not_decoded() {
    let email = EmailAddress::parse("\"a\\\\b\"@example.com").unwrap();
    assert_eq!(email.local, "\"a\\\\b\"");
}

/// A trailing CRLF as the last material of the line is tolerated.
#[test]
fn trailing_crlf_tolerated() {
    let email = EmailAddress::parse("user@example.com\r\n").unwrap();
    assert_eq!(email.local, "user");
    assert_eq!(email.domain_part, "example.com");
}

/// A bare CR that is not part of a trailing CRLF is a mismatch.
#[test]
fn bare_cr_rejected() {
    assert!(EmailAddress::parse("user@example.com\r").is_err());
}

/// The empty input fails with a mismatch at offset zero, where a
/// local-part was expected.
#[test]
fn empty_input_rejected() {
    let err = EmailAddress::parse("").unwrap_err();
    assert_eq!(err, EmailParseError::GrammarMismatch { pos: 0, expected: Expected::LocalPart });
}

/// Input that is only comments fails even without any whitespace.
#[test]
fn comment_only_rejected() {
    assert!(EmailAddress::parse("(only a comment)").is_err());
    assert!(EmailAddress::parse(" (a) (b) ").is_err());
}

/// A leading dot, a trailing dot, and a doubled dot are rejected in the
/// local-part and in the domain.
#[test]
fn empty_labels_rejected() {
    assert!(EmailAddress::parse(".user@example.com").is_err());
    assert!(EmailAddress::parse("user.@example.com").is_err());
    assert!(EmailAddress::parse("user@.example.com").is_err());
    assert!(EmailAddress::parse("user@example.com.").is_err());
    assert!(EmailAddress::parse("user@example..com").is_err());
}

/// A second bare `@` outside a quoted string is a failure, wherever it
/// stands.
#[test]
fn second_at_sign_rejected() {
    assert!(EmailAddress::parse("a@b@c.com").is_err());
    assert!(EmailAddress::parse("a@b.com@").is_err());
    assert!(EmailAddress::parse("a@@b.com").is_err());
}

/// A missing `@` is reported at the position where it was expected.
#[test]
fn missing_at_sign_position() {
    let err = EmailAddress::parse("user").unwrap_err();
    assert_eq!(err, EmailParseError::GrammarMismatch { pos: 4, expected: Expected::AtSign });
}

/// An unclosed comment is reported as a mismatch inside the comment.
#[test]
fn unclosed_comment_rejected() {
    assert!(EmailAddress::parse("(oops user@example.com").is_err());
}

/// Non-ASCII input is an ordinary mismatch, not a crash.
#[test]
fn non_ascii_rejected() {
    assert!(EmailAddress::parse("us\u{e9}r@example.com").is_err());
    assert!(EmailAddress::parse("user@ex\u{430}mple.com").is_err());
}

/// Comments may nest up to the configured cap.
#[test]
fn nested_comment_within_limit() {
    let email = EmailAddress::parse("(a(b(c deep)))user@example.com").unwrap();
    assert_eq!(email.local, "user");
    assert_eq!(email.domain_part, "example.com");
}

/// Nesting one comment past the cap fails with the dedicated depth
/// error at the first parenthesis beyond it.
#[test]
fn nesting_past_limit_reports_depth() {
    let mut s = String::new();
    for _ in 0..300 {
        s.push('(');
    }
    s.push_str("x");
    let err = EmailAddress::parse(&s).unwrap_err();
    assert_eq!(err, EmailParseError::RecursionLimitExceeded { pos: 256 });
}

/// Arbitrarily large synthetic nesting still fails cleanly with the
/// depth error instead of exhausting the stack.
#[test]
fn huge_nesting_fails_cleanly() {
    let mut s = String::new();
    for _ in 0..5000 {
        s.push('(');
    }
    let err = EmailAddress::parse(&s).unwrap_err();
    assert_eq!(err, EmailParseError::RecursionLimitExceeded { pos: 256 });
}

/// Re-parsing `local + "@" + domain` from a successful parse yields the
/// same two values (round trip on the canonical form).
#[test]
fn round_trip_canonical_form() {
    let inputs = [
        "(c) user @ example . com",
        "user@example.com",
        "\"user@name\"@example.com",
        "user(note)@exa(m@ple).com (tail)",
    ];
    for input in inputs {
        let first = EmailAddress::parse(input).unwrap();
        let canonical = format!("{}@{}", first.local, first.domain_part);
        let second = EmailAddress::parse(&canonical).unwrap();
        assert_eq!(second.local, first.local);
        assert_eq!(second.domain_part, first.domain_part);
    }
}

/// The rendered message names the production and the offset.
#[test]
fn message_names_offset() {
    let err = EmailAddress::parse("user").unwrap_err();
    assert_eq!(err.message(), "Parsing error: expected the separator '@' at offset 4");
    let err = EmailAddress::parse("").unwrap_err();
    assert_eq!(err.message(), "Parsing error: expected a local-part at offset 0");
    let err = EmailParseError::RecursionLimitExceeded { pos: 107 };
    assert_eq!(
        err.message(),
        "Parsing error: comment nesting exceeds the depth limit at offset 107"
    );
}
