use dns_lib::classify::{is_class, is_ttl, is_type};
use dns_lib::entry::{Entry, EntryIter, TokenizerError};

fn all_entries(feed: &str) -> Vec<Result<Entry<'_>, TokenizerError<'_>>> {
    let mut it = EntryIter::new(feed);
    let mut out = Vec::new();
    while let Some(e) = it.next() {
        out.push(e);
    }
    out
}

fn mx_record<'a>(
    domain_name: Option<&'a str>,
    ttl: Option<&'a str>,
    rclass: Option<&'a str>,
) -> Entry<'a> {
    Entry::ResourceRecord {
        domain_name,
        ttl,
        rclass,
        rtype: "MX",
        rdata: vec!["10", "mail.example.com."],
    }
}

#[test]
fn tail_type_only() {
    let got = all_entries("www.example.com. MX 10 mail.example.com.");
    assert_eq!(got, vec![Ok(mx_record(Some("www.example.com."), None, None))]);
}

#[test]
fn tail_ttl_then_class() {
    let got = all_entries("www.example.com. 3600 IN MX 10 mail.example.com.");
    assert_eq!(got, vec![Ok(mx_record(Some("www.example.com."), Some("3600"), Some("IN")))]);
}

#[test]
fn tail_class_then_ttl() {
    let got = all_entries("www.example.com. IN 3600 MX 10 mail.example.com.");
    assert_eq!(got, vec![Ok(mx_record(Some("www.example.com."), Some("3600"), Some("IN")))]);
}

#[test]
fn tail_class_only() {
    let got = all_entries("www.example.com. in MX 10 mail.example.com.");
    assert_eq!(got, vec![Ok(mx_record(Some("www.example.com."), None, Some("in")))]);
}

#[test]
fn tail_ttl_only_with_units() {
    let got = all_entries("www.example.com. 1h30m MX 10 mail.example.com.");
    assert_eq!(got, vec![Ok(mx_record(Some("www.example.com."), Some("1h30m"), None))]);
}

#[test]
fn leading_blank_means_no_owner() {
    let got = all_entries("   3600 IN MX 10 mail.example.com.");
    assert_eq!(got, vec![Ok(mx_record(None, Some("3600"), Some("IN")))]);
}

#[test]
fn blank_and_comment_lines_give_nothing() {
    assert!(all_entries("").is_empty());
    assert!(all_entries("\n\n   \n\t; a comment\n; another\n").is_empty());
}

#[test]
fn blank_lines_between_entries_are_skipped() {
    let got = all_entries("\n; head\nwww.example.com. MX 10 mail.example.com. ; trailing\n\n");
    assert_eq!(got, vec![Ok(mx_record(Some("www.example.com."), None, None))]);
}

#[test]
fn origin_line() {
    let got = all_entries("$ORIGIN example.com.");
    assert_eq!(got, vec![Ok(Entry::Origin { origin: "example.com." })]);
}

#[test]
fn include_line_with_domain() {
    let got = all_entries("$INCLUDE zone.db sub.example.com.");
    assert_eq!(
        got,
        vec![Ok(Entry::Include { file_name: "zone.db", domain_name: Some("sub.example.com.") })]
    );
}

#[test]
fn keywords_ignore_case() {
    assert_eq!(all_entries("$origin example.com."), vec![Ok(Entry::Origin { origin: "example.com." })]);
    assert_eq!(
        all_entries("$Include zone.db"),
        vec![Ok(Entry::Include { file_name: "zone.db", domain_name: None })]
    );
}

#[test]
fn include_line_without_domain() {
    let got = all_entries("$INCLUDE zone.db");
    assert_eq!(got, vec![Ok(Entry::Include { file_name: "zone.db", domain_name: None })]);
}

#[test]
fn origin_with_wrong_arity_is_read_as_a_record() {
    let got = all_entries("$ORIGIN a. b.");
    assert_eq!(got, vec![Err(TokenizerError::TwoUnknownTokens("a.", "b."))]);
}

#[test]
fn error_then_entry() {
    let got = all_entries("bad.example.com. foo.\nwww.example.com. MX 10 mail.example.com.");
    assert_eq!(got.len(), 2);
    assert!(got[0].is_err());
    assert_eq!(got[1], Ok(mx_record(Some("www.example.com."), None, None)));
}

#[test]
fn unknown_tokens_when_tail_is_short() {
    assert_eq!(all_entries("www.example.com. MX"), vec![Err(TokenizerError::UnknownTokens)]);
    assert_eq!(all_entries("www.example.com."), vec![Err(TokenizerError::UnknownTokens)]);
}

#[test]
fn two_unknown_tokens() {
    assert_eq!(
        all_entries("www.example.com. 10 20"),
        vec![Err(TokenizerError::TwoUnknownTokens("10", "20"))]
    );
    assert_eq!(
        all_entries("www.example.com. IN IN MX x"),
        vec![Err(TokenizerError::TwoUnknownTokens("IN", "IN"))]
    );
}

#[test]
fn unknown_token_before_type() {
    assert_eq!(
        all_entries("www.example.com. 3x MX 10 mail.example.com."),
        vec![Err(TokenizerError::UnknownToken("3x"))]
    );
}

#[test]
fn unknown_third_token() {
    assert_eq!(
        all_entries("www.example.com. 10 20 30"),
        vec![Err(TokenizerError::TwoUnknownTokens("10", "20"))]
    );
}

#[test]
fn quoted_rdata_is_one_token() {
    let got = all_entries("txt.example.com. TXT \"hello world\" \"x;y\"");
    assert_eq!(
        got,
        vec![Ok(Entry::ResourceRecord {
            domain_name: Some("txt.example.com."),
            ttl: None,
            rclass: None,
            rtype: "TXT",
            rdata: vec!["hello world", "x;y"],
        })]
    );
}

#[test]
fn class_beats_type() {
    assert!(is_class("IN"));
    assert!(is_type("IN"));
    assert!(is_class("class255"));
    assert!(!is_class("CLASS"));
    assert!(!is_type("10"));
    assert!(is_type("TYPE65"));
    assert!(is_ttl("3600"));
    assert!(is_ttl("1w2d"));
    assert!(!is_ttl("1hh"));
    assert!(!is_ttl("h1"));
}

#[test]
fn text_of_entries() {
    let e = mx_record(Some("www.example.com."), Some("3600"), None);
    assert_eq!(
        e.to_text(),
        "Resource Record\n\tDomain Name: www.example.com.\n\tTTL: 3600\n\tType: MX\n\tRData: 10\n\tRData: mail.example.com.\n"
    );
    let o = Entry::Origin { origin: "example.com." };
    assert_eq!(o.to_text(), "ORIGIN\n\tDomain Name: example.com.\n");
    let i = Entry::Include { file_name: "zone.db", domain_name: None };
    assert_eq!(i.to_text(), "INCLUDE\n\tFile Name: zone.db\n");
}
