use dns_lib::character_string::CharacterString;
use dns_lib::domain_name::{CDomainName, WireError};
use dns_lib::rdata::TokenizedRecordError;
use dns_lib::records::{MB, MD, MF, MR, MX, TXT};

const GOOD_DOMAIN: &str = "www.example.com.";
const BAD_DOMAIN: &str = "..www.example.com.";
const GOOD_STRING: &str = "This is a string with some characters";

fn name(s: &str) -> CDomainName {
    CDomainName::from_utf8(s).unwrap()
}

fn text(s: &str) -> CharacterString {
    CharacterString::from_utf8(s).unwrap()
}

#[test]
fn domain_name_wire_form() {
    let mut out = Vec::new();
    name(GOOD_DOMAIN).to_wire(&mut out);
    assert_eq!(out, b"\x03www\x07example\x03com\x00".to_vec());
    let mut root = Vec::new();
    name(".").to_wire(&mut root);
    assert_eq!(root, vec![0u8]);
}

#[test]
fn domain_name_text_errors() {
    assert!(CDomainName::from_utf8(BAD_DOMAIN).is_err());
    assert!(CDomainName::from_utf8("").is_err());
    assert!(CDomainName::from_utf8("a..b").is_err());
    let long_label = "a".repeat(64);
    assert!(CDomainName::from_utf8(&long_label).is_err());
    assert!(CDomainName::from_utf8(&"a".repeat(63)).is_ok());
    let long_name = vec!["abcdefghi"; 26].join(".");
    assert!(CDomainName::from_utf8(&long_name).is_err());
}

#[test]
fn record_circular_serde_sanity_test() {
    let mb = MB::new(name(GOOD_DOMAIN));
    assert_eq!(MB::from_wire(&mb.to_wire()), Ok(mb));
    let md = MD::new(name(GOOD_DOMAIN));
    assert_eq!(MD::from_wire(&md.to_wire()), Ok(md));
    let mf = MF::new(name(GOOD_DOMAIN));
    assert_eq!(MF::from_wire(&mf.to_wire()), Ok(mf));
    let mr = MR::new(name(GOOD_DOMAIN));
    assert_eq!(MR::from_wire(&mr.to_wire()), Ok(mr));
}

#[test]
fn mx_circular_serde_sanity_test() {
    let mx = MX::new(10, name("mail.example.com."));
    let wire = mx.to_wire();
    assert_eq!(&wire[..2], &[0u8, 10u8]);
    assert_eq!(MX::from_wire(&wire), Ok(mx));
    let big = MX::new(0x1234, name("mail.example.com."));
    assert_eq!(&big.to_wire()[..2], &[0x12u8, 0x34u8]);
}

#[test]
fn record_single_string_circular_serde_sanity_test() {
    let txt = TXT::new(vec![text("This string is all alone.")]);
    assert_eq!(TXT::from_wire(&txt.to_wire()), Ok(txt));
}

#[test]
fn record_two_string_circular_serde_sanity_test() {
    let txt = TXT::new(vec![
        text("This is a pretty cool string."),
        text("This string isn't as cool."),
    ]);
    let wire = txt.to_wire();
    assert_eq!(wire[0] as usize, "This is a pretty cool string.".len());
    assert_eq!(TXT::from_wire(&wire), Ok(txt));
}

#[test]
fn wire_errors() {
    assert_eq!(MB::from_wire(&[]), Err(WireError::Truncated));
    assert_eq!(MB::from_wire(&[3, b'w', b'w']), Err(WireError::Truncated));
    assert_eq!(MB::from_wire(&[64]), Err(WireError::Malformed));
    assert_eq!(MB::from_wire(&[0, 0]), Err(WireError::TrailingBytes));
    assert_eq!(MX::from_wire(&[0]), Err(WireError::Truncated));
    assert_eq!(TXT::from_wire(&[5, b'a']), Err(WireError::Truncated));
    assert_eq!(TXT::from_wire(&[]).map(|t| t.strings().len()), Ok(0));
}

#[test]
fn test_ok() {
    assert_eq!(MB::from_tokenized_rdata(&[GOOD_DOMAIN]), Ok(MB::new(name(GOOD_DOMAIN))));
    assert_eq!(MD::from_tokenized_rdata(&[GOOD_DOMAIN]), Ok(MD::new(name(GOOD_DOMAIN))));
    assert_eq!(MF::from_tokenized_rdata(&[GOOD_DOMAIN]), Ok(MF::new(name(GOOD_DOMAIN))));
    assert_eq!(MR::from_tokenized_rdata(&[GOOD_DOMAIN]), Ok(MR::new(name(GOOD_DOMAIN))));
}

#[test]
fn test_fail_bad_domain() {
    assert_eq!(
        MD::from_tokenized_rdata(&[BAD_DOMAIN]),
        Err(TokenizedRecordError::InvalidDomainName(BAD_DOMAIN))
    );
}

#[test]
fn test_fail_two_tokens() {
    let two = [GOOD_DOMAIN, GOOD_DOMAIN];
    assert_eq!(MB::from_tokenized_rdata(&two), Err(TokenizedRecordError::TooManyRDataTokensError(1, 2)));
    assert!(MD::from_tokenized_rdata(&two).is_err());
    assert!(MF::from_tokenized_rdata(&two).is_err());
    assert!(MR::from_tokenized_rdata(&two).is_err());
}

#[test]
fn test_fail_no_tokens() {
    let none: [&str; 0] = [];
    assert_eq!(MB::from_tokenized_rdata(&none), Err(TokenizedRecordError::TooFewRDataTokensError(1, 0)));
    assert!(MD::from_tokenized_rdata(&none).is_err());
    assert!(MF::from_tokenized_rdata(&none).is_err());
    assert!(MR::from_tokenized_rdata(&none).is_err());
    assert_eq!(TXT::from_tokenized_record(&none), Err(TokenizedRecordError::TooFewRDataTokensError(1, 0)));
}

#[test]
fn mx_from_tokens() {
    let mx = MX::from_tokenized_rdata(&["10", "mail.example.com."]).unwrap();
    assert_eq!(mx.preference(), 10);
    assert_eq!(mx.exchange(), &name("mail.example.com."));
    assert_eq!(MX::from_tokenized_rdata(&["65535", "a."]).map(|m| m.preference()), Ok(65535));
    assert_eq!(
        MX::from_tokenized_rdata(&["65536", "a."]),
        Err(TokenizedRecordError::InvalidInteger("65536"))
    );
    assert_eq!(MX::from_tokenized_rdata(&["1x", "a."]), Err(TokenizedRecordError::InvalidInteger("1x")));
    assert_eq!(MX::from_tokenized_rdata(&["10"]), Err(TokenizedRecordError::TooFewRDataTokensError(2, 1)));
    assert_eq!(
        MX::from_tokenized_rdata(&["10", "a.", "b."]),
        Err(TokenizedRecordError::TooManyRDataTokensError(2, 3))
    );
    assert_eq!(
        MX::from_tokenized_rdata(&["10", BAD_DOMAIN]),
        Err(TokenizedRecordError::InvalidDomainName(BAD_DOMAIN))
    );
}

fn txt_of(n: usize) -> TXT {
    TXT::new((0..n).map(|_| text(GOOD_STRING)).collect())
}

#[test]
fn test_ok_one_string() {
    assert_eq!(TXT::from_tokenized_record(&[GOOD_STRING]), Ok(txt_of(1)));
}

#[test]
fn test_ok_two_string() {
    assert_eq!(TXT::from_tokenized_record(&[GOOD_STRING; 2]), Ok(txt_of(2)));
}

#[test]
fn test_ok_three_string() {
    assert_eq!(TXT::from_tokenized_record(&[GOOD_STRING; 3]), Ok(txt_of(3)));
}

#[test]
fn test_ok_four_string() {
    assert_eq!(TXT::from_tokenized_record(&[GOOD_STRING; 4]), Ok(txt_of(4)));
}

#[test]
fn test_ok_five_string() {
    assert_eq!(TXT::from_tokenized_record(&[GOOD_STRING; 5]), Ok(txt_of(5)));
}

#[test]
fn txt_tokens_keep_order() {
    let txt = TXT::from_tokenized_record(&["first", "second", ""]).unwrap();
    let got: Vec<&[u8]> = txt.strings().iter().map(|s| s.as_bytes()).collect();
    assert_eq!(got, vec![&b"first"[..], &b"second"[..], &b""[..]]);
}

#[test]
fn txt_token_too_long() {
    let long = "x".repeat(256);
    assert_eq!(
        TXT::from_tokenized_record(&["ok", long.as_str()]),
        Err(TokenizedRecordError::InvalidCharacterString(long.as_str()))
    );
    let max = "x".repeat(255);
    assert_eq!(text(&max).len(), 255);
}

#[test]
fn entry_rdata_feeds_record() {
    let mut it = dns_lib::entry::EntryIter::new("mx.example.com. IN MX 5 mail.example.com.");
    match it.next() {
        Some(Ok(dns_lib::entry::Entry::ResourceRecord { rtype, rdata, .. })) => {
            assert_eq!(rtype, "MX");
            let mx = MX::from_tokenized_rdata(&rdata).unwrap();
            assert_eq!(mx, MX::new(5, name("mail.example.com.")));
        }
        other => panic!("unexpected {:?}", other),
    }
    assert!(it.next().is_none());
}

#[test]
fn md_presentation_round_trip() {
    let md = MD::new(name(GOOD_DOMAIN));
    let text = md.to_presentation().unwrap();
    assert_eq!(text, GOOD_DOMAIN);
    assert_eq!(MD::from_tokenized_rdata(&[text.as_str()]), Ok(md));
    let relative = MD::new(name("mail"));
    assert_eq!(relative.to_presentation().unwrap(), "mail.");
    let root = MD::new(name("."));
    assert_eq!(root.to_presentation().unwrap(), ".");
    assert_eq!(MD::from_tokenized_rdata(&["."]), Ok(root));
}

#[test]
fn non_utf8_name_has_no_text() {
    let odd = MD::from_wire(&[1, 0xff, 0]).unwrap();
    assert_eq!(odd.to_presentation(), None);
    assert_eq!(odd.mail_agent_domain_name().to_text_bytes(), vec![0xffu8, b'.']);
}

#[test]
fn clones_keep_values() {
    let txt = TXT::new(vec![text("one"), text("two")]);
    assert_eq!(txt.clone(), txt);
    let mx = MX::new(7, name("mail.example.com."));
    assert_eq!(mx.clone(), mx);
    assert_eq!(name(GOOD_DOMAIN).clone(), name(GOOD_DOMAIN));
}
