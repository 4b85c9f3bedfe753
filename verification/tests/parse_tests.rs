use sigrs::identity::{IdentityPerf, StoreError};
use sigrs::parse::process_las;
use sigrs::store::LocalAuthorStoragePerf;

fn b(s: &str) -> Vec<u8> {
    s.as_bytes().to_vec()
}

fn identity(usernames: &[&str], emails: &[&str]) -> IdentityPerf {
    let mut id = IdentityPerf::new();
    for u in usernames {
        id.add_username(b(u));
    }
    for e in emails {
        id.add_email(b(e));
    }
    id
}

#[test]
fn parse_single_record() {
    let las = process_las(b"K:\"a\"\nU:\"alice\" \"al\"\nE:\"a@x.com\"\n").unwrap();
    let got = las.lookup_id(b("a").as_slice()).unwrap();
    assert_eq!(got.usernames, vec![b("alice"), b("al")]);
    assert_eq!(got.emails, vec![b("a@x.com")]);
}

#[test]
fn parse_skips_comments_and_ignores_trailing_bytes() {
    let las =
        process_las(b"# header\nK:\"a\"\nU:\"u\"\nE:\"e\"\n# tail comment\nK:\"partial").unwrap();
    assert!(las.lookup_id(b("a").as_slice()).is_some());
    assert!(las.lookup_id(b("partial").as_slice()).is_none());
    assert_eq!(las.identities.len(), 1);
}

#[test]
fn parse_empty_and_comment_only_files() {
    assert_eq!(process_las(b"").unwrap().identities.len(), 0);
    assert_eq!(process_las(b"# only a header\n").unwrap().identities.len(), 0);
}

#[test]
fn parse_keeps_records_sorted_by_key() {
    let las = process_las(b"K:\"zz\"\nU:\"z\"\nE:\"z@x\"\nK:\"aa\"\nU:\"a\"\nE:\"a@x\"\n")
        .unwrap();
    let keys: Vec<Vec<u8>> = las.identities.iter().map(|e| e.0.clone()).collect();
    assert_eq!(keys, vec![b("aa"), b("zz")]);
}

#[test]
fn parse_rejects_unknown_marker() {
    assert_eq!(process_las(b"X: what\n").unwrap_err(), StoreError::Format);
}

#[test]
fn parse_rejects_blank_line() {
    assert_eq!(process_las(b"\n").unwrap_err(), StoreError::Format);
}

#[test]
fn parse_rejects_unterminated_key_quote() {
    assert_eq!(process_las(b"K:\"abc\n").unwrap_err(), StoreError::Format);
}

#[test]
fn parse_rejects_unterminated_span_quote() {
    assert_eq!(process_las(b"K:\"a\"\nU:\"alice\n").unwrap_err(), StoreError::Format);
}

#[test]
fn parse_rejects_email_line_without_open_key() {
    assert_eq!(process_las(b"E:\"a@x.com\"\n").unwrap_err(), StoreError::Format);
}

#[test]
fn parse_rejects_duplicate_key() {
    assert_eq!(process_las(b"K:\"a\"\nU:\"u\"\nE:\"e\"\nK:\"a\"\nU:\"u2\"\nE:\"e2\"\n").unwrap_err(), StoreError::Format);
}

#[test]
fn parse_rejects_key_left_open_at_end() {
    assert_eq!(process_las(b"K:\"a\"\nU:\"u\"\nE:\"e\"\nK:\"b\"\n").unwrap_err(), StoreError::Format);
}

#[test]
fn serialize_renders_exact_record_text() {
    let mut las = LocalAuthorStoragePerf::new();
    las.add_identity(b("a"), &identity(&["alice", "al"], &["a@x.com"])).unwrap();
    assert_eq!(las.serialize(), b("K:\"a\"\nU:\"alice\" \"al\"\nE:\"a@x.com\"\n"));
}

#[test]
fn serialize_then_parse_round_trips() {
    let mut las = LocalAuthorStoragePerf::new();
    las.add_identity(b("mm"), &identity(&["m1", "m2"], &["m@x.com"])).unwrap();
    las.add_identity(b("aa"), &identity(&["a1"], &["a1@x.com", "a2@x.com"])).unwrap();
    las.add_identity(b("zz"), &identity(&["z1"], &["z@x.com"])).unwrap();
    let text = las.serialize();
    let back = process_las(text.as_slice()).unwrap();
    assert_eq!(back.identities.len(), 3);
    for (key, id) in las.identities.iter() {
        let got = back.lookup_id(key.as_slice()).unwrap();
        assert_eq!(got.usernames, id.usernames);
        assert_eq!(got.emails, id.emails);
    }
    // a second round trip reproduces the text itself
    assert_eq!(back.serialize(), text);
}

#[test]
fn scenario_header_file_listing_and_search() {
    // the concrete scenario: one commented header and one record
    let content = b("# header\nK:\"a\"\nU:\"alice\" \"al\"\nE:\"a@x.com\"\n");
    let las = process_las(content.as_slice()).unwrap();

    // list-by-id "a": default username alice, default email a@x.com,
    // usernames [alice, al]
    let got = las.lookup_id(b("a").as_slice()).unwrap();
    assert_eq!(got.usernames[0], b("alice"));
    assert_eq!(got.emails[0], b("a@x.com"));
    assert_eq!(got.usernames, vec![b("alice"), b("al")]);

    // list-find -U "al" yields identity "a"
    let hits = las.find_any(&vec![b("al")], &vec![]);
    assert_eq!(hits.len(), 1);
    assert_eq!(hits[0].0, b("a"));

    // delete "a": only the header comment remains
    let remaining = sigrs::rewrite::delete_record(content.as_slice(), b("a").as_slice()).unwrap();
    assert_eq!(remaining, b("# header\n"));
    let after = process_las(remaining.as_slice()).unwrap();
    assert_eq!(after.identities.len(), 0);
}
