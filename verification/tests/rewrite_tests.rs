use sigrs::identity::{IdentityPerf, StoreError, UpdateRequest};
use sigrs::parse::process_las;
use sigrs::rewrite::{add_record, delete_record, update_record};

fn b(s: &str) -> Vec<u8> {
    s.as_bytes().to_vec()
}

fn identity(usernames: &[&str], emails: &[&str]) -> IdentityPerf {
    let mut id = IdentityPerf::new();
    for u in usernames {
        id.add_username(b(u));
    }
    for e in emails {
        id.add_email(b(e));
    }
    id
}

const BASE: &str = "# header\nK:\"a\"\nU:\"alice\" \"al\"\nE:\"a@x.com\"\nK:\"b\"\nU:\"bob\"\nE:\"b@x.com\"\n# footer\n";

#[test]
fn delete_keeps_other_content_byte_identical() {
    let out = delete_record(BASE.as_bytes(), b("a").as_slice()).unwrap();
    assert_eq!(out, b("# header\nK:\"b\"\nU:\"bob\"\nE:\"b@x.com\"\n# footer\n"));
    let out = delete_record(BASE.as_bytes(), b("b").as_slice()).unwrap();
    assert_eq!(
        out,
        b("# header\nK:\"a\"\nU:\"alice\" \"al\"\nE:\"a@x.com\"\n# footer\n")
    );
}

#[test]
fn delete_missing_key_is_not_found() {
    assert_eq!(
        delete_record(BASE.as_bytes(), b("nope").as_slice()),
        Err(StoreError::NotFound)
    );
}

#[test]
fn delete_rejects_unterminated_tail() {
    assert_eq!(
        delete_record(b"# header\nK:\"a\"".as_slice(), b("a").as_slice()),
        Err(StoreError::Format)
    );
}

#[test]
fn delete_rejects_unknown_marker() {
    assert_eq!(
        delete_record(b"Q: what\n".as_slice(), b("a").as_slice()),
        Err(StoreError::Format)
    );
}

#[test]
fn add_appends_record_and_rejects_taken_key() {
    let id = identity(&["carol"], &["c@x.com"]);
    let out = add_record(BASE.as_bytes(), b("c").as_slice(), &id).unwrap();
    let mut expected = b(BASE);
    expected.extend_from_slice(b"K:\"c\"\nU:\"carol\"\nE:\"c@x.com\"\n");
    assert_eq!(out, expected);
    // the appended file parses, and the new record resolves
    let las = process_las(out.as_slice()).unwrap();
    assert!(las.lookup_id(b("c").as_slice()).is_some());
    // a taken key fails
    assert_eq!(
        add_record(BASE.as_bytes(), b("a").as_slice(), &id),
        Err(StoreError::AlreadyExists)
    );
}

#[test]
fn update_rewrites_only_the_matched_record() {
    let mut req = UpdateRequest::new();
    req.add_emails.push(b("extra@x.com"));
    let out = update_record(BASE.as_bytes(), b("a").as_slice(), &req).unwrap();
    assert_eq!(
        out,
        b("# header\nK:\"a\"\nU:\"alice\" \"al\"\nE:\"a@x.com\" \"extra@x.com\"\nK:\"b\"\nU:\"bob\"\nE:\"b@x.com\"\n# footer\n")
    );
}

#[test]
fn update_rename_changes_only_the_key_line() {
    let mut req = UpdateRequest::new();
    req.change_identity = Some(b("a2"));
    let out = update_record(BASE.as_bytes(), b("a").as_slice(), &req).unwrap();
    assert_eq!(
        out,
        b("# header\nK:\"a2\"\nU:\"alice\" \"al\"\nE:\"a@x.com\"\nK:\"b\"\nU:\"bob\"\nE:\"b@x.com\"\n# footer\n")
    );
}

#[test]
fn update_clear_then_add_yields_added_set_in_file() {
    let mut req = UpdateRequest::new();
    req.remove_all_usernames = true;
    req.add_usernames.push(b("fresh"));
    let out = update_record(BASE.as_bytes(), b("a").as_slice(), &req).unwrap();
    assert_eq!(
        out,
        b("# header\nK:\"a\"\nU:\"fresh\"\nE:\"a@x.com\"\nK:\"b\"\nU:\"bob\"\nE:\"b@x.com\"\n# footer\n")
    );
}

#[test]
fn update_record_missing_key_is_not_found() {
    let req = UpdateRequest::new();
    assert_eq!(
        update_record(BASE.as_bytes(), b("nope").as_slice(), &req),
        Err(StoreError::NotFound)
    );
}

#[test]
fn update_removing_every_email_leaves_an_empty_line() {
    let mut req = UpdateRequest::new();
    req.remove_all_emails = true;
    let out = update_record(BASE.as_bytes(), b("b").as_slice(), &req).unwrap();
    assert_eq!(
        out,
        b("# header\nK:\"a\"\nU:\"alice\" \"al\"\nE:\"a@x.com\"\nK:\"b\"\nU:\"bob\"\nE:\n# footer\n")
    );
    // the emptied record still parses, with no emails left
    let las = process_las(out.as_slice()).unwrap();
    let got = las.lookup_id(b("b").as_slice()).unwrap();
    assert_eq!(got.emails.len(), 0);
}
