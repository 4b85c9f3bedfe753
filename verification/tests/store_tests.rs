use sigrs::identity::{IdentityPerf, StoreError, UpdateRequest};
use sigrs::store::LocalAuthorStoragePerf;

fn b(s: &str) -> Vec<u8> {
    s.as_bytes().to_vec()
}

fn identity(usernames: &[&str], emails: &[&str]) -> IdentityPerf {
    let mut id = IdentityPerf::new();
    for u in usernames {
        id.add_username(b(u));
    }
    for e in emails {
        id.add_email(b(e));
    }
    id
}

fn base_store() -> LocalAuthorStoragePerf {
    let mut las = LocalAuthorStoragePerf::new();
    las.add_identity(b("key 1"), &identity(&["uname 1A"], &["1A@x.com"])).unwrap();
    las.add_identity(
        b("key 2"),
        &identity(&["uname 2AA", "uname 2B", "uname 2CC"], &["2A@x.com"]),
    )
    .unwrap();
    las.add_identity(
        b("key 3"),
        &identity(&["uname 3A"], &["3A@x.com", "3B@x.com", "3C@x.com"]),
    )
    .unwrap();
    las
}

fn no_change() -> UpdateRequest {
    UpdateRequest::new()
}

#[test]
fn add_then_lookup_returns_same_identity() {
    let mut las = LocalAuthorStoragePerf::new();
    let id = identity(&["alice", "al"], &["a@x.com"]);
    las.add_identity(b("a"), &id).unwrap();
    let got = las.lookup_id(b("a").as_slice()).expect("key must be present after add");
    assert_eq!(got.usernames, vec![b("alice"), b("al")]);
    assert_eq!(got.emails, vec![b("a@x.com")]);
}

#[test]
fn second_add_same_key_fails_and_store_unchanged() {
    let mut las = LocalAuthorStoragePerf::new();
    las.add_identity(b("a"), &identity(&["alice"], &["a@x.com"])).unwrap();
    let before = las.serialize();
    let res = las.add_identity(b("a"), &identity(&["bob"], &["b@x.com"]));
    assert_eq!(res, Err(String::from("Key already exists")));
    assert_eq!(las.serialize(), before);
    let got = las.lookup_id(b("a").as_slice()).unwrap();
    assert_eq!(got.usernames, vec![b("alice")]);
}

#[test]
fn entries_stay_sorted_by_key_bytes() {
    let mut las = LocalAuthorStoragePerf::new();
    las.add_identity(b("mm"), &identity(&["m"], &["m@x.com"])).unwrap();
    las.add_identity(b("aa"), &identity(&["a"], &["a@x.com"])).unwrap();
    las.add_identity(b("zz"), &identity(&["z"], &["z@x.com"])).unwrap();
    let keys: Vec<Vec<u8>> = las.identities.iter().map(|e| e.0.clone()).collect();
    assert_eq!(keys, vec![b("aa"), b("mm"), b("zz")]);
}

#[test]
fn update_add_email_then_lookup_shows_it() {
    let mut las = base_store();
    let mut req = no_change();
    req.add_emails.push(b("somebody@y.com"));
    las.update_identity(b("key 1").as_slice(), &req).unwrap();
    let got = las.lookup_id(b("key 1").as_slice()).unwrap();
    assert_eq!(got.emails, vec![b("1A@x.com"), b("somebody@y.com")]);
    // the default stays the head of the list
    assert_eq!(got.emails[0], b("1A@x.com"));
}

#[test]
fn update_remove_email_then_lookup_shows_it_absent() {
    let mut las = base_store();
    let mut add = no_change();
    add.add_emails.push(b("somebody@y.com"));
    las.update_identity(b("key 1").as_slice(), &add).unwrap();
    let mut rm = no_change();
    rm.remove_emails.push(b("somebody@y.com"));
    las.update_identity(b("key 1").as_slice(), &rm).unwrap();
    let got = las.lookup_id(b("key 1").as_slice()).unwrap();
    assert_eq!(got.emails, vec![b("1A@x.com")]);
}

#[test]
fn update_clear_emails_then_add_yields_exactly_added_set() {
    let mut las = base_store();
    let mut req = no_change();
    req.remove_all_emails = true;
    req.add_emails.push(b("n1@y.com"));
    req.add_emails.push(b("n2@y.com"));
    las.update_identity(b("key 3").as_slice(), &req).unwrap();
    let got = las.lookup_id(b("key 3").as_slice()).unwrap();
    assert_eq!(got.emails, vec![b("n1@y.com"), b("n2@y.com")]);
    assert_eq!(got.usernames, vec![b("uname 3A")]);
}

#[test]
fn update_clear_flag_with_remove_list_is_rejected() {
    let mut las = base_store();
    let mut req = no_change();
    req.remove_all_emails = true;
    req.remove_emails.push(b("1A@x.com"));
    assert_eq!(las.update_identity(b("key 1").as_slice(), &req), Err(StoreError::Argument));
}

#[test]
fn update_missing_key_is_not_found() {
    let mut las = base_store();
    let req = no_change();
    assert_eq!(las.update_identity(b("nope").as_slice(), &req), Err(StoreError::NotFound));
}

#[test]
fn rename_moves_identity_to_new_key() {
    let mut las = base_store();
    let mut req = no_change();
    req.change_identity = Some(b("k2"));
    las.update_identity(b("key 2").as_slice(), &req).unwrap();
    let got = las.lookup_id(b("k2").as_slice()).expect("renamed key must resolve");
    assert_eq!(got.usernames, vec![b("uname 2AA"), b("uname 2B"), b("uname 2CC")]);
    assert_eq!(got.emails, vec![b("2A@x.com")]);
    assert!(las.lookup_id(b("key 2").as_slice()).is_none());
}

#[test]
fn rename_onto_existing_key_fails() {
    let mut las = base_store();
    let mut req = no_change();
    req.change_identity = Some(b("key 3"));
    assert_eq!(
        las.update_identity(b("key 2").as_slice(), &req),
        Err(StoreError::AlreadyExists)
    );
    assert!(las.lookup_id(b("key 2").as_slice()).is_some());
}

#[test]
fn delete_removes_only_that_key() {
    let mut las = base_store();
    las.delete_identity(b("key 2").as_slice()).unwrap();
    assert!(las.lookup_id(b("key 2").as_slice()).is_none());
    assert!(las.lookup_id(b("key 1").as_slice()).is_some());
    assert!(las.lookup_id(b("key 3").as_slice()).is_some());
    assert_eq!(
        las.delete_identity(b("key 2").as_slice()),
        Err(StoreError::NotFound)
    );
}

#[test]
fn find_any_by_username_returns_exactly_the_matches() {
    let las = base_store();
    let hits = las.find_any(&vec![b("uname 2B")], &vec![]);
    assert_eq!(hits.len(), 1);
    assert_eq!(hits[0].0, b("key 2"));
    // irrespective of email contents: an email query alone matches others
    let hits = las.find_any(&vec![b("uname 2B")], &vec![b("unrelated@x.com")]);
    assert_eq!(hits.len(), 1);
    assert_eq!(hits[0].0, b("key 2"));
}

#[test]
fn find_any_by_email_and_mixed_queries() {
    let las = base_store();
    let hits = las.find_any(&vec![], &vec![b("3B@x.com")]);
    assert_eq!(hits.len(), 1);
    assert_eq!(hits[0].0, b("key 3"));
    let hits = las.find_any(&vec![b("uname 1A")], &vec![b("3C@x.com")]);
    assert_eq!(hits.len(), 2);
    assert_eq!(hits[0].0, b("key 1"));
    assert_eq!(hits[1].0, b("key 3"));
    let hits = las.find_any(&vec![b("nobody")], &vec![b("nobody@x.com")]);
    assert_eq!(hits.len(), 0);
}

#[test]
fn test_group_list() {
    // listing every identity succeeds in both verbose forms
    let las = base_store();
    assert!(!las.pretty_print_all(true).is_empty());
    assert!(!las.pretty_print_all(false).is_empty());

    // list-by-id: an existing key passes, verbose or not
    assert!(las.pretty_print_id(b("key 2").as_slice(), true).is_ok());
    assert!(las.pretty_print_id(b("key 2").as_slice(), false).is_ok());
    // a missing key, a newline key and an empty key all fail
    assert!(las.pretty_print_id(b("doesnt exist").as_slice(), true).is_err());
    assert!(las.pretty_print_id(b("doesnt exist").as_slice(), false).is_err());
    assert!(las.pretty_print_id(b("\n").as_slice(), false).is_err());
    assert!(las.pretty_print_id(b("").as_slice(), false).is_err());

    // list-find: single, double and triple username matches on one identity
    assert_eq!(las.find_any(&vec![b("uname 2AA")], &vec![]).len(), 1);
    assert_eq!(las.find_any(&vec![b("uname 2AA"), b("uname 2B")], &vec![]).len(), 1);
    assert_eq!(
        las.find_any(&vec![b("uname 2AA"), b("uname 2B"), b("uname 2CC")], &vec![]).len(),
        1
    );
    // single, double and triple email matches on one identity
    assert_eq!(las.find_any(&vec![], &vec![b("3A@x.com")]).len(), 1);
    assert_eq!(las.find_any(&vec![], &vec![b("3A@x.com"), b("3B@x.com")]).len(), 1);
    assert_eq!(
        las.find_any(&vec![], &vec![b("3A@x.com"), b("3B@x.com"), b("3C@x.com")]).len(),
        1
    );
    // a username and an email of the same identity still yield it once
    assert_eq!(las.find_any(&vec![b("uname 3A")], &vec![b("3B@x.com")]).len(), 1);
    // adding a username of another identity yields both
    assert_eq!(
        las.find_any(&vec![b("uname 3A"), b("uname 2AA")], &vec![b("3B@x.com")]).len(),
        2
    );
}

#[test]
fn test_las_modifications() {
    let mut las = base_store();

    // adding a new identity with one username and one email
    las.add_identity(b("add new key"), &identity(&["some user"], &["some_email@x.com"]))
        .unwrap();
    assert!(las.lookup_id(b("add new key").as_slice()).is_some());
    // a new key with identical username and email is fine
    las.add_identity(b("some other key"), &identity(&["some user"], &["some_email@x.com"]))
        .unwrap();
    assert!(las.lookup_id(b("some other key").as_slice()).is_some());
    las.add_identity(b("some third key"), &identity(&["some user"], &["some_email@x.com"]))
        .unwrap();
    assert!(las.lookup_id(b("some third key").as_slice()).is_some());
    // the same key again must fail
    assert!(las
        .add_identity(b("add new key"), &identity(&["some user"], &["some_email@x.com"]))
        .is_err());

    // update: add a username and an email, then find the identity by them
    let mut req = no_change();
    req.add_usernames.push(b("somebody"));
    req.add_emails.push(b("somebody@y.com"));
    las.update_identity(b("add new key").as_slice(), &req).unwrap();
    assert_eq!(las.find_any(&vec![], &vec![b("somebody@y.com")]).len(), 1);
    assert_eq!(las.find_any(&vec![b("somebody")], &vec![]).len(), 1);

    // remove the email again: no longer findable by it
    let mut req = no_change();
    req.remove_emails.push(b("somebody@y.com"));
    las.update_identity(b("add new key").as_slice(), &req).unwrap();
    assert_eq!(las.find_any(&vec![], &vec![b("somebody@y.com")]).len(), 0);

    // remove the username again: no longer findable by it
    let mut req = no_change();
    req.remove_usernames.push(b("somebody"));
    las.update_identity(b("add new key").as_slice(), &req).unwrap();
    assert_eq!(las.find_any(&vec![b("somebody")], &vec![]).len(), 0);

    // remove all emails, then adding works again
    let mut req = no_change();
    req.add_emails.push(b("somebody@y.com"));
    las.update_identity(b("add new key").as_slice(), &req).unwrap();
    assert_eq!(las.find_any(&vec![], &vec![b("somebody@y.com")]).len(), 1);
    let mut req = no_change();
    req.remove_all_emails = true;
    las.update_identity(b("add new key").as_slice(), &req).unwrap();
    assert_eq!(las.find_any(&vec![], &vec![b("somebody@y.com")]).len(), 0);
    let mut req = no_change();
    req.add_emails.push(b("somebody@y.com"));
    las.update_identity(b("add new key").as_slice(), &req).unwrap();
    assert_eq!(las.find_any(&vec![], &vec![b("somebody@y.com")]).len(), 1);

    // remove all usernames, then adding works again
    let mut req = no_change();
    req.add_usernames.push(b("somebody"));
    las.update_identity(b("add new key").as_slice(), &req).unwrap();
    assert_eq!(las.find_any(&vec![b("somebody")], &vec![]).len(), 1);
    let mut req = no_change();
    req.remove_all_usernames = true;
    las.update_identity(b("add new key").as_slice(), &req).unwrap();
    assert_eq!(las.find_any(&vec![b("somebody")], &vec![]).len(), 0);
    let mut req = no_change();
    req.add_usernames.push(b("somebody"));
    las.update_identity(b("add new key").as_slice(), &req).unwrap();
    assert_eq!(las.find_any(&vec![b("somebody")], &vec![]).len(), 1);

    // changing the identity key: the new key resolves, the old one is gone,
    // and the record is still findable by its username and email
    let mut req = no_change();
    req.change_identity = Some(b("IDENTITY CHANGE"));
    las.update_identity(b("add new key").as_slice(), &req).unwrap();
    assert!(las.lookup_id(b("IDENTITY CHANGE").as_slice()).is_some());
    assert!(las.lookup_id(b("add new key").as_slice()).is_none());
    assert_eq!(las.find_any(&vec![b("somebody")], &vec![]).len(), 1);
    assert_eq!(las.find_any(&vec![], &vec![b("somebody@y.com")]).len(), 1);
}
