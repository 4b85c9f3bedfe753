use sigrs::coordinate::{handles_locally, plan_relocation, resolve_store_path, store_template};
use sigrs::identity::{IdentityPerf, StoreError};
use sigrs::parse::process_las;
use sigrs::signing_utils::{generate_temp_path, temp_path_for};
use sigrs::store::LocalAuthorStoragePerf;
use sigrs::templates::{config_content, ConfigFileType, ConfigTemplate};
use sigrs::trailer::TrailerRead;

fn b(s: &str) -> Vec<u8> {
    s.as_bytes().to_vec()
}

fn identity(usernames: &[&str], emails: &[&str]) -> IdentityPerf {
    let mut id = IdentityPerf::new();
    for u in usernames {
        id.add_username(b(u));
    }
    for e in emails {
        id.add_email(b(e));
    }
    id
}

#[test]
fn router_handles_only_the_relocation_subcommand() {
    assert!(handles_locally(b("set-config-path").as_slice()));
    assert!(!handles_locally(b("list-all").as_slice()));
    assert!(!handles_locally(b("add-new").as_slice()));
    assert!(!handles_locally(b("").as_slice()));
}

#[test]
fn relocation_plan_uses_captured_worker_path() {
    let call = plan_relocation(true, b("/usr/bin/sigrs_function"), b("/tmp/s.sigrs").as_slice(), false)
        .unwrap();
    assert_eq!(call.bin_path, b("/usr/bin/sigrs_function"));
    assert_eq!(call.new_cfg_path, b("/tmp/s.sigrs"));
    assert!(!call.no_generate);
}

#[test]
fn relocation_plan_aborts_on_failure_or_silence() {
    match plan_relocation(false, b("/usr/bin/x"), b("/tmp/s").as_slice(), false) {
        Err(e) => assert_eq!(e, StoreError::Io),
        Ok(_) => panic!("a failed worker query must abort the relocation"),
    }
    match plan_relocation(true, b(""), b("/tmp/s").as_slice(), true) {
        Err(e) => assert_eq!(e, StoreError::Io),
        Ok(_) => panic!("an empty worker reply must abort the relocation"),
    }
}

#[test]
fn store_path_resolution_prefers_the_explicit_flag() {
    let explicit = Some(b("/override.sigrs"));
    let trailer = TrailerRead::Path(b("/from-trailer.sigrs"));
    assert_eq!(resolve_store_path(&explicit, &trailer).unwrap(), b("/override.sigrs"));
    assert_eq!(
        resolve_store_path(&None, &trailer).unwrap(),
        b("/from-trailer.sigrs")
    );
}

#[test]
fn store_path_resolution_fails_without_flag_or_trailer() {
    assert_eq!(
        resolve_store_path(&None, &TrailerRead::NotPresent),
        Err(StoreError::PathResolution)
    );
    assert_eq!(
        resolve_store_path(&None, &TrailerRead::Malformed),
        Err(StoreError::PathResolution)
    );
}

#[test]
fn template_store_is_a_single_comment_and_parses_empty() {
    let t = store_template();
    assert_eq!(t, b("# sigrs local author storage\n"));
    assert_eq!(process_las(t.as_slice()).unwrap().identities.len(), 0);
}

#[test]
fn temp_path_sits_beside_its_target() {
    let p = temp_path_for(b("/home/alice/project/Cargo.toml").as_slice(), 0x1a2b).unwrap();
    assert_eq!(p, b("/home/alice/project/sigrs0x1a2b"));
    let p = temp_path_for(b("/x").as_slice(), 0).unwrap();
    assert_eq!(p, b("/sigrs0x0"));
    assert_eq!(
        temp_path_for(b("no-directory").as_slice(), 1),
        Err(StoreError::PathResolution)
    );
}

#[test]
fn generated_temp_path_keeps_the_directory() {
    let p = generate_temp_path(b("/tmp/target.toml").as_slice()).unwrap();
    assert!(p.starts_with(b"/tmp/sigrs0x"));
    assert_eq!(
        generate_temp_path(b("bare").as_slice()),
        Err(StoreError::PathResolution)
    );
}

#[test]
fn manifest_templates_carry_the_expected_author_fields() {
    let with = config_content(ConfigFileType::CargoToml(ConfigTemplate::WithAuthors));
    assert!(with.contains("authors = [\"Jane Doe <jane.doe@example.com>\"]"));
    let empty = config_content(ConfigFileType::CargoToml(ConfigTemplate::EmptyAuthors));
    assert!(empty.contains("authors = []"));
    let none = config_content(ConfigFileType::CargoToml(ConfigTemplate::NoAuthors));
    assert!(!none.contains("authors"));

    let js = config_content(ConfigFileType::PackageJson(ConfigTemplate::WithAuthors));
    assert!(js.contains("\"contributors\""));
    let py = config_content(ConfigFileType::PyProjectToml(ConfigTemplate::NoAuthors));
    assert!(py.contains("[tool.poetry]"));
    let php = config_content(ConfigFileType::ComposerJson(ConfigTemplate::EmptyAuthors));
    assert!(php.contains("\"authors\": []"));
}

#[test]
fn verbose_listing_prints_the_framed_block() {
    let las = LocalAuthorStoragePerf::new();
    let text = las.pretty_print(b("a").as_slice(), &identity(&["alice", "al"], &["a@x.com"]), true);
    let expected = "================================\n\
                    Identity: \"a\"\n\
                    --------------------------------\n\
                    Usernames:\n  Default: \"alice\"\n  All:\n    - \"alice\"\n    - \"al\"\n\
                    \nEmails:\n  Default: \"a@x.com\"\n  All:\n    - \"a@x.com\"\n\
                    ================================\n\n";
    assert_eq!(String::from_utf8(text).unwrap(), expected);
}

#[test]
fn terse_listing_packs_extra_values() {
    let las = LocalAuthorStoragePerf::new();
    let text = las.pretty_print(
        b("a").as_slice(),
        &identity(&["alice", "al", "ali"], &["a@x.com"]),
        false,
    );
    let expected = "Identity: \"a\"\n\
                    Usernames: | Default: \"alice\" | \"al\"\"ali\"\n\
                    Emails: | Default: \"a@x.com\" |  \n\n\n";
    assert_eq!(String::from_utf8(text).unwrap(), expected);
}

#[test]
fn listing_by_id_fails_only_for_missing_keys() {
    let mut las = LocalAuthorStoragePerf::new();
    las.add_identity(b("a"), &identity(&["alice"], &["a@x.com"])).unwrap();
    assert!(las.pretty_print_id(b("a").as_slice(), true).is_ok());
    assert_eq!(
        las.pretty_print_id(b("missing").as_slice(), true),
        Err(StoreError::NotFound)
    );
}

#[test]
fn filter_rank_marks_file_access() {
    assert_eq!(sigrs::filters::SignableFilter::IfSignable.get_ord(), 255);
    assert_eq!(sigrs::filters::SignableFilter::IfHasSignatures.get_ord(), 255);
}
