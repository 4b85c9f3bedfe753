use sigrs::identity::StoreError;
use sigrs::trailer::{read_trailer, write_trailer, TrailerRead};

fn b(s: &str) -> Vec<u8> {
    s.as_bytes().to_vec()
}

#[test]
fn fresh_image_reads_not_present() {
    // no byte of these images is an ASCII hex digit
    match read_trailer(&[122u8, 122, 0, 1, 255]) {
        TrailerRead::NotPresent => {},
        other => panic!("expected NotPresent, got {:?}", other),
    }
    match read_trailer(b("zzzz").as_slice()) {
        TrailerRead::NotPresent => {},
        other => panic!("expected NotPresent, got {:?}", other),
    }
    match read_trailer(b("").as_slice()) {
        TrailerRead::NotPresent => {},
        other => panic!("expected NotPresent, got {:?}", other),
    }
}

#[test]
fn trailer_round_trip_returns_exact_path() {
    let exe = b("zzz-yyy-www");
    let path = b("/home/alice/.config/sigrs/config.sigrs");
    let out = write_trailer(exe.as_slice(), path.as_slice()).unwrap();
    match read_trailer(out.as_slice()) {
        TrailerRead::Path(p) => assert_eq!(p, path),
        other => panic!("expected the stored path, got {:?}", other),
    }
    // program bytes before the trailer are unchanged
    assert_eq!(&out[..exe.len()], exe.as_slice());
}

#[test]
fn trailer_length_field_is_zero_padded_upper_hex() {
    let out = write_trailer(b("zz").as_slice(), b("0123456789abcdef").as_slice()).unwrap();
    // sixteen path bytes: the field reads 00000010
    assert_eq!(&out[out.len() - 8..], b("00000010").as_slice());
    let out = write_trailer(b("zz").as_slice(), b("").as_slice()).unwrap();
    assert_eq!(&out[out.len() - 8..], b("00000000").as_slice());
}

#[test]
fn relocating_twice_to_same_path_is_idempotent() {
    let exe = b("zzz-yyy-www");
    let path = b("/tmp/store.sigrs");
    let once = write_trailer(exe.as_slice(), path.as_slice()).unwrap();
    let twice = write_trailer(once.as_slice(), path.as_slice()).unwrap();
    assert_eq!(once, twice);
}

#[test]
fn rewriting_replaces_the_old_trailer() {
    let exe = b("zzz-yyy-www");
    let first = write_trailer(exe.as_slice(), b("/tmp/a.sigrs").as_slice()).unwrap();
    let second = write_trailer(first.as_slice(), b("/var/b.sigrs").as_slice()).unwrap();
    match read_trailer(second.as_slice()) {
        TrailerRead::Path(p) => assert_eq!(p, b("/var/b.sigrs")),
        other => panic!("expected the new path, got {:?}", other),
    }
    assert_eq!(second.len(), exe.len() + b("/var/b.sigrs").len() + 8);
}

#[test]
fn malformed_length_field_reads_malformed() {
    // ends in a hex digit but the eight preceding bytes are no hex field
    match read_trailer(b("zzzzXY-A").as_slice()) {
        TrailerRead::Malformed => {},
        other => panic!("expected Malformed, got {:?}", other),
    }
    // a hex digit too close to the file start
    match read_trailer(b("A").as_slice()) {
        TrailerRead::Malformed => {},
        other => panic!("expected Malformed, got {:?}", other),
    }
    // a plausible field whose value runs past the file start
    match read_trailer(b("zz000000FF").as_slice()) {
        TrailerRead::Malformed => {},
        other => panic!("expected Malformed, got {:?}", other),
    }
}

#[test]
fn write_onto_malformed_trailer_fails() {
    assert_eq!(
        write_trailer(b("zzzzXY-A").as_slice(), b("/tmp/x").as_slice()),
        Err(StoreError::PathResolution)
    );
}

#[test]
fn incidental_hex_tail_is_misread_as_a_field() {
    // the documented heuristic limit: a tail that happens to end in eight
    // hex digits is taken for a length field
    match read_trailer(b("zz00000000").as_slice()) {
        TrailerRead::Path(p) => assert_eq!(p, b("")),
        other => panic!("expected an empty path, got {:?}", other),
    }
}
