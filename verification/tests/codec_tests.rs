use kickoff::codec::{read_manifest, read_trailer, read_u64, write_manifest, write_trailer};
use kickoff::{CodecError, Manifest, Section, Trailer};

const MAGIC_NUMBER: &[u8; 8] = b"k1ck0ff!";

fn random_bytes(n: usize) -> Vec<u8> {
    (0..n).map(|_| rand::random::<u8>()).collect::<Vec<_>>()
}

#[test]
fn read_manifest_when_valid_then_succeeds() {
    let expected = Manifest {
        argv: vec![String::from("foo"), String::from("bar")],
        env: vec![(String::from("SOME_KEY"), String::from("some-value"))],
    };

    let raw_manifest = "{\"argv\":[\"foo\",\"bar\"],\"env\":{\"SOME_KEY\":\"some-value\"}}";
    let runtime = random_bytes(1024);

    let mut data = Vec::new();
    data.extend_from_slice(&runtime);
    data.extend_from_slice(raw_manifest.as_bytes());

    data.extend_from_slice(MAGIC_NUMBER);

    data.extend_from_slice(&0_u64.to_le_bytes());
    data.extend_from_slice(&(runtime.len() as u64).to_le_bytes());

    data.extend_from_slice(&(runtime.len() as u64).to_le_bytes());
    data.extend_from_slice(&(raw_manifest.len() as u64).to_le_bytes());

    let actual = read_manifest(&data).unwrap();

    assert_eq!(actual.argv, expected.argv);
    assert_eq!(actual.env, expected.env);
}

#[test]
fn read_manifest_when_not_valid_then_fails() {
    let runtime = random_bytes(1024);
    let manifest = random_bytes(1024);

    let mut data = Vec::new();
    data.extend_from_slice(&runtime);
    data.extend_from_slice(&manifest);

    data.extend_from_slice(MAGIC_NUMBER);

    data.extend_from_slice(&0_u64.to_le_bytes());
    data.extend_from_slice(&(runtime.len() as u64).to_le_bytes());

    data.extend_from_slice(&(runtime.len() as u64).to_le_bytes());
    data.extend_from_slice(&(manifest.len() as u64).to_le_bytes());

    assert!(read_manifest(&data).is_err());
}

#[test]
fn write_manifest_when_valid_then_succeeds() {
    let manifest = Manifest {
        argv: vec![String::from("foo"), String::from("bar")],
        env: vec![(String::from("SOME_KEY"), String::from("some-value"))],
    };

    let runtime = random_bytes(1024);
    let raw_manifest = "{\"argv\":[\"foo\",\"bar\"],\"env\":{\"SOME_KEY\":\"some-value\"}}";

    let mut writer = runtime.clone();
    write_manifest(&mut writer, &manifest);

    let mut want_data = Vec::new();
    want_data.extend_from_slice(&runtime);
    want_data.extend_from_slice(raw_manifest.as_bytes());
    want_data.extend_from_slice(MAGIC_NUMBER);
    want_data.extend_from_slice(&0_u64.to_le_bytes());
    want_data.extend_from_slice(&(runtime.len() as u64).to_le_bytes());
    want_data.extend_from_slice(&(runtime.len() as u64).to_le_bytes());
    want_data.extend_from_slice(&(raw_manifest.len() as u64).to_le_bytes());

    assert_eq!(want_data, writer);
}

#[test]
fn read_trailer_when_valid_then_succeeds() {
    let mut data = Vec::new();
    data.extend_from_slice(MAGIC_NUMBER);

    data.extend_from_slice(&0_u64.to_le_bytes());
    data.extend_from_slice(&99_u64.to_le_bytes());

    data.extend_from_slice(&100_u64.to_le_bytes());
    data.extend_from_slice(&120_u64.to_le_bytes());

    let trailer = read_trailer(&data).unwrap();

    assert_eq!(trailer.magic, *MAGIC_NUMBER);

    assert_eq!(trailer.runtime.pos, 0);
    assert_eq!(trailer.runtime.len, 99);

    assert_eq!(trailer.manifest.pos, 100);
    assert_eq!(trailer.manifest.len, 120);
}

#[test]
fn read_trailer_when_not_valid_then_fails() {
    let data = random_bytes(1024);
    assert!(read_trailer(&data).is_err());
}

#[test]
fn write_trailer_when_valid_then_succeeds() {
    let runtime = random_bytes(1024);

    let trailer = Trailer {
        magic: *MAGIC_NUMBER,
        runtime: Section { pos: 0, len: runtime.len() as u64 },
        manifest: Section { pos: runtime.len() as u64, len: 0 },
    };

    let mut writer = runtime.clone();
    write_trailer(&mut writer, &trailer);

    let mut want_data = Vec::new();
    want_data.extend_from_slice(&runtime);
    want_data.extend_from_slice(MAGIC_NUMBER);
    want_data.extend_from_slice(&0_u64.to_le_bytes());
    want_data.extend_from_slice(&(runtime.len() as u64).to_le_bytes());
    want_data.extend_from_slice(&(runtime.len() as u64).to_le_bytes());
    want_data.extend_from_slice(&0_u64.to_le_bytes());

    assert_eq!(want_data, writer);
}

#[test]
fn manifest_serde_rountrip() {
    let mut rw = Vec::new();

    let want = Manifest {
        argv: vec![String::from("foo"), String::from("bar")],
        env: vec![(String::from("SOME_KEY"), String::from("some-value"))],
    };

    write_manifest(&mut rw, &want);

    assert_eq!(want, read_manifest(&rw).unwrap());
}

#[test]
fn read_u64_reads_little_endian() {
    let mut data = vec![0xaa, 0xbb];
    data.extend_from_slice(&0x0102030405060708_u64.to_le_bytes());
    assert_eq!(read_u64(&data, 2), 0x0102030405060708);
}

#[test]
fn offsets_after_write_are_consistent() {
    let manifest = Manifest {
        argv: vec![String::from("foo"), String::from("bar")],
        env: vec![(String::from("SOME_KEY"), String::from("some-value"))],
    };
    let stub = random_bytes(317);

    let mut data = stub.clone();
    write_manifest(&mut data, &manifest);

    let trailer = read_trailer(&data).unwrap();
    assert_eq!(trailer.runtime.pos, 0);
    assert_eq!(trailer.runtime.len, stub.len() as u64);
    assert_eq!(trailer.manifest.pos, stub.len() as u64);
    assert_eq!(
        trailer.manifest.pos + trailer.manifest.len,
        (data.len() - 40) as u64
    );
}

#[test]
fn package_round_trip_end_to_end() {
    let stub = random_bytes(2048);
    let want = Manifest {
        argv: vec![String::from("foo"), String::from("bar")],
        env: vec![(String::from("SOME_KEY"), String::from("some-value"))],
    };

    let mut data = stub.clone();
    write_manifest(&mut data, &want);

    let trailer = read_trailer(&data).unwrap();
    assert_eq!(trailer.runtime.len, stub.len() as u64);

    let got = read_manifest(&data).unwrap();
    assert_eq!(got, want);
}

#[test]
fn round_trip_with_escapes_and_multibyte_text() {
    let want = Manifest {
        argv: vec![
            String::from("quote \" backslash \\ slash /"),
            String::from("tab\tnewline\ncr\rbell\u{7}form\u{c}"),
            String::from("caf\u{e9} \u{1f600}"),
            String::new(),
        ],
        env: vec![
            (String::from("A"), String::from("line1\nline2")),
            (String::from("B\u{1}"), String::from("\u{0}")),
        ],
    };
    let fresh = Manifest {
        argv: want.argv.clone(),
        env: want.env.clone(),
    };

    let mut data = Vec::new();
    write_manifest(&mut data, &want);
    assert_eq!(read_manifest(&data).unwrap(), fresh);
}

#[test]
fn round_trip_with_empty_argv_and_env() {
    let want = Manifest { argv: vec![], env: vec![] };
    let mut data = vec![1, 2, 3];
    write_manifest(&mut data, &want);
    let got = read_manifest(&data).unwrap();
    assert!(got.argv.is_empty());
    assert!(got.env.is_empty());
}

#[test]
fn read_manifest_when_too_short_then_format_error() {
    let data = vec![1, 2, 3];
    assert_eq!(read_manifest(&data).unwrap_err(), CodecError::Format);
}

#[test]
fn read_manifest_when_magic_wrong_then_format_error() {
    let mut data = vec![0; 64];
    data.extend_from_slice(b"k1ck0ff?");
    data.extend_from_slice(&[0; 32]);
    assert_eq!(read_manifest(&data).unwrap_err(), CodecError::Format);
}

#[test]
fn read_manifest_when_section_outside_file_then_bounds_error() {
    let mut data = Vec::new();
    data.extend_from_slice(MAGIC_NUMBER);
    data.extend_from_slice(&0_u64.to_le_bytes());
    data.extend_from_slice(&0_u64.to_le_bytes());
    data.extend_from_slice(&1000_u64.to_le_bytes());
    data.extend_from_slice(&8_u64.to_le_bytes());
    assert_eq!(read_manifest(&data).unwrap_err(), CodecError::Bounds);
}

#[test]
fn read_manifest_when_region_not_a_manifest_then_decode_error() {
    let mut data = Vec::new();
    let region = b"not a manifest at all";
    data.extend_from_slice(region);
    data.extend_from_slice(MAGIC_NUMBER);
    data.extend_from_slice(&0_u64.to_le_bytes());
    data.extend_from_slice(&0_u64.to_le_bytes());
    data.extend_from_slice(&0_u64.to_le_bytes());
    data.extend_from_slice(&(region.len() as u64).to_le_bytes());
    assert_eq!(read_manifest(&data).unwrap_err(), CodecError::Decode);
}

#[test]
fn read_manifest_accepts_whitespace_and_either_key_order() {
    let region = " {\n\t\"env\" : { \"K\" : \"v\" } ,\r\n \"argv\" : [ \"x\" , \"y\" ] } ";
    let mut data = Vec::new();
    data.extend_from_slice(region.as_bytes());
    data.extend_from_slice(MAGIC_NUMBER);
    data.extend_from_slice(&0_u64.to_le_bytes());
    data.extend_from_slice(&0_u64.to_le_bytes());
    data.extend_from_slice(&0_u64.to_le_bytes());
    data.extend_from_slice(&(region.len() as u64).to_le_bytes());

    let got = read_manifest(&data).unwrap();
    assert_eq!(got.argv, vec![String::from("x"), String::from("y")]);
    assert_eq!(got.env, vec![(String::from("K"), String::from("v"))]);
}

#[test]
fn read_manifest_decodes_hex_escapes() {
    let region = "{\"argv\":[\"\\u0041\\u0009\\u0001\"],\"env\":{}}";
    let mut data = Vec::new();
    data.extend_from_slice(region.as_bytes());
    data.extend_from_slice(MAGIC_NUMBER);
    data.extend_from_slice(&0_u64.to_le_bytes());
    data.extend_from_slice(&0_u64.to_le_bytes());
    data.extend_from_slice(&0_u64.to_le_bytes());
    data.extend_from_slice(&(region.len() as u64).to_le_bytes());

    let got = read_manifest(&data).unwrap();
    assert_eq!(got.argv, vec![String::from("A\t\u{1}")]);
}

#[test]
fn read_manifest_rejects_duplicate_env_keys() {
    let region = "{\"argv\":[],\"env\":{\"K\":\"a\",\"K\":\"b\"}}";
    let mut data = Vec::new();
    data.extend_from_slice(region.as_bytes());
    data.extend_from_slice(MAGIC_NUMBER);
    data.extend_from_slice(&0_u64.to_le_bytes());
    data.extend_from_slice(&0_u64.to_le_bytes());
    data.extend_from_slice(&0_u64.to_le_bytes());
    data.extend_from_slice(&(region.len() as u64).to_le_bytes());
    assert_eq!(read_manifest(&data).unwrap_err(), CodecError::Decode);
}

#[test]
fn read_manifest_rejects_invalid_utf8_in_string() {
    let mut region: Vec<u8> = Vec::new();
    region.extend_from_slice(b"{\"argv\":[\"");
    region.extend_from_slice(&[0xC3, 0x28]);
    region.extend_from_slice(b"\"],\"env\":{}}");
    let mut data = region.clone();
    data.extend_from_slice(MAGIC_NUMBER);
    data.extend_from_slice(&0_u64.to_le_bytes());
    data.extend_from_slice(&0_u64.to_le_bytes());
    data.extend_from_slice(&0_u64.to_le_bytes());
    data.extend_from_slice(&(region.len() as u64).to_le_bytes());
    assert_eq!(read_manifest(&data).unwrap_err(), CodecError::Decode);
}
