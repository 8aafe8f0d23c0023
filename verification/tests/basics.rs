use file_tidy::digest::{compute_hash, digest_hex};
use file_tidy::enumerate::{FileHashType, FileSort};
use file_tidy::error::Error;
use file_tidy::naming::zero_pad;
use file_tidy::text::{chars_of, is_hidden, str_eq, to_ascii_lowercase, to_ascii_uppercase};

fn hex(t: FileHashType, data: &[u8]) -> String {
    digest_hex(&compute_hash(data, t), false)
}

#[test]
fn digest_md5_of_abc() {
    assert_eq!(hex(FileHashType::MD5, b"abc"), "900150983cd24fb0d6963f7d28e17f72");
}

#[test]
fn digest_sha1_of_abc() {
    assert_eq!(hex(FileHashType::SHA1, b"abc"), "a9993e364706816aba3e25717850c26c9cd0d89d");
}

#[test]
fn digest_sha256_of_abc() {
    assert_eq!(
        hex(FileHashType::SHA256, b"abc"),
        "ba7816bf8f01cfea414140de5dae2223b00361a396177a9cb410ff61f20015ad"
    );
}

#[test]
fn digest_sha3_224_of_abc() {
    assert_eq!(
        hex(FileHashType::SHA3_224, b"abc"),
        "e642824c3f8cf24ad09234ee7d3c766fc9a3a5168d0c94ad73b46fdf"
    );
}

#[test]
fn digest_sha3_256_of_abc() {
    assert_eq!(
        hex(FileHashType::SHA3_256, b"abc"),
        "3a985da74fe225b2045c172d6bd390bd855f086e3e9d525b46bfe24511431532"
    );
}

#[test]
fn digest_sha3_384_of_abc() {
    assert_eq!(
        hex(FileHashType::SHA3_384, b"abc"),
        "ec01498288516fc926459f58e2c6ad8df9b473cb0fc08c2596da7cf0e49be4b298d88cea927ac7f539f1edf228376d25"
    );
}

#[test]
fn digest_sha3_512_of_abc() {
    assert_eq!(
        hex(FileHashType::SHA3_512, b"abc"),
        "b751850b1a57168a5693cd924b6b096e08f621827444f70d884f5d0240d2712e10e116e9192af3c91a7ec57647e3934057340b4cf408d5a56592f8274eec53f0"
    );
}

#[test]
fn digest_lengths_per_algorithm() {
    let expected = [
        (FileHashType::MD5, 16),
        (FileHashType::SHA1, 20),
        (FileHashType::SHA256, 32),
        (FileHashType::SHA3_224, 28),
        (FileHashType::SHA3_256, 32),
        (FileHashType::SHA3_384, 48),
        (FileHashType::SHA3_512, 64),
    ];
    for (t, len) in expected {
        assert_eq!(compute_hash(b"", t).len(), len);
    }
}

#[test]
fn digest_of_different_contents_differs() {
    assert_ne!(compute_hash(b"a", FileHashType::MD5), compute_hash(b"b", FileHashType::MD5));
}

#[test]
fn hex_text_lower_and_upper() {
    assert_eq!(digest_hex(&[0x00, 0x0f, 0xab, 0xff], false), "000fabff");
    assert_eq!(digest_hex(&[0x00, 0x0f, 0xab, 0xff], true), "000FABFF");
    assert_eq!(digest_hex(&[], true), "");
}

#[test]
fn hex_upper_is_lower_uppercased() {
    let data = compute_hash(b"tidy", FileHashType::SHA256);
    let lower = digest_hex(&data, false);
    assert_eq!(digest_hex(&data, true), to_ascii_uppercase(&lower));
    assert_eq!(lower.len(), 2 * data.len());
}

#[test]
fn hash_type_names() {
    assert_eq!(FileHashType::MD5.name(), "md5");
    assert_eq!(FileHashType::SHA1.name(), "sha1");
    assert_eq!(FileHashType::SHA256.name(), "sha256");
    assert_eq!(FileHashType::SHA3_224.name(), "sha3-224");
    assert_eq!(FileHashType::SHA3_256.name(), "sha3-256");
    assert_eq!(FileHashType::SHA3_384.name(), "sha3-384");
    assert_eq!(FileHashType::SHA3_512.name(), "sha3-512");
}

#[test]
fn hash_type_name_round_trip() {
    for t in [
        FileHashType::MD5,
        FileHashType::SHA1,
        FileHashType::SHA256,
        FileHashType::SHA3_224,
        FileHashType::SHA3_256,
        FileHashType::SHA3_384,
        FileHashType::SHA3_512,
    ] {
        assert_eq!(FileHashType::from_name(&t.name()), Some(t));
    }
}

#[test]
fn hash_type_unknown_name() {
    assert_eq!(FileHashType::from_name("sha3"), None);
    assert_eq!(FileHashType::from_name("MD5"), None);
    assert_eq!(FileHashType::from_name(""), None);
}

#[test]
fn second_digest_is_another_algorithm() {
    assert_eq!(FileHashType::MD5.second_digest(), FileHashType::SHA1);
    assert_eq!(FileHashType::SHA3_256.second_digest(), FileHashType::MD5);
    assert_eq!(FileHashType::SHA1.second_digest(), FileHashType::MD5);
}

#[test]
fn file_sort_names_round_trip() {
    for s in [FileSort::Name, FileSort::Time, FileSort::Size] {
        assert_eq!(FileSort::from_name(&s.name()), Some(s));
    }
    assert_eq!(FileSort::Time.name(), "time");
    assert_eq!(FileSort::from_name("date"), None);
}

#[test]
fn error_messages() {
    assert_eq!(Error::ParseError("bad".to_string()).message(), "Parse Error: bad");
    assert_eq!(Error::CustomError("oops".to_string()).message(), "Error: oops");
    let io = Error::IoError(std::io::Error::new(std::io::ErrorKind::Other, "disk"));
    assert!(io.message().starts_with("IO Error: "));
}

#[test]
fn error_path_not_found() {
    match Error::path_not_found("/no/such") {
        Error::CustomError(m) => assert_eq!(m, "path does not exist: /no/such"),
        _ => panic!("wrong variant"),
    }
}

#[test]
fn error_source_only_for_io() {
    let io = Error::IoError(std::io::Error::new(std::io::ErrorKind::NotFound, "gone"));
    assert_eq!(io.source().map(|e| e.kind()), Some(std::io::ErrorKind::NotFound));
    assert!(Error::CustomError("x".to_string()).source().is_none());
    assert!(Error::ParseError("x".to_string()).source().is_none());
}

#[test]
fn error_from_conversions() {
    let e: Error = std::io::Error::new(std::io::ErrorKind::Other, "x").into();
    assert!(matches!(e, Error::IoError(_)));
    let e: Error = String::from("msg").into();
    assert!(matches!(e, Error::CustomError(ref m) if m == "msg"));
}

#[test]
fn zero_padding() {
    assert_eq!(zero_pad(7, 3), "007");
    assert_eq!(zero_pad(1, 6), "000001");
    assert_eq!(zero_pad(1234, 2), "1234");
    assert_eq!(zero_pad(0, 0), "0");
    assert_eq!(zero_pad(10, 2), "10");
}

#[test]
fn ascii_case() {
    assert_eq!(to_ascii_uppercase("Jpg-é1"), "JPG-é1");
    assert_eq!(to_ascii_lowercase("JPG-É1"), "jpg-É1");
}

#[test]
fn hidden_names() {
    assert!(is_hidden(".git"));
    assert!(is_hidden("."));
    assert!(!is_hidden("a.txt"));
    assert!(!is_hidden(""));
}

#[test]
fn text_helpers() {
    assert!(str_eq("abc", "abc"));
    assert!(!str_eq("abc", "abd"));
    assert_eq!(chars_of("héj"), vec!['h', 'é', 'j']);
}
