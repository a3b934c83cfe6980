use grizol::device_id::DeviceId;
use grizol::pem::{load_certs, load_private_key, private_key, KeyError, PemItem};

fn section(name: &str, base64: &str) -> String {
    format!("-----BEGIN {name}-----\n{base64}\n-----END {name}-----\n")
}

#[test]
fn certificates_are_read_in_order() {
    let pem = format!(
        "a comment\n{}{}{}",
        section("CERTIFICATE", "Zmlyc3Q="),
        section("EC PRIVATE KEY", "a2V5"),
        section("CERTIFICATE", "c2Vjb25k"),
    );
    assert_eq!(
        load_certs(pem.as_bytes()),
        Some(vec![b"first".to_vec(), b"second".to_vec()])
    );
    assert_eq!(DeviceId::from_pem(pem.as_bytes()), Some(DeviceId::from_certificate(b"first")));
}

#[test]
fn a_device_without_a_certificate_has_no_id() {
    assert_eq!(load_certs(b""), Some(vec![]));
    assert_eq!(DeviceId::from_pem(b""), None);
    assert_eq!(DeviceId::from_pem(section("PRIVATE KEY", "a2V5").as_bytes()), None);
    assert_eq!(load_certs(section("CERTIFICATE", "!").as_bytes()), None);
    assert_eq!(DeviceId::from_pem(b"-----BEGIN CERTIFICATE-----\nYQ==\n"), None);
    assert_eq!(DeviceId::from_certificates(&vec![]), None);
    assert_eq!(
        DeviceId::from_certificates(&vec![b"a".to_vec(), b"b".to_vec()]),
        Some(DeviceId::from_certificate(b"a"))
    );
}

#[test]
fn the_first_key_is_taken() {
    for name in ["RSA PRIVATE KEY", "PRIVATE KEY", "EC PRIVATE KEY"] {
        let pem = format!(
            "{}{}{}{}{}",
            section("CERTIFICATE", "Zmlyc3Q="),
            section("X509 CRL", "Zmlyc3Q="),
            section("ENCRYPTED PRIVATE KEY", "Zmlyc3Q="),
            section(name, "a2V5"),
            section("PRIVATE KEY", "c2Vjb25k"),
        );
        assert_eq!(load_private_key(pem.as_bytes()), Ok(b"key".to_vec()));
    }
}

#[test]
fn what_comes_behind_the_first_key_is_not_read() {
    let key = section("PRIVATE KEY", "a2V5");
    let bad = section("CERTIFICATE", "!");
    assert_eq!(load_private_key(format!("{key}{bad}").as_bytes()), Ok(b"key".to_vec()));
    assert_eq!(load_private_key(format!("{bad}{key}").as_bytes()), Err(KeyError::Unreadable));
    assert_eq!(
        load_private_key(section("CERTIFICATE", "Zmlyc3Q=").as_bytes()),
        Err(KeyError::Missing)
    );
    assert_eq!(load_private_key(b""), Err(KeyError::Missing));
}

#[test]
fn only_keys_count_as_keys() {
    assert_eq!(private_key(PemItem::RsaKey(vec![1])), Some(vec![1]));
    assert_eq!(private_key(PemItem::Pkcs8Key(vec![2])), Some(vec![2]));
    assert_eq!(private_key(PemItem::EcKey(vec![3])), Some(vec![3]));
    assert_eq!(private_key(PemItem::Certificate(vec![4])), None);
    assert_eq!(private_key(PemItem::RevocationList(vec![5])), None);
    assert_eq!(private_key(PemItem::Other), None);
}
