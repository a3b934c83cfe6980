use grizol::connectivity::verify_client_cert;
use grizol::device_id::{luhn32, luhnify, unluhnify, DeviceId, DeviceIdError};

const ID: &str = "P56IOI7-MZJNU2Y-IQGDREY-DM2MGTI-MGL3BXN-PQ6W5BM-TBBZ4TJ-XZWICQ2";

#[test]
fn an_id_is_written_as_it_was_read() {
    let id = DeviceId::try_from_text(ID).unwrap();
    assert_eq!(id.to_string(), ID);
    assert_eq!(
        DeviceId::try_from_text(&DeviceId::from_certificate(b"abc").to_string()),
        Ok(DeviceId::from_certificate(b"abc"))
    );
}

#[test]
fn the_bytes_of_an_id_are_those_of_its_base32_text() {
    let id = DeviceId::try_from_text(ID).unwrap();
    assert_eq!(id.to_bytes()[..4], [0x7f, 0x7c, 0x87, 0x23]);
    assert_eq!(id.short_id(), u64::from_be_bytes(id.id[..8].try_into().unwrap()));
    assert_eq!(DeviceId::try_from_bytes(&id.to_bytes()), Ok(id));
}

#[test]
fn the_id_of_a_certificate_is_its_digest() {
    let id = DeviceId::from_certificate(b"");
    assert_eq!(
        id.to_bytes(),
        vec![
            0xe3, 0xb0, 0xc4, 0x42, 0x98, 0xfc, 0x1c, 0x14, 0x9a, 0xfb, 0xf4, 0xc8, 0x99, 0x6f,
            0xb9, 0x24, 0x27, 0xae, 0x41, 0xe4, 0x64, 0x9b, 0x93, 0x4c, 0xa4, 0x95, 0x99, 0x1b,
            0x78, 0x52, 0xb8, 0x55
        ]
    );
}

#[test]
fn ids_that_are_wrong_are_refused() {
    assert_eq!(DeviceId::try_from_bytes(&[1; 31]), Err(DeviceIdError::ByteLength(31)));
    assert!(matches!(DeviceId::try_from_text("P56IOI7"), Err(DeviceIdError::Length(_))));
    assert_eq!(
        DeviceId::try_from_text(&ID.replace("P56IOI7", "é56IOI7")),
        Err(DeviceIdError::NotAscii)
    );
    assert_eq!(
        DeviceId::try_from_text(&ID.replace("P56IOI7", "P56!OI7")),
        Err(DeviceIdError::InvalidChar('!'))
    );
    assert!(matches!(
        DeviceId::try_from_text(&ID.replace("MZJNU2Y", "MZJNU2A")),
        Err(DeviceIdError::CheckDigit { found: 'A', expected: 'Y', .. })
    ));
}

#[test]
fn only_trusted_peers_are_accepted() {
    let id = DeviceId::from_certificate(b"cert");
    let trusted = vec![DeviceId::from_certificate(b"other"), id];
    let check = verify_client_cert(&trusted, b"cert");
    assert_eq!(check.client_id, id);
    assert!(check.accepted);
    let check = verify_client_cert(&trusted, b"third");
    assert_eq!(check.client_id, DeviceId::from_certificate(b"third"));
    assert!(!check.accepted);
}

#[test]
fn bits_behind_the_end_are_refused() {
    let plain: String = ID.chars().filter(|c| *c != '-').collect();
    let head = &plain[..54];
    let mut found = vec![];
    for check in "ABCDEFGHIJKLMNOPQRSTUVWXYZ234567".chars() {
        let text = format!("{}R{}", head, check);
        match DeviceId::try_from_text(&text) {
            Err(DeviceIdError::CheckDigit { .. }) => {}
            other => found.push(other),
        }
    }
    assert_eq!(found, vec![Err(DeviceIdError::TrailingBits)]);
}

#[test]
fn an_id_is_read_in_other_spellings() {
    let id = DeviceId::try_from_text(ID).unwrap();
    let plain: String = ID.chars().filter(|c| *c != '-').collect();
    assert_eq!(DeviceId::try_from_text(&ID.to_lowercase()), Ok(id));
    assert_eq!(DeviceId::try_from_text(&plain), Ok(id));
    assert_eq!(DeviceId::try_from_text(&format!(" - {} ", ID.replace('-', " --"))), Ok(id));
    let digits = ID.replace('O', "0").replace('I', "1").replace('B', "8");
    assert_ne!(digits, ID);
    assert_eq!(DeviceId::try_from_text(&digits), Ok(id));
    assert_eq!(DeviceId::try_from_text(&digits.to_lowercase()), Ok(id));
}

#[test]
fn one_wrong_character_is_refused() {
    let plain: Vec<char> = ID.chars().filter(|c| *c != '-').collect();
    for i in 0..plain.len() {
        for c in "ABCDEFGHIJKLMNOPQRSTUVWXYZ234567".chars() {
            let mut wrong = plain.clone();
            wrong[i] = c;
            let text: String = wrong.iter().collect();
            assert_eq!(DeviceId::try_from_text(&text).is_ok(), c == plain[i]);
        }
    }
    let longer: String = plain.iter().chain(['A'].iter()).collect();
    assert_eq!(DeviceId::try_from_text(&longer), Err(DeviceIdError::Length(57)));
}

#[test]
fn the_debug_text_of_an_id_names_the_type() {
    let id = DeviceId { id: [0xFF; 32] };
    let text = "7777777-777777N-7777777-777777N-7777777-777777N-7777777-77777Q4";
    assert_eq!(id.to_string(), text);
    assert_eq!(id.to_debug_string(), format!("DeviceId \"{}\"", text));
}

#[test]
fn errors_have_texts() {
    let refused = |value: &str| DeviceId::try_from_text(value).unwrap_err().to_text(value);
    assert_eq!(
        refused(&ID.replace("P56IOI7", "é56IOI7")),
        "Invalid string provided, only ASCII characters allowed"
    );
    assert_eq!(refused("p5-60"), "P56O: unsupported string length 4");
    assert_eq!(
        refused(&ID.replace("P56IOI7", "P56!OI7")),
        "Invalid char ! in alphabet ['A', 'B', 'C', 'D', 'E', 'F', 'G', 'H', 'I', 'J', 'K', 'L', \
         'M', 'N', 'O', 'P', 'Q', 'R', 'S', 'T', 'U', 'V', 'W', 'X', 'Y', 'Z', '2', '3', '4', \
         '5', '6', '7']"
    );
    assert_eq!(
        refused(&ID.replace("MZJNU2Y", "MZJNU2A")),
        "Incorrect check digit at position 13. Was A, expected Y."
    );
    assert_eq!(
        DeviceId::try_from_bytes(&[1; 31]).unwrap_err().to_text(""),
        "Expected a Vec<u8> of len 32, and got instead: 31"
    );
    let decoded = data_encoding::BASE32.decode(("A".repeat(51) + "B====").as_bytes());
    assert_eq!(DeviceIdError::TrailingBits.to_text(""), decoded.unwrap_err().to_string());
}

#[test]
fn check_digits_are_put_in_and_taken_away() {
    let plain: Vec<char> = "P56IOI7MZJNU2IQGDREYDM2MGTMGL3BXNPQ6W5BTBBZ4TJXZWICQ".chars().collect();
    let with_digits = luhnify(&plain).unwrap();
    let expected: Vec<char> = ID.chars().filter(|c| *c != '-').collect();
    assert_eq!(with_digits, expected);
    assert_eq!(unluhnify(&with_digits), Ok(plain.clone()));
    assert_eq!(luhnify(&vec!['A'; 51]), Err(DeviceIdError::Length(51)));
    assert_eq!(unluhnify(&plain), Err(DeviceIdError::Length(52)));
    assert_eq!(luhn32(&plain[..13]), Ok('Y'));
    assert_eq!(luhn32(&['A', '1']), Err(DeviceIdError::InvalidChar('1')));
}
