use simplefs::storage::{
    flush_outcome, mac_outcome, parse_byte, write_outcome, DevError, EncryptMode, KeyError,
    OpenAction, SgxStorage, EINVAL,
};

const KEY: &str = "00-01-02-03-04-05-06-07-08-09-0a-0b-0c-0d-0e-ff";

const BYTES: [u8; 16] = [0, 1, 2, 3, 4, 5, 6, 7, 8, 9, 10, 11, 12, 13, 14, 255];

fn with_first(part: &str) -> String {
    format!("{}-01-02-03-04-05-06-07-08-09-0a-0b-0c-0d-0e-ff", part)
}

#[test]
fn modes_from_parameters() {
    let key = Some(String::from(KEY));
    assert_eq!(EncryptMode::from_parameters(true, &None), Ok(EncryptMode::IntegrityOnly));
    assert_eq!(EncryptMode::from_parameters(false, &None), Ok(EncryptMode::EncryptAutoKey));
    assert_eq!(
        EncryptMode::from_parameters(true, &key),
        Ok(EncryptMode::EncryptWithIntegrity(BYTES))
    );
    assert_eq!(EncryptMode::from_parameters(false, &key), Ok(EncryptMode::Encrypt(BYTES)));
    let bad = Some(String::from("nonsense"));
    assert_eq!(EncryptMode::from_parameters(true, &bad), Err(KeyError::Format));
    assert_eq!(EncryptMode::from_parameters(false, &bad), Err(KeyError::Format));
}

#[test]
fn keys() {
    assert_eq!(EncryptMode::parse_key(KEY), Ok(BYTES));
    assert_eq!(EncryptMode::parse_key(&KEY.to_uppercase()), Ok(BYTES));
    assert_eq!(EncryptMode::parse_key(&with_first("+0")), Ok(BYTES));
    assert_eq!(EncryptMode::parse_key(&with_first("0000")), Ok(BYTES));
}

#[test]
fn keys_with_the_wrong_number_of_parts() {
    assert_eq!(EncryptMode::parse_key(""), Err(KeyError::Format));
    assert_eq!(EncryptMode::parse_key("00010203040506070809"), Err(KeyError::Format));
    assert_eq!(EncryptMode::parse_key(&KEY[3..]), Err(KeyError::Format));
    assert_eq!(EncryptMode::parse_key(&format!("{}-", KEY)), Err(KeyError::Format));
    assert_eq!(EncryptMode::parse_key(&format!("-{}", KEY)), Err(KeyError::Format));
    assert_eq!(EncryptMode::parse_key("zz-zz"), Err(KeyError::Format));
}

#[test]
fn keys_with_a_wrong_part() {
    assert_eq!(EncryptMode::parse_key(&with_first("")), Err(KeyError::Empty));
    assert_eq!(EncryptMode::parse_key(&with_first("0g")), Err(KeyError::InvalidDigit));
    assert_eq!(EncryptMode::parse_key(&with_first("100")), Err(KeyError::Overflow));
    let two = "00-zz-100-03-04-05-06-07-08-09-0a-0b-0c-0d-0e-ff";
    assert_eq!(EncryptMode::parse_key(two), Err(KeyError::InvalidDigit));
    let last = "00-01-02-03-04-05-06-07-08-09-0a-0b-0c-0d-0e-";
    assert_eq!(EncryptMode::parse_key(last), Err(KeyError::Empty));
}

#[test]
fn bytes_are_read_as_the_standard_library_reads_them() {
    let alphabet = ["0", "1", "9", "a", "f", "g", "A", "F", "G", "+", "é", " ", "@", "`"];
    let mut strings = vec![String::new()];
    let mut longest = strings.clone();
    for _ in 0..4 {
        let mut next = Vec::new();
        for s in &longest {
            for c in alphabet {
                next.push(format!("{}{}", s, c));
            }
        }
        strings.extend(next.iter().cloned());
        longest = next;
    }
    for s in strings {
        match (parse_byte(s.as_bytes()), u8::from_str_radix(&s, 16)) {
            (Ok(a), Ok(b)) => assert_eq!(a, b, "{:?}", s),
            (Err(a), Err(b)) => assert_eq!(a.message(), b.to_string(), "{:?}", s),
            (a, b) => panic!("{:?}: {:?} {:?}", s, a, b),
        }
    }
}

#[test]
fn the_words_for_a_malformed_key() {
    assert_eq!(KeyError::Format.message(), "The length or format of Key string is invalid");
}

#[test]
fn integrity_is_protected_in_two_modes() {
    let protects = |mode| SgxStorage::new("dir", mode).protect_integrity();
    assert!(protects(EncryptMode::IntegrityOnly));
    assert!(protects(EncryptMode::EncryptWithIntegrity(BYTES)));
    assert!(!protects(EncryptMode::Encrypt(BYTES)));
    assert!(!protects(EncryptMode::EncryptAutoKey));
}

#[test]
fn how_files_are_opened() {
    let storage = SgxStorage::new("some/dir", EncryptMode::IntegrityOnly);
    assert_eq!(storage.path(), "some/dir");
    assert_eq!(storage.file_open(true), Some(OpenAction::CreateIntegrityOnly));
    assert_eq!(storage.file_open(false), Some(OpenAction::OpenIntegrityOnly));
    let storage = SgxStorage::new("some/dir", EncryptMode::EncryptAutoKey);
    assert_eq!(storage.file_open(true), None);
    assert_eq!(storage.file_open(false), None);
}

#[test]
fn outcomes() {
    assert_eq!(write_outcome(5, 5), Ok(5));
    assert_eq!(write_outcome(4, 5), Err(DevError(EINVAL)));
    assert_eq!(EINVAL, 22);
    assert_eq!(flush_outcome(0), Ok(()));
    assert_eq!(flush_outcome(5), Err(DevError(5)));
    assert_eq!(mac_outcome(Some(BYTES)), BYTES);
    assert_eq!(mac_outcome(None), [0u8; 16]);
}
