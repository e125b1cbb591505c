use po_library::hash::{HASH_BYTES, HASH_LENGTH};
use po_library::{FileHash, FormatError};

const ABC: &str = "ba7816bf8f01cfea414140de5dae2223b00361a396177a9cb410ff61f20015ad";
const EMPTY: &str = "e3b0c44298fc1c149afbf4c8996fb92427ae41e4649b934ca495991b7852b855";

#[test]
fn hash_of_known_contents() {
    assert_eq!(FileHash::from_file(b"abc").encode(), ABC);
    assert_eq!(FileHash::from_file(b"").encode(), EMPTY);
}

#[test]
fn hashing_twice_gives_equal_hashes() {
    let content = vec![7u8; 10_000];
    let first = FileHash::from_file(&content);
    let second = FileHash::from_file(&content);
    assert!(first == second);
    assert_eq!(first.encode(), second.encode());
}

#[test]
fn different_contents_give_different_hashes() {
    let first = FileHash::from_file(b"one");
    let second = FileHash::from_file(b"two");
    assert!(first != second);
    assert_ne!(first.encode(), second.encode());
}

#[test]
fn encoded_hash_has_64_lower_case_digits() {
    let text = FileHash::from_file(b"some photo").encode();
    assert_eq!(text.len(), HASH_LENGTH);
    assert_eq!(HASH_LENGTH, 2 * HASH_BYTES);
    assert!(text.chars().all(|c| c.is_ascii_digit() || ('a'..='f').contains(&c)));
}

#[test]
fn decode_inverts_encode() {
    let hash = FileHash::from_file(b"round trip");
    let decoded = FileHash::decode(&hash.encode()).unwrap();
    assert!(decoded == hash);
    assert_eq!(FileHash::decode(ABC).unwrap().encode(), ABC);
}

#[test]
fn decode_takes_upper_case_digits() {
    let upper = ABC.to_uppercase();
    let decoded = FileHash::decode(&upper).unwrap();
    assert_eq!(decoded.encode(), ABC);
    assert!(decoded == FileHash::from_file(b"abc"));
}

#[test]
fn decode_refuses_wrong_length() {
    assert_eq!(FileHash::decode("").unwrap_err(), FormatError::WrongLength { got: 0 });
    assert_eq!(FileHash::decode("abc").unwrap_err(), FormatError::WrongLength { got: 3 });
    assert_eq!(FileHash::decode(&ABC[..63]).unwrap_err(), FormatError::WrongLength { got: 63 });
    let long = format!("{}0", ABC);
    assert_eq!(FileHash::decode(&long).unwrap_err(), FormatError::WrongLength { got: 65 });
}

#[test]
fn decode_refuses_other_characters() {
    let bad = format!("{}g", &ABC[..63]);
    assert_eq!(FileHash::decode(&bad).unwrap_err(), FormatError::InvalidHex);
    let spaced = format!(" {}", &ABC[..63]);
    assert_eq!(FileHash::decode(&spaced).unwrap_err(), FormatError::InvalidHex);
}

#[test]
fn decode_counts_bytes_not_characters() {
    // 62 digits and one character of two bytes: 64 bytes, 63 characters.
    let text = format!("{}\u{e9}", &ABC[..62]);
    assert_eq!(text.len(), 64);
    assert_eq!(FileHash::decode(&text).unwrap_err(), FormatError::InvalidHex);
    // 64 characters, 65 bytes.
    let text = format!("{}\u{e9}", &ABC[..63]);
    assert_eq!(FileHash::decode(&text).unwrap_err(), FormatError::WrongLength { got: 65 });
}

#[test]
fn clone_keeps_the_hash() {
    let hash = FileHash::from_file(b"copy me");
    let copy = hash.clone();
    assert!(copy == hash);
    assert_eq!(copy.encode(), hash.encode());
}

#[test]
fn hashes_are_ordered_as_their_bytes() {
    let low = FileHash::decode(&format!("00{}", &ABC[2..])).unwrap();
    let mid = FileHash::decode(&format!("0a{}", &ABC[2..])).unwrap();
    let high = FileHash::decode(&format!("ff{}", &ABC[2..])).unwrap();
    let late = FileHash::decode(&format!("{}ff", &ABC[..62])).unwrap();
    let abc = FileHash::decode(ABC).unwrap();
    assert_eq!(low.compare(&mid), -1);
    assert_eq!(high.compare(&mid), 1);
    assert_eq!(mid.compare(&mid.clone()), 0);
    assert_eq!(abc.compare(&late), -1);
    assert!(low < mid && mid < high && low < high);
    assert!(high > low && mid >= mid.clone() && mid <= high);
    assert_eq!(low.partial_cmp(&high), Some(std::cmp::Ordering::Less));
    assert_eq!(low.cmp(&high), std::cmp::Ordering::Less);
    assert_eq!(high.cmp(&low), std::cmp::Ordering::Greater);
    assert_eq!(abc.cmp(&FileHash::from_file(b"abc")), std::cmp::Ordering::Equal);
    let mut hashes = vec![high.clone(), low.clone(), mid.clone()];
    hashes.sort();
    assert!(hashes[0] == low && hashes[1] == mid && hashes[2] == high);
}
