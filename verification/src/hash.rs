//! Content hashes and their hexadecimal text form.

use vstd::prelude::*;
use vstd::std_specs::cmp::PartialEqSpecImpl;
use vstd::utf8::{decode_utf8, encode_utf8, is_ascii_chars, is_ascii_chars_encode_utf8, valid_utf8};

verus! {

/// Number of bytes of a content hash.
pub const HASH_BYTES: usize = 32;

/// Number of characters of a content hash written in hexadecimal.
pub const HASH_LENGTH: usize = 64;

/// The sixteen digits of the text form, by value.
pub open spec fn hex_digits() -> Seq<char> {
    seq!['0', '1', '2', '3', '4', '5', '6', '7', '8', '9', 'a', 'b', 'c', 'd', 'e', 'f']
}

/// The text form of `bytes`: two lower-case digits for each byte, the high
/// half first.
pub open spec fn hex_of(bytes: Seq<u8>) -> Seq<char> {
    Seq::new(
        2 * bytes.len(),
        |i: int|
            if i % 2 == 0 {
                hex_digits()[bytes[i / 2] as int / 16]
            } else {
                hex_digits()[bytes[i / 2] as int % 16]
            },
    )
}

/// Whether `c` is a hexadecimal digit, in either case.
pub open spec fn is_hex_digit(c: char) -> bool {
    ||| '0' <= c <= '9'
    ||| 'a' <= c <= 'f'
    ||| 'A' <= c <= 'F'
}

/// The value of the hexadecimal digit `c`.
pub open spec fn hex_value(c: char) -> int
    recommends
        is_hex_digit(c),
{
    if '0' <= c <= '9' {
        c as int - '0' as int
    } else if 'a' <= c <= 'f' {
        c as int - 'a' as int + 10
    } else {
        c as int - 'A' as int + 10
    }
}

/// Whether `text` is made of hexadecimal digits only.
pub open spec fn all_hex(text: Seq<char>) -> bool {
    forall|i: int| 0 <= i < text.len() ==> is_hex_digit(#[trigger] text[i])
}

/// The bytes that `text` stands for, two digits to a byte.
pub open spec fn unhex(text: Seq<char>) -> Seq<u8>
    recommends
        text.len() % 2 == 0,
        all_hex(text),
{
    Seq::new(
        text.len() / 2,
        |i: int| (16 * hex_value(text[2 * i]) + hex_value(text[2 * i + 1])) as u8,
    )
}

/// The characters that the bytes of an ASCII text stand for.
pub open spec fn bytes_as_chars(bytes: Seq<u8>) -> Seq<char> {
    Seq::new(bytes.len(), |i: int| bytes[i] as char)
}

/// What a text decodes to: the bytes that its digits stand for, if it is made
/// of [`HASH_LENGTH`] hexadecimal digits.
pub open spec fn parse_hash(text: Seq<char>) -> Option<Seq<u8>> {
    if text.len() == HASH_LENGTH && all_hex(text) {
        Some(unhex(text))
    } else {
        None
    }
}

/// How `a` stands to `b` in the order of byte sequences, the first byte
/// counting most: -1 where `a` comes first, 0 where they are equal, 1 where
/// `b` comes first.
pub open spec fn byte_order(a: Seq<u8>, b: Seq<u8>) -> int
    decreases a.len(),
{
    if a.len() == 0 {
        if b.len() == 0 {
            0
        } else {
            -1
        }
    } else if b.len() == 0 {
        1
    } else if a[0] < b[0] {
        -1
    } else if a[0] > b[0] {
        1
    } else {
        byte_order(a.drop_first(), b.drop_first())
    }
}

/// The SHA-256 digest of `data`, as the `sha2` crate computes it.
pub uninterp spec fn sha256(data: Seq<u8>) -> Seq<u8>;

/// The error of `hex::decode`, carried through unread.
#[verifier::external_type_specification]
#[verifier::external_body]
pub struct ExFromHexError(hex::FromHexError);

/// Calls `hex::encode`, which writes each byte as two lower-case hexadecimal
/// digits, the high half first.
#[verifier::external_body]
fn hex_encode(data: &[u8]) -> (text: String)
    ensures
        text@ == hex_of(data@),
{
    hex::encode(data)
}

/// Calls `hex::decode`, which succeeds on an even number of bytes that are
/// all hexadecimal digits, of either case, and then gives one byte for each
/// pair of digits.
#[verifier::external_body]
fn hex_decode(data: &[u8]) -> (bytes: Result<Vec<u8>, hex::FromHexError>)
    ensures
        match bytes {
            Ok(v) => {
                &&& data@.len() % 2 == 0
                &&& all_hex(bytes_as_chars(data@))
                &&& v@ == unhex(bytes_as_chars(data@))
            },
            Err(_) => !(data@.len() % 2 == 0 && all_hex(bytes_as_chars(data@))),
        },
{
    hex::decode(data)
}

/// Calls `sha2::Sha256::digest`, which gives the 32 bytes of the SHA-256
/// digest of `data`.
#[verifier::external_body]
fn sha256_digest(data: &[u8]) -> (digest: Vec<u8>)
    ensures
        digest@ == sha256(data@),
        digest@.len() == HASH_BYTES,
{
    <sha2::Sha256 as sha2::Digest>::digest(data).to_vec()
}

/// Why a text is not the text form of a hash.
#[derive(Debug, Clone, Copy, PartialEq, Eq)]
pub enum FormatError {
    /// The text has `got` bytes where [`HASH_LENGTH`] are needed.
    WrongLength { got: usize },
    /// The text has the right length and a character that is no hexadecimal
    /// digit.
    InvalidHex,
}

/// The hash of a file's content: 32 bytes. Hashes are equal when their bytes
/// are, and ordered as their bytes are, the first byte counting most.
#[derive(Debug, Eq, Ord)]
pub struct FileHash(Vec<u8>);

impl View for FileHash {
    type V = Seq<u8>;

    closed spec fn view(&self) -> Seq<u8> {
        self.0@
    }
}

impl FileHash {
    #[verifier::type_invariant]
    closed spec fn has_hash_length(&self) -> bool {
        self.0@.len() == HASH_BYTES
    }

    /// The hash of a file that holds `content`.
    pub fn from_file(content: &[u8]) -> (hash: FileHash)
        ensures
            hash@ == sha256(content@),
            hash@.len() == HASH_BYTES,
    {
        FileHash(sha256_digest(content))
    }

    /// The hash that `value` is the text form of. Digits of either case are
    /// taken.
    ///
    /// A text that has not [`HASH_LENGTH`] bytes is refused for its length,
    /// any other text with a character that is no hexadecimal digit for that.
    pub fn decode(value: &str) -> (decoded: Result<FileHash, FormatError>)
        ensures
            match decoded {
                Ok(hash) => {
                    &&& value.len() == HASH_LENGTH
                    &&& parse_hash(value@) == Some(hash@)
                },
                Err(FormatError::WrongLength { got }) => {
                    &&& got == value.len()
                    &&& got != HASH_LENGTH
                    &&& parse_hash(value@) is None
                },
                Err(FormatError::InvalidHex) => {
                    &&& value.len() == HASH_LENGTH
                    &&& !all_hex(value@)
                },
            },
    {
        let raw = value.as_bytes();
        proof {
            lemma_text_of_ascii_bytes(value@);
            if all_hex(value@) {
                lemma_hex_text_is_ascii(value@);
                is_ascii_chars_encode_utf8(value@);
                assert(bytes_as_chars(raw@) =~= value@);
            }
        }
        if raw.len() != HASH_LENGTH {
            return Err(FormatError::WrongLength { got: raw.len() });
        }
        match hex_decode(raw) {
            Ok(bytes) => {
                proof {
                    assert forall|i: int| 0 <= i < raw@.len() implies raw@[i] < 128 by {
                        assert(is_hex_digit(bytes_as_chars(raw@)[i]));
                    }
                }
                Ok(FileHash(bytes))
            },
            Err(_) => Err(FormatError::InvalidHex),
        }
    }

    /// How the hash stands to `other` in the order of hashes: -1 where it
    /// comes first, 0 where they are equal, 1 where `other` comes first.
    pub fn compare(&self, other: &FileHash) -> (order: i8)
        ensures
            order == byte_order(self@, other@),
    {
        let mut at: usize = 0;
        assert(self.0@.skip(0) =~= self.0@ && other.0@.skip(0) =~= other.0@);
        while at < self.0.len() && at < other.0.len()
            invariant
                at <= self.0.len(),
                at <= other.0.len(),
                byte_order(self.0@, other.0@) == byte_order(
                    self.0@.skip(at as int),
                    other.0@.skip(at as int),
                ),
            decreases self.0.len() - at,
        {
            let ghost mine = self.0@.skip(at as int);
            let ghost theirs = other.0@.skip(at as int);
            assert(mine[0] == self.0@[at as int] && theirs[0] == other.0@[at as int]);
            if self.0[at] < other.0[at] {
                return -1;
            }
            if self.0[at] > other.0[at] {
                return 1;
            }
            assert(mine.drop_first() =~= self.0@.skip(at + 1));
            assert(theirs.drop_first() =~= other.0@.skip(at + 1));
            at += 1;
        }
        if at < other.0.len() {
            -1
        } else if at < self.0.len() {
            1
        } else {
            0
        }
    }

    /// The text form: 64 lower-case hexadecimal digits.
    pub fn encode(&self) -> (text: String)
        ensures
            text@ == hex_of(self@),
            text@.len() == HASH_LENGTH,
    {
        proof {
            use_type_invariant(self);
        }
        hex_encode(self.0.as_slice())
    }
}

impl Clone for FileHash {
    fn clone(&self) -> (copy: Self)
        ensures
            copy@ == self@,
    {
        proof {
            use_type_invariant(self);
        }
        let bytes = self.0.clone();
        assert(bytes@ =~= self.0@);
        FileHash(bytes)
    }
}

impl PartialEq for FileHash {
    /// Hashes are equal when their bytes are.
    fn eq(&self, other: &Self) -> (same: bool) {
        let same = self.0 == other.0;
        assert(same == (self.0@ =~= other.0@));
        same
    }
}

impl PartialEqSpecImpl for FileHash {
    open spec fn obeys_eq_spec() -> bool {
        true
    }

    open spec fn eq_spec(&self, other: &Self) -> bool {
        self@ == other@
    }
}

/// Hashes are in one place of the order exactly when they are equal.
pub proof fn same_place_is_same_hash(a: Seq<u8>, b: Seq<u8>)
    ensures
        byte_order(a, b) == 0 <==> a == b,
    decreases a.len(),
{
    if a.len() > 0 && b.len() > 0 {
        same_place_is_same_hash(a.drop_first(), b.drop_first());
        if a.drop_first() == b.drop_first() && a[0] == b[0] {
            assert(a =~= seq![a[0]] + a.drop_first());
            assert(b =~= seq![b[0]] + b.drop_first());
        }
    } else if a.len() == 0 && b.len() == 0 {
        assert(a =~= b);
    }
}

/// The text form of a hash decodes to that hash.
pub proof fn decode_inverts_encode(bytes: Seq<u8>)
    requires
        bytes.len() == HASH_BYTES,
    ensures
        parse_hash(hex_of(bytes)) == Some(bytes),
{
    lemma_unhex_of_hex(bytes);
}

/// Each digit of the text form is a hexadecimal digit of the value that it was
/// written for.
proof fn lemma_digit_value(n: int)
    requires
        0 <= n < 16,
    ensures
        is_hex_digit(hex_digits()[n]),
        hex_value(hex_digits()[n]) == n,
{
    let d = hex_digits();
    assert(d[0] == '0' && d[1] == '1' && d[2] == '2' && d[3] == '3');
    assert(d[4] == '4' && d[5] == '5' && d[6] == '6' && d[7] == '7');
    assert(d[8] == '8' && d[9] == '9' && d[10] == 'a' && d[11] == 'b');
    assert(d[12] == 'c' && d[13] == 'd' && d[14] == 'e' && d[15] == 'f');
}

/// The text form of any bytes is made of hexadecimal digits, and stands for
/// those bytes.
pub proof fn lemma_unhex_of_hex(bytes: Seq<u8>)
    ensures
        hex_of(bytes).len() == 2 * bytes.len(),
        all_hex(hex_of(bytes)),
        unhex(hex_of(bytes)) == bytes,
{
    let text = hex_of(bytes);
    assert forall|i: int| 0 <= i < text.len() implies is_hex_digit(#[trigger] text[i]) by {
        let b = bytes[i / 2] as int;
        lemma_digit_value(b / 16);
        lemma_digit_value(b % 16);
    }
    assert forall|k: int| 0 <= k < bytes.len() implies #[trigger] unhex(text)[k] == bytes[k] by {
        let b = bytes[k] as int;
        lemma_digit_value(b / 16);
        lemma_digit_value(b % 16);
        assert((2 * k) / 2 == k && (2 * k) % 2 == 0);
        assert((2 * k + 1) / 2 == k && (2 * k + 1) % 2 == 1);
        assert(text[2 * k] == hex_digits()[b / 16]);
        assert(text[2 * k + 1] == hex_digits()[b % 16]);
        assert(16 * (b / 16) + b % 16 == b);
    }
    assert(unhex(text) =~= bytes);
}

/// Every hexadecimal digit is an ASCII character.
proof fn lemma_hex_text_is_ascii(text: Seq<char>)
    requires
        all_hex(text),
    ensures
        is_ascii_chars(text),
{
    assert forall|i: int| 0 <= i < text.len() implies '\0' <= #[trigger] text[i] <= '\u{7f}' by {
        assert(is_hex_digit(text[i]));
    }
}

/// A text whose UTF-8 bytes are all below 128 has one character for each
/// byte, of the same value.
proof fn lemma_text_of_ascii_bytes(text: Seq<char>)
    ensures
        (forall|i: int| 0 <= i < encode_utf8(text).len() ==> encode_utf8(text)[i] < 128)
            ==> text == bytes_as_chars(encode_utf8(text)),
{
    let bytes = encode_utf8(text);
    vstd::utf8::encode_utf8_valid_utf8(text);
    vstd::utf8::encode_utf8_decode_utf8(text);
    if forall|i: int| 0 <= i < bytes.len() ==> bytes[i] < 128 {
        lemma_decode_ascii_bytes(bytes);
    }
}

/// Valid UTF-8 made of bytes below 128 decodes byte by byte.
proof fn lemma_decode_ascii_bytes(bytes: Seq<u8>)
    requires
        valid_utf8(bytes),
        forall|i: int| 0 <= i < bytes.len() ==> bytes[i] < 128,
    ensures
        decode_utf8(bytes) == bytes_as_chars(bytes),
    decreases bytes.len(),
{
    if bytes.len() > 0 {
        let first = bytes[0];
        let rest = bytes.subrange(1, bytes.len() as int);
        assert(first < 128);
        assert((first & 0x7f) as u32 == first as u32) by (bit_vector)
            requires
                first < 128,
        ;
        assert forall|i: int| 0 <= i < rest.len() implies rest[i] < 128 by {
            assert(rest[i] == bytes[i + 1]);
        }
        lemma_decode_ascii_bytes(rest);
        assert(decode_utf8(bytes) =~= bytes_as_chars(bytes));
    } else {
        assert(decode_utf8(bytes) =~= bytes_as_chars(bytes));
    }
}

} // verus!
