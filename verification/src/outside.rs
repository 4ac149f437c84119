//! Calls into other crates.
//!
//! Nothing here is proved: each function states what is taken for granted of
//! the call that it makes.

use sha2::Digest;
use vstd::prelude::*;

verus! {

/// The SHA-256 digest of the given bytes.
pub uninterp spec fn sha256_of(bytes: Seq<u8>) -> Seq<u8>;

/// `sha2::Sha256::digest`. The result is a function of the bytes alone, and
/// 32 bytes long.
#[verifier::external_body]
pub(crate) fn sha256(bytes: &Vec<u8>) -> (digest: Vec<u8>)
    ensures
        digest@ == sha256_of(bytes@),
        digest@.len() == 32,
{
    sha2::Sha256::digest(bytes).to_vec()
}

/// The lower-case hexadecimal digit of a number below sixteen.
pub open spec fn hex_digit(value: int) -> char {
    if value < 10 {
        ('0' as u32 + value) as char
    } else {
        ('a' as u32 + (value - 10)) as char
    }
}

/// Two lower-case hexadecimal digits for each byte.
pub open spec fn hex_of(bytes: Seq<u8>) -> Seq<char> {
    Seq::new(
        2 * bytes.len(),
        |i: int|
            if i % 2 == 0 {
                hex_digit(bytes[i / 2] as int / 16)
            } else {
                hex_digit(bytes[i / 2] as int % 16)
            },
    )
}

/// `hex::encode`. Each byte becomes two lower-case hexadecimal digits, the
/// higher half first.
#[verifier::external_body]
pub(crate) fn hex_encode(bytes: &Vec<u8>) -> (text: String)
    ensures
        text@ == hex_of(bytes@),
{
    hex::encode(bytes)
}

/// The hyphenated form of the UUID that a text denotes, if it denotes one.
pub uninterp spec fn uuid_of(text: Seq<char>) -> Option<Seq<char>>;

/// The character is a lower-case hexadecimal digit or a hyphen.
pub open spec fn is_uuid_char(c: char) -> bool {
    ('0' <= c && c <= '9') || ('a' <= c && c <= 'f') || c == '-'
}

/// `uuid::Uuid::parse_str`, and the UUID's hyphenated lower-case text. Which
/// texts denote a UUID is left to the crate; the result is a function of the
/// text alone, and holds 36 lower-case hexadecimal digits and hyphens.
#[verifier::external_body]
pub(crate) fn parse_uuid(text: &str) -> (id: Option<String>)
    ensures
        match id {
            Some(canonical) => {
                &&& uuid_of(text@) == Some(canonical@)
                &&& canonical@.len() == 36
                &&& forall|i: int| 0 <= i < 36 ==> is_uuid_char(#[trigger] canonical@[i])
            },
            None => uuid_of(text@) is None,
        },
{
    match uuid::Uuid::parse_str(text) {
        Ok(id) => Some(id.to_string()),
        Err(_) => None,
    }
}

/// The character has no special meaning in a shell.
pub open spec fn is_plain_in_shell(c: char) -> bool {
    ||| ('a' <= c && c <= 'z')
    ||| ('A' <= c && c <= 'Z')
    ||| ('0' <= c && c <= '9')
    ||| c == '-'
    ||| c == '_'
    ||| c == '='
    ||| c == '/'
    ||| c == ','
    ||| c == '.'
    ||| c == '+'
}

/// The characters inside single quotes: a quote or an exclamation mark leaves
/// the quotes, is escaped, and enters them again.
pub open spec fn inside_quotes(text: Seq<char>) -> Seq<char>
    decreases text.len(),
{
    if text.len() == 0 {
        Seq::empty()
    } else if text.last() == '\'' || text.last() == '!' {
        inside_quotes(text.drop_last()) + seq!['\'', '\\', text.last(), '\'']
    } else {
        inside_quotes(text.drop_last()).push(text.last())
    }
}

/// One word of a shell command that stands for the given text.
pub open spec fn shell_word(text: Seq<char>) -> Seq<char> {
    if text.len() > 0 && forall|i: int| 0 <= i < text.len() ==> is_plain_in_shell(#[trigger] text[i]) {
        text
    } else {
        seq!['\''] + inside_quotes(text) + seq!['\'']
    }
}

/// `shell_escape::unix::escape`. A non-empty text of plain characters stays as
/// it is; any other one is put in single quotes.
#[verifier::external_body]
pub(crate) fn shell_escape(text: &str) -> (word: String)
    ensures
        word@ == shell_word(text@),
{
    shell_escape::unix::escape(text.into()).into_owned()
}

/// The JSON text of a list of texts, in UTF-8, if it has one.
pub uninterp spec fn json_list_of(list: Seq<Seq<char>>) -> Option<Seq<u8>>;

/// `serde_json::to_vec` on a list of texts. The result is a function of the
/// texts alone; which lists have a JSON text is left to the crate.
#[verifier::external_body]
pub(crate) fn json_list(list: &Vec<String>) -> (bytes: Option<Vec<u8>>)
    ensures
        match bytes {
            Some(json) => json_list_of(crate::text::texts(list@)) == Some(json@),
            None => json_list_of(crate::text::texts(list@)) is None,
        },
{
    serde_json::to_vec(list).ok()
}

/// The JSON text of a map from texts to texts, in UTF-8, if it has one.
pub uninterp spec fn json_map_of(map: Map<Seq<char>, Seq<char>>) -> Option<Seq<u8>>;

/// `serde_json::to_vec` on a map from texts to texts that is ordered by its keys.
/// The result is a function of the map alone; which maps have a JSON text is left
/// to the crate.
#[verifier::external_body]
pub(crate) fn json_map(pairs: &Vec<(String, String)>) -> (bytes: Option<Vec<u8>>)
    requires
        crate::text::strictly_sorted(crate::text::keys_of(pairs@)),
    ensures
        match bytes {
            Some(json) => json_map_of(crate::text::map_of(pairs@)) == Some(json@),
            None => json_map_of(crate::text::map_of(pairs@)) is None,
        },
{
    let map: std::collections::BTreeMap<&String, &String> = pairs.iter().map(
        |pair| (&pair.0, &pair.1),
    ).collect();
    serde_json::to_vec(&map).ok()
}

/// The identity, the size and the shared size of the image that a JSON text
/// describes, if it describes one.
pub uninterp spec fn image_entry_of(json: Seq<char>) -> Option<(Seq<char>, i64, i64)>;

/// `serde_json::from_str` into `bollard::models::ImageSummary`. Which texts
/// describe an image is left to the crates; the result is a function of the text
/// alone.
#[verifier::external_body]
pub(crate) fn decode_image_entry(json: &str) -> (entry: Option<(String, i64, i64)>)
    ensures
        match entry {
            Some((id, size, shared_size)) => image_entry_of(json@) == Some((id@, size, shared_size)),
            None => image_entry_of(json@) is None,
        },
{
    match serde_json::from_str::<bollard::models::ImageSummary>(json) {
        Ok(image) => Some((image.id, image.size, image.shared_size)),
        Err(_) => None,
    }
}

/// The name, the driver and the used bytes of the volume that a JSON text
/// describes, if it describes one.
pub uninterp spec fn volume_entry_of(json: Seq<char>) -> Option<(Seq<char>, Seq<char>, Option<i64>)>;

/// `serde_json::from_str` into `bollard::models::Volume`. Which texts describe a
/// volume is left to the crates; the result is a function of the text alone.
#[verifier::external_body]
pub(crate) fn decode_volume_entry(json: &str) -> (entry: Option<(String, String, Option<i64>)>)
    ensures
        match entry {
            Some((name, driver, used_bytes)) => volume_entry_of(json@) == Some(
                (name@, driver@, used_bytes),
            ),
            None => volume_entry_of(json@) is None,
        },
{
    match serde_json::from_str::<bollard::models::Volume>(json) {
        Ok(volume) => Some((volume.name, volume.driver, volume.usage_data.map(|usage| usage.size))),
        Err(_) => None,
    }
}

/// The lower-case form of a text.
pub uninterp spec fn lowercase_of(text: Seq<char>) -> Seq<char>;

/// `str::to_lowercase`. The result is a function of the text alone.
#[verifier::external_body]
pub(crate) fn lowercase(text: &str) -> (lower: String)
    ensures
        lower@ == lowercase_of(text@),
{
    text.to_lowercase()
}

/// What is read from bytes that may be no valid UTF-8.
pub uninterp spec fn lossy_text_of(bytes: Seq<u8>) -> Seq<char>;

/// `String::from_utf8_lossy`. The result is a function of the bytes alone. Valid
/// UTF-8 is read as it is; what stands for the rest is not said.
#[verifier::external_body]
pub(crate) fn lossy_text(bytes: &Vec<u8>) -> (text: String)
    ensures
        text@ == lossy_text_of(bytes@),
        vstd::utf8::valid_utf8(bytes@) ==> vstd::utf8::encode_utf8(text@) == bytes@,
{
    String::from_utf8_lossy(bytes).into_owned()
}

/// `String::from_utf8`. The text whose UTF-8 form the bytes are; nothing if they
/// are not valid UTF-8.
#[verifier::external_body]
pub(crate) fn text_from_utf8(bytes: Vec<u8>) -> (text: Option<String>)
    ensures
        match text {
            Some(contents) => vstd::utf8::valid_utf8(bytes@) && vstd::utf8::encode_utf8(contents@)
                == bytes@,
            None => !vstd::utf8::valid_utf8(bytes@),
        },
{
    String::from_utf8(bytes).ok()
}

/// A running SHA-256 computation. It holds the bytes that were put into it, in
/// order.
#[verifier::external_body]
pub struct StreamDigest {
    hasher: sha2::Sha256,
}

/// The bytes that were put into the computation, in order.
pub uninterp spec fn absorbed(digest: StreamDigest) -> Seq<u8>;

impl StreamDigest {
    /// `sha2::Sha256::new`. Nothing has been put into the computation.
    #[verifier::external_body]
    pub(crate) fn start() -> (digest: StreamDigest)
        ensures
            absorbed(digest) == Seq::<u8>::empty(),
    {
        StreamDigest { hasher: sha2::Sha256::new() }
    }

    /// `sha2::Digest::update`. The bytes are put in behind those before.
    #[verifier::external_body]
    pub(crate) fn update(&mut self, bytes: &Vec<u8>)
        ensures
            absorbed(*final(self)) == absorbed(*old(self)) + bytes@,
    {
        self.hasher.update(bytes);
    }

    /// `sha2::Digest::finalize`. The result is the digest of all bytes that were
    /// put in, the same as of one text that holds them all.
    #[verifier::external_body]
    pub(crate) fn finish(self) -> (digest: Vec<u8>)
        ensures
            digest@ == sha256_of(absorbed(self)),
            digest@.len() == 32,
    {
        self.hasher.finalize().to_vec()
    }
}

} // verus!
