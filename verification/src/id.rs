//! The position identifier: the key of a position in base64, without the two
//! padding characters that every key ends with.
use crate::board::Board;
use crate::codec::{is_decoding, is_key_of};
use crate::position::Position;
use base64::engine::general_purpose;
use base64::Engine;
use vstd::prelude::*;
use vstd::string::*;

verus! {

/// Number of characters of a position identifier.
pub const ID_LENGTH: usize = 14;

/// What a base64 decoder can refuse a text for.
#[verifier::external_type_specification]
#[verifier::external_body]
pub struct ExDecodeError(base64::DecodeError);

/// The text that `base64::engine::general_purpose::STANDARD` encodes the
/// bytes to.
pub uninterp spec fn base64_text(bytes: Seq<u8>) -> Seq<char>;

/// The bytes that `base64::engine::general_purpose::STANDARD` decodes the
/// text to, if it accepts the text.
pub uninterp spec fn base64_bytes(text: Seq<char>) -> Option<Seq<u8>>;

/// Calls `Engine::encode` of `base64::engine::general_purpose::STANDARD` on
/// the ten bytes of a key. Trusted: the result is the text named
/// `base64_text`; it has 16 characters, as ten bytes make three groups of
/// four characters and a padded fourth, and all of them are ASCII.
#[verifier::external_body]
fn base64_encode(key: &[u8; 10]) -> (text: String)
    ensures
        text@ == base64_text(key@),
        text@.len() == 16,
        text.is_ascii(),
{
    general_purpose::STANDARD.encode(key)
}

/// Calls `Engine::decode` of `base64::engine::general_purpose::STANDARD`.
/// Trusted: the bytes are those named `base64_bytes`, and the call fails
/// exactly where there are none.
#[verifier::external_body]
fn base64_decode(text: &str) -> (r: Result<Vec<u8>, base64::DecodeError>)
    ensures
        match r {
            Ok(bytes) => base64_bytes(text@) == Some(bytes@),
            Err(_) => base64_bytes(text@) is None,
        },
{
    general_purpose::STANDARD.decode(text)
}

/// The key of a board.
pub open spec fn key_of(b: Board) -> Seq<u8> {
    choose|key: Seq<u8>| is_key_of(key, b)
}

/// What decoded bytes stand for: a position if they are the ten bytes of a
/// key that holds one.
pub open spec fn is_position_of_bytes<const N: u8>(bytes: Seq<u8>, r: Option<Position<N>>) -> bool {
    if bytes.len() == 10 {
        is_decoding(bytes, r)
    } else {
        r is None
    }
}

/// The first 14 characters of the base64 text of a key.
pub fn id_of_text(text: &str) -> (id: String)
    requires
        text.is_ascii(),
        text@.len() >= 14,
    ensures
        id@ == text@.subrange(0, 14),
{
    let head = text.substring_ascii(0, ID_LENGTH);
    String::from_str(head)
}

impl<const N: u8> Position<N> {
    /// The position identifier: 14 characters that stand for the position
    /// as the side on roll sees it.
    pub fn position_id(&self) -> (id: String)
        requires
            self.wf(),
            self.fits_key(),
        ensures
            id@ == base64_text(key_of(self.board_on_roll())).subrange(0, 14),
    {
        let key = self.encode();
        proof {
            crate::codec::lemma_key_unique(key@, key_of(self.board_on_roll()), self.board_on_roll());
        }
        let b64 = base64_encode(&key);
        id_of_text(b64.as_str())
    }

    /// The position that decoded bytes stand for, with `x` on turn.
    pub fn from_key_bytes(bytes: &Vec<u8>) -> (r: Option<Self>)
        requires
            N <= 127,
        ensures
            is_position_of_bytes(bytes@, r),
    {
        if bytes.len() != 10 {
            return None;
        }
        let mut key = [0u8; 10];
        let mut i: usize = 0;
        while i < 10
            invariant
                i <= 10,
                bytes@.len() == 10,
                forall|j: int| 0 <= j < i ==> key[j] == bytes@[j],
            decreases 10 - i,
        {
            key[i] = bytes[i];
            i += 1;
        }
        assert(key@ =~= bytes@);
        Self::decode(key)
    }

    /// The position that an identifier stands for, with `x` on turn. There
    /// is none if the identifier with its padding is no base64 text, or if
    /// its bytes are no key of a position.
    pub fn from_id(id: &str) -> (r: Option<Self>)
        requires
            N <= 127,
        ensures
            match base64_bytes(id@ + "=="@) {
                Some(bytes) => is_position_of_bytes(bytes, r),
                None => r is None,
            },
    {
        let mut padded = String::from_str(id);
        padded.append("==");
        match base64_decode(padded.as_str()) {
            Ok(bytes) => Self::from_key_bytes(&bytes),
            Err(_) => None,
        }
    }
}

} // verus!
