//! The `verify` command's input handling: decoding the signature from hex,
//! checking its length against the scheme's, and deciding whether the key
//! URI denotes raw public-key bytes or a secret/public URI string.  Reading
//! the message and running the cryptographic check stay with the caller.

use crate::run_cmd::SharedParams;
use vstd::prelude::*;
use vstd::string::StrSliceExecFns;
use vstd::string::StringExecFns;

verus! {

/// A failure while preparing the verification inputs.
#[derive(Clone, Debug)]
pub enum Error {
    /// A free-form failure message.
    Other(String),
}

/// A hexadecimal digit.
pub open spec fn is_hex_digit(c: char) -> bool {
    ('0' <= c && c <= '9') || ('a' <= c && c <= 'f') || ('A' <= c && c <= 'F')
}

/// The value of one hexadecimal digit.
pub open spec fn hex_digit_val(c: char) -> int {
    if '0' <= c && c <= '9' {
        c as int - '0' as int
    } else if 'a' <= c && c <= 'f' {
        10 + c as int - 'a' as int
    } else if 'A' <= c && c <= 'F' {
        10 + c as int - 'A' as int
    } else {
        0
    }
}

/// A decodable hex string: even length, hexadecimal digits only.
pub open spec fn valid_hex(s: Seq<char>) -> bool {
    s.len() % 2 == 0 && forall|m: int| 0 <= m < s.len() ==> is_hex_digit(#[trigger] s[m])
}

/// The bytes written by a hex string, one per digit pair.
pub open spec fn hex_bytes(s: Seq<char>) -> Seq<u8>
    decreases s.len(),
{
    if s.len() < 2 {
        Seq::empty()
    } else {
        seq![(hex_digit_val(s[0]) * 16 + hex_digit_val(s[1])) as u8] + hex_bytes(
            s.subrange(2, s.len() as int),
        )
    }
}

/// Relies on hex::decode: a string of hexadecimal digits with even length
/// decodes to its byte pairs, anything else is refused.
#[verifier::external_body]
pub fn hex_decode(s: &str) -> (r: Result<Vec<u8>, Error>)
    ensures
        r is Ok <==> valid_hex(s@),
        r matches Ok(v) ==> v@ == hex_bytes(s@),
{
    match hex::decode(s) {
        Ok(v) => Ok(v),
        Err(_) => Err(Error::Other(std::string::String::from("invalid hex input"))),
    }
}

/// The key material named on the command line.
pub enum KeyMaterial {
    /// Raw public-key bytes, given as hex.
    PublicBytes(Vec<u8>),
    /// A secret or public URI to be interpreted by the key scheme.
    Uri(String),
}

/// The decoded inputs of one verification.
pub struct VerificationRequest {
    /// The decoded signature bytes, of the scheme's length.
    pub signature: Vec<u8>,
    /// The key to verify against.
    pub key: KeyMaterial,
}

/// The `verify` command.
pub struct VerifyCmd {
    /// Signature, hex-encoded.
    pub sig: String,
    /// The public or secret key URI; prompted for when absent.
    pub uri: Option<String>,
    /// Message to verify; read from standard input when absent.
    pub message: Option<String>,
    /// The message on standard input is hex-encoded data.
    pub hex: bool,
    /// The options every command shares.
    pub shared_params: SharedParams,
}

/// A URI with a leading `0x` marker stripped.
pub open spec fn spec_strip_hex_prefix(s: Seq<char>) -> Seq<char> {
    if s.len() >= 2 && s[0] == '0' && s[1] == 'x' {
        s.subrange(2, s.len() as int)
    } else {
        s
    }
}

/// Strip a leading `0x` marker, if present.
pub fn strip_hex_prefix(uri: &str) -> (r: &str)
    ensures
        r@ == spec_strip_hex_prefix(uri@),
{
    let n = uri.unicode_len();
    if n >= 2 && uri.get_char(0) == '0' && uri.get_char(1) == 'x' {
        let r = uri.substring_char(2, n);
        proof {
            assert(r@ =~= spec_strip_hex_prefix(uri@));
        }
        r
    } else {
        uri
    }
}

impl VerifyCmd {
    /// Decode the signature and decide the key material: the signature hex
    /// must decode to exactly `expected_sig_len` bytes, and the URI (after
    /// an optional `0x` marker) is taken as raw public-key bytes when it is
    /// itself valid hex, else as a key URI.
    pub fn prepare(&self, expected_sig_len: usize, uri: &str) -> (r: Result<
        VerificationRequest,
        Error,
    >)
        ensures
            r is Ok <==> (valid_hex(self.sig@) && hex_bytes(self.sig@).len() == expected_sig_len),
            r matches Ok(q) ==> q.signature@ == hex_bytes(self.sig@),
            r matches Ok(q) ==> {
                let stripped = spec_strip_hex_prefix(uri@);
                &&& (valid_hex(stripped) ==> (q.key matches KeyMaterial::PublicBytes(b) && b@
                    == hex_bytes(stripped)))
                &&& (!valid_hex(stripped) ==> (q.key matches KeyMaterial::Uri(u) && u@
                    == stripped))
            },
    {
        let sig_data = match hex_decode(self.sig.as_str()) {
            Err(e) => {
                return Err(e);
            },
            Ok(v) => v,
        };
        if sig_data.len() != expected_sig_len {
            return Err(
                Error::Other(String::from_str("signature has an invalid length")),
            );
        }
        let stripped = strip_hex_prefix(uri);
        let key = match hex_decode(stripped) {
            Ok(pubkey_bytes) => KeyMaterial::PublicBytes(pubkey_bytes),
            Err(_) => KeyMaterial::Uri(stripped.to_owned()),
        };
        Ok(VerificationRequest { signature: sig_data, key })
    }
}

} // verus!
