//! Signing a server's challenge with a private key.

use vstd::prelude::*;

use vstd::arithmetic::div_mod::lemma_fundamental_div_mod_converse;

use crate::client::PharosClient;

verus! {

// ---------------------------------------------------------------------------
// Keys and signatures
// ---------------------------------------------------------------------------

/// What `ssh_key::PrivateKey::from_openssh` reads from a text: the secret of
/// an Ed25519 key, nothing for a key of another kind, or the message about a
/// text that is no key.
pub uninterp spec fn openssh_secret(content: Seq<char>) -> Result<Option<Seq<u8>>, Seq<char>>;

/// What `ssh_key::PublicKey::to_openssh` writes of the public half of the
/// private key in a text, or the message about a text that has none.
pub uninterp spec fn openssh_public(content: Seq<char>) -> Result<Seq<char>, Seq<char>>;

/// The Ed25519 signature of a message with a secret, from
/// `ed25519_dalek::SigningKey`.
pub uninterp spec fn ed25519_signature(secret: Seq<u8>, message: Seq<char>) -> Seq<u8>;

/// Reads a private key in OpenSSH's format, with
/// `ssh_key::PrivateKey::from_openssh`.
///
/// The result depends on the text alone. An Ed25519 key that is not encrypted
/// gives its 32 secret bytes.
#[verifier::external_body]
fn read_private_key(content: &str) -> (r: Result<Option<[u8; 32]>, String>)
    ensures
        match r {
            Ok(Some(secret)) => openssh_secret(content@) == Ok::<Option<Seq<u8>>, Seq<char>>(
                Some(secret@),
            ),
            Ok(None) => openssh_secret(content@) == Ok::<Option<Seq<u8>>, Seq<char>>(None),
            Err(m) => openssh_secret(content@) == Err::<Option<Seq<u8>>, Seq<char>>(m@),
        },
{
    match ssh_key::PrivateKey::from_openssh(content) {
        Ok(key) => match key.key_data() {
            ssh_key::private::KeypairData::Ed25519(pair) => Ok(Some(pair.private.to_bytes())),
            _ => Ok(None),
        },
        Err(e) => Err(e.to_string()),
    }
}

/// The public half of a private key in OpenSSH's format, with
/// `ssh_key::PublicKey::to_openssh`.
///
/// The result depends on the text alone.
#[verifier::external_body]
fn read_public_key(content: &str) -> (r: Result<String, String>)
    ensures
        match r {
            Ok(text) => openssh_public(content@) == Ok::<Seq<char>, Seq<char>>(text@),
            Err(m) => openssh_public(content@) == Err::<Seq<char>, Seq<char>>(m@),
        },
{
    match ssh_key::PrivateKey::from_openssh(content) {
        Ok(key) => match key.public_key().to_openssh() {
            Ok(text) => Ok(text),
            Err(e) => Err(e.to_string()),
        },
        Err(e) => Err(e.to_string()),
    }
}

/// Signs the UTF-8 bytes of a message, with `ed25519_dalek::SigningKey`'s
/// `sign`.
///
/// Ed25519 uses no randomness: the signature depends on the secret and the
/// message alone. It has 64 bytes.
#[verifier::external_body]
fn sign(secret: &[u8; 32], message: &str) -> (signature: Vec<u8>)
    ensures
        signature@ == ed25519_signature(secret@, message@),
        signature@.len() == 64,
{
    let key = ed25519_dalek::SigningKey::from_bytes(secret);
    ed25519_dalek::Signer::sign(&key, message.as_bytes()).to_vec()
}

// ---------------------------------------------------------------------------
// Base 64
// ---------------------------------------------------------------------------

/// The character for six bits.
pub open spec fn sextet_char(n: nat) -> char {
    if n < 26 {
        ('A' as nat + n) as char
    } else if n < 52 {
        ('a' as nat + n - 26) as char
    } else if n < 62 {
        ('0' as nat + n - 52) as char
    } else if n == 62 {
        '+'
    } else {
        '/'
    }
}

/// Bytes in base 64: four characters for every three bytes, with `=` in the
/// place of what the last group lacks.
pub open spec fn base64_text(b: Seq<u8>) -> Seq<char>
    decreases b.len(),
{
    if b.len() == 0 {
        Seq::empty()
    } else if b.len() == 1 {
        seq![sextet_char(b[0] as nat / 4), sextet_char(b[0] as nat % 4 * 16), '=', '=']
    } else if b.len() == 2 {
        seq![
            sextet_char(b[0] as nat / 4),
            sextet_char(b[0] as nat % 4 * 16 + b[1] as nat / 16),
            sextet_char(b[1] as nat % 16 * 4),
            '=',
        ]
    } else {
        seq![
            sextet_char(b[0] as nat / 4),
            sextet_char(b[0] as nat % 4 * 16 + b[1] as nat / 16),
            sextet_char(b[1] as nat % 16 * 4 + b[2] as nat / 64),
            sextet_char(b[2] as nat % 64),
        ] + base64_text(b.skip(3))
    }
}

/// Writes bytes in base 64, with the `encode` of
/// `base64::engine::general_purpose::STANDARD`: the standard alphabet, with
/// padding.
///
/// The text must fit in memory, or else `encode` panics.
#[verifier::external_body]
fn base64_encode(bytes: &[u8]) -> (text: String)
    requires
        (bytes@.len() + 2) / 3 * 4 <= isize::MAX,
    ensures
        text@ == base64_text(bytes@),
{
    base64::Engine::encode(&base64::engine::general_purpose::STANDARD, bytes)
}

// ---------------------------------------------------------------------------
// Signing
// ---------------------------------------------------------------------------

/// Why a message could not be signed.
#[derive(Debug)]
pub enum SigningError {
    /// The text is no private key.
    Unreadable(String),
    /// The key is not an Ed25519 key.
    Unsupported,
    /// The public half could not be written.
    NoPublicKey(String),
}

/// A `SigningError` as a value of the specification.
pub enum SigningFault {
    Unreadable(Seq<char>),
    Unsupported,
    NoPublicKey(Seq<char>),
}

impl View for SigningError {
    type V = SigningFault;

    open spec fn view(&self) -> SigningFault {
        match self {
            SigningError::Unreadable(m) => SigningFault::Unreadable(m@),
            SigningError::Unsupported => SigningFault::Unsupported,
            SigningError::NoPublicKey(m) => SigningFault::NoPublicKey(m@),
        }
    }
}

/// What was wrong, in words.
pub open spec fn signing_message(f: SigningFault) -> Seq<char> {
    match f {
        SigningFault::Unreadable(m) => "Failed to parse SSH private key: "@ + m,
        SigningFault::Unsupported =>
            "Unsupported key type for raw signing. Only Ed25519 is supported."@,
        SigningFault::NoPublicKey(m) => "Failed to export public key: "@ + m,
    }
}

impl SigningError {
    /// What was wrong, in words.
    pub fn message(&self) -> (m: String)
        ensures
            m@ == signing_message(self@),
    {
        match self {
            SigningError::Unreadable(reason) => {
                let mut m = "Failed to parse SSH private key: ".to_string();
                m.append(reason.as_str());
                m
            },
            SigningError::Unsupported =>
                "Unsupported key type for raw signing. Only Ed25519 is supported.".to_string(),
            SigningError::NoPublicKey(reason) => {
                let mut m = "Failed to export public key: ".to_string();
                m.append(reason.as_str());
                m
            },
        }
    }
}

/// The secret to sign with, given what a text was read as.
pub open spec fn secret_in(read: Result<Option<Seq<u8>>, Seq<char>>) -> Result<
    Seq<u8>,
    SigningFault,
> {
    match read {
        Ok(Some(secret)) => Ok(secret),
        Ok(None) => Err(SigningFault::Unsupported),
        Err(m) => Err(SigningFault::Unreadable(m)),
    }
}

/// The public key and the signature, given the signature's bytes and what the
/// public half was written as.
pub open spec fn presented(signature: Seq<u8>, public: Result<Seq<char>, Seq<char>>) -> Result<
    (Seq<char>, Seq<char>),
    SigningFault,
> {
    match public {
        Ok(text) => Ok((text, base64_text(signature))),
        Err(m) => Err(SigningFault::NoPublicKey(m)),
    }
}

/// The public key and the signature of a message with the private key in a
/// text.
pub open spec fn signed(content: Seq<char>, message: Seq<char>) -> Result<
    (Seq<char>, Seq<char>),
    SigningFault,
> {
    match secret_in(openssh_secret(content)) {
        Ok(secret) => presented(ed25519_signature(secret, message), openssh_public(content)),
        Err(f) => Err(f),
    }
}

/// The secret to sign with, given what a text was read as.
pub fn take_secret(read: Result<Option<[u8; 32]>, String>) -> (r: Result<[u8; 32], SigningError>)
    ensures
        match read {
            Ok(Some(secret)) => r matches Ok(s) && s@ == secret@,
            Ok(None) => r matches Err(e) && e@ == SigningFault::Unsupported,
            Err(m) => r matches Err(e) && e@ == SigningFault::Unreadable(m@),
        },
{
    match read {
        Ok(Some(secret)) => Ok(secret),
        Ok(None) => Err(SigningError::Unsupported),
        Err(m) => Err(SigningError::Unreadable(m)),
    }
}

/// The public key and the signature as they are sent, given the signature's
/// bytes and what the public half was written as.
pub fn present(signature: &[u8], public: Result<String, String>) -> (r: Result<
    (String, String),
    SigningError,
>)
    requires
        (signature@.len() + 2) / 3 * 4 <= isize::MAX,
    ensures
        match public {
            Ok(text) => r matches Ok(sent) && sent.0@ == text@ && sent.1@ == base64_text(
                signature@,
            ),
            Err(m) => r matches Err(e) && e@ == SigningFault::NoPublicKey(m@),
        },
{
    match public {
        Ok(text) => Ok((text, base64_encode(signature))),
        Err(m) => Err(SigningError::NoPublicKey(m)),
    }
}

impl PharosClient {
    /// Signs a message with the private key in a text: the public key, and the
    /// signature in base 64.
    pub fn sign_with_key(content: &str, message: &str) -> (r: Result<
        (String, String),
        SigningError,
    >)
        ensures
            match r {
                Ok(sent) => signed(content@, message@) == Ok::<
                    (Seq<char>, Seq<char>),
                    SigningFault,
                >((sent.0@, sent.1@)),
                Err(e) => signed(content@, message@) == Err::<
                    (Seq<char>, Seq<char>),
                    SigningFault,
                >(e@),
            },
    {
        match take_secret(read_private_key(content)) {
            Ok(secret) => {
                let signature = sign(&secret, message);
                present(signature.as_slice(), read_public_key(content))
            },
            Err(e) => Err(e),
        }
    }
}

// ---------------------------------------------------------------------------
// What holds of signatures
// ---------------------------------------------------------------------------

/// The characters of base 64, in their order.
pub open spec fn base64_digits() -> Seq<char> {
    "ABCDEFGHIJKLMNOPQRSTUVWXYZabcdefghijklmnopqrstuvwxyz0123456789+/"@
}

/// Bytes are written in base 64, three to four characters: taken as one number,
/// the three are written with four digits to the base of 64, the most
/// significant first. Where fewer are left, noughts take the place of what is
/// missing, and equals signs that of the digits that come of it.
pub proof fn law_base64(a: u8, b: u8, c: u8, rest: Seq<u8>)
    ensures
        base64_text(Seq::empty()) == Seq::<char>::empty(),
        base64_text(seq![a]) == ({
            let n = a as int * 0x10000;
            seq![
                base64_digits()[n / 0x40000 % 64],
                base64_digits()[n / 0x1000 % 64],
                '=',
                '=',
            ]
        }),
        base64_text(seq![a, b]) == ({
            let n = a as int * 0x10000 + b as int * 0x100;
            seq![
                base64_digits()[n / 0x40000 % 64],
                base64_digits()[n / 0x1000 % 64],
                base64_digits()[n / 0x40 % 64],
                '=',
            ]
        }),
        base64_text(seq![a, b, c] + rest) == ({
            let n = a as int * 0x10000 + b as int * 0x100 + c as int;
            seq![
                base64_digits()[n / 0x40000 % 64],
                base64_digits()[n / 0x1000 % 64],
                base64_digits()[n / 0x40 % 64],
                base64_digits()[n % 64],
            ]
        }) + base64_text(rest),
{
    lemma_base64_digits();
    assert((seq![a, b, c] + rest).skip(3) =~= rest);
    assert((seq![a, b, c] + rest)[0] == a && (seq![a, b, c] + rest)[1] == b && (seq![a, b, c]
        + rest)[2] == c);
    lemma_sextets(a as int, 0, 0);
    lemma_sextets(a as int, b as int, 0);
    lemma_sextets(a as int, b as int, c as int);
}

proof fn lemma_sextets(a: int, b: int, c: int)
    requires
        0 <= a < 256,
        0 <= b < 256,
        0 <= c < 256,
    ensures
        ({
            let n = a * 0x10000 + b * 0x100 + c;
            &&& n / 0x40000 % 64 == a / 4
            &&& n / 0x1000 % 64 == a % 4 * 16 + b / 16
            &&& n / 0x40 % 64 == b % 16 * 4 + c / 64
            &&& n % 64 == c % 64
        }),
{
    let n = a * 0x10000 + b * 0x100 + c;
    let (a1, a0) = (a / 4, a % 4);
    let (b1, b0) = (b / 16, b % 16);
    let (c1, c0) = (c / 64, c % 64);
    assert(a == 4 * a1 + a0 && 0 <= a1 < 64 && 0 <= a0 < 4);
    assert(b == 16 * b1 + b0 && 0 <= b1 < 16 && 0 <= b0 < 16);
    assert(c == 64 * c1 + c0 && 0 <= c1 < 4 && 0 <= c0 < 64);
    let upper = 64 * a1 + (16 * a0 + b1);
    let middle = 64 * upper + (4 * b0 + c1);
    lemma_fundamental_div_mod_converse(n, 0x40000, a1, 0x1000 * (16 * a0 + b1) + 0x100 * b0 + c);
    lemma_fundamental_div_mod_converse(a1, 64, 0, a1);
    lemma_fundamental_div_mod_converse(n, 0x1000, upper, 0x100 * b0 + c);
    lemma_fundamental_div_mod_converse(upper, 64, a1, 16 * a0 + b1);
    lemma_fundamental_div_mod_converse(n, 0x40, middle, c0);
    lemma_fundamental_div_mod_converse(middle, 64, upper, 4 * b0 + c1);
}

proof fn lemma_base64_digits()
    ensures
        forall|n: nat| n < 64 ==> #[trigger] sextet_char(n) == base64_digits()[n as int],
        base64_digits().len() == 64,
{
    reveal_strlit("ABCDEFGHIJKLMNOPQRSTUVWXYZabcdefghijklmnopqrstuvwxyz0123456789+/");
}

/// What a private key comes to: only an Ed25519 key signs, one of another kind
/// is reported as not supported, and a text that is none as unreadable.
pub proof fn law_key_read(secret: Seq<u8>, why: Seq<char>)
    ensures
        secret_in(Ok(Some(secret))) == Ok::<Seq<u8>, SigningFault>(secret),
        secret_in(Ok(None)) == Err::<Seq<u8>, SigningFault>(SigningFault::Unsupported),
        secret_in(Err(why)) == Err::<Seq<u8>, SigningFault>(SigningFault::Unreadable(why)),
{
}

/// What is presented is the public half of the key and the signature in base
/// 64, in that order, and nothing where the public half cannot be written.
pub proof fn law_presented(signature: Seq<u8>, public: Seq<char>, why: Seq<char>)
    ensures
        presented(signature, Ok(public)) == Ok::<(Seq<char>, Seq<char>), SigningFault>(
            (public, base64_text(signature)),
        ),
        presented(signature, Err(why)) == Err::<(Seq<char>, Seq<char>), SigningFault>(
            SigningFault::NoPublicKey(why),
        ),
{
}

/// What is signed with a key: where the text is an Ed25519 key whose public
/// half can be written, that half and the signature of the message by the key.
/// Otherwise nothing is, and what is said is the first thing that is wrong.
pub proof fn law_signed(content: Seq<char>, message: Seq<char>)
    ensures
        match (openssh_secret(content), openssh_public(content)) {
            (Ok(Some(secret)), Ok(public)) => signed(content, message) == Ok::<
                (Seq<char>, Seq<char>),
                SigningFault,
            >((public, base64_text(ed25519_signature(secret, message)))),
            (Ok(Some(_)), Err(why)) => signed(content, message) == Err::<
                (Seq<char>, Seq<char>),
                SigningFault,
            >(SigningFault::NoPublicKey(why)),
            (Ok(None), _) => signed(content, message) == Err::<
                (Seq<char>, Seq<char>),
                SigningFault,
            >(SigningFault::Unsupported),
            (Err(why), _) => signed(content, message) == Err::<
                (Seq<char>, Seq<char>),
                SigningFault,
            >(SigningFault::Unreadable(why)),
        },
{
}

/// How it is said that nothing could be signed.
pub proof fn law_signing_messages(why: Seq<char>)
    ensures
        signing_message(SigningFault::Unreadable(why)) == "Failed to parse SSH private key: "@
            + why,
        signing_message(SigningFault::Unsupported)
            == "Unsupported key type for raw signing. Only Ed25519 is supported."@,
        signing_message(SigningFault::NoPublicKey(why)) == "Failed to export public key: "@ + why,
{
}

} // verus!
