//! How the server is set up: what it needs, where its records are, and how
//! strict it is.

use vstd::prelude::*;

use crate::text::ascii_lower;
use crate::text::is_ascii_text;
use crate::text::lowercase;
use crate::text::same_text;
use crate::text::to_lowercase;

verus! {

/// How strict the server is with its clients.
#[derive(Debug, Clone, Copy, PartialEq, Eq, Structural)]
pub enum SecurityTier {
    Open,
    Protected,
    Scoped,
}

/// The tier that a name in lower case stands for. Any other name is the open
/// tier.
pub open spec fn tier_called(low: Seq<char>) -> SecurityTier {
    if low == "protected"@ {
        SecurityTier::Protected
    } else if low == "scoped"@ {
        SecurityTier::Scoped
    } else {
        SecurityTier::Open
    }
}

/// The tier that a setting names, in any case.
pub fn security_tier(setting: &str) -> (t: SecurityTier)
    ensures
        t == tier_called(lowercase(setting@)),
        is_ascii_text(setting@) ==> t == tier_called(ascii_lower(setting@)),
{
    let low = to_lowercase(setting);
    if same_text(low.as_str(), "protected") {
        SecurityTier::Protected
    } else if same_text(low.as_str(), "scoped") {
        SecurityTier::Scoped
    } else {
        SecurityTier::Open
    }
}

/// Where the records are.
#[derive(Debug)]
pub enum Backend {
    /// At an LDAP server.
    Ldap(String),
    /// In a file.
    File(String),
    /// In memory only.
    Memory,
}

/// Where the records are: at the LDAP server that was named, or else in the
/// file that was named, or else in memory.
pub fn choose_backend(ldap_url: Option<String>, storage_path: Option<String>) -> (b: Backend)
    ensures
        match (ldap_url, storage_path) {
            (Some(url), _) => b == Backend::Ldap(url),
            (None, Some(path)) => b == Backend::File(path),
            (None, None) => b == Backend::Memory,
        },
{
    match (ldap_url, storage_path) {
        (Some(url), _) => Backend::Ldap(url),
        (None, Some(path)) => Backend::File(path),
        (None, None) => Backend::Memory,
    }
}

/// The first of the variables that the server cannot do without, and that is
/// not set.
pub open spec fn first_missing(cert_set: bool, key_set: bool) -> Option<Seq<char>> {
    if !cert_set {
        Some("PHAROS_TLS_CERT"@)
    } else if !key_set {
        Some("PHAROS_TLS_KEY"@)
    } else {
        None
    }
}

/// Checks that the variables are set that the server cannot do without.
pub fn validate_env(cert_set: bool, key_set: bool) -> (r: Result<(), String>)
    ensures
        match (first_missing(cert_set, key_set), r) {
            (None, Ok(())) => true,
            (Some(name), Err(m)) => m@ == "Mandatory environment variable "@ + name
                + " is missing"@,
            _ => false,
        },
{
    if cert_set && key_set {
        return Ok(());
    }
    let mut m = "Mandatory environment variable ".to_string();
    if !cert_set {
        m.append("PHAROS_TLS_CERT");
    } else {
        m.append("PHAROS_TLS_KEY");
    }
    m.append(" is missing");
    Err(m)
}

/// The number of bytes in a number of gigabytes, where it is not too large for
/// 64 bits.
pub fn gigabytes(n: u64) -> (r: Option<u64>)
    ensures
        match r {
            Some(bytes) => bytes == n * 0x4000_0000,
            None => n * 0x4000_0000 > u64::MAX,
        },
{
    n.checked_mul(0x4000_0000)
}

/// The directory of the keys that the server knows.
pub fn server_keys_directory(named: Option<String>) -> (d: String)
    ensures
        d@ == named.deep_view().unwrap_or("./keys"@),
{
    match named {
        Some(d) => d,
        None => "./keys".to_string(),
    }
}

/// The names of the clients that may only read.
pub fn read_only_ids() -> (ids: Vec<String>)
    ensures
        ids.deep_view() == seq!["guest"@],
{
    let ids = vec!["guest".to_string()];
    proof {
        assert(ids.deep_view() =~= seq!["guest"@]);
    }
    ids
}

/// How a server is protected is named in any case, and a name that is neither
/// of the two that protect it leaves it open.
pub proof fn law_tiers(setting: Seq<char>)
    ensures
        tier_called(lowercase(setting)) == SecurityTier::Protected <==> lowercase(setting)
            == "protected"@,
        tier_called(lowercase(setting)) == SecurityTier::Scoped <==> lowercase(setting)
            == "scoped"@,
        tier_called(lowercase(setting)) == SecurityTier::Open <==> lowercase(setting)
            != "protected"@ && lowercase(setting) != "scoped"@,
{
    reveal_strlit("protected");
    reveal_strlit("scoped");
    assert("protected"@.len() == 9);
    assert("scoped"@.len() == 6);
}

/// A server cannot do without the certificate and the key: nothing is missing
/// exactly where both are set, and what is missing is named, the certificate
/// first.
pub proof fn law_missing(cert_set: bool, key_set: bool)
    ensures
        first_missing(cert_set, key_set) is None <==> cert_set && key_set,
        !cert_set ==> first_missing(cert_set, key_set) == Some("PHAROS_TLS_CERT"@),
        cert_set && !key_set ==> first_missing(cert_set, key_set) == Some("PHAROS_TLS_KEY"@),
{
}

} // verus!
