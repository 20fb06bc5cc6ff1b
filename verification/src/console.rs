//! The console: requests to provision and list the keys of users.

use vstd::prelude::*;

use crate::numbers::decimal;
use crate::numbers::decimal_text_of_u64;
use crate::signing::openssh_public;
use crate::signing::openssh_secret;
use crate::signing::signed;
use crate::text::chars_of;
use crate::text::same_text;

verus! {

/// Makes a new Ed25519 key, with `ssh_key::PrivateKey::random` and the
/// operating system's random numbers, and writes its public half and the key
/// itself in OpenSSH's format, with the `to_openssh` of `ssh_key::PublicKey`
/// and of `ssh_key::PrivateKey`.
///
/// Which key it is rests on chance. Of every outcome it is stated that there is
/// a key and that both texts are there, and that the text of the key reads
/// back: as an Ed25519 key, and with the same public half. For this algorithm
/// `random` has no failure, and the two `to_openssh` fail on lengths alone,
/// which are the same for every key. On a system that has no random numbers the
/// call panics; no argument rules that out.
#[verifier::external_body]
fn random_key() -> (r: Result<(Result<String, String>, Result<String, String>), String>)
    ensures
        r is Ok,
        (r->Ok_0).0 is Ok,
        (r->Ok_0).1 is Ok,
        reads_back(as_texts((r->Ok_0).0), as_texts((r->Ok_0).1)),
{
    let mut rng = ssh_key::rand_core::OsRng;
    match ssh_key::PrivateKey::random(&mut rng, ssh_key::Algorithm::Ed25519) {
        Ok(key) => {
            let public = key.public_key().to_openssh().map_err(|e| e.to_string());
            let private = key.to_openssh(ssh_key::LineEnding::LF);
            Ok((public, private.map(|t| t.to_string()).map_err(|e| e.to_string())))
        },
        Err(e) => Err(e.to_string()),
    }
}

/// A text, or why there is none, as sequences of characters.
pub open spec fn as_texts(r: Result<String, String>) -> Result<Seq<char>, Seq<char>> {
    match r {
        Ok(text) => Ok(text@),
        Err(why) => Err(why@),
    }
}

/// The text of a key, where there is one, is that of an Ed25519 key, whose
/// public half is the one given.
pub open spec fn reads_back(
    public: Result<Seq<char>, Seq<char>>,
    private: Result<Seq<char>, Seq<char>>,
) -> bool {
    match private {
        Ok(text) => openssh_secret(text) matches Ok(Some(_)) && (public is Ok ==> openssh_public(text)
            == public),
        Err(_) => true,
    }
}

/// Why a request failed.
#[derive(Debug)]
pub struct RpcError {
    pub code: i32,
    pub message: String,
}

/// An `RpcError` as a value of the specification.
pub struct RpcFault {
    pub code: int,
    pub message: Seq<char>,
}

impl View for RpcError {
    type V = RpcFault;

    open spec fn view(&self) -> RpcFault {
        RpcFault { code: self.code as int, message: self.message@ }
    }
}

/// What the console can do.
#[derive(Debug, Clone, Copy, PartialEq, Eq, Structural)]
pub enum Method {
    ProvisionKey,
    ListKeys,
}

/// The method of a name.
pub open spec fn method_called(name: Seq<char>) -> Option<Method> {
    if name == "mcp.provision_key"@ {
        Some(Method::ProvisionKey)
    } else if name == "mcp.list_keys"@ {
        Some(Method::ListKeys)
    } else {
        None
    }
}

/// The fault of a request for a method that there is not.
pub open spec fn method_not_found() -> RpcFault {
    RpcFault { code: -32601, message: "Method not found"@ }
}

/// The fault of a request that cannot be read.
pub open spec fn parse_fault() -> RpcFault {
    RpcFault { code: -32700, message: "Parse error"@ }
}

/// A fault of the console itself.
pub open spec fn internal_fault(what: Seq<char>, why: Seq<char>) -> RpcFault {
    RpcFault { code: -32603, message: what + why }
}

/// Finds the method of a name.
pub fn route(name: &str) -> (r: Result<Method, RpcError>)
    ensures
        match r {
            Ok(m) => method_called(name@) == Some(m),
            Err(e) => method_called(name@) is None && e@ == method_not_found(),
        },
{
    if same_text(name, "mcp.provision_key") {
        Ok(Method::ProvisionKey)
    } else if same_text(name, "mcp.list_keys") {
        Ok(Method::ListKeys)
    } else {
        Err(RpcError { code: -32601, message: "Method not found".to_string() })
    }
}

/// The error of a request that cannot be read.
pub fn parse_error() -> (e: RpcError)
    ensures
        e@ == parse_fault(),
{
    RpcError { code: -32700, message: "Parse error".to_string() }
}

// ---------------------------------------------------------------------------
// Provisioning
// ---------------------------------------------------------------------------

/// The role that a key is for.
pub fn role_or_default(role: Option<String>) -> (r: String)
    ensures
        r@ == role.deep_view().unwrap_or("user"@),
{
    match role {
        Some(r) => r,
        None => "user".to_string(),
    }
}

/// The directory of the keys.
pub fn keys_directory(named: Option<String>) -> (d: String)
    ensures
        d@ == named.deep_view().unwrap_or("/tmp/pharos_keys"@),
{
    match named {
        Some(d) => d,
        None => "/tmp/pharos_keys".to_string(),
    }
}

/// The name of the file of a public key: its role, and the second in which it
/// was made.
pub open spec fn key_file(role: Seq<char>, seconds: nat) -> Seq<char> {
    role + "_mcp_"@ + decimal(seconds) + ".pub"@
}

/// The name of the file of a public key.
pub fn key_file_name(role: &str, seconds: u64) -> (name: String)
    ensures
        name@ == key_file(role@, seconds as nat),
{
    let mut name = role.to_string();
    name.append("_mcp_");
    name.append(decimal_text_of_u64(seconds).as_str());
    name.append(".pub");
    name
}

/// Why a key could not be provisioned: what failed, and the reason.
#[derive(Debug)]
pub enum ProvisionError {
    /// No key could be made.
    Generate(String),
    /// The directory of the keys could not be made.
    Directory(String),
    /// The public half could not be written out.
    PublicText(String),
    /// The public half could not be saved.
    Save(String),
    /// The key could not be written out.
    PrivateText(String),
}

/// A `ProvisionError` as a value of the specification.
pub enum ProvisionFault {
    Generate(Seq<char>),
    Directory(Seq<char>),
    PublicText(Seq<char>),
    Save(Seq<char>),
    PrivateText(Seq<char>),
}

impl View for ProvisionError {
    type V = ProvisionFault;

    open spec fn view(&self) -> ProvisionFault {
        match self {
            ProvisionError::Generate(why) => ProvisionFault::Generate(why@),
            ProvisionError::Directory(why) => ProvisionFault::Directory(why@),
            ProvisionError::PublicText(why) => ProvisionFault::PublicText(why@),
            ProvisionError::Save(why) => ProvisionFault::Save(why@),
            ProvisionError::PrivateText(why) => ProvisionFault::PrivateText(why@),
        }
    }
}

/// A failure to provision a key, as it is reported.
pub open spec fn reported(f: ProvisionFault) -> RpcFault {
    match f {
        ProvisionFault::Generate(why) => internal_fault("Failed to generate key: "@, why),
        ProvisionFault::Directory(why) => internal_fault(
            "Failed to create keys directory: "@,
            why,
        ),
        ProvisionFault::PublicText(why) => internal_fault(
            "Failed to serialize public key: "@,
            why,
        ),
        ProvisionFault::Save(why) => internal_fault("Failed to save public key: "@, why),
        ProvisionFault::PrivateText(why) => internal_fault(
            "Failed to serialize private key: "@,
            why,
        ),
    }
}

impl ProvisionError {
    /// The error as it is reported.
    pub fn report(&self) -> (e: RpcError)
        ensures
            e@ == reported(self@),
    {
        let (what, why) = match self {
            ProvisionError::Generate(why) => ("Failed to generate key: ", why),
            ProvisionError::Directory(why) => ("Failed to create keys directory: ", why),
            ProvisionError::PublicText(why) => ("Failed to serialize public key: ", why),
            ProvisionError::Save(why) => ("Failed to save public key: ", why),
            ProvisionError::PrivateText(why) => ("Failed to serialize private key: ", why),
        };
        let mut message = what.to_string();
        message.append(why.as_str());
        RpcError { code: -32603, message }
    }
}

/// A key that was just made: its public half and the key itself as texts, or
/// why there is no such text.
pub struct NewKey {
    pub public: Result<String, String>,
    pub private: Result<String, String>,
}

/// The answer to a request for a key.
#[derive(Debug)]
pub struct Provisioned {
    pub status: String,
    pub public_key: String,
    pub private_key: String,
    pub role: String,
    pub path: String,
}

/// Puts together the answer to a request for a key.
pub fn provisioned(public_key: String, private_key: String, role: String, path: String) -> (p:
    Provisioned)
    ensures
        p.status@ == "success"@,
        p.public_key@ == public_key@,
        p.private_key@ == private_key@,
        p.role@ == role@,
        p.path@ == path@,
{
    Provisioned { status: "success".to_string(), public_key, private_key, role, path }
}

impl NewKey {
    /// Makes a key. There always is one, with both of its texts.
    pub fn generate() -> (r: Result<NewKey, ProvisionError>)
        ensures
            r is Ok,
            (r->Ok_0).public is Ok,
            (r->Ok_0).private is Ok,
            reads_back(as_texts((r->Ok_0).public), as_texts((r->Ok_0).private)),
    {
        match random_key() {
            Ok((public, private)) => Ok(NewKey { public, private }),
            Err(why) => Err(ProvisionError::Generate(why)),
        }
    }

    /// The public half.
    pub fn public_key(&self) -> (r: Result<String, ProvisionError>)
        ensures
            match (self.public, r) {
                (Ok(text), Ok(given)) => given@ == text@,
                (Err(why), Err(e)) => e@ == ProvisionFault::PublicText(why@),
                _ => false,
            },
    {
        match &self.public {
            Ok(text) => Ok(text.clone()),
            Err(why) => Err(ProvisionError::PublicText(why.clone())),
        }
    }

    /// The key itself.
    pub fn private_key(&self) -> (r: Result<String, ProvisionError>)
        ensures
            match (self.private, r) {
                (Ok(text), Ok(given)) => given@ == text@,
                (Err(why), Err(e)) => e@ == ProvisionFault::PrivateText(why@),
                _ => false,
            },
    {
        match &self.private {
            Ok(text) => Ok(text.clone()),
            Err(why) => Err(ProvisionError::PrivateText(why.clone())),
        }
    }
}

/// A key that was made signs every message, and what is sent with the signature
/// is the public half that was made with it.
pub proof fn law_new_key_signs(
    public: Seq<char>,
    private: Seq<char>,
    message: Seq<char>,
)
    requires
        reads_back(Ok(public), Ok(private)),
    ensures
        signed(private, message) matches Ok(sent) && sent.0 == public,
{
}

// ---------------------------------------------------------------------------
// Listing
// ---------------------------------------------------------------------------

/// A file name with the extension `pub`.
pub open spec fn is_key_file(name: Seq<char>) -> bool {
    name.len() > 4 && name.skip(name.len() - 4) == ".pub"@
}

/// Whether a file name has the extension `pub`.
pub fn has_key_extension(name: &str) -> (b: bool)
    ensures
        b == is_key_file(name@),
{
    let cs = chars_of(name);
    let n: usize = cs.len();
    if n <= 4 {
        return false;
    }
    proof {
        reveal_strlit(".pub");
        let tail = name@.skip(name@.len() - 4);
        if tail[0] == '.' && tail[1] == 'p' && tail[2] == 'u' && tail[3] == 'b' {
            assert(tail =~= ".pub"@);
        }
    }
    cs[n - 4] == '.' && cs[n - 3] == 'p' && cs[n - 2] == 'u' && cs[n - 1] == 'b'
}

/// The names of the files that hold keys, in the order in which they came.
pub fn list_keys(names: &[String]) -> (keys: Vec<String>)
    ensures
        keys.deep_view() == names.deep_view().filter(|n: Seq<char>| is_key_file(n)),
{
    let ghost all = names.deep_view();
    let ghost keep = |n: Seq<char>| is_key_file(n);
    let mut keys: Vec<String> = Vec::new();
    let mut i: usize = 0;
    proof {
        reveal(Seq::filter);
        assert(keys.deep_view() =~= all.take(0).filter(keep));
    }
    while i < names.len()
        invariant
            i <= names@.len(),
            all == names.deep_view(),
            keep == (|n: Seq<char>| is_key_file(n)),
            keys.deep_view() == all.take(i as int).filter(keep),
        decreases names.len() - i,
    {
        proof {
            reveal(Seq::filter);
            assert(all.take(i + 1).drop_last() =~= all.take(i as int));
            assert(all.take(i + 1).last() == names@[i as int]@);
        }
        if has_key_extension(names[i].as_str()) {
            let ghost before = keys.deep_view();
            keys.push(names[i].clone());
            proof {
                assert(keys.deep_view() =~= before.push(names@[i as int]@));
            }
        }
        i = i + 1;
    }
    proof {
        assert(all.take(i as int) =~= all);
    }
    keys
}

// ---------------------------------------------------------------------------
// Requests
// ---------------------------------------------------------------------------

/// A request, whose identifier is whatever its sender chose.
#[derive(Debug)]
pub struct RpcRequest<I> {
    pub id: Option<I>,
    pub method: String,
}

/// What a request came to.
#[derive(Debug)]
pub enum RpcResult {
    Key(Provisioned),
    Keys(Vec<String>),
}

/// The answer to a request: a result or an error.
#[derive(Debug)]
pub struct RpcResponse<I> {
    pub jsonrpc: String,
    pub id: Option<I>,
    pub result: Option<RpcResult>,
    pub error: Option<RpcError>,
}

/// A request to list the keys, which waits for what is in their directory.
#[derive(Debug)]
pub struct Listing<I> {
    pub id: Option<I>,
}

/// A request for a key, which waits for what providing one comes to.
#[derive(Debug)]
pub struct Provisioning<I> {
    pub id: Option<I>,
}

/// How far a request has got.
#[derive(Debug)]
pub enum Progress<I> {
    /// It is answered.
    Answered(RpcResponse<I>),
    /// The files in the directory of the keys are to be looked up.
    Listing(Listing<I>),
    /// A key is to be made and saved.
    Provisioning(Provisioning<I>),
}

/// What a request comes to, given the files in the directory of the keys and
/// what providing a key comes to, of which its method takes one at most: the
/// keys that are listed, the key that is provided, or a fault.
pub enum Verdict {
    Keys(Seq<Seq<char>>),
    Key(Provisioned),
    Fault(RpcFault),
}

/// What a request for a method comes to.
pub open spec fn verdict_on(
    method: Seq<char>,
    files: Seq<Seq<char>>,
    made: Result<Provisioned, ProvisionError>,
) -> Verdict {
    match method_called(method) {
        None => Verdict::Fault(method_not_found()),
        Some(Method::ListKeys) => Verdict::Keys(files.filter(|n: Seq<char>| is_key_file(n))),
        Some(Method::ProvisionKey) => match made {
            Ok(key) => Verdict::Key(key),
            Err(e) => Verdict::Fault(reported(e@)),
        },
    }
}

impl<I> RpcResponse<I> {
    /// The response goes out to the sender of a request, and says what the
    /// request came to: in its result, or in its error, and never in both.
    pub open spec fn says(&self, id: Option<I>, v: Verdict) -> bool {
        &&& self.jsonrpc@ == "2.0"@
        &&& self.id == id
        &&& match v {
            Verdict::Keys(keys) => self.error is None && (self.result matches Some(
                RpcResult::Keys(listed),
            ) && listed.deep_view() == keys),
            Verdict::Key(key) => self.error is None && self.result == Some(RpcResult::Key(key)),
            Verdict::Fault(f) => self.result is None && (self.error matches Some(e) && e@ == f),
        }
    }
}

/// Takes up a request. One for a method that there is not is answered with an
/// error at once.
pub fn take_up<I>(request: RpcRequest<I>) -> (p: Progress<I>)
    ensures
        match (method_called(request.method@), p) {
            (None, Progress::Answered(r)) => r.says(
                request.id,
                Verdict::Fault(method_not_found()),
            ),
            (Some(Method::ListKeys), Progress::Listing(l)) => l.id == request.id,
            (Some(Method::ProvisionKey), Progress::Provisioning(w)) => w.id == request.id,
            _ => false,
        },
{
    match route(request.method.as_str()) {
        Ok(Method::ListKeys) => Progress::Listing(Listing { id: request.id }),
        Ok(Method::ProvisionKey) => Progress::Provisioning(Provisioning { id: request.id }),
        Err(e) => Progress::Answered(
            RpcResponse {
                jsonrpc: "2.0".to_string(),
                id: request.id,
                result: None,
                error: Some(e),
            },
        ),
    }
}

impl<I> Listing<I> {
    /// Answers with the keys among the files in their directory. There is
    /// always a result, if only an empty list.
    pub fn answer(self, files: &[String]) -> (r: RpcResponse<I>)
        ensures
            r.says(
                self.id,
                Verdict::Keys(files.deep_view().filter(|n: Seq<char>| is_key_file(n))),
            ),
    {
        RpcResponse {
            jsonrpc: "2.0".to_string(),
            id: self.id,
            result: Some(RpcResult::Keys(list_keys(files))),
            error: None,
        }
    }
}

impl<I> Provisioning<I> {
    /// Answers with the key that was provided, or with what failed.
    pub fn answer(self, made: Result<Provisioned, ProvisionError>) -> (r: RpcResponse<I>)
        ensures
            r.says(
                self.id,
                match made {
                    Ok(key) => Verdict::Key(key),
                    Err(e) => Verdict::Fault(reported(e@)),
                },
            ),
    {
        match made {
            Ok(key) => RpcResponse {
                jsonrpc: "2.0".to_string(),
                id: self.id,
                result: Some(RpcResult::Key(key)),
                error: None,
            },
            Err(e) => RpcResponse {
                jsonrpc: "2.0".to_string(),
                id: self.id,
                result: None,
                error: Some(e.report()),
            },
        }
    }
}

/// Answers a request, given the files in the directory of the keys and what
/// providing a key came to. What the request's method does not ask for is left
/// alone.
pub fn process_request<I>(
    request: RpcRequest<I>,
    files: &[String],
    made: Result<Provisioned, ProvisionError>,
) -> (r: RpcResponse<I>)
    ensures
        r.says(request.id, verdict_on(request.method@, files.deep_view(), made)),
{
    match take_up(request) {
        Progress::Answered(r) => r,
        Progress::Listing(l) => l.answer(files),
        Progress::Provisioning(w) => w.answer(made),
    }
}

/// A response has a result or an error, and not both. It says that there is no
/// such method for a method that there is not, and for no other; and a request
/// to list the keys always has a result.
pub proof fn law_response<I>(
    r: RpcResponse<I>,
    id: Option<I>,
    method: Seq<char>,
    files: Seq<Seq<char>>,
    made: Result<Provisioned, ProvisionError>,
)
    requires
        r.says(id, verdict_on(method, files, made)),
    ensures
        r.jsonrpc@ == "2.0"@,
        r.id == id,
        r.result is Some <==> r.error is None,
        (r.error matches Some(e) && e.code == -32601) <==> method != "mcp.provision_key"@ && method
            != "mcp.list_keys"@,
        method == "mcp.list_keys"@ ==> r.result is Some,
{
    reveal_strlit("mcp.provision_key");
    reveal_strlit("mcp.list_keys");
    assert("mcp.provision_key"@.len() != "mcp.list_keys"@.len());
}

/// Which files are keys: those with something before the extension `pub`.
pub proof fn law_key_files(stem: Seq<char>, name: Seq<char>, role: Seq<char>, seconds: nat)
    ensures
        stem.len() > 0 ==> is_key_file(stem + ".pub"@),
        is_key_file(name) ==> name.len() > 4 && name == name.take(name.len() - 4) + ".pub"@,
        !is_key_file(".pub"@),
        is_key_file(key_file(role, seconds)),
        key_file(role, seconds) == role + "_mcp_"@ + decimal(seconds) + ".pub"@,
{
    reveal_strlit(".pub");
    reveal_strlit("_mcp_");
    assert(".pub"@.len() == 4);
    assert("_mcp_"@.len() == 5);
    assert((stem + ".pub"@).skip(stem.len() as int) =~= ".pub"@);
    if is_key_file(name) {
        assert(name =~= name.take(name.len() - 4) + name.skip(name.len() - 4));
    }
    let body = role + "_mcp_"@ + decimal(seconds);
    assert((body + ".pub"@).skip(body.len() as int) =~= ".pub"@);
}

/// Which methods there are, and what a request for another, or one that cannot
/// be read, is answered.
pub proof fn law_methods(name: Seq<char>)
    ensures
        method_called(name) == Some(Method::ProvisionKey) <==> name == "mcp.provision_key"@,
        method_called(name) == Some(Method::ListKeys) <==> name == "mcp.list_keys"@,
        method_called(name) is None <==> name != "mcp.provision_key"@ && name != "mcp.list_keys"@,
        method_not_found().code == -32601 && method_not_found().message == "Method not found"@,
        parse_fault().code == -32700 && parse_fault().message == "Parse error"@,
{
    reveal_strlit("mcp.provision_key");
    reveal_strlit("mcp.list_keys");
    assert("mcp.provision_key"@.len() == 17);
    assert("mcp.list_keys"@.len() == 13);
}

/// What went wrong with a key is reported as an internal error that says what
/// failed and why.
pub proof fn law_reports(why: Seq<char>, f: ProvisionFault)
    ensures
        reported(f).code == -32603,
        reported(ProvisionFault::Generate(why)).message == "Failed to generate key: "@ + why,
        reported(ProvisionFault::Directory(why)).message == "Failed to create keys directory: "@
            + why,
        reported(ProvisionFault::PublicText(why)).message == "Failed to serialize public key: "@
            + why,
        reported(ProvisionFault::Save(why)).message == "Failed to save public key: "@ + why,
        reported(ProvisionFault::PrivateText(why)).message == "Failed to serialize private key: "@
            + why,
{
}

/// What a request comes to: the files that are keys, in the order in which they
/// were listed; the key that was made, or why there is none; and for no method
/// that there is, that it was not found.
pub proof fn law_verdicts(
    method: Seq<char>,
    files: Seq<Seq<char>>,
    made: Result<Provisioned, ProvisionError>,
)
    ensures
        method == "mcp.list_keys"@ ==> verdict_on(method, files, made) == Verdict::Keys(
            files.filter(|n: Seq<char>| is_key_file(n)),
        ),
        method == "mcp.provision_key"@ ==> verdict_on(method, files, made) == (match made {
            Ok(key) => Verdict::Key(key),
            Err(e) => Verdict::Fault(reported(e@)),
        }),
        method != "mcp.list_keys"@ && method != "mcp.provision_key"@ ==> verdict_on(
            method,
            files,
            made,
        ) == Verdict::Fault(method_not_found()),
{
    law_methods(method);
}

} // verus!
