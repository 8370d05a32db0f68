//! The request logic of the upload and download endpoints.
use vstd::prelude::*;
use vstd::string::*;
use vstd::utf8::{
    encode_scalar, encode_utf8, has_width_2_encoding, has_width_3_encoding, is_ascii_chars,
    is_ascii_chars_encode_utf8,
};
use sha1::Digest;
use crate::error::AppError;
use crate::reply::{
    text_reply, text_response, BodyView, HttpReply, ReplyBody, ReplyHeader, ReplyView,
    STATUS_CREATED, STATUS_NOT_MODIFIED, STATUS_OK,
};
use crate::storage::{LocalDiskStore, StoreKey, StoredArtifact};

verus! {

/// Application state shared across all routes.
#[derive(Debug, Clone)]
pub struct AppState {
    /// The storage backend.
    pub store: LocalDiskStore,
    /// The secret key required for uploads.
    pub api_key: String,
}

/// Path parameters of the upload endpoint.
#[derive(Debug)]
pub struct UploadParams {
    /// The organization ID.
    pub org_id: String,
    /// The repository ID.
    pub repo_id: String,
    /// The version of the artifact.
    pub version: String,
}

/// Path parameters of the download endpoint.
#[derive(Debug)]
pub struct DownloadParams {
    /// The organization ID.
    pub org_id: String,
    /// The repository ID.
    pub repo_id: String,
    /// The file path within the repository.
    pub file_path: String,
}

// ----- Header values -----

/// A byte that may stand in a header value that reads as text: a visible
/// ASCII character, a space or a tab.
pub open spec fn is_visible_ascii(b: u8) -> bool {
    (32 <= b && b < 127) || b == 9
}

/// Whether a header value, read as text, is exactly `expected`: every byte is
/// visible ASCII (otherwise the value does not read as text at all) and the
/// bytes are those of `expected`.
pub open spec fn header_value_is(value: Seq<u8>, expected: Seq<u8>) -> bool {
    &&& forall|i: int| 0 <= i < value.len() ==> is_visible_ascii(#[trigger] value[i])
    &&& value == expected
}

/// Whether a request header, which may be missing, reads as exactly `expected`.
pub open spec fn header_holds(header: Option<Seq<u8>>, expected: Seq<u8>) -> bool {
    match header {
        Some(v) => header_value_is(v, expected),
        None => false,
    }
}

/// The bytes of a header that may be missing.
pub open spec fn header_bytes(header: Option<&[u8]>) -> Option<Seq<u8>> {
    match header {
        Some(v) => Some(v@),
        None => None,
    }
}

/// Tells whether a header value reads as text that is exactly `expected`.
pub fn header_value_matches(value: &[u8], expected: &[u8]) -> (r: bool)
    ensures
        r == header_value_is(value@, expected@),
{
    let mut i: usize = 0;
    while i < value.len()
        invariant
            i <= value@.len(),
            forall|j: int| 0 <= j < i ==> is_visible_ascii(#[trigger] value@[j]),
        decreases value@.len() - i,
    {
        let b = value[i];
        if !((32 <= b && b < 127) || b == 9) {
            return false;
        }
        i = i + 1;
    }
    if value.len() != expected.len() {
        return false;
    }
    let mut k: usize = 0;
    while k < value.len()
        invariant
            k <= value@.len(),
            value@.len() == expected@.len(),
            forall|j: int| 0 <= j < k ==> value@[j] == expected@[j],
        decreases value@.len() - k,
    {
        if value[k] != expected[k] {
            return false;
        }
        k = k + 1;
    }
    assert(value@ =~= expected@);
    true
}

// ----- Upload -----

/// The credential an upload must carry in its `Authorization` header.
pub open spec fn bearer_credential(api_key: Seq<char>) -> Seq<char> {
    "Bearer "@ + api_key
}

/// Whether an upload with this `Authorization` header is allowed: the header
/// reads as exactly `Bearer ` followed by the API key.
pub open spec fn upload_authorized(auth_header: Option<Seq<u8>>, api_key: Seq<char>) -> bool {
    header_holds(auth_header, encode_utf8(bearer_credential(api_key)))
}

/// Tells whether an upload with this `Authorization` header is allowed.
pub fn authorize_upload(auth_header: Option<&[u8]>, api_key: &str) -> (ok: bool)
    ensures
        ok == upload_authorized(header_bytes(auth_header), api_key@),
        ok == header_holds(header_bytes(auth_header), encode_utf8("Bearer "@ + api_key@)),
{
    let expected = String::from_str("Bearer ").concat(api_key);
    match auth_header {
        Some(v) => header_value_matches(v, expected.as_str().as_bytes()),
        None => false,
    }
}

/// The key under which an upload stores its artifact:
/// `{org_id}/{repo_id}/{version}/artifact.bin`.
pub open spec fn upload_key_text(org_id: Seq<char>, repo_id: Seq<char>, version: Seq<char>) -> Seq<
    char,
> {
    org_id + "/"@ + repo_id + "/"@ + version + "/artifact.bin"@
}

/// The key under which an upload stores its artifact.
pub fn upload_key(params: &UploadParams) -> (key: StoreKey)
    ensures
        key@ == upload_key_text(params.org_id@, params.repo_id@, params.version@),
        key@ == params.org_id@ + "/"@ + params.repo_id@ + "/"@ + params.version@
            + "/artifact.bin"@,
{
    let mut path = String::from_str(params.org_id.as_str());
    path.append("/");
    path.append(params.repo_id.as_str());
    path.append("/");
    path.append(params.version.as_str());
    path.append("/artifact.bin");
    StoreKey::new(path)
}

/// What to do with an upload request: refuse it as unauthorized, or store
/// its body under the returned key.
pub fn plan_upload(auth_header: Option<&[u8]>, state: &AppState, params: &UploadParams) -> (r:
    Result<StoreKey, AppError>)
    ensures
        r is Ok <==> upload_authorized(header_bytes(auth_header), state.api_key@),
        r matches Ok(key) ==> key@ == upload_key_text(
            params.org_id@,
            params.repo_id@,
            params.version@,
        ),
        r matches Err(e) ==> e is Unauthorized,
{
    if !authorize_upload(auth_header, state.api_key.as_str()) {
        return Err(AppError::Unauthorized);
    }
    Ok(upload_key(params))
}

/// The reply to an upload once its body has been stored, or has failed to be.
pub fn upload_reply(stored: Result<(), AppError>) -> (r: HttpReply)
    ensures
        match stored {
            Ok(_) => r@ == text_reply(STATUS_CREATED, "Uploaded successfully"@),
            Err(e) => e.is_error_reply(r@),
        },
{
    match stored {
        Ok(()) => text_response(STATUS_CREATED, String::from_str("Uploaded successfully")),
        Err(e) => e.error_response(),
    }
}

// ----- Download -----

/// The key under which a download looks up its artifact:
/// `{org_id}/{repo_id}/{file_path}`.
pub open spec fn download_key_text(org_id: Seq<char>, repo_id: Seq<char>, file_path: Seq<char>) -> Seq<
    char,
> {
    org_id + "/"@ + repo_id + "/"@ + file_path
}

/// The key under which a download looks up its artifact.
pub fn download_key(params: &DownloadParams) -> (key: StoreKey)
    ensures
        key@ == download_key_text(params.org_id@, params.repo_id@, params.file_path@),
        key@ == params.org_id@ + "/"@ + params.repo_id@ + "/"@ + params.file_path@,
{
    let mut path = String::from_str(params.org_id.as_str());
    path.append("/");
    path.append(params.repo_id.as_str());
    path.append("/");
    path.append(params.file_path.as_str());
    StoreKey::new(path)
}


/// The SHA-1 digest of `data`.
pub uninterp spec fn sha1_of(data: Seq<u8>) -> Seq<u8>;

/// Computes the SHA-1 digest of `data` with the `sha1` crate
/// (`Sha1::digest`). Trusted: the result is the digest of `data`, twenty bytes
/// long, as the crate's output size `U20` fixes.
#[verifier::external_body]
fn sha1_digest(data: &[u8]) -> (digest: Vec<u8>)
    ensures
        digest@ == sha1_of(data@),
        digest@.len() == 20,
{
    sha1::Sha1::digest(data).to_vec()
}

/// The ASCII code of the lowercase hexadecimal digit for `n` (below 16).
pub open spec fn hex_digit(n: u8) -> u8 {
    if n < 10 {
        (48 + n) as u8
    } else {
        (87 + n) as u8
    }
}

/// The lowercase hexadecimal text of `bytes`: two digits per byte, the high
/// half first.
pub open spec fn lower_hex(bytes: Seq<u8>) -> Seq<u8> {
    Seq::new(
        2 * bytes.len(),
        |i: int|
            if i % 2 == 0 {
                hex_digit(bytes[i / 2] / 16)
            } else {
                hex_digit(bytes[i / 2] % 16)
            },
    )
}

/// The entity tag of an artifact whose digest is `digest`: the digest in
/// lowercase hexadecimal between double quotes.
pub open spec fn etag_of_digest(digest: Seq<u8>) -> Seq<u8> {
    seq![34u8] + lower_hex(digest) + seq![34u8]
}

/// The ASCII code of the lowercase hexadecimal digit for `n`.
fn hex_digit_byte(n: u8) -> (d: u8)
    requires
        n < 16,
    ensures
        d == hex_digit(n),
{
    if n < 10 {
        48 + n
    } else {
        87 + n
    }
}

/// The entity tag of an artifact whose digest is `digest`.
pub fn etag_for_digest(digest: &[u8]) -> (etag: Vec<u8>)
    ensures
        etag@ == etag_of_digest(digest@),
{
    let mut etag: Vec<u8> = Vec::new();
    etag.push(34u8);
    let mut i: usize = 0;
    while i < digest.len()
        invariant
            i <= digest@.len(),
            etag@.len() == 1 + 2 * i,
            etag@[0] == 34u8,
            forall|k: int| 0 <= k < 2 * i ==> #[trigger] etag@[1 + k] == lower_hex(digest@)[k],
        decreases digest@.len() - i,
    {
        let b = digest[i];
        etag.push(hex_digit_byte(b / 16));
        etag.push(hex_digit_byte(b % 16));
        proof {
            assert forall|k: int| 0 <= k < 2 * (i + 1) implies #[trigger] etag@[1 + k] == lower_hex(
                digest@,
            )[k] by {
                if k >= 2 * i {
                    assert(k / 2 == i);
                }
            }
        }
        i = i + 1;
    }
    etag.push(34u8);
    proof {
        let want = etag_of_digest(digest@);
        assert(want.len() == etag@.len());
        assert forall|j: int| 0 <= j < etag@.len() implies etag@[j] == want[j] by {
            if 1 <= j < etag@.len() - 1 {
                assert(etag@[1 + (j - 1)] == lower_hex(digest@)[j - 1]);
            }
        }
        assert(etag@ =~= want);
    }
    etag
}

/// The entity tag of an artifact with content `data`: its SHA-1 digest in
/// lowercase hexadecimal between double quotes.
pub fn compute_etag(data: &[u8]) -> (etag: Vec<u8>)
    ensures
        etag@ == etag_of_digest(sha1_of(data@)),
        sha1_of(data@).len() == 20,
        etag@.len() == 42,
{
    let digest = sha1_digest(data);
    proof {
        lemma_etag_shape(digest@);
    }
    etag_for_digest(digest.as_slice())
}

/// Tells whether a conditional download can be answered with "not modified":
/// its `If-None-Match` header reads as exactly the artifact's entity tag.
pub fn is_not_modified(etag: &[u8], if_none_match: Option<&[u8]>) -> (r: bool)
    ensures
        r == header_holds(header_bytes(if_none_match), etag@),
{
    match if_none_match {
        Some(v) => header_value_matches(v, etag),
        None => false,
    }
}

/// The reply "not modified": status 304, no headers, no body.
pub open spec fn not_modified_reply() -> ReplyView {
    ReplyView { status: STATUS_NOT_MODIFIED, headers: Seq::empty(), body: BodyView::Empty }
}

/// Where a download stands once its artifact has been looked up.
#[derive(Debug)]
pub enum DownloadStep {
    /// The download is answered with this reply.
    Reply(HttpReply),
    /// The artifact is sent in full, with this entity tag and timestamp.
    Fresh { data: Vec<u8>, etag: Vec<u8>, modified: Option<u64> },
}

/// Whether `step` is where a download of `artifact`, whose digest is
/// `digest`, stands given its `If-None-Match` header.
pub open spec fn is_artifact_step(
    step: DownloadStep,
    artifact: StoredArtifact,
    digest: Seq<u8>,
    if_none_match: Option<Seq<u8>>,
) -> bool {
    if header_holds(if_none_match, etag_of_digest(digest)) {
        step matches DownloadStep::Reply(r) && r@ == not_modified_reply()
    } else {
        step matches DownloadStep::Fresh { data, etag, modified } && data@ == artifact.data@
            && etag@ == etag_of_digest(digest) && modified == artifact.modified
    }
}

/// Where a download of `artifact` stands, given the digest of its content.
pub fn check_artifact(artifact: StoredArtifact, digest: &[u8], if_none_match: Option<&[u8]>) -> (step:
    DownloadStep)
    ensures
        is_artifact_step(step, artifact, digest@, header_bytes(if_none_match)),
        header_bytes(if_none_match) == Some(etag_of_digest(digest@)) <==> step is Reply,
{
    let etag = etag_for_digest(digest);
    proof {
        lemma_etag_shape(digest@);
    }
    if is_not_modified(etag.as_slice(), if_none_match) {
        let r = HttpReply { status: STATUS_NOT_MODIFIED, headers: Vec::new(), body: ReplyBody::Empty };
        assert(r@.headers =~= Seq::<(ReplyHeader, Seq<u8>)>::empty());
        DownloadStep::Reply(r)
    } else {
        DownloadStep::Fresh { data: artifact.data, etag, modified: artifact.modified }
    }
}

/// Where a download stands once the store has been asked for its artifact:
/// a store failure is answered with its error, a missing artifact with
/// "not found", an artifact whose entity tag the client already holds with
/// "not modified"; otherwise the artifact is sent.
pub fn check_download(found: Result<Option<StoredArtifact>, AppError>, if_none_match: Option<&[u8]>) -> (step:
    DownloadStep)
    ensures
        match found {
            Err(e) => step matches DownloadStep::Reply(r) && e.is_error_reply(r@),
            Ok(None) => step matches DownloadStep::Reply(r) && AppError::NotFound.is_error_reply(r@),
            Ok(Some(artifact)) => is_artifact_step(
                step,
                artifact,
                sha1_of(artifact.data@),
                header_bytes(if_none_match),
            ) && sha1_of(artifact.data@).len() == 20,
        },
{
    match found {
        Err(e) => DownloadStep::Reply(e.error_response()),
        Ok(None) => DownloadStep::Reply(AppError::NotFound.error_response()),
        Ok(Some(artifact)) => {
            let digest = sha1_digest(artifact.data.as_slice());
            check_artifact(artifact, digest.as_slice(), if_none_match)
        },
    }
}

/// The first second that an HTTP date cannot express (the year 10000).
pub const HTTP_DATE_END: u64 = 253402300800;

/// The HTTP date (IMF-fixdate) of the given second since the Unix epoch.
pub uninterp spec fn http_date_of(secs: u64) -> Seq<u8>;

/// Formats a time as an HTTP date with `httpdate::fmt_http_date`. Trusted:
/// the result is the date text of `secs`, 29 bytes of visible ASCII (the
/// crate fills a fixed 29-byte template with day and month names, digits,
/// spaces, a comma and colons). The function panics on times
/// from the year 10000 on, which `requires` leaves out.
#[verifier::external_body]
fn http_date(secs: u64) -> (text: Vec<u8>)
    requires
        secs < HTTP_DATE_END,
    ensures
        text@ == http_date_of(secs),
        text@.len() == 29,
        forall|i: int| 0 <= i < text@.len() ==> is_visible_ascii(#[trigger] text@[i]),
{
    httpdate::fmt_http_date(std::time::UNIX_EPOCH + std::time::Duration::from_secs(secs)).into_bytes()
}

/// The value of the `Cache-Control` header of a downloaded artifact.
pub open spec fn cache_control_value() -> Seq<u8> {
    encode_utf8("public, max-age=3600"@)
}

/// The reply that sends an artifact: status 200, its entity tag, its
/// modification date and the caching policy as headers, its content as body.
pub open spec fn artifact_reply(data: Seq<u8>, etag: Seq<u8>, last_modified: Seq<u8>) -> ReplyView {
    ReplyView {
        status: STATUS_OK,
        headers: seq![
            (ReplyHeader::ETag, etag),
            (ReplyHeader::LastModified, last_modified),
            (ReplyHeader::CacheControl, cache_control_value()),
        ],
        body: BodyView::Bytes(data),
    }
}

/// Builds the reply that sends an artifact, given its formatted date.
pub fn artifact_response(data: Vec<u8>, etag: Vec<u8>, last_modified: Vec<u8>) -> (r: HttpReply)
    ensures
        r@ == artifact_reply(data@, etag@, last_modified@),
{
    let ghost (d, e, l) = (data@, etag@, last_modified@);
    let cache = vstd::slice::slice_to_vec("public, max-age=3600".as_bytes());
    let mut headers: Vec<(ReplyHeader, Vec<u8>)> = Vec::new();
    headers.push((ReplyHeader::ETag, etag));
    headers.push((ReplyHeader::LastModified, last_modified));
    headers.push((ReplyHeader::CacheControl, cache));
    let r = HttpReply { status: STATUS_OK, headers, body: ReplyBody::Bytes(data) };
    assert(r@.headers =~= artifact_reply(d, e, l).headers);
    r
}

/// The reply that sends an artifact last modified `modified` seconds after
/// the Unix epoch.
pub fn fresh_reply(data: Vec<u8>, etag: Vec<u8>, modified: u64) -> (r: HttpReply)
    requires
        modified < HTTP_DATE_END,
    ensures
        r@ == artifact_reply(data@, etag@, http_date_of(modified)),
        http_date_of(modified).len() == 29,
{
    let last_modified = http_date(modified);
    artifact_response(data, etag, last_modified)
}


// ----- Laws -----

/// An upload is accepted exactly when its `Authorization` header carries the
/// bytes of `Bearer ` followed by the API key; a request without the header
/// is always refused.
pub proof fn lemma_only_the_credential_is_accepted(auth_header: Option<Seq<u8>>, api_key: Seq<char>)
    ensures
        upload_authorized(auth_header, api_key) ==> auth_header == Some(
            encode_utf8("Bearer "@ + api_key),
        ),
        auth_header is None ==> !upload_authorized(auth_header, api_key),
{
}

/// When the API key consists of visible ASCII characters, spaces and tabs, a
/// request that carries `Bearer ` followed by the key is accepted.
pub proof fn lemma_the_credential_is_accepted(api_key: Seq<char>)
    requires
        forall|i: int|
            0 <= i < api_key.len() ==> (' ' <= #[trigger] api_key[i] <= '~') || api_key[i] == '\t',
    ensures
        upload_authorized(Some(encode_utf8("Bearer "@ + api_key)), api_key),
{
    reveal_strlit("Bearer ");
    assert(bearer_credential(api_key) == "Bearer "@ + api_key);
    let text = bearer_credential(api_key);
    assert forall|i: int|
        0 <= i < text.len() implies (' ' <= #[trigger] text[i] <= '~') || text[i] == '\t' by {
        if i >= 7 {
            assert(text[i] == api_key[i - 7]);
        }
    }
    assert(is_ascii_chars(text));
    is_ascii_chars_encode_utf8(text);
    let bytes = encode_utf8(text);
    assert forall|i: int| 0 <= i < bytes.len() implies is_visible_ascii(#[trigger] bytes[i]) by {
        assert(text[i] as u8 == bytes[i]);
    }
}

/// A character whose code is below 128 is an ASCII character.
proof fn lemma_small_code_is_ascii(c: char)
    requires
        (c as u32) < 0x80,
    ensures
        '\0' <= c <= '\u{7f}',
{
}

/// A UTF-8 encoding whose bytes are all below 128 encodes ASCII characters
/// only.
proof fn lemma_small_bytes_encode_ascii(chars: Seq<char>)
    requires
        forall|i: int| 0 <= i < encode_utf8(chars).len() ==> #[trigger] encode_utf8(chars)[i] < 128,
    ensures
        is_ascii_chars(chars),
    decreases chars.len(),
{
    if chars.len() > 0 {
        let c = chars[0] as u32;
        let bytes = encode_utf8(chars);
        let first = encode_scalar(c);
        let rest = encode_utf8(chars.drop_first());
        assert(bytes == first + rest);
        assert(first.len() > 0);
        assert(bytes[0] == first[0]);
        if c >= 0x80 {
            assert(first[0] >= 0xC0) by {
                if has_width_2_encoding(c) {
                    assert(0xC0u8 | ((c >> 6) & 0x1F) as u8 >= 0xC0) by (bit_vector);
                } else if has_width_3_encoding(c) {
                    assert(0xE0u8 | ((c >> 12) & 0x0F) as u8 >= 0xC0) by (bit_vector);
                } else {
                    assert(0xF0u8 | ((c >> 18) & 0x7) as u8 >= 0xC0) by (bit_vector);
                }
            }
        }
        assert(bytes[0] < 128);
        assert(c < 0x80);
        assert forall|i: int| 0 <= i < rest.len() implies #[trigger] rest[i] < 128 by {
            assert(bytes[first.len() + i] == rest[i]);
        }
        lemma_small_bytes_encode_ascii(chars.drop_first());
        assert forall|i: int| 0 <= i < chars.len() implies '\0' <= #[trigger] chars[i] <= '\u{7f}' by {
            if i > 0 {
                assert(chars[i] == chars.drop_first()[i - 1]);
            } else {
                lemma_small_code_is_ascii(chars[0]);
            }
        }
    }
}

/// If the API key holds a character that is neither visible ASCII nor a
/// space or a tab, no `Authorization` header is accepted: every upload is
/// refused.
pub proof fn lemma_unusable_key_refuses_all(auth_header: Option<Seq<u8>>, api_key: Seq<char>, k: int)
    requires
        0 <= k < api_key.len(),
        !((' ' <= api_key[k] <= '~') || api_key[k] == '\t'),
    ensures
        !upload_authorized(auth_header, api_key),
{
    reveal_strlit("Bearer ");
    if upload_authorized(auth_header, api_key) {
        let text = bearer_credential(api_key);
        let bytes = encode_utf8(text);
        assert forall|i: int| 0 <= i < bytes.len() implies #[trigger] bytes[i] < 128 by {
            assert(is_visible_ascii(auth_header->0[i]));
        }
        lemma_small_bytes_encode_ascii(text);
        is_ascii_chars_encode_utf8(text);
        assert(text[7 + k] == api_key[k]);
        assert(is_visible_ascii(bytes[7 + k]));
        assert(text[7 + k] as u8 == bytes[7 + k]);
    }
}

/// Each error is answered with its status: 500 for an internal or storage
/// error, 404 for a missing resource, 401 for an unauthorized request.
pub proof fn lemma_error_statuses(io_error: std::io::Error)
    ensures
        AppError::InternalError.status_spec() == 500,
        AppError::IoError(io_error).status_spec() == 500,
        AppError::NotFound.status_spec() == 404,
        AppError::Unauthorized.status_spec() == 401,
{
}

/// A refused upload is answered with status 401 and the body `Unauthorized`.
pub proof fn lemma_refusal_reply(r: ReplyView)
    requires
        AppError::Unauthorized.is_error_reply(r),
    ensures
        r == text_reply(401, "Unauthorized"@),
{
    assert(r.headers =~= Seq::<(ReplyHeader, Seq<u8>)>::empty());
}

/// What an upload stores is what a download of the file `artifact.bin`
/// below the same version asks for.
pub proof fn lemma_download_finds_upload(org_id: Seq<char>, repo_id: Seq<char>, version: Seq<char>)
    ensures
        download_key_text(org_id, repo_id, version + "/artifact.bin"@) == upload_key_text(
            org_id,
            repo_id,
            version,
        ),
{
    assert(download_key_text(org_id, repo_id, version + "/artifact.bin"@) =~= upload_key_text(
        org_id,
        repo_id,
        version,
    ));
}

/// Whether `s` holds no separator.
pub open spec fn separator_free(s: Seq<char>) -> bool {
    forall|i: int| 0 <= i < s.len() ==> s[i] != '/'
}

/// Text that starts with a separator-free part and a separator determines
/// that part and what follows it.
proof fn lemma_split_at_first_separator(a1: Seq<char>, t1: Seq<char>, a2: Seq<char>, t2: Seq<char>)
    requires
        separator_free(a1),
        separator_free(a2),
        a1 + "/"@ + t1 == a2 + "/"@ + t2,
    ensures
        a1 == a2,
        t1 == t2,
{
    reveal_strlit("/");
    let k1 = a1 + "/"@ + t1;
    let k2 = a2 + "/"@ + t2;
    if a1.len() < a2.len() {
        assert(k1[a1.len() as int] == '/');
        assert(k2[a1.len() as int] == a2[a1.len() as int]);
    } else if a2.len() < a1.len() {
        assert(k2[a2.len() as int] == '/');
        assert(k1[a2.len() as int] == a1[a2.len() as int]);
    }
    assert(a1.len() == a2.len());
    assert forall|i: int| 0 <= i < a1.len() implies a1[i] == a2[i] by {
        assert(k1[i] == a1[i]);
        assert(k2[i] == a2[i]);
    }
    assert(a1 =~= a2);
    assert(k1.len() == k2.len());
    assert(t1.len() == t2.len());
    assert forall|i: int| 0 <= i < t1.len() implies t1[i] == t2[i] by {
        assert(k1[a1.len() + 1 + i] == t1[i]);
        assert(k2[a2.len() + 1 + i] == t2[i]);
    }
    assert(t1 =~= t2);
}

/// The key of an upload is the whole organization id, a separator, the
/// whole repository id, a separator, the whole version, and then
/// `/artifact.bin`; the key of a download is the organization id, a
/// separator, the repository id, a separator and the file path.
pub proof fn lemma_key_layout(org_id: Seq<char>, repo_id: Seq<char>, version: Seq<char>, file_path: Seq<char>)
    ensures
        ({
            let k = upload_key_text(org_id, repo_id, version);
            let (o, r, v) = (org_id.len() as int, repo_id.len() as int, version.len() as int);
            &&& k.len() == o + r + v + 15
            &&& k.subrange(0, o) == org_id
            &&& k[o] == '/'
            &&& k.subrange(o + 1, o + 1 + r) == repo_id
            &&& k[o + 1 + r] == '/'
            &&& k.subrange(o + 2 + r, o + 2 + r + v) == version
            &&& k.subrange(k.len() - 13, k.len() as int) == seq![
                '/', 'a', 'r', 't', 'i', 'f', 'a', 'c', 't', '.', 'b', 'i', 'n',
            ]
        }),
        ({
            let k = download_key_text(org_id, repo_id, file_path);
            let (o, r, f) = (org_id.len() as int, repo_id.len() as int, file_path.len() as int);
            &&& k.len() == o + r + f + 2
            &&& k.subrange(0, o) == org_id
            &&& k[o] == '/'
            &&& k.subrange(o + 1, o + 1 + r) == repo_id
            &&& k[o + 1 + r] == '/'
            &&& k.subrange(k.len() - f, k.len() as int) == file_path
        }),
{
    reveal_strlit("/");
    reveal_strlit("/artifact.bin");
    let k = upload_key_text(org_id, repo_id, version);
    let (o, r, v) = (org_id.len() as int, repo_id.len() as int, version.len() as int);
    assert(k.subrange(0, o) =~= org_id);
    assert(k.subrange(o + 1, o + 1 + r) =~= repo_id);
    assert(k.subrange(o + 2 + r, o + 2 + r + v) =~= version);
    assert(k.subrange(k.len() - 13, k.len() as int) =~= seq![
        '/', 'a', 'r', 't', 'i', 'f', 'a', 'c', 't', '.', 'b', 'i', 'n',
    ]);
    let d = download_key_text(org_id, repo_id, file_path);
    assert(d.subrange(0, o) =~= org_id);
    assert(d.subrange(o + 1, o + 1 + r) =~= repo_id);
    assert(d.subrange(d.len() - file_path.len(), d.len() as int) =~= file_path);
}

/// Uploads of different organizations, or of different repositories of one
/// organization, never share a key (the ids hold no separator, as path
/// segments never do), so none overwrites another.
pub proof fn lemma_owners_do_not_collide(
    o1: Seq<char>,
    r1: Seq<char>,
    v1: Seq<char>,
    o2: Seq<char>,
    r2: Seq<char>,
    v2: Seq<char>,
)
    requires
        separator_free(o1),
        separator_free(o2),
        separator_free(r1),
        separator_free(r2),
        o1 != o2 || r1 != r2,
    ensures
        upload_key_text(o1, r1, v1) != upload_key_text(o2, r2, v2),
        download_key_text(o1, r1, v1) != download_key_text(o2, r2, v2),
{
    let t1 = r1 + "/"@ + v1 + "/artifact.bin"@;
    let t2 = r2 + "/"@ + v2 + "/artifact.bin"@;
    assert(upload_key_text(o1, r1, v1) =~= o1 + "/"@ + t1);
    assert(upload_key_text(o2, r2, v2) =~= o2 + "/"@ + t2);
    if upload_key_text(o1, r1, v1) == upload_key_text(o2, r2, v2) {
        lemma_split_at_first_separator(o1, t1, o2, t2);
        assert(t1 =~= r1 + "/"@ + (v1 + "/artifact.bin"@));
        assert(t2 =~= r2 + "/"@ + (v2 + "/artifact.bin"@));
        lemma_split_at_first_separator(r1, v1 + "/artifact.bin"@, r2, v2 + "/artifact.bin"@);
    }
    let u1 = r1 + "/"@ + v1;
    let u2 = r2 + "/"@ + v2;
    assert(download_key_text(o1, r1, v1) =~= o1 + "/"@ + u1);
    assert(download_key_text(o2, r2, v2) =~= o2 + "/"@ + u2);
    if download_key_text(o1, r1, v1) == download_key_text(o2, r2, v2) {
        lemma_split_at_first_separator(o1, u1, o2, u2);
        lemma_split_at_first_separator(r1, v1, r2, v2);
    }
}

/// Uploads of two different versions of one repository are stored under
/// different keys, so neither overwrites the other.
pub proof fn lemma_versions_do_not_collide(
    org_id: Seq<char>,
    repo_id: Seq<char>,
    v1: Seq<char>,
    v2: Seq<char>,
)
    requires
        v1 != v2,
    ensures
        upload_key_text(org_id, repo_id, v1) != upload_key_text(org_id, repo_id, v2),
{
    let head = org_id + "/"@ + repo_id + "/"@;
    let tail = "/artifact.bin"@;
    let k1 = upload_key_text(org_id, repo_id, v1);
    let k2 = upload_key_text(org_id, repo_id, v2);
    assert(k1 =~= head + v1 + tail);
    assert(k2 =~= head + v2 + tail);
    if k1 == k2 {
        assert(v1.len() == v2.len());
        assert forall|i: int| 0 <= i < v1.len() implies v1[i] == v2[i] by {
            assert(k1[head.len() + i] == v1[i]);
            assert(k2[head.len() + i] == v2[i]);
        }
        assert(v1 =~= v2);
    }
}

/// A hexadecimal digit names its value: equal digits come from equal values.
proof fn lemma_hex_digit_injective(a: u8, b: u8)
    requires
        a < 16,
        b < 16,
        hex_digit(a) == hex_digit(b),
    ensures
        a == b,
{
}

/// An entity tag is a double quote, two lowercase hexadecimal digits per
/// digest byte, and a double quote; every byte of it is visible ASCII.
pub proof fn lemma_etag_shape(digest: Seq<u8>)
    ensures
        etag_of_digest(digest).len() == 2 * digest.len() + 2,
        etag_of_digest(digest)[0] == 34u8,
        etag_of_digest(digest)[2 * digest.len() + 1int] == 34u8,
        forall|i: int|
            1 <= i <= 2 * digest.len() ==> {
                let c = #[trigger] etag_of_digest(digest)[i];
                (48 <= c <= 57) || (97 <= c <= 102)
            },
        forall|i: int|
            0 <= i < etag_of_digest(digest).len() ==> is_visible_ascii(
                #[trigger] etag_of_digest(digest)[i],
            ),
{
    let e = etag_of_digest(digest);
    assert forall|i: int| 1 <= i <= 2 * digest.len() implies {
        let c = #[trigger] e[i];
        (48 <= c <= 57) || (97 <= c <= 102)
    } by {
        assert(e[i] == lower_hex(digest)[i - 1]);
    }
    assert forall|i: int| 0 <= i < e.len() implies is_visible_ascii(#[trigger] e[i]) by {
        if 1 <= i <= 2 * digest.len() {
            assert(e[i] == lower_hex(digest)[i - 1]);
        }
    }
}

/// Each digest byte appears in the entity tag as two lowercase hexadecimal
/// digits, the high half first: digit values below ten are the characters
/// `0` to `9`, the others `a` to `f`.
pub proof fn lemma_etag_digits(digest: Seq<u8>, i: int)
    requires
        0 <= i < digest.len(),
    ensures
        ({
            let e = etag_of_digest(digest);
            let hi = digest[i] / 16;
            let lo = digest[i] % 16;
            &&& e[1 + 2 * i] == (if hi < 10 { 48 + hi } else { 97 + (hi - 10) })
            &&& e[2 + 2 * i] == (if lo < 10 { 48 + lo } else { 97 + (lo - 10) })
        }),
{
    let e = etag_of_digest(digest);
    assert(e[1 + 2 * i] == lower_hex(digest)[2 * i]);
    assert(e[2 + 2 * i] == lower_hex(digest)[2 * i + 1]);
    assert((2 * i) / 2 == i);
    assert((2 * i + 1) / 2 == i);
    assert((2 * i) % 2 == 0);
    assert((2 * i + 1) % 2 == 1);
}

/// Different digests have different entity tags: the tag determines the
/// digest.
pub proof fn lemma_etag_injective(d1: Seq<u8>, d2: Seq<u8>)
    requires
        etag_of_digest(d1) == etag_of_digest(d2),
    ensures
        d1 == d2,
{
    let e1 = etag_of_digest(d1);
    let e2 = etag_of_digest(d2);
    assert(lower_hex(d1).len() == 2 * d1.len());
    assert(lower_hex(d2).len() == 2 * d2.len());
    assert(e1.len() == e2.len());
    assert(d1.len() == d2.len());
    assert forall|i: int| 0 <= i < d1.len() implies d1[i] == d2[i] by {
        assert(e1[1 + 2 * i] == lower_hex(d1)[2 * i]);
        assert(e2[1 + 2 * i] == lower_hex(d2)[2 * i]);
        assert(e1[2 + 2 * i] == lower_hex(d1)[2 * i + 1]);
        assert(e2[2 + 2 * i] == lower_hex(d2)[2 * i + 1]);
        assert((2 * i) / 2 == i);
        assert((2 * i + 1) / 2 == i);
        assert((2 * i) % 2 == 0);
        assert((2 * i + 1) % 2 == 1);
        lemma_hex_digit_injective(d1[i] / 16, d2[i] / 16);
        lemma_hex_digit_injective(d1[i] % 16, d2[i] % 16);
    }
    assert(d1 =~= d2);
}

/// A download asks for no credentials and is never answered 401: an
/// artifact is answered 304 or sent, a missing one is answered 404, and a
/// storage error (the only error the store's steps produce) is answered 500.
pub proof fn lemma_download_needs_no_credentials(
    step: DownloadStep,
    artifact: StoredArtifact,
    digest: Seq<u8>,
    if_none_match: Option<Seq<u8>>,
    reply: ReplyView,
    io_error: std::io::Error,
)
    ensures
        is_artifact_step(step, artifact, digest, if_none_match) ==> !(step matches DownloadStep::Reply(
            r,
        ) && r.status == 401),
        AppError::NotFound.is_error_reply(reply) ==> reply.status == 404,
        AppError::IoError(io_error).is_error_reply(reply) ==> reply.status == 500,
{
}

/// A download is answered "not modified" exactly when its `If-None-Match`
/// header is the artifact's entity tag: a stale or foreign tag, or none at
/// all, gets the artifact's current content with its current tag.
pub proof fn lemma_not_modified_only_on_exact_match(
    step: DownloadStep,
    artifact: StoredArtifact,
    digest: Seq<u8>,
    if_none_match: Option<Seq<u8>>,
)
    requires
        is_artifact_step(step, artifact, digest, if_none_match),
    ensures
        (step matches DownloadStep::Reply(r) && r.status == 304) ==> if_none_match == Some(
            etag_of_digest(digest),
        ),
        if_none_match != Some(etag_of_digest(digest)) ==> (step matches DownloadStep::Fresh {
            data,
            etag,
            modified,
        } && data@ == artifact.data@ && etag@ == etag_of_digest(digest) && modified
            == artifact.modified),
        if_none_match == Some(etag_of_digest(digest)) ==> (step matches DownloadStep::Reply(r)
            && r@.status == 304 && r@.headers.len() == 0 && r@.body == BodyView::Empty),
{
    lemma_etag_shape(digest);
}

/// A client that sends back the entity tag it was given is answered with
/// "not modified": the tag reads as text and matches itself.
pub proof fn lemma_echoed_etag_is_not_modified(digest: Seq<u8>)
    ensures
        header_holds(Some(etag_of_digest(digest)), etag_of_digest(digest)),
{
    lemma_etag_shape(digest);
}

} // verus!
