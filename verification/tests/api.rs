use actix_web::http::StatusCode;
use cdd_storage::api::{
    authorize_upload, check_artifact, check_download, compute_etag, download_key,
    etag_for_digest, fresh_reply, header_value_matches, is_not_modified, plan_upload,
    upload_key, upload_reply, AppState, DownloadParams, DownloadStep, UploadParams,
};
use cdd_storage::error::AppError;
use cdd_storage::reply::{health_check, HttpReply, ReplyBody, ReplyHeader};
use cdd_storage::storage::{LocalDiskStore, StoredArtifact};
use sha1::{Digest, Sha1};

fn state() -> AppState {
    AppState {
        store: LocalDiskStore::new(String::from("/tmp/artifacts")),
        api_key: String::from("secret"),
    }
}

fn upload_params() -> UploadParams {
    UploadParams {
        org_id: String::from("my-org"),
        repo_id: String::from("my-repo"),
        version: String::from("v1"),
    }
}

fn download_params(file_path: &str) -> DownloadParams {
    DownloadParams {
        org_id: String::from("my-org"),
        repo_id: String::from("my-repo"),
        file_path: String::from(file_path),
    }
}

fn artifact(data: &[u8], modified: Option<u64>) -> StoredArtifact {
    StoredArtifact { data: data.to_vec(), modified }
}

fn expected_etag(data: &[u8]) -> String {
    let mut hasher = Sha1::new();
    hasher.update(data);
    let hash = hasher.finalize();
    let mut etag = String::with_capacity(42);
    etag.push('"');
    for b in hash {
        etag.push_str(&format!("{b:02x}"));
    }
    etag.push('"');
    etag
}

fn header<'a>(reply: &'a HttpReply, name: ReplyHeader) -> Option<&'a [u8]> {
    reply.headers.iter().find(|(n, _)| *n == name).map(|(_, v)| v.as_slice())
}

fn reply_of(step: DownloadStep) -> HttpReply {
    match step {
        DownloadStep::Reply(r) => r,
        DownloadStep::Fresh { data, etag, modified } => {
            fresh_reply(data, etag, modified.expect("timestamp after the epoch"))
        }
    }
}

fn upload(auth: Option<&[u8]>, stored: Result<(), AppError>) -> HttpReply {
    match plan_upload(auth, &state(), &upload_params()) {
        Err(e) => e.error_response(),
        Ok(_) => upload_reply(stored),
    }
}

#[test]
fn test_upload_artifact_success() {
    let resp = upload(Some(b"Bearer secret"), Ok(()));
    assert_eq!(resp.status, StatusCode::CREATED.as_u16());
}

#[test]
fn test_upload_artifact_unauthorized_missing_header() {
    let resp = upload(None, Ok(()));
    assert_eq!(resp.status, StatusCode::UNAUTHORIZED.as_u16());
}

#[test]
fn test_upload_artifact_unauthorized_wrong_key() {
    let resp = upload(Some(b"Bearer wrong"), Ok(()));
    assert_eq!(resp.status, StatusCode::UNAUTHORIZED.as_u16());
}

#[test]
fn test_upload_artifact_unauthorized_bad_header_value() {
    let resp = upload(Some(b"\xff\xff\xff"), Ok(()));
    assert_eq!(resp.status, StatusCode::UNAUTHORIZED.as_u16());
}

#[test]
fn test_upload_artifact_io_error() {
    let resp = upload(Some(b"Bearer secret"), Err(AppError::from(std::io::Error::other("is a file"))));
    assert_eq!(resp.status, StatusCode::INTERNAL_SERVER_ERROR.as_u16());
}

#[test]
fn upload_success_body() {
    let resp = upload_reply(Ok(()));
    assert!(resp.headers.is_empty());
    assert!(matches!(&resp.body, ReplyBody::Text(t) if t == "Uploaded successfully"));
}

#[test]
fn refused_upload_body_is_unauthorized() {
    let resp = upload(Some(b"Bearer wrong"), Ok(()));
    assert!(matches!(&resp.body, ReplyBody::Text(t) if t == "Unauthorized"));
}

#[test]
fn plan_upload_gives_key_only_when_authorized() {
    let key = plan_upload(Some(b"Bearer secret"), &state(), &upload_params()).unwrap();
    assert_eq!(key.as_str(), "my-org/my-repo/v1/artifact.bin");
    assert!(matches!(
        plan_upload(Some(b"Bearer secret "), &state(), &upload_params()),
        Err(AppError::Unauthorized)
    ));
    assert!(matches!(
        plan_upload(Some(b"bearer secret"), &state(), &upload_params()),
        Err(AppError::Unauthorized)
    ));
}

#[test]
fn authorization_compares_exact_bytes() {
    assert!(authorize_upload(Some(b"Bearer secret"), "secret"));
    assert!(!authorize_upload(Some(b"Bearer secre"), "secret"));
    assert!(!authorize_upload(Some(b"Bearer secrets"), "secret"));
    assert!(!authorize_upload(Some(b"secret"), "secret"));
    assert!(!authorize_upload(None, "secret"));
    assert!(authorize_upload(Some(b"Bearer "), ""));
    assert!(authorize_upload(Some(b"Bearer a\tb"), "a\tb"));
}

#[test]
fn authorization_with_non_ascii_key_never_matches() {
    let key = "s\u{e9}cret";
    assert!(!authorize_upload(Some("Bearer s\u{e9}cret".as_bytes()), key));
}

#[test]
fn header_value_must_be_visible_ascii() {
    assert!(header_value_matches(b"abc", b"abc"));
    assert!(!header_value_matches(b"ab\x7f", b"ab\x7f"));
    assert!(!header_value_matches(b"ab\n", b"ab\n"));
    assert!(header_value_matches(b"a b\t", b"a b\t"));
    assert!(!header_value_matches(b"abc", b"abd"));
    assert!(!header_value_matches(b"abc", b"ab"));
}

#[test]
fn upload_and_download_keys() {
    assert_eq!(upload_key(&upload_params()).as_str(), "my-org/my-repo/v1/artifact.bin");
    assert_eq!(download_key(&download_params("schema.json")).as_str(), "my-org/my-repo/schema.json");
    assert_eq!(
        download_key(&download_params("v1/artifact.bin")).as_str(),
        upload_key(&upload_params()).as_str()
    );
    assert_eq!(download_key(&download_params("a/b/c.json")).as_str(), "my-org/my-repo/a/b/c.json");
}

#[test]
fn etag_is_quoted_lower_hex_sha1() {
    let etag = compute_etag(b"test data");
    assert_eq!(etag, expected_etag(b"test data").into_bytes());
    assert_eq!(etag.len(), 42);
    assert_eq!(
        String::from_utf8(compute_etag(b"")).unwrap(),
        "\"da39a3ee5e6b4b0d3255bfef95601890afd80709\""
    );
}

#[test]
fn etag_for_digest_encodes_each_byte() {
    assert_eq!(etag_for_digest(&[0x00, 0x0f, 0xa0, 0xff]), b"\"000fa0ff\"".to_vec());
    assert_eq!(etag_for_digest(&[]), b"\"\"".to_vec());
}

#[test]
fn test_download_artifact_success() {
    let resp = reply_of(check_download(Ok(Some(artifact(b"test data", Some(1_700_000_000)))), None));
    assert_eq!(resp.status, StatusCode::OK.as_u16());
    let etag = header(&resp, ReplyHeader::ETag).expect("ETag missing");
    let last_modified = header(&resp, ReplyHeader::LastModified).expect("Last-Modified missing");
    assert!(!etag.is_empty());
    assert!(!last_modified.is_empty());
}

#[test]
fn test_download_artifact_not_modified() {
    let expected = expected_etag(b"test data");
    let resp = reply_of(check_download(
        Ok(Some(artifact(b"test data", Some(0)))),
        Some(expected.as_bytes()),
    ));
    assert_eq!(resp.status, StatusCode::NOT_MODIFIED.as_u16());
    assert!(resp.headers.is_empty());
    assert!(matches!(resp.body, ReplyBody::Empty));
}

#[test]
fn test_download_artifact_not_found() {
    let resp = reply_of(check_download(Ok(None), None));
    assert_eq!(resp.status, StatusCode::NOT_FOUND.as_u16());
    assert!(matches!(&resp.body, ReplyBody::Text(t) if t == "Not Found"));
}

#[test]
fn test_download_artifact_io_error() {
    let found = Err(AppError::from(std::io::Error::other("not a directory")));
    let resp = reply_of(check_download(found, None));
    let status = resp.status;
    assert!(
        status == StatusCode::INTERNAL_SERVER_ERROR.as_u16()
            || status == StatusCode::NOT_FOUND.as_u16()
    );
}

#[test]
fn test_download_artifact_etag_mismatch() {
    let resp = reply_of(check_download(
        Ok(Some(artifact(b"test data", Some(0)))),
        Some(b"\"wrong-etag\""),
    ));
    assert_eq!(resp.status, StatusCode::OK.as_u16());
}

#[test]
fn test_download_artifact_etag_bad_header() {
    let resp = reply_of(check_download(
        Ok(Some(artifact(b"test data", Some(0)))),
        Some(b"\xff\xff\xff"),
    ));
    assert_eq!(resp.status, StatusCode::OK.as_u16());
}

#[test]
fn fresh_download_headers_and_body() {
    let resp = reply_of(check_download(Ok(Some(artifact(b"test data", Some(0)))), None));
    assert_eq!(resp.headers.len(), 3);
    assert_eq!(resp.headers[0].0, ReplyHeader::ETag);
    assert_eq!(resp.headers[0].1, expected_etag(b"test data").into_bytes());
    assert_eq!(resp.headers[1].0, ReplyHeader::LastModified);
    assert_eq!(resp.headers[1].1, b"Thu, 01 Jan 1970 00:00:00 GMT".to_vec());
    assert_eq!(resp.headers[2].0, ReplyHeader::CacheControl);
    assert_eq!(resp.headers[2].1, b"public, max-age=3600".to_vec());
    assert!(matches!(&resp.body, ReplyBody::Bytes(b) if b == b"test data"));
}

#[test]
fn last_modified_is_http_date() {
    let resp = fresh_reply(b"x".to_vec(), b"\"e\"".to_vec(), 784_111_777);
    assert_eq!(resp.headers[1].1, b"Sun, 06 Nov 1994 08:49:37 GMT".to_vec());
    let resp = fresh_reply(Vec::new(), Vec::new(), 253_402_300_799);
    assert_eq!(resp.headers[1].1, b"Fri, 31 Dec 9999 23:59:59 GMT".to_vec());
}

#[test]
fn echoed_etag_gives_not_modified() {
    let data = b"some artifact bytes";
    let first = reply_of(check_download(Ok(Some(artifact(data, Some(5)))), None));
    let etag = header(&first, ReplyHeader::ETag).unwrap().to_vec();
    let second = reply_of(check_download(Ok(Some(artifact(data, Some(5)))), Some(&etag)));
    assert_eq!(second.status, 304);
    let changed = reply_of(check_download(Ok(Some(artifact(b"other bytes", Some(5)))), Some(&etag)));
    assert_eq!(changed.status, 200);
}

#[test]
fn check_artifact_uses_given_digest() {
    let step = check_artifact(artifact(b"abc", Some(1)), &[0xab, 0xcd], Some(b"\"abcd\""));
    assert!(matches!(step, DownloadStep::Reply(ref r) if r.status == 304));
    let step = check_artifact(artifact(b"abc", Some(1)), &[0xab, 0xcd], None);
    match step {
        DownloadStep::Fresh { data, etag, modified } => {
            assert_eq!(data, b"abc");
            assert_eq!(etag, b"\"abcd\"".to_vec());
            assert_eq!(modified, Some(1));
        }
        DownloadStep::Reply(_) => panic!("expected the artifact to be sent"),
    }
}

#[test]
fn is_not_modified_needs_exact_tag() {
    assert!(is_not_modified(b"\"ab\"", Some(b"\"ab\"")));
    assert!(!is_not_modified(b"\"ab\"", Some(b"ab")));
    assert!(!is_not_modified(b"\"ab\"", None));
}

#[test]
fn test_health_check_ok() {
    let resp = health_check();
    assert_eq!(resp.status, StatusCode::OK.as_u16());
    assert!(matches!(&resp.body, ReplyBody::Text(t) if t == "OK"));
}

#[test]
fn versions_are_stored_apart() {
    let mut other = upload_params();
    other.version = String::from("v2");
    assert_ne!(upload_key(&upload_params()).as_str(), upload_key(&other).as_str());
}

#[test]
fn different_digests_have_different_etags() {
    assert_ne!(etag_for_digest(&[0x01]), etag_for_digest(&[0x10]));
    assert_ne!(compute_etag(b"a"), compute_etag(b"b"));
}

#[test]
fn credential_with_tab_in_key_is_accepted() {
    assert!(authorize_upload(Some(b"Bearer \tkey"), "\tkey"));
    assert!(!authorize_upload(Some(b"Bearer \nkey"), "\nkey"));
}

#[test]
fn authorized_upload_with_dot_dot_org_stays_in_store() {
    let params = UploadParams {
        org_id: String::from(".."),
        repo_id: String::from("my-repo"),
        version: String::from("v1"),
    };
    let key = plan_upload(Some(b"Bearer secret"), &state(), &params).unwrap();
    assert_eq!(state().store.resolve_path(&key), "/tmp/artifacts/my-repo/v1/artifact.bin");
}

#[test]
fn download_with_dot_dot_path_stays_in_store() {
    let key = download_key(&download_params(".."));
    assert_eq!(state().store.resolve_path(&key), "/tmp/artifacts/my-org");
}

#[test]
fn compute_etag_is_42_bytes() {
    assert_eq!(compute_etag(b"").len(), 42);
    assert_eq!(compute_etag(&[0u8; 1000]).len(), 42);
}
