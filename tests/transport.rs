use pyvsb_to_cloud::encryptor::{combine_results, exit_outcome, stderr_outcome, EncryptorState};
use pyvsb_to_cloud::transport::{
    parse_api_error, plain_error_message, ApiErrorBody, ContentType, HttpClientError,
};

fn ct(t: &str, s: &str) -> Option<ContentType> {
    Some(ContentType { type_: t.to_string(), subtype: s.to_string(), parameters: String::new() })
}

fn message(b: ApiErrorBody) -> String {
    match b {
        ApiErrorBody::Message(m) => m,
        ApiErrorBody::Json => panic!("expected a message"),
    }
}

#[test]
fn payload_too_large_in_plain_text() {
    let r = parse_api_error(&"413 Payload Too Large".to_string(), &ct("text", "plain"), "Too large.");
    let m = message(r);
    assert_eq!(m, "Server returned an error: Too large");
    let e: HttpClientError<()> = HttpClientError::Generic(m);
    assert!(matches!(e, HttpClientError::Generic(ref m) if m == "Server returned an error: Too large"));
}

#[test]
fn leading_empty_lines_are_skipped() {
    let r = parse_api_error(&"413 Payload Too Large".to_string(), &ct("text", "plain"), "\nToo large");
    assert_eq!(message(r), "Server returned an error: Too large");
}

#[test]
fn json_error_body_is_decoded() {
    let r = parse_api_error(&"400 Bad Request".to_string(), &ct("application", "json"), "{\"error\": 1}");
    assert!(matches!(r, ApiErrorBody::Json));
}

#[test]
fn empty_plain_text_uses_the_status() {
    let r = parse_api_error(&"500 Internal Server Error".to_string(), &ct("text", "plain"), " ...\nmore");
    assert_eq!(message(r), "Server returned an error: 500 Internal Server Error");
}

#[test]
fn content_type_errors() {
    let r = parse_api_error(&"502 Bad Gateway".to_string(), &None, "x");
    assert_eq!(message(r), "Server returned 502 Bad Gateway error with an invalid content type");
    let r = parse_api_error(&"502 Bad Gateway".to_string(), &ct("text", "html"), "x");
    assert_eq!(
        message(r),
        "Server returned 502 Bad Gateway error with an invalid content type: text/html"
    );
    let html = Some(ContentType {
        type_: "text".to_string(),
        subtype: "html".to_string(),
        parameters: "; charset=utf-8".to_string(),
    });
    let r = parse_api_error(&"502 Bad Gateway".to_string(), &html, "x");
    assert_eq!(
        message(r),
        "Server returned 502 Bad Gateway error with an invalid content type: text/html; charset=utf-8"
    );
}

#[test]
fn plain_message_takes_the_first_non_empty_line() {
    assert_eq!(plain_error_message("  Quota exceeded...\r\nsecond line"), "Quota exceeded");
    assert_eq!(plain_error_message("Not found. \n"), "Not found");
    assert_eq!(plain_error_message("\n\r\nToo large.\nmore"), "Too large");
    assert_eq!(plain_error_message("Busy . . \t"), "Busy");
    assert_eq!(plain_error_message(""), "");
    assert_eq!(plain_error_message("\u{a0}Überfüllt\u{3000}."), "Überfüllt");
}

#[test]
fn generic_from_keeps_the_text() {
    let e: HttpClientError<String> = HttpClientError::generic_from(42);
    assert!(matches!(e, HttpClientError::Generic(ref m) if m == "42"));
}

#[test]
fn stderr_and_exit_status() {
    assert_eq!(stderr_outcome(&String::new()), Ok(()));
    assert_eq!(
        stderr_outcome(&"bad passphrase\n".to_string()),
        Err("gpg error: bad passphrase".to_string())
    );
    assert_eq!(exit_outcome(true), Ok(()));
    assert!(exit_outcome(false).is_err());
}

#[test]
fn first_teardown_error_wins() {
    let steps = vec![
        Ok(()),
        Ok(()),
        stderr_outcome(&"bad passphrase".to_string()),
        exit_outcome(false),
    ];
    let r = combine_results(&steps);
    assert!(matches!(r, Err(ref m) if m.contains("bad passphrase")));
    assert_eq!(combine_results(&vec![Ok(()), Ok(())]), Ok(()));
}

#[test]
fn failure_is_sticky() {
    let mut state = EncryptorState::new();
    assert_eq!(state.gate(), Ok(()));
    assert_eq!(state.fail("Broken pipe".to_string()), Err("Broken pipe".to_string()));
    assert_eq!(state.gate(), Err("Broken pipe".to_string()));
    assert_eq!(state.gate(), Err("Broken pipe".to_string()));
    assert_eq!(state.fail("other".to_string()), Err("Broken pipe".to_string()));
    assert_eq!(state.close(Ok(())), Err("Broken pipe".to_string()));
    assert_eq!(state.finish(), Err("Broken pipe".to_string()));
}

#[test]
fn clean_close_reports_success() {
    let mut state = EncryptorState::new();
    assert_eq!(state.close(Ok(())), Ok(()));
    assert!(state.gate().is_err());
    assert_eq!(state.finish(), Ok(()));
}

use pyvsb_to_cloud::transport::{merge_headers, names_match, Header, HttpClient};

fn header(name: &str, value: &str) -> Header {
    Header { name: name.to_string(), value: value.to_string() }
}

fn pairs(hs: &[Header]) -> Vec<(String, String)> {
    hs.iter().map(|h| (h.name.clone(), h.value.clone())).collect()
}

#[test]
fn request_headers_win_over_defaults() {
    let client = HttpClient::new().with_default_header(header("Authorization", "Bearer abc"));
    assert_eq!(
        pairs(&client.default_headers),
        vec![
            ("User-Agent".to_string(), "pyvsb-to-cloud".to_string()),
            ("Authorization".to_string(), "Bearer abc".to_string()),
        ]
    );
    let sent = client.request_headers(&vec![
        header("user-agent", "other"),
        header("Content-Type", "application/octet-stream"),
    ]);
    assert_eq!(
        pairs(&sent),
        vec![
            ("Authorization".to_string(), "Bearer abc".to_string()),
            ("user-agent".to_string(), "other".to_string()),
            ("Content-Type".to_string(), "application/octet-stream".to_string()),
        ]
    );
}

#[test]
fn default_header_is_replaced_by_name() {
    let client = HttpClient::new().with_default_header(header("USER-AGENT", "x/1"));
    assert_eq!(pairs(&client.default_headers), vec![("USER-AGENT".to_string(), "x/1".to_string())]);
    assert!(names_match(&"Content-Length".to_string(), &"content-length".to_string()));
    assert!(!names_match(&"Content-Length".to_string(), &"Content-Type".to_string()));
    assert_eq!(merge_headers(&Vec::new(), &Vec::new()).len(), 0);
}

use pyvsb_to_cloud::transport::{status_outcome, ResponseOutcome};

#[test]
fn status_outcomes() {
    let plain = ct("text", "plain");
    assert!(matches!(status_outcome(200, &"200 OK".to_string(), &plain, ""), ResponseOutcome::Success));
    match status_outcome(413, &"413 Payload Too Large".to_string(), &plain, "Too large.") {
        ResponseOutcome::Failure(b) => assert_eq!(message(b), "Server returned an error: Too large"),
        ResponseOutcome::Success => panic!("not a success"),
    }
    match status_outcome(302, &"302 Found".to_string(), &plain, "moved") {
        ResponseOutcome::Failure(b) => assert_eq!(message(b), "Server returned an error: 302 Found"),
        ResponseOutcome::Success => panic!("not a success"),
    }
    assert!(matches!(
        status_outcome(400, &"400 Bad Request".to_string(), &ct("application", "json"), "{}"),
        ResponseOutcome::Failure(ApiErrorBody::Json)
    ));
}
