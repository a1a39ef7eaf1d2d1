//! Endpoints, arguments, the wire, and what each failure means.

use kanban::adapter_wire::acknowledgement_failure;
use kanban::adapter_wire::arming_failure;
use kanban::adapter_wire::body_closed;
use kanban::adapter_wire::body_step;
use kanban::adapter_wire::check_request_size;
use kanban::adapter_wire::check_response_size;
use kanban::adapter_wire::connect_failure;
use kanban::adapter_wire::content_length;
use kanban::adapter_wire::head_closed;
use kanban::adapter_wire::head_end;
use kanban::adapter_wire::head_step;
use kanban::adapter_wire::parse_outcome;
use kanban::adapter_wire::parse_status_line;
use kanban::adapter_wire::read_step;
use kanban::adapter_wire::remaining;
use kanban::adapter_wire::request_bytes;
use kanban::adapter_wire::split_head;
use kanban::adapter_wire::status_line;
use kanban::adapter_wire::timed_out;
use kanban::adapter_wire::validate_request_target;
use kanban::adapter_wire::write_step;
use kanban::adapter_wire::Args;
use kanban::adapter_wire::Argument;
use kanban::adapter_wire::IoKind;
use kanban::adapter_wire::Outcome;
use kanban::adapter_wire::ReadEvent;
use kanban::adapter_wire::ReadStep;
use kanban::adapter_wire::WriteEvent;
use kanban::opencode_adapter::check_status;
use kanban::opencode_adapter::classify_response_status;
use kanban::opencode_adapter::endpoint_host;
use kanban::opencode_adapter::exit_code;
use kanban::opencode_adapter::failed;
use kanban::opencode_adapter::parse_endpoint;
use kanban::opencode_adapter::read_unsigned;
use kanban::opencode_adapter::unclassified;
use kanban::opencode_adapter::AdapterError;
use kanban::opencode_adapter::Endpoint;
use kanban::opencode_adapter::FailureClass;
use kanban::opencode_adapter::HostLiteral;
use kanban::opencode_adapter::ENQUEUE_TURN_ACTION_ID;
use kanban::opencode_adapter::MAX_ENDPOINT_BYTES;
use kanban::opencode_adapter::MAX_PATH_BYTES;
use kanban::opencode_adapter::OPENCODE_CONSUMER_ID;

const CLASSES: [FailureClass; 5] = [
    FailureClass::EndpointUnreachable,
    FailureClass::RequestRejected,
    FailureClass::EndpointFailed,
    FailureClass::DeadlineExceeded,
    FailureClass::ResponseInvalid,
];

fn endpoint() -> Endpoint {
    Endpoint {
        host: "127.0.0.1".to_owned(),
        v6: false,
        port: 4096,
        authority: "127.0.0.1:4096".to_owned(),
        path: "/delivery".to_owned(),
    }
}

/// What the hosts of these tests are recognised as.
fn recognise(value: &str) -> HostLiteral {
    match endpoint_host(value) {
        Some(host) => match (host.host.as_str(), host.v6) {
            ("127.0.0.1", false) | ("::1", true) => HostLiteral::Loopback,
            ("10.0.0.1", false) | ("2001:db8::1", true) => HostLiteral::Elsewhere,
            _ => HostLiteral::NotAnAddress,
        },
        None => HostLiteral::NotAnAddress,
    }
}

fn endpoint_of(value: &str) -> Result<Endpoint, AdapterError> {
    parse_endpoint(value, recognise(value))
}

fn arguments(texts: &[&str]) -> Vec<Argument> {
    texts
        .iter()
        .map(|text| Argument {
            text: Some((*text).to_owned()),
            literal: recognise(text),
        })
        .collect()
}

#[test]
fn every_failure_class_reports_a_distinct_code_and_exit_status() {
    let classes = CLASSES;
    let mut codes: Vec<&str> = classes.iter().map(|class| class.code()).collect();
    let mut statuses: Vec<i32> = classes.iter().map(|class| class.exit_code()).collect();
    codes.sort_unstable();
    codes.dedup();
    statuses.sort_unstable();
    statuses.dedup();
    assert_eq!(codes.len(), classes.len(), "duplicate failure code");
    assert_eq!(statuses.len(), classes.len(), "duplicate exit status");
    assert!(
        statuses.iter().all(|status| *status > 1),
        "a class reused the unclassified exit status"
    );
}

#[test]
fn http_status_classes_split_transient_faults_from_refusals() {
    assert_eq!(classify_response_status(200), None);
    assert_eq!(classify_response_status(202), None);
    for status in [400, 401, 403, 404, 409, 422] {
        assert_eq!(
            classify_response_status(status),
            Some(FailureClass::RequestRejected),
            "HTTP {status}"
        );
    }
    for status in [408, 429, 500, 502, 503] {
        assert_eq!(
            classify_response_status(status),
            Some(FailureClass::EndpointFailed),
            "HTTP {status}"
        );
    }
    for status in [100, 301, 302, 600] {
        assert_eq!(
            classify_response_status(status),
            Some(FailureClass::ResponseInvalid),
            "HTTP {status}"
        );
    }
}

#[test]
fn retryable_classes_are_exactly_the_ones_a_resend_can_fix() {
    assert!(FailureClass::EndpointUnreachable.retryable());
    assert!(FailureClass::EndpointFailed.retryable());
    assert!(FailureClass::DeadlineExceeded.retryable());
    assert!(!FailureClass::RequestRejected.retryable());
    assert!(!FailureClass::ResponseInvalid.retryable());
    assert_eq!(
        FailureClass::RequestRejected.to_string(),
        "opencode_request_rejected (terminal)"
    );
    assert_eq!(
        FailureClass::EndpointUnreachable.to_string(),
        "opencode_endpoint_unreachable (retryable)"
    );
}

#[test]
fn classified_failures_carry_their_exit_status_through_anyhow() {
    for class in CLASSES {
        let error = failed::<()>(class, "detail".to_owned()).unwrap_err();
        assert_eq!(exit_code(&error), class.exit_code());
        assert!(
            error.in_full().starts_with(class.code()),
            "{} does not lead with {}",
            error.in_full(),
            class.code()
        );
        assert!(error.in_full().ends_with(": detail"));
        assert_eq!(error.to_string(), class.to_string());
    }
    let error = unclassified::<()>("unclassified".to_owned()).unwrap_err();
    assert_eq!(exit_code(&error), 1);
    assert_eq!(error.in_full(), "unclassified");
}

#[test]
fn a_breached_deadline_is_its_own_class() {
    let error = remaining(0).unwrap_err();
    assert_eq!(
        exit_code(&error),
        FailureClass::DeadlineExceeded.exit_code()
    );
    assert_eq!(remaining(5_000).unwrap(), 5_000);
}

#[test]
fn only_a_loopback_http_endpoint_with_an_absolute_path_is_accepted() {
    assert_eq!(
        endpoint_of("http://127.0.0.1:4096/delivery").unwrap(),
        endpoint()
    );
    let parsed = endpoint_of("http://[::1]:80/a/b").unwrap();
    assert_eq!(parsed.host, "::1");
    assert!(parsed.v6);
    assert_eq!(parsed.port, 80);
    assert_eq!(parsed.authority, "[::1]:80");
    assert_eq!(parsed.path, "/a/b");

    for (value, expected) in [
        ("https://127.0.0.1:4096/x", "must start with"),
        ("http://127.0.0.1:4096", "absolute path"),
        ("http://10.0.0.1:4096/x", "loopback"),
        ("http://[2001:db8::1]:80/x", "loopback"),
        ("http://localhost:4096/x", "IP literal"),
        ("http://127.0.0.1/x", "explicit port"),
        ("http://127.0.0.1:0/x", "without padding"),
        ("http://127.0.0.1:04096/x", "without padding"),
        ("http://127.0.0.1:99999/x", "1..=65535"),
        ("http://user@127.0.0.1:80/x", "userinfo"),
        ("http://[::1:80/x", "bracketed"),
        ("http://[::1]80/x", "explicit port"),
        ("http://127.0.0.1:80/x?y=1", "query or fragment"),
        ("http://127.0.0.1:80/../x", "relative segments"),
        ("http://127.0.0.1:80/ x", "printable ASCII"),
        ("", "1..=256 bytes"),
    ] {
        let error = endpoint_of(value).unwrap_err().to_string();
        assert!(
            error.contains(expected),
            "{value} reported {error}, expected {expected}"
        );
    }
    let long = format!("http://127.0.0.1:80/{}", "a".repeat(MAX_ENDPOINT_BYTES));
    assert!(
        endpoint_of(&long)
            .unwrap_err()
            .to_string()
            .contains("1..=256 bytes")
    );
    let long_path = format!("http://127.0.0.1:80/{}", "a".repeat(MAX_PATH_BYTES));
    assert!(
        endpoint_of(&long_path)
            .unwrap_err()
            .to_string()
            .contains("path must be at most")
    );
}

#[test]
fn arguments_are_exact_and_unrepeatable() {
    assert_eq!(
        parse_outcome(&arguments(&["bin", "--help"])).unwrap(),
        Outcome::Help
    );
    assert_eq!(
        parse_outcome(&arguments(&["bin", "--version"])).unwrap(),
        Outcome::Version
    );
    assert_eq!(
        parse_outcome(&arguments(&[
            "bin",
            "--endpoint",
            "http://127.0.0.1:4096/delivery",
            "--request-timeout-ms",
            "5000",
        ]))
        .unwrap(),
        Outcome::Args(Args {
            endpoint: endpoint(),
            request_timeout_ms: 5_000,
        })
    );

    for (tokens, expected) in [
        (vec!["bin", "extra"], "positional"),
        (vec!["bin", "--unknown", "x"], "unknown argument"),
        (vec!["bin", "--endpoint"], "missing value"),
        (
            vec!["bin", "--endpoint", "--request-timeout-ms"],
            "missing value",
        ),
        (
            vec![
                "bin",
                "--endpoint",
                "http://127.0.0.1:1/a",
                "--endpoint",
                "http://127.0.0.1:2/a",
            ],
            "argument repeated",
        ),
        (
            vec!["bin", "--request-timeout-ms", "5000"],
            "missing required flag: --endpoint",
        ),
        (
            vec!["bin", "--endpoint", "http://127.0.0.1:1/a"],
            "missing required flag: --request-timeout-ms",
        ),
        (
            vec![
                "bin",
                "--endpoint",
                "http://127.0.0.1:1/a",
                "--request-timeout-ms",
                "999",
            ],
            "must be in 1000..=300000",
        ),
        (
            vec![
                "bin",
                "--endpoint",
                "http://127.0.0.1:1/a",
                "--request-timeout-ms",
                "300001",
            ],
            "must be in 1000..=300000",
        ),
        (
            vec![
                "bin",
                "--endpoint",
                "http://127.0.0.1:1/a",
                "--request-timeout-ms",
                "abc",
            ],
            "must be an integer",
        ),
    ] {
        let error = parse_outcome(&arguments(&tokens)).unwrap_err().to_string();
        assert!(error.contains(expected), "{error} lacks {expected}");
    }
    let mut with_bytes = arguments(&["bin"]);
    with_bytes.push(Argument {
        text: None,
        literal: HostLiteral::NotAnAddress,
    });
    let error = parse_outcome(&with_bytes).unwrap_err().to_string();
    assert!(error.contains("non-UTF-8 argument"), "{error}");
}

#[test]
fn only_the_opencode_consumer_and_action_are_delivered() {
    assert!(validate_request_target(OPENCODE_CONSUMER_ID, ENQUEUE_TURN_ACTION_ID).is_ok());
    assert!(
        validate_request_target("codex.queue", ENQUEUE_TURN_ACTION_ID)
            .unwrap_err()
            .to_string()
            .contains("consumer ID")
    );
    assert!(
        validate_request_target(OPENCODE_CONSUMER_ID, "start-readonly-turn")
            .unwrap_err()
            .to_string()
            .contains("action ID")
    );
}

#[test]
fn the_posted_request_frames_the_delivery_for_a_local_server() {
    let body = br#"{"protocolVersion":1,"delivery":{"subscriptionID":"sub-test"}}"#.to_vec();
    let bytes = request_bytes(&endpoint(), "0.1.0", &body);
    let text = String::from_utf8(bytes).unwrap();
    assert!(text.starts_with("POST /delivery HTTP/1.1\r\n"));
    assert!(text.contains("\r\nHost: 127.0.0.1:4096\r\n"));
    assert!(text.contains("\r\nUser-Agent: kanban-opencode-adapter/0.1.0\r\n"));
    assert!(text.contains("\r\nContent-Type: application/json\r\n"));
    assert!(text.contains(&format!("\r\nContent-Length: {}\r\n", body.len())));
    assert!(text.contains("\r\nConnection: close\r\n"));
    assert!(text.ends_with(&String::from_utf8(body.clone()).unwrap()));
    assert_eq!(
        head_end(text.as_bytes()),
        Some(text.len() - body.len()),
        "the body follows the first blank line"
    );
}

#[test]
fn a_response_head_must_be_framed_before_its_body_is_trusted() {
    assert_eq!(
        parse_status_line(status_line("HTTP/1.1 204 No Content\r\nA: b\r\n\r\n")).unwrap(),
        204
    );
    assert_eq!(parse_status_line("HTTP/1.0 500").unwrap(), 500);
    for line in ["HTTP/2 200 OK", "HTTP/1.1 20 OK", "HTTP/1.1 2x0 OK"] {
        let error = parse_status_line(line).unwrap_err();
        assert_eq!(
            exit_code(&error),
            FailureClass::ResponseInvalid.exit_code(),
            "{line}"
        );
    }

    assert_eq!(
        content_length("HTTP/1.1 200 OK\r\nContent-Length: 12\r\n\r\n").unwrap(),
        12
    );
    assert_eq!(
        content_length("HTTP/1.1 200 OK\r\ncontent-length:  7 \r\nX: y\r\n\r\n").unwrap(),
        7
    );
    for head in [
        "HTTP/1.1 200 OK\r\nTransfer-Encoding: chunked\r\n\r\n",
        "HTTP/1.1 200 OK\r\nContent-Length: 1\r\nContent-Length: 2\r\n\r\n",
        "HTTP/1.1 200 OK\r\nContent-Length: x\r\n\r\n",
        "HTTP/1.1 200 OK\r\nContent-Length: 99999999999999999999999999\r\n\r\n",
        "HTTP/1.1 200 OK\r\nContent-Length: 65537\r\n\r\n",
    ] {
        let error = content_length(head).unwrap_err();
        assert_eq!(
            exit_code(&error),
            FailureClass::ResponseInvalid.exit_code(),
            "{head}"
        );
    }
    assert_eq!(head_end(b"a\r\n\r\nb"), Some(5));
    assert_eq!(head_end(b"a\r\n"), None);
}

#[test]
fn each_unusable_content_length_says_what_is_wrong_with_it() {
    for (head, expected) in [
        (
            "HTTP/1.1 200 OK\r\nContent-Length: +5\r\n\r\n",
            "the endpoint declared a malformed Content-Length",
        ),
        (
            "HTTP/1.1 200 OK\r\nContent-Length:\r\n\r\n",
            "the endpoint declared a malformed Content-Length",
        ),
        (
            "HTTP/1.1 200 OK\r\nContent-Length: 99999999999999999999999999\r\n\r\n",
            "the endpoint declared an unrepresentable Content-Length",
        ),
        (
            "HTTP/1.1 200 OK\r\nContent-Length: 1\r\ncontent-length: 2\r\n\r\n",
            "the endpoint declared conflicting Content-Length headers",
        ),
        (
            "HTTP/1.1 200 OK\r\nContent-Length: 65537\r\n\r\n",
            "the endpoint declared a 65537-byte body over the 65536-byte limit",
        ),
        (
            "HTTP/1.1 200 OK\r\n\r\n",
            "the endpoint accepted the delivery without declaring a Content-Length, so a \
             truncated acknowledgement could not be told apart from a complete one",
        ),
    ] {
        assert_eq!(content_length(head).unwrap_err().detail, expected, "{head}");
    }
    assert_eq!(
        content_length("HTTP/1.1 200 OK\r\nContent-Length: 3\r\nContent-Length: 3\r\n\r\n")
            .unwrap(),
        3,
        "the same length twice is no conflict"
    );
}

#[test]
fn a_status_outside_the_accepted_range_names_itself() {
    assert!(check_status(204).is_ok());
    let error = check_status(503).unwrap_err();
    assert_eq!(error.class, Some(FailureClass::EndpointFailed));
    assert_eq!(error.detail, "the endpoint answered HTTP 503");
    assert_eq!(
        parse_status_line("HTTP/1.1 +20").unwrap_err().detail,
        "the endpoint's status code is not three digits"
    );
    assert_eq!(
        parse_status_line("ICY 200 OK").unwrap_err().detail,
        "the endpoint did not answer HTTP/1.x"
    );
}

#[test]
fn writing_goes_on_until_everything_is_sent() {
    assert_eq!(write_step(3, 10, WriteEvent::Wrote(7), "a").unwrap(), 10);
    assert_eq!(write_step(3, 10, WriteEvent::Interrupted, "a").unwrap(), 3);
    let stopped = write_step(3, 10, WriteEvent::Wrote(0), "127.0.0.1:1").unwrap_err();
    assert_eq!(stopped.class, Some(FailureClass::EndpointFailed));
    assert_eq!(
        stopped.detail,
        "127.0.0.1:1 stopped accepting the delivery after 3 of 10 bytes"
    );
    let late = write_step(0, 1, WriteEvent::TimedOut("slow".to_owned()), "h:1").unwrap_err();
    assert_eq!(late.class, Some(FailureClass::DeadlineExceeded));
    assert_eq!(
        late.detail,
        "sending the delivery to h:1 did not complete before the deadline: slow"
    );
    let broken = write_step(0, 1, WriteEvent::Failed("reset".to_owned()), "h:1").unwrap_err();
    assert_eq!(broken.class, Some(FailureClass::EndpointFailed));
    assert_eq!(broken.detail, "sending the delivery to h:1: reset");
}

#[test]
fn reading_collects_the_answer_and_classifies_what_stops_it() {
    let mut buffer = vec![1];
    assert_eq!(
        read_step(&mut buffer, ReadEvent::Got(vec![2, 3])).unwrap(),
        ReadStep::More
    );
    assert_eq!(buffer, [1, 2, 3]);
    assert_eq!(
        read_step(&mut buffer, ReadEvent::Closed).unwrap(),
        ReadStep::Closed
    );
    assert_eq!(
        read_step(&mut buffer, ReadEvent::Interrupted).unwrap(),
        ReadStep::Again
    );
    let late = read_step(&mut buffer, ReadEvent::TimedOut("t".to_owned())).unwrap_err();
    assert_eq!(late.class, Some(FailureClass::DeadlineExceeded));
    assert_eq!(
        late.detail,
        "the endpoint's response did not arrive before the deadline: t"
    );
    let broken = read_step(&mut buffer, ReadEvent::Failed("f".to_owned())).unwrap_err();
    assert_eq!(broken.class, Some(FailureClass::EndpointFailed));
    assert_eq!(broken.detail, "reading the endpoint's response: f");
    assert_eq!(buffer, [1, 2, 3]);
}

#[test]
fn a_head_is_split_off_once_it_is_complete() {
    assert_eq!(head_step(b"HTTP/1.1 200 OK\r\n").unwrap(), None);
    let too_long = vec![b'a'; 8193];
    let error = head_step(&too_long).unwrap_err();
    assert_eq!(error.class, Some(FailureClass::ResponseInvalid));
    assert_eq!(
        error.detail,
        "the endpoint's response head exceeds 8192 bytes"
    );
    let answer = b"HTTP/1.1 200 OK\r\n\r\nbody".to_vec();
    let end = head_step(&answer).unwrap().expect("a complete head");
    let head = split_head(answer, end).unwrap();
    assert_eq!(head.text, "HTTP/1.1 200 OK\r\n\r\n");
    assert_eq!(head.body, b"body");
    let error = split_head(vec![0xff, b'a'], 1).unwrap_err();
    assert_eq!(error.detail, "the endpoint's response head is not UTF-8");
    let error = head_closed::<()>().unwrap_err();
    assert_eq!(error.class, Some(FailureClass::EndpointFailed));
    assert_eq!(
        error.detail,
        "the endpoint closed the connection before its response head completed"
    );
}

#[test]
fn an_acknowledgement_is_complete_at_exactly_its_declared_length() {
    assert!(!body_step(3, 5).unwrap());
    assert!(body_step(5, 5).unwrap());
    assert_eq!(
        body_step(6, 5).unwrap_err().detail,
        "the endpoint sent 6 bytes for a 5-byte acknowledgement"
    );
    assert_eq!(
        body_closed::<()>(3, 5).unwrap_err().detail,
        "the endpoint closed the connection after 3 of 5 acknowledgement bytes"
    );
    assert_eq!(
        acknowledgement_failure::<()>("no event").unwrap_err().detail,
        "the endpoint accepted the delivery but acknowledged it invalidly: no event"
    );
}

#[test]
fn a_failed_connection_is_a_deadline_or_an_unreachable_endpoint() {
    assert!(timed_out(IoKind::TimedOut));
    assert!(timed_out(IoKind::WouldBlock));
    assert!(!timed_out(IoKind::Interrupted));
    assert!(!timed_out(IoKind::Other));
    let late = connect_failure::<()>(IoKind::TimedOut, "h:1", "slow").unwrap_err();
    assert_eq!(late.class, Some(FailureClass::DeadlineExceeded));
    assert_eq!(
        late.detail,
        "connecting to h:1 did not complete before the deadline: slow"
    );
    let refused = connect_failure::<()>(IoKind::Other, "h:1", "refused").unwrap_err();
    assert_eq!(refused.class, Some(FailureClass::EndpointUnreachable));
    assert_eq!(refused.detail, "connecting to h:1: refused");
    assert_eq!(
        arming_failure::<()>("delivery write", "bad").unwrap_err().detail,
        "arming the delivery write deadline: bad"
    );
}

#[test]
fn requests_and_responses_are_bounded() {
    assert!(check_request_size(1_048_576).is_ok());
    assert_eq!(
        check_request_size(1_048_577).unwrap_err().to_string(),
        "adapter request exceeds 1048576 bytes"
    );
    assert!(check_response_size(65_536).is_ok());
    assert_eq!(
        check_response_size(65_537).unwrap_err().to_string(),
        "adapter response exceeds 65536 bytes"
    );
}

#[test]
fn numbers_may_carry_a_plus_and_nothing_else() {
    assert_eq!(read_unsigned("+12", 100), Some(12));
    assert_eq!(read_unsigned("0012", 100), Some(12));
    assert_eq!(read_unsigned("+", 100), None);
    assert_eq!(read_unsigned("", 100), None);
    assert_eq!(read_unsigned("-1", 100), None);
    assert_eq!(read_unsigned("101", 100), None);
    assert_eq!(read_unsigned("18446744073709551615", u64::MAX), Some(u64::MAX));
    assert_eq!(read_unsigned("18446744073709551616", u64::MAX), None);
}
