//! The adapter's arguments, and the request and the answer on the wire.

use vstd::prelude::*;

use crate::opencode_adapter;
use crate::opencode_adapter::AdapterError;
use crate::opencode_adapter::Endpoint;
use crate::opencode_adapter::FailureClass;
use crate::opencode_adapter::HostLiteral;
use crate::opencode_adapter::ENQUEUE_TURN_ACTION_ID;
use crate::opencode_adapter::MAX_BODY_BYTES;
use crate::opencode_adapter::MAX_HEAD_BYTES;
use crate::opencode_adapter::MAX_STDIN_BYTES;
use crate::opencode_adapter::MAX_TIMEOUT_MS;
use crate::opencode_adapter::MIN_TIMEOUT_MS;
use crate::opencode_adapter::OPENCODE_CONSUMER_ID;
use crate::outside;
use crate::text;
use crate::tokens;

verus! {

// ---------------------------------------------------------------------------- arguments

/// One argument: its text, none where it is no UTF-8, and what the host in it was
/// recognised as.
#[derive(Debug)]
pub struct Argument {
    pub text: Option<String>,
    pub literal: HostLiteral,
}

#[derive(Debug, Clone, PartialEq, Eq)]
pub struct Args {
    pub endpoint: Endpoint,
    pub request_timeout_ms: u64,
}

/// What the arguments ask for.
#[derive(Debug, Clone, PartialEq, Eq)]
pub enum Outcome {
    Help,
    Version,
    Args(Args),
}

/// The timeout that is asked for, or why it is none.
pub open spec fn timeout_of(value: Seq<char>) -> Result<u64, Seq<char>> {
    match opencode_adapter::unsigned(value, u64::MAX as nat) {
        None => Err("--request-timeout-ms must be an integer"@),
        Some(n) => if n < MIN_TIMEOUT_MS || n > MAX_TIMEOUT_MS {
            Err("--request-timeout-ms must be in 1000..=300000"@)
        } else {
            Ok(n as u64)
        },
    }
}

/// Reads a timeout.
pub fn parse_timeout_ms(value: &str) -> (r: Result<u64, AdapterError>)
    ensures
        match timeout_of(value@) {
            Err(m) => opencode_adapter::fails(r, None, m),
            Ok(n) => r == Ok::<u64, AdapterError>(n),
        },
{
    match opencode_adapter::read_unsigned(value, u64::MAX) {
        None => opencode_adapter::unclassified(
            "--request-timeout-ms must be an integer".to_owned(),
        ),
        Some(n) => if n < MIN_TIMEOUT_MS || n > MAX_TIMEOUT_MS {
            opencode_adapter::unclassified(
                "--request-timeout-ms must be in 1000..=300000".to_owned(),
            )
        } else {
            Ok(n)
        },
    }
}

/// What the flags from a place on come to: the endpoint's text and the timeout, or what
/// they are refused with.
pub open spec fn flags_from(
    args: Seq<Argument>,
    i: int,
    endpoint: Option<Seq<char>>,
    timeout: Option<u64>,
) -> Result<(Seq<char>, u64), Seq<char>>
    decreases args.len() - i,
{
    if i >= args.len() {
        match (endpoint, timeout) {
            (None, _) => Err("missing required flag: --endpoint"@),
            (_, None) => Err("missing required flag: --request-timeout-ms"@),
            (Some(e), Some(t)) => Ok((e, t)),
        }
    } else {
        match text::text_of(args[i].text) {
            None => Err("non-UTF-8 argument"@),
            Some(flag) => if !"--"@.is_prefix_of(flag) {
                Err("positional argument is not allowed: "@ + flag)
            } else if i + 1 >= args.len() {
                Err("missing value for "@ + flag)
            } else {
                match text::text_of(args[i + 1].text) {
                    None => Err("non-UTF-8 value"@),
                    Some(value) => if "--"@.is_prefix_of(value) {
                        Err("missing value for "@ + flag)
                    } else if flag == "--endpoint"@ {
                        match opencode_adapter::endpoint_refusal(value, args[i + 1].literal) {
                            Some(m) => Err(m),
                            None => if endpoint is Some {
                                Err("argument repeated: "@ + flag)
                            } else {
                                flags_from(args, i + 2, Some(value), timeout)
                            },
                        }
                    } else if flag == "--request-timeout-ms"@ {
                        match timeout_of(value) {
                            Err(m) => Err(m),
                            Ok(t) => if timeout is Some {
                                Err("argument repeated: "@ + flag)
                            } else {
                                flags_from(args, i + 2, endpoint, Some(t))
                            },
                        }
                    } else {
                        Err("unknown argument: "@ + flag)
                    },
                }
            },
        }
    }
}

/// The one argument behind the program's name.
pub open spec fn sole_argument(args: Seq<Argument>) -> Option<Seq<char>> {
    if args.len() == 2 {
        text::text_of(args[1].text)
    } else {
        None
    }
}

/// What the arguments come to is this.
pub open spec fn is_outcome(r: Result<Outcome, AdapterError>, args: Seq<Argument>) -> bool {
    if sole_argument(args) == Some("--help"@) {
        r == Ok::<Outcome, AdapterError>(Outcome::Help)
    } else if sole_argument(args) == Some("--version"@) {
        r == Ok::<Outcome, AdapterError>(Outcome::Version)
    } else {
        match flags_from(args, 1, None, None) {
            Err(m) => opencode_adapter::fails(r, None, m),
            Ok((value, timeout)) => r is Ok && r->Ok_0 is Args
                && opencode_adapter::is_endpoint(r->Ok_0->Args_0.endpoint, value)
                && r->Ok_0->Args_0.request_timeout_ms == timeout,
        }
    }
}

/// The contents of an optional endpoint are those of a text.
pub open spec fn holds_endpoint(e: Option<Endpoint>, value: Option<Seq<char>>) -> bool {
    match (e, value) {
        (Some(endpoint), Some(v)) => opencode_adapter::is_endpoint(endpoint, v),
        (None, None) => true,
        _ => false,
    }
}

/// Puts a value into a slot that is still empty.
pub fn assign_once<T>(slot: &mut Option<T>, value: T, flag: &str) -> (r: Result<(), AdapterError>)
    ensures
        match *old(slot) {
            Some(_) => opencode_adapter::fails(r, None, "argument repeated: "@ + flag@)
                && *final(slot) == *old(slot),
            None => r is Ok && *final(slot) == Some(value),
        },
{
    if slot.is_some() {
        return opencode_adapter::unclassified("argument repeated: ".to_owned().concat(flag));
    }
    *slot = Some(value);
    Ok(())
}

fn read_flags(args: &[Argument]) -> (r: Result<Args, AdapterError>)
    ensures
        match flags_from(args@, 1, None, None) {
            Err(m) => opencode_adapter::fails(r, None, m),
            Ok((value, timeout)) => r is Ok && opencode_adapter::is_endpoint(
                r->Ok_0.endpoint,
                value,
            ) && r->Ok_0.request_timeout_ms == timeout,
        },
{
    let mut endpoint: Option<Endpoint> = None;
    let mut timeout: Option<u64> = None;
    let ghost mut named: Option<Seq<char>> = None;
    let mut i: usize = 1;
    let n: usize = args.len();
    while i < n
        invariant
            1 <= i,
            n == args@.len(),
            i <= n + 1,
            holds_endpoint(endpoint, named),
            flags_from(args@, 1, None, None) == flags_from(args@, i as int, named, timeout),
        decreases n + 1 - i,
    {
        let flag = match &args[i].text {
            None => {
                return opencode_adapter::unclassified("non-UTF-8 argument".to_owned());
            },
            Some(flag) => flag.as_str(),
        };
        if !text::starts_with(flag, "--") {
            return opencode_adapter::unclassified(
                "positional argument is not allowed: ".to_owned().concat(flag),
            );
        }
        if n - i < 2 {
            return opencode_adapter::unclassified("missing value for ".to_owned().concat(flag));
        }
        let value = match &args[i + 1].text {
            None => {
                return opencode_adapter::unclassified("non-UTF-8 value".to_owned());
            },
            Some(value) => value.as_str(),
        };
        if text::starts_with(value, "--") {
            return opencode_adapter::unclassified("missing value for ".to_owned().concat(flag));
        }
        if text::same(flag, "--endpoint") {
            let parsed = match opencode_adapter::parse_endpoint(value, args[i + 1].literal) {
                Err(e) => {
                    return Err(e);
                },
                Ok(parsed) => parsed,
            };
            if let Err(e) = assign_once(&mut endpoint, parsed, flag) {
                return Err(e);
            }
            proof {
                named = Some(value@);
            }
        } else if text::same(flag, "--request-timeout-ms") {
            let parsed: u64 = match parse_timeout_ms(value) {
                Err(e) => {
                    return Err(e);
                },
                Ok(parsed) => parsed,
            };
            if let Err(e) = assign_once(&mut timeout, parsed, flag) {
                return Err(e);
            }
        } else {
            return opencode_adapter::unclassified("unknown argument: ".to_owned().concat(flag));
        }
        i = i + 2;
    }
    match endpoint {
        None => opencode_adapter::unclassified("missing required flag: --endpoint".to_owned()),
        Some(endpoint) => match timeout {
            None => opencode_adapter::unclassified(
                "missing required flag: --request-timeout-ms".to_owned(),
            ),
            Some(request_timeout_ms) => Ok(Args { endpoint, request_timeout_ms }),
        },
    }
}

/// What the arguments ask for; the first is the program's name.
pub fn parse_outcome(args: &[Argument]) -> (r: Result<Outcome, AdapterError>)
    ensures
        is_outcome(r, args@),
{
    if args.len() == 2 {
        if let Some(one) = &args[1].text {
            if text::same(one.as_str(), "--help") {
                return Ok(Outcome::Help);
            }
            if text::same(one.as_str(), "--version") {
                proof {
                    reveal_strlit("--help");
                    reveal_strlit("--version");
                    assert("--help"@.len() != "--version"@.len());
                }
                return Ok(Outcome::Version);
            }
        }
    }
    match read_flags(args) {
        Err(e) => Err(e),
        Ok(found) => Ok(Outcome::Args(found)),
    }
}

// ------------------------------------------------------------------------------ targets

/// Only this consumer and this action are delivered.
pub fn validate_request_target(consumer_id: &str, action_id: &str) -> (r: Result<
    (),
    AdapterError,
>)
    ensures
        if consumer_id@ != OPENCODE_CONSUMER_ID@ {
            opencode_adapter::fails(
                r,
                None,
                "adapter target consumer ID must be "@ + OPENCODE_CONSUMER_ID@,
            )
        } else if action_id@ != ENQUEUE_TURN_ACTION_ID@ {
            opencode_adapter::fails(
                r,
                None,
                "adapter target action ID must be "@ + ENQUEUE_TURN_ACTION_ID@,
            )
        } else {
            r is Ok
        },
{
    if !text::same(consumer_id, OPENCODE_CONSUMER_ID) {
        return opencode_adapter::unclassified(
            "adapter target consumer ID must be ".to_owned().concat(OPENCODE_CONSUMER_ID),
        );
    }
    if !text::same(action_id, ENQUEUE_TURN_ACTION_ID) {
        return opencode_adapter::unclassified(
            "adapter target action ID must be ".to_owned().concat(ENQUEUE_TURN_ACTION_ID),
        );
    }
    Ok(())
}

/// A delivery that is read must not be too large.
pub fn check_request_size(bytes: usize) -> (r: Result<(), AdapterError>)
    ensures
        if bytes > MAX_STDIN_BYTES {
            opencode_adapter::fails(r, None, "adapter request exceeds 1048576 bytes"@)
        } else {
            r is Ok
        },
{
    if bytes > MAX_STDIN_BYTES {
        return opencode_adapter::unclassified(
            "adapter request exceeds 1048576 bytes".to_owned(),
        );
    }
    Ok(())
}

/// An acknowledgement that is passed on must not be too large.
pub fn check_response_size(bytes: usize) -> (r: Result<(), AdapterError>)
    ensures
        if bytes > MAX_BODY_BYTES {
            opencode_adapter::fails(r, None, "adapter response exceeds 65536 bytes"@)
        } else {
            r is Ok
        },
{
    if bytes > MAX_BODY_BYTES {
        return opencode_adapter::unclassified(
            "adapter response exceeds 65536 bytes".to_owned(),
        );
    }
    Ok(())
}

// ------------------------------------------------------------------------------ requests

/// The head of a request for a body of so many bytes.
pub open spec fn request_head(endpoint: Endpoint, version: Seq<char>, length: nat) -> Seq<char> {
    "POST "@ + endpoint.path@ + " HTTP/1.1\r\nHost: "@ + endpoint.authority@
        + "\r\nUser-Agent: kanban-opencode-adapter/"@ + version
        + "\r\nContent-Type: application/json\r\nContent-Length: "@ + text::digits(length)
        + "\r\nConnection: close\r\n\r\n"@
}

/// The bytes of a request: its head, which declares the length of the body, and the
/// body as it is.
pub fn request_bytes(endpoint: &Endpoint, version: &str, body: &[u8]) -> (r: Vec<u8>)
    ensures
        r@ == vstd::utf8::encode_utf8(request_head(*endpoint, version@, body@.len())) + body@,
{
    let length = text::show_u64(body.len() as u64);
    let head = "POST ".to_owned().concat(endpoint.path.as_str()).concat(
        " HTTP/1.1\r\nHost: ",
    ).concat(endpoint.authority.as_str()).concat(
        "\r\nUser-Agent: kanban-opencode-adapter/",
    ).concat(version).concat("\r\nContent-Type: application/json\r\nContent-Length: ").concat(
        length.as_str(),
    ).concat("\r\nConnection: close\r\n\r\n");
    let mut bytes: Vec<u8> = Vec::new();
    put_bytes(&mut bytes, head.as_str().as_bytes());
    put_bytes(&mut bytes, body);
    proof {
        assert(bytes@ =~= vstd::utf8::encode_utf8(head@) + body@);
    }
    bytes
}

fn put_bytes(out: &mut Vec<u8>, more: &[u8])
    ensures
        final(out)@ == old(out)@ + more@,
{
    let ghost start = out@;
    let mut i: usize = 0;
    proof {
        assert(start + more@.take(0) =~= start);
    }
    while i < more.len()
        invariant
            i <= more@.len(),
            start == old(out)@,
            out@ == start + more@.take(i as int),
        decreases more.len() - i,
    {
        proof {
            assert(more@.take(i as int + 1) =~= more@.take(i as int).push(more@[i as int]));
            assert((start + more@.take(i as int)).push(more@[i as int]) =~= start + more@.take(
                i as int + 1,
            ));
        }
        out.push(more[i]);
        i = i + 1;
    }
    proof {
        assert(more@.take(more@.len() as int) =~= more@);
    }
}

/// What an attempt to write came to.
#[derive(Debug)]
pub enum WriteEvent {
    Wrote(usize),
    Interrupted,
    TimedOut(String),
    Failed(String),
}

/// How far a request has been written after one attempt, or what it failed with.
pub fn write_step(written: usize, total: usize, event: WriteEvent, address: &str) -> (r: Result<
    usize,
    AdapterError,
>)
    requires
        written < total,
        event is Wrote ==> event->Wrote_0 <= total - written,
    ensures
        match event {
            WriteEvent::Wrote(n) => if n == 0 {
                opencode_adapter::fails(
                    r,
                    Some(FailureClass::EndpointFailed),
                    address@ + " stopped accepting the delivery after "@ + text::digits(
                        written as nat,
                    ) + " of "@ + text::digits(total as nat) + " bytes"@,
                )
            } else {
                r is Ok && r->Ok_0 == written + n
            },
            WriteEvent::Interrupted => r is Ok && r->Ok_0 == written,
            WriteEvent::TimedOut(why) => opencode_adapter::fails(
                r,
                Some(FailureClass::DeadlineExceeded),
                "sending the delivery to "@ + address@
                    + " did not complete before the deadline: "@ + why@,
            ),
            WriteEvent::Failed(why) => opencode_adapter::fails(
                r,
                Some(FailureClass::EndpointFailed),
                "sending the delivery to "@ + address@ + ": "@ + why@,
            ),
        },
{
    match event {
        WriteEvent::Wrote(n) => {
            if n == 0 {
                let done = text::show_u64(written as u64);
                let all = text::show_u64(total as u64);
                return opencode_adapter::failed(
                    FailureClass::EndpointFailed,
                    address.to_owned().concat(" stopped accepting the delivery after ").concat(
                        done.as_str(),
                    ).concat(" of ").concat(all.as_str()).concat(" bytes"),
                );
            }
            Ok(written + n)
        },
        WriteEvent::Interrupted => Ok(written),
        WriteEvent::TimedOut(why) => opencode_adapter::failed(
            FailureClass::DeadlineExceeded,
            "sending the delivery to ".to_owned().concat(address).concat(
                " did not complete before the deadline: ",
            ).concat(why.as_str()),
        ),
        WriteEvent::Failed(why) => opencode_adapter::failed(
            FailureClass::EndpointFailed,
            "sending the delivery to ".to_owned().concat(address).concat(": ").concat(
                why.as_str(),
            ),
        ),
    }
}

// ------------------------------------------------------------------------------ failures

/// The time that is left of a deadline, in whatever unit; none is a failure of its own.
pub fn remaining(left: u128) -> (r: Result<u128, AdapterError>)
    ensures
        if left == 0 {
            opencode_adapter::fails(
                r,
                Some(FailureClass::DeadlineExceeded),
                "the request deadline elapsed"@,
            )
        } else {
            r == Ok::<u128, AdapterError>(left)
        },
{
    if left == 0 {
        return opencode_adapter::failed(
            FailureClass::DeadlineExceeded,
            "the request deadline elapsed".to_owned(),
        );
    }
    Ok(left)
}

/// The kinds of failure of an attempt to read, write or connect that matter here.
#[derive(Debug, Clone, Copy, PartialEq, Eq, Structural)]
pub enum IoKind {
    TimedOut,
    WouldBlock,
    Interrupted,
    Other,
}

/// Whether an attempt ran out of time.
pub fn timed_out(kind: IoKind) -> (r: bool)
    ensures
        r == (kind == IoKind::TimedOut || kind == IoKind::WouldBlock),
{
    match kind {
        IoKind::TimedOut => true,
        IoKind::WouldBlock => true,
        IoKind::Interrupted => false,
        IoKind::Other => false,
    }
}

/// What a connection that could not be made is reported as.
pub fn connect_failure<T>(kind: IoKind, address: &str, why: &str) -> (r: Result<T, AdapterError>)
    ensures
        if kind == IoKind::TimedOut || kind == IoKind::WouldBlock {
            opencode_adapter::fails(
                r,
                Some(FailureClass::DeadlineExceeded),
                "connecting to "@ + address@ + " did not complete before the deadline: "@ + why@,
            )
        } else {
            opencode_adapter::fails(
                r,
                Some(FailureClass::EndpointUnreachable),
                "connecting to "@ + address@ + ": "@ + why@,
            )
        },
{
    if timed_out(kind) {
        return opencode_adapter::failed(
            FailureClass::DeadlineExceeded,
            "connecting to ".to_owned().concat(address).concat(
                " did not complete before the deadline: ",
            ).concat(why),
        );
    }
    opencode_adapter::failed(
        FailureClass::EndpointUnreachable,
        "connecting to ".to_owned().concat(address).concat(": ").concat(why),
    )
}

/// What a deadline that could not be set is reported as.
pub fn arming_failure<T>(what: &str, why: &str) -> (r: Result<T, AdapterError>)
    ensures
        opencode_adapter::fails(
            r,
            Some(FailureClass::EndpointFailed),
            "arming the "@ + what@ + " deadline: "@ + why@,
        ),
{
    opencode_adapter::failed(
        FailureClass::EndpointFailed,
        "arming the ".to_owned().concat(what).concat(" deadline: ").concat(why),
    )
}

/// What an acknowledgement that does not fit the delivery is reported as.
pub fn acknowledgement_failure<T>(why: &str) -> (r: Result<T, AdapterError>)
    ensures
        opencode_adapter::fails(
            r,
            Some(FailureClass::ResponseInvalid),
            "the endpoint accepted the delivery but acknowledged it invalidly: "@ + why@,
        ),
{
    opencode_adapter::failed(
        FailureClass::ResponseInvalid,
        "the endpoint accepted the delivery but acknowledged it invalidly: ".to_owned().concat(
            why,
        ),
    )
}

// ------------------------------------------------------------------------------- answers

/// What an attempt to read came to.
#[derive(Debug)]
pub enum ReadEvent {
    Closed,
    Got(Vec<u8>),
    Interrupted,
    TimedOut(String),
    Failed(String),
}

/// What is known after an attempt to read: whether there was more, or that it has to be
/// made again.
#[derive(Debug, Clone, Copy, PartialEq, Eq, Structural)]
pub enum ReadStep {
    More,
    Closed,
    Again,
}

/// Takes what an attempt to read came to.
pub fn read_step(buffer: &mut Vec<u8>, event: ReadEvent) -> (r: Result<ReadStep, AdapterError>)
    ensures
        match event {
            ReadEvent::Closed => r == Ok::<ReadStep, AdapterError>(ReadStep::Closed)
                && final(buffer)@ == old(buffer)@,
            ReadEvent::Got(bytes) => r == Ok::<ReadStep, AdapterError>(ReadStep::More)
                && final(buffer)@ == old(buffer)@ + bytes@,
            ReadEvent::Interrupted => r == Ok::<ReadStep, AdapterError>(ReadStep::Again)
                && final(buffer)@ == old(buffer)@,
            ReadEvent::TimedOut(why) => opencode_adapter::fails(
                r,
                Some(FailureClass::DeadlineExceeded),
                "the endpoint's response did not arrive before the deadline: "@ + why@,
            ) && final(buffer)@ == old(buffer)@,
            ReadEvent::Failed(why) => opencode_adapter::fails(
                r,
                Some(FailureClass::EndpointFailed),
                "reading the endpoint's response: "@ + why@,
            ) && final(buffer)@ == old(buffer)@,
        },
{
    match event {
        ReadEvent::Closed => Ok(ReadStep::Closed),
        ReadEvent::Got(bytes) => {
            put_bytes(buffer, bytes.as_slice());
            Ok(ReadStep::More)
        },
        ReadEvent::Interrupted => Ok(ReadStep::Again),
        ReadEvent::TimedOut(why) => opencode_adapter::failed(
            FailureClass::DeadlineExceeded,
            "the endpoint's response did not arrive before the deadline: ".to_owned().concat(
                why.as_str(),
            ),
        ),
        ReadEvent::Failed(why) => opencode_adapter::failed(
            FailureClass::EndpointFailed,
            "reading the endpoint's response: ".to_owned().concat(why.as_str()),
        ),
    }
}

/// A blank line ends here.
pub open spec fn ends_head(buffer: Seq<u8>, i: int) -> bool {
    0 <= i && i + 4 <= buffer.len() && buffer[i] == 13 && buffer[i + 1] == 10 && buffer[i + 2]
        == 13 && buffer[i + 3] == 10
}

/// Where the head of an answer ends: behind its first blank line.
pub fn head_end(buffer: &[u8]) -> (r: Option<usize>)
    ensures
        match r {
            Some(end) => 4 <= end <= buffer@.len() && ends_head(buffer@, end - 4) && forall|
                k: int,
            |
                k < end - 4 ==> !#[trigger] ends_head(buffer@, k),
            None => forall|k: int| !#[trigger] ends_head(buffer@, k),
        },
{
    let n: usize = buffer.len();
    if n < 4 {
        return None;
    }
    let mut i: usize = 0;
    loop
        invariant
            4 <= n == buffer@.len(),
            i <= n - 4,
            forall|k: int| k < i ==> !#[trigger] ends_head(buffer@, k),
        decreases n - i,
    {
        if buffer[i] == 13 && buffer[i + 1] == 10 && buffer[i + 2] == 13 && buffer[i + 3] == 10 {
            proof {
                assert(ends_head(buffer@, i as int));
            }
            return Some(i + 4);
        }
        if i == n - 4 {
            return None;
        }
        i = i + 1;
    }
}

/// Whether the head of an answer is complete, or too long; none where more is needed.
pub fn head_step(buffer: &[u8]) -> (r: Result<Option<usize>, AdapterError>)
    ensures
        if exists|k: int| #[trigger] ends_head(buffer@, k) {
            r is Ok && r->Ok_0 is Some && 4 <= r->Ok_0->0 <= buffer@.len() && ends_head(
                buffer@,
                r->Ok_0->0 - 4,
            ) && forall|k: int| k < r->Ok_0->0 - 4 ==> !#[trigger] ends_head(buffer@, k)
        } else if buffer@.len() > MAX_HEAD_BYTES {
            opencode_adapter::fails(
                r,
                Some(FailureClass::ResponseInvalid),
                "the endpoint's response head exceeds 8192 bytes"@,
            )
        } else {
            r == Ok::<Option<usize>, AdapterError>(None)
        },
{
    match head_end(buffer) {
        Some(end) => Ok(Some(end)),
        None => {
            if buffer.len() > MAX_HEAD_BYTES {
                return opencode_adapter::failed(
                    FailureClass::ResponseInvalid,
                    "the endpoint's response head exceeds 8192 bytes".to_owned(),
                );
            }
            Ok(None)
        },
    }
}

/// What an answer whose head never completed is reported as.
pub fn head_closed<T>() -> (r: Result<T, AdapterError>)
    ensures
        opencode_adapter::fails(
            r,
            Some(FailureClass::EndpointFailed),
            "the endpoint closed the connection before its response head completed"@,
        ),
{
    opencode_adapter::failed(
        FailureClass::EndpointFailed,
        "the endpoint closed the connection before its response head completed".to_owned(),
    )
}

/// The head of an answer, and what came of its body with it.
#[derive(Debug)]
pub struct Head {
    pub text: String,
    pub body: Vec<u8>,
}

/// Takes an answer apart behind its head.
pub fn split_head(buffer: Vec<u8>, end: usize) -> (r: Result<Head, AdapterError>)
    requires
        end <= buffer@.len(),
    ensures
        if vstd::utf8::valid_utf8(buffer@.take(end as int)) {
            r is Ok && vstd::utf8::encode_utf8(r->Ok_0.text@) == buffer@.take(end as int)
                && r->Ok_0.body@ == buffer@.skip(end as int)
        } else {
            opencode_adapter::fails(
                r,
                Some(FailureClass::ResponseInvalid),
                "the endpoint's response head is not UTF-8"@,
            )
        },
{
    let mut head = buffer;
    let ghost all = head@;
    let body = head.split_off(end);
    proof {
        assert(head@ =~= all.take(end as int));
        assert(body@ =~= all.skip(end as int));
    }
    match outside::read_utf8(head) {
        Some(text) => Ok(Head { text, body }),
        None => opencode_adapter::failed(
            FailureClass::ResponseInvalid,
            "the endpoint's response head is not UTF-8".to_owned(),
        ),
    }
}

/// Where the first line break is, or the length.
pub open spec fn find_break(s: Seq<char>) -> int
    decreases s.len(),
{
    if s.len() == 0 {
        0
    } else if s.len() >= 2 && s[0] == '\r' && s[1] == '\n' {
        0
    } else {
        1 + find_break(s.skip(1))
    }
}

/// The lines of a head.
pub open spec fn head_lines(s: Seq<char>) -> Seq<Seq<char>>
    decreases s.len(),
{
    let i = find_break(s);
    if 0 <= i < s.len() && i + 2 <= s.len() {
        seq![s.take(i)] + head_lines(s.skip(i + 2))
    } else {
        seq![s]
    }
}

fn find_break_from(cs: &[char], from: usize) -> (r: usize)
    requires
        from <= cs@.len(),
    ensures
        r == from + find_break(cs@.skip(from as int)),
        from <= r <= cs@.len(),
        r < cs@.len() ==> r + 2 <= cs@.len(),
{
    let mut i: usize = from;
    let n: usize = cs.len();
    while i < n && !(n - i >= 2 && cs[i] == '\r' && cs[i + 1] == '\n')
        invariant
            from <= i <= n == cs@.len(),
            from + find_break(cs@.skip(from as int)) == i + find_break(cs@.skip(i as int)),
        decreases n - i,
    {
        proof {
            assert(cs@.skip(i as int).skip(1) =~= cs@.skip(i as int + 1));
        }
        i = i + 1;
    }
    i
}

fn split_lines(s: &str) -> (r: Vec<String>)
    ensures
        text::texts(r@) == head_lines(s@),
{
    let cs = text::chars_of(s);
    let mut out: Vec<String> = Vec::new();
    let mut from: usize = 0;
    proof {
        assert(s@.skip(0) =~= s@);
        assert(text::texts(out@) + head_lines(s@) =~= head_lines(s@));
    }
    loop
        invariant_except_break
            from <= cs@.len(),
            cs@ == s@,
            head_lines(s@) == text::texts(out@) + head_lines(s@.skip(from as int)),
        ensures
            text::texts(out@) == head_lines(s@),
        decreases cs.len() - from,
    {
        let end: usize = find_break_from(cs.as_slice(), from);
        let piece = s.substring_char(from, end).to_owned();
        let ghost before = out@;
        let ghost rest = s@.skip(from as int);
        out.push(piece);
        proof {
            assert(text::texts(out@) =~= text::texts(before).push(piece@));
            assert(rest.take(end - from) =~= s@.subrange(from as int, end as int));
        }
        if end >= cs.len() {
            proof {
                assert(rest.take(end - from) =~= rest);
                assert(text::texts(out@) =~= text::texts(before) + seq![rest]);
            }
            break;
        }
        proof {
            assert(rest.skip(end - from + 2) =~= s@.skip(end as int + 2));
            assert(text::texts(before) + (seq![rest.take(end - from)] + head_lines(
                s@.skip(end as int + 2),
            )) =~= text::texts(out@) + head_lines(s@.skip(end as int + 2)));
        }
        from = end + 2;
    }
    out
}

/// The first line of a head.
pub fn status_line(head: &str) -> (r: &str)
    ensures
        r@ == head@.take(find_break(head@)),
{
    let cs = text::chars_of(head);
    proof {
        assert(cs@.skip(0) =~= cs@);
    }
    let end: usize = find_break_from(cs.as_slice(), 0);
    let r = head.substring_char(0, end);
    proof {
        assert(r@ =~= head@.take(end as int));
    }
    r
}

/// What stands behind the version in a status line.
pub open spec fn status_rest(line: Seq<char>) -> Option<Seq<char>> {
    match text::stripped_prefix(line, "HTTP/1.1 "@) {
        Some(rest) => Some(rest),
        None => text::stripped_prefix(line, "HTTP/1.0 "@),
    }
}

pub open spec fn status_code(rest: Seq<char>) -> Seq<char> {
    rest.take(text::find_char(rest, ' '))
}

/// The status that a status line names, or why it names none.
pub open spec fn status_of(line: Seq<char>) -> Result<u16, Seq<char>> {
    match status_rest(line) {
        None => Err("the endpoint did not answer HTTP/1.x"@),
        Some(rest) => if status_code(rest).len() == 3 && opencode_adapter::all_digits(
            status_code(rest),
        ) {
            Ok(opencode_adapter::number_of(status_code(rest)) as u16)
        } else {
            Err("the endpoint's status code is not three digits"@)
        },
    }
}

/// Reads a status line.
pub fn parse_status_line(line: &str) -> (r: Result<u16, AdapterError>)
    ensures
        match status_of(line@) {
            Err(m) => opencode_adapter::fails(r, Some(FailureClass::ResponseInvalid), m),
            Ok(status) => r == Ok::<u16, AdapterError>(status),
        },
{
    let rest = match text::strip_prefix(line, "HTTP/1.1 ") {
        Some(rest) => rest,
        None => match text::strip_prefix(line, "HTTP/1.0 ") {
            Some(rest) => rest,
            None => {
                return opencode_adapter::failed(
                    FailureClass::ResponseInvalid,
                    "the endpoint did not answer HTTP/1.x".to_owned(),
                );
            },
        },
    };
    let cs = text::chars_of(rest);
    proof {
        assert(cs@.skip(0) =~= cs@);
        text::lemma_find_char(rest@, ' ');
    }
    let end: usize = text::find_from(cs.as_slice(), 0, ' ');
    let code = rest.substring_char(0, end);
    proof {
        assert(code@ =~= status_code(rest@));
        if code@.len() == 3 && code@[0] == '+' {
            assert(!opencode_adapter::is_digit(code@[0]));
        }
    }
    if end == 3 && rest.get_char(0) != '+' {
        if let Some(n) = opencode_adapter::read_unsigned(code, 65535) {
            return Ok(n as u16);
        }
        proof {
            if opencode_adapter::all_digits(code@) {
                lemma_three_digits(code@);
            }
        }
    }
    opencode_adapter::failed(
        FailureClass::ResponseInvalid,
        "the endpoint's status code is not three digits".to_owned(),
    )
}

proof fn lemma_three_digits(s: Seq<char>)
    requires
        s.len() == 3,
        opencode_adapter::all_digits(s),
    ensures
        opencode_adapter::number_of(s) <= 999,
{
    let a = s.drop_last();
    let b = a.drop_last();
    let c = b.drop_last();
    assert(c.len() == 0);
    assert(opencode_adapter::number_of(c) == 0);
    assert(opencode_adapter::is_digit(s[0]) && opencode_adapter::is_digit(s[1])
        && opencode_adapter::is_digit(s[2]));
    assert(b.last() == s[0] && a.last() == s[1] && s.last() == s[2]);
    assert(opencode_adapter::number_of(b) <= 9);
    assert(opencode_adapter::number_of(a) <= 99);
}

/// What one line of a head adds to the declared length.
pub open spec fn length_step(declared: Option<usize>, line: Seq<char>) -> Result<
    Option<usize>,
    Seq<char>,
> {
    match tokens::parted(line, ':') {
        None => Ok(declared),
        Some((name, said)) => {
            let value = text::trimmed(said);
            let length = opencode_adapter::number_of(value);
            if tokens::ascii_lowered(name) != "content-length"@ {
                Ok(declared)
            } else if !opencode_adapter::all_digits(value) {
                Err("the endpoint declared a malformed Content-Length"@)
            } else if length > usize::MAX {
                Err("the endpoint declared an unrepresentable Content-Length"@)
            } else if declared is Some && declared->0 != length {
                Err("the endpoint declared conflicting Content-Length headers"@)
            } else {
                Ok(Some(length as usize))
            }
        },
    }
}

pub open spec fn lengths_of(lines: Seq<Seq<char>>) -> Result<Option<usize>, Seq<char>>
    decreases lines.len(),
{
    if lines.len() == 0 {
        Ok(None)
    } else {
        match lengths_of(lines.drop_last()) {
            Err(m) => Err(m),
            Ok(declared) => length_step(declared, lines.last()),
        }
    }
}

/// The length that a head declares, or why it declares none that can be used.
pub open spec fn declared_length(head: Seq<char>) -> Result<usize, Seq<char>> {
    match lengths_of(head_lines(head).skip(1)) {
        Err(m) => Err(m),
        Ok(None) => Err(
            "the endpoint accepted the delivery without declaring a Content-Length, so a truncated acknowledgement could not be told apart from a complete one"@,
        ),
        Ok(Some(length)) => if length > MAX_BODY_BYTES {
            Err(
                "the endpoint declared a "@ + text::digits(length as nat)
                    + "-byte body over the 65536-byte limit"@,
            )
        } else {
            Ok(length)
        },
    }
}

proof fn lemma_lengths_stay(lines: Seq<Seq<char>>, i: int)
    requires
        0 <= i <= lines.len(),
        lengths_of(lines.take(i)) is Err,
    ensures
        lengths_of(lines) == lengths_of(lines.take(i)),
    decreases lines.len() - i,
{
    if i < lines.len() {
        assert(lines.take(i + 1).drop_last() =~= lines.take(i));
        lemma_lengths_stay(lines, i + 1);
    } else {
        assert(lines.take(i) =~= lines);
    }
}

fn read_length(declared: Option<usize>, line: &str) -> (r: Result<Option<usize>, AdapterError>)
    ensures
        match length_step(declared, line@) {
            Err(m) => opencode_adapter::fails(r, Some(FailureClass::ResponseInvalid), m),
            Ok(next) => r == Ok::<Option<usize>, AdapterError>(next),
        },
{
    match tokens::split_once(line, ':') {
        None => Ok(declared),
        Some((name, said)) => {
            let lowered = tokens::to_ascii_lower(name);
            if !text::same(lowered.as_str(), "content-length") {
                return Ok(declared);
            }
            let value = text::trim(said);
            let plain = !value.is_empty() && value.get_char(0) != '+';
            proof {
                if value@.len() > 0 && value@[0] == '+' {
                    assert(!opencode_adapter::is_digit(value@[0]));
                }
            }
            if !plain || !opencode_adapter::is_number(value) {
                return opencode_adapter::failed(
                    FailureClass::ResponseInvalid,
                    "the endpoint declared a malformed Content-Length".to_owned(),
                );
            }
            match opencode_adapter::read_unsigned(value, usize::MAX as u64) {
                None => opencode_adapter::failed(
                    FailureClass::ResponseInvalid,
                    "the endpoint declared an unrepresentable Content-Length".to_owned(),
                ),
                Some(n) => {
                    let length: usize = n as usize;
                    if let Some(first) = declared {
                        if first != length {
                            return opencode_adapter::failed(
                                FailureClass::ResponseInvalid,
                                "the endpoint declared conflicting Content-Length headers".to_owned(),
                            );
                        }
                    }
                    Ok(Some(length))
                },
            }
        },
    }
}

/// The length of the body that a head declares. One is required: without it a cut body
/// could not be told from a complete one.
pub fn content_length(head: &str) -> (r: Result<usize, AdapterError>)
    ensures
        match declared_length(head@) {
            Err(m) => opencode_adapter::fails(r, Some(FailureClass::ResponseInvalid), m),
            Ok(length) => r == Ok::<usize, AdapterError>(length),
        },
{
    let lines = split_lines(head);
    let ghost all = head_lines(head@).skip(1);
    let mut declared: Option<usize> = None;
    let mut i: usize = 1;
    proof {
        assert(text::texts(lines@).len() == lines@.len());
        assert(head_lines(head@).len() >= 1);
        assert(all.take(0) =~= Seq::<Seq<char>>::empty());
    }
    while i < lines.len()
        invariant
            1 <= i <= lines@.len(),
            text::texts(lines@) == head_lines(head@),
            all == head_lines(head@).skip(1),
            lengths_of(all.take(i - 1)) == Ok::<Option<usize>, Seq<char>>(declared),
        decreases lines.len() - i,
    {
        proof {
            assert(text::texts(lines@)[i as int] == lines@[i as int]@);
            assert(all.take(i as int).drop_last() =~= all.take(i - 1));
            assert(all.take(i as int).last() == lines@[i as int]@);
        }
        match read_length(declared, lines[i].as_str()) {
            Err(e) => {
                proof {
                    lemma_lengths_stay(all, i as int);
                }
                return Err(e);
            },
            Ok(next) => {
                declared = next;
            },
        }
        i = i + 1;
    }
    proof {
        assert(text::texts(lines@).len() == lines@.len());
        assert(all.take(all.len() as int) =~= all);
    }
    match declared {
        None => opencode_adapter::failed(
            FailureClass::ResponseInvalid,
            "the endpoint accepted the delivery without declaring a Content-Length, so a truncated acknowledgement could not be told apart from a complete one".to_owned(),
        ),
        Some(length) => {
            if length > MAX_BODY_BYTES {
                let shown = text::show_u64(length as u64);
                return opencode_adapter::failed(
                    FailureClass::ResponseInvalid,
                    "the endpoint declared a ".to_owned().concat(shown.as_str()).concat(
                        "-byte body over the 65536-byte limit",
                    ),
                );
            }
            Ok(length)
        },
    }
}

/// Whether the body of an answer is complete: true where it is, false where more is
/// needed. More than was declared is a failure.
pub fn body_step(got: usize, length: usize) -> (r: Result<bool, AdapterError>)
    ensures
        if got > length {
            opencode_adapter::fails(
                r,
                Some(FailureClass::ResponseInvalid),
                "the endpoint sent "@ + text::digits(got as nat) + " bytes for a "@
                    + text::digits(length as nat) + "-byte acknowledgement"@,
            )
        } else {
            r == Ok::<bool, AdapterError>(got == length)
        },
{
    if got > length {
        let sent = text::show_u64(got as u64);
        let wanted = text::show_u64(length as u64);
        return opencode_adapter::failed(
            FailureClass::ResponseInvalid,
            "the endpoint sent ".to_owned().concat(sent.as_str()).concat(
                " bytes for a ",
            ).concat(wanted.as_str()).concat("-byte acknowledgement"),
        );
    }
    Ok(got == length)
}

/// What a body that was cut off is reported as.
pub fn body_closed<T>(got: usize, length: usize) -> (r: Result<T, AdapterError>)
    ensures
        opencode_adapter::fails(
            r,
            Some(FailureClass::EndpointFailed),
            "the endpoint closed the connection after "@ + text::digits(got as nat) + " of "@
                + text::digits(length as nat) + " acknowledgement bytes"@,
        ),
{
    let sent = text::show_u64(got as u64);
    let wanted = text::show_u64(length as u64);
    opencode_adapter::failed(
        FailureClass::EndpointFailed,
        "the endpoint closed the connection after ".to_owned().concat(sent.as_str()).concat(
            " of ",
        ).concat(wanted.as_str()).concat(" acknowledgement bytes"),
    )
}

} // verus!
