//! Handing a delivery to a local HTTP server: what is accepted as an endpoint, how the
//! request is framed, how the answer is read, and what each failure means.

use vstd::prelude::*;

use crate::text;
use crate::tokens;

verus! {

pub const HELP: &'static str =
    "kanban-opencode-adapter --endpoint http://LOOPBACK_IP:PORT/ABSOLUTE_PATH --request-timeout-ms N";

pub const MAX_STDIN_BYTES: usize = 1_048_576;

pub const MAX_HEAD_BYTES: usize = 8192;

pub const MAX_BODY_BYTES: usize = 65536;

pub const MAX_ENDPOINT_BYTES: usize = 256;

pub const MAX_PATH_BYTES: usize = 128;

pub const MIN_TIMEOUT_MS: u64 = 1_000;

pub const MAX_TIMEOUT_MS: u64 = 300_000;

pub const OPENCODE_CONSUMER_ID: &'static str = "opencode.server";

pub const ENQUEUE_TURN_ACTION_ID: &'static str = "enqueue-turn";

// ---------------------------------------------------------------------------- failures

/// One way in which a delivery attempt failed.
#[derive(Debug, Clone, Copy, PartialEq, Eq, Structural)]
pub enum FailureClass {
    EndpointUnreachable,
    RequestRejected,
    EndpointFailed,
    DeadlineExceeded,
    ResponseInvalid,
}

pub open spec fn class_code(class: FailureClass) -> Seq<char> {
    match class {
        FailureClass::EndpointUnreachable => "opencode_endpoint_unreachable"@,
        FailureClass::RequestRejected => "opencode_request_rejected"@,
        FailureClass::EndpointFailed => "opencode_endpoint_failed"@,
        FailureClass::DeadlineExceeded => "opencode_deadline_exceeded"@,
        FailureClass::ResponseInvalid => "opencode_response_invalid"@,
    }
}

/// A later attempt with the same bytes can succeed.
pub open spec fn is_retryable(class: FailureClass) -> bool {
    class is EndpointUnreachable || class is EndpointFailed || class is DeadlineExceeded
}

pub open spec fn class_status(class: FailureClass) -> i32 {
    match class {
        FailureClass::EndpointUnreachable => 10,
        FailureClass::RequestRejected => 11,
        FailureClass::EndpointFailed => 12,
        FailureClass::DeadlineExceeded => 13,
        FailureClass::ResponseInvalid => 14,
    }
}

/// A class in words: its code, and whether a retry can help.
pub open spec fn class_words(class: FailureClass) -> Seq<char> {
    class_code(class) + if is_retryable(class) {
        " (retryable)"@
    } else {
        " (terminal)"@
    }
}

impl FailureClass {
    pub fn code(self) -> (r: &'static str)
        ensures
            r@ == class_code(self),
    {
        match self {
            FailureClass::EndpointUnreachable => "opencode_endpoint_unreachable",
            FailureClass::RequestRejected => "opencode_request_rejected",
            FailureClass::EndpointFailed => "opencode_endpoint_failed",
            FailureClass::DeadlineExceeded => "opencode_deadline_exceeded",
            FailureClass::ResponseInvalid => "opencode_response_invalid",
        }
    }

    /// Whether a later attempt with the same bytes can succeed.
    pub fn retryable(self) -> (r: bool)
        ensures
            r == is_retryable(self),
    {
        match self {
            FailureClass::EndpointUnreachable => true,
            FailureClass::EndpointFailed => true,
            FailureClass::DeadlineExceeded => true,
            FailureClass::RequestRejected => false,
            FailureClass::ResponseInvalid => false,
        }
    }

    /// The exit status that stands for this class.
    pub fn exit_code(self) -> (r: i32)
        ensures
            r == class_status(self),
    {
        match self {
            FailureClass::EndpointUnreachable => 10,
            FailureClass::RequestRejected => 11,
            FailureClass::EndpointFailed => 12,
            FailureClass::DeadlineExceeded => 13,
            FailureClass::ResponseInvalid => 14,
        }
    }

    pub fn to_string(self) -> (r: String)
        ensures
            r@ == class_words(self),
    {
        let disposition = if self.retryable() {
            " (retryable)"
        } else {
            " (terminal)"
        };
        self.code().to_owned().concat(disposition)
    }
}

/// Each class has an exit status of its own, and none has that of a failure without a
/// class or of success.
pub proof fn law_exit_statuses_are_distinct(a: FailureClass, b: FailureClass)
    ensures
        class_status(a) == class_status(b) ==> a == b,
        class_status(a) > 1,
{
}

/// Each class has a code of its own.
pub proof fn law_codes_are_distinct(a: FailureClass, b: FailureClass)
    requires
        class_code(a) == class_code(b),
    ensures
        a == b,
{
    reveal_strlit("opencode_endpoint_unreachable");
    reveal_strlit("opencode_request_rejected");
    reveal_strlit("opencode_endpoint_failed");
    reveal_strlit("opencode_deadline_exceeded");
    reveal_strlit("opencode_response_invalid");
    assert("opencode_endpoint_unreachable"@[9] == 'e' && "opencode_endpoint_unreachable"@[18]
        == 'u');
    assert("opencode_request_rejected"@[9] == 'r' && "opencode_request_rejected"@[11] == 'q');
    assert("opencode_endpoint_failed"@[9] == 'e' && "opencode_endpoint_failed"@[18] == 'f');
    assert("opencode_deadline_exceeded"@[9] == 'd');
    assert("opencode_response_invalid"@[9] == 'r' && "opencode_response_invalid"@[11] == 's');
}

/// A failure: its class where it has one, and what happened.
#[derive(Debug, Clone)]
pub struct AdapterError {
    pub class: Option<FailureClass>,
    pub detail: String,
}

/// `r` failed with a class and a detail.
pub open spec fn fails<T>(
    r: Result<T, AdapterError>,
    class: Option<FailureClass>,
    detail: Seq<char>,
) -> bool {
    r is Err && r->Err_0.class == class && r->Err_0.detail@ == detail
}

/// A failure with a class.
pub fn failed<T>(class: FailureClass, detail: String) -> (r: Result<T, AdapterError>)
    ensures
        fails(r, Some(class), detail@),
{
    Err(AdapterError { class: Some(class), detail })
}

/// A failure without a class.
pub fn unclassified<T>(detail: String) -> (r: Result<T, AdapterError>)
    ensures
        fails(r, None, detail@),
{
    Err(AdapterError { class: None, detail })
}

/// The exit status of a failure; 1 where it has no class.
pub fn exit_code(error: &AdapterError) -> (r: i32)
    ensures
        r == match error.class {
            Some(class) => class_status(class),
            None => 1,
        },
{
    match error.class {
        Some(class) => class.exit_code(),
        None => 1,
    }
}

impl AdapterError {
    /// The outermost message: the class where there is one.
    pub fn to_string(&self) -> (r: String)
        ensures
            r@ == match self.class {
                Some(class) => class_words(class),
                None => self.detail@,
            },
    {
        match self.class {
            Some(class) => class.to_string(),
            None => self.detail.clone(),
        }
    }

    /// The whole message: the class first, then what happened.
    pub fn in_full(&self) -> (r: String)
        ensures
            r@ == match self.class {
                Some(class) => class_words(class) + ": "@ + self.detail@,
                None => self.detail@,
            },
    {
        match self.class {
            Some(class) => class.to_string().concat(": ").concat(self.detail.as_str()),
            None => self.detail.clone(),
        }
    }
}

/// What an HTTP status means for a delivery.
pub open spec fn status_class(status: u16) -> Option<FailureClass> {
    if 200 <= status <= 299 {
        None
    } else if status == 408 || status == 429 || 500 <= status <= 599 {
        Some(FailureClass::EndpointFailed)
    } else if 400 <= status <= 499 {
        Some(FailureClass::RequestRejected)
    } else {
        Some(FailureClass::ResponseInvalid)
    }
}

/// The class of an HTTP status; none where the delivery was accepted. 408 and 429 ask
/// for another attempt, so they count as the server's failure.
pub fn classify_response_status(status: u16) -> (r: Option<FailureClass>)
    ensures
        r == status_class(status),
{
    if 200 <= status && status <= 299 {
        None
    } else if status == 408 || status == 429 || (500 <= status && status <= 599) {
        Some(FailureClass::EndpointFailed)
    } else if 400 <= status && status <= 499 {
        Some(FailureClass::RequestRejected)
    } else {
        Some(FailureClass::ResponseInvalid)
    }
}

/// The verdict on an HTTP status.
pub fn check_status(status: u16) -> (r: Result<(), AdapterError>)
    ensures
        match status_class(status) {
            Some(class) => fails(
                r,
                Some(class),
                "the endpoint answered HTTP "@ + text::digits(status as nat),
            ),
            None => r is Ok,
        },
{
    match classify_response_status(status) {
        Some(class) => {
            let shown = text::show_u64(status as u64);
            failed(class, "the endpoint answered HTTP ".to_owned().concat(shown.as_str()))
        },
        None => Ok(()),
    }
}

// ----------------------------------------------------------------------------- numbers

pub open spec fn is_digit(c: char) -> bool {
    '0' <= c && c <= '9'
}

pub open spec fn all_digits(s: Seq<char>) -> bool {
    s.len() > 0 && forall|i: int| 0 <= i < s.len() ==> is_digit(#[trigger] s[i])
}

/// The number that digits write.
pub open spec fn number_of(s: Seq<char>) -> nat
    decreases s.len(),
{
    if s.len() == 0 {
        0
    } else {
        number_of(s.drop_last()) * 10 + (s.last() as u32 - 48) as nat
    }
}

/// A number with an optional plus before it, within a bound.
pub open spec fn unsigned(s: Seq<char>, max: nat) -> Option<nat> {
    let bare = if s.len() > 1 && s[0] == '+' {
        s.skip(1)
    } else {
        s
    };
    if all_digits(bare) && number_of(bare) <= max {
        Some(number_of(bare))
    } else {
        None
    }
}

proof fn lemma_number_grows(s: Seq<char>, i: int)
    requires
        0 <= i <= s.len(),
        forall|k: int| 0 <= k < s.len() ==> is_digit(#[trigger] s[k]),
    ensures
        number_of(s.take(i)) <= number_of(s),
    decreases s.len() - i,
{
    if i < s.len() {
        lemma_number_grows(s, i + 1);
        assert(s.take(i + 1).drop_last() =~= s.take(i));
        assert(is_digit(s[i]));
    } else {
        assert(s.take(i) =~= s);
    }
}

/// Whether all of some characters are digits.
fn are_digits(cs: &[char]) -> (r: bool)
    ensures
        r == all_digits(cs@),
{
    if cs.len() == 0 {
        return false;
    }
    let mut i: usize = 0;
    while i < cs.len()
        invariant
            i <= cs@.len(),
            forall|k: int| 0 <= k < i ==> is_digit(#[trigger] cs@[k]),
        decreases cs.len() - i,
    {
        if !('0' <= cs[i] && cs[i] <= '9') {
            proof {
                assert(!is_digit(cs@[i as int]));
            }
            return false;
        }
        i = i + 1;
    }
    true
}

/// Whether a text is digits and nothing else.
pub fn is_number(s: &str) -> (r: bool)
    ensures
        r == all_digits(s@),
{
    let cs = text::chars_of(s);
    are_digits(cs.as_slice())
}

/// The number that digits write, within a bound.
fn read_digits(cs: &[char], max: u64) -> (r: Option<u64>)
    requires
        all_digits(cs@),
    ensures
        match r {
            Some(n) => n == number_of(cs@) && n <= max,
            None => number_of(cs@) > max,
        },
{
    let mut n: u64 = 0;
    let mut i: usize = 0;
    proof {
        assert(cs@.take(0) =~= Seq::<char>::empty());
    }
    while i < cs.len()
        invariant
            i <= cs@.len(),
            all_digits(cs@),
            n == number_of(cs@.take(i as int)),
            n <= max,
        decreases cs.len() - i,
    {
        let digit: u64 = (cs[i] as u32 - 48) as u64;
        proof {
            assert(cs@.take(i as int + 1).drop_last() =~= cs@.take(i as int));
            assert(cs@.take(i as int + 1).last() == cs@[i as int]);
            lemma_number_grows(cs@, i as int + 1);
        }
        let wide: u128 = n as u128 * 10 + digit as u128;
        if wide > max as u128 {
            return None;
        }
        n = wide as u64;
        i = i + 1;
    }
    proof {
        assert(cs@.take(cs@.len() as int) =~= cs@);
    }
    Some(n)
}

/// A number with an optional plus before it, within a bound.
pub fn read_unsigned(s: &str, max: u64) -> (r: Option<u64>)
    ensures
        match r {
            Some(n) => unsigned(s@, max as nat) == Some(n as nat),
            None => unsigned(s@, max as nat) is None,
        },
{
    let cs = text::chars_of(s);
    let bare = if cs.len() > 1 && cs[0] == '+' {
        let rest = s.substring_char(1, cs.len());
        proof {
            assert(rest@ =~= s@.skip(1));
        }
        text::chars_of(rest)
    } else {
        cs
    };
    if !are_digits(bare.as_slice()) {
        return None;
    }
    read_digits(bare.as_slice(), max)
}

// ---------------------------------------------------------------------------- endpoints

/// What a host was recognised as.
#[derive(Debug, Clone, Copy, PartialEq, Eq, Structural)]
pub enum HostLiteral {
    /// No address of its kind.
    NotAnAddress,
    /// An address of this machine.
    Loopback,
    /// Any other address.
    Elsewhere,
}

/// A host as it was written; in brackets where it is of version 6.
#[derive(Debug, Clone, PartialEq, Eq)]
pub struct HostText {
    pub host: String,
    pub v6: bool,
}

/// Where deliveries go.
#[derive(Debug, Clone, PartialEq, Eq)]
pub struct Endpoint {
    pub host: String,
    pub v6: bool,
    pub port: u16,
    pub authority: String,
    pub path: String,
}

/// The pieces of an authority, or why it has none.
pub struct Authority {
    pub host: Seq<char>,
    pub v6: bool,
    pub port: Seq<char>,
}

pub open spec fn authority_of(authority: Seq<char>) -> Result<Authority, Seq<char>> {
    if authority.contains('@') {
        Err("--endpoint must not carry userinfo"@)
    } else if authority.len() > 0 && authority[0] == '[' {
        match tokens::parted(authority.skip(1), ']') {
            None => Err("--endpoint IPv6 host must be bracketed"@),
            Some((host, after)) => if after.len() > 0 && after[0] == ':' {
                Ok(Authority { host, v6: true, port: after.skip(1) })
            } else {
                Err("--endpoint must name an explicit port"@)
            },
        }
    } else {
        match tokens::parted(authority, ':') {
            None => Err("--endpoint must name an explicit port"@),
            Some((host, port)) => Ok(Authority { host, v6: false, port }),
        }
    }
}

/// The port that is named, or why it is none.
pub open spec fn port_of(port: Seq<char>) -> Result<u16, Seq<char>> {
    match unsigned(port, 65535) {
        None => Err("--endpoint port must be 1..=65535"@),
        Some(n) => if n == 0 || port != text::digits(n) {
            Err("--endpoint port must be 1..=65535 without padding"@)
        } else {
            Ok(n as u16)
        },
    }
}

pub open spec fn path_refusal(path: Seq<char>) -> Option<Seq<char>> {
    if vstd::utf8::encode_utf8(path).len() > MAX_PATH_BYTES {
        Some("--endpoint path must be at most 128 bytes"@)
    } else if path.contains('?') || path.contains('#') {
        Some("--endpoint must not carry a query or fragment"@)
    } else if text::split_on(path, '/').contains("."@) || text::split_on(path, '/').contains(
        ".."@,
    ) {
        Some("--endpoint path must not contain relative segments"@)
    } else {
        None
    }
}

pub open spec fn is_printable(c: char) -> bool {
    0x21 <= c as u32 <= 0x7e
}

/// The authority and the path of an endpoint, or why it has none.
pub open spec fn endpoint_parts(value: Seq<char>) -> Result<(Seq<char>, Seq<char>), Seq<char>> {
    let slash = text::find_char(value.skip(7), '/');
    if value.len() == 0 || vstd::utf8::encode_utf8(value).len() > MAX_ENDPOINT_BYTES {
        Err("--endpoint must be 1..=256 bytes"@)
    } else if exists|i: int| 0 <= i < value.len() && !is_printable(#[trigger] value[i]) {
        Err("--endpoint must be printable ASCII without spaces"@)
    } else if !"http://"@.is_prefix_of(value) {
        Err("--endpoint must start with http://"@)
    } else if slash >= value.len() - 7 {
        Err("--endpoint must include an absolute path"@)
    } else {
        Ok((value.skip(7).take(slash), value.skip(7).skip(slash)))
    }
}

/// The host that has to be recognised for an endpoint, where it gets that far.
pub open spec fn host_of(value: Seq<char>) -> Option<(Seq<char>, bool)> {
    match endpoint_parts(value) {
        Err(_) => None,
        Ok((authority, _)) => match authority_of(authority) {
            Err(_) => None,
            Ok(a) => Some((a.host, a.v6)),
        },
    }
}

/// What an endpoint is refused with, given what its host was recognised as.
pub open spec fn endpoint_refusal(value: Seq<char>, literal: HostLiteral) -> Option<Seq<char>> {
    match endpoint_parts(value) {
        Err(m) => Some(m),
        Ok((authority, path)) => match authority_of(authority) {
            Err(m) => Some(m),
            Ok(a) => match literal {
                HostLiteral::NotAnAddress => Some("--endpoint host must be an IP literal"@),
                HostLiteral::Elsewhere => Some("--endpoint host must be a loopback address"@),
                HostLiteral::Loopback => match port_of(a.port) {
                    Err(m) => Some(m),
                    Ok(_) => path_refusal(path),
                },
            },
        },
    }
}

/// The endpoint says what its text says.
pub open spec fn is_endpoint(e: Endpoint, value: Seq<char>) -> bool {
    &&& endpoint_parts(value) == Ok::<_, Seq<char>>((e.authority@, e.path@))
    &&& authority_of(e.authority@) is Ok
    &&& e.host@ == authority_of(e.authority@)->Ok_0.host
    &&& e.v6 == authority_of(e.authority@)->Ok_0.v6
    &&& port_of(authority_of(e.authority@)->Ok_0.port) == Ok::<u16, Seq<char>>(e.port)
}

fn holds_char(s: &str, c: char) -> (r: bool)
    ensures
        r == s@.contains(c),
{
    let cs = text::chars_of(s);
    proof {
        assert(cs@.skip(0) =~= cs@);
        text::lemma_find_char(s@, c);
    }
    let at: usize = text::find_from(cs.as_slice(), 0, c);
    proof {
        if at < cs@.len() {
            assert(s@[at as int] == c);
        } else if s@.contains(c) {
            let k = choose|k: int| 0 <= k < s@.len() && s@[k] == c;
            assert(s@[k] != c);
        }
    }
    at < cs.len()
}

/// What a split authority is made of.
struct AuthorityText<'a> {
    host: &'a str,
    v6: bool,
    port: &'a str,
}

fn split_authority<'a>(authority: &'a str) -> (r: Result<AuthorityText<'a>, AdapterError>)
    ensures
        match authority_of(authority@) {
            Err(m) => fails(r, None, m),
            Ok(a) => r is Ok && r->Ok_0.host@ == a.host && r->Ok_0.v6 == a.v6 && r->Ok_0.port@
                == a.port,
        },
{
    if holds_char(authority, '@') {
        return unclassified("--endpoint must not carry userinfo".to_owned());
    }
    let n: usize = authority.unicode_len();
    if n > 0 && authority.get_char(0) == '[' {
        let rest = authority.substring_char(1, n);
        proof {
            assert(rest@ =~= authority@.skip(1));
        }
        match tokens::split_once(rest, ']') {
            None => unclassified("--endpoint IPv6 host must be bracketed".to_owned()),
            Some((host, after)) => {
                let m: usize = after.unicode_len();
                if m > 0 && after.get_char(0) == ':' {
                    let port = after.substring_char(1, m);
                    proof {
                        assert(port@ =~= after@.skip(1));
                    }
                    Ok(AuthorityText { host, v6: true, port })
                } else {
                    unclassified("--endpoint must name an explicit port".to_owned())
                }
            },
        }
    } else {
        match tokens::split_once(authority, ':') {
            None => unclassified("--endpoint must name an explicit port".to_owned()),
            Some((host, port)) => Ok(AuthorityText { host, v6: false, port }),
        }
    }
}

fn read_port(port: &str) -> (r: Result<u16, AdapterError>)
    ensures
        match port_of(port@) {
            Err(m) => fails(r, None, m),
            Ok(n) => r == Ok::<u16, AdapterError>(n),
        },
{
    match read_unsigned(port, 65535) {
        None => unclassified("--endpoint port must be 1..=65535".to_owned()),
        Some(n) => {
            let shown = text::show_u64(n);
            if n == 0 || !text::same(port, shown.as_str()) {
                unclassified("--endpoint port must be 1..=65535 without padding".to_owned())
            } else {
                Ok(n as u16)
            }
        },
    }
}

/// A path that is short, without a query or fragment and without relative segments.
pub fn validate_endpoint_path(path: &str) -> (r: Result<(), AdapterError>)
    ensures
        match path_refusal(path@) {
            Some(m) => fails(r, None, m),
            None => r is Ok,
        },
{
    let bytes: usize = path.as_bytes().len();
    if bytes > MAX_PATH_BYTES {
        return unclassified("--endpoint path must be at most 128 bytes".to_owned());
    }
    if holds_char(path, '?') || holds_char(path, '#') {
        return unclassified("--endpoint must not carry a query or fragment".to_owned());
    }
    let segments = text::split(path, '/');
    if text::holds(segments.as_slice(), ".") || text::holds(segments.as_slice(), "..") {
        return unclassified("--endpoint path must not contain relative segments".to_owned());
    }
    Ok(())
}

fn all_printable(s: &str) -> (r: bool)
    ensures
        r == !(exists|i: int| 0 <= i < s@.len() && !is_printable(#[trigger] s@[i])),
{
    let cs = text::chars_of(s);
    let mut i: usize = 0;
    while i < cs.len()
        invariant
            i <= cs@.len(),
            cs@ == s@,
            forall|k: int| 0 <= k < i ==> is_printable(#[trigger] s@[k]),
        decreases cs.len() - i,
    {
        let code: u32 = cs[i] as u32;
        if !(0x21 <= code && code <= 0x7e) {
            proof {
                assert(!is_printable(s@[i as int]));
            }
            return false;
        }
        i = i + 1;
    }
    true
}

fn split_endpoint<'a>(value: &'a str) -> (r: Result<(&'a str, &'a str), AdapterError>)
    ensures
        match endpoint_parts(value@) {
            Err(m) => fails(r, None, m),
            Ok((authority, path)) => r is Ok && r->Ok_0.0@ == authority && (r->Ok_0.1)@ == path,
        },
{
    proof {
        reveal_strlit("http://");
    }
    let bytes: usize = value.as_bytes().len();
    if value.is_empty() || bytes > MAX_ENDPOINT_BYTES {
        return unclassified("--endpoint must be 1..=256 bytes".to_owned());
    }
    if !all_printable(value) {
        return unclassified("--endpoint must be printable ASCII without spaces".to_owned());
    }
    match text::strip_prefix(value, "http://") {
        None => unclassified("--endpoint must start with http://".to_owned()),
        Some(rest) => {
            let cs = text::chars_of(rest);
            proof {
                assert(rest@ == value@.skip(7));
                assert(cs@.skip(0) =~= cs@);
            }
            let slash: usize = text::find_from(cs.as_slice(), 0, '/');
            if slash >= cs.len() {
                return unclassified("--endpoint must include an absolute path".to_owned());
            }
            let authority = rest.substring_char(0, slash);
            let path = rest.substring_char(slash, cs.len());
            proof {
                assert(authority@ =~= rest@.take(slash as int));
                assert(path@ =~= rest@.skip(slash as int));
            }
            Ok((authority, path))
        },
    }
}

/// The host that has to be recognised before an endpoint can be read; none where the
/// endpoint is refused before that.
pub fn endpoint_host(value: &str) -> (r: Option<HostText>)
    ensures
        match host_of(value@) {
            Some((host, v6)) => r is Some && r->0.host@ == host && r->0.v6 == v6,
            None => r is None,
        },
{
    match split_endpoint(value) {
        Err(_) => None,
        Ok((authority, _)) => match split_authority(authority) {
            Err(_) => None,
            Ok(a) => Some(HostText { host: a.host.to_owned(), v6: a.v6 }),
        },
    }
}

/// Reads an endpoint, given what its host was recognised as. Only an address of this
/// machine, an explicit port and an absolute path are accepted.
pub fn parse_endpoint(value: &str, literal: HostLiteral) -> (r: Result<Endpoint, AdapterError>)
    ensures
        match endpoint_refusal(value@, literal) {
            Some(m) => fails(r, None, m),
            None => r is Ok && is_endpoint(r->Ok_0, value@),
        },
{
    let (authority, path) = match split_endpoint(value) {
        Err(e) => {
            return Err(e);
        },
        Ok(parts) => parts,
    };
    let a = match split_authority(authority) {
        Err(e) => {
            return Err(e);
        },
        Ok(a) => a,
    };
    match literal {
        HostLiteral::NotAnAddress => {
            return unclassified("--endpoint host must be an IP literal".to_owned());
        },
        HostLiteral::Elsewhere => {
            return unclassified("--endpoint host must be a loopback address".to_owned());
        },
        HostLiteral::Loopback => {},
    }
    let port: u16 = match read_port(a.port) {
        Err(e) => {
            return Err(e);
        },
        Ok(port) => port,
    };
    if let Err(e) = validate_endpoint_path(path) {
        return Err(e);
    }
    Ok(
        Endpoint {
            host: a.host.to_owned(),
            v6: a.v6,
            port,
            authority: authority.to_owned(),
            path: path.to_owned(),
        },
    )
}

/// Deliveries never leave the machine: an endpoint is read only where its host was
/// recognised as an address of it.
pub proof fn law_endpoints_are_local(value: Seq<char>, literal: HostLiteral)
    requires
        endpoint_refusal(value, literal) is None,
    ensures
        literal == HostLiteral::Loopback,
        host_of(value) is Some,
        endpoint_parts(value)->Ok_0.1.len() > 0,
        endpoint_parts(value)->Ok_0.1[0] == '/',
{
    text::lemma_find_char(value.skip(7), '/');
}

} // verus!
