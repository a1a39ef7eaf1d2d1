//! What the adapter takes for its arguments, its endpoint and the endpoint's answer.

use vstd::prelude::*;

use crate::adapter_wire;
use crate::adapter_wire::Argument;
use crate::opencode_adapter;
use crate::opencode_adapter::Endpoint;
use crate::opencode_adapter::FailureClass;
use crate::opencode_adapter::HostLiteral;
use crate::text;
use crate::tokens;

verus! {

/// An answer in the two hundreds is accepted. Delivery is tried again after one in the five
/// hundreds, after a timeout and after too many requests; any other answer is final.
pub proof fn law_answers_are_classified(status: u16)
    ensures
        opencode_adapter::status_class(status) is None <==> status / 100 == 2,
        opencode_adapter::status_class(status) matches Some(class) ==> (
        opencode_adapter::is_retryable(class) <==> status / 100 == 5 || status == 408 || status
            == 429),
        opencode_adapter::status_class(status) == Some(FailureClass::RequestRejected) <==> status
            / 100 == 4 && status != 408 && status != 429,
        opencode_adapter::status_class(status) == Some(FailureClass::ResponseInvalid) <==> status
            / 100 != 2 && status / 100 != 4 && status / 100 != 5,
{
}

/// The argument is this text.
pub open spec fn is_text(a: Argument, s: Seq<char>) -> bool {
    a.text matches Some(t) && t@ == s
}

proof fn lemma_flags(
    args: Seq<Argument>,
    i: int,
    endpoint: Option<Seq<char>>,
    timeout: Option<u64>,
)
    requires
        0 <= i <= args.len(),
        adapter_wire::flags_from(args, i, endpoint, timeout) is Ok,
    ensures
        ({
            let (e, t) = adapter_wire::flags_from(args, i, endpoint, timeout)->Ok_0;
            match (endpoint, timeout) {
                (Some(x), Some(y)) => args.len() == i && e == x && t == y,
                (Some(x), None) => args.len() == i + 2 && e == x && is_timeout_at(args, i, t),
                (None, Some(y)) => args.len() == i + 2 && t == y && is_endpoint_at(args, i, e),
                (None, None) => args.len() == i + 4 && {
                    ||| is_endpoint_at(args, i, e) && is_timeout_at(args, i + 2, t)
                    ||| is_timeout_at(args, i, t) && is_endpoint_at(args, i + 2, e)
                },
            }
        }),
    decreases args.len() - i,
{
    if i < args.len() {
        let flag = text::text_of(args[i].text)->0;
        let value = text::text_of(args[i + 1].text)->0;
        if flag == "--endpoint"@ {
            lemma_flags(args, i + 2, Some(value), timeout);
        } else {
            let t = adapter_wire::timeout_of(value)->Ok_0;
            lemma_flags(args, i + 2, endpoint, Some(t));
        }
    }
}

/// The endpoint is given here, and is one that may be used.
pub open spec fn is_endpoint_at(args: Seq<Argument>, i: int, value: Seq<char>) -> bool {
    &&& is_text(args[i], "--endpoint"@)
    &&& is_text(args[i + 1], value)
    &&& args[i + 1].literal == HostLiteral::Loopback
    &&& opencode_adapter::endpoint_refusal(value, args[i + 1].literal) is None
}

/// The timeout is given here.
pub open spec fn is_timeout_at(args: Seq<Argument>, i: int, timeout: u64) -> bool {
    &&& is_text(args[i], "--request-timeout-ms"@)
    &&& args[i + 1].text matches Some(said) && adapter_wire::timeout_of(said@) == Ok::<
        u64,
        Seq<char>,
    >(timeout)
    &&& 1000 <= timeout <= 300_000
}

/// The adapter runs with an endpoint and a timeout, each given once and nothing else beside
/// them, in any order.
pub proof fn law_both_arguments_are_given_once(args: Seq<Argument>)
    requires
        args.len() >= 1,
        adapter_wire::flags_from(args, 1, None, None) is Ok,
    ensures
        ({
            let (e, t) = adapter_wire::flags_from(args, 1, None, None)->Ok_0;
            &&& args.len() == 5
            &&& {
                ||| is_endpoint_at(args, 1, e) && is_timeout_at(args, 3, t)
                ||| is_timeout_at(args, 1, t) && is_endpoint_at(args, 3, e)
            }
        }),
{
    lemma_flags(args, 1, None, None);
}

/// An endpoint is one over plain HTTP, with an authority that names its port and a path, and
/// nothing is lost of it: put together again they are what was given.
pub proof fn law_endpoint_is_what_was_given(e: Endpoint, value: Seq<char>)
    requires
        opencode_adapter::is_endpoint(e, value),
    ensures
        value == seq!['h', 't', 't', 'p', ':', '/', '/'] + e.authority@ + e.path@,
        e.path@.len() > 0 && e.path@[0] == '/',
        !e.authority@.contains('/'),
        e.port >= 1,
        e.authority@ == if e.v6 {
            seq!['['] + e.host@ + seq![']', ':'] + text::digits(e.port as nat)
        } else {
            e.host@ + seq![':'] + text::digits(e.port as nat)
        },
{
    reveal_strlit("http://");
    let head = seq!['h', 't', 't', 'p', ':', '/', '/'];
    assert("http://"@ =~= head);
    let rest = value.skip(7);
    let slash = text::find_char(rest, '/');
    text::lemma_find_char(rest, '/');
    assert(value.take(7) =~= head);
    assert(value =~= head + rest);
    assert(rest =~= e.authority@ + e.path@);
    assert(value =~= head + e.authority@ + e.path@);
    if e.authority@.contains('/') {
        let i = choose|i: int| 0 <= i < e.authority@.len() && e.authority@[i] == '/';
        assert(rest[i] == '/');
    }
    let a = opencode_adapter::authority_of(e.authority@)->Ok_0;
    if a.v6 {
        let inner = e.authority@.skip(1);
        let i = text::find_char(inner, ']');
        text::lemma_find_char(inner, ']');
        let after = inner.skip(i + 1);
        assert(e.authority@ =~= seq!['['] + inner);
        assert(inner =~= e.host@ + seq![']'] + after);
        assert(after =~= seq![':'] + a.port);
        assert(e.authority@ =~= seq!['['] + e.host@ + seq![']', ':'] + a.port);
    } else {
        let i = text::find_char(e.authority@, ':');
        text::lemma_find_char(e.authority@, ':');
        assert(e.authority@ =~= e.host@ + seq![':'] + a.port);
    }
}

/// The line declares a length.
pub open spec fn declares(line: Seq<char>, n: nat) -> bool {
    tokens::parted(line, ':') matches Some((name, said)) && tokens::ascii_lowered(name)
        == "content-length"@ && opencode_adapter::all_digits(text::trimmed(said))
        && opencode_adapter::number_of(text::trimmed(said)) == n
}

/// The line speaks of a length.
pub open spec fn speaks_of_length(line: Seq<char>) -> bool {
    tokens::parted(line, ':') matches Some((name, _)) && tokens::ascii_lowered(name)
        == "content-length"@
}

proof fn lemma_lengths(lines: Seq<Seq<char>>)
    requires
        adapter_wire::lengths_of(lines) is Ok,
    ensures
        match adapter_wire::lengths_of(lines)->Ok_0 {
            None => forall|i: int| 0 <= i < lines.len() ==> !speaks_of_length(#[trigger] lines[i]),
            Some(n) => (forall|i: int|
                0 <= i < lines.len() && speaks_of_length(#[trigger] lines[i]) ==> declares(
                    lines[i],
                    n as nat,
                )) && exists|i: int| 0 <= i < lines.len() && speaks_of_length(#[trigger] lines[i]),
        },
    decreases lines.len(),
{
    if lines.len() > 0 {
        let rest = lines.drop_last();
        lemma_lengths(rest);
        assert(forall|i: int| 0 <= i < rest.len() ==> rest[i] == lines[i]);
        let last = lines[lines.len() - 1];
        let before = adapter_wire::lengths_of(rest)->Ok_0;
        if let Some(n) = adapter_wire::lengths_of(lines)->Ok_0 {
            assert forall|i: int|
                0 <= i < lines.len() && speaks_of_length(#[trigger] lines[i]) implies declares(
                lines[i],
                n as nat,
            ) by {
                if i < rest.len() {
                    assert(speaks_of_length(rest[i]));
                    assert(before is Some);
                    assert(declares(rest[i], before->0 as nat));
                }
            }
            if before is Some {
                let i = choose|i: int| 0 <= i < rest.len() && speaks_of_length(#[trigger] rest[i]);
                assert(speaks_of_length(lines[i]));
            } else {
                assert(speaks_of_length(lines[lines.len() - 1]));
            }
        } else {
            assert forall|i: int| 0 <= i < lines.len() implies !speaks_of_length(
                #[trigger] lines[i],
            ) by {
                if i < rest.len() {
                    assert(!speaks_of_length(rest[i]));
                }
            }
        }
    }
}

/// The length of an acknowledgement is one that its head declares below the first line, that
/// nothing else in the head contradicts, and that is not too much.
pub proof fn law_declared_length_is_in_the_head(head: Seq<char>)
    requires
        adapter_wire::declared_length(head) is Ok,
    ensures
        ({
            let n = adapter_wire::declared_length(head)->Ok_0;
            let lines = adapter_wire::head_lines(head).skip(1);
            &&& n <= 65_536
            &&& forall|i: int|
                0 <= i < lines.len() && speaks_of_length(#[trigger] lines[i]) ==> declares(
                    lines[i],
                    n as nat,
                )
            &&& exists|i: int| 0 <= i < lines.len() && speaks_of_length(#[trigger] lines[i])
        }),
{
    lemma_lengths(adapter_wire::head_lines(head).skip(1));
}

} // verus!
