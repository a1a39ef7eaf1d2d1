//! Compact JSON text, as event payloads and digests carry it.

use vstd::prelude::*;

use crate::outside;
use crate::text;

verus! {

/// One member of an object; keys need no escaping.
pub open spec fn member(key: Seq<char>, value: Seq<char>) -> Seq<char> {
    "\""@ + key + "\":"@ + value
}

/// An object with the given members.
pub open spec fn object(members: Seq<Seq<char>>) -> Seq<char> {
    "{"@ + text::joined(members, ","@) + "}"@
}

/// An array of JSON strings.
pub open spec fn array(items: Seq<Seq<char>>) -> Seq<char> {
    "["@ + text::joined(items.map_values(|s: Seq<char>| outside::json_text(s)), ","@) + "]"@
}

/// A JSON string, or `null`.
pub open spec fn optional(item: Option<Seq<char>>) -> Seq<char> {
    match item {
        Some(s) => outside::json_text(s),
        None => "null"@,
    }
}

pub open spec fn boolean(b: bool) -> Seq<char> {
    if b {
        "true"@
    } else {
        "false"@
    }
}

pub fn write_member(key: &str, value: &str) -> (r: String)
    ensures
        r@ == member(key@, value@),
{
    "\"".to_owned().concat(key).concat("\":").concat(value)
}

pub fn text_member(key: &str, value: &str) -> (r: String)
    ensures
        r@ == member(key@, outside::json_text(value@)),
{
    let quoted = outside::quote_json(value);
    write_member(key, quoted.as_str())
}

pub fn write_object(members: &[String]) -> (r: String)
    ensures
        r@ == object(text::texts(members@)),
{
    let inner = text::join(members, ",");
    "{".to_owned().concat(inner.as_str()).concat("}")
}

pub fn write_array(items: &[String]) -> (r: String)
    ensures
        r@ == array(text::texts(items@)),
{
    let mut quoted: Vec<String> = Vec::new();
    let mut i: usize = 0;
    let ghost wanted = text::texts(items@).map_values(|s: Seq<char>| outside::json_text(s));
    while i < items.len()
        invariant
            i <= items@.len(),
            wanted == text::texts(items@).map_values(|s: Seq<char>| outside::json_text(s)),
            text::texts(quoted@) == wanted.take(i as int),
        decreases items.len() - i,
    {
        let ghost before = quoted@;
        let one = outside::quote_json(items[i].as_str());
        quoted.push(one);
        proof {
            assert(text::texts(quoted@) =~= text::texts(before).push(one@));
            assert(wanted.take(i as int + 1) =~= wanted.take(i as int).push(wanted[i as int]));
        }
        i = i + 1;
    }
    proof {
        assert(wanted.take(wanted.len() as int) =~= wanted);
    }
    let inner = text::join(quoted.as_slice(), ",");
    "[".to_owned().concat(inner.as_str()).concat("]")
}

pub fn write_optional(item: &Option<String>) -> (r: String)
    ensures
        r@ == optional(text::text_of(*item)),
{
    match item {
        Some(s) => outside::quote_json(s.as_str()),
        None => "null".to_owned(),
    }
}

pub fn write_boolean(b: bool) -> (r: String)
    ensures
        r@ == boolean(b),
{
    if b {
        "true".to_owned()
    } else {
        "false".to_owned()
    }
}

} // verus!
