//! The layout switch executor's logic: decoding the layout service's JSON
//! reply, and the cyclic forward distance that turns a desired absolute
//! layout index into a count of "advance to next layout" commands.
//!
//! The service is an outside process; issuing the commands and collecting
//! its reply bytes happens outside the library. Everything between — what
//! the reply means and how many commands to send — is decided here.

use vstd::prelude::*;

verus! {

#[verifier::external_type_specification]
#[verifier::external_body]
pub struct ExJsonValue(serde_json::Value);

/// The JSON document a byte buffer parses to, or nothing when the buffer is
/// not valid JSON. A pure function of the bytes.
pub uninterp spec fn json_doc(bytes: Seq<u8>) -> Option<serde_json::Value>;

/// The member of a JSON object under the given key, or nothing when the
/// value is not an object or lacks the key.
pub uninterp spec fn json_field(v: serde_json::Value, key: Seq<char>) -> Option<
    serde_json::Value,
>;

/// The elements of a JSON array, or nothing when the value is not an array.
pub uninterp spec fn json_elements(v: serde_json::Value) -> Option<Seq<serde_json::Value>>;

/// The characters of a JSON string, or nothing when the value is not a
/// string.
pub uninterp spec fn json_text(v: serde_json::Value) -> Option<Seq<char>>;

/// The number held by a JSON unsigned integer that fits in 64 bits, or
/// nothing for any other value.
pub uninterp spec fn json_unsigned(v: serde_json::Value) -> Option<u64>;

/// Relies on serde_json::from_slice for serde_json::Value: parses one JSON
/// document from bytes; the outcome depends on the bytes alone.
#[verifier::external_body]
fn json_parse(bytes: &[u8]) -> (r: Option<serde_json::Value>)
    ensures
        r == json_doc(bytes@),
{
    match serde_json::from_slice::<serde_json::Value>(bytes) {
        Ok(v) => Some(v),
        Err(_) => None,
    }
}

/// Relies on serde_json::Value::get with a string key: Some exactly on an
/// object with that key, returning the member.
#[verifier::external_body]
fn json_get_field<'a>(v: &'a serde_json::Value, key: &str) -> (r: Option<&'a serde_json::Value>)
    ensures
        match r {
            Some(f) => json_field(*v, key@) == Some(*f),
            None => json_field(*v, key@) is None,
        },
{
    v.get(key)
}

/// Relies on serde_json::Value::as_array: Some exactly on an array,
/// returning its elements.
#[verifier::external_body]
fn json_as_array<'a>(v: &'a serde_json::Value) -> (r: Option<&'a Vec<serde_json::Value>>)
    ensures
        match r {
            Some(a) => json_elements(*v) == Some(a@),
            None => json_elements(*v) is None,
        },
{
    v.as_array()
}

/// Relies on serde_json::Value::as_str: Some exactly on a string, returning
/// its characters.
#[verifier::external_body]
fn json_as_str<'a>(v: &'a serde_json::Value) -> (r: Option<&'a str>)
    ensures
        match r {
            Some(s) => json_text(*v) == Some(s@),
            None => json_text(*v) is None,
        },
{
    v.as_str()
}

/// Relies on serde_json::Value::as_u64: Some exactly on an unsigned integer
/// representable in 64 bits, returning it.
#[verifier::external_body]
fn json_as_u64(v: &serde_json::Value) -> (r: Option<u64>)
    ensures
        r == json_unsigned(*v),
{
    v.as_u64()
}

/// Why a reply from the layout service could not be used.
#[derive(Clone, Copy, PartialEq, Eq, Structural, Debug)]
pub enum NiriError {
    /// The reply bytes are not valid JSON.
    InvalidJson,
    /// The reply is JSON but does not hold the expected names array.
    MalformedReply,
}

/// The views of a vector of strings.
pub open spec fn views_of(ss: Seq<String>) -> Seq<Seq<char>> {
    ss.map_values(|s: String| s@)
}

/// The strings among the elements, in order, as character sequences:
/// non-string elements are passed over.
pub open spec fn texts_of(elems: Seq<serde_json::Value>) -> Seq<Seq<char>>
    decreases elems.len(),
{
    if elems.len() == 0 {
        Seq::empty()
    } else {
        let prefix = texts_of(elems.drop_last());
        match json_text(elems.last()) {
            Some(t) => prefix.push(t),
            None => prefix,
        }
    }
}

/// The key under which the reply lists the layout names.
pub open spec fn names_key() -> Seq<char> {
    "names"@
}

/// The key under which the reply carries the current layout index.
pub open spec fn current_key() -> Seq<char> {
    "current_idx"@
}

/// What the list of layout names decodes to for given reply bytes: the
/// string elements of the names array, or the error saying why not.
pub open spec fn layout_names_spec(bytes: Seq<u8>) -> Result<Seq<Seq<char>>, NiriError> {
    match json_doc(bytes) {
        None => Err(NiriError::InvalidJson),
        Some(doc) => match json_field(doc, names_key()) {
            None => Err(NiriError::MalformedReply),
            Some(f) => match json_elements(f) {
                None => Err(NiriError::MalformedReply),
                Some(elems) => Ok(texts_of(elems)),
            },
        },
    }
}

/// What the current layout index decodes to: the unsigned `current_idx`
/// member truncated to 32 bits, zero when the member is missing or not an
/// unsigned integer, and an error only when the bytes are not JSON.
pub open spec fn current_index_spec(bytes: Seq<u8>) -> Result<u32, NiriError> {
    match json_doc(bytes) {
        None => Err(NiriError::InvalidJson),
        Some(doc) => {
            let u = match json_field(doc, current_key()) {
                None => 0u64,
                Some(f) => match json_unsigned(f) {
                    Some(u) => u,
                    None => 0u64,
                },
            };
            Ok((u % 0x1_0000_0000) as u32)
        },
    }
}

/// Decodes the ordered list of layout names from the service's reply
/// bytes.
#[verifier::loop_isolation(false)]
pub fn parse_layout_names(bytes: &Vec<u8>) -> (r: Result<Vec<String>, NiriError>)
    ensures
        match r {
            Ok(names) => layout_names_spec(bytes@) == Ok::<Seq<Seq<char>>, NiriError>(
                views_of(names@),
            ),
            Err(e) => layout_names_spec(bytes@) == Err::<Seq<Seq<char>>, NiriError>(e),
        },
{
    let doc = match json_parse(bytes.as_slice()) {
        Some(d) => d,
        None => {
            return Err(NiriError::InvalidJson);
        },
    };
    let field = match json_get_field(&doc, "names") {
        Some(f) => f,
        None => {
            return Err(NiriError::MalformedReply);
        },
    };
    let elems = match json_as_array(field) {
        Some(a) => a,
        None => {
            return Err(NiriError::MalformedReply);
        },
    };
    let mut names: Vec<String> = Vec::new();
    let mut i: usize = 0;
    while i < elems.len()
        invariant
            i <= elems@.len(),
            views_of(names@) == texts_of(elems@.subrange(0, i as int)),
        decreases elems@.len() - i,
    {
        let ghost prev = names@;
        match json_as_str(&elems[i]) {
            Some(s) => {
                names.push(s.to_owned());
            },
            None => {},
        }
        i += 1;
        proof {
            let sub = elems@.subrange(0, i as int);
            assert(sub.drop_last() =~= elems@.subrange(0, i - 1));
            assert(sub.last() == elems@[i - 1]);
            if json_text(elems@[i - 1]) is Some {
                assert(views_of(names@) =~= views_of(prev).push(
                    json_text(elems@[i - 1])->0,
                ));
            } else {
                assert(views_of(names@) =~= views_of(prev));
            }
        }
    }
    proof {
        assert(elems@.subrange(0, elems@.len() as int) =~= elems@);
    }
    Ok(names)
}

/// Decodes the current layout index from the service's reply bytes.
pub fn parse_current_index(bytes: &Vec<u8>) -> (r: Result<u32, NiriError>)
    ensures
        r == current_index_spec(bytes@),
{
    let doc = match json_parse(bytes.as_slice()) {
        Some(d) => d,
        None => {
            return Err(NiriError::InvalidJson);
        },
    };
    let u: u64 = match json_get_field(&doc, "current_idx") {
        Some(f) => match json_as_u64(f) {
            Some(u) => u,
            None => 0,
        },
        None => 0,
    };
    Ok((u % 0x1_0000_0000) as u32)
}

/// The cyclic forward distance from `current` to `target` among `total`
/// layouts: the only primitive the service offers is "advance to next", so
/// a switch always walks forward and wraps around.
pub open spec fn cyclic_steps(current: u32, total: u32, target: u32) -> int {
    (target + total - current) % (total as int)
}

/// How many "advance to next layout" commands reach `target` from
/// `current`: the cyclic forward distance. Zero exactly when the target is
/// already current (for targets within range), so no command is issued.
pub fn switch_steps(current: u32, total: u32, target: u32) -> (steps: u32)
    requires
        total > 0,
        current < total,
    ensures
        steps as int == cyclic_steps(current, total, target),
        steps < total,
        current == target ==> steps == 0,
        target < total && current != target ==> steps > 0,
{
    let c = current as u64;
    let t = total as u64;
    let g = target as u64;
    let steps64 = (g + t - c) % t;
    proof {
        let x = g as int + t as int - c as int;
        let ti = t as int;
        assert(steps64 as int == x % ti);
        assert(steps64 < t);
        if current == target {
            assert(x % ti == 0) by (nonlinear_arith)
                requires
                    x == ti,
                    ti > 0,
            ;
        }
        if target < total && current != target {
            assert(x % ti != 0) by (nonlinear_arith)
                requires
                    0 < x < 2 * ti,
                    x != ti,
                    ti > 0,
            ;
        }
    }
    steps64 as u32
}

} // verus!
