//! Header fields: what a request takes upstream and what a response takes back.
use crate::text::{has_text, same_text, strip_prefixes_and_trim};
use crate::text::{contains_text, trimmed, without_prefixes};
use axum::http::header::{InvalidHeaderValue, MaxSizeReached, ToStrError};
use axum::http::{HeaderMap, HeaderName, HeaderValue};
use vstd::prelude::*;
use vstd::string::*;
use vstd::utf8::encode_utf8;

verus! {

/// Trusted: `http::HeaderMap`, header fields by name.
#[verifier::external_type_specification]
#[verifier::external_body]
#[verifier::reject_recursive_types(T)]
pub struct ExHeaderMap<T>(HeaderMap<T>);

/// Trusted: `http::HeaderName`, the name of a header field.
#[verifier::external_type_specification]
#[verifier::external_body]
pub struct ExHeaderName(HeaderName);

/// Trusted: `http::HeaderValue`, the value of a header field.
#[verifier::external_type_specification]
#[verifier::external_body]
pub struct ExHeaderValue(HeaderValue);

/// Trusted: `http::header::InvalidHeaderValue`, that a text is no header value.
#[verifier::external_type_specification]
#[verifier::external_body]
pub struct ExInvalidHeaderValue(InvalidHeaderValue);

/// Trusted: `http::header::ToStrError`, that a header value is no plain text.
#[verifier::external_type_specification]
#[verifier::external_body]
pub struct ExToStrError(ToStrError);

/// Trusted: `http::header::MaxSizeReached`, that a header map can take no more.
#[verifier::external_type_specification]
#[verifier::external_body]
pub struct ExMaxSizeReached(MaxSizeReached);

/// The fields that a header map holds: for each name, in lower case, its values in order.
pub uninterp spec fn header_fields(headers: HeaderMap<HeaderValue>) -> Map<Seq<char>, Seq<Seq<u8>>>;

/// The characters of a header name.
pub uninterp spec fn name_text(name: HeaderName) -> Seq<char>;

/// The bytes of a header value.
pub uninterp spec fn value_bytes(value: HeaderValue) -> Seq<u8>;

/// The fields that a list of names and values amounts to.
pub open spec fn listed(items: Seq<(HeaderName, HeaderValue)>) -> Map<Seq<char>, Seq<Seq<u8>>>
    decreases items.len(),
{
    if items.len() == 0 {
        map![]
    } else {
        let before = listed(items.drop_last());
        let name = name_text(items.last().0);
        let value = value_bytes(items.last().1);
        if before.contains_key(name) {
            before.insert(name, before[name].push(value))
        } else {
            before.insert(name, seq![value])
        }
    }
}

/// A header name in lower case, of letters, digits and hyphens, and of moderate length.
pub open spec fn plain_name(name: Seq<char>) -> bool {
    &&& 0 < name.len() <= 64
    &&& forall|i: int|
        0 <= i < name.len() ==> {
            ||| 'a' <= #[trigger] name[i] <= 'z'
            ||| '0' <= name[i] <= '9'
            ||| name[i] == '-'
        }
}

/// The bytes that a header value may hold.
pub open spec fn value_byte(byte: u8) -> bool {
    byte >= 32 && byte != 127 || byte == 9
}

/// Whether these bytes can be a header value.
pub open spec fn valid_value(bytes: Seq<u8>) -> bool {
    forall|i: int| 0 <= i < bytes.len() ==> value_byte(#[trigger] bytes[i])
}

/// Whether a header value is plain text: visible ASCII, blanks and tabs.
pub open spec fn plain_value(bytes: Seq<u8>) -> bool {
    forall|i: int| 0 <= i < bytes.len() ==> value_byte(#[trigger] bytes[i]) && bytes[i] < 128
}

/// The characters of a header value that is plain text.
pub open spec fn plain_text(bytes: Seq<u8>) -> Seq<char> {
    Seq::new(bytes.len(), |i: int| bytes[i] as char)
}

/// Trusted: `HeaderMap::new` makes a map without fields.
#[verifier::external_body]
fn no_headers() -> (headers: HeaderMap<HeaderValue>)
    ensures
        header_fields(headers) == listed(Seq::empty()),
{
    HeaderMap::new()
}

/// Trusted: `HeaderMap::iter` hands out every value with its name, the values of one name in order.
/// In which order the names come is left open.
#[verifier::external_body]
fn header_items(headers: &HeaderMap<HeaderValue>) -> (items: Vec<(HeaderName, HeaderValue)>)
    ensures
        listed(items@) == header_fields(*headers),
{
    headers.iter().map(|(name, value)| (name.clone(), value.clone())).collect()
}

/// Trusted: `HeaderMap::try_insert` sets a field to one value and hands out the first of the values
/// that it had before, if there were any. It fails only where the map is too
/// large: a map can always take one more name while it has fewer than a fifth of the 32768 slots of
/// the largest table. From there on to three quarters it rests on how the names hash, and is left
/// open.
#[verifier::external_body]
fn set_header(headers: &mut HeaderMap<HeaderValue>, name: HeaderName, value: HeaderValue) -> (done:
    Result<Option<HeaderValue>, MaxSizeReached>)
    ensures
        done is Ok ==> header_fields(*final(headers)) == header_fields(*old(headers)).insert(
            name_text(name),
            seq![value_bytes(value)],
        ),
        match done {
            Ok(Some(first)) => header_fields(*old(headers)).contains_key(name_text(name))
                && value_bytes(first) == header_fields(*old(headers))[name_text(name)][0],
            Ok(None) => !header_fields(*old(headers)).contains_key(name_text(name)),
            Err(_) => true,
        },
        5 * header_fields(*old(headers)).dom().len() < 32768 ==> done is Ok,
{
    headers.try_insert(name, value)
}

/// Trusted: `HeaderMap::get` finds the first value of a field.
#[verifier::external_body]
fn first_value<'a>(headers: &'a HeaderMap<HeaderValue>, name: &str) -> (found: Option<
    &'a HeaderValue,
>)
    requires
        plain_name(name@),
    ensures
        match found {
            Some(value) => header_fields(*headers).contains_key(name@) && value_bytes(*value)
                == header_fields(*headers)[name@][0],
            None => !header_fields(*headers).contains_key(name@),
        },
{
    headers.get(name)
}

/// Trusted: `HeaderMap::remove` takes a field with all its values out.
#[verifier::external_body]
fn drop_header(headers: &mut HeaderMap<HeaderValue>, name: &str)
    requires
        plain_name(name@),
    ensures
        header_fields(*final(headers)) == header_fields(*old(headers)).remove(name@),
{
    headers.remove(name);
}

/// Trusted: `HeaderName::as_str` gives the characters of a header name.
pub assume_specification[ HeaderName::as_str ](name: &HeaderName) -> (text: &str)
    ensures
        text@ == name_text(*name),
;

/// Trusted: `HeaderName::from_static` makes the header name with these characters.
pub assume_specification[ HeaderName::from_static ](src: &'static str) -> (name: HeaderName)
    requires
        plain_name(src@),
    ensures
        name_text(name) == src@,
;

/// Trusted: `HeaderValue::to_str` gives the characters of a header value that is plain text, and
/// fails on any other.
pub assume_specification[ HeaderValue::to_str ](value: &HeaderValue) -> (text: Result<
    &str,
    ToStrError,
>)
    ensures
        match text {
            Ok(s) => plain_value(value_bytes(*value)) && s@ == plain_text(value_bytes(*value)),
            Err(_) => !plain_value(value_bytes(*value)),
        },
;

/// Trusted: `HeaderValue::from_str` makes a header value of the UTF-8 of a text, and fails where
/// that holds a byte that no header value may hold.
pub assume_specification[ HeaderValue::from_str ](src: &str) -> (made: Result<
    HeaderValue,
    InvalidHeaderValue,
>)
    ensures
        match made {
            Ok(value) => valid_value(encode_utf8(src@)) && value_bytes(value) == encode_utf8(src@),
            Err(_) => !valid_value(encode_utf8(src@)),
        },
;

/// Why the header fields of a request or a response cannot be passed on.
pub enum HeaderError {
    /// The API key holds a character that no header value may hold.
    InvalidApiKey,
    /// There are more fields than a header map can take.
    TooManyFields,
}

/// Which way header fields go.
#[derive(Clone, Copy)]
pub enum Direction {
    /// To the upstream server.
    Upstream,
    /// Back to the client.
    Downstream,
}

/// Whether a field is not passed on as it came: it belongs to one connection, or to the body as it
/// was on that connection.
pub open spec fn withheld(direction: Direction, name: Seq<char>) -> bool {
    match direction {
        Direction::Upstream => {
            ||| name == "host"@
            ||| name == "content-length"@
            ||| name == "connection"@
            ||| name == "accept-encoding"@
        },
        Direction::Downstream => {
            ||| name == "content-length"@
            ||| name == "transfer-encoding"@
        },
    }
}

/// The fields that are passed on: each with the last of its values.
pub open spec fn passed_on(
    fields: Map<Seq<char>, Seq<Seq<u8>>>,
    direction: Direction,
) -> Map<Seq<char>, Seq<Seq<u8>>> {
    Map::new(
        |name: Seq<char>| fields.contains_key(name) && !withheld(direction, name),
        |name: Seq<char>| seq![fields[name].last()],
    )
}

/// Whether there are few enough fields for any header map.
pub open spec fn few_fields(fields: Map<Seq<char>, Seq<Seq<u8>>>) -> bool {
    5 * fields.dom().len() < 32768
}

/// Whether a field is not passed on as it came.
fn is_withheld(direction: Direction, name: &str) -> (answer: bool)
    ensures
        answer == withheld(direction, name@),
{
    match direction {
        Direction::Upstream => {
            same_text(name, "host") || same_text(name, "content-length") || same_text(
                name,
                "connection",
            ) || same_text(name, "accept-encoding")
        },
        Direction::Downstream => {
            same_text(name, "content-length") || same_text(name, "transfer-encoding")
        },
    }
}

/// A list of fields amounts to finitely many, and a longer list to no fewer.
proof fn listed_is_finite(items: Seq<(HeaderName, HeaderValue)>, n: int)
    requires
        0 <= n <= items.len(),
    ensures
        listed(items).dom().finite(),
        listed(items.take(n)).dom().subset_of(listed(items).dom()),
        forall|name: Seq<char>| #[trigger]
            listed(items).contains_key(name) ==> listed(items)[name].len() > 0,
    decreases items.len(),
{
    if items.len() == 0 {
        assert(items.take(n) =~= items);
    } else {
        let front = items.drop_last();
        if n == items.len() {
            assert(items.take(n) =~= items);
            listed_is_finite(front, 0);
        } else {
            assert(items.take(n) =~= front.take(n));
            listed_is_finite(front, n);
        }
    }
}

/// Passes header fields on.
fn pass_on(headers: &HeaderMap<HeaderValue>, direction: Direction) -> (passed: Result<
    HeaderMap<HeaderValue>,
    MaxSizeReached,
>)
    ensures
        header_fields(*headers).dom().finite(),
        passed is Ok ==> header_fields(passed->Ok_0) == passed_on(
            header_fields(*headers),
            direction,
        ),
        few_fields(header_fields(*headers)) ==> passed is Ok,
{
    let items = header_items(headers);
    let ghost all = items@;
    let ghost fields = header_fields(*headers);
    let mut passed = no_headers();
    proof {
        listed_is_finite(all, 0);
        assert(all.take(0) =~= Seq::empty());
        assert(header_fields(passed) =~= passed_on(listed(all.take(0)), direction));
    }
    for item in it: items
        invariant
            it.seq() == all,
            fields == header_fields(*headers),
            fields == listed(all),
            fields.dom().finite(),
            header_fields(passed) == passed_on(listed(all.take(it.index() as int)), direction),
    {
        let ghost at = it.index() as int;
        let ghost before = listed(all.take(at));
        let ghost after = listed(all.take(at + 1));
        let (name, value) = item;
        proof {
            assert(all.take(at + 1).drop_last() == all.take(at));
            assert(all.take(at + 1).last() == all[at]);
            listed_is_finite(all, at);
            let taken = header_fields(passed).dom();
            assert(taken.subset_of(fields.dom()));
            vstd::set_lib::lemma_len_subset(taken, fields.dom());
        }
        if is_withheld(direction, name.as_str()) {
            proof {
                assert(passed_on(after, direction) =~= passed_on(before, direction));
            }
        } else {
            let ghost field = name_text(name);
            let ghost bytes = value_bytes(value);
            match set_header(&mut passed, name, value) {
                Ok(_) => {},
                Err(error) => return Err(error),
            }
            proof {
                assert(after[field].last() == bytes);
                assert(passed_on(after, direction) =~= passed_on(before, direction).insert(
                    field,
                    seq![bytes],
                ));
            }
        }
    }
    proof {
        assert(all.take(all.len() as int) == all);
    }
    Ok(passed)
}

/// The text of a field, where its first value is plain text.
pub open spec fn field_text(fields: Map<Seq<char>, Seq<Seq<u8>>>, name: Seq<char>) -> Option<
    Seq<char>,
> {
    if fields.contains_key(name) && plain_value(fields[name][0]) {
        Some(plain_text(fields[name][0]))
    } else {
        None
    }
}

/// The text of a field, where its first value is plain text.
fn header_text<'a>(headers: &'a HeaderMap<HeaderValue>, name: &str) -> (text: Option<&'a str>)
    requires
        plain_name(name@),
    ensures
        match text {
            Some(s) => field_text(header_fields(*headers), name@) == Some(s@),
            None => field_text(header_fields(*headers), name@) is None,
        },
{
    match first_value(headers, name) {
        Some(value) => match value.to_str() {
            Ok(text) => Some(text),
            Err(_) => None,
        },
        None => None,
    }
}

/// The API key for the upstream server: the configured one, or else the one in the field `api-key`,
/// or else the one in the field `authorization`, without `Bearer` and blanks around it.
pub open spec fn api_key(
    configured: Option<Seq<char>>,
    fields: Map<Seq<char>, Seq<Seq<u8>>>,
) -> Option<Seq<char>> {
    match configured {
        Some(key) => Some(key),
        None => match field_text(fields, "api-key"@) {
            Some(key) => Some(key),
            None => match field_text(fields, "authorization"@) {
                Some(text) => Some(trimmed(without_prefixes(text, "Bearer "@))),
                None => None,
            },
        },
    }
}

/// The fields of a request that goes upstream: those that are passed on, and of the two that can
/// hold the API key only `api-key`, where there is a key.
pub open spec fn upstream_fields(
    configured: Option<Seq<char>>,
    fields: Map<Seq<char>, Seq<Seq<u8>>>,
) -> Map<Seq<char>, Seq<Seq<u8>>> {
    let passed = passed_on(fields, Direction::Upstream);
    let bare = passed.remove("authorization"@).remove("api-key"@);
    match api_key(configured, passed) {
        Some(key) => bare.insert("api-key"@, seq![encode_utf8(key)]),
        None => bare,
    }
}

/// Whether the API key of a request, if there is one, can be a header value.
pub open spec fn key_is_valid(
    configured: Option<Seq<char>>,
    fields: Map<Seq<char>, Seq<Seq<u8>>>,
) -> bool {
    match api_key(configured, passed_on(fields, Direction::Upstream)) {
        Some(key) => valid_value(encode_utf8(key)),
        None => true,
    }
}

/// What a configured text says.
pub open spec fn option_text(text: Option<String>) -> Option<Seq<char>> {
    match text {
        Some(s) => Some(s@),
        None => None,
    }
}

/// The API key that is configured: none where it is empty.
pub fn configured_key(variable: Option<String>) -> (key: Option<String>)
    ensures
        option_text(key) == match variable {
            Some(text) => if text@.len() == 0 {
                None
            } else {
                Some(text@)
            },
            None => None,
        },
{
    match variable {
        Some(text) => if text.as_str().is_empty() {
            None
        } else {
            Some(text)
        },
        None => None,
    }
}

/// The two fields that can hold the API key, and the one that tells what a body is, are plain names.
proof fn key_fields_are_plain()
    ensures
        plain_name("api-key"@),
        plain_name("authorization"@),
        plain_name("content-type"@),
{
    reveal_strlit("api-key");
    reveal_strlit("authorization");
    reveal_strlit("content-type");
}

/// Chooses the API key for the upstream server.
fn choose_key(configured: &Option<String>, headers: &HeaderMap<HeaderValue>) -> (key: Option<String>)
    ensures
        option_text(key) == api_key(option_text(*configured), header_fields(*headers)),
{
    proof {
        key_fields_are_plain();
    }
    match configured {
        Some(key) => Some(key.clone()),
        None => match header_text(headers, "api-key") {
            Some(key) => Some(key.to_owned()),
            None => match header_text(headers, "authorization") {
                Some(text) => Some(strip_prefixes_and_trim(text, "Bearer ")),
                None => None,
            },
        },
    }
}

/// The header fields of a request that goes upstream.
pub fn upstream_headers(headers: &HeaderMap<HeaderValue>, configured: &Option<String>) -> (passed:
    Result<HeaderMap<HeaderValue>, HeaderError>)
    ensures
        match passed {
            Ok(result) => key_is_valid(option_text(*configured), header_fields(*headers))
                && header_fields(result) == upstream_fields(
                option_text(*configured),
                header_fields(*headers),
            ),
            Err(HeaderError::InvalidApiKey) => !key_is_valid(
                option_text(*configured),
                header_fields(*headers),
            ),
            Err(HeaderError::TooManyFields) => !few_fields(header_fields(*headers)),
        },
{
    let ghost fields = header_fields(*headers);
    let mut passed = match pass_on(headers, Direction::Upstream) {
        Ok(passed) => passed,
        Err(_) => return Err(HeaderError::TooManyFields),
    };
    let key = choose_key(configured, &passed);
    proof {
        key_fields_are_plain();
    }
    drop_header(&mut passed, "authorization");
    drop_header(&mut passed, "api-key");
    match key {
        Some(text) => match HeaderValue::from_str(text.as_str()) {
            Ok(value) => {
                proof {
                    let left = header_fields(passed).dom();
                    assert(left.subset_of(fields.dom()));
                    vstd::set_lib::lemma_len_subset(left, fields.dom());
                }
                match set_header(&mut passed, HeaderName::from_static("api-key"), value) {
                    Ok(_) => Ok(passed),
                    Err(_) => Err(HeaderError::TooManyFields),
                }
            },
            Err(_) => Err(HeaderError::InvalidApiKey),
        },
        None => Ok(passed),
    }
}

/// The header fields of a response that goes back to the client.
pub fn downstream_headers(headers: &HeaderMap<HeaderValue>) -> (passed: Result<
    HeaderMap<HeaderValue>,
    HeaderError,
>)
    ensures
        match passed {
            Ok(result) => header_fields(result) == passed_on(
                header_fields(*headers),
                Direction::Downstream,
            ),
            Err(error) => error is TooManyFields && !few_fields(header_fields(*headers)),
        },
{
    match pass_on(headers, Direction::Downstream) {
        Ok(passed) => Ok(passed),
        Err(_) => Err(HeaderError::TooManyFields),
    }
}

/// The type of a body, as its header fields give it: empty where they give none.
pub open spec fn content_type_of(fields: Map<Seq<char>, Seq<Seq<u8>>>) -> Seq<char> {
    match field_text(fields, "content-type"@) {
        Some(text) => text,
        None => seq![],
    }
}

/// What is done with the body of a response.
#[derive(Clone, Copy)]
pub enum BodyKind {
    /// A stream of events: it is passed on while it comes in, and not looked into.
    Stream,
    /// JSON: the whole body is read, and its reasoning texts are remembered where the response
    /// tells of success.
    Json,
    /// Anything else: the whole body is read.
    Other,
}

/// What is done with the body of a response with these header fields.
pub open spec fn body_kind_of(fields: Map<Seq<char>, Seq<Seq<u8>>>) -> BodyKind {
    if contains_text(content_type_of(fields), "event-stream"@) {
        BodyKind::Stream
    } else if contains_text(content_type_of(fields), "application/json"@) {
        BodyKind::Json
    } else {
        BodyKind::Other
    }
}

/// What is done with the body of a response with these header fields.
pub fn body_kind(headers: &HeaderMap<HeaderValue>) -> (kind: BodyKind)
    ensures
        kind == body_kind_of(header_fields(*headers)),
{
    proof {
        key_fields_are_plain();
        reveal_strlit("");
        assert(""@ =~= seq![]);
    }
    let content_type = match header_text(headers, "content-type") {
        Some(text) => text,
        None => "",
    };
    if has_text(content_type, "event-stream") {
        BodyKind::Stream
    } else if has_text(content_type, "application/json") {
        BodyKind::Json
    } else {
        BodyKind::Other
    }
}

} // verus!
