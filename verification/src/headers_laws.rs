//! What holds of the header fields that are passed on.
use crate::headers::{
    api_key, body_kind_of, configured_key, content_type_of, few_fields, field_text, key_is_valid, passed_on, plain_text,
    plain_value, upstream_fields, valid_value, value_byte, withheld, Direction,
};
use crate::text::{
    contains_text, left_trimmed, right_stripped, trimmed, white_space, without_prefixes,
};
use vstd::prelude::*;
use vstd::utf8::{encode_utf8, is_ascii_chars, is_ascii_chars_encode_utf8};

verus! {

/// The names of the fields that matter here are different names.
proof fn field_names_differ()
    ensures
        "api-key"@ != "authorization"@,
        !withheld(Direction::Upstream, "api-key"@),
{
    reveal_strlit("api-key");
    reveal_strlit("authorization");
    reveal_strlit("host");
    reveal_strlit("content-length");
    reveal_strlit("connection");
    reveal_strlit("accept-encoding");
    assert("api-key"@.len() == 7);
    assert("authorization"@.len() == 13);
    assert("host"@.len() == 4);
    assert("content-length"@.len() == 14);
    assert("connection"@.len() == 10);
    assert("accept-encoding"@.len() == 15);
}

/// Neither a field of the client's connection nor `authorization` goes upstream.
pub proof fn withheld_fields_stay(
    configured: Option<Seq<char>>,
    fields: Map<Seq<char>, Seq<Seq<u8>>>,
    name: Seq<char>,
)
    requires
        withheld(Direction::Upstream, name) || name == "authorization"@,
    ensures
        !upstream_fields(configured, fields).contains_key(name),
{
    field_names_differ();
}

/// Every other field goes upstream with the last of its values, and no field is made up.
pub proof fn other_fields_go_upstream(
    configured: Option<Seq<char>>,
    fields: Map<Seq<char>, Seq<Seq<u8>>>,
    name: Seq<char>,
)
    requires
        !withheld(Direction::Upstream, name),
        name != "authorization"@,
        name != "api-key"@,
    ensures
        upstream_fields(configured, fields).contains_key(name) == fields.contains_key(name),
        fields.contains_key(name) ==> upstream_fields(configured, fields)[name]
            == seq![fields[name].last()],
{
}

/// Neither the length nor the transfer encoding of a response goes back to the client; every other
/// field goes back with the last of its values, and no field is made up.
pub proof fn the_rest_goes_back(fields: Map<Seq<char>, Seq<Seq<u8>>>, name: Seq<char>)
    ensures
        name == "content-length"@ || name == "transfer-encoding"@ ==> !passed_on(
            fields,
            Direction::Downstream,
        ).contains_key(name),
        name != "content-length"@ && name != "transfer-encoding"@ && fields.contains_key(name)
            ==> passed_on(fields, Direction::Downstream).contains_key(name) && passed_on(
            fields,
            Direction::Downstream,
        )[name] == seq![fields[name].last()],
        !fields.contains_key(name) ==> !passed_on(fields, Direction::Downstream).contains_key(name),
{
}

/// The field `api-key` goes upstream with exactly the API key, and only where there is one.
pub proof fn the_key_goes_upstream(
    configured: Option<Seq<char>>,
    fields: Map<Seq<char>, Seq<Seq<u8>>>,
)
    ensures
        match api_key(configured, passed_on(fields, Direction::Upstream)) {
            Some(key) => upstream_fields(configured, fields).contains_key("api-key"@)
                && upstream_fields(configured, fields)["api-key"@] == seq![encode_utf8(key)],
            None => !upstream_fields(configured, fields).contains_key("api-key"@),
        },
{
}

/// A configured API key takes the place of whatever the client sends.
pub proof fn the_configured_key_wins(
    key: Seq<char>,
    fields: Map<Seq<char>, Seq<Seq<u8>>>,
    others: Map<Seq<char>, Seq<Seq<u8>>>,
)
    ensures
        api_key(Some(key), fields) == Some(key),
        upstream_fields(Some(key), fields)["api-key"@] == upstream_fields(
            Some(key),
            others,
        )["api-key"@],
{
}

/// A key that the client sends as a bearer token arrives upstream as it is, where it neither begins
/// with another `Bearer` nor has blanks at its ends.
pub proof fn a_bearer_token_is_the_key(
    token: Seq<char>,
    fields: Map<Seq<char>, Seq<Seq<u8>>>,
)
    requires
        field_text(fields, "api-key"@) is None,
        field_text(fields, "authorization"@) == Some("Bearer "@ + token),
        token.len() > 0,
        !white_space(token[0]),
        !white_space(token.last()),
        !"Bearer "@.is_prefix_of(token),
    ensures
        api_key(None, fields) == Some(token),
{
    let bearer = "Bearer "@;
    reveal_strlit("Bearer ");
    let text = bearer + token;
    assert(bearer.is_prefix_of(text)) by {
        assert(bearer =~= text.subrange(0, bearer.len() as int));
    }
    assert(text.skip(bearer.len() as int) =~= token);
    assert(without_prefixes(token, bearer) == token);
    assert(without_prefixes(text, bearer) == token);
    assert(left_trimmed(token) == token);
    assert(right_stripped(token, |c: char| white_space(c)) == token);
}

/// Exactly these fields of a request stay behind: `host`, `content-length`, `connection`,
/// `accept-encoding` and `authorization`. Every other field but `api-key` goes upstream with the last
/// of its values, and no field is made up.
pub proof fn five_fields_stay_behind(
    configured: Option<Seq<char>>,
    fields: Map<Seq<char>, Seq<Seq<u8>>>,
    name: Seq<char>,
)
    ensures
        ({
            let sent = upstream_fields(configured, fields);
            let behind = name == "host"@ || name == "content-length"@ || name == "connection"@ || name
                == "accept-encoding"@ || name == "authorization"@;
            &&& behind ==> !sent.contains_key(name)
            &&& !behind && name != "api-key"@ ==> (sent.contains_key(name) <==> fields.contains_key(
                name,
            ))
            &&& !behind && name != "api-key"@ && fields.contains_key(name) ==> sent[name]
                == seq![fields[name].last()]
        }),
{
    field_names_differ();
}

/// Whether bytes are plain text: visible ASCII, blanks and tabs.
pub open spec fn printable(bytes: Seq<u8>) -> bool {
    forall|i: int| 0 <= i < bytes.len() ==> 32 <= #[trigger] bytes[i] <= 126 || bytes[i] == 9
}

/// Whether bytes are blanks and tabs.
pub open spec fn blank(bytes: Seq<u8>) -> bool {
    forall|i: int| 0 <= i < bytes.len() ==> #[trigger] bytes[i] == 32 || bytes[i] == 9
}

/// The bytes of `Bearer` and a blank, so many times.
pub open spec fn bearers(n: nat) -> Seq<u8>
    decreases n,
{
    if n == 0 {
        seq![]
    } else {
        encode_utf8("Bearer "@) + bearers((n - 1) as nat)
    }
}

/// Whether the last value of a field is plain text.
pub open spec fn readable(fields: Map<Seq<char>, Seq<Seq<u8>>>, name: Seq<char>) -> bool {
    fields.contains_key(name) && printable(fields[name].last())
}

/// Plain text is what the values that can be read hold, and its UTF-8 is the value.
proof fn printable_is_plain(bytes: Seq<u8>)
    ensures
        printable(bytes) <==> plain_value(bytes),
        printable(bytes) ==> encode_utf8(plain_text(bytes)) == bytes && valid_value(bytes),
{
    if plain_value(bytes) {
        assert forall|i: int| 0 <= i < bytes.len() implies 32 <= #[trigger] bytes[i] <= 126 || bytes[i]
            == 9 by {}
    }
    if printable(bytes) {
        let text = plain_text(bytes);
        assert(is_ascii_chars(text));
        is_ascii_chars_encode_utf8(text);
        assert forall|i: int| 0 <= i < bytes.len() implies #[trigger] encode_utf8(text)[i] == bytes[i] by {
            assert(text[i] as u8 == bytes[i]);
        }
        assert(encode_utf8(text) =~= bytes);
    }
}

/// What is passed on of the two fields that can hold the key.
proof fn key_fields_are_passed_on(fields: Map<Seq<char>, Seq<Seq<u8>>>, name: Seq<char>)
    requires
        name == "api-key"@ || name == "authorization"@,
    ensures
        field_text(passed_on(fields, Direction::Upstream), name) == if readable(fields, name) {
            Some(plain_text(fields[name].last()))
        } else {
            None
        },
{
    field_names_differ();
    reveal_strlit("authorization");
    reveal_strlit("host");
    reveal_strlit("content-length");
    reveal_strlit("connection");
    reveal_strlit("accept-encoding");
    assert("authorization"@.len() == 13);
    assert("host"@.len() == 4);
    assert("content-length"@.len() == 14);
    assert("connection"@.len() == 10);
    assert("accept-encoding"@.len() == 15);
    if fields.contains_key(name) {
        printable_is_plain(fields[name].last());
    }
}

/// Without a configured key, the field `api-key` of the client goes upstream byte for byte, however
/// long it is, where it is plain text.
pub proof fn the_key_field_goes_upstream_as_it_is(fields: Map<Seq<char>, Seq<Seq<u8>>>)
    requires
        fields.contains_key("api-key"@),
        printable(fields["api-key"@].last()),
    ensures
        upstream_fields(None, fields).contains_pair("api-key"@, seq![fields["api-key"@].last()]),
        key_is_valid(None, fields),
{
    key_fields_are_passed_on(fields, "api-key"@);
    printable_is_plain(fields["api-key"@].last());
}

/// The text of bytes in two parts.
proof fn plain_text_of_both(a: Seq<u8>, b: Seq<u8>)
    ensures
        plain_text(a + b) == plain_text(a) + plain_text(b),
{
    assert(plain_text(a + b) =~= plain_text(a) + plain_text(b));
}

/// The text of `Bearer` and a blank, so many times, before a text that does not begin with it.
proof fn bearers_are_dropped(n: nat, rest: Seq<u8>)
    requires
        !"Bearer "@.is_prefix_of(plain_text(rest)),
    ensures
        without_prefixes(plain_text(bearers(n) + rest), "Bearer "@) == plain_text(rest),
    decreases n,
{
    if n == 0 {
        assert(bearers(0) + rest =~= rest);
    } else {
        let bearer = "Bearer "@;
        let bytes = encode_utf8(bearer);
        let behind = bearers((n - 1) as nat) + rest;
        bearers_are_dropped((n - 1) as nat, rest);
        assert(bearers(n) + rest =~= bytes + behind);
        plain_text_of_both(bytes, behind);
        bearer_bytes();
        let text = plain_text(bytes + behind);
        assert(text == bearer + plain_text(behind));
        assert(bearer =~= text.subrange(0, bearer.len() as int));
        assert(bearer.is_prefix_of(text));
        assert(text.skip(bearer.len() as int) =~= plain_text(behind));
    }
}

/// The bytes of `Bearer` and a blank are its characters.
proof fn bearer_bytes()
    ensures
        plain_text(encode_utf8("Bearer "@)) == "Bearer "@,
        printable(encode_utf8("Bearer "@)),
        "Bearer "@.len() == 7,
{
    let bearer = "Bearer "@;
    reveal_strlit("Bearer ");
    assert(is_ascii_chars(bearer));
    is_ascii_chars_encode_utf8(bearer);
    let bytes = encode_utf8(bearer);
    assert forall|i: int| 0 <= i < bytes.len() implies 32 <= #[trigger] bytes[i] <= 126 && plain_text(
        bytes,
    )[i] == bearer[i] by {
        assert(bearer[i] as u8 == bytes[i]);
    }
    assert(plain_text(bytes) =~= bearer);
}

/// Blanks before a text are trimmed away.
proof fn blanks_before_are_trimmed(left: Seq<u8>, rest: Seq<u8>)
    requires
        blank(left),
        rest.len() > 0 ==> rest[0] != 32 && rest[0] != 9,
        printable(rest),
    ensures
        left_trimmed(plain_text(left + rest)) == plain_text(rest),
    decreases left.len(),
{
    if left.len() == 0 {
        assert(left + rest =~= rest);
        if rest.len() > 0 {
            assert(!white_space(plain_text(rest)[0]));
        }
    } else {
        let whole = left + rest;
        assert(blank(left.skip(1))) by {
            assert forall|i: int| 0 <= i < left.skip(1).len() implies #[trigger] left.skip(1)[i] == 32
                || left.skip(1)[i] == 9 by {
                assert(left.skip(1)[i] == left[i + 1]);
            }
        }
        blanks_before_are_trimmed(left.skip(1), rest);
        assert(plain_text(whole).skip(1) =~= plain_text(left.skip(1) + rest));
        assert(whole[0] == left[0]);
        assert(white_space(plain_text(whole)[0]));
    }
}

/// Blanks behind a text are trimmed away.
proof fn blanks_behind_are_trimmed(rest: Seq<u8>, right: Seq<u8>)
    requires
        blank(right),
        rest.len() > 0 ==> rest.last() != 32 && rest.last() != 9,
        printable(rest),
    ensures
        right_stripped(plain_text(rest + right), |c: char| white_space(c)) == plain_text(rest),
    decreases right.len(),
{
    if right.len() == 0 {
        assert(rest + right =~= rest);
        if rest.len() > 0 {
            assert(rest[rest.len() - 1] == rest.last());
            assert(!white_space(plain_text(rest).last()));
        }
    } else {
        let whole = rest + right;
        assert(blank(right.drop_last())) by {
            assert forall|i: int| 0 <= i < right.drop_last().len() implies #[trigger] right.drop_last()[i]
                == 32 || right.drop_last()[i] == 9 by {
                assert(right.drop_last()[i] == right[i]);
            }
        }
        blanks_behind_are_trimmed(rest, right.drop_last());
        assert(plain_text(whole).drop_last() =~= plain_text(rest + right.drop_last()));
        assert(whole.last() == right[right.len() - 1]);
        assert(white_space(plain_text(whole).last()));
    }
}

/// Without a configured key and a plain `api-key`, what stands in a plain `authorization` field behind
/// every leading `Bearer ` and between blanks goes upstream as the key, byte for byte, however long it
/// is.
pub proof fn the_key_stands_behind_bearer(
    fields: Map<Seq<char>, Seq<Seq<u8>>>,
    n: nat,
    left: Seq<u8>,
    key: Seq<u8>,
    right: Seq<u8>,
)
    requires
        !readable(fields, "api-key"@),
        fields.contains_key("authorization"@),
        fields["authorization"@].last() == bearers(n) + (left + key + right),
        blank(left),
        printable(key),
        key.len() > 0 ==> key[0] != 32 && key[0] != 9 && key.last() != 32 && key.last() != 9,
        blank(right),
        !encode_utf8("Bearer "@).is_prefix_of(left + key + right),
    ensures
        upstream_fields(None, fields).contains_pair("api-key"@, seq![key]),
        !upstream_fields(None, fields).contains_key("authorization"@),
        key_is_valid(None, fields),
{
    let value = fields["authorization"@].last();
    let rest = left + key + right;
    let bearer = encode_utf8("Bearer "@);
    field_names_differ();
    bearer_bytes();
    bearers_are_printable(n);
    assert(printable(rest)) by {
        assert forall|i: int| 0 <= i < rest.len() implies 32 <= #[trigger] rest[i] <= 126 || rest[i] == 9 by {
            if i < left.len() {
                assert(rest[i] == left[i]);
            } else if i < left.len() + key.len() {
                assert(rest[i] == key[i - left.len()]);
            } else {
                assert(rest[i] == right[i - left.len() - key.len()]);
            }
        }
    }
    assert(printable(value)) by {
        assert forall|i: int| 0 <= i < value.len() implies 32 <= #[trigger] value[i] <= 126 || value[i]
            == 9 by {
            if i < bearers(n).len() {
                assert(value[i] == bearers(n)[i]);
            } else {
                assert(value[i] == rest[i - bearers(n).len()]);
            }
        }
    }
    key_fields_are_passed_on(fields, "api-key"@);
    key_fields_are_passed_on(fields, "authorization"@);
    assert(!"Bearer "@.is_prefix_of(plain_text(rest))) by {
        if "Bearer "@.is_prefix_of(plain_text(rest)) {
            printable_is_plain(bearer);
            printable_is_plain(rest);
            assert forall|i: int| 0 <= i < 7 implies #[trigger] bearer[i] == rest[i] by {
                assert(plain_text(rest).subrange(0, 7)[i] == "Bearer "@[i]);
                assert(plain_text(bearer)[i] == "Bearer "@[i]);
                assert(plain_text(rest)[i] == rest[i] as char);
                assert(rest[i] as char as u8 == rest[i]);
                assert(bearer[i] as char as u8 == bearer[i]);
            }
            assert(bearer.len() == 7) by {
                assert(plain_text(bearer).len() == bearer.len());
            }
            assert(bearer =~= rest.subrange(0, 7));
        }
    }
    bearers_are_dropped(n, rest);
    if key.len() > 0 {
        assert(left + key + right =~= left + (key + right));
        assert((key + right)[0] == key[0]);
        assert(printable(key + right)) by {
            assert forall|i: int| 0 <= i < (key + right).len() implies 32 <= #[trigger] (key + right)[i]
                <= 126 || (key + right)[i] == 9 by {
                assert((key + right)[i] == rest[i + left.len()]);
            }
        }
        blanks_before_are_trimmed(left, key + right);
        blanks_behind_are_trimmed(key, right);
    } else {
        let all = left + key + right;
        assert(blank(all)) by {
            assert forall|i: int| 0 <= i < all.len() implies #[trigger] all[i] == 32 || all[i] == 9 by {
                if i < left.len() {
                    assert(all[i] == left[i]);
                } else {
                    assert(all[i] == right[i - left.len()]);
                }
            }
        }
        assert(all + key =~= all);
        blanks_before_are_trimmed(all, key);
        assert(plain_text(key) =~= seq![]);
    }
    assert(trimmed(plain_text(rest)) == plain_text(key));
    printable_is_plain(key);
}

/// `Bearer` and a blank, however often, is plain text.
proof fn bearers_are_printable(n: nat)
    ensures
        printable(bearers(n)),
    decreases n,
{
    bearer_bytes();
    if n > 0 {
        let first = encode_utf8("Bearer "@);
        let rest = bearers((n - 1) as nat);
        bearers_are_printable((n - 1) as nat);
        assert forall|i: int| 0 <= i < bearers(n).len() implies 32 <= #[trigger] bearers(n)[i] <= 126
            || bearers(n)[i] == 9 by {
            if i < first.len() {
                assert(bearers(n)[i] == first[i]);
            } else {
                assert(bearers(n)[i] == rest[i - first.len()]);
            }
        }
    }
}

/// Without a plain `api-key`, a bearer token of visible ASCII goes upstream as the key, byte for byte,
/// however long it is.
pub proof fn a_bearer_token_of_any_length_is_the_key(
    fields: Map<Seq<char>, Seq<Seq<u8>>>,
    token: Seq<u8>,
)
    requires
        !readable(fields, "api-key"@),
        fields.contains_key("authorization"@),
        fields["authorization"@].last() == encode_utf8("Bearer "@) + token,
        token.len() >= 1,
        forall|i: int| 0 <= i < token.len() ==> 33 <= #[trigger] token[i] <= 126,
    ensures
        upstream_fields(None, fields).contains_pair("api-key"@, seq![token]),
        key_is_valid(None, fields),
{
    let none = Seq::<u8>::empty();
    let bearer = encode_utf8("Bearer "@);
    bearer_bytes();
    assert(none + token + none =~= token);
    assert(bearers(1) =~= bearer) by {
        reveal_with_fuel(bearers, 2);
        assert(bearer + none =~= bearer);
    }
    assert(token.last() == token[token.len() - 1]);
    assert(!bearer.is_prefix_of(token)) by {
        reveal_strlit("Bearer ");
        is_ascii_chars_encode_utf8("Bearer "@);
        assert(bearer[6] == "Bearer "@[6] as u8);
        if bearer.is_prefix_of(token) {
            assert(token.subrange(0, 7)[6] == token[6]);
        }
    }
    the_key_stands_behind_bearer(fields, 1, none, token, none);
}

/// Where no key is configured and neither field that can hold one is plain text, none is sent.
pub proof fn without_a_key_none_is_sent(fields: Map<Seq<char>, Seq<Seq<u8>>>)
    requires
        !readable(fields, "api-key"@),
        !readable(fields, "authorization"@),
    ensures
        !upstream_fields(None, fields).contains_key("api-key"@),
        key_is_valid(None, fields),
{
    key_fields_are_passed_on(fields, "api-key"@);
    key_fields_are_passed_on(fields, "authorization"@);
}

/// A configured key is sent whatever the client sends, and is refused just where its UTF-8 holds a
/// control character other than a tab.
pub proof fn a_configured_key_is_sent(key: Seq<char>, fields: Map<Seq<char>, Seq<Seq<u8>>>)
    ensures
        upstream_fields(Some(key), fields).contains_pair("api-key"@, seq![encode_utf8(key)]),
        key_is_valid(Some(key), fields) <==> forall|i: int|
            0 <= i < encode_utf8(key).len() ==> 32 <= #[trigger] encode_utf8(key)[i] && encode_utf8(
                key,
            )[i] != 127 || encode_utf8(key)[i] == 9,
{
    if key_is_valid(Some(key), fields) {
        assert forall|i: int| 0 <= i < encode_utf8(key).len() implies 32 <= #[trigger] encode_utf8(
            key,
        )[i] && encode_utf8(key)[i] != 127 || encode_utf8(key)[i] == 9 by {}
    }
}

/// Whether a text stands in bytes at this index.
pub open spec fn stands_at(bytes: Seq<u8>, text: Seq<char>, at: int) -> bool {
    &&& 0 <= at
    &&& at + text.len() <= bytes.len()
    &&& forall|j: int| 0 <= j < text.len() ==> bytes[at + j] as char == #[trigger] text[j]
}

/// Whether a text stands somewhere in bytes.
pub open spec fn stands_in(bytes: Seq<u8>, text: Seq<char>) -> bool {
    exists|at: int| #[trigger] stands_at(bytes, text, at)
}

/// A text stands in bytes just where it stands in their characters.
proof fn standing_in_bytes(bytes: Seq<u8>, text: Seq<char>)
    ensures
        stands_in(bytes, text) <==> contains_text(plain_text(bytes), text),
{
    let chars = plain_text(bytes);
    if stands_in(bytes, text) {
        let at = choose|at: int| #[trigger] stands_at(bytes, text, at);
        assert(chars.subrange(at, at + text.len()) =~= text);
    }
    if contains_text(chars, text) {
        let at = choose|at: int|
            0 <= at <= chars.len() - text.len() && #[trigger] chars.subrange(at, at + text.len())
                == text;
        assert forall|j: int| 0 <= j < text.len() implies bytes[at + j] as char == #[trigger] text[j] by {
            assert(chars.subrange(at, at + text.len())[j] == chars[at + j]);
        }
        assert(stands_at(bytes, text, at));
    }
}

/// What is done with a body rests on the first value of `content-type` alone: where `event-stream`
/// stands in it the body is a stream, otherwise where `application/json` stands in it the body is
/// JSON, and in every other case, a missing or unreadable type too, it is just read.
pub proof fn the_content_type_tells_the_kind(fields: Map<Seq<char>, Seq<Seq<u8>>>)
    ensures
        ({
            let value = fields["content-type"@][0];
            let told = fields.contains_key("content-type"@) && printable(value);
            &&& told && stands_in(value, "event-stream"@) ==> body_kind_of(fields) is Stream
            &&& told && !stands_in(value, "event-stream"@) && stands_in(value, "application/json"@)
                ==> body_kind_of(fields) is Json
            &&& told && !stands_in(value, "event-stream"@) && !stands_in(value, "application/json"@)
                ==> body_kind_of(fields) is Other
            &&& !told ==> body_kind_of(fields) is Other
        }),
{
    let value = fields["content-type"@][0];
    reveal_strlit("event-stream");
    reveal_strlit("application/json");
    if fields.contains_key("content-type"@) {
        printable_is_plain(value);
        standing_in_bytes(value, "event-stream"@);
        standing_in_bytes(value, "application/json"@);
    }
    if content_type_of(fields).len() == 0 {
        assert(!contains_text(content_type_of(fields), "event-stream"@));
        assert(!contains_text(content_type_of(fields), "application/json"@));
    }
}

/// Some thousands of fields are few enough for any header map.
pub proof fn thousands_of_fields_are_few(fields: Map<Seq<char>, Seq<Seq<u8>>>)
    requires
        fields.dom().len() <= 6553,
    ensures
        few_fields(fields),
{
}

/// What is set as the key is the key, but where it is not set or empty.
pub proof fn the_key_is_what_is_set(variable: Option<String>, key: Option<String>)
    requires
        call_ensures(configured_key, (variable,), key),
    ensures
        key is Some <==> variable is Some && variable->0@.len() >= 1,
        key is Some ==> key->0@ == variable->0@,
{
}

/// Whether characters are visible ASCII, blanks and tabs.
spec fn printable_chars(text: Seq<char>) -> bool {
    forall|i: int| 0 <= i < text.len() ==> ' ' <= #[trigger] text[i] <= '~' || text[i] == '\t'
}

/// Taking prefixes off leaves characters of the text.
proof fn dropping_keeps_printable(text: Seq<char>, prefix: Seq<char>)
    requires
        printable_chars(text),
    ensures
        printable_chars(without_prefixes(text, prefix)),
    decreases text.len(),
{
    if prefix.len() > 0 && prefix.is_prefix_of(text) {
        let rest = text.skip(prefix.len() as int);
        assert forall|i: int| 0 <= i < rest.len() implies ' ' <= #[trigger] rest[i] <= '~' || rest[i]
            == '\t' by {
            assert(rest[i] == text[i + prefix.len()]);
        }
        dropping_keeps_printable(rest, prefix);
    }
}

/// Trimming on the left leaves characters of the text.
proof fn left_trimming_keeps_printable(text: Seq<char>)
    requires
        printable_chars(text),
    ensures
        printable_chars(left_trimmed(text)),
    decreases text.len(),
{
    if text.len() > 0 && white_space(text[0]) {
        let rest = text.skip(1);
        assert forall|i: int| 0 <= i < rest.len() implies ' ' <= #[trigger] rest[i] <= '~' || rest[i]
            == '\t' by {
            assert(rest[i] == text[i + 1]);
        }
        left_trimming_keeps_printable(rest);
    }
}

/// Stripping on the right leaves characters of the text.
proof fn right_stripping_keeps_printable(text: Seq<char>, unwanted: spec_fn(char) -> bool)
    requires
        printable_chars(text),
    ensures
        printable_chars(right_stripped(text, unwanted)),
    decreases text.len(),
{
    if text.len() > 0 && unwanted(text.last()) {
        let rest = text.drop_last();
        assert forall|i: int| 0 <= i < rest.len() implies ' ' <= #[trigger] rest[i] <= '~' || rest[i]
            == '\t' by {
            assert(rest[i] == text[i]);
        }
        right_stripping_keeps_printable(rest, unwanted);
    }
}

/// Whatever the client sends, no request is refused for its key where none is configured.
pub proof fn only_a_configured_key_is_refused(fields: Map<Seq<char>, Seq<Seq<u8>>>)
    ensures
        key_is_valid(None, fields),
{
    key_fields_are_passed_on(fields, "api-key"@);
    key_fields_are_passed_on(fields, "authorization"@);
    if readable(fields, "api-key"@) {
        printable_is_plain(fields["api-key"@].last());
    } else if readable(fields, "authorization"@) {
        let value = fields["authorization"@].last();
        let text = plain_text(value);
        assert forall|i: int| 0 <= i < text.len() implies ' ' <= #[trigger] text[i] <= '~' || text[i]
            == '\t' by {
            assert(text[i] == value[i] as char);
        }
        let rest = without_prefixes(text, "Bearer "@);
        let key = trimmed(rest);
        dropping_keeps_printable(text, "Bearer "@);
        left_trimming_keeps_printable(rest);
        right_stripping_keeps_printable(left_trimmed(rest), |c: char| white_space(c));
        assert(is_ascii_chars(key));
        is_ascii_chars_encode_utf8(key);
        let bytes = encode_utf8(key);
        assert forall|i: int| 0 <= i < bytes.len() implies value_byte(
            #[trigger] bytes[i],
        ) by {
            assert(key[i] as u8 == bytes[i]);
        }
    }
}

} // verus!
