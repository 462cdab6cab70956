//! What the log shows of requests and responses.
use crate::headers::{name_text, plain_text, plain_value, value_bytes};
use crate::text::{characters, decode_lossy, numeral, same_text, text_of, utf8_lossy, write_number};
use axum::http::{HeaderName, HeaderValue};
use vstd::prelude::*;
use vstd::string::*;
use vstd::utf8::{
    decode_utf8, decode_utf8_encode_utf8, decode_utf8_split, encode_utf8, encode_utf8_decode_utf8,
    encode_utf8_valid_utf8, is_char_boundary, is_char_boundary_start_end_of_seq, valid_utf8,
    valid_utf8_split,
};

verus! {

/// How many bytes of a request body the log shows at most.
pub const REQUEST_PREVIEW: usize = 200;

/// How many bytes of a response body the log shows at most.
pub const RESPONSE_PREVIEW: usize = 500;

/// How many characters of an API key the log shows.
pub const KEY_PREVIEW: usize = 6;

/// What the log shows of a header field: of an API key only its beginning, and of a value that is no
/// plain text nothing.
pub open spec fn shown_value(name: Seq<char>, bytes: Seq<u8>) -> Seq<char> {
    let text = if plain_value(bytes) {
        plain_text(bytes)
    } else {
        "???"@
    };
    if name == "api-key"@ {
        text.take(
            if text.len() < KEY_PREVIEW {
                text.len() as int
            } else {
                KEY_PREVIEW as int
            },
        ) + "..."@
    } else {
        text
    }
}

/// What the log shows of a header field.
pub fn show_value(name: &HeaderName, value: &HeaderValue) -> (shown: String)
    ensures
        shown@ == shown_value(name_text(*name), value_bytes(*value)),
{
    let text = match value.to_str() {
        Ok(text) => text,
        Err(_) => "???",
    };
    if same_text(name.as_str(), "api-key") {
        let chars = characters(text);
        let end: usize = if chars.len() < KEY_PREVIEW {
            chars.len()
        } else {
            KEY_PREVIEW
        };
        let mut shown = text_of(chars.as_slice(), 0, end);
        shown.append("...");
        shown
    } else {
        text.to_owned()
    }
}

/// The log never tells two API keys apart that begin with the same few characters.
pub proof fn keys_stay_hidden(a: Seq<u8>, b: Seq<u8>)
    requires
        plain_value(a),
        plain_value(b),
        a.len() >= KEY_PREVIEW,
        b.len() >= KEY_PREVIEW,
        a.take(KEY_PREVIEW as int) == b.take(KEY_PREVIEW as int),
    ensures
        shown_value("api-key"@, a) == shown_value("api-key"@, b),
{
    let shown = KEY_PREVIEW as int;
    assert forall|i: int| 0 <= i < shown implies plain_text(a)[i] == plain_text(b)[i] by {
        assert(a.take(shown)[i] == a[i]);
        assert(b.take(shown)[i] == b[i]);
    }
    assert(plain_text(a).take(shown) =~= plain_text(b).take(shown));
}

/// What the log tells of a patched request: nothing where no message got a reasoning text, how many
/// texts came from the cache where any did, and otherwise that the texts are empty.
pub open spec fn patch_line(modified: bool, hits: nat) -> Option<Seq<char>> {
    if !modified {
        None
    } else if hits > 0 {
        Some("[PATCH] Injected "@ + numeral(hits, 10) + " reasoning_content from cache"@)
    } else {
        Some("[PATCH] Injected empty reasoning_content for API compliance"@)
    }
}

/// What the log tells of a patched request.
pub fn patch_notice(modified: bool, hits: usize) -> (notice: Option<String>)
    ensures
        match notice {
            Some(line) => patch_line(modified, hits as nat) == Some(line@),
            None => patch_line(modified, hits as nat) is None,
        },
{
    if !modified {
        None
    } else if hits > 0 {
        let mut line = "[PATCH] Injected ".to_owned();
        line.append(write_number(hits as u64, 10).as_str());
        line.append(" reasoning_content from cache");
        Some(line)
    } else {
        Some("[PATCH] Injected empty reasoning_content for API compliance".to_owned())
    }
}

/// Where a text is cut that is to be at most `limit` bytes long: at the last end of a character up
/// to there.
pub open spec fn cut_point(bytes: Seq<u8>, limit: nat) -> nat
    decreases limit,
{
    if limit == 0 || is_char_boundary(bytes, limit as int) {
        limit
    } else {
        cut_point(bytes, (limit - 1) as nat)
    }
}

/// What the log shows of a text that is cut behind its first `cut` bytes: those, and how many more
/// there are.
pub open spec fn cut_at(text: Seq<char>, cut: nat) -> Seq<char> {
    let bytes = encode_utf8(text);
    decode_utf8(bytes.take(cut as int)) + "...[truncated "@ + numeral(
        (bytes.len() - cut) as nat,
        10,
    ) + " chars]"@
}

/// What the log shows of a text: the whole of it up to `limit` bytes, and of a longer one the
/// characters that end within them.
pub open spec fn shortened(text: Seq<char>, limit: nat) -> Seq<char> {
    let bytes = encode_utf8(text);
    if bytes.len() > limit {
        cut_at(text, cut_point(bytes, limit))
    } else {
        text
    }
}

/// The cut is at the end of a character, within the limit, and no character ends between the two.
pub proof fn the_cut_is_the_last_that_fits(text: Seq<char>, limit: nat)
    ensures
        cut_point(encode_utf8(text), limit) <= limit,
        is_char_boundary(encode_utf8(text), cut_point(encode_utf8(text), limit) as int),
        forall|c: int|
            cut_point(encode_utf8(text), limit) < c <= limit ==> !#[trigger] is_char_boundary(
                encode_utf8(text),
                c,
            ),
    decreases limit,
{
    encode_utf8_valid_utf8(text);
    is_char_boundary_start_end_of_seq(encode_utf8(text));
    if limit > 0 && !is_char_boundary(encode_utf8(text), limit as int) {
        the_cut_is_the_last_that_fits(text, (limit - 1) as nat);
    }
}

/// The log shows a short text whole, and of a longer one the characters that it begins with, in at
/// most `limit` bytes: in exactly so many where a character ends there.
pub proof fn a_preview_begins_as_the_text_does(text: Seq<char>, limit: nat)
    ensures
        encode_utf8(text).len() <= limit ==> shortened(text, limit) == text,
        encode_utf8(text).len() > limit ==> ({
            let head = decode_utf8(
                encode_utf8(text).take(cut_point(encode_utf8(text), limit) as int),
            );
            &&& encode_utf8(head).len() <= limit
            &&& is_char_boundary(encode_utf8(text), limit as int) ==> encode_utf8(head).len()
                == limit
            &&& head.is_prefix_of(text)
            &&& head.is_prefix_of(shortened(text, limit))
        }),
{
    let bytes = encode_utf8(text);
    if bytes.len() > limit {
        the_cut_is_the_last_that_fits(text, limit);
        let cut = cut_point(bytes, limit) as int;
        let end = bytes.len() as int;
        encode_utf8_valid_utf8(text);
        encode_utf8_decode_utf8(text);
        valid_utf8_split(bytes, cut);
        decode_utf8_split(bytes, cut);
        assert(bytes.take(cut) =~= bytes.subrange(0, cut));
        decode_utf8_encode_utf8(bytes.subrange(0, cut));
        let head = decode_utf8(bytes.subrange(0, cut));
        let tail = decode_utf8(bytes.subrange(cut, end));
        assert(text == head + tail);
        assert(head =~= text.subrange(0, head.len() as int));
        assert(head =~= shortened(text, limit).subrange(0, head.len() as int));
    }
}

/// What the log shows of a text.
pub fn preview(text: &str, limit: usize) -> (shown: String)
    ensures
        shown@ == shortened(text@, limit as nat),
{
    let length: usize = text.as_bytes().len();
    if length <= limit {
        return text.to_owned();
    }
    let ghost bytes = encode_utf8(text@);
    let mut cut: usize = limit;
    while cut > 0 && !text.is_char_boundary(cut)
        invariant
            cut <= limit < length,
            bytes == encode_utf8(text@),
            cut_point(bytes, cut as nat) == cut_point(bytes, limit as nat),
        decreases cut,
    {
        cut = cut - 1;
    }
    proof {
        the_cut_is_the_last_that_fits(text@, limit as nat);
    }
    let (head, _) = text.split_at(cut);
    proof {
        encode_utf8_decode_utf8(head@);
        assert(encode_utf8(head@) =~= bytes.take(cut as int));
    }
    let mut shown = head.to_owned();
    shown.append("...[truncated ");
    shown.append(write_number((length - cut) as u64, 10).as_str());
    shown.append(" chars]");
    shown
}

/// What the log shows of a body.
pub fn preview_body(body: &[u8], limit: usize) -> (shown: String)
    ensures
        shown@ == shortened(utf8_lossy(body@), limit as nat),
        valid_utf8(body@) ==> utf8_lossy(body@) == decode_utf8(body@),
{
    let text = decode_lossy(body);
    preview(text.as_str(), limit)
}

/// The log shows every field but the API key whole, where it is plain text, and of an API key its
/// first six characters and three dots. Of a value that is no plain text it shows question marks.
pub proof fn the_log_shows_fields_and_hides_keys(name: Seq<char>, bytes: Seq<u8>)
    ensures
        ({
            let plain = forall|i: int|
                0 <= i < bytes.len() ==> 32 <= #[trigger] bytes[i] <= 126 || bytes[i] == 9;
            let shown = shown_value(name, bytes);
            &&& name != "api-key"@ && plain ==> shown.len() == bytes.len() && forall|i: int|
                0 <= i < bytes.len() ==> #[trigger] shown[i] == bytes[i] as char
            &&& name != "api-key"@ && !plain ==> shown == "???"@
            &&& name == "api-key"@ && plain ==> {
                let n = if bytes.len() < 6 {
                    bytes.len() as int
                } else {
                    6
                };
                &&& shown.len() == n + 3
                &&& shown.skip(n) == "..."@
                &&& forall|i: int| 0 <= i < n ==> #[trigger] shown[i] == bytes[i] as char
            }
            &&& name == "api-key"@ && !plain ==> shown == "???..."@
        }),
{
    reveal_strlit("???");
    reveal_strlit("...");
    reveal_strlit("???...");
    let plain = forall|i: int|
        0 <= i < bytes.len() ==> 32 <= #[trigger] bytes[i] <= 126 || bytes[i] == 9;
    assert(plain == plain_value(bytes)) by {
        if plain_value(bytes) {
            assert forall|i: int| 0 <= i < bytes.len() implies 32 <= #[trigger] bytes[i] <= 126
                || bytes[i] == 9 by {}
        }
    }
    let shown = shown_value(name, bytes);
    if name == "api-key"@ {
        if plain {
            let n = if bytes.len() < 6 {
                bytes.len() as int
            } else {
                6
            };
            assert(shown.skip(n) =~= "..."@);
        } else {
            assert(shown =~= "???..."@);
        }
    }
}

/// A preview of a longer text is as much of its beginning as fits into the limit, up to the end of a
/// character, and behind that stands how many bytes it leaves out.
pub proof fn a_preview_tells_what_it_leaves_out(text: Seq<char>, limit: nat)
    requires
        encode_utf8(text).len() > limit,
    ensures
        exists|head: Seq<char>, n: nat|
            {
                &&& #[trigger] head.is_prefix_of(text)
                &&& encode_utf8(head).len() <= limit
                &&& forall|c: int|
                    encode_utf8(head).len() < c <= limit ==> !#[trigger] is_char_boundary(
                        encode_utf8(text),
                        c,
                    )
                &&& encode_utf8(head).len() + n == encode_utf8(text).len()
                &&& shortened(text, limit) == head + "...[truncated "@ + #[trigger] numeral(n, 10)
                    + " chars]"@
            },
{
    let bytes = encode_utf8(text);
    let cut = cut_point(bytes, limit);
    a_preview_begins_as_the_text_does(text, limit);
    the_cut_is_the_last_that_fits(text, limit);
    encode_utf8_valid_utf8(text);
    valid_utf8_split(bytes, cut as int);
    assert(bytes.take(cut as int) =~= bytes.subrange(0, cut as int));
    decode_utf8_encode_utf8(bytes.subrange(0, cut as int));
    let head = decode_utf8(bytes.take(cut as int));
    let n = (bytes.len() - cut) as nat;
    assert(head.is_prefix_of(text));
    assert(shortened(text, limit) == head + "...[truncated "@ + numeral(n, 10) + " chars]"@);
}

/// The log tells of a patch just where something was filled in, and of how many texts came from the
/// cache just where any did.
pub proof fn the_log_tells_of_patches(modified: bool, hits: nat)
    ensures
        patch_line(modified, hits) is Some <==> modified,
        modified && hits >= 1 ==> patch_line(modified, hits)->0 == "[PATCH] Injected "@ + numeral(
            hits,
            10,
        ) + " reasoning_content from cache"@,
        modified && hits == 0 ==> patch_line(modified, hits)->0
            == "[PATCH] Injected empty reasoning_content for API compliance"@,
{
}

} // verus!
