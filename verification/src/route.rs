//! Where a request goes: from the path that the client asked for to the URL upstream.
use crate::text::{
    characters, right_stripped, strip_trailing_slashes, text_of, utf8_lossy, white_space,
};
use vstd::prelude::*;
use vstd::string::*;
use vstd::utf8::{decode_utf8, encode_utf8, valid_utf8};

verus! {

/// The upstream address where none is configured.
pub const DEFAULT_TARGET: &'static str = "https://token-plan-cn.xiaomimimo.com/v1";

/// The value of a hexadecimal digit.
pub open spec fn hex_value(byte: u8) -> Option<u8> {
    if 0x30 <= byte <= 0x39 {
        Some((byte - 0x30) as u8)
    } else if 0x41 <= byte <= 0x46 {
        Some((byte - 0x37) as u8)
    } else if 0x61 <= byte <= 0x66 {
        Some((byte - 0x57) as u8)
    } else {
        None
    }
}

/// `bytes` with every `%` that two hexadecimal digits follow replaced, digits and all, by the byte
/// that the digits denote.
pub open spec fn unescaped(bytes: Seq<u8>) -> Seq<u8>
    decreases bytes.len(),
{
    if bytes.len() == 0 {
        bytes
    } else if bytes.len() >= 3 && bytes[0] == 0x25 && hex_value(bytes[1]) is Some && hex_value(
        bytes[2],
    ) is Some {
        seq![(16 * hex_value(bytes[1])->0 + hex_value(bytes[2])->0) as u8] + unescaped(
            bytes.skip(3),
        )
    } else {
        seq![bytes[0]] + unescaped(bytes.skip(1))
    }
}

/// Trusted: `percent_encoding::percent_decode_str` with `decode_utf8_lossy` undoes the percent
/// escapes of a text and decodes the bytes as `String::from_utf8_lossy` does: what stands for
/// malformed UTF-8 is only named, well-formed UTF-8 is decoded as it is.
#[verifier::external_body]
fn percent_decode(raw: &str) -> (text: String)
    ensures
        text@ == utf8_lossy(unescaped(encode_utf8(raw@))),
        decodes(raw@) ==> text@ == decoded(raw@),
{
    percent_encoding::percent_decode_str(raw).decode_utf8_lossy().into_owned()
}

/// Whether a character separates the segments of a path.
pub open spec fn separator(c: char) -> bool {
    c == '/' || white_space(c)
}

/// The segments of a path: its longest runs of characters that are no separators.
pub open spec fn segments(path: Seq<char>) -> Seq<Seq<char>>
    decreases path.len(),
{
    if path.len() == 0 {
        seq![]
    } else if separator(path.last()) {
        segments(path.drop_last())
    } else if path.len() > 1 && !separator(path[path.len() - 2]) {
        let before = segments(path.drop_last());
        before.drop_last().push(before.last().push(path.last()))
    } else {
        segments(path.drop_last()).push(seq![path.last()])
    }
}

/// Each of `parts` behind a slash of its own.
pub open spec fn slashed(parts: Seq<Seq<char>>) -> Seq<char>
    decreases parts.len(),
{
    if parts.len() == 0 {
        seq![]
    } else {
        slashed(parts.drop_last()) + seq!['/'] + parts.last()
    }
}

/// The path with these segments.
pub open spec fn path_of(parts: Seq<Seq<char>>) -> Seq<char> {
    if parts.len() == 0 {
        seq!['/']
    } else {
        slashed(parts)
    }
}

/// A path without blanks, empty segments and slashes at its end.
pub open spec fn cleaned(path: Seq<char>) -> Seq<char> {
    path_of(segments(path))
}

/// The path upstream of a clean path: without `/v1` in front, which the upstream address has.
pub open spec fn upstream(path: Seq<char>) -> Seq<char> {
    if "/v1/"@.is_prefix_of(path) {
        path.skip(3)
    } else if path == "/v1"@ {
        "/"@
    } else {
        path
    }
}

/// Whether the bytes that a percent-escaped text stands for are UTF-8.
pub open spec fn decodes(raw: Seq<char>) -> bool {
    valid_utf8(unescaped(encode_utf8(raw)))
}

/// The text that a percent-escaped text stands for.
pub open spec fn decoded(raw: Seq<char>) -> Seq<char> {
    decode_utf8(unescaped(encode_utf8(raw)))
}

/// The path upstream of a path as the client sent it.
pub open spec fn resolved(raw: Seq<char>) -> Seq<char> {
    upstream(cleaned(utf8_lossy(unescaped(encode_utf8(raw)))))
}

/// A path that ends in a segment has one.
proof fn ends_in_segment(path: Seq<char>)
    requires
        path.len() > 0,
        !separator(path.last()),
    ensures
        segments(path).len() > 0,
{
}

/// Cleans a decoded path: splits it at slashes and white space, drops the empty segments and puts
/// the others together again, a slash before each.
pub fn clean_path(text: &str) -> (path: String)
    ensures
        path@ == cleaned(text@),
{
    let chars = characters(text);
    let mut path = String::new();
    let mut between = true;
    let mut i: usize = 0;
    proof {
        assert(chars@.take(0) =~= Seq::empty());
    }
    while i < chars.len()
        invariant
            i <= chars@.len(),
            path@ == slashed(segments(chars@.take(i as int))),
            between == (i == 0 || separator(chars@[i - 1])),
        decreases chars@.len() - i,
    {
        let c = chars[i];
        let ghost done = chars@.take(i as int);
        let ghost more = chars@.take(i + 1);
        proof {
            assert(more.drop_last() == done);
            assert(more.last() == c);
            if i > 0 {
                assert(more[more.len() - 2] == chars@[i - 1]);
                assert(done.last() == chars@[i - 1]);
            }
        }
        if c == '/' || c.is_whitespace() {
            between = true;
        } else if between {
            path.push('/');
            path.push(c);
            between = false;
            proof {
                let parts = segments(more);
                assert(parts == segments(done).push(seq![c]));
                assert(parts.drop_last() == segments(done));
                assert(path@ =~= slashed(segments(done)) + seq!['/'] + seq![c]);
            }
        } else {
            path.push(c);
            proof {
                ends_in_segment(done);
                let before = segments(done);
                let parts = segments(more);
                assert(parts == before.drop_last().push(before.last().push(c)));
                assert(parts.drop_last() == before.drop_last());
                assert(path@ =~= slashed(before.drop_last()) + seq!['/'] + before.last().push(c));
            }
        }
        i = i + 1;
    }
    proof {
        assert(chars@.take(chars@.len() as int) == chars@);
        let parts = segments(chars@);
        if parts.len() > 0 {
            assert(slashed(parts).len() > 0);
        }
    }
    if path.as_str().is_empty() {
        path.push('/');
        proof {
            assert(path@ =~= seq!['/']);
        }
    }
    path
}

/// The path upstream of a clean path.
pub fn upstream_path(path: &str) -> (rest: String)
    ensures
        rest@ == upstream(path@),
{
    let chars = characters(path);
    proof {
        reveal_strlit("/v1/");
        reveal_strlit("/v1");
        reveal_strlit("/");
    }
    let behind_v1 = chars.len() >= 3 && chars[0] == '/' && chars[1] == 'v' && chars[2] == '1';
    if behind_v1 && chars.len() > 3 && chars[3] == '/' {
        proof {
            assert("/v1/"@.is_prefix_of(path@)) by {
                assert("/v1/"@ =~= path@.subrange(0, 4));
            }
            assert(path@.skip(3) == path@.subrange(3, path@.len() as int));
        }
        text_of(chars.as_slice(), 3, chars.len())
    } else if behind_v1 && chars.len() == 3 {
        proof {
            assert(path@ =~= "/v1"@);
            assert(!"/v1/"@.is_prefix_of(path@));
        }
        "/".to_owned()
    } else {
        proof {
            if "/v1/"@.is_prefix_of(path@) {
                assert(path@[0] == "/v1/"@[0]);
                assert(path@[1] == "/v1/"@[1]);
                assert(path@[2] == "/v1/"@[2]);
                assert(path@[3] == "/v1/"@[3]);
            }
        }
        path.to_owned()
    }
}

/// The path upstream of a path as the client sent it: decoded, cleaned and without `/v1`.
pub fn resolve_path(raw: &str) -> (rest: String)
    ensures
        rest@ == resolved(raw@),
        decodes(raw@) ==> rest@ == upstream(cleaned(decoded(raw@))),
{
    let text = percent_decode(raw);
    let path = clean_path(text.as_str());
    upstream_path(path.as_str())
}

/// The URL upstream: the base address, the path and the query, if there is one, behind a `?`.
pub open spec fn url(base: Seq<char>, path: Seq<char>, query: Option<Seq<char>>) -> Seq<char> {
    match query {
        Some(q) => base + path + seq!['?'] + q,
        None => base + path,
    }
}

/// The URL upstream.
pub fn target_url(base: &str, path: &str, query: Option<&str>) -> (target: String)
    ensures
        target@ == url(
            base@,
            path@,
            match query {
                Some(q) => Some(q@),
                None => None,
            },
        ),
{
    let mut target = base.to_owned();
    target.append(path);
    match query {
        Some(q) => {
            target.push('?');
            target.append(q);
            proof {
                assert(target@ =~= base@ + path@ + seq!['?'] + q@);
            }
        },
        None => {},
    }
    target
}

/// The upstream address: the configured one or else the default, without slashes at its end.
pub fn base_url(configured: Option<String>) -> (base: String)
    ensures
        base@ == right_stripped(
            match configured {
                Some(address) => address@,
                None => DEFAULT_TARGET@,
            },
            |c: char| c == '/',
        ),
{
    match configured {
        Some(address) => strip_trailing_slashes(address.as_str()),
        None => strip_trailing_slashes(DEFAULT_TARGET),
    }
}

} // verus!
