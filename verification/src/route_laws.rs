//! What holds of paths on their way upstream.
use crate::route::{
    base_url, cleaned, decoded, decodes, hex_value, path_of, resolved, segments, separator, slashed, unescaped,
    upstream, url,
};
use crate::text::{right_stripped, utf8_lossy, white_space};
use vstd::prelude::*;
use vstd::utf8::{
    char_is_scalar, char_u32_cast, decode_utf8_encode_utf8, encode_scalar, encode_utf8,
    encode_utf8_decode_utf8, encode_utf8_valid_utf8,
};

verus! {

/// Whether a text is a segment: it has characters, and none of them is a separator.
pub open spec fn is_segment(part: Seq<char>) -> bool {
    part.len() > 0 && forall|i: int| 0 <= i < part.len() ==> !separator(#[trigger] part[i])
}

/// The segments of a path are never empty and hold neither a slash nor white space.
pub proof fn segments_are_segments(path: Seq<char>)
    ensures
        forall|i: int| 0 <= i < segments(path).len() ==> is_segment(#[trigger] segments(path)[i]),
    decreases path.len(),
{
    if path.len() > 0 {
        segments_are_segments(path.drop_last());
        let before = segments(path.drop_last());
        if !separator(path.last()) && path.len() > 1 && !separator(path[path.len() - 2]) {
            assert(path.drop_last().last() == path[path.len() - 2]);
            assert(before.len() > 0);
            assert(is_segment(before.last()));
        }
    }
}

/// A slash or a blank between two texts only separates their segments.
pub proof fn separators_only_separate(a: Seq<char>, c: char, b: Seq<char>)
    requires
        separator(c),
    ensures
        segments(a.push(c) + b) == segments(a) + segments(b),
    decreases b.len(),
{
    let whole = a.push(c) + b;
    if b.len() == 0 {
        assert(whole =~= a.push(c));
        assert(whole.drop_last() =~= a);
        assert(segments(a) + segments(b) =~= segments(a));
    } else {
        separators_only_separate(a, c, b.drop_last());
        assert(whole.drop_last() =~= a.push(c) + b.drop_last());
        assert(whole.last() == b.last());
        let left = segments(a);
        let right = segments(b.drop_last());
        if separator(b.last()) {
        } else if b.len() > 1 && !separator(b[b.len() - 2]) {
            assert(whole[whole.len() - 2] == b[b.len() - 2]);
            assert(b.drop_last().last() == b[b.len() - 2]);
            assert(right.len() > 0);
            assert((left + right).drop_last() =~= left + right.drop_last());
            assert((left + right).last() == right.last());
            assert(segments(whole) =~= left + segments(b));
        } else {
            if b.len() > 1 {
                assert(whole[whole.len() - 2] == b[b.len() - 2]);
            } else {
                assert(whole[whole.len() - 2] == c);
            }
            assert(segments(whole) =~= left + segments(b));
        }
    }
}

/// The segments of a text without separators: the text itself, or none where it is empty.
proof fn lone_segment(part: Seq<char>)
    requires
        is_segment(part),
    ensures
        segments(part) == seq![part],
    decreases part.len(),
{
    reveal_with_fuel(segments, 2);
    if part.len() == 1 {
        assert(part.drop_last() =~= Seq::empty());
        assert(part =~= seq![part.last()]);
        assert(segments(part) =~= seq![part]);
    } else {
        let front = part.drop_last();
        assert(is_segment(front));
        lone_segment(front);
        assert(part[part.len() - 2] == front.last());
        assert(!separator(front.last()));
        assert(front.push(part.last()) =~= part);
        assert(segments(part) =~= seq![part]);
    }
}

/// The path with given segments has exactly those.
pub proof fn path_has_its_segments(parts: Seq<Seq<char>>)
    requires
        forall|i: int| 0 <= i < parts.len() ==> is_segment(#[trigger] parts[i]),
    ensures
        segments(path_of(parts)) == parts,
{
    if parts.len() == 0 {
        reveal_with_fuel(segments, 2);
        assert(seq!['/'].drop_last() =~= Seq::<char>::empty());
        assert(segments(seq!['/']) =~= parts);
    } else {
        slashed_has_its_segments(parts);
    }
}

proof fn slashed_has_its_segments(parts: Seq<Seq<char>>)
    requires
        forall|i: int| 0 <= i < parts.len() ==> is_segment(#[trigger] parts[i]),
    ensures
        segments(slashed(parts)) == parts,
    decreases parts.len(),
{
    if parts.len() > 0 {
        let front = parts.drop_last();
        slashed_has_its_segments(front);
        lone_segment(parts.last());
        separators_only_separate(slashed(front), '/', parts.last());
        assert(slashed(parts) =~= slashed(front).push('/') + parts.last());
        assert(segments(slashed(parts)) =~= parts);
    } else {
        assert(segments(slashed(parts)) =~= parts);
    }
}

/// Cleaning keeps the segments of a path, and cleaning twice is cleaning once.
pub proof fn cleaning_is_idempotent(path: Seq<char>)
    ensures
        segments(cleaned(path)) == segments(path),
        cleaned(cleaned(path)) == cleaned(path),
{
    segments_are_segments(path);
    path_has_its_segments(segments(path));
}

/// A clean path begins with a slash, holds no white space and no two slashes in a row, and ends in
/// a slash only where it is `/`.
pub proof fn clean_path_is_clean(path: Seq<char>)
    ensures
        cleaned(path).len() > 0,
        cleaned(path)[0] == '/',
        forall|i: int| 0 <= i < cleaned(path).len() ==> !white_space(#[trigger] cleaned(path)[i]),
        forall|i: int|
            0 < i < cleaned(path).len() && #[trigger] cleaned(path)[i] == '/' ==> cleaned(path)[i - 1]
                != '/',
        cleaned(path).len() > 1 ==> cleaned(path).last() != '/',
{
    segments_are_segments(path);
    if segments(path).len() > 0 {
        slashed_is_clean(segments(path));
    }
}

proof fn slashed_is_clean(parts: Seq<Seq<char>>)
    requires
        parts.len() > 0,
        forall|i: int| 0 <= i < parts.len() ==> is_segment(#[trigger] parts[i]),
    ensures
        slashed(parts).len() > 0,
        slashed(parts)[0] == '/',
        forall|i: int| 0 <= i < slashed(parts).len() ==> !white_space(#[trigger] slashed(parts)[i]),
        forall|i: int|
            0 < i < slashed(parts).len() && #[trigger] slashed(parts)[i] == '/' ==> slashed(parts)[i
                - 1] != '/',
        slashed(parts).last() != '/',
    decreases parts.len(),
{
    let front = parts.drop_last();
    let last = parts.last();
    let text = slashed(parts);
    let n = slashed(front).len() as int;
    assert(is_segment(last));
    assert(forall|i: int| 0 <= i < last.len() ==> !separator(#[trigger] last[i]));
    if front.len() > 0 {
        slashed_is_clean(front);
    }
    assert(text == slashed(front) + seq!['/'] + last);
    assert(text[n] == '/');
    assert forall|i: int| n < i < text.len() implies !separator(#[trigger] text[i]) by {
        assert(text[i] == last[i - n - 1]);
    }
    assert forall|i: int| 0 <= i < n implies #[trigger] text[i] == slashed(front)[i] by {}
    assert forall|i: int| 0 < i < text.len() && #[trigger] text[i] == '/' implies text[i - 1]
        != '/' by {
        if i < n {
            assert(slashed(front)[i] == '/');
        } else if i == n {
            assert(text[n - 1] == slashed(front).last());
        }
    }
    assert(text.last() == last[last.len() - 1]);
}

/// The path upstream has the segments of the path asked for, but for one `v1` in front.
pub proof fn upstream_drops_one_version(path: Seq<char>)
    ensures
        upstream(cleaned(path)) == path_of(
            if segments(path).len() > 0 && segments(path)[0] == "v1"@ {
                segments(path).skip(1)
            } else {
                segments(path)
            },
        ),
{
    reveal_strlit("/v1/");
    reveal_strlit("/v1");
    reveal_strlit("/");
    reveal_strlit("v1");
    let parts = segments(path);
    let text = cleaned(path);
    segments_are_segments(path);
    if parts.len() == 0 {
        assert(!"/v1/"@.is_prefix_of(text));
        assert(text.len() == 1);
    } else {
        slashed_from_front(parts);
        let first = parts[0];
        let rest = parts.skip(1);
        assert(is_segment(first));
        assert(text == seq!['/'] + first + slashed(rest));
        assert forall|i: int| 0 <= i < first.len() implies text[i + 1] == #[trigger] first[i]
            && first[i] != '/' by {
            assert(!separator(first[i]));
        }
        if rest.len() > 0 {
            slashed_from_front(rest);
            assert(slashed(rest)[0] == '/');
            assert(text[first.len() as int + 1] == '/');
        }
        if first == "v1"@ {
            if rest.len() > 0 {
                assert("/v1/"@ =~= text.subrange(0, 4));
                assert("/v1/"@.is_prefix_of(text));
                assert(text.skip(3) =~= slashed(rest));
            } else {
                assert(text =~= "/v1"@);
                assert(!"/v1/"@.is_prefix_of(text));
                assert("/"@ =~= seq!['/']);
            }
        } else {
            if "/v1/"@.is_prefix_of(text) {
                assert(text[1] == "/v1/"@[1] && text[2] == "/v1/"@[2] && text[3] == "/v1/"@[3]);
                if first.len() == 1 {
                    if rest.len() > 0 {
                        assert(text[2] == '/');
                    }
                } else if first.len() == 2 {
                    assert(text[1] == first[0] && text[2] == first[1]);
                    assert(first =~= "v1"@);
                } else {
                    assert(text[3] == first[2]);
                }
            }
            if text == "/v1"@ {
                if first.len() == 1 {
                    if rest.len() > 0 {
                        assert(text[2] == '/');
                    }
                } else {
                    assert(text[1] == first[0] && text[2] == first[1]);
                    assert(first =~= "v1"@);
                }
            }
        }
    }
}

/// Stripping the slashes off the end of an address leaves none there, and nothing else is taken.
pub proof fn stripped_of_slashes(address: Seq<char>)
    ensures
        ({
            let base = right_stripped(address, |c: char| c == '/');
            &&& base.len() > 0 ==> base.last() != '/'
            &&& base.len() <= address.len()
            &&& base == address.take(base.len() as int)
            &&& forall|i: int| base.len() <= i < address.len() ==> #[trigger] address[i] == '/'
        }),
    decreases address.len(),
{
    let base = right_stripped(address, |c: char| c == '/');
    if address.len() > 0 && address.last() == '/' {
        let front = address.drop_last();
        stripped_of_slashes(front);
        assert(base == right_stripped(front, |c: char| c == '/'));
        assert(front.take(base.len() as int) =~= address.take(base.len() as int));
        assert forall|i: int| base.len() <= i < address.len() implies #[trigger] address[i] == '/' by {
            if i < front.len() {
                assert(front[i] == address[i]);
            }
        }
    } else {
        assert(address.take(base.len() as int) =~= address);
    }
}

/// The upstream address, however many slashes it was configured with, and the path upstream, however
/// the client wrote it, meet at exactly one slash; and the path upstream is clean.
pub proof fn one_slash_joins_address_and_path(address: Seq<char>, path: Seq<char>)
    ensures
        ({
            let base = right_stripped(address, |c: char| c == '/');
            let rest = upstream(cleaned(path));
            &&& base.len() > 0 ==> base.last() != '/'
            &&& rest.len() > 0
            &&& rest[0] == '/'
            &&& rest.len() > 1 ==> rest[1] != '/'
            &&& cleaned(rest) == rest
        }),
{
    stripped_of_slashes(address);
    upstream_drops_one_version(path);
    segments_are_segments(path);
    let rest = upstream(cleaned(path));
    let parts = segments(path);
    if parts.len() > 0 && parts[0] == "v1"@ {
        let behind = parts.skip(1);
        assert forall|i: int| 0 <= i < behind.len() implies is_segment(#[trigger] behind[i]) by {
            assert(behind[i] == parts[i + 1]);
        }
        path_has_its_segments(behind);
    } else {
        path_has_its_segments(parts);
    }
    assert(cleaned(rest) == rest);
    clean_path_is_clean(rest);
}

/// A path with `/v1` in front leads to the same place upstream as the path without it, where that
/// does not begin with a `v1` of its own.
pub proof fn the_version_is_optional(path: Seq<char>)
    requires
        segments(path).len() > 0 ==> segments(path)[0] != "v1"@,
    ensures
        upstream(cleaned("/v1/"@ + path)) == upstream(cleaned(path)),
{
    reveal_strlit("/v1/");
    reveal_strlit("v1");
    let version = "v1"@;
    let empty = Seq::<char>::empty();
    let front = seq!['/'] + version;
    assert(is_segment(version));
    lone_segment(version);
    separators_only_separate(empty, '/', version);
    assert(empty.push('/') + version =~= front);
    assert(segments(front) =~= seq![version]);
    separators_only_separate(front, '/', path);
    assert(front.push('/') + path =~= "/v1/"@ + path);
    upstream_drops_one_version("/v1/"@ + path);
    upstream_drops_one_version(path);
    let parts = segments("/v1/"@ + path);
    assert(parts =~= seq![version] + segments(path));
    assert(parts.skip(1) =~= segments(path));
}

proof fn slashed_from_front(parts: Seq<Seq<char>>)
    requires
        parts.len() > 0,
    ensures
        slashed(parts) == seq!['/'] + parts[0] + slashed(parts.skip(1)),
    decreases parts.len(),
{
    reveal_with_fuel(slashed, 2);
    let front = parts.drop_last();
    if front.len() == 0 {
        assert(parts.skip(1) =~= Seq::empty());
        assert(slashed(parts) =~= seq!['/'] + parts[0] + slashed(parts.skip(1)));
    } else {
        slashed_from_front(front);
        assert(parts.skip(1).drop_last() =~= front.skip(1));
        assert(parts.skip(1).last() == parts.last());
        assert(slashed(parts) =~= seq!['/'] + parts[0] + slashed(parts.skip(1)));
    }
}

/// Bytes before which no escape is open keep what follows apart.
proof fn unescape_splits(a: Seq<u8>, b: Seq<u8>)
    requires
        forall|i: int| 0 <= i < a.len() ==> #[trigger] a[i] != 0x25,
    ensures
        unescaped(a + b) == a + unescaped(b),
    decreases a.len(),
{
    if a.len() == 0 {
        assert(a + b =~= b);
        assert(a + unescaped(b) =~= unescaped(b));
    } else {
        let whole = a + b;
        assert(whole[0] == a[0]);
        assert(whole.skip(1) =~= a.skip(1) + b);
        unescape_splits(a.skip(1), b);
        assert(seq![a[0]] + (a.skip(1) + unescaped(b)) =~= a + unescaped(b));
    }
}

/// The UTF-8 of two texts, one behind the other, is the UTF-8 of the first and then that of the
/// second.
proof fn utf8_of_both(a: Seq<char>, b: Seq<char>)
    ensures
        encode_utf8(a + b) == encode_utf8(a) + encode_utf8(b),
    decreases a.len(),
{
    if a.len() == 0 {
        assert(a + b =~= b);
        assert(encode_utf8(a) + encode_utf8(b) =~= encode_utf8(b));
    } else {
        let whole = a + b;
        assert(whole.drop_first() =~= a.drop_first() + b);
        utf8_of_both(a.drop_first(), b);
        assert(whole[0] == a[0]);
        assert(encode_utf8(whole) =~= encode_utf8(a) + encode_utf8(b));
    }
}

/// No byte of the UTF-8 of a text without `%` is that of `%`.
proof fn utf8_without_percent(text: Seq<char>)
    requires
        forall|i: int| 0 <= i < text.len() ==> #[trigger] text[i] != '%',
    ensures
        forall|i: int| 0 <= i < encode_utf8(text).len() ==> #[trigger] encode_utf8(text)[i] != 0x25,
    decreases text.len(),
{
    if text.len() > 0 {
        let rest = text.drop_first();
        assert forall|i: int| 0 <= i < rest.len() implies #[trigger] rest[i] != '%' by {
            assert(rest[i] == text[i + 1]);
        }
        utf8_without_percent(rest);
        let c = text[0] as u32;
        char_is_scalar(text[0]);
        assert(c != 0x25) by {
            char_u32_cast(text[0], c);
            assert(0x25u32 as char == '%');
        }
        assert(c < 0x80 && c != 0x25 ==> (c & 0x7F) as u8 != 0x25) by (bit_vector);
        assert((0xC0 | ((c >> 6) & 0x1F) as u8) != 0x25) by (bit_vector);
        assert((0xE0 | ((c >> 12) & 0x0F) as u8) != 0x25) by (bit_vector);
        assert((0xF0 | ((c >> 18) & 0x07) as u8) != 0x25) by (bit_vector);
        assert((0x80 | (c & 0x3F) as u8) != 0x25) by (bit_vector);
        assert((0x80 | ((c >> 6) & 0x3F) as u8) != 0x25) by (bit_vector);
        assert((0x80 | ((c >> 12) & 0x3F) as u8) != 0x25) by (bit_vector);
        let head = encode_scalar(c);
        assert(forall|i: int| 0 <= i < head.len() ==> #[trigger] head[i] != 0x25);
        assert(encode_utf8(text) == head + encode_utf8(rest));
    }
}

/// A path without `%` stands for itself.
pub proof fn plain_path_stands_for_itself(raw: Seq<char>)
    requires
        forall|i: int| 0 <= i < raw.len() ==> #[trigger] raw[i] != '%',
    ensures
        decodes(raw),
        decoded(raw) == raw,
{
    utf8_without_percent(raw);
    unescape_splits(encode_utf8(raw), seq![]);
    assert(encode_utf8(raw) + seq![] =~= encode_utf8(raw));
    encode_utf8_valid_utf8(raw);
    encode_utf8_decode_utf8(raw);
}

/// An escaped blank in a path only separates the segments before and behind it.
pub proof fn escaped_blank_only_separates(a: Seq<char>, b: Seq<char>)
    requires
        forall|i: int| 0 <= i < a.len() ==> #[trigger] a[i] != '%',
        decodes(b),
    ensures
        decodes(a + "%20"@ + b),
        decoded(a + "%20"@ + b) == a.push(' ') + decoded(b),
        segments(decoded(a + "%20"@ + b)) == segments(a) + segments(decoded(b)),
{
    let escape = "%20"@;
    reveal_strlit("%20");
    let tail = encode_utf8(b);
    let plain = decoded(b);
    decode_utf8_encode_utf8(unescaped(tail));
    assert(unescaped(tail) == encode_utf8(plain));
    utf8_of_both(a, escape + b);
    utf8_of_both(escape, b);
    assert(a + escape + b =~= a + (escape + b));
    assert(encode_utf8(escape) =~= seq![0x25u8, 0x32u8, 0x30u8]) by {
        vstd::utf8::is_ascii_chars_encode_utf8(escape);
    }
    let behind = seq![0x25u8, 0x32u8, 0x30u8] + tail;
    utf8_without_percent(a);
    unescape_splits(encode_utf8(a), behind);
    assert(unescaped(behind) =~= seq![0x20u8] + unescaped(tail)) by {
        assert(behind[0] == 0x25 && behind[1] == 0x32 && behind[2] == 0x30);
        assert(hex_value(0x32) == Some(2u8) && hex_value(0x30) == Some(0u8));
        assert(behind.skip(3) =~= tail);
    }
    let blank = seq![' '];
    assert(encode_utf8(blank) =~= seq![0x20u8]) by {
        vstd::utf8::is_ascii_chars_encode_utf8(blank);
    }
    utf8_of_both(blank, plain);
    utf8_of_both(a, blank + plain);
    let text = a + (blank + plain);
    assert(unescaped(encode_utf8(a + escape + b)) =~= encode_utf8(text));
    encode_utf8_valid_utf8(text);
    encode_utf8_decode_utf8(text);
    assert(text =~= a.push(' ') + plain);
    separators_only_separate(a, ' ', plain);
}

/// The segments of a path that begins with a slash, and has no white space and no two slashes in a
/// row, make up the path again, but for a slash at its end.
proof fn clean_segments_make_the_path(path: Seq<char>)
    requires
        path.len() >= 1,
        path[0] == '/',
        forall|i: int| 0 <= i < path.len() ==> !white_space(#[trigger] path[i]),
        forall|i: int| 0 < i < path.len() && #[trigger] path[i] == '/' ==> path[i - 1] != '/',
    ensures
        slashed(segments(path)) == if path.last() == '/' {
            path.drop_last()
        } else {
            path
        },
        path.last() != '/' ==> segments(path).len() > 0,
    decreases path.len(),
{
    let front = path.drop_last();
    let last = path.last();
    if path.len() == 1 {
        assert(front =~= Seq::empty());
        assert(segments(path) =~= seq![]);
        assert(slashed(segments(path)) =~= front);
    } else {
        assert forall|i: int| 0 <= i < front.len() implies !white_space(#[trigger] front[i]) by {
            assert(front[i] == path[i]);
        }
        assert forall|i: int| 0 < i < front.len() && #[trigger] front[i] == '/' implies front[i - 1]
            != '/' by {
            assert(front[i] == path[i]);
        }
        clean_segments_make_the_path(front);
        assert(path[path.len() - 1] == last);
        assert(front.last() == path[path.len() - 2]);
        let before = segments(front);
        if last == '/' {
            assert(front.last() != '/');
        } else if front.last() != '/' {
            let parts = segments(path);
            assert(parts == before.drop_last().push(before.last().push(last)));
            assert(parts.drop_last() =~= before.drop_last());
            assert(slashed(parts) =~= slashed(before).push(last));
            assert(slashed(parts) =~= path);
        } else {
            let parts = segments(path);
            assert(parts == before.push(seq![last]));
            assert(parts.drop_last() =~= before);
            assert(slashed(parts) =~= path);
        }
    }
}

/// A path that is already clean is left as it is: one that begins with a slash and has no white space,
/// no two slashes in a row and no slash at its end.
pub proof fn a_clean_path_stays(path: Seq<char>)
    requires
        path.len() >= 1,
        path[0] == '/',
        forall|i: int| 0 <= i < path.len() ==> !white_space(#[trigger] path[i]),
        forall|i: int| 0 < i < path.len() && #[trigger] path[i] == '/' ==> path[i - 1] != '/',
        path.len() > 1 ==> path.last() != '/',
    ensures
        cleaned(path) == path,
{
    clean_segments_make_the_path(path);
    if path.len() == 1 {
        assert(path.drop_last() =~= Seq::empty());
        assert(segments(path) =~= seq![]);
        assert(path =~= seq!['/']);
    }
}

/// A text without slashes and white space is one segment: behind a slash, or without one, it is
/// cleaned to the slash and itself.
pub proof fn a_word_is_one_segment(word: Seq<char>)
    requires
        word.len() >= 1,
        forall|i: int|
            0 <= i < word.len() ==> #[trigger] word[i] != '/' && !white_space(word[i]),
    ensures
        segments(word) == seq![word],
        cleaned(word) == seq!['/'] + word,
        cleaned(seq!['/'] + word) == seq!['/'] + word,
{
    let path = seq!['/'] + word;
    assert forall|i: int| 0 <= i < path.len() implies !white_space(#[trigger] path[i]) && (i > 0
        ==> path[i] != '/') by {
        if i > 0 {
            assert(path[i] == word[i - 1]);
        }
    }
    a_clean_path_stays(path);
    assert(is_segment(word)) by {
        assert forall|i: int| 0 <= i < word.len() implies !separator(#[trigger] word[i]) by {}
    }
    lone_segment(word);
    reveal_with_fuel(slashed, 2);
    assert(seq![word].drop_last() =~= Seq::empty());
    assert(seq![word].last() == word);
    assert(slashed(seq![word]) =~= path);
}

/// Segments behind slashes, in two lists.
proof fn slashed_in_two(a: Seq<Seq<char>>, b: Seq<Seq<char>>)
    ensures
        slashed(a + b) == slashed(a) + slashed(b),
    decreases b.len(),
{
    if b.len() == 0 {
        assert(a + b =~= a);
        assert(slashed(a) + slashed(b) =~= slashed(a));
    } else {
        slashed_in_two(a, b.drop_last());
        assert((a + b).drop_last() =~= a + b.drop_last());
        assert((a + b).last() == b.last());
        assert(slashed(a + b) =~= slashed(a) + slashed(b));
    }
}

/// A path with segments is longer than a slash.
proof fn segments_make_more_than_a_slash(path: Seq<char>)
    ensures
        cleaned(path) == seq!['/'] <==> segments(path).len() == 0,
{
    segments_are_segments(path);
    let parts = segments(path);
    if parts.len() > 0 {
        assert(is_segment(parts[parts.len() - 1]));
        assert(slashed(parts).len() >= 2);
    }
}

/// A slash or a white space character parts a path in two that are cleaned each for itself; one of
/// them that comes to nothing but a slash leaves no trace.
pub proof fn a_separator_parts_a_path(a: Seq<char>, c: char, b: Seq<char>)
    requires
        c == '/' || white_space(c),
    ensures
        cleaned(seq![]) == seq!['/'],
        cleaned(a.push(c) + b) == if cleaned(b) == seq!['/'] {
            cleaned(a)
        } else if cleaned(a) == seq!['/'] {
            cleaned(b)
        } else {
            cleaned(a) + cleaned(b)
        },
{
    separators_only_separate(a, c, b);
    segments_make_more_than_a_slash(a);
    segments_make_more_than_a_slash(b);
    slashed_in_two(segments(a), segments(b));
    if segments(b).len() == 0 {
        assert(segments(a) + segments(b) =~= segments(a));
    } else if segments(a).len() == 0 {
        assert(segments(a) + segments(b) =~= segments(b));
    }
}

/// A path loses `/v1` from its front just where that is a whole segment; every other path stays.
pub proof fn only_the_version_is_dropped(path: Seq<char>, rest: Seq<char>)
    ensures
        upstream("/v1"@) == "/"@,
        rest.len() >= 1 && rest[0] == '/' ==> upstream("/v1"@ + rest) == rest,
        !"/v1"@.is_prefix_of(path) ==> upstream(path) == path,
        path.len() > 3 && path[3] != '/' ==> upstream(path) == path,
{
    reveal_strlit("/v1/");
    reveal_strlit("/v1");
    reveal_strlit("/");
    if rest.len() >= 1 && rest[0] == '/' {
        let whole = "/v1"@ + rest;
        assert("/v1/"@ =~= whole.subrange(0, 4));
        assert("/v1/"@.is_prefix_of(whole));
        assert(whole.skip(3) =~= rest);
    }
    if "/v1/"@.is_prefix_of(path) {
        assert("/v1"@ =~= path.subrange(0, 3)) by {
            assert(path.subrange(0, 4) =~= "/v1/"@);
            assert(forall|i: int| 0 <= i < 4 ==> path.subrange(0, 4)[i] == path[i]);
        }
        assert("/v1"@.is_prefix_of(path));
        assert(path[3] == path.subrange(0, 4)[3]);
    }
    assert(!"/v1/"@.is_prefix_of("/v1"@));
    assert("/v1"@ =~= "/v1"@.subrange(0, 3));
}

/// A path without escapes that is clean and does not begin with `/v1` is asked for upstream just as
/// the client wrote it; and with `/v1` before it too.
pub proof fn a_clean_path_is_asked_for_as_it_is(path: Seq<char>)
    requires
        path.len() >= 1,
        path[0] == '/',
        forall|i: int|
            0 <= i < path.len() ==> #[trigger] path[i] != '%' && !white_space(path[i]),
        forall|i: int| 0 < i < path.len() && #[trigger] path[i] == '/' ==> path[i - 1] != '/',
        path.len() > 1 ==> path.last() != '/',
        !"/v1"@.is_prefix_of(path),
    ensures
        decodes(path),
        upstream(cleaned(decoded(path))) == path,
        path.len() > 1 ==> decodes("/v1"@ + path) && upstream(cleaned(decoded("/v1"@ + path)))
            == path,
{
    a_clean_path_stays(path);
    plain_path_stands_for_itself(path);
    only_the_version_is_dropped(path, path);
    if path.len() > 1 {
        reveal_strlit("/v1");
        let whole = "/v1"@ + path;
        assert forall|i: int| 0 <= i < whole.len() implies #[trigger] whole[i] != '%' && !white_space(
            whole[i],
        ) by {
            if i >= 3 {
                assert(whole[i] == path[i - 3]);
            }
        }
        assert forall|i: int| 0 < i < whole.len() && #[trigger] whole[i] == '/' implies whole[i - 1]
            != '/' by {
            if i > 3 {
                assert(whole[i] == path[i - 3]);
                assert(whole[i - 1] == path[i - 4]);
            }
        }
        assert(whole.last() == path.last());
        a_clean_path_stays(whole);
        plain_path_stands_for_itself(whole);
    }
}

/// Every path is decoded, then cleaned, then stripped of its version.
pub proof fn a_path_is_decoded_cleaned_and_stripped(raw: Seq<char>)
    ensures
        resolved(raw) == upstream(cleaned(utf8_lossy(unescaped(encode_utf8(raw))))),
        decodes(raw) ==> encode_utf8(decoded(raw)) == unescaped(encode_utf8(raw)),
{
    if decodes(raw) {
        decode_utf8_encode_utf8(unescaped(encode_utf8(raw)));
    }
}

/// The value of a hexadecimal digit, in either case.
pub open spec fn hex_worth(c: char) -> Option<u8> {
    if '0' <= c <= '9' {
        Some((c as int - '0' as int) as u8)
    } else if 'a' <= c <= 'f' {
        Some((c as int - 'a' as int + 10) as u8)
    } else if 'A' <= c <= 'F' {
        Some((c as int - 'A' as int + 10) as u8)
    } else {
        None
    }
}

/// An escape with the code of an ASCII character stands for that character, `%` among them, and what
/// it stands for is not decoded again.
pub proof fn an_escape_stands_for_its_character(
    a: Seq<char>,
    high: char,
    low: char,
    b: Seq<char>,
)
    requires
        forall|i: int| 0 <= i < a.len() ==> #[trigger] a[i] != '%',
        hex_worth(high) is Some,
        hex_worth(high)->0 < 8,
        hex_worth(low) is Some,
        decodes(b),
    ensures
        decodes(a + seq!['%', high, low] + b),
        decoded(a + seq!['%', high, low] + b) == a.push(
            (16 * hex_worth(high)->0 + hex_worth(low)->0) as char,
        ) + decoded(b),
{
    let escape = seq!['%', high, low];
    let value = (16 * hex_worth(high)->0 + hex_worth(low)->0) as u8;
    let c = (16 * hex_worth(high)->0 + hex_worth(low)->0) as char;
    let tail = encode_utf8(b);
    let plain = decoded(b);
    decode_utf8_encode_utf8(unescaped(tail));
    utf8_of_both(a, escape + b);
    utf8_of_both(escape, b);
    assert(a + escape + b =~= a + (escape + b));
    let bytes = seq![0x25u8, high as u8, low as u8];
    assert(encode_utf8(escape) =~= bytes) by {
        vstd::utf8::is_ascii_chars_encode_utf8(escape);
    }
    let behind = bytes + tail;
    utf8_without_percent(a);
    unescape_splits(encode_utf8(a), behind);
    assert(hex_value(high as u8) == hex_worth(high));
    assert(hex_value(low as u8) == hex_worth(low));
    assert(unescaped(behind) =~= seq![value] + unescaped(tail)) by {
        assert(behind[0] == 0x25 && behind[1] == high as u8 && behind[2] == low as u8);
        assert(behind.skip(3) =~= tail);
    }
    let one = seq![c];
    assert(encode_utf8(one) =~= seq![value]) by {
        vstd::utf8::is_ascii_chars_encode_utf8(one);
    }
    utf8_of_both(one, plain);
    utf8_of_both(a, one + plain);
    let text = a + (one + plain);
    assert(unescaped(encode_utf8(a + escape + b)) =~= encode_utf8(text));
    encode_utf8_valid_utf8(text);
    encode_utf8_decode_utf8(text);
    assert(text =~= a.push(c) + plain);
}

/// The URL is the address, the path and, where there is a query, a question mark and the query,
/// empty or not.
pub proof fn a_url_holds_address_path_and_query(
    base: Seq<char>,
    path: Seq<char>,
    query: Seq<char>,
)
    ensures
        url(base, path, None) == base + path,
        url(base, path, Some(query)) == (base + path).push('?') + query,
{
    assert(url(base, path, Some(query)) =~= (base + path).push('?') + query);
}

/// The escape of one byte, with digits in upper case.
pub open spec fn escape(byte: u8) -> Seq<u8> {
    let digit = |d: int|
        if d < 10 {
            (0x30 + d) as u8
        } else {
            (0x37 + d) as u8
        };
    seq![0x25u8, digit(byte as int / 16), digit(byte as int % 16)]
}

/// Every byte escaped.
pub open spec fn escape_all(bytes: Seq<u8>) -> Seq<u8>
    decreases bytes.len(),
{
    if bytes.len() == 0 {
        seq![]
    } else {
        escape(bytes[0]) + escape_all(bytes.skip(1))
    }
}

/// Escaping is undone, whatever the bytes.
pub proof fn escaping_is_undone(bytes: Seq<u8>, rest: Seq<u8>)
    ensures
        unescaped(escape_all(bytes) + rest) == bytes + unescaped(rest),
    decreases bytes.len(),
{
    if bytes.len() == 0 {
        assert(escape_all(bytes) + rest =~= rest);
        assert(bytes + unescaped(rest) =~= unescaped(rest));
    } else {
        let whole = escape_all(bytes) + rest;
        escaping_is_undone(bytes.skip(1), rest);
        assert(whole.skip(3) =~= escape_all(bytes.skip(1)) + rest);
        assert(whole[0] == 0x25);
        assert(whole[1] == escape(bytes[0])[1] && whole[2] == escape(bytes[0])[2]);
        assert(bytes + unescaped(rest) =~= seq![bytes[0]] + (bytes.skip(1) + unescaped(rest)));
    }
}

/// The upstream address is what is set, without the slashes at its end; where nothing is set, the
/// same of the default.
pub proof fn the_address_is_what_is_set(configured: Option<String>, base: String)
    requires
        call_ensures(base_url, (configured,), base),
    ensures
        base@.len() > 0 ==> base@.last() != '/',
        configured is Some ==> {
            &&& base@.is_prefix_of(configured->0@)
            &&& forall|i: int|
                base@.len() <= i < configured->0@.len() ==> #[trigger] configured->0@[i] == '/'
        },
        configured is None ==> base@ == "https://token-plan-cn.xiaomimimo.com/v1"@,
{
    let address = match configured {
        Some(address) => address@,
        None => "https://token-plan-cn.xiaomimimo.com/v1"@,
    };
    stripped_of_slashes(address);
    assert(base@ =~= address.subrange(0, base@.len() as int));
    if configured is None {
        reveal_strlit("https://token-plan-cn.xiaomimimo.com/v1");
        assert(address.last() == '1');
        assert(base@.len() == address.len()) by {
            if base@.len() < address.len() {
                assert(address[address.len() - 1] == '/');
            }
        }
    }
}

} // verus!
