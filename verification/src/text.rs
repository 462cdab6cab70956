//! Text as sequences of characters: comparison, trimming, searching and numerals.
use vstd::prelude::*;
use vstd::string::*;
use vstd::utf8::{decode_utf8, encode_utf8, encode_utf8_decode_utf8, valid_utf8};

verus! {

/// The characters of Unicode's `White_Space` property.
pub open spec fn white_space(c: char) -> bool {
    let n = c as u32;
    ||| 0x9 <= n <= 0xd
    ||| n == 0x20
    ||| n == 0x85
    ||| n == 0xa0
    ||| n == 0x1680
    ||| 0x2000 <= n <= 0x200a
    ||| n == 0x2028
    ||| n == 0x2029
    ||| n == 0x202f
    ||| n == 0x205f
    ||| n == 0x3000
}

/// Trusted: `char::is_whitespace` tells whether a character has Unicode's `White_Space`
/// property, which [`white_space`] lists.
pub assume_specification[ char::is_whitespace ](c: char) -> (answer: bool)
    ensures
        answer == white_space(c),
;

/// Trusted: `String::push` appends one character.
pub assume_specification[ String::push ](text: &mut String, c: char)
    ensures
        final(text)@ == old(text)@.push(c),
;

/// What `String::from_utf8_lossy` makes of a sequence of bytes.
pub uninterp spec fn utf8_lossy(bytes: Seq<u8>) -> Seq<char>;

/// Trusted: `String::from_utf8_lossy` decodes bytes as UTF-8. What it puts in place of malformed
/// bytes is only named; well-formed bytes it decodes as they are.
#[verifier::external_body]
pub(crate) fn decode_lossy(bytes: &[u8]) -> (text: String)
    ensures
        text@ == utf8_lossy(bytes@),
        valid_utf8(bytes@) ==> text@ == decode_utf8(bytes@),
{
    String::from_utf8_lossy(bytes).into_owned()
}

/// Whether two texts are the same.
pub fn same_text(a: &str, b: &str) -> (same: bool)
    ensures
        same == (a@ == b@),
{
    let x = a.as_bytes();
    let y = b.as_bytes();
    proof {
        encode_utf8_decode_utf8(a@);
        encode_utf8_decode_utf8(b@);
    }
    if x.len() != y.len() {
        return false;
    }
    let mut i: usize = 0;
    while i < x.len()
        invariant
            i <= x@.len(),
            x@.len() == y@.len(),
            x@ == encode_utf8(a@),
            y@ == encode_utf8(b@),
            x@.take(i as int) == y@.take(i as int),
        decreases x@.len() - i,
    {
        if x[i] != y[i] {
            return false;
        }
        proof {
            assert(x@.take(i + 1) == x@.take(i as int).push(x@[i as int]));
            assert(y@.take(i + 1) == y@.take(i as int).push(y@[i as int]));
        }
        i = i + 1;
    }
    proof {
        assert(x@.take(i as int) == x@);
        assert(y@.take(i as int) == y@);
    }
    true
}

/// The characters of a text, one by one.
pub fn characters(text: &str) -> (chars: Vec<char>)
    ensures
        chars@ == text@,
{
    let mut chars: Vec<char> = Vec::new();
    for c in it: text.chars()
        invariant
            it.seq() == text@,
            chars@ == text@.take(it.index() as int),
    {
        chars.push(c);
        proof {
            assert(text@.take(it.index() + 1) == text@.take(it.index() as int).push(c));
        }
    }
    proof {
        assert(text@.take(text@.len() as int) == text@);
    }
    chars
}

/// The text made of `chars` from index `from` up to index `to`.
pub fn text_of(chars: &[char], from: usize, to: usize) -> (text: String)
    requires
        from <= to <= chars@.len(),
    ensures
        text@ == chars@.subrange(from as int, to as int),
{
    let mut text = String::new();
    let mut i: usize = from;
    while i < to
        invariant
            from <= i <= to <= chars@.len(),
            text@ == chars@.subrange(from as int, i as int),
        decreases to - i,
    {
        text.push(chars[i]);
        proof {
            assert(chars@.subrange(from as int, i + 1) == chars@.subrange(from as int, i as int).push(
                chars@[i as int],
            ));
        }
        i = i + 1;
    }
    text
}

/// `text` without the white space that it begins with.
pub open spec fn left_trimmed(text: Seq<char>) -> Seq<char>
    decreases text.len(),
{
    if text.len() > 0 && white_space(text[0]) {
        left_trimmed(text.skip(1))
    } else {
        text
    }
}

/// `text` without the characters at its end that satisfy `unwanted`.
pub open spec fn right_stripped(text: Seq<char>, unwanted: spec_fn(char) -> bool) -> Seq<char>
    decreases text.len(),
{
    if text.len() > 0 && unwanted(text.last()) {
        right_stripped(text.drop_last(), unwanted)
    } else {
        text
    }
}

/// `text` without the white space at its two ends.
pub open spec fn trimmed(text: Seq<char>) -> Seq<char> {
    right_stripped(left_trimmed(text), |c: char| white_space(c))
}

/// `text` without the copies of `prefix` that it begins with.
pub open spec fn without_prefixes(text: Seq<char>, prefix: Seq<char>) -> Seq<char>
    decreases text.len(),
{
    if prefix.len() > 0 && prefix.is_prefix_of(text) {
        without_prefixes(text.skip(prefix.len() as int), prefix)
    } else {
        text
    }
}

/// Whether `part` stands in `text` as a run of consecutive characters.
pub open spec fn contains_text(text: Seq<char>, part: Seq<char>) -> bool {
    exists|i: int|
        0 <= i <= text.len() - part.len() && #[trigger] text.subrange(i, i + part.len()) == part
}

/// Whether `part` stands in `chars` at index `at`.
fn stands_at(chars: &[char], at: usize, part: &[char]) -> (found: bool)
    requires
        at <= chars@.len(),
    ensures
        found == (at + part@.len() <= chars@.len() && chars@.subrange(
            at as int,
            at + part@.len(),
        ) == part@),
{
    let total: usize = chars.len();
    if total - at < part.len() {
        return false;
    }
    let mut i: usize = 0;
    while i < part.len()
        invariant
            i <= part@.len(),
            total == chars@.len(),
            at + part@.len() <= chars@.len(),
            forall|j: int| 0 <= j < i ==> chars@[at + j] == part@[j],
        decreases part@.len() - i,
    {
        if chars[at + i] != part[i] {
            proof {
                assert(chars@.subrange(at as int, at + part@.len())[i as int] != part@[i as int]);
            }
            return false;
        }
        i = i + 1;
    }
    proof {
        assert(chars@.subrange(at as int, at + part@.len()) =~= part@);
    }
    true
}

/// Whether `part` stands somewhere in `text`.
pub fn has_text(text: &str, part: &str) -> (found: bool)
    ensures
        found == contains_text(text@, part@),
{
    let chars = characters(text);
    let wanted = characters(part);
    let mut at: usize = 0;
    while at < chars.len()
        invariant
            at <= chars@.len(),
            chars@ == text@,
            wanted@ == part@,
            forall|i: int|
                0 <= i < at && i <= text@.len() - part@.len() ==> #[trigger] text@.subrange(
                    i,
                    i + part@.len(),
                ) != part@,
        decreases chars@.len() - at,
    {
        if stands_at(chars.as_slice(), at, wanted.as_slice()) {
            return true;
        }
        at = at + 1;
    }
    stands_at(chars.as_slice(), at, wanted.as_slice())
}

/// `text` without the copies of `prefix` that it begins with, and then without the white space at
/// its two ends.
pub fn strip_prefixes_and_trim(text: &str, prefix: &str) -> (stripped: String)
    ensures
        stripped@ == trimmed(without_prefixes(text@, prefix@)),
{
    let chars = characters(text);
    let unwanted = characters(prefix);
    let mut from: usize = 0;
    let total: usize = chars.len();
    proof {
        assert(text@.skip(0) == text@);
    }
    if unwanted.len() > 0 {
        while stands_at(chars.as_slice(), from, unwanted.as_slice())
            invariant
                from <= total == chars@.len(),
                chars@ == text@,
                unwanted@ == prefix@,
                prefix@.len() > 0,
                without_prefixes(text@, prefix@) == without_prefixes(
                    text@.skip(from as int),
                    prefix@,
                ),
            decreases chars@.len() - from,
        {
            proof {
                let rest = text@.skip(from as int);
                assert(rest.take(prefix@.len() as int) == text@.subrange(
                    from as int,
                    from + prefix@.len(),
                ));
                assert(prefix@.is_prefix_of(rest));
                assert(rest.skip(prefix@.len() as int) == text@.skip(from + prefix@.len()));
            }
            from = from + unwanted.len();
        }
        proof {
            let rest = text@.skip(from as int);
            assert(!prefix@.is_prefix_of(rest)) by {
                if prefix@.is_prefix_of(rest) {
                    assert(text@.subrange(from as int, from + prefix@.len()) =~= prefix@);
                }
            }
        }
    }
    trim_from(chars.as_slice(), from)
}

/// `chars` from index `start` on, without the white space at its two ends.
fn trim_from(chars: &[char], start: usize) -> (text: String)
    requires
        start <= chars@.len(),
    ensures
        text@ == trimmed(chars@.skip(start as int)),
{
    let ghost whole = chars@.skip(start as int);
    let mut from: usize = start;
    while from < chars.len() && chars[from].is_whitespace()
        invariant
            start <= from <= chars@.len(),
            left_trimmed(whole) == left_trimmed(chars@.skip(from as int)),
        decreases chars@.len() - from,
    {
        proof {
            assert(chars@.skip(from as int).skip(1) == chars@.skip(from + 1));
        }
        from = from + 1;
    }
    let ghost blank = |c: char| white_space(c);
    let ghost middle = chars@.skip(from as int);
    let mut to: usize = chars.len();
    proof {
        assert(chars@.subrange(from as int, to as int) == middle);
    }
    while to > from && chars[to - 1].is_whitespace()
        invariant
            from <= to <= chars@.len(),
            blank == (|c: char| white_space(c)),
            right_stripped(middle, blank) == right_stripped(
                chars@.subrange(from as int, to as int),
                blank,
            ),
        decreases to,
    {
        proof {
            let part = chars@.subrange(from as int, to as int);
            assert(part.last() == chars@[to - 1]);
            assert(part.drop_last() == chars@.subrange(from as int, to - 1));
        }
        to = to - 1;
    }
    proof {
        let part = chars@.subrange(from as int, to as int);
        if part.len() > 0 {
            assert(part.last() == chars@[to - 1]);
        }
    }
    text_of(chars, from, to)
}

/// `text` without the slashes at its end.
pub fn strip_trailing_slashes(text: &str) -> (stripped: String)
    ensures
        stripped@ == right_stripped(text@, |c: char| c == '/'),
{
    let chars = characters(text);
    let ghost slash = |c: char| c == '/';
    let mut to: usize = chars.len();
    proof {
        assert(text@.take(to as int) == text@);
    }
    while to > 0 && chars[to - 1] == '/'
        invariant
            to <= chars@.len(),
            chars@ == text@,
            slash == (|c: char| c == '/'),
            right_stripped(text@, slash) == right_stripped(text@.take(to as int), slash),
        decreases to,
    {
        proof {
            let part = text@.take(to as int);
            assert(part.last() == '/');
            assert(part.drop_last() == text@.take(to - 1));
        }
        to = to - 1;
    }
    proof {
        let part = text@.take(to as int);
        if to > 0 {
            assert(part.last() == chars@[to - 1]);
        }
        assert(text@.subrange(0, to as int) == part);
    }
    text_of(chars.as_slice(), 0, to)
}

/// The digit that stands for `d`: `0` to `9`, then `a` to `f`.
pub open spec fn digit(d: nat) -> char {
    if d < 10 {
        ('0' as u32 + d) as char
    } else {
        ('a' as u32 + (d - 10)) as char
    }
}

/// The numeral of `n` in base `base`, without leading zeros.
pub open spec fn numeral(n: nat, base: nat) -> Seq<char>
    decreases n,
{
    if base < 2 || n < base {
        seq![digit(n)]
    } else {
        proof {
            assert(n / base < n) by (nonlinear_arith)
                requires
                    2 <= base <= n,
            ;
        }
        numeral(n / base, base).push(digit(n % base))
    }
}

/// Writes one digit.
fn write_digit(d: u64) -> (c: char)
    requires
        d < 16,
    ensures
        c == digit(d as nat),
{
    let code: u8 = if d < 10 {
        48u8 + d as u8
    } else {
        87u8 + d as u8
    };
    code as char
}

/// Writes `n` in base `base`.
pub fn write_number(n: u64, base: u64) -> (text: String)
    requires
        2 <= base <= 16,
    ensures
        text@ == numeral(n as nat, base as nat),
    decreases n,
{
    if n < base {
        let mut text = String::new();
        text.push(write_digit(n));
        proof {
            assert(text@ =~= seq![digit(n as nat)]);
        }
        text
    } else {
        proof {
            assert(n / base < n) by (nonlinear_arith)
                requires
                    2 <= base <= n,
            ;
        }
        let mut text = write_number(n / base, base);
        text.push(write_digit(n % base));
        text
    }
}

/// Different numbers have different numerals.
pub proof fn numerals_differ(a: nat, b: nat, base: nat)
    requires
        2 <= base <= 16,
        numeral(a, base) == numeral(b, base),
    ensures
        a == b,
    decreases a,
{
    let x = numeral(a, base);
    let y = numeral(b, base);
    assert(x.last() == digit(a % base)) by {
        if a < base {
            assert(a % base == a) by (nonlinear_arith)
                requires
                    a < base,
            ;
        }
    }
    assert(y.last() == digit(b % base)) by {
        if b < base {
            assert(b % base == b) by (nonlinear_arith)
                requires
                    b < base,
            ;
        }
    }
    assert(0 <= a % base < base && 0 <= b % base < base) by (nonlinear_arith)
        requires
            base > 0,
    ;
    assert(a % base == b % base);
    if a >= base && b >= base {
        assert(x.drop_last() =~= numeral(a / base, base));
        assert(y.drop_last() =~= numeral(b / base, base));
        assert(a / base < a) by (nonlinear_arith)
            requires
                2 <= base <= a,
        ;
        numerals_differ(a / base, b / base, base);
        assert(a == base * (a / base) + a % base) by (nonlinear_arith)
            requires
                base > 0,
        ;
        assert(b == base * (b / base) + b % base) by (nonlinear_arith)
            requires
                base > 0,
        ;
    } else if a >= base {
        numeral_is_written(a / base, base);
    } else if b >= base {
        numeral_is_written(b / base, base);
    } else {
        assert(a % base == a && b % base == b) by (nonlinear_arith)
            requires
                a < base,
                b < base,
        ;
    }
}

/// Every numeral has at least one digit.
proof fn numeral_is_written(n: nat, base: nat)
    ensures
        numeral(n, base).len() > 0,
{
}

/// The number that a digit stands for: `0` to `9`, and then `a` to `f`.
pub open spec fn worth(c: char) -> int {
    if '0' <= c <= '9' {
        c as int - '0' as int
    } else {
        c as int - 'a' as int + 10
    }
}

/// The number that is read from digits, the last of which counts ones.
pub open spec fn read_number(text: Seq<char>, base: nat) -> int
    decreases text.len(),
{
    if text.len() == 0 {
        0
    } else {
        base * read_number(text.drop_last(), base) + worth(text.last())
    }
}

/// A numeral is made of the digits of its base, letters in lower case, is read as the number that it
/// was written for, and begins with zero only where that is all of it.
pub proof fn a_numeral_reads_back(n: nat, base: nat)
    requires
        2 <= base <= 16,
    ensures
        read_number(numeral(n, base), base) == n,
        numeral(n, base).len() >= 1,
        numeral(n, base).len() > 1 ==> numeral(n, base)[0] != '0',
        n > 0 ==> numeral(n, base)[0] != '0',
        forall|i: int|
            0 <= i < numeral(n, base).len() ==> {
                &&& '0' <= #[trigger] numeral(n, base)[i] <= '9' || 'a' <= numeral(n, base)[i] <= 'f'
                &&& 0 <= worth(numeral(n, base)[i]) < base
            },
    decreases n,
{
    let text = numeral(n, base);
    reveal_with_fuel(read_number, 2);
    if n < base {
        assert(text.drop_last() =~= Seq::empty());
        assert(base * 0 == 0);
        assert(worth(digit(n)) == n);
    } else {
        assert(n / base < n && n / base > 0) by (nonlinear_arith)
            requires
                2 <= base <= n,
        ;
        assert(0 <= n % base < base) by (nonlinear_arith)
            requires
                base > 0,
        ;
        assert(n == base * (n / base) + n % base) by (nonlinear_arith)
            requires
                base > 0,
        ;
        let front = numeral(n / base, base);
        a_numeral_reads_back(n / base, base);
        assert(text.drop_last() =~= front);
        assert(worth(digit(n % base)) == n % base);
        assert(text[0] == front[0]);
        assert forall|i: int| 0 <= i < text.len() implies {
            &&& '0' <= #[trigger] text[i] <= '9' || 'a' <= text[i] <= 'f'
            &&& 0 <= worth(text[i]) < base
        } by {
            if i < front.len() {
                assert(text[i] == front[i]);
            }
        }
    }
}

} // verus!
