//! Text as sequences of characters: numbers in decimal and hexadecimal, trimming, searching.
use vstd::prelude::*;
use vstd::utf8::{decode_utf8, valid_utf8};

verus! {

/// `String::push` appends one character.
pub assume_specification[ String::push ](s: &mut String, c: char)
    ensures
        final(s)@ == old(s)@.push(c),
;

/// Calls `std::str::from_utf8`, which succeeds on well-formed UTF-8 only, and then gives the text
/// that the bytes encode.
#[verifier::external_body]
pub(crate) fn utf8_text(bytes: &[u8]) -> (r: Option<&str>)
    ensures
        match r {
            Some(text) => valid_utf8(bytes@) && text@ == decode_utf8(bytes@),
            None => !valid_utf8(bytes@),
        },
{
    std::str::from_utf8(bytes).ok()
}

/// The decimal digit of a number below ten.
pub open spec fn digit(d: nat) -> char {
    (('0' as u8) + d) as char
}

/// `n` in decimal, without leading zeros.
pub open spec fn decimal(n: nat) -> Seq<char>
    decreases n,
{
    if n < 10 {
        seq![digit(n)]
    } else {
        decimal(n / 10).push(digit(n % 10))
    }
}

/// The lower-case hexadecimal digit of a number below sixteen.
pub open spec fn hex_digit(d: nat) -> char {
    if d < 10 {
        digit(d)
    } else {
        (('a' as u8) + (d - 10)) as char
    }
}

/// Each byte as two lower-case hexadecimal digits.
pub open spec fn hex(bytes: Seq<u8>) -> Seq<char>
    decreases bytes.len(),
{
    if bytes.len() == 0 {
        Seq::empty()
    } else {
        hex(bytes.drop_last()).push(hex_digit(bytes.last() as nat / 16)).push(
            hex_digit(bytes.last() as nat % 16),
        )
    }
}

/// The upper-case hexadecimal digit of a number below sixteen.
pub open spec fn upper_hex_digit(d: nat) -> char {
    if d < 10 {
        digit(d)
    } else {
        (('A' as u8) + (d - 10)) as char
    }
}

/// Each byte as two upper-case hexadecimal digits, with colons between the bytes.
pub open spec fn colon_hex(bytes: Seq<u8>) -> Seq<char>
    decreases bytes.len(),
{
    if bytes.len() == 0 {
        Seq::empty()
    } else {
        let before = if bytes.len() == 1 {
            Seq::empty()
        } else {
            colon_hex(bytes.drop_last()).push(':')
        };
        before.push(upper_hex_digit(bytes.last() as nat / 16)).push(
            upper_hex_digit(bytes.last() as nat % 16),
        )
    }
}

/// The characters with the Unicode property White_Space.
pub open spec fn is_space(c: char) -> bool {
    ||| '\u{9}' <= c <= '\u{d}'
    ||| c == '\u{20}'
    ||| c == '\u{85}'
    ||| c == '\u{a0}'
    ||| c == '\u{1680}'
    ||| '\u{2000}' <= c <= '\u{200a}'
    ||| c == '\u{2028}'
    ||| c == '\u{2029}'
    ||| c == '\u{202f}'
    ||| c == '\u{205f}'
    ||| c == '\u{3000}'
}

/// `s` without the white space at its start.
pub open spec fn trim_start(s: Seq<char>) -> Seq<char>
    decreases s.len(),
{
    if s.len() > 0 && is_space(s[0]) {
        trim_start(s.drop_first())
    } else {
        s
    }
}

/// `s` without the white space at its end.
pub open spec fn trim_end(s: Seq<char>) -> Seq<char>
    decreases s.len(),
{
    if s.len() > 0 && is_space(s.last()) {
        trim_end(s.drop_last())
    } else {
        s
    }
}

/// `s` without the white space at both ends.
pub open spec fn trim(s: Seq<char>) -> Seq<char> {
    trim_end(trim_start(s))
}

/// Whether `s` starts with `prefix`.
pub open spec fn starts_with(s: Seq<char>, prefix: Seq<char>) -> bool {
    prefix.len() <= s.len() && s.take(prefix.len() as int) == prefix
}

/// Whether `part` stands somewhere in `s`.
pub open spec fn contains(s: Seq<char>, part: Seq<char>) -> bool {
    exists|i: int| 0 <= i <= s.len() && starts_with(#[trigger] s.skip(i), part)
}

/// The position of the first `c` in `s`.
pub open spec fn first_index(s: Seq<char>, c: char) -> Option<int>
    decreases s.len(),
{
    if s.len() == 0 {
        None
    } else if s[0] == c {
        Some(0)
    } else {
        match first_index(s.drop_first(), c) {
            None => None,
            Some(i) => Some(i + 1),
        }
    }
}

/// The pieces of `s` between the separators.
pub open spec fn split(s: Seq<char>, separator: char) -> Seq<Seq<char>>
    decreases s.len(),
{
    match first_index(s, separator) {
        Some(i) => if 0 <= i < s.len() {
            seq![s.take(i)] + split(s.skip(i + 1), separator)
        } else {
            seq![s]
        },
        None => seq![s],
    }
}

/// The value of the first piece that `read` finds one in.
pub open spec fn first_value(
    list: Seq<Seq<char>>,
    read: spec_fn(Seq<char>) -> Option<Seq<char>>,
) -> Option<Seq<char>>
    decreases list.len(),
{
    if list.len() == 0 {
        None
    } else {
        match first_value(list.drop_last(), read) {
            Some(value) => Some(value),
            None => read(list.last()),
        }
    }
}

/// The characters of a text that may be there.
pub open spec fn text_view(text: Option<String>) -> Option<Seq<char>> {
    match text {
        Some(s) => Some(s@),
        None => None,
    }
}

/// The characters of a text that may be there.
pub open spec fn str_view(text: Option<&str>) -> Option<Seq<char>> {
    match text {
        Some(s) => Some(s@),
        None => None,
    }
}

/// The first value that is found stays: what comes later counts only where nothing came before.
pub proof fn law_first_value_stays(
    list: Seq<Seq<char>>,
    more: Seq<Seq<char>>,
    read: spec_fn(Seq<char>) -> Option<Seq<char>>,
)
    ensures
        first_value(list, read) is Some ==> first_value(list + more, read) == first_value(
            list,
            read,
        ),
        first_value(list, read) is None ==> first_value(list + more, read) == first_value(
            more,
            read,
        ),
    decreases more.len(),
{
    if more.len() == 0 {
        assert(list + more =~= list);
    } else {
        law_first_value_stays(list, more.drop_last(), read);
        assert((list + more).drop_last() =~= list + more.drop_last());
        assert((list + more).last() == more.last());
    }
}

/// What `first_index` says of every position.
pub proof fn lemma_first_index(s: Seq<char>, c: char)
    ensures
        match first_index(s, c) {
            None => !s.contains(c),
            Some(i) => 0 <= i < s.len() && s[i] == c && !s.take(i).contains(c),
        },
    decreases s.len(),
{
    if s.len() > 0 && s[0] != c {
        lemma_first_index(s.drop_first(), c);
        match first_index(s.drop_first(), c) {
            None => {
                assert forall|k: int| 0 <= k < s.len() implies s[k] != c by {
                    if k > 0 {
                        assert(s.drop_first()[k - 1] == s[k]);
                        assert(s.drop_first().contains(s.drop_first()[k - 1]));
                    }
                }
            },
            Some(i) => {
                assert forall|k: int| 0 <= k < i + 1 implies s[k] != c by {
                    if k > 0 {
                        assert(s.drop_first().take(i)[k - 1] == s[k]);
                        assert(s.drop_first().take(i).contains(s.drop_first().take(i)[k - 1]));
                    }
                }
            },
        }
    }
}

/// The one position that `first_index` can name.
pub proof fn lemma_first_index_at(s: Seq<char>, c: char, i: int)
    requires
        0 <= i < s.len(),
        s[i] == c,
        forall|k: int| 0 <= k < i ==> s[k] != c,
    ensures
        first_index(s, c) == Some(i),
{
    lemma_first_index(s, c);
    match first_index(s, c) {
        None => {
            assert(s.contains(s[i]));
        },
        Some(j) => {
            if i < j {
                assert(s.take(j)[i] == c);
                assert(s.take(j).contains(s.take(j)[i]));
            }
        },
    }
}

/// The characters of a text, one by one.
pub fn chars_of(s: &str) -> (r: Vec<char>)
    ensures
        r@ == s@,
{
    let mut r: Vec<char> = Vec::new();
    for c in it: s.chars()
        invariant
            r@ == it.seq().take(it.index()),
            it.seq() == s@,
    {
        r.push(c);
    }
    r
}

/// The text of some characters.
pub fn string_of(s: &[char]) -> (r: String)
    ensures
        r@ == s@,
{
    let mut r = String::new();
    push_chars(&mut r, s);
    r
}

/// Appends characters to a text.
pub fn push_chars(text: &mut String, s: &[char])
    ensures
        final(text)@ == old(text)@ + s@,
{
    let mut i: usize = 0;
    assert(text@ =~= old(text)@ + s@.take(0));
    while i < s.len()
        invariant
            i <= s@.len(),
            text@ == old(text)@ + s@.take(i as int),
        decreases s@.len() - i,
    {
        text.push(s[i]);
        i = i + 1;
        assert(text@ =~= old(text)@ + s@.take(i as int));
    }
    assert(s@.take(i as int) =~= s@);
}

/// Appends a text to a text.
pub fn push_text(text: &mut String, more: &str)
    ensures
        final(text)@ == old(text)@ + more@,
{
    let chars = chars_of(more);
    push_chars(text, chars.as_slice());
}

/// Appends `n` in decimal.
pub fn push_decimal(text: &mut String, n: u64)
    ensures
        final(text)@ == old(text)@ + decimal(n as nat),
    decreases n,
{
    let ghost before = text@;
    if n >= 10 {
        push_decimal(text, n / 10);
    }
    text.push((48u8 + (n % 10) as u8) as char);
    assert(text@ =~= before + decimal(n as nat));
}

/// Appends each byte as two hexadecimal digits.
pub fn push_hex(text: &mut String, bytes: &[u8])
    ensures
        final(text)@ == old(text)@ + hex(bytes@),
{
    let mut i: usize = 0;
    assert(text@ =~= old(text)@ + hex(bytes@.take(0)));
    while i < bytes.len()
        invariant
            i <= bytes@.len(),
            text@ == old(text)@ + hex(bytes@.take(i as int)),
        decreases bytes@.len() - i,
    {
        text.push(hex_digit_of(bytes[i] / 16));
        text.push(hex_digit_of(bytes[i] % 16));
        i = i + 1;
        assert(bytes@.take(i as int).drop_last() =~= bytes@.take(i - 1));
        assert(text@ =~= old(text)@ + hex(bytes@.take(i as int)));
    }
    assert(bytes@.take(i as int) =~= bytes@);
}

fn hex_digit_of(d: u8) -> (r: char)
    requires
        d < 16,
    ensures
        r == hex_digit(d as nat),
{
    if d < 10 {
        (48u8 + d) as char
    } else {
        (97u8 + (d - 10)) as char
    }
}

fn upper_hex_digit_of(d: u8) -> (r: char)
    requires
        d < 16,
    ensures
        r == upper_hex_digit(d as nat),
{
    if d < 10 {
        (48u8 + d) as char
    } else {
        (65u8 + (d - 10)) as char
    }
}

/// Each byte as two upper-case hexadecimal digits, with colons between the bytes.
pub fn colon_hex_text(bytes: &[u8]) -> (r: String)
    ensures
        r@ == colon_hex(bytes@),
{
    let mut r = String::new();
    let mut i: usize = 0;
    assert(bytes@.take(0) =~= Seq::empty());
    while i < bytes.len()
        invariant
            i <= bytes@.len(),
            r@ == colon_hex(bytes@.take(i as int)),
        decreases bytes@.len() - i,
    {
        assert(bytes@.take(i + 1).drop_last() =~= bytes@.take(i as int));
        if i > 0 {
            r.push(':');
        }
        r.push(upper_hex_digit_of(bytes[i] / 16));
        r.push(upper_hex_digit_of(bytes[i] % 16));
        i = i + 1;
    }
    assert(bytes@.take(i as int) =~= bytes@);
    r
}

/// Whether a character is white space.
pub fn is_space_char(c: char) -> (r: bool)
    ensures
        r == is_space(c),
{
    ('\u{9}' <= c && c <= '\u{d}') || c == '\u{20}' || c == '\u{85}' || c == '\u{a0}' || c
        == '\u{1680}' || ('\u{2000}' <= c && c <= '\u{200a}') || c == '\u{2028}' || c
        == '\u{2029}' || c == '\u{202f}' || c == '\u{205f}' || c == '\u{3000}'
}

/// The part of `s` between the white space at its ends.
pub fn trim_chars(s: &[char]) -> (r: &[char])
    ensures
        r@ == trim(s@),
{
    let mut a: usize = 0;
    assert(s@.skip(0) =~= s@);
    while a < s.len() && is_space_char(s[a])
        invariant
            a <= s@.len(),
            trim_start(s@) == trim_start(s@.skip(a as int)),
        decreases s@.len() - a,
    {
        assert(s@.skip(a as int).drop_first() =~= s@.skip(a + 1));
        a = a + 1;
    }
    let ghost rest = s@.skip(a as int);
    assert(trim_start(s@) == rest);
    let mut b: usize = s.len();
    assert(s@.subrange(a as int, b as int) =~= rest);
    while a < b && is_space_char(s[b - 1])
        invariant
            a <= b <= s@.len(),
            rest == s@.skip(a as int),
            trim_end(rest) == trim_end(s@.subrange(a as int, b as int)),
        decreases b - a,
    {
        assert(s@.subrange(a as int, b as int).drop_last() =~= s@.subrange(a as int, b - 1));
        b = b - 1;
    }
    &s[a..b]
}

/// The position of the first `c` in `s`.
pub fn find_char(s: &[char], c: char) -> (r: Option<usize>)
    ensures
        match r {
            Some(i) => first_index(s@, c) == Some(i as int),
            None => first_index(s@, c) is None,
        },
{
    let mut i: usize = 0;
    while i < s.len()
        invariant
            i <= s@.len(),
            forall|k: int| 0 <= k < i ==> s@[k] != c,
        decreases s@.len() - i,
    {
        if s[i] == c {
            proof {
                lemma_first_index_at(s@, c, i as int);
            }
            return Some(i);
        }
        i = i + 1;
    }
    proof {
        lemma_first_index(s@, c);
    }
    None
}

/// What a list of character slices stands for.
pub open spec fn slices_view(list: Seq<&[char]>) -> Seq<Seq<char>> {
    list.map_values(|s: &[char]| s@)
}

/// The pieces of `s` between the separators.
pub fn split_chars<'a>(s: &'a [char], separator: char) -> (r: Vec<&'a [char]>)
    ensures
        slices_view(r@) == split(s@, separator),
{
    let len: usize = s.len();
    let mut r: Vec<&'a [char]> = Vec::new();
    let mut pos: usize = 0;
    proof {
        assert(s@.skip(0) =~= s@);
        assert(slices_view(r@) + split(s@, separator) =~= split(s@, separator));
    }
    loop
        invariant
            pos <= len == s@.len(),
            slices_view(r@) + split(s@.skip(pos as int), separator) == split(s@, separator),
        decreases len - pos,
    {
        let rest: &'a [char] = &s[pos..len];
        let ghost before = slices_view(r@);
        assert(rest@ =~= s@.skip(pos as int));
        proof {
            lemma_first_index(rest@, separator);
        }
        match find_char(rest, separator) {
            Some(n) => {
                let piece: &'a [char] = &rest[0..n];
                r.push(piece);
                proof {
                    assert(piece@ =~= rest@.take(n as int));
                    assert(rest@.skip(n + 1) =~= s@.skip(pos + n + 1));
                    assert(slices_view(r@) =~= before.push(piece@));
                    assert(before + split(rest@, separator) =~= before.push(piece@) + split(
                        rest@.skip(n + 1),
                        separator,
                    ));
                }
                pos = pos + n + 1;
            },
            None => {
                r.push(rest);
                proof {
                    assert(slices_view(r@) =~= before + split(rest@, separator));
                }
                return r;
            },
        }
    }
}

/// Whether `s` is the text `t`.
pub fn is_text(s: &[char], t: &str) -> (r: bool)
    ensures
        r == (s@ == t@),
{
    let t = chars_of(t);
    s.len() == t.len() && has_prefix(s, t.as_slice())
}

/// Whether `s` starts with `prefix`.
pub fn has_prefix(s: &[char], prefix: &[char]) -> (r: bool)
    ensures
        r == starts_with(s@, prefix@),
        s@.len() == prefix@.len() ==> r == (s@ == prefix@),
{
    if s.len() < prefix.len() {
        return false;
    }
    let mut i: usize = 0;
    while i < prefix.len()
        invariant
            i <= prefix@.len() <= s@.len(),
            forall|k: int| 0 <= k < i ==> s@[k] == prefix@[k],
        decreases prefix@.len() - i,
    {
        if s[i] != prefix[i] {
            assert(s@.take(prefix@.len() as int)[i as int] != prefix@[i as int]);
            return false;
        }
        i = i + 1;
    }
    assert(s@.take(prefix@.len() as int) =~= prefix@);
    assert(s@.len() == prefix@.len() ==> s@ =~= prefix@);
    true
}

/// Whether `part` stands somewhere in `s`.
pub fn has_part(s: &[char], part: &[char]) -> (r: bool)
    ensures
        r == contains(s@, part@),
{
    let len: usize = s.len();
    let mut i: usize = 0;
    loop
        invariant
            i <= len == s@.len(),
            forall|k: int| 0 <= k < i ==> !starts_with(#[trigger] s@.skip(k), part@),
        decreases len - i,
    {
        let rest: &[char] = &s[i..len];
        assert(rest@ =~= s@.skip(i as int));
        if has_prefix(rest, part) {
            return true;
        }
        if i == len {
            return false;
        }
        i = i + 1;
    }
}

/// The number that a digit counts in any base up to sixteen, in lower or upper case.
pub open spec fn digit_number(c: char) -> int {
    if '0' <= c <= '9' {
        c as int - '0' as int
    } else if 'a' <= c <= 'f' {
        c as int - 'a' as int + 10
    } else if 'A' <= c <= 'F' {
        c as int - 'A' as int + 10
    } else {
        -1
    }
}

/// The number that digits spell in base ten.
pub open spec fn spelled(s: Seq<char>) -> int
    decreases s.len(),
{
    if s.len() == 0 {
        0
    } else {
        10 * spelled(s.drop_last()) + digit_number(s.last())
    }
}

/// A number in decimal reads back as the number. It has digits only, at least one, and starts with
/// a zero only where it is zero.
pub proof fn law_decimal_reads_back(n: nat)
    ensures
        spelled(decimal(n)) == n,
        decimal(n).len() > 0,
        forall|i: int| 0 <= i < decimal(n).len() ==> '0' <= #[trigger] decimal(n)[i] <= '9',
        decimal(n)[0] == '0' ==> n == 0 && decimal(n).len() == 1,
    decreases n,
{
    reveal_with_fuel(spelled, 2);
    if n >= 10 {
        law_decimal_reads_back(n / 10);
        let head = decimal(n / 10);
        let last = digit(n % 10);
        assert(decimal(n).drop_last() =~= head);
        assert(decimal(n)[0] == head[0]);
        assert forall|i: int| 0 <= i < decimal(n).len() implies '0' <= #[trigger] decimal(
            n,
        )[i] <= '9' by {
            if i < head.len() {
                assert(decimal(n)[i] == head[i]);
            }
        }
    } else {
        assert(decimal(n).drop_last() =~= Seq::empty());
    }
}

/// Bytes in hexadecimal read back: two lower-case digits for each byte, the high one first.
pub proof fn law_hex_reads_back(bytes: Seq<u8>)
    ensures
        hex(bytes).len() == 2 * bytes.len(),
        forall|i: int|
            0 <= i < bytes.len() ==> #[trigger] bytes[i] == 16 * digit_number(hex(bytes)[2 * i])
                + digit_number(hex(bytes)[2 * i + 1]),
        forall|i: int|
            0 <= i < hex(bytes).len() ==> '0' <= #[trigger] hex(bytes)[i] <= '9' || 'a' <= hex(
                bytes,
            )[i] <= 'f',
    decreases bytes.len(),
{
    if bytes.len() > 0 {
        let head = bytes.drop_last();
        law_hex_reads_back(head);
        let all = hex(bytes);
        let before = hex(head);
        let b = bytes.last() as nat;
        assert forall|i: int| 0 <= i < bytes.len() implies #[trigger] bytes[i] == 16
            * digit_number(all[2 * i]) + digit_number(all[2 * i + 1]) by {
            if i < head.len() {
                assert(head[i] == bytes[i]);
                assert(all[2 * i] == before[2 * i]);
                assert(all[2 * i + 1] == before[2 * i + 1]);
            } else {
                assert(all[2 * i] == hex_digit(b / 16));
                assert(all[2 * i + 1] == hex_digit(b % 16));
            }
        }
        assert forall|i: int| 0 <= i < all.len() implies '0' <= #[trigger] all[i] <= '9' || 'a'
            <= all[i] <= 'f' by {
            if i < before.len() {
                assert(all[i] == before[i]);
            }
        }
    }
}

/// Bytes in hexadecimal with colons read back: two upper-case digits for each byte, the high one
/// first, and a colon between any two bytes.
pub proof fn law_colon_hex_reads_back(bytes: Seq<u8>)
    ensures
        bytes.len() == 0 ==> colon_hex(bytes).len() == 0,
        bytes.len() > 0 ==> colon_hex(bytes).len() == 3 * bytes.len() - 1,
        forall|i: int|
            0 <= i < bytes.len() ==> {
                let (high, low) = (colon_hex(bytes)[3 * i], colon_hex(bytes)[3 * i + 1]);
                &&& #[trigger] bytes[i] == 16 * digit_number(high) + digit_number(low)
                &&& '0' <= high <= '9' || 'A' <= high <= 'F'
                &&& '0' <= low <= '9' || 'A' <= low <= 'F'
                &&& i + 1 < bytes.len() ==> colon_hex(bytes)[3 * i + 2] == ':'
            },
    decreases bytes.len(),
{
    if bytes.len() > 0 {
        let head = bytes.drop_last();
        law_colon_hex_reads_back(head);
        let all = colon_hex(bytes);
        let before = colon_hex(head);
        let b = bytes.last() as nat;
        assert forall|i: int| 0 <= i < bytes.len() implies {
            let (high, low) = (all[3 * i], all[3 * i + 1]);
            &&& #[trigger] bytes[i] == 16 * digit_number(high) + digit_number(low)
            &&& '0' <= high <= '9' || 'A' <= high <= 'F'
            &&& '0' <= low <= '9' || 'A' <= low <= 'F'
            &&& i + 1 < bytes.len() ==> all[3 * i + 2] == ':'
        } by {
            if i < head.len() {
                assert(head[i] == bytes[i]);
                assert(all[3 * i] == before[3 * i]);
                assert(all[3 * i + 1] == before[3 * i + 1]);
                if i + 1 < head.len() {
                    assert(all[3 * i + 2] == before[3 * i + 2]);
                }
            } else {
                assert(all[3 * i] == upper_hex_digit(b / 16));
                assert(all[3 * i + 1] == upper_hex_digit(b % 16));
            }
        }
    }
}

/// White space is these code points and no others.
pub proof fn law_white_space(c: char)
    ensures
        is_space(c) <==> seq![
            9int,
            10,
            11,
            12,
            13,
            32,
            133,
            160,
            5760,
            8192,
            8193,
            8194,
            8195,
            8196,
            8197,
            8198,
            8199,
            8200,
            8201,
            8202,
            8232,
            8233,
            8239,
            8287,
            12288,
        ].contains(c as int),
{
    let list = seq![
        9int,
        10,
        11,
        12,
        13,
        32,
        133,
        160,
        5760,
        8192,
        8193,
        8194,
        8195,
        8196,
        8197,
        8198,
        8199,
        8200,
        8201,
        8202,
        8232,
        8233,
        8239,
        8287,
        12288,
    ];
    let n = c as int;
    if is_space(c) {
        let i = if n <= 13 {
            n - 9
        } else if n == 32 {
            5
        } else if n == 133 {
            6
        } else if n == 160 {
            7
        } else if n == 5760 {
            8
        } else if n <= 8202 {
            n - 8192 + 9
        } else if n == 8232 {
            20
        } else if n == 8233 {
            21
        } else if n == 8239 {
            22
        } else if n == 8287 {
            23
        } else {
            24
        };
        assert(list[i] == n);
    }
}

/// Only white space stands in a text.
pub open spec fn is_blank(s: Seq<char>) -> bool {
    forall|i: int| 0 <= i < s.len() ==> is_space(#[trigger] s[i])
}

/// A text that neither starts nor ends with white space.
pub open spec fn is_bare(s: Seq<char>) -> bool {
    s.len() > 0 ==> !is_space(s[0]) && !is_space(s.last())
}

proof fn lemma_trim_start(before: Seq<char>, text: Seq<char>)
    requires
        is_blank(before),
        text.len() > 0 ==> !is_space(text[0]),
    ensures
        trim_start(before + text) == text,
    decreases before.len(),
{
    let s = before + text;
    if before.len() == 0 {
        assert(s =~= text);
    } else {
        assert(is_space(before[0]));
        assert(s[0] == before[0]);
        assert(s.drop_first() =~= before.drop_first() + text);
        assert forall|i: int| 0 <= i < before.drop_first().len() implies is_space(
            #[trigger] before.drop_first()[i],
        ) by {
            assert(before.drop_first()[i] == before[i + 1]);
        }
        lemma_trim_start(before.drop_first(), text);
    }
}

proof fn lemma_trim_end(text: Seq<char>, after: Seq<char>)
    requires
        is_blank(after),
        text.len() > 0 ==> !is_space(text.last()),
    ensures
        trim_end(text + after) == text,
    decreases after.len(),
{
    let s = text + after;
    if after.len() == 0 {
        assert(s =~= text);
    } else {
        assert(is_space(after[after.len() - 1]));
        assert(s.last() == after.last());
        assert(s.drop_last() =~= text + after.drop_last());
        assert forall|i: int| 0 <= i < after.drop_last().len() implies is_space(
            #[trigger] after.drop_last()[i],
        ) by {
            assert(after.drop_last()[i] == after[i]);
        }
        lemma_trim_end(text, after.drop_last());
    }
}

/// Trimming takes the white space at both ends away and nothing else, whatever stands between.
pub proof fn law_trim(before: Seq<char>, text: Seq<char>, after: Seq<char>)
    requires
        is_blank(before),
        is_bare(text),
        is_blank(after),
    ensures
        trim(before + text + after) == text,
{
    let s = before + text + after;
    if text.len() > 0 {
        assert(s =~= before + (text + after));
        assert((text + after)[0] == text[0]);
        lemma_trim_start(before, text + after);
        lemma_trim_end(text, after);
    } else {
        assert(s =~= (before + after) + text);
        assert forall|i: int| 0 <= i < (before + after).len() implies is_space(
            #[trigger] (before + after)[i],
        ) by {
            if i < before.len() {
                assert((before + after)[i] == before[i]);
            } else {
                assert((before + after)[i] == after[i - before.len()]);
            }
        }
        lemma_trim_start(before + after, text);
        assert(trim_start(s) =~= text);
    }
}

/// Every text is what trimming leaves of it with white space around.
pub proof fn law_trim_takes_apart(s: Seq<char>)
    ensures
        is_bare(trim(s)),
        exists|before: Seq<char>, after: Seq<char>|
            is_blank(before) && is_blank(after) && s == #[trigger] (before + trim(s) + after),
{
    let t = trim_start(s);
    let before = lemma_trim_start_splits(s);
    let after = lemma_trim_end_splits(t);
    let m = trim(s);
    if m.len() > 0 {
        assert(t[0] == m[0]);
    }
    assert(s =~= before + m + after);
}

proof fn lemma_trim_start_splits(s: Seq<char>) -> (before: Seq<char>)
    ensures
        is_blank(before),
        s == before + trim_start(s),
        trim_start(s).len() > 0 ==> !is_space(trim_start(s)[0]),
    decreases s.len(),
{
    if s.len() > 0 && is_space(s[0]) {
        let b = lemma_trim_start_splits(s.drop_first());
        let before = seq![s[0]] + b;
        assert forall|i: int| 0 <= i < before.len() implies is_space(#[trigger] before[i]) by {
            if i > 0 {
                assert(before[i] == b[i - 1]);
            }
        }
        assert(s =~= before + trim_start(s)) by {
            assert(s =~= seq![s[0]] + s.drop_first());
        }
        before
    } else {
        assert(s =~= Seq::empty() + s);
        Seq::empty()
    }
}

proof fn lemma_trim_end_splits(s: Seq<char>) -> (after: Seq<char>)
    ensures
        is_blank(after),
        s == trim_end(s) + after,
        trim_end(s).len() > 0 ==> !is_space(trim_end(s).last()),
    decreases s.len(),
{
    if s.len() > 0 && is_space(s.last()) {
        let b = lemma_trim_end_splits(s.drop_last());
        let after = b.push(s.last());
        assert forall|i: int| 0 <= i < after.len() implies is_space(#[trigger] after[i]) by {
            if i < b.len() {
                assert(after[i] == b[i]);
            }
        }
        assert(s =~= trim_end(s) + after) by {
            assert(s =~= s.drop_last().push(s.last()));
        }
        after
    } else {
        assert(s =~= s + Seq::empty());
        Seq::empty()
    }
}

/// A text starts with what it was made to start with, and with nothing that differs from it
/// anywhere.
pub proof fn law_starts_with(prefix: Seq<char>, rest: Seq<char>, s: Seq<char>)
    ensures
        starts_with(prefix + rest, prefix),
        starts_with(s, prefix) <==> prefix.len() <= s.len() && forall|i: int|
            0 <= i < prefix.len() ==> #[trigger] s[i] == prefix[i],
{
    assert((prefix + rest).take(prefix.len() as int) =~= prefix);
    if prefix.len() <= s.len() && (forall|i: int|
        0 <= i < prefix.len() ==> #[trigger] s[i] == prefix[i]) {
        assert(s.take(prefix.len() as int) =~= prefix);
    }
    if starts_with(s, prefix) {
        assert forall|i: int| 0 <= i < prefix.len() implies #[trigger] s[i] == prefix[i] by {
            assert(s.take(prefix.len() as int)[i] == s[i]);
        }
    }
}

/// A text contains what stands in it at any place, and nothing else.
pub proof fn law_contains(before: Seq<char>, part: Seq<char>, after: Seq<char>, s: Seq<char>)
    ensures
        contains(before + part + after, part),
        contains(s, part) <==> exists|i: int|
            #![trigger s.subrange(i, i + part.len())]
            0 <= i && i + part.len() <= s.len() && s.subrange(i, i + part.len()) == part,
{
    let whole = before + part + after;
    let n = before.len() as int;
    assert(whole.skip(n) =~= part + after);
    law_starts_with(part, after, whole.skip(n));
    if contains(s, part) {
        let i = choose|i: int| 0 <= i <= s.len() && starts_with(#[trigger] s.skip(i), part);
        assert(s.subrange(i, i + part.len()) =~= s.skip(i).take(part.len() as int));
    }
    if exists|i: int|
        #![trigger s.subrange(i, i + part.len())]
        0 <= i && i + part.len() <= s.len() && s.subrange(i, i + part.len()) == part {
        let i = choose|i: int|
            #![trigger s.subrange(i, i + part.len())]
            0 <= i && i + part.len() <= s.len() && s.subrange(i, i + part.len()) == part;
        assert(s.skip(i).take(part.len() as int) =~= s.subrange(i, i + part.len()));
    }
}

/// The first place of a character is the one that none stands in front of.
pub proof fn law_first_index(before: Seq<char>, c: char, after: Seq<char>)
    requires
        !before.contains(c),
    ensures
        first_index(before, c) is None,
        first_index(before.push(c) + after, c) == Some(before.len() as int),
{
    lemma_first_index(before, c);
    let s = before.push(c) + after;
    assert forall|k: int| 0 <= k < before.len() implies s[k] != c by {
        assert(s[k] == before[k]);
        assert(before.contains(before[k]));
    }
    if first_index(before, c) is Some {
        let i = first_index(before, c)->0;
        assert(before.contains(before[i]));
    }
    lemma_first_index_at(s, c, before.len() as int);
}

/// Splitting cuts at every separator and nowhere else: a piece without one stays whole, and what
/// follows a separator is split on its own.
pub proof fn law_split(piece: Seq<char>, separator: char, rest: Seq<char>)
    requires
        !piece.contains(separator),
    ensures
        split(piece, separator) == seq![piece],
        split(piece.push(separator) + rest, separator) == seq![piece] + split(rest, separator),
{
    law_first_index(piece, separator, rest);
    let s = piece.push(separator) + rest;
    let i = piece.len() as int;
    assert(s.take(i) =~= piece);
    assert(s.skip(i + 1) =~= rest);
}

/// Reading pieces in their order: none gives nothing, one gives what is read in it.
pub proof fn law_first_value_of_one(
    piece: Seq<char>,
    read: spec_fn(Seq<char>) -> Option<Seq<char>>,
)
    ensures
        first_value(Seq::empty(), read) is None,
        first_value(seq![piece], read) == read(piece),
{
    assert(seq![piece].drop_last() =~= Seq::empty());
}

/// A text that may be there is seen as it is.
pub proof fn law_text_views(text: Option<String>, part: Option<&str>)
    ensures
        text is None <==> text_view(text) is None,
        text matches Some(s) ==> text_view(text) == Some(s@),
        part is None <==> str_view(part) is None,
        part matches Some(s) ==> str_view(part) == Some(s@),
{
}

/// A list of slices is seen slice by slice.
pub proof fn law_slices_view(list: Seq<&[char]>)
    ensures
        slices_view(list).len() == list.len(),
        forall|i: int| 0 <= i < list.len() ==> slices_view(list)[i] == (#[trigger] list[i])@,
{
}

} // verus!
