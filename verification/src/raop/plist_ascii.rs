//! Property lists in the old text form: how deeply their arrays and dictionaries are nested.
use crate::raop::plist_limits::MAX_PLIST_DEPTH;
use vstd::prelude::*;

verus! {

/// Behind the closing quotation mark of a text. A backslash takes the next character with it.
pub open spec fn string_end(bytes: Seq<u8>, at: int, quote: u8) -> Option<int>
    decreases bytes.len() - at,
{
    if at >= bytes.len() {
        None
    } else if bytes[at] == quote {
        Some(at + 1)
    } else if bytes[at] == 92 {
        if at + 1 >= bytes.len() {
            None
        } else {
            string_end(bytes, at + 2, quote)
        }
    } else {
        string_end(bytes, at + 1, quote)
    }
}

/// The end of a line.
pub open spec fn line_end(bytes: Seq<u8>, at: int) -> int
    decreases bytes.len() - at,
{
    if at >= bytes.len() || bytes[at] == 10 {
        at
    } else {
        line_end(bytes, at + 1)
    }
}

/// Behind the end of a comment. `star` says whether a star came last: then the next character
/// closes the comment or is passed over.
pub open spec fn comment_end(bytes: Seq<u8>, at: int, star: bool) -> Option<int>
    decreases bytes.len() - at,
{
    if star && at >= bytes.len() {
        Some(at)
    } else if star && bytes[at] == 47 {
        Some(at + 1)
    } else {
        let next = if star {
            at + 1
        } else {
            at
        };
        if next >= bytes.len() {
            None
        } else {
            comment_end(bytes, next + 1, bytes[next] == 42)
        }
    }
}

/// A character that ends a text without quotation marks.
pub open spec fn ends_word(b: u8) -> bool {
    b == 32 || b == 41 || b == 13 || b == 9 || b == 59 || b == 44
}

/// The end of a text without quotation marks.
pub open spec fn word_end(bytes: Seq<u8>, at: int) -> int
    decreases bytes.len() - at,
{
    if at >= bytes.len() || ends_word(bytes[at]) {
        at
    } else {
        word_end(bytes, at + 1)
    }
}

/// What ends stands behind its start.
pub proof fn lemma_string_end(bytes: Seq<u8>, at: int, quote: u8)
    ensures
        string_end(bytes, at, quote) matches Some(q) ==> at < q <= bytes.len(),
    decreases bytes.len() - at,
{
    if at < bytes.len() {
        if at + 1 < bytes.len() {
            lemma_string_end(bytes, at + 2, quote);
        }
        lemma_string_end(bytes, at + 1, quote);
    }
}

/// What ends stands behind its start.
pub proof fn lemma_line_end(bytes: Seq<u8>, at: int)
    requires
        at <= bytes.len(),
    ensures
        at <= line_end(bytes, at) <= bytes.len(),
    decreases bytes.len() - at,
{
    if at < bytes.len() {
        lemma_line_end(bytes, at + 1);
    }
}

/// What ends stands behind its start.
pub proof fn lemma_comment_end(bytes: Seq<u8>, at: int, star: bool)
    requires
        at <= bytes.len(),
    ensures
        comment_end(bytes, at, star) matches Some(q) ==> at <= q <= bytes.len(),
    decreases bytes.len() - at,
{
    let next = if star {
        at + 1
    } else {
        at
    };
    if next < bytes.len() {
        lemma_comment_end(bytes, next + 1, bytes[next] == 42);
    }
}

/// What ends stands behind its start.
pub proof fn lemma_word_end(bytes: Seq<u8>, at: int)
    requires
        at <= bytes.len(),
    ensures
        at <= word_end(bytes, at) <= bytes.len(),
    decreases bytes.len() - at,
{
    if at < bytes.len() {
        lemma_word_end(bytes, at + 1);
    }
}

/// The rest of a list from `at` on is within the limits, where `depth` arrays and dictionaries are
/// open. Where the list is broken it is not read on.
pub open spec fn ascii_within_limits(bytes: Seq<u8>, at: int, depth: nat) -> bool
    decreases bytes.len() - at,
{
    if at >= bytes.len() {
        true
    } else {
        let b = bytes[at];
        proof {
            lemma_string_end(bytes, at + 1, b);
            lemma_line_end(bytes, at + 1);
            lemma_comment_end(bytes, at + 1, false);
            lemma_word_end(bytes, at + 1);
        }
        if b == 40 || b == 123 {
            depth < MAX_PLIST_DEPTH && ascii_within_limits(bytes, at + 1, depth + 1)
        } else if b == 41 || b == 125 {
            depth == 0 || ascii_within_limits(bytes, at + 1, (depth - 1) as nat)
        } else if b == 39 || b == 34 {
            match string_end(bytes, at + 1, b) {
                Some(q) => ascii_within_limits(bytes, q, depth),
                None => true,
            }
        } else if b == 47 {
            if at + 1 >= bytes.len() {
                true
            } else if bytes[at + 1] == 47 {
                ascii_within_limits(bytes, line_end(bytes, at + 1), depth)
            } else if bytes[at + 1] == 42 {
                match comment_end(bytes, at + 1, false) {
                    Some(q) => ascii_within_limits(bytes, q, depth),
                    None => true,
                }
            } else {
                ascii_within_limits(bytes, word_end(bytes, at + 1), depth)
            }
        } else if b == 44 || b == 59 || b == 61 || b == 32 || b == 13 || b == 9 || b == 10 {
            ascii_within_limits(bytes, at + 1, depth)
        } else {
            ascii_within_limits(bytes, word_end(bytes, at + 1), depth)
        }
    }
}

fn find_string_end(bytes: &[u8], start: usize, quote: u8) -> (r: Option<usize>)
    requires
        start <= bytes@.len(),
    ensures
        match r {
            Some(q) => string_end(bytes@, start as int, quote) == Some(q as int),
            None => string_end(bytes@, start as int, quote) is None,
        },
{
    let total: usize = bytes.len();
    let mut at: usize = start;
    while at < total
        invariant
            at <= total == bytes@.len(),
            string_end(bytes@, start as int, quote) == string_end(bytes@, at as int, quote),
        decreases total - at,
    {
        let b: u8 = bytes[at];
        if b == quote {
            return Some(at + 1);
        }
        if b == 92 {
            if total - at < 2 {
                return None;
            }
            at = at + 2;
        } else {
            at = at + 1;
        }
    }
    None
}

fn find_line_end(bytes: &[u8], start: usize) -> (r: usize)
    requires
        start <= bytes@.len(),
    ensures
        r == line_end(bytes@, start as int),
{
    let total: usize = bytes.len();
    let mut at: usize = start;
    while at < total
        invariant_except_break
            at <= total == bytes@.len(),
            line_end(bytes@, start as int) == line_end(bytes@, at as int),
        ensures
            at == line_end(bytes@, start as int),
        decreases total - at,
    {
        if bytes[at] == 10 {
            break;
        }
        at = at + 1;
    }
    at
}

fn find_comment_end(bytes: &[u8], start: usize) -> (r: Option<usize>)
    requires
        start <= bytes@.len(),
    ensures
        match r {
            Some(q) => comment_end(bytes@, start as int, false) == Some(q as int),
            None => comment_end(bytes@, start as int, false) is None,
        },
{
    let total: usize = bytes.len();
    let mut at: usize = start;
    let mut star: bool = false;
    while at < total
        invariant
            at <= total == bytes@.len(),
            comment_end(bytes@, start as int, false) == comment_end(bytes@, at as int, star),
        decreases total - at,
    {
        if star {
            if bytes[at] == 47 {
                return Some(at + 1);
            }
            at = at + 1;
            if at >= total {
                return None;
            }
        }
        star = bytes[at] == 42;
        at = at + 1;
    }
    if star {
        Some(at)
    } else {
        None
    }
}

fn find_word_end(bytes: &[u8], start: usize) -> (r: usize)
    requires
        start <= bytes@.len(),
    ensures
        r == word_end(bytes@, start as int),
{
    let total: usize = bytes.len();
    let mut at: usize = start;
    while at < total
        invariant_except_break
            at <= total == bytes@.len(),
            word_end(bytes@, start as int) == word_end(bytes@, at as int),
        ensures
            at == word_end(bytes@, start as int),
        decreases total - at,
    {
        let b: u8 = bytes[at];
        if b == 32 || b == 41 || b == 13 || b == 9 || b == 59 || b == 44 {
            break;
        }
        at = at + 1;
    }
    at
}

/// Whether a list in the old text form is within the limits.
pub fn ascii_fits(bytes: &[u8]) -> (r: bool)
    ensures
        r == ascii_within_limits(bytes@, 0, 0),
{
    let total: usize = bytes.len();
    let mut at: usize = 0;
    let mut depth: u64 = 0;
    while at < total
        invariant
            at <= total == bytes@.len(),
            depth <= MAX_PLIST_DEPTH,
            ascii_within_limits(bytes@, 0, 0) == ascii_within_limits(
                bytes@,
                at as int,
                depth as nat,
            ),
        decreases total - at,
    {
        let b: u8 = bytes[at];
        proof {
            lemma_string_end(bytes@, at + 1, b);
            lemma_line_end(bytes@, at + 1);
            lemma_comment_end(bytes@, at + 1, false);
            lemma_word_end(bytes@, at + 1);
        }
        if b == 40 || b == 123 {
            if depth >= MAX_PLIST_DEPTH {
                return false;
            }
            depth = depth + 1;
            at = at + 1;
        } else if b == 41 || b == 125 {
            if depth == 0 {
                return true;
            }
            depth = depth - 1;
            at = at + 1;
        } else if b == 39 || b == 34 {
            match find_string_end(bytes, at + 1, b) {
                Some(q) => {
                    at = q;
                },
                None => {
                    return true;
                },
            }
        } else if b == 47 {
            if total - at < 2 {
                return true;
            }
            if bytes[at + 1] == 47 {
                at = find_line_end(bytes, at + 1);
            } else if bytes[at + 1] == 42 {
                match find_comment_end(bytes, at + 1) {
                    Some(q) => {
                        at = q;
                    },
                    None => {
                        return true;
                    },
                }
            } else {
                at = find_word_end(bytes, at + 1);
            }
        } else if b == 44 || b == 59 || b == 61 || b == 32 || b == 13 || b == 9 || b == 10 {
            at = at + 1;
        } else {
            at = find_word_end(bytes, at + 1);
        }
    }
    true
}

/// How many brackets open an array or a dictionary from `at` on.
pub open spec fn openings(bytes: Seq<u8>, at: int) -> nat
    decreases bytes.len() - at,
{
    if at >= bytes.len() {
        0
    } else {
        openings(bytes, at + 1) + if bytes[at] == 40 || bytes[at] == 123 {
            1nat
        } else {
            0nat
        }
    }
}

proof fn lemma_fewer_openings(bytes: Seq<u8>, at: int, to: int)
    requires
        at <= to,
    ensures
        openings(bytes, to) <= openings(bytes, at),
    decreases to - at,
{
    if at < to {
        lemma_fewer_openings(bytes, at + 1, to);
    }
}

proof fn lemma_few_openings(bytes: Seq<u8>, at: int, depth: nat)
    requires
        depth + openings(bytes, at) <= 1000,
    ensures
        ascii_within_limits(bytes, at, depth),
    decreases bytes.len() - at,
{
    if at < bytes.len() {
        let b = bytes[at];
        lemma_string_end(bytes, at + 1, b);
        lemma_line_end(bytes, at + 1);
        lemma_comment_end(bytes, at + 1, false);
        lemma_word_end(bytes, at + 1);
        if b == 40 || b == 123 {
            lemma_few_openings(bytes, at + 1, depth + 1);
        } else if b == 41 || b == 125 {
            if depth > 0 {
                lemma_few_openings(bytes, at + 1, (depth - 1) as nat);
            }
        } else {
            let next = if b == 39 || b == 34 {
                match string_end(bytes, at + 1, b) {
                    Some(q) => q,
                    None => bytes.len() as int,
                }
            } else if b == 47 && at + 1 >= bytes.len() {
                bytes.len() as int
            } else if b == 47 && bytes[at + 1] == 47 {
                line_end(bytes, at + 1)
            } else if b == 47 && bytes[at + 1] == 42 {
                match comment_end(bytes, at + 1, false) {
                    Some(q) => q,
                    None => bytes.len() as int,
                }
            } else if b != 47 && (b == 44 || b == 59 || b == 61 || b == 32 || b == 13 || b == 9 || b
                == 10) {
                at + 1
            } else {
                word_end(bytes, at + 1)
            };
            lemma_fewer_openings(bytes, at, next);
            lemma_few_openings(bytes, next, depth);
        }
    }
}

/// A list with at most a thousand opening brackets is read, whatever else it holds.
pub proof fn law_few_brackets_are_read(bytes: Seq<u8>)
    requires
        openings(bytes, 0) <= 1000,
    ensures
        ascii_within_limits(bytes, 0, 0),
{
    lemma_few_openings(bytes, 0, 0);
}

/// A list that starts with more than a thousand opening brackets is refused, whatever follows.
pub proof fn law_many_brackets_are_refused(bytes: Seq<u8>, at: int, depth: nat)
    requires
        0 <= at,
        depth <= 1000,
        at + (1001 - depth) <= bytes.len(),
        forall|i: int|
            at <= i < at + (1001 - depth) ==> #[trigger] bytes[i] == 40 || bytes[i] == 123,
    ensures
        !ascii_within_limits(bytes, at, depth),
    decreases 1001 - depth,
{
    if depth < 1000 {
        law_many_brackets_are_refused(bytes, at + 1, depth + 1);
    }
    assert(bytes[at] == 40 || bytes[at] == 123);
}

/// A closing bracket takes an opening one back, so that lists side by side are not nested.
pub proof fn law_closed_brackets_do_not_count(bytes: Seq<u8>, at: int, depth: nat)
    requires
        0 <= at,
        at + 1 < bytes.len(),
        bytes[at] == 40 || bytes[at] == 123,
        bytes[at + 1] == 41 || bytes[at + 1] == 125,
    ensures
        depth < 1000 ==> ascii_within_limits(bytes, at, depth) == ascii_within_limits(
            bytes,
            at + 2,
            depth,
        ),
        depth >= 1000 ==> !ascii_within_limits(bytes, at, depth),
{
    reveal_with_fuel(ascii_within_limits, 3);
}

/// A closing bracket with nothing open ends the list.
pub proof fn law_closing_bracket_ends_the_list(bytes: Seq<u8>, at: int)
    requires
        0 <= at < bytes.len(),
        bytes[at] == 41 || bytes[at] == 125,
    ensures
        ascii_within_limits(bytes, at, 0),
{
}

/// A text without quotation marks and backslashes ends behind its closing quotation mark.
pub proof fn law_quoted_text(before: Seq<u8>, text: Seq<u8>, quote: u8, after: Seq<u8>)
    requires
        !text.contains(quote),
        !text.contains(92),
    ensures
        string_end(before + text.push(quote) + after, before.len() as int, quote) == Some(
            (before.len() + text.len() + 1) as int,
        ),
    decreases text.len(),
{
    let bytes = before + text.push(quote) + after;
    if text.len() > 0 {
        let rest = text.drop_first();
        assert(text.contains(text[0]));
        assert(bytes[before.len() as int] == text[0]);
        assert(bytes =~= before.push(text[0]) + rest.push(quote) + after);
        assert forall|i: int| 0 <= i < rest.len() implies rest[i] != quote && rest[i] != 92 by {
            assert(rest[i] == text[i + 1]);
            assert(text.contains(text[i + 1]));
        }
        law_quoted_text(before.push(text[0]), rest, quote, after);
    } else {
        assert(bytes[before.len() as int] == quote);
    }
}

/// A backslash takes the next character with it, a quotation mark too.
pub proof fn law_backslash(bytes: Seq<u8>, at: int, quote: u8)
    requires
        0 <= at,
        at + 1 < bytes.len(),
        bytes[at] == 92,
        quote != 92,
    ensures
        string_end(bytes, at, quote) == string_end(bytes, at + 2, quote),
{
}

/// A text without an end stays open.
pub proof fn law_open_text(bytes: Seq<u8>, at: int, quote: u8)
    requires
        0 <= at,
        forall|i: int| at <= i < bytes.len() ==> #[trigger] bytes[i] != quote,
    ensures
        string_end(bytes, at, quote) is None,
    decreases bytes.len() - at,
{
    if at < bytes.len() {
        law_open_text(bytes, at + 1, quote);
        if at + 1 < bytes.len() {
            law_open_text(bytes, at + 2, quote);
        }
    }
}

/// A line ends at the first line feed, or with the list.
pub proof fn law_line_end(bytes: Seq<u8>, at: int)
    requires
        0 <= at <= bytes.len(),
    ensures
        at <= line_end(bytes, at) <= bytes.len(),
        forall|i: int| at <= i < line_end(bytes, at) ==> #[trigger] bytes[i] != 10,
        line_end(bytes, at) < bytes.len() ==> bytes[line_end(bytes, at)] == 10,
    decreases bytes.len() - at,
{
    if at < bytes.len() && bytes[at] != 10 {
        law_line_end(bytes, at + 1);
    }
}

/// A text without quotation marks ends at the first blank, tab, carriage return, closing round
/// bracket, comma or semicolon, or with the list.
pub proof fn law_word_end(bytes: Seq<u8>, at: int)
    requires
        0 <= at <= bytes.len(),
    ensures
        at <= word_end(bytes, at) <= bytes.len(),
        forall|i: int|
            at <= i < word_end(bytes, at) ==> !seq![9u8, 13u8, 32u8, 41u8, 44u8, 59u8].contains(
                #[trigger] bytes[i],
            ),
        word_end(bytes, at) < bytes.len() ==> seq![9u8, 13u8, 32u8, 41u8, 44u8, 59u8].contains(
            bytes[word_end(bytes, at)],
        ),
    decreases bytes.len() - at,
{
    if at < bytes.len() {
        let marks = seq![9u8, 13u8, 32u8, 41u8, 44u8, 59u8];
        assert(marks[0] == 9 && marks[1] == 13 && marks[2] == 32);
        assert(marks[3] == 41 && marks[4] == 44 && marks[5] == 59);
        assert(ends_word(bytes[at]) ==> marks.contains(bytes[at]));
        if !ends_word(bytes[at]) {
            law_word_end(bytes, at + 1);
        }
    }
}

/// A comment without stars ends behind its closing mark.
pub proof fn law_plain_comment(before: Seq<u8>, text: Seq<u8>, after: Seq<u8>)
    requires
        !text.contains(42),
    ensures
        comment_end(before + text + seq![42u8, 47u8] + after, before.len() as int, false) == Some(
            (before.len() + text.len() + 2) as int,
        ),
    decreases text.len(),
{
    let bytes = before + text + seq![42u8, 47u8] + after;
    let at = before.len() as int;
    if text.len() > 0 {
        let rest = text.drop_first();
        assert(text.contains(text[0]));
        assert(bytes[at] == text[0]);
        assert(bytes =~= before.push(text[0]) + rest + seq![42u8, 47u8] + after);
        assert forall|i: int| 0 <= i < rest.len() implies rest[i] != 42 by {
            assert(rest[i] == text[i + 1]);
            assert(text.contains(text[i + 1]));
        }
        law_plain_comment(before.push(text[0]), rest, after);
    } else {
        assert(bytes[at] == 42);
        assert(bytes[at + 1] == 47);
        reveal_with_fuel(comment_end, 2);
    }
}

/// Texts, comments, separators and white space change nothing in how deeply a list is nested.
pub proof fn law_other_signs_do_not_count(bytes: Seq<u8>, at: int, depth: nat)
    requires
        0 <= at < bytes.len(),
    ensures
        (bytes[at] == 34 || bytes[at] == 39) && string_end(bytes, at + 1, bytes[at]) is Some
            ==> ascii_within_limits(bytes, at, depth) == ascii_within_limits(
            bytes,
            string_end(bytes, at + 1, bytes[at])->0,
            depth,
        ),
        bytes[at] == 47 && at + 1 < bytes.len() && bytes[at + 1] == 47 ==> ascii_within_limits(
            bytes,
            at,
            depth,
        ) == ascii_within_limits(bytes, line_end(bytes, at + 1), depth),
        bytes[at] == 47 && at + 1 < bytes.len() && bytes[at + 1] == 42 && comment_end(
            bytes,
            at + 1,
            false,
        ) is Some ==> ascii_within_limits(bytes, at, depth) == ascii_within_limits(
            bytes,
            comment_end(bytes, at + 1, false)->0,
            depth,
        ),
        seq![9u8, 10u8, 13u8, 32u8, 44u8, 59u8, 61u8].contains(bytes[at]) ==> ascii_within_limits(
            bytes,
            at,
            depth,
        ) == ascii_within_limits(bytes, at + 1, depth),
        !seq![
            9u8,
            10u8,
            13u8,
            32u8,
            34u8,
            39u8,
            40u8,
            41u8,
            44u8,
            47u8,
            59u8,
            61u8,
            123u8,
            125u8,
        ].contains(bytes[at]) ==> ascii_within_limits(bytes, at, depth) == ascii_within_limits(
            bytes,
            word_end(bytes, at + 1),
            depth,
        ),
{
    let b = bytes[at];
    lemma_string_end(bytes, at + 1, b);
    lemma_line_end(bytes, at + 1);
    lemma_comment_end(bytes, at + 1, false);
    lemma_word_end(bytes, at + 1);
    let all = seq![
        9u8,
        10u8,
        13u8,
        32u8,
        34u8,
        39u8,
        40u8,
        41u8,
        44u8,
        47u8,
        59u8,
        61u8,
        123u8,
        125u8,
    ];
    assert(all[0] == 9 && all[1] == 10 && all[2] == 13 && all[3] == 32 && all[4] == 34);
    assert(all[5] == 39 && all[6] == 40 && all[7] == 41 && all[8] == 44 && all[9] == 47);
    assert(all[10] == 59 && all[11] == 61 && all[12] == 123 && all[13] == 125);
}

/// A slash that starts no comment starts a text, and one at the end of the list is nothing.
pub proof fn law_single_slash(bytes: Seq<u8>, at: int, depth: nat)
    requires
        0 <= at < bytes.len(),
        bytes[at] == 47,
    ensures
        at + 1 == bytes.len() ==> ascii_within_limits(bytes, at, depth),
        at + 1 < bytes.len() && bytes[at + 1] != 47 && bytes[at + 1] != 42 ==> ascii_within_limits(
            bytes,
            at,
            depth,
        ) == ascii_within_limits(bytes, word_end(bytes, at + 1), depth),
        ascii_within_limits(bytes, bytes.len() as int, depth),
{
    lemma_word_end(bytes, at + 1);
}

} // verus!
