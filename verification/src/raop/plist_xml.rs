//! XML property lists: where their tags, comments and other markup end, how deeply their arrays
//! and dictionaries are nested, and what their dates say.
use crate::raop::plist_limits::MAX_PLIST_DEPTH;
use crate::wire::bytes_eq;
use vstd::prelude::*;

verus! {

/// Bytes that are read at a time.
pub const READ_BUFFER_LEN: usize = 8192;

/// The first place from `at` on that holds a byte.
pub open spec fn next_byte(bytes: Seq<u8>, at: int, b: u8) -> Option<int>
    decreases bytes.len() - at,
{
    if at >= bytes.len() {
        None
    } else if bytes[at] == b {
        Some(at)
    } else {
        next_byte(bytes, at + 1, b)
    }
}

/// The first closing bracket from `at` on with a mark in front of it, or two of them.
pub open spec fn marked_end(bytes: Seq<u8>, at: int, mark: u8, twice: bool) -> Option<int>
    decreases bytes.len() - at,
{
    if at >= bytes.len() {
        None
    } else if bytes[at] == 62 && bytes[at - 1] == mark && (twice ==> bytes[at - 2] == mark) {
        Some(at)
    } else {
        marked_end(bytes, at + 1, mark, twice)
    }
}

/// The first closing bracket from `at` on that does not stand in quotation marks. `quote` is the
/// mark that is open, or zero.
pub open spec fn element_end(bytes: Seq<u8>, at: int, quote: u8) -> Option<int>
    decreases bytes.len() - at,
{
    if at >= bytes.len() {
        None
    } else if quote != 0 {
        element_end(
            bytes,
            at + 1,
            if bytes[at] == quote {
                0
            } else {
                quote
            },
        )
    } else if bytes[at] == 62 {
        Some(at)
    } else if bytes[at] == 34 || bytes[at] == 39 {
        element_end(bytes, at + 1, bytes[at])
    } else {
        element_end(bytes, at + 1, 0)
    }
}

fn find_byte(bytes: &[u8], start: usize, b: u8) -> (r: Option<usize>)
    requires
        start <= bytes@.len(),
    ensures
        match r {
            Some(q) => next_byte(bytes@, start as int, b) == Some(q as int) && start <= q
                < bytes@.len(),
            None => next_byte(bytes@, start as int, b) is None,
        },
{
    let total: usize = bytes.len();
    let mut at: usize = start;
    while at < total
        invariant
            start <= at <= total == bytes@.len(),
            next_byte(bytes@, start as int, b) == next_byte(bytes@, at as int, b),
        decreases total - at,
    {
        if bytes[at] == b {
            return Some(at);
        }
        at = at + 1;
    }
    None
}

fn find_marked_end(bytes: &[u8], start: usize, mark: u8, twice: bool) -> (r: Option<usize>)
    requires
        2 <= start,
    ensures
        match r {
            Some(q) => marked_end(bytes@, start as int, mark, twice) == Some(q as int) && start <= q
                < bytes@.len(),
            None => marked_end(bytes@, start as int, mark, twice) is None,
        },
{
    let total: usize = bytes.len();
    let mut at: usize = start;
    while at < total
        invariant
            2 <= start <= at,
            total == bytes@.len(),
            marked_end(bytes@, start as int, mark, twice) == marked_end(
                bytes@,
                at as int,
                mark,
                twice,
            ),
        decreases total - at,
    {
        if bytes[at] == 62 && bytes[at - 1] == mark && (!twice || bytes[at - 2] == mark) {
            return Some(at);
        }
        at = at + 1;
    }
    None
}

fn find_element_end(bytes: &[u8], start: usize) -> (r: Option<usize>)
    requires
        start <= bytes@.len(),
    ensures
        match r {
            Some(q) => element_end(bytes@, start as int, 0) == Some(q as int) && start <= q
                < bytes@.len() && bytes@[q as int] == 62,
            None => element_end(bytes@, start as int, 0) is None,
        },
{
    let total: usize = bytes.len();
    let mut at: usize = start;
    let mut quote: u8 = 0;
    while at < total
        invariant
            start <= at <= total == bytes@.len(),
            element_end(bytes@, start as int, 0) == element_end(bytes@, at as int, quote),
        decreases total - at,
    {
        let b: u8 = bytes[at];
        if quote != 0 {
            if b == quote {
                quote = 0;
            }
        } else if b == 62 {
            return Some(at);
        } else if b == 34 || b == 39 {
            quote = b;
        }
        at = at + 1;
    }
    None
}

/// Where a piece of markup ends: at a closing bracket, nowhere, or at a place that depends on how
/// the list is cut into buffers.
pub enum MarkupEnd {
    /// At this bracket.
    At(int),
    /// Nowhere.
    Unclosed,
    /// It depends.
    Unclear,
}

/// The bytes from `at` on start with a word.
pub open spec fn has_word(bytes: Seq<u8>, at: int, word: Seq<u8>) -> bool {
    at + word.len() <= bytes.len() && bytes.subrange(at, at + word.len()) == word
}

/// `!--`.
pub open spec fn comment_word() -> Seq<u8> {
    seq![33u8, 45u8, 45u8]
}

/// `!ENTITY`.
pub open spec fn entity_word() -> Seq<u8> {
    seq![33u8, 69u8, 78u8, 84u8, 73u8, 84u8, 89u8]
}

/// `!ATTLIST`.
pub open spec fn attlist_word() -> Seq<u8> {
    seq![33u8, 65u8, 84u8, 84u8, 76u8, 73u8, 83u8, 84u8]
}

/// `!NOTATION`.
pub open spec fn notation_word() -> Seq<u8> {
    seq![33u8, 78u8, 79u8, 84u8, 65u8, 84u8, 73u8, 79u8, 78u8]
}

/// A buffer ends behind a hyphen between two places.
pub open spec fn hyphen_at_cut(bytes: Seq<u8>, from: int, to: int) -> bool {
    exists|i: int|
        from <= i < to && (i + 1) % (READ_BUFFER_LEN as int) == 0 && #[trigger] bytes[i] == 45
}

/// Where the markup behind the bracket at `at - 1` ends, inside a document type.
pub open spec fn declaration_end(bytes: Seq<u8>, at: int) -> MarkupEnd {
    if has_word(bytes, at, comment_word()) {
        let end = marked_end(bytes, at + 5, 45, true);
        let to = match end {
            Some(q) => q,
            None => bytes.len() as int,
        };
        if hyphen_at_cut(bytes, at + 3, to) {
            MarkupEnd::Unclear
        } else {
            end_of(end)
        }
    } else if at < bytes.len() && bytes[at] == 63 {
        end_of(marked_end(bytes, at + 2, 63, false))
    } else if has_word(bytes, at, entity_word()) || has_word(bytes, at, attlist_word()) || has_word(
        bytes,
        at,
        notation_word(),
    ) {
        end_of(element_end(bytes, at, 0))
    } else {
        end_of(next_byte(bytes, at, 62))
    }
}

/// An end that is found or not.
pub open spec fn end_of(found: Option<int>) -> MarkupEnd {
    match found {
        Some(q) => MarkupEnd::At(q),
        None => MarkupEnd::Unclosed,
    }
}

/// What is found stands where it was looked for.
pub proof fn lemma_next_byte(bytes: Seq<u8>, at: int, b: u8)
    ensures
        next_byte(bytes, at, b) matches Some(q) ==> at <= q < bytes.len(),
    decreases bytes.len() - at,
{
    if at < bytes.len() && bytes[at] != b {
        lemma_next_byte(bytes, at + 1, b);
    }
}

/// What is found stands where it was looked for.
pub proof fn lemma_marked_end(bytes: Seq<u8>, at: int, mark: u8, twice: bool)
    ensures
        marked_end(bytes, at, mark, twice) matches Some(q) ==> at <= q < bytes.len(),
    decreases bytes.len() - at,
{
    if at < bytes.len() {
        lemma_marked_end(bytes, at + 1, mark, twice);
    }
}

/// What is found stands where it was looked for.
pub proof fn lemma_element_end(bytes: Seq<u8>, at: int, quote: u8)
    ensures
        element_end(bytes, at, quote) matches Some(q) ==> at <= q < bytes.len(),
    decreases bytes.len() - at,
{
    if at < bytes.len() {
        lemma_element_end(bytes, at + 1, 0);
        lemma_element_end(bytes, at + 1, quote);
        lemma_element_end(bytes, at + 1, bytes[at]);
    }
}

/// Markup inside a document type ends behind its start.
pub proof fn lemma_declaration_end(bytes: Seq<u8>, at: int)
    ensures
        declaration_end(bytes, at) matches MarkupEnd::At(q) ==> at <= q < bytes.len(),
{
    lemma_marked_end(bytes, at + 5, 45, true);
    lemma_marked_end(bytes, at + 2, 63, false);
    lemma_element_end(bytes, at, 0);
    lemma_next_byte(bytes, at, 62);
}

/// Where a document type ends, from a place between its square brackets on.
pub open spec fn subset_end(bytes: Seq<u8>, at: int) -> MarkupEnd
    decreases bytes.len() - at,
{
    if at >= bytes.len() {
        MarkupEnd::Unclosed
    } else if bytes[at] == 93 {
        end_of(next_byte(bytes, at + 1, 62))
    } else if bytes[at] == 60 {
        proof {
            lemma_declaration_end(bytes, at + 1);
        }
        match declaration_end(bytes, at + 1) {
            MarkupEnd::At(q) => subset_end(bytes, q + 1),
            other => other,
        }
    } else {
        subset_end(bytes, at + 1)
    }
}

/// Where a document type ends, from a place in front of its square brackets on. `quote` is the
/// quotation mark that is open, or zero.
pub open spec fn doctype_end(bytes: Seq<u8>, at: int, quote: u8) -> MarkupEnd
    decreases bytes.len() - at,
{
    if at >= bytes.len() {
        MarkupEnd::Unclosed
    } else if quote != 0 {
        doctype_end(
            bytes,
            at + 1,
            if bytes[at] == quote {
                0
            } else {
                quote
            },
        )
    } else if bytes[at] == 62 {
        MarkupEnd::At(at)
    } else if bytes[at] == 91 {
        subset_end(bytes, at + 1)
    } else if bytes[at] == 34 || bytes[at] == 39 {
        doctype_end(bytes, at + 1, bytes[at])
    } else {
        doctype_end(bytes, at + 1, 0)
    }
}

/// `MarkupEnd` with a place in memory.
enum FoundEnd {
    At(usize),
    Unclosed,
    Unclear,
}

impl FoundEnd {
    spec fn as_end(self) -> MarkupEnd {
        match self {
            FoundEnd::At(q) => MarkupEnd::At(q as int),
            FoundEnd::Unclosed => MarkupEnd::Unclosed,
            FoundEnd::Unclear => MarkupEnd::Unclear,
        }
    }
}

fn found(place: Option<usize>) -> (r: FoundEnd)
    ensures
        r.as_end() == end_of(
            match place {
                Some(q) => Some(q as int),
                None => None,
            },
        ),
{
    match place {
        Some(q) => FoundEnd::At(q),
        None => FoundEnd::Unclosed,
    }
}

fn starts_with_word(bytes: &[u8], at: usize, word: &[u8]) -> (r: bool)
    requires
        at <= bytes@.len(),
    ensures
        r == has_word(bytes@, at as int, word@),
{
    let n: usize = word.len();
    if bytes.len() - at < n {
        return false;
    }
    bytes_eq(&bytes[at..at + n], word)
}

fn finds_hyphen_at_cut(bytes: &[u8], from: usize, to: usize) -> (r: bool)
    requires
        to <= bytes@.len(),
    ensures
        r == hyphen_at_cut(bytes@, from as int, to as int),
{
    let mut i: usize = from;
    while i < to
        invariant
            from <= i,
            to <= bytes@.len(),
            forall|k: int|
                from <= k < i && k < to && (k + 1) % (READ_BUFFER_LEN as int) == 0
                    ==> #[trigger] bytes@[k] != 45,
        decreases to - i,
    {
        if i % READ_BUFFER_LEN == READ_BUFFER_LEN - 1 && bytes[i] == 45 {
            assert((i + 1) % (READ_BUFFER_LEN as int) == 0);
            return true;
        }
        assert((i + 1) % (READ_BUFFER_LEN as int) == 0 ==> bytes@[i as int] != 45);
        i = i + 1;
    }
    false
}

fn find_declaration_end(bytes: &[u8], at: usize) -> (r: FoundEnd)
    requires
        0 < at <= bytes@.len(),
    ensures
        r.as_end() == declaration_end(bytes@, at as int),
        r matches FoundEnd::At(q) ==> at <= q < bytes@.len(),
{
    let total: usize = bytes.len();
    let comment: [u8; 3] = [33, 45, 45];
    let entity: [u8; 7] = [33, 69, 78, 84, 73, 84, 89];
    let attlist: [u8; 8] = [33, 65, 84, 84, 76, 73, 83, 84];
    let notation: [u8; 9] = [33, 78, 79, 84, 65, 84, 73, 79, 78];
    assert(comment@ =~= comment_word());
    assert(entity@ =~= entity_word());
    assert(attlist@ =~= attlist_word());
    assert(notation@ =~= notation_word());
    if starts_with_word(bytes, at, &comment) {
        let end: Option<usize> = if total - at <= 5 {
            None
        } else {
            find_marked_end(bytes, at + 5, 45, true)
        };
        let to: usize = match end {
            Some(q) => q,
            None => total,
        };
        if finds_hyphen_at_cut(bytes, at + 3, to) {
            FoundEnd::Unclear
        } else {
            found(end)
        }
    } else if at < total && bytes[at] == 63 {
        if total - at <= 2 {
            FoundEnd::Unclosed
        } else {
            found(find_marked_end(bytes, at + 2, 63, false))
        }
    } else if starts_with_word(bytes, at, &entity) || starts_with_word(bytes, at, &attlist)
        || starts_with_word(bytes, at, &notation) {
        found(find_element_end(bytes, at))
    } else {
        found(find_byte(bytes, at, 62))
    }
}

fn find_subset_end(bytes: &[u8], start: usize) -> (r: FoundEnd)
    requires
        start <= bytes@.len(),
    ensures
        r.as_end() == subset_end(bytes@, start as int),
        r matches FoundEnd::At(q) ==> start <= q < bytes@.len(),
{
    let total: usize = bytes.len();
    let mut at: usize = start;
    while at < total
        invariant
            start <= at <= total == bytes@.len(),
            subset_end(bytes@, start as int) == subset_end(bytes@, at as int),
        decreases total - at,
    {
        let b: u8 = bytes[at];
        if b == 93 {
            return found(find_byte(bytes, at + 1, 62));
        }
        if b == 60 {
            match find_declaration_end(bytes, at + 1) {
                FoundEnd::At(q) => {
                    at = q + 1;
                },
                other => {
                    return other;
                },
            }
        } else {
            at = at + 1;
        }
    }
    FoundEnd::Unclosed
}

fn find_doctype_end(bytes: &[u8], start: usize) -> (r: FoundEnd)
    requires
        start <= bytes@.len(),
    ensures
        r.as_end() == doctype_end(bytes@, start as int, 0),
        r matches FoundEnd::At(q) ==> start <= q < bytes@.len(),
{
    let total: usize = bytes.len();
    let mut at: usize = start;
    let mut quote: u8 = 0;
    while at < total
        invariant
            start <= at <= total == bytes@.len(),
            doctype_end(bytes@, start as int, 0) == doctype_end(bytes@, at as int, quote),
        decreases total - at,
    {
        let b: u8 = bytes[at];
        if quote != 0 {
            if b == quote {
                quote = 0;
            }
        } else if b == 62 {
            return FoundEnd::At(at);
        } else if b == 91 {
            return find_subset_end(bytes, at + 1);
        } else if b == 34 || b == 39 {
            quote = b;
        }
        at = at + 1;
    }
    FoundEnd::Unclosed
}

/// What starts with an opening bracket.
pub enum Markup {
    /// It has no end, or no form that is known.
    Broken,
    /// Its end depends on how the list is cut into buffers.
    Unclear,
    /// A comment, character data, an instruction or a document type, up to this place.
    Skipped(int),
    /// An opening tag up to this place, with its name, and whether it is closed at once.
    Opening(int, Seq<u8>, bool),
    /// A closing tag up to this place, with its name.
    Closing(int, Seq<u8>),
}

/// White space in markup.
pub open spec fn is_blank(b: u8) -> bool {
    b == 32 || b == 9 || b == 10 || b == 13
}

/// Where a name that starts at `at` ends, before `to`.
pub open spec fn name_end(bytes: Seq<u8>, at: int, to: int) -> int
    decreases to - at,
{
    if at >= to || is_blank(bytes[at]) {
        at
    } else {
        name_end(bytes, at + 1, to)
    }
}

/// The name that starts at `at`, before `to`.
pub open spec fn name_at(bytes: Seq<u8>, at: int, to: int) -> Seq<u8> {
    bytes.subrange(at, name_end(bytes, at, to))
}

/// Markup that ends behind a bracket.
pub open spec fn skipped(end: MarkupEnd) -> Markup {
    match end {
        MarkupEnd::At(q) => Markup::Skipped(q + 1),
        MarkupEnd::Unclosed => Markup::Broken,
        MarkupEnd::Unclear => Markup::Unclear,
    }
}

/// The markup whose opening bracket stands at `at`.
pub open spec fn markup_at(bytes: Seq<u8>, at: int) -> Markup {
    if at + 1 >= bytes.len() {
        Markup::Broken
    } else if bytes[at + 1] == 33 {
        if at + 2 >= bytes.len() {
            Markup::Broken
        } else if bytes[at + 2] == 45 {
            skipped(end_of(marked_end(bytes, at + 6, 45, true)))
        } else if bytes[at + 2] == 91 {
            skipped(end_of(marked_end(bytes, at + 5, 93, true)))
        } else if bytes[at + 2] == 68 || bytes[at + 2] == 100 {
            skipped(doctype_end(bytes, at + 2, 0))
        } else {
            Markup::Broken
        }
    } else if bytes[at + 1] == 63 {
        match marked_end(bytes, at + 2, 63, false) {
            Some(q) => if q > at + 2 {
                Markup::Skipped(q + 1)
            } else {
                Markup::Broken
            },
            None => Markup::Broken,
        }
    } else {
        match element_end(bytes, at + 1, 0) {
            None => Markup::Broken,
            Some(q) => if bytes[at + 1] == 47 {
                Markup::Closing(q + 1, name_at(bytes, at + 2, q))
            } else if q > at + 1 && bytes[q - 1] == 47 {
                Markup::Opening(q + 1, name_at(bytes, at + 1, q - 1), true)
            } else {
                Markup::Opening(q + 1, name_at(bytes, at + 1, q), false)
            },
        }
    }
}

/// A document type ends behind its start.
pub proof fn lemma_subset_end(bytes: Seq<u8>, at: int)
    ensures
        subset_end(bytes, at) matches MarkupEnd::At(q) ==> at <= q < bytes.len(),
    decreases bytes.len() - at,
{
    if at < bytes.len() {
        lemma_next_byte(bytes, at + 1, 62);
        lemma_declaration_end(bytes, at + 1);
        match declaration_end(bytes, at + 1) {
            MarkupEnd::At(q) => lemma_subset_end(bytes, q + 1),
            _ => {},
        }
        lemma_subset_end(bytes, at + 1);
    }
}

/// A document type ends behind its start.
pub proof fn lemma_doctype_end(bytes: Seq<u8>, at: int, quote: u8)
    ensures
        doctype_end(bytes, at, quote) matches MarkupEnd::At(q) ==> at <= q < bytes.len(),
    decreases bytes.len() - at,
{
    if at < bytes.len() {
        lemma_subset_end(bytes, at + 1);
        lemma_doctype_end(bytes, at + 1, 0);
        lemma_doctype_end(bytes, at + 1, quote);
        lemma_doctype_end(bytes, at + 1, bytes[at]);
    }
}

/// Markup ends behind its opening bracket.
pub proof fn lemma_markup_at(bytes: Seq<u8>, at: int)
    ensures
        match markup_at(bytes, at) {
            Markup::Skipped(next) => at < next <= bytes.len(),
            Markup::Opening(next, _, _) => at < next <= bytes.len(),
            Markup::Closing(next, _) => at < next <= bytes.len(),
            _ => true,
        },
{
    lemma_marked_end(bytes, at + 6, 45, true);
    lemma_marked_end(bytes, at + 5, 93, true);
    lemma_doctype_end(bytes, at + 2, 0);
    lemma_marked_end(bytes, at + 2, 63, false);
    lemma_element_end(bytes, at + 1, 0);
}

/// `Markup` with places in memory.
enum FoundMarkup<'a> {
    Broken,
    Unclear,
    Skipped(usize),
    Opening(usize, &'a [u8], bool),
    Closing(usize, &'a [u8]),
}

impl<'a> FoundMarkup<'a> {
    spec fn as_markup(self) -> Markup {
        match self {
            FoundMarkup::Broken => Markup::Broken,
            FoundMarkup::Unclear => Markup::Unclear,
            FoundMarkup::Skipped(next) => Markup::Skipped(next as int),
            FoundMarkup::Opening(next, name, empty) => Markup::Opening(next as int, name@, empty),
            FoundMarkup::Closing(next, name) => Markup::Closing(next as int, name@),
        }
    }
}

fn read_name(bytes: &[u8], start: usize, to: usize) -> (r: &[u8])
    requires
        start <= to <= bytes@.len(),
    ensures
        r@ == name_at(bytes@, start as int, to as int),
{
    let mut at: usize = start;
    while at < to
        invariant_except_break
            start <= at <= to <= bytes@.len(),
            name_end(bytes@, start as int, to as int) == name_end(bytes@, at as int, to as int),
        ensures
            start <= at <= to <= bytes@.len(),
            at == name_end(bytes@, start as int, to as int),
        decreases to - at,
    {
        let b: u8 = bytes[at];
        if b == 32 || b == 9 || b == 10 || b == 13 {
            break;
        }
        at = at + 1;
    }
    &bytes[start..at]
}

fn passed<'a>(end: FoundEnd) -> (r: FoundMarkup<'a>)
    requires
        end matches FoundEnd::At(q) ==> q < usize::MAX,
    ensures
        r.as_markup() == skipped(end.as_end()),
{
    match end {
        FoundEnd::At(q) => FoundMarkup::Skipped(q + 1),
        FoundEnd::Unclosed => FoundMarkup::Broken,
        FoundEnd::Unclear => FoundMarkup::Unclear,
    }
}

fn read_markup(bytes: &[u8], at: usize) -> (r: FoundMarkup<'_>)
    requires
        at < bytes@.len(),
    ensures
        r.as_markup() == markup_at(bytes@, at as int),
{
    let total: usize = bytes.len();
    if total - at < 2 {
        return FoundMarkup::Broken;
    }
    let b: u8 = bytes[at + 1];
    if b == 33 {
        if total - at < 3 {
            return FoundMarkup::Broken;
        }
        let c: u8 = bytes[at + 2];
        if c == 45 {
            if total - at <= 6 {
                return FoundMarkup::Broken;
            }
            return passed(found(find_marked_end(bytes, at + 6, 45, true)));
        }
        if c == 91 {
            if total - at <= 5 {
                return FoundMarkup::Broken;
            }
            return passed(found(find_marked_end(bytes, at + 5, 93, true)));
        }
        if c == 68 || c == 100 {
            return passed(find_doctype_end(bytes, at + 2));
        }
        return FoundMarkup::Broken;
    }
    if b == 63 {
        return match find_marked_end(bytes, at + 2, 63, false) {
            Some(q) => if q > at + 2 {
                FoundMarkup::Skipped(q + 1)
            } else {
                FoundMarkup::Broken
            },
            None => FoundMarkup::Broken,
        };
    }
    match find_element_end(bytes, at + 1) {
        None => FoundMarkup::Broken,
        Some(q) => if b == 47 {
            FoundMarkup::Closing(q + 1, read_name(bytes, at + 2, q))
        } else if q > at + 1 && bytes[q - 1] == 47 {
            FoundMarkup::Opening(q + 1, read_name(bytes, at + 1, q - 1), true)
        } else {
            FoundMarkup::Opening(q + 1, read_name(bytes, at + 1, q), false)
        },
    }
}

/// `array`.
pub open spec fn array_word() -> Seq<u8> {
    seq![97u8, 114u8, 114u8, 97u8, 121u8]
}

/// `dict`.
pub open spec fn dict_word() -> Seq<u8> {
    seq![100u8, 105u8, 99u8, 116u8]
}

/// `date`.
pub open spec fn date_word() -> Seq<u8> {
    seq![100u8, 97u8, 116u8, 101u8]
}

/// The name without its prefix.
pub open spec fn local_name(name: Seq<u8>) -> Seq<u8> {
    match next_byte(name, 0, 58) {
        Some(i) => name.skip(i + 1),
        None => name,
    }
}

/// The name is that of an array or a dictionary.
pub open spec fn names_container(name: Seq<u8>) -> bool {
    local_name(name) == array_word() || local_name(name) == dict_word()
}

/// What a digit counts, 128 where it is none.
pub open spec fn digit_value(b: u8, radix: nat) -> nat {
    let v = if 48 <= b <= 57 {
        (b - 48) as nat
    } else if 97 <= b <= 102 {
        (b - 87) as nat
    } else if 65 <= b <= 70 {
        (b - 55) as nat
    } else {
        128
    };
    if v < radix {
        v
    } else {
        128
    }
}

/// The number that digits spell, 128 where it is greater or there are other characters.
pub open spec fn small_number(digits: Seq<u8>, radix: nat) -> nat
    decreases digits.len(),
{
    if digits.len() == 0 {
        0
    } else {
        let head = small_number(digits.drop_last(), radix);
        let v = digit_value(digits.last(), radix);
        if head >= 128 || v >= 128 || head * radix + v >= 128 {
            128
        } else {
            head * radix + v
        }
    }
}

/// The character of a numeric reference: one byte, zero where it is no ASCII character.
pub open spec fn numeric_char(number: Seq<u8>) -> u8 {
    let n = if number.len() > 0 && number[0] == 120 {
        small_number(number.skip(1), 16)
    } else {
        small_number(number, 10)
    };
    if n < 128 {
        n as u8
    } else {
        0
    }
}

/// The name is one of `lt`, `gt`, `amp`, `apos`, `quot`.
pub open spec fn is_entity(name: Seq<u8>) -> bool {
    ||| name == seq![108u8, 116u8]
    ||| name == seq![103u8, 116u8]
    ||| name == seq![97u8, 109u8, 112u8]
    ||| name == seq![97u8, 112u8, 111u8, 115u8]
    ||| name == seq![113u8, 117u8, 111u8, 116u8]
}

/// What a reference adds to a text: the character that it numbers, a zero for a sign that is
/// written by its name, and nothing for a name that is not known.
pub open spec fn reference_text(name: Seq<u8>) -> Seq<u8> {
    if name.len() > 0 && name[0] == 35 {
        seq![numeric_char(name.skip(1))]
    } else if is_entity(name) {
        seq![0u8]
    } else {
        Seq::empty()
    }
}

/// Where a reference ends. It is broken off by another reference or a tag.
pub open spec fn reference_end(bytes: Seq<u8>, at: int) -> Option<int>
    decreases bytes.len() - at,
{
    if at >= bytes.len() || bytes[at] == 38 || bytes[at] == 60 {
        None
    } else if bytes[at] == 59 {
        Some(at)
    } else {
        reference_end(bytes, at + 1)
    }
}

/// A reference ends behind its start.
pub proof fn lemma_reference_end(bytes: Seq<u8>, at: int)
    ensures
        reference_end(bytes, at) matches Some(q) ==> at <= q < bytes.len(),
    decreases bytes.len() - at,
{
    if at < bytes.len() {
        lemma_reference_end(bytes, at + 1);
    }
}

/// The number that two digits spell.
pub open spec fn two_digits(text: Seq<u8>, at: int) -> int {
    (text[at] - 48) * 10 + (text[at + 1] - 48)
}

/// The minutes of a time `hh:mm`.
pub open spec fn minutes(text: Seq<u8>, at: int) -> int {
    two_digits(text, at) * 60 + two_digits(text, at + 3)
}

/// `9999-12-31`.
pub open spec fn last_day() -> Seq<u8> {
    seq![57u8, 57u8, 57u8, 57u8, 45u8, 49u8, 50u8, 45u8, 51u8, 49u8]
}

/// `0000-01-01`.
pub open spec fn first_day() -> Seq<u8> {
    seq![48u8, 48u8, 48u8, 48u8, 45u8, 48u8, 49u8, 45u8, 48u8, 49u8]
}

/// A date `yyyy-mm-ddThh:mm:ss` with an offset from UTC leaves the years 0 to 9999 once its offset
/// is applied.
pub open spec fn leaves_years(text: Seq<u8>) -> bool {
    let n = text.len();
    &&& n >= 25
    &&& {
        ||| text.take(10) == last_day() && text[n - 6] == 45 && minutes(text, 11) + minutes(
            text,
            n - 5,
        ) >= 1440
        ||| text.take(10) == first_day() && text[n - 6] == 43 && minutes(text, 11) < minutes(
            text,
            n - 5,
        )
    }
}

/// A date of 1970 or before. Not every system's clock reaches back that far.
pub open spec fn is_old(text: Seq<u8>) -> bool {
    text.len() >= 4 && two_digits(text, 0) * 100 + two_digits(text, 2) < 1971
}

/// The rest of an XML list from `at` on is within the limits. `depth` arrays and dictionaries are
/// open, and `date` is what stands in an open date so far. Where the list is broken it is not read
/// on. Old dates count only where `old_dates` says so.
pub open spec fn xml_within_limits(
    bytes: Seq<u8>,
    at: int,
    depth: nat,
    date: Option<Seq<u8>>,
    old_dates: bool,
) -> bool
    decreases bytes.len() - at,
{
    if at >= bytes.len() {
        true
    } else if bytes[at] == 60 {
        proof {
            lemma_markup_at(bytes, at);
        }
        match markup_at(bytes, at) {
            Markup::Broken => true,
            Markup::Unclear => false,
            Markup::Skipped(next) => xml_within_limits(bytes, next, depth, date, old_dates),
            Markup::Opening(next, name, empty) => if date is Some {
                true
            } else if names_container(name) {
                depth < MAX_PLIST_DEPTH && xml_within_limits(
                    bytes,
                    next,
                    if empty {
                        depth
                    } else {
                        depth + 1
                    },
                    None,
                    old_dates,
                )
            } else if local_name(name) == date_word() && !empty {
                xml_within_limits(bytes, next, depth, Some(Seq::empty()), old_dates)
            } else {
                xml_within_limits(bytes, next, depth, None, old_dates)
            },
            Markup::Closing(next, name) => match date {
                Some(text) => !leaves_years(text) && (old_dates || !is_old(text)) && xml_within_limits(
                    bytes,
                    next,
                    depth,
                    None,
                    old_dates,
                ),
                None => if !names_container(name) {
                    xml_within_limits(bytes, next, depth, None, old_dates)
                } else if depth == 0 {
                    true
                } else {
                    xml_within_limits(bytes, next, (depth - 1) as nat, None, old_dates)
                },
            },
        }
    } else if bytes[at] == 38 {
        proof {
            lemma_reference_end(bytes, at + 1);
        }
        match reference_end(bytes, at + 1) {
            None => true,
            Some(q) => xml_within_limits(
                bytes,
                q + 1,
                depth,
                extended(date, reference_text(bytes.subrange(at + 1, q))),
                old_dates,
            ),
        }
    } else {
        xml_within_limits(bytes, at + 1, depth, extended(date, seq![bytes[at]]), old_dates)
    }
}

/// The text of an open date with more behind it.
pub open spec fn extended(date: Option<Seq<u8>>, more: Seq<u8>) -> Option<Seq<u8>> {
    match date {
        Some(text) => Some(text + more),
        None => None,
    }
}

/// A list that is within the limits without old dates is so with them.
pub proof fn lemma_xml_old(bytes: Seq<u8>, at: int, depth: nat, date: Option<Seq<u8>>)
    requires
        xml_within_limits(bytes, at, depth, date, false),
    ensures
        xml_within_limits(bytes, at, depth, date, true),
    decreases bytes.len() - at,
{
    if at < bytes.len() {
        if bytes[at] == 60 {
            lemma_markup_at(bytes, at);
            match markup_at(bytes, at) {
                Markup::Skipped(next) => lemma_xml_old(bytes, next, depth, date),
                Markup::Opening(next, name, empty) => if date is None {
                    if names_container(name) {
                        lemma_xml_old(
                            bytes,
                            next,
                            if empty {
                                depth
                            } else {
                                depth + 1
                            },
                            None,
                        );
                    } else if local_name(name) == date_word() && !empty {
                        lemma_xml_old(bytes, next, depth, Some(Seq::empty()));
                    } else {
                        lemma_xml_old(bytes, next, depth, None);
                    }
                },
                Markup::Closing(next, name) => if date is Some || !names_container(name) {
                    lemma_xml_old(bytes, next, depth, None);
                } else if depth > 0 {
                    lemma_xml_old(bytes, next, (depth - 1) as nat, None);
                },
                _ => {},
            }
        } else if bytes[at] == 38 {
            lemma_reference_end(bytes, at + 1);
            match reference_end(bytes, at + 1) {
                Some(q) => lemma_xml_old(
                    bytes,
                    q + 1,
                    depth,
                    extended(date, reference_text(bytes.subrange(at + 1, q))),
                ),
                None => {},
            }
        } else {
            lemma_xml_old(bytes, at + 1, depth, extended(date, seq![bytes[at]]));
        }
    }
}

fn without_prefix(name: &[u8]) -> (r: &[u8])
    ensures
        r@ == local_name(name@),
{
    let n: usize = name.len();
    match find_byte(name, 0, 58) {
        Some(i) => {
            let r: &[u8] = &name[i + 1..n];
            assert(r@ =~= name@.skip(i + 1));
            r
        },
        None => name,
    }
}

fn is_container_name(name: &[u8]) -> (r: bool)
    ensures
        r == names_container(name@),
{
    let local: &[u8] = without_prefix(name);
    let array: [u8; 5] = [97, 114, 114, 97, 121];
    let dict: [u8; 4] = [100, 105, 99, 116];
    assert(array@ =~= array_word());
    assert(dict@ =~= dict_word());
    bytes_eq(local, &array) || bytes_eq(local, &dict)
}

fn is_date_name(name: &[u8]) -> (r: bool)
    ensures
        r == (local_name(name@) == date_word()),
{
    let date: [u8; 4] = [100, 97, 116, 101];
    assert(date@ =~= date_word());
    bytes_eq(without_prefix(name), &date)
}

fn digit_of(b: u8, radix: u32) -> (r: u32)
    requires
        radix <= 16,
    ensures
        r == digit_value(b, radix as nat),
{
    let v: u32 = if 48 <= b && b <= 57 {
        (b - 48) as u32
    } else if 97 <= b && b <= 102 {
        (b - 87) as u32
    } else if 65 <= b && b <= 70 {
        (b - 55) as u32
    } else {
        128
    };
    if v < radix {
        v
    } else {
        128
    }
}

fn read_small_number(digits: &[u8], radix: u32) -> (r: u32)
    requires
        radix <= 16,
    ensures
        r == small_number(digits@, radix as nat),
        r <= 128,
{
    let n: usize = digits.len();
    let mut r: u32 = 0;
    let mut i: usize = 0;
    assert(digits@.take(0) =~= Seq::<u8>::empty());
    while i < n
        invariant
            i <= n == digits@.len(),
            radix <= 16,
            r <= 128,
            r == small_number(digits@.take(i as int), radix as nat),
        decreases n - i,
    {
        let v: u32 = digit_of(digits[i], radix);
        proof {
            assert(digits@.take(i + 1).drop_last() =~= digits@.take(i as int));
            assert(r * radix <= 128 * 16) by (nonlinear_arith)
                requires
                    r <= 128,
                    radix <= 16,
            ;
            assert(r * radix == r as nat * radix as nat);
        }
        r =
        if r >= 128 || v >= 128 || r * radix + v >= 128 {
            128
        } else {
            r * radix + v
        };
        i = i + 1;
    }
    assert(digits@.take(n as int) =~= digits@);
    r
}

fn read_numeric_char(number: &[u8]) -> (r: u8)
    ensures
        r == numeric_char(number@),
{
    let n: usize = number.len();
    let v: u32 = if n > 0 && number[0] == 120 {
        let rest: &[u8] = &number[1..n];
        assert(rest@ =~= number@.skip(1));
        read_small_number(rest, 16)
    } else {
        read_small_number(number, 10)
    };
    if v < 128 {
        v as u8
    } else {
        0
    }
}

fn is_entity_name(name: &[u8]) -> (r: bool)
    ensures
        r == is_entity(name@),
{
    let lt: [u8; 2] = [108, 116];
    let gt: [u8; 2] = [103, 116];
    let amp: [u8; 3] = [97, 109, 112];
    let apos: [u8; 4] = [97, 112, 111, 115];
    let quot: [u8; 4] = [113, 117, 111, 116];
    assert(lt@ =~= seq![108u8, 116u8]);
    assert(gt@ =~= seq![103u8, 116u8]);
    assert(amp@ =~= seq![97u8, 109u8, 112u8]);
    assert(apos@ =~= seq![97u8, 112u8, 111u8, 115u8]);
    assert(quot@ =~= seq![113u8, 117u8, 111u8, 116u8]);
    bytes_eq(name, &lt) || bytes_eq(name, &gt) || bytes_eq(name, &amp) || bytes_eq(name, &apos)
        || bytes_eq(name, &quot)
}

fn find_reference_end(bytes: &[u8], start: usize) -> (r: Option<usize>)
    requires
        start <= bytes@.len(),
    ensures
        match r {
            Some(q) => reference_end(bytes@, start as int) == Some(q as int) && start <= q
                < bytes@.len(),
            None => reference_end(bytes@, start as int) is None,
        },
{
    let total: usize = bytes.len();
    let mut at: usize = start;
    while at < total
        invariant
            start <= at <= total == bytes@.len(),
            reference_end(bytes@, start as int) == reference_end(bytes@, at as int),
        decreases total - at,
    {
        let b: u8 = bytes[at];
        if b == 38 || b == 60 {
            return None;
        }
        if b == 59 {
            return Some(at);
        }
        at = at + 1;
    }
    None
}

fn read_two_digits(text: &[u8], at: usize) -> (r: i64)
    requires
        at + 2 <= text@.len(),
    ensures
        r == two_digits(text@, at as int),
        -1000 < r < 10000,
{
    (text[at] as i64 - 48) * 10 + (text[at + 1] as i64 - 48)
}

fn read_minutes(text: &[u8], at: usize) -> (r: i64)
    requires
        at + 5 <= text@.len(),
    ensures
        r == minutes(text@, at as int),
        -100000 < r < 1000000,
{
    let n: usize = text.len();
    assert(at + 5 <= n);
    read_two_digits(text, at) * 60 + read_two_digits(text, at + 3)
}

fn date_leaves_years(text: &[u8]) -> (r: bool)
    ensures
        r == leaves_years(text@),
{
    let n: usize = text.len();
    if n < 25 {
        return false;
    }
    let last: [u8; 10] = [57, 57, 57, 57, 45, 49, 50, 45, 51, 49];
    let first: [u8; 10] = [48, 48, 48, 48, 45, 48, 49, 45, 48, 49];
    assert(last@ =~= last_day());
    assert(first@ =~= first_day());
    let day: &[u8] = &text[0..10];
    assert(day@ =~= text@.take(10));
    if bytes_eq(day, &last) {
        assert(last_day()[0] != first_day()[0]);
        return text[n - 6] == 45 && read_minutes(text, 11) + read_minutes(text, n - 5) >= 1440;
    }
    bytes_eq(day, &first) && text[n - 6] == 43 && read_minutes(text, 11) < read_minutes(
        text,
        n - 5,
    )
}

fn date_is_old(text: &[u8]) -> (r: bool)
    ensures
        r == is_old(text@),
{
    text.len() >= 4 && read_two_digits(text, 0) * 100 + read_two_digits(text, 2) < 1971
}

/// The text of an open date.
spec fn text_of(date: Option<Vec<u8>>) -> Option<Seq<u8>> {
    match date {
        Some(text) => Some(text@),
        None => None,
    }
}

fn add_reference(text: &mut Vec<u8>, name: &[u8])
    ensures
        final(text)@ == old(text)@ + reference_text(name@),
{
    let n: usize = name.len();
    if n > 0 && name[0] == 35 {
        let number: &[u8] = &name[1..n];
        assert(number@ =~= name@.skip(1));
        text.push(read_numeric_char(number));
    } else if is_entity_name(name) {
        text.push(0);
    }
    assert(text@ =~= old(text)@ + reference_text(name@));
}

/// Whether an XML list is within the limits.
pub fn xml_fits(bytes: &[u8], old_dates: bool) -> (r: bool)
    ensures
        r == xml_within_limits(bytes@, 0, 0, None, old_dates),
{
    let total: usize = bytes.len();
    let mut at: usize = 0;
    let mut depth: u64 = 0;
    let mut date: Option<Vec<u8>> = None;
    while at < total
        invariant
            at <= total == bytes@.len(),
            depth <= MAX_PLIST_DEPTH,
            xml_within_limits(bytes@, 0, 0, None, old_dates) == xml_within_limits(
                bytes@,
                at as int,
                depth as nat,
                text_of(date),
                old_dates,
            ),
        decreases total - at,
    {
        let b: u8 = bytes[at];
        if b == 60 {
            proof {
                lemma_markup_at(bytes@, at as int);
            }
            match read_markup(bytes, at) {
                FoundMarkup::Broken => {
                    return true;
                },
                FoundMarkup::Unclear => {
                    return false;
                },
                FoundMarkup::Skipped(next) => {
                    at = next;
                },
                FoundMarkup::Opening(next, name, empty) => {
                    if date.is_some() {
                        return true;
                    }
                    if is_container_name(name) {
                        if depth >= MAX_PLIST_DEPTH {
                            return false;
                        }
                        if !empty {
                            depth = depth + 1;
                        }
                    } else if is_date_name(name) && !empty {
                        date = Some(Vec::new());
                        assert(text_of(date) == Some(Seq::<u8>::empty()));
                    }
                    at = next;
                },
                FoundMarkup::Closing(next, name) => {
                    match date.take() {
                        Some(text) => {
                            if date_leaves_years(text.as_slice()) || (!old_dates && date_is_old(
                                text.as_slice(),
                            )) {
                                return false;
                            }
                        },
                        None => {
                            if is_container_name(name) {
                                if depth == 0 {
                                    return true;
                                }
                                depth = depth - 1;
                            }
                        },
                    }
                    at = next;
                },
            }
        } else if b == 38 {
            match find_reference_end(bytes, at + 1) {
                None => {
                    return true;
                },
                Some(q) => {
                    if let Some(text) = date {
                        let mut text = text;
                        add_reference(&mut text, &bytes[at + 1..q]);
                        date = Some(text);
                    }
                    at = q + 1;
                },
            }
        } else {
            if let Some(text) = date {
                let mut text = text;
                let ghost before = text@;
                text.push(b);
                assert(text@ =~= before + seq![b]);
                date = Some(text);
            }
            at = at + 1;
        }
    }
    true
}

/// A byte is found at its first place, and only where it is.
pub proof fn law_next_byte(bytes: Seq<u8>, at: int, b: u8)
    ensures
        match next_byte(bytes, at, b) {
            Some(q) => at <= q < bytes.len() && bytes[q] == b && forall|i: int|
                at <= i < q ==> #[trigger] bytes[i] != b,
            None => forall|i: int| at <= i < bytes.len() ==> #[trigger] bytes[i] != b,
        },
    decreases bytes.len() - at,
{
    if at < bytes.len() && bytes[at] != b {
        law_next_byte(bytes, at + 1, b);
    }
}

/// A comment, character data or an instruction ends at the first closing bracket that has its
/// marks in front of it.
pub proof fn law_marked_end(bytes: Seq<u8>, at: int, mark: u8)
    ensures
        match marked_end(bytes, at, mark, true) {
            Some(q) => at <= q < bytes.len() && bytes[q] == 62 && bytes[q - 1] == mark && bytes[q
                - 2] == mark && forall|i: int|
                at <= i < q ==> !(#[trigger] bytes[i] == 62 && bytes[i - 1] == mark && bytes[i - 2]
                    == mark),
            None => forall|i: int|
                at <= i < bytes.len() ==> !(#[trigger] bytes[i] == 62 && bytes[i - 1] == mark
                    && bytes[i - 2] == mark),
        },
        match marked_end(bytes, at, mark, false) {
            Some(q) => at <= q < bytes.len() && bytes[q] == 62 && bytes[q - 1] == mark && forall|
                i: int,
            |
                at <= i < q ==> !(#[trigger] bytes[i] == 62 && bytes[i - 1] == mark),
            None => forall|i: int|
                at <= i < bytes.len() ==> !(#[trigger] bytes[i] == 62 && bytes[i - 1] == mark),
        },
    decreases bytes.len() - at,
{
    if at < bytes.len() {
        law_marked_end(bytes, at + 1, mark);
    }
}

/// A tag without quotation marks ends at its first closing bracket.
pub proof fn law_plain_tag_end(bytes: Seq<u8>, at: int, q: int)
    requires
        0 <= at <= q < bytes.len(),
        bytes[q] == 62,
        forall|i: int|
            at <= i < q ==> #[trigger] bytes[i] != 62 && bytes[i] != 34 && bytes[i] != 39,
    ensures
        element_end(bytes, at, 0) == Some(q),
    decreases q - at,
{
    if at < q {
        assert(bytes[at] != 62 && bytes[at] != 34 && bytes[at] != 39);
        law_plain_tag_end(bytes, at + 1, q);
    }
}

/// What stands in quotation marks does not end a tag: the tag goes on behind the closing mark.
pub proof fn law_quoted_value_in_tag(bytes: Seq<u8>, at: int, q: int)
    requires
        0 <= at < q < bytes.len(),
        bytes[at] == 34 || bytes[at] == 39,
        bytes[q] == bytes[at],
        forall|i: int| at < i < q ==> #[trigger] bytes[i] != bytes[at],
    ensures
        element_end(bytes, at, 0) == element_end(bytes, q + 1, 0),
{
    lemma_inside_quotes(bytes, at + 1, q, bytes[at]);
}

proof fn lemma_inside_quotes(bytes: Seq<u8>, at: int, q: int, quote: u8)
    requires
        0 <= at <= q < bytes.len(),
        quote != 0,
        bytes[q] == quote,
        forall|i: int| at <= i < q ==> #[trigger] bytes[i] != quote,
    ensures
        element_end(bytes, at, quote) == element_end(bytes, q + 1, 0),
    decreases q - at,
{
    if at < q {
        assert(bytes[at] != quote);
        lemma_inside_quotes(bytes, at + 1, q, quote);
    }
}

/// Where a tag ends, a closing bracket stands.
pub proof fn law_tag_ends_at_bracket(bytes: Seq<u8>, at: int, quote: u8)
    requires
        0 <= at,
    ensures
        element_end(bytes, at, quote) matches Some(q) ==> at <= q < bytes.len() && bytes[q] == 62,
    decreases bytes.len() - at,
{
    if at < bytes.len() {
        law_tag_ends_at_bracket(bytes, at + 1, 0);
        law_tag_ends_at_bracket(bytes, at + 1, quote);
        law_tag_ends_at_bracket(bytes, at + 1, bytes[at]);
    }
}

/// A name ends at the first white space, or where the tag ends.
pub proof fn law_name_end(bytes: Seq<u8>, at: int, to: int)
    requires
        0 <= at <= to <= bytes.len(),
    ensures
        at <= name_end(bytes, at, to) <= to,
        forall|i: int|
            at <= i < name_end(bytes, at, to) ==> !seq![9u8, 10u8, 13u8, 32u8].contains(
                #[trigger] bytes[i],
            ),
        name_end(bytes, at, to) < to ==> seq![9u8, 10u8, 13u8, 32u8].contains(
            bytes[name_end(bytes, at, to)],
        ),
    decreases to - at,
{
    if at < to {
        let marks = seq![9u8, 10u8, 13u8, 32u8];
        assert(marks[0] == 9 && marks[1] == 10 && marks[2] == 13 && marks[3] == 32);
        if !is_blank(bytes[at]) {
            law_name_end(bytes, at + 1, to);
        }
    }
}

/// A name with a prefix counts as the part behind its first colon, one without as it is.
pub proof fn law_local_name(prefix: Seq<u8>, name: Seq<u8>)
    requires
        !prefix.contains(58),
    ensures
        local_name(prefix.push(58) + name) == name,
        local_name(prefix) == prefix,
{
    let whole = prefix.push(58) + name;
    law_next_byte(whole, 0, 58);
    law_next_byte(prefix, 0, 58);
    let n = prefix.len() as int;
    assert(whole[n] == 58);
    assert forall|i: int| 0 <= i < n implies whole[i] != 58 by {
        assert(whole[i] == prefix[i]);
        assert(prefix.contains(prefix[i]));
    }
    assert(next_byte(whole, 0, 58) == Some(n));
    assert(whole.skip(n + 1) =~= name);
    if next_byte(prefix, 0, 58) is Some {
        assert(prefix.contains(prefix[next_byte(prefix, 0, 58)->0]));
    }
}

/// Arrays and dictionaries are `array` and `dict`, and nothing else.
pub proof fn law_container_names(name: Seq<u8>)
    requires
        !name.contains(58),
    ensures
        names_container(name) <==> name == seq![97u8, 114u8, 114u8, 97u8, 121u8] || name == seq![
            100u8,
            105u8,
            99u8,
            116u8,
        ],
{
    law_local_name(name, name);
}

/// The tag `<name>` stands at `at`, without white space, quotation marks or a slash in its name.
pub open spec fn has_tag(bytes: Seq<u8>, at: int, name: Seq<u8>) -> bool {
    &&& 0 <= at
    &&& has_word(bytes, at, seq![60u8] + name + seq![62u8])
    &&& name.len() > 0
    &&& forall|i: int|
        0 <= i < name.len() ==> !seq![
            9u8,
            10u8,
            13u8,
            32u8,
            33u8,
            34u8,
            39u8,
            47u8,
            58u8,
            62u8,
            63u8,
        ].contains(#[trigger] name[i])
}

proof fn lemma_name_signs(b: u8)
    requires
        !seq![9u8, 10u8, 13u8, 32u8, 33u8, 34u8, 39u8, 47u8, 58u8, 62u8, 63u8].contains(b),
    ensures
        b != 9 && b != 10 && b != 13 && b != 32 && b != 33 && b != 34 && b != 39 && b != 47 && b
            != 58 && b != 62 && b != 63,
{
    let marks = seq![9u8, 10u8, 13u8, 32u8, 33u8, 34u8, 39u8, 47u8, 58u8, 62u8, 63u8];
    assert(marks[0] == 9 && marks[1] == 10 && marks[2] == 13 && marks[3] == 32 && marks[4] == 33);
    assert(marks[5] == 34 && marks[6] == 39 && marks[7] == 47 && marks[8] == 58);
    assert(marks[9] == 62 && marks[10] == 63);
}

/// An opening tag is taken with exactly its name.
pub proof fn law_opening_tag(bytes: Seq<u8>, at: int, name: Seq<u8>)
    requires
        has_tag(bytes, at, name),
    ensures
        markup_at(bytes, at) == Markup::Opening(at + name.len() + 2, name, false),
{
    let word = seq![60u8] + name + seq![62u8];
    let q = at + 1 + name.len();
    assert forall|i: int| 0 <= i < word.len() implies bytes[at + i] == word[i] by {
        assert(bytes.subrange(at, at + word.len())[i] == bytes[at + i]);
    }
    assert(bytes[at + name.len() + 1] == word[name.len() as int + 1]);
    assert forall|i: int| at + 1 <= i < q implies bytes[i] == name[i - at - 1] by {
        assert(bytes[at + (i - at)] == word[i - at]);
    }
    assert forall|i: int| at + 1 <= i < q implies #[trigger] bytes[i] != 62 && bytes[i] != 34
        && bytes[i] != 39 && bytes[i] != 47 && bytes[i] != 33 && bytes[i] != 63 && !is_blank(
        bytes[i],
    ) by {
        lemma_name_signs(name[i - at - 1]);
    }
    law_plain_tag_end(bytes, at + 1, q);
    assert(bytes[at + 1] != 33 && bytes[at + 1] != 63 && bytes[at + 1] != 47);
    assert(bytes[q - 1] != 47);
    lemma_whole_name(bytes, at + 1, q);
    assert(bytes.subrange(at + 1, q) =~= name);
}

proof fn lemma_whole_name(bytes: Seq<u8>, at: int, to: int)
    requires
        at <= to,
        forall|i: int| at <= i < to ==> !is_blank(#[trigger] bytes[i]),
    ensures
        name_end(bytes, at, to) == to,
    decreases to - at,
{
    if at < to {
        lemma_whole_name(bytes, at + 1, to);
    }
}

/// A closing tag, `</name>`, is taken with exactly its name.
pub proof fn law_closing_tag(bytes: Seq<u8>, at: int, name: Seq<u8>)
    requires
        0 <= at,
        has_word(bytes, at, seq![60u8, 47u8] + name + seq![62u8]),
        forall|i: int|
            0 <= i < name.len() ==> !seq![
                9u8,
                10u8,
                13u8,
                32u8,
                33u8,
                34u8,
                39u8,
                47u8,
                58u8,
                62u8,
                63u8,
            ].contains(#[trigger] name[i]),
    ensures
        markup_at(bytes, at) == Markup::Closing(at + name.len() + 3, name),
{
    let word = seq![60u8, 47u8] + name + seq![62u8];
    let q = at + 2 + name.len();
    assert forall|i: int| 0 <= i < word.len() implies bytes[at + i] == word[i] by {
        assert(bytes.subrange(at, at + word.len())[i] == bytes[at + i]);
    }
    assert(bytes[at + 1] == word[1]);
    assert(bytes[at + name.len() + 2] == word[name.len() as int + 2]);
    assert forall|i: int| at + 2 <= i < q implies bytes[i] == name[i - at - 2] by {
        assert(bytes[at + (i - at)] == word[i - at]);
    }
    assert forall|i: int| at + 1 <= i < q implies #[trigger] bytes[i] != 62 && bytes[i] != 34
        && bytes[i] != 39 && !is_blank(bytes[i]) by {
        if i >= at + 2 {
            lemma_name_signs(name[i - at - 2]);
        }
    }
    law_plain_tag_end(bytes, at + 1, q);
    lemma_whole_name(bytes, at + 2, q);
    assert(bytes.subrange(at + 2, q) =~= name);
}

/// An array or a dictionary opens one level, of which there are at most a thousand.
pub proof fn law_container_opens_a_level(bytes: Seq<u8>, at: int, depth: nat, old_dates: bool)
    requires
        has_tag(bytes, at, seq![97u8, 114u8, 114u8, 97u8, 121u8]) || has_tag(
            bytes,
            at,
            seq![100u8, 105u8, 99u8, 116u8],
        ),
    ensures
        depth >= 1000 ==> !xml_within_limits(bytes, at, depth, None, old_dates),
        depth < 1000 && has_tag(bytes, at, seq![97u8, 114u8, 114u8, 97u8, 121u8])
            ==> xml_within_limits(bytes, at, depth, None, old_dates) == xml_within_limits(
            bytes,
            at + 7,
            depth + 1,
            None,
            old_dates,
        ),
        depth < 1000 && has_tag(bytes, at, seq![100u8, 105u8, 99u8, 116u8]) ==> xml_within_limits(
            bytes,
            at,
            depth,
            None,
            old_dates,
        ) == xml_within_limits(bytes, at + 6, depth + 1, None, old_dates),
{
    let array = seq![97u8, 114u8, 114u8, 97u8, 121u8];
    let dict = seq![100u8, 105u8, 99u8, 116u8];
    let name = if has_tag(bytes, at, array) {
        array
    } else {
        dict
    };
    let word = seq![60u8] + name + seq![62u8];
    assert(bytes.subrange(at, at + word.len())[0] == word[0]);
    assert(bytes[at] == 60);
    law_opening_tag(bytes, at, name);
    law_container_names(name);
    lemma_markup_at(bytes, at);
    if has_tag(bytes, at, dict) {
        law_opening_tag(bytes, at, dict);
    }
}

/// The closing tag of an array or a dictionary takes a level back.
pub proof fn law_container_closes_a_level(bytes: Seq<u8>, at: int, depth: nat, old_dates: bool)
    ensures
        0 <= at && has_word(bytes, at, seq![60u8, 47u8, 97u8, 114u8, 114u8, 97u8, 121u8, 62u8])
            ==> xml_within_limits(bytes, at, depth + 1, None, old_dates) == xml_within_limits(
            bytes,
            at + 8,
            depth,
            None,
            old_dates,
        ),
        0 <= at && has_word(bytes, at, seq![60u8, 47u8, 100u8, 105u8, 99u8, 116u8, 62u8])
            ==> xml_within_limits(bytes, at, depth + 1, None, old_dates) == xml_within_limits(
            bytes,
            at + 7,
            depth,
            None,
            old_dates,
        ),
{
    let array = seq![97u8, 114u8, 114u8, 97u8, 121u8];
    let dict = seq![100u8, 105u8, 99u8, 116u8];
    let array_tag = seq![60u8, 47u8, 97u8, 114u8, 114u8, 97u8, 121u8, 62u8];
    let dict_tag = seq![60u8, 47u8, 100u8, 105u8, 99u8, 116u8, 62u8];
    assert(seq![60u8, 47u8] + array + seq![62u8] =~= array_tag);
    assert(seq![60u8, 47u8] + dict + seq![62u8] =~= dict_tag);
    lemma_markup_at(bytes, at);
    law_container_names(array);
    law_container_names(dict);
    if 0 <= at && has_word(bytes, at, array_tag) {
        assert(bytes.subrange(at, at + 8)[0] == array_tag[0]);
        law_closing_tag(bytes, at, array);
    }
    if 0 <= at && has_word(bytes, at, dict_tag) {
        assert(bytes.subrange(at, at + 7)[0] == dict_tag[0]);
        law_closing_tag(bytes, at, dict);
    }
}

/// Any other tag leaves the levels as they are.
pub proof fn law_other_tags_open_no_level(
    bytes: Seq<u8>,
    at: int,
    name: Seq<u8>,
    depth: nat,
    old_dates: bool,
)
    requires
        has_tag(bytes, at, name),
        name != seq![97u8, 114u8, 114u8, 97u8, 121u8],
        name != seq![100u8, 105u8, 99u8, 116u8],
        name != seq![100u8, 97u8, 116u8, 101u8],
    ensures
        xml_within_limits(bytes, at, depth, None, old_dates) == xml_within_limits(
            bytes,
            at + name.len() + 2,
            depth,
            None,
            old_dates,
        ),
{
    let word = seq![60u8] + name + seq![62u8];
    assert(bytes.subrange(at, at + word.len())[0] == word[0]);
    law_opening_tag(bytes, at, name);
    lemma_markup_at(bytes, at);
    assert(!name.contains(58)) by {
        assert forall|i: int| 0 <= i < name.len() implies name[i] != 58 by {
            lemma_name_signs(name[i]);
        }
    }
    law_container_names(name);
    law_local_name(name, name);
}

/// Text outside of dates changes nothing.
pub proof fn law_plain_text_does_not_count(bytes: Seq<u8>, at: int, depth: nat, old_dates: bool)
    requires
        0 <= at < bytes.len(),
        bytes[at] != 60,
        bytes[at] != 38,
    ensures
        xml_within_limits(bytes, at, depth, None, old_dates) == xml_within_limits(
            bytes,
            at + 1,
            depth,
            None,
            old_dates,
        ),
{
}

/// How many opening brackets stand from `at` on.
pub open spec fn brackets(bytes: Seq<u8>, at: int) -> nat
    decreases bytes.len() - at,
{
    if at >= bytes.len() {
        0
    } else {
        brackets(bytes, at + 1) + if bytes[at] == 60 {
            1nat
        } else {
            0nat
        }
    }
}

proof fn lemma_fewer_brackets(bytes: Seq<u8>, at: int, to: int)
    requires
        at <= to,
    ensures
        brackets(bytes, to) <= brackets(bytes, at),
    decreases to - at,
{
    if at < to {
        lemma_fewer_brackets(bytes, at + 1, to);
    }
}

proof fn lemma_no_cut(bytes: Seq<u8>, at: int, quote: u8)
    requires
        bytes.len() < 8192,
        0 <= at,
    ensures
        !(subset_end(bytes, at) is Unclear),
        !(doctype_end(bytes, at, quote) is Unclear),
    decreases bytes.len() - at,
{
    if at < bytes.len() {
        lemma_declaration_end(bytes, at + 1);
        assert forall|from: int, to: int| 0 <= from && to <= bytes.len() implies !hyphen_at_cut(
            bytes,
            from,
            to,
        ) by {
            assert forall|i: int|
                from <= i < to && (i + 1) % (READ_BUFFER_LEN as int) == 0 implies (
            #[trigger] bytes[i]) != 45 by {}
        }
        assert(!(declaration_end(bytes, at + 1) is Unclear)) by {
            lemma_marked_end(bytes, at + 6, 45, true);
        }
        match declaration_end(bytes, at + 1) {
            MarkupEnd::At(q) => lemma_no_cut(bytes, q + 1, 0),
            _ => {},
        }
        lemma_no_cut(bytes, at + 1, 0);
        lemma_no_cut(bytes, at + 1, quote);
        lemma_no_cut(bytes, at + 1, bytes[at]);
    }
}

proof fn lemma_few_brackets(bytes: Seq<u8>, at: int, depth: nat, old_dates: bool)
    requires
        0 <= at,
        bytes.len() < 8192,
        depth + brackets(bytes, at) <= 1000,
        forall|i: int| 0 <= i ==> !#[trigger] has_word(bytes, i, date_word()),
    ensures
        xml_within_limits(bytes, at, depth, None, old_dates),
    decreases bytes.len() - at,
{
    if at < bytes.len() {
        if bytes[at] == 60 {
            lemma_markup_at(bytes, at);
            lemma_no_cut(bytes, at + 2, 0);
            match markup_at(bytes, at) {
                Markup::Skipped(next) => {
                    lemma_fewer_brackets(bytes, at, next);
                    lemma_few_brackets(bytes, next, depth, old_dates);
                },
                Markup::Opening(next, name, empty) => {
                    lemma_fewer_brackets(bytes, at + 1, next);
                    if local_name(name) == date_word() {
                        lemma_date_stands_in(bytes, at, name);
                    }
                    if names_container(name) && !empty {
                        lemma_few_brackets(bytes, next, depth + 1, old_dates);
                    } else {
                        lemma_few_brackets(bytes, next, depth, old_dates);
                    }
                },
                Markup::Closing(next, name) => {
                    lemma_fewer_brackets(bytes, at, next);
                    if !names_container(name) {
                        lemma_few_brackets(bytes, next, depth, old_dates);
                    } else if depth > 0 {
                        lemma_few_brackets(bytes, next, (depth - 1) as nat, old_dates);
                    }
                },
                _ => {},
            }
        } else if bytes[at] == 38 {
            lemma_reference_end(bytes, at + 1);
            match reference_end(bytes, at + 1) {
                Some(q) => {
                    lemma_fewer_brackets(bytes, at, q + 1);
                    lemma_few_brackets(bytes, q + 1, depth, old_dates);
                },
                None => {},
            }
        } else {
            lemma_few_brackets(bytes, at + 1, depth, old_dates);
        }
    }
}

proof fn lemma_date_stands_in(bytes: Seq<u8>, at: int, name: Seq<u8>)
    requires
        0 <= at,
        markup_at(bytes, at) matches Markup::Opening(_, n, _) && n == name,
        local_name(name) == date_word(),
    ensures
        exists|i: int| 0 <= i && #[trigger] has_word(bytes, i, date_word()),
{
    lemma_element_end(bytes, at + 1, 0);
    let q = element_end(bytes, at + 1, 0)->0;
    let to = if q > at + 1 && bytes[q - 1] == 47 {
        q - 1
    } else {
        q
    };
    law_name_end(bytes, at + 1, to);
    let end = name_end(bytes, at + 1, to);
    assert(name =~= bytes.subrange(at + 1, end));
    law_next_byte(name, 0, 58);
    let k = match next_byte(name, 0, 58) {
        Some(i) => i + 1,
        None => 0,
    };
    assert(name.skip(k) =~= date_word());
    assert(0 <= k <= name.len());
    assert(name.skip(k).len() == date_word().len());
    assert(name.len() == k + 4);
    assert(bytes.subrange(at + 1 + k, at + 1 + k + 4) =~= date_word()) by {
        assert forall|i: int| 0 <= i < 4 implies bytes[at + 1 + k + i] == date_word()[i] by {
            assert(name.skip(k)[i] == name[k + i]);
        }
    }
    assert(has_word(bytes, at + 1 + k, date_word()));
}

/// A list shorter than one buffer, without dates and with at most a thousand tags is read, whatever
/// else it holds.
pub proof fn law_small_xml_is_read(bytes: Seq<u8>, old_dates: bool)
    requires
        bytes.len() < 8192,
        brackets(bytes, 0) <= 1000,
        forall|i: int|
            0 <= i < bytes.len() - 3 ==> !(#[trigger] bytes[i] == 100 && bytes[i + 1] == 97
                && bytes[i + 2] == 116 && bytes[i + 3] == 101),
    ensures
        xml_within_limits(bytes, 0, 0, None, old_dates),
{
    assert forall|i: int| 0 <= i implies !#[trigger] has_word(bytes, i, date_word()) by {
        if has_word(bytes, i, date_word()) {
            let word = bytes.subrange(i, i + 4);
            assert(word[0] == bytes[i] && word[1] == bytes[i + 1]);
            assert(word[2] == bytes[i + 2] && word[3] == bytes[i + 3]);
        }
    }
    lemma_few_brackets(bytes, 0, 0, old_dates);
}

proof fn lemma_date_text(
    bytes: Seq<u8>,
    at: int,
    to: int,
    depth: nat,
    text: Seq<u8>,
    old_dates: bool,
)
    requires
        0 <= at <= to <= bytes.len(),
        forall|i: int| at <= i < to ==> #[trigger] bytes[i] != 60 && bytes[i] != 38,
    ensures
        xml_within_limits(bytes, at, depth, Some(text), old_dates) == xml_within_limits(
            bytes,
            to,
            depth,
            Some(text + bytes.subrange(at, to)),
            old_dates,
        ),
    decreases to - at,
{
    if at < to {
        let more = text + seq![bytes[at]];
        assert(bytes[at] != 60 && bytes[at] != 38);
        lemma_date_text(bytes, at + 1, to, depth, more, old_dates);
        assert(more + bytes.subrange(at + 1, to) =~= text + bytes.subrange(at, to));
    } else {
        assert(text + bytes.subrange(at, to) =~= text);
    }
}

proof fn lemma_date_opens(bytes: Seq<u8>, at: int, depth: nat, old_dates: bool)
    requires
        0 <= at,
        has_word(bytes, at, seq![60u8, 100u8, 97u8, 116u8, 101u8, 62u8]),
    ensures
        xml_within_limits(bytes, at, depth, None, old_dates) == xml_within_limits(
            bytes,
            at + 6,
            depth,
            Some(Seq::empty()),
            old_dates,
        ),
{
    let open = seq![60u8, 100u8, 97u8, 116u8, 101u8, 62u8];
    let name = date_word();
    assert(seq![60u8] + name + seq![62u8] =~= open);
    assert(bytes.subrange(at, at + 6)[0] == open[0]);
    assert(bytes[at] == 60);
    law_opening_tag(bytes, at, name);
    law_container_names(name);
    law_local_name(name, name);
    lemma_markup_at(bytes, at);
    assert(name[1] == 97 && dict_word()[1] == 105);
}

proof fn lemma_date_closes(bytes: Seq<u8>, at: int, depth: nat, text: Seq<u8>, old_dates: bool)
    requires
        0 <= at,
        has_word(bytes, at, seq![60u8, 47u8, 100u8, 97u8, 116u8, 101u8, 62u8]),
    ensures
        xml_within_limits(bytes, at, depth, Some(text), old_dates) == (!leaves_years(text) && (
        old_dates || !is_old(text)) && xml_within_limits(bytes, at + 7, depth, None, old_dates)),
{
    let close = seq![60u8, 47u8, 100u8, 97u8, 116u8, 101u8, 62u8];
    let name = date_word();
    assert(seq![60u8, 47u8] + name + seq![62u8] =~= close);
    assert(bytes.subrange(at, at + 7)[0] == close[0]);
    assert(bytes[at] == 60);
    law_closing_tag(bytes, at, name);
    lemma_markup_at(bytes, at);
}

/// A date, `<date>` up to `</date>`, decides by its whole text: it must not leave the years 0 to
/// 9999 and, unless old dates count, must not be old. It opens no level.
pub proof fn law_date_decides(bytes: Seq<u8>, at: int, to: int, depth: nat, old_dates: bool)
    requires
        0 <= at,
        at + 6 <= to <= bytes.len(),
        has_word(bytes, at, seq![60u8, 100u8, 97u8, 116u8, 101u8, 62u8]),
        forall|i: int| at + 6 <= i < to ==> #[trigger] bytes[i] != 60 && bytes[i] != 38,
        has_word(bytes, to, seq![60u8, 47u8, 100u8, 97u8, 116u8, 101u8, 62u8]),
    ensures
        xml_within_limits(bytes, at, depth, None, old_dates) == (!leaves_years(
            bytes.subrange(at + 6, to),
        ) && (old_dates || !is_old(bytes.subrange(at + 6, to))) && xml_within_limits(
            bytes,
            to + 7,
            depth,
            None,
            old_dates,
        )),
{
    let text = bytes.subrange(at + 6, to);
    lemma_date_opens(bytes, at, depth, old_dates);
    lemma_date_text(bytes, at + 6, to, depth, Seq::empty(), old_dates);
    assert(Seq::empty() + text =~= text);
    lemma_date_closes(bytes, to, depth, text, old_dates);
}

/// A text has the digits of a time `hh:mm` at a place.
pub open spec fn has_time(text: Seq<u8>, at: int, hours: int, rest: int) -> bool {
    &&& 48 <= text[at] <= 57
    &&& 48 <= text[at + 1] <= 57
    &&& 48 <= text[at + 3] <= 57
    &&& 48 <= text[at + 4] <= 57
    &&& hours == 10 * (text[at] - 48) + (text[at + 1] - 48)
    &&& rest == 10 * (text[at + 3] - 48) + (text[at + 4] - 48)
}

/// A date leaves the years only on the last day of 9999, west of Greenwich and late enough, or on
/// the first day of the year zero, east of it and early enough.
pub proof fn law_dates_that_leave_the_years(
    text: Seq<u8>,
    hours: int,
    rest: int,
    offset_hours: int,
    offset_rest: int,
)
    requires
        text.len() >= 25,
        has_time(text, 11, hours, rest),
        has_time(text, text.len() - 5, offset_hours, offset_rest),
    ensures
        leaves_years(text) <==> {
            ||| text.take(10) =~= seq![57u8, 57u8, 57u8, 57u8, 45u8, 49u8, 50u8, 45u8, 51u8, 49u8]
                && text[text.len() - 6] == 45 && 60 * (hours + offset_hours) + rest + offset_rest
                >= 24 * 60
            ||| text.take(10) =~= seq![48u8, 48u8, 48u8, 48u8, 45u8, 48u8, 49u8, 45u8, 48u8, 49u8]
                && text[text.len() - 6] == 43 && 60 * hours + rest < 60 * offset_hours
                + offset_rest
        },
{
}

/// A date without an offset, or of another day, leaves no years.
pub proof fn law_other_dates_stay(text: Seq<u8>)
    requires
        text.len() < 25 || text[text.len() - 6] != 45 && text[text.len() - 6] != 43 || text[0] != 57
            && text[0] != 48,
    ensures
        !leaves_years(text),
{
    if text.len() >= 25 {
        assert(text.take(10)[0] == text[0]);
    }
}

/// A date is old where its year is at most 1970.
pub proof fn law_old_dates(text: Seq<u8>, year: int)
    requires
        text.len() >= 4,
        year == 1000 * (text[0] - 48) + 100 * (text[1] - 48) + 10 * (text[2] - 48) + (text[3] - 48),
    ensures
        is_old(text) <==> year <= 1970,
{
}

/// A number in digits grows by one digit at a time, and all that is no ASCII character counts as
/// 128.
pub proof fn law_small_number(digits: Seq<u8>, k: u8)
    requires
        k < 16,
    ensures
        small_number(Seq::empty(), 10) == 0,
        small_number(Seq::empty(), 16) == 0,
        k < 10 && 10 * small_number(digits, 10) + k < 128 ==> small_number(
            digits.push((48 + k) as u8),
            10,
        ) == 10 * small_number(digits, 10) + k,
        k < 10 && 10 * small_number(digits, 10) + k >= 128 ==> small_number(
            digits.push((48 + k) as u8),
            10,
        ) == 128,
        k < 10 && 16 * small_number(digits, 16) + k < 128 ==> small_number(
            digits.push((48 + k) as u8),
            16,
        ) == 16 * small_number(digits, 16) + k,
        k >= 10 && 16 * small_number(digits, 16) + k < 128 ==> small_number(
            digits.push((87 + k) as u8),
            16,
        ) == 16 * small_number(digits, 16) + k && small_number(digits.push((55 + k) as u8), 16)
            == 16 * small_number(digits, 16) + k,
        16 * small_number(digits, 16) + k >= 128 && k >= 10 ==> small_number(
            digits.push((87 + k) as u8),
            16,
        ) == 128,
{
    assert(digits.push((48 + k) as u8).drop_last() =~= digits);
    assert(digits.push((87 + k) as u8).drop_last() =~= digits);
    assert(digits.push((55 + k) as u8).drop_last() =~= digits);
    let (a, b) = (small_number(digits, 10), small_number(digits, 16));
    assert(a * 10 == 10 * a && b * 16 == 16 * b);
}

/// A character that is no digit spoils a number.
pub proof fn law_no_digit(digits: Seq<u8>, b: u8)
    requires
        !(48 <= b <= 57),
    ensures
        small_number(digits.push(b), 10) == 128,
        !(97 <= b <= 102) && !(65 <= b <= 70) ==> small_number(digits.push(b), 16) == 128,
{
    assert(digits.push(b).drop_last() =~= digits);
}

/// A numeric reference gives the character of its number where that is ASCII, and a zero where it
/// is not: `#` with decimal digits, `#x` with hexadecimal ones.
pub proof fn law_numeric_reference(digits: Seq<u8>)
    ensures
        (digits.len() == 0 || digits[0] != 120) ==> reference_text(seq![35u8] + digits) == seq![
            if small_number(digits, 10) < 128 {
                small_number(digits, 10) as u8
            } else {
                0u8
            },
        ],
        reference_text(seq![35u8, 120u8] + digits) == seq![
            if small_number(digits, 16) < 128 {
                small_number(digits, 16) as u8
            } else {
                0u8
            },
        ],
{
    assert((seq![35u8] + digits).skip(1) =~= digits);
    assert((seq![35u8, 120u8] + digits).skip(1) =~= seq![120u8] + digits);
    assert((seq![120u8] + digits).skip(1) =~= digits);
}

/// A reference by name adds one sign that is no digit, and an unknown one adds nothing.
pub proof fn law_named_reference(name: Seq<u8>)
    requires
        name.len() == 0 || name[0] != 35,
    ensures
        name == seq![108u8, 116u8] || name == seq![103u8, 116u8] || name == seq![97u8, 109u8, 112u8]
            || name == seq![97u8, 112u8, 111u8, 115u8] || name == seq![113u8, 117u8, 111u8, 116u8]
            ==> reference_text(name) == seq![0u8],
        name.len() < 2 || name.len() > 4 ==> reference_text(name).len() == 0,
        reference_text(name).len() <= 1,
{
}

/// A reference ends at the first semicolon, unless another one or a tag starts before.
pub proof fn law_reference_end(bytes: Seq<u8>, at: int)
    requires
        0 <= at,
    ensures
        match reference_end(bytes, at) {
            Some(q) => at <= q < bytes.len() && bytes[q] == 59 && forall|i: int|
                at <= i < q ==> #[trigger] bytes[i] != 59 && bytes[i] != 38 && bytes[i] != 60,
            None => next_byte(bytes, at, 59) matches Some(q) ==> exists|i: int|
                at <= i < q && (#[trigger] bytes[i] == 38 || bytes[i] == 60),
        },
    decreases bytes.len() - at,
{
    if at < bytes.len() {
        law_reference_end(bytes, at + 1);
        law_next_byte(bytes, at, 59);
        law_next_byte(bytes, at + 1, 59);
        if reference_end(bytes, at) is None && next_byte(bytes, at, 59) is Some {
            let q = next_byte(bytes, at, 59)->0;
            if bytes[at] == 38 || bytes[at] == 60 {
                assert(bytes[q] == 59);
                assert(at < q);
            }
        }
    }
}

/// A reference in a date adds its text, and outside of dates nothing.
pub proof fn law_reference_in_text(
    bytes: Seq<u8>,
    at: int,
    q: int,
    depth: nat,
    date: Seq<u8>,
    old_dates: bool,
)
    requires
        0 <= at < bytes.len(),
        bytes[at] == 38,
        reference_end(bytes, at + 1) == Some(q),
    ensures
        xml_within_limits(bytes, at, depth, Some(date), old_dates) == xml_within_limits(
            bytes,
            q + 1,
            depth,
            Some(date + reference_text(bytes.subrange(at + 1, q))),
            old_dates,
        ),
        xml_within_limits(bytes, at, depth, None, old_dates) == xml_within_limits(
            bytes,
            q + 1,
            depth,
            None,
            old_dates,
        ),
{
    lemma_reference_end(bytes, at + 1);
}

/// A comment, `<!--` to the first `-->` behind it, is passed over.
pub proof fn law_comment_is_skipped(bytes: Seq<u8>, at: int, q: int)
    requires
        0 <= at,
        at + 6 <= q < bytes.len(),
        bytes[at] == 60,
        bytes[at + 1] == 33,
        bytes[at + 2] == 45,
        bytes[q] == 62 && bytes[q - 1] == 45 && bytes[q - 2] == 45,
        forall|i: int|
            at + 6 <= i < q ==> !(#[trigger] bytes[i] == 62 && bytes[i - 1] == 45 && bytes[i - 2]
                == 45),
    ensures
        markup_at(bytes, at) == Markup::Skipped(q + 1),
{
    law_marked_end(bytes, at + 6, 45);
}

/// Character data, `<![` to the first `]]>`, is passed over.
pub proof fn law_character_data_is_skipped(bytes: Seq<u8>, at: int, q: int)
    requires
        0 <= at,
        at + 5 <= q < bytes.len(),
        bytes[at] == 60,
        bytes[at + 1] == 33,
        bytes[at + 2] == 91,
        bytes[q] == 62 && bytes[q - 1] == 93 && bytes[q - 2] == 93,
        forall|i: int|
            at + 5 <= i < q ==> !(#[trigger] bytes[i] == 62 && bytes[i - 1] == 93 && bytes[i - 2]
                == 93),
    ensures
        markup_at(bytes, at) == Markup::Skipped(q + 1),
{
    law_marked_end(bytes, at + 5, 93);
}

/// An instruction, `<?` to the first `?>`, is passed over.
pub proof fn law_instruction_is_skipped(bytes: Seq<u8>, at: int, q: int)
    requires
        0 <= at,
        at + 3 <= q < bytes.len(),
        bytes[at] == 60,
        bytes[at + 1] == 63,
        bytes[at + 2] != 62,
        bytes[q] == 62 && bytes[q - 1] == 63,
        forall|i: int| at + 3 <= i < q ==> !(#[trigger] bytes[i] == 62 && bytes[i - 1] == 63),
    ensures
        markup_at(bytes, at) == Markup::Skipped(q + 1),
{
    law_marked_end(bytes, at + 2, 63);
    let found = marked_end(bytes, at + 2, 63, false);
    assert(bytes[at + 2] != 62);
    assert(found is Some);
}

/// A document type without quotation marks and square brackets, `<!D` to the first closing
/// bracket, is passed over.
pub proof fn law_plain_document_type_is_skipped(bytes: Seq<u8>, at: int, q: int)
    requires
        0 <= at,
        at + 2 < q < bytes.len(),
        bytes[at] == 60,
        bytes[at + 1] == 33,
        bytes[at + 2] == 68 || bytes[at + 2] == 100,
        bytes[q] == 62,
        forall|i: int|
            at + 2 <= i < q ==> #[trigger] bytes[i] != 62 && bytes[i] != 34 && bytes[i] != 39
                && bytes[i] != 91,
    ensures
        markup_at(bytes, at) == Markup::Skipped(q + 1),
{
    lemma_plain_type(bytes, at + 2, q);
}

proof fn lemma_plain_type(bytes: Seq<u8>, at: int, q: int)
    requires
        0 <= at <= q < bytes.len(),
        bytes[q] == 62,
        forall|i: int|
            at <= i < q ==> #[trigger] bytes[i] != 62 && bytes[i] != 34 && bytes[i] != 39
                && bytes[i] != 91,
    ensures
        doctype_end(bytes, at, 0) == MarkupEnd::At(q),
    decreases q - at,
{
    if at < q {
        assert(bytes[at] != 62 && bytes[at] != 34 && bytes[at] != 39 && bytes[at] != 91);
        lemma_plain_type(bytes, at + 1, q);
    }
}

/// What stands in quotation marks does not end a document type.
pub proof fn law_quoted_value_in_document_type(bytes: Seq<u8>, at: int, q: int)
    requires
        0 <= at < q < bytes.len(),
        bytes[at] == 34 || bytes[at] == 39,
        bytes[q] == bytes[at],
        forall|i: int| at < i < q ==> #[trigger] bytes[i] != bytes[at],
    ensures
        doctype_end(bytes, at, 0) == doctype_end(bytes, q + 1, 0),
{
    lemma_type_quotes(bytes, at + 1, q, bytes[at]);
}

proof fn lemma_type_quotes(bytes: Seq<u8>, at: int, q: int, quote: u8)
    requires
        0 <= at <= q < bytes.len(),
        quote != 0,
        bytes[q] == quote,
        forall|i: int| at <= i < q ==> #[trigger] bytes[i] != quote,
    ensures
        doctype_end(bytes, at, quote) == doctype_end(bytes, q + 1, 0),
    decreases q - at,
{
    if at < q {
        assert(bytes[at] != quote);
        lemma_type_quotes(bytes, at + 1, q, quote);
    }
}

/// Declarations in square brackets belong to the document type: it ends at the first closing
/// bracket behind the square ones.
pub proof fn law_declarations_in_document_type(bytes: Seq<u8>, at: int, close: int, q: int)
    requires
        0 <= at < close < q < bytes.len(),
        bytes[at] == 91,
        forall|i: int| at < i < close ==> #[trigger] bytes[i] != 60 && bytes[i] != 93,
        bytes[close] == 93,
        forall|i: int| close < i < q ==> #[trigger] bytes[i] != 62,
        bytes[q] == 62,
    ensures
        doctype_end(bytes, at, 0) == MarkupEnd::At(q),
{
    lemma_subset_text(bytes, at + 1, close);
    law_next_byte(bytes, close + 1, 62);
    let found = next_byte(bytes, close + 1, 62);
    assert(bytes[q] == 62);
    assert(found == Some(q));
}

proof fn lemma_subset_text(bytes: Seq<u8>, at: int, close: int)
    requires
        0 <= at <= close < bytes.len(),
        forall|i: int| at <= i < close ==> #[trigger] bytes[i] != 60 && bytes[i] != 93,
    ensures
        subset_end(bytes, at) == subset_end(bytes, close),
    decreases close - at,
{
    if at < close {
        assert(bytes[at] != 60 && bytes[at] != 93);
        lemma_subset_text(bytes, at + 1, close);
    }
}

/// A declaration that is no comment, no instruction and holds no quotation marks ends at its first
/// closing bracket.
pub proof fn law_plain_declaration(bytes: Seq<u8>, at: int, q: int)
    requires
        0 < at <= q < bytes.len(),
        bytes[at] != 63,
        !(at + 2 < bytes.len() && bytes[at] == 33 && bytes[at + 1] == 45 && bytes[at + 2] == 45),
        bytes[q] == 62,
        forall|i: int|
            at <= i < q ==> #[trigger] bytes[i] != 62 && bytes[i] != 34 && bytes[i] != 39,
    ensures
        declaration_end(bytes, at) == MarkupEnd::At(q),
{
    law_plain_tag_end(bytes, at, q);
    law_next_byte(bytes, at, 62);
    let found = next_byte(bytes, at, 62);
    assert(bytes[q] == 62);
    assert(found == Some(q));
    if has_word(bytes, at, comment_word()) {
        let word = bytes.subrange(at, at + 3);
        assert(word[0] == bytes[at] && word[1] == bytes[at + 1] && word[2] == bytes[at + 2]);
    }
}

/// Quotation marks count in declarations of entities, attributes and notations and in no others.
pub proof fn law_quotes_in_declarations(bytes: Seq<u8>, at: int)
    requires
        0 < at < bytes.len(),
    ensures
        has_word(bytes, at, seq![33u8, 69u8, 78u8, 84u8, 73u8, 84u8, 89u8]) || has_word(
            bytes,
            at,
            seq![33u8, 65u8, 84u8, 84u8, 76u8, 73u8, 83u8, 84u8],
        ) || has_word(bytes, at, seq![33u8, 78u8, 79u8, 84u8, 65u8, 84u8, 73u8, 79u8, 78u8])
            ==> declaration_end(bytes, at) == (match element_end(bytes, at, 0) {
            Some(q) => MarkupEnd::At(q),
            None => MarkupEnd::Unclosed,
        }),
        bytes[at] != 33 && bytes[at] != 63 ==> declaration_end(bytes, at) == (match next_byte(
            bytes,
            at,
            62,
        ) {
            Some(q) => MarkupEnd::At(q),
            None => MarkupEnd::Unclosed,
        }),
{
    assert(has_word(bytes, at, comment_word()) ==> bytes.subrange(at, at + 3)[0] == 33
        && bytes.subrange(at, at + 3)[1] == 45);
    assert(has_word(bytes, at, entity_word()) ==> bytes.subrange(at, at + 7)[0] == 33
        && bytes.subrange(at, at + 7)[1] == 69);
    assert(has_word(bytes, at, attlist_word()) ==> bytes.subrange(at, at + 8)[0] == 33
        && bytes.subrange(at, at + 8)[1] == 65);
    assert(has_word(bytes, at, notation_word()) ==> bytes.subrange(at, at + 9)[0] == 33
        && bytes.subrange(at, at + 9)[1] == 78);
}

/// A comment among declarations ends at the first `-->` behind it, as long as no buffer of 8192
/// bytes ends behind one of its hyphens: then it is not clear where it ends.
pub proof fn law_comment_among_declarations(bytes: Seq<u8>, at: int, q: int)
    requires
        0 < at,
        at + 5 <= q < bytes.len(),
        bytes[at] == 33 && bytes[at + 1] == 45 && bytes[at + 2] == 45,
        bytes[q] == 62 && bytes[q - 1] == 45 && bytes[q - 2] == 45,
        forall|i: int|
            at + 5 <= i < q ==> !(#[trigger] bytes[i] == 62 && bytes[i - 1] == 45 && bytes[i - 2]
                == 45),
    ensures
        (forall|i: int| at + 3 <= i < q && i % 8192 == 8191 ==> #[trigger] bytes[i] != 45)
            ==> declaration_end(bytes, at) == MarkupEnd::At(q),
        (exists|i: int| at + 3 <= i < q && i % 8192 == 8191 && #[trigger] bytes[i] == 45)
            ==> declaration_end(bytes, at) == MarkupEnd::Unclear,
{
    law_marked_end(bytes, at + 5, 45);
    assert(marked_end(bytes, at + 5, 45, true) == Some(q)) by {
        assert(bytes[q] == 62);
    }
    assert(bytes.subrange(at, at + 3) =~= comment_word());
    assert forall|i: int| at + 3 <= i < q && (i + 1) % (READ_BUFFER_LEN as int) == 0 implies i
        % 8192 == 8191 && #[trigger] bytes[i] == bytes[i] by {}
    if exists|i: int| at + 3 <= i < q && i % 8192 == 8191 && #[trigger] bytes[i] == 45 {
        let i = choose|i: int| at + 3 <= i < q && i % 8192 == 8191 && #[trigger] bytes[i] == 45;
        assert((i + 1) % (READ_BUFFER_LEN as int) == 0);
    }
}

/// A tag whose end is found opens what its name says, up to the first white space. One with a slash
/// in front of its end is closed at once, and one with a slash behind its start closes.
pub proof fn law_tags(bytes: Seq<u8>, at: int, q: int)
    requires
        0 <= at,
        at + 1 < bytes.len(),
        bytes[at + 1] != 33,
        bytes[at + 1] != 63,
        element_end(bytes, at + 1, 0) == Some(q),
    ensures
        bytes[at + 1] == 47 ==> markup_at(bytes, at) == Markup::Closing(
            q + 1,
            bytes.subrange(at + 2, name_end(bytes, at + 2, q)),
        ),
        bytes[at + 1] != 47 && (q == at + 1 || bytes[q - 1] != 47) ==> markup_at(bytes, at)
            == Markup::Opening(
            q + 1,
            bytes.subrange(at + 1, name_end(bytes, at + 1, q)),
            false,
        ),
        bytes[at + 1] != 47 && q > at + 1 && bytes[q - 1] == 47 ==> markup_at(bytes, at)
            == Markup::Opening(
            q + 1,
            bytes.subrange(at + 1, name_end(bytes, at + 1, q - 1)),
            true,
        ),
{
}

/// Markup that has no end, or starts with an exclamation mark and is no comment, no character data
/// and no document type, is broken.
pub proof fn law_broken_markup(bytes: Seq<u8>, at: int)
    requires
        0 <= at < bytes.len(),
        ({
            ||| at + 1 == bytes.len()
            ||| bytes[at + 1] == 33 && at + 2 == bytes.len()
            ||| bytes[at + 1] == 33 && bytes[at + 2] != 45 && bytes[at + 2] != 91 && bytes[at + 2]
                != 68 && bytes[at + 2] != 100
            ||| bytes[at + 1] != 33 && bytes[at + 1] != 63 && element_end(bytes, at + 1, 0) is None
        }),
    ensures
        markup_at(bytes, at) is Broken,
{
}

/// Broken markup ends the reading, and so does one whose end is not clear, which is refused.
pub proof fn law_end_of_reading(
    bytes: Seq<u8>,
    at: int,
    depth: nat,
    date: Option<Seq<u8>>,
    old_dates: bool,
)
    requires
        0 <= at < bytes.len(),
        bytes[at] == 60,
    ensures
        markup_at(bytes, at) is Broken ==> xml_within_limits(bytes, at, depth, date, old_dates),
        markup_at(bytes, at) is Unclear ==> !xml_within_limits(bytes, at, depth, date, old_dates),
        markup_at(bytes, at) is Opening && date is Some ==> xml_within_limits(
            bytes,
            at,
            depth,
            date,
            old_dates,
        ),
        xml_within_limits(bytes, bytes.len() as int, depth, date, old_dates),
{
    lemma_markup_at(bytes, at);
}

/// Comments, character data, instructions and document types change nothing, in a date or outside.
pub proof fn law_skipped_markup(
    bytes: Seq<u8>,
    at: int,
    next: int,
    depth: nat,
    date: Option<Seq<u8>>,
    old_dates: bool,
)
    requires
        0 <= at < bytes.len(),
        bytes[at] == 60,
        markup_at(bytes, at) == Markup::Skipped(next),
    ensures
        xml_within_limits(bytes, at, depth, date, old_dates) == xml_within_limits(
            bytes,
            next,
            depth,
            date,
            old_dates,
        ),
{
    lemma_markup_at(bytes, at);
}

/// An array or a dictionary that is closed at once opens no level, but needs one. Other tags that
/// are closed at once change nothing, and neither do closing tags of other names. A closing tag
/// with nothing open ends the reading.
pub proof fn law_levels_of_tags(
    bytes: Seq<u8>,
    at: int,
    next: int,
    name: Seq<u8>,
    depth: nat,
    old_dates: bool,
)
    requires
        0 <= at < bytes.len(),
        bytes[at] == 60,
    ensures
        markup_at(bytes, at) == Markup::Opening(next, name, true) && names_container(name)
            ==> xml_within_limits(bytes, at, depth, None, old_dates) == (depth < 1000
            && xml_within_limits(bytes, next, depth, None, old_dates)),
        markup_at(bytes, at) == Markup::Opening(next, name, true) && !names_container(name)
            ==> xml_within_limits(bytes, at, depth, None, old_dates) == xml_within_limits(
            bytes,
            next,
            depth,
            None,
            old_dates,
        ),
        markup_at(bytes, at) == Markup::Opening(next, name, false) && names_container(name)
            ==> xml_within_limits(bytes, at, depth, None, old_dates) == (depth < 1000
            && xml_within_limits(bytes, next, depth + 1, None, old_dates)),
        markup_at(bytes, at) == Markup::Closing(next, name) && !names_container(name)
            ==> xml_within_limits(bytes, at, depth, None, old_dates) == xml_within_limits(
            bytes,
            next,
            depth,
            None,
            old_dates,
        ),
        markup_at(bytes, at) == Markup::Closing(next, name) && names_container(name)
            ==> xml_within_limits(bytes, at, 0, None, old_dates) && xml_within_limits(
            bytes,
            at,
            depth + 1,
            None,
            old_dates,
        ) == xml_within_limits(bytes, next, depth, None, old_dates),
{
    lemma_markup_at(bytes, at);
}

/// Any closing tag ends a date, whatever its name: the text so far decides.
pub proof fn law_any_closing_tag_ends_a_date(
    bytes: Seq<u8>,
    at: int,
    next: int,
    name: Seq<u8>,
    depth: nat,
    text: Seq<u8>,
    old_dates: bool,
)
    requires
        0 <= at < bytes.len(),
        bytes[at] == 60,
        markup_at(bytes, at) == Markup::Closing(next, name),
    ensures
        xml_within_limits(bytes, at, depth, Some(text), old_dates) == (!leaves_years(text) && (
        old_dates || !is_old(text)) && xml_within_limits(bytes, next, depth, None, old_dates)),
{
    lemma_markup_at(bytes, at);
}

/// A date starts empty, under its name with a prefix or without one, and only where its tag is not
/// closed at once.
pub proof fn law_date_starts_empty(
    bytes: Seq<u8>,
    at: int,
    next: int,
    name: Seq<u8>,
    depth: nat,
    old_dates: bool,
)
    requires
        0 <= at < bytes.len(),
        bytes[at] == 60,
        markup_at(bytes, at) == Markup::Opening(next, name, false),
        local_name(name) == seq![100u8, 97u8, 116u8, 101u8],
    ensures
        xml_within_limits(bytes, at, depth, None, old_dates) == xml_within_limits(
            bytes,
            next,
            depth,
            Some(Seq::empty()),
            old_dates,
        ),
{
    lemma_markup_at(bytes, at);
    assert(date_word()[1] == 97 && dict_word()[1] == 105);
}

/// Each character in a date belongs to its text.
pub proof fn law_text_in_date(bytes: Seq<u8>, at: int, depth: nat, text: Seq<u8>, old_dates: bool)
    requires
        0 <= at < bytes.len(),
        bytes[at] != 60,
        bytes[at] != 38,
    ensures
        xml_within_limits(bytes, at, depth, Some(text), old_dates) == xml_within_limits(
            bytes,
            at + 1,
            depth,
            Some(text.push(bytes[at])),
            old_dates,
        ),
{
    assert(text + seq![bytes[at]] =~= text.push(bytes[at]));
}

/// A reference without an end breaks the list, in a date or outside.
pub proof fn law_broken_reference(
    bytes: Seq<u8>,
    at: int,
    depth: nat,
    date: Option<Seq<u8>>,
    old_dates: bool,
)
    requires
        0 <= at < bytes.len(),
        bytes[at] == 38,
        reference_end(bytes, at + 1) is None,
    ensures
        xml_within_limits(bytes, at, depth, date, old_dates),
{
}

/// A comment, character data, an instruction or a document type without an end is broken, and so is
/// an instruction that ends with its own question mark.
pub proof fn law_markup_without_end(bytes: Seq<u8>, at: int)
    requires
        0 <= at,
        at + 2 < bytes.len(),
    ensures
        bytes[at + 1] == 63 && bytes[at + 2] == 62 ==> markup_at(bytes, at) is Broken,
        bytes[at + 1] == 63 && (forall|i: int|
            at + 2 <= i < bytes.len() ==> !(#[trigger] bytes[i] == 62 && bytes[i - 1] == 63))
            ==> markup_at(bytes, at) is Broken,
        bytes[at + 1] == 33 && bytes[at + 2] == 45 && (forall|i: int|
            at + 6 <= i < bytes.len() ==> !(#[trigger] bytes[i] == 62 && bytes[i - 1] == 45
                && bytes[i - 2] == 45)) ==> markup_at(bytes, at) is Broken,
        bytes[at + 1] == 33 && bytes[at + 2] == 91 && (forall|i: int|
            at + 5 <= i < bytes.len() ==> !(#[trigger] bytes[i] == 62 && bytes[i - 1] == 93
                && bytes[i - 2] == 93)) ==> markup_at(bytes, at) is Broken,
        bytes[at + 1] == 33 && (bytes[at + 2] == 68 || bytes[at + 2] == 100) ==> match doctype_end(
            bytes,
            at + 2,
            0,
        ) {
            MarkupEnd::At(q) => markup_at(bytes, at) == Markup::Skipped(q + 1),
            MarkupEnd::Unclosed => markup_at(bytes, at) is Broken,
            MarkupEnd::Unclear => markup_at(bytes, at) is Unclear,
        },
{
    law_marked_end(bytes, at + 2, 63);
    law_marked_end(bytes, at + 6, 45);
    law_marked_end(bytes, at + 5, 93);
}

/// A declaration inside a document type is passed over, up to where it ends. One without an end
/// leaves the document type open, and one whose end is not clear makes the document type's end
/// unclear.
pub proof fn law_declaration_in_document_type(bytes: Seq<u8>, at: int)
    requires
        0 <= at < bytes.len(),
        bytes[at] == 60,
    ensures
        declaration_end(bytes, at + 1) matches MarkupEnd::At(q) ==> subset_end(bytes, at)
            == subset_end(bytes, q + 1),
        declaration_end(bytes, at + 1) is Unclosed ==> subset_end(bytes, at) is Unclosed,
        declaration_end(bytes, at + 1) is Unclear ==> subset_end(bytes, at) is Unclear,
        subset_end(bytes, bytes.len() as int) is Unclosed,
{
    lemma_declaration_end(bytes, at + 1);
}

/// An instruction among declarations ends at the first `?>` behind its start.
pub proof fn law_instruction_among_declarations(bytes: Seq<u8>, at: int)
    requires
        0 < at < bytes.len(),
        bytes[at] == 63,
    ensures
        match declaration_end(bytes, at) {
            MarkupEnd::At(q) => at + 2 <= q < bytes.len() && bytes[q] == 62 && bytes[q - 1] == 63
                && forall|i: int|
                at + 2 <= i < q ==> !(#[trigger] bytes[i] == 62 && bytes[i - 1] == 63),
            MarkupEnd::Unclosed => forall|i: int|
                at + 2 <= i < bytes.len() ==> !(#[trigger] bytes[i] == 62 && bytes[i - 1] == 63),
            MarkupEnd::Unclear => false,
        },
{
    law_marked_end(bytes, at + 2, 63);
    if has_word(bytes, at, comment_word()) {
        assert(bytes.subrange(at, at + 3)[0] == comment_word()[0]);
    }
}

} // verus!
