//! Which property lists are read: all but those that are nested too deeply for the stack, that
//! refer to the same objects over and over, or that hold dates outside the years 0 to 9999.
use crate::raop::plist_ascii::{
    ascii_fits, ascii_within_limits, law_few_brackets_are_read, openings,
};
use crate::raop::plist_binary::{
    binary_fits, binary_within_limits, is_forest, law_ordinary_list_is_read, lemma_weight_old,
    root_object,
};
use crate::raop::plist_xml::{
    brackets, law_small_xml_is_read, lemma_xml_old, xml_fits, xml_within_limits,
};
use crate::wire::bytes_eq;
use vstd::prelude::*;

verus! {

/// Arrays and dictionaries inside one another, at most. Reading takes about one and a half
/// kilobytes of stack for each level, and a thread has two megabytes.
pub const MAX_PLIST_DEPTH: u64 = 1000;

/// The first bytes of a binary list, `bplist00`.
pub open spec fn binary_magic() -> Seq<u8> {
    seq![98u8, 112u8, 108u8, 105u8, 115u8, 116u8, 48u8, 48u8]
}

/// White space in front of a list.
pub open spec fn is_white(b: u8) -> bool {
    9 <= b <= 13 || b == 32
}

/// The first byte from `at` on that is no white space.
pub open spec fn first_sign(bytes: Seq<u8>, at: int) -> Option<u8>
    decreases bytes.len() - at,
{
    if at >= bytes.len() {
        None
    } else if is_white(bytes[at]) {
        first_sign(bytes, at + 1)
    } else {
        Some(bytes[at])
    }
}

/// A list that starts with a tag, a reference or a character beyond ASCII is no list in the old
/// text form.
pub open spec fn starts_as_xml(bytes: Seq<u8>) -> bool {
    match first_sign(bytes, 0) {
        Some(b) => b == 60 || b == 38 || b >= 128,
        None => true,
    }
}

/// The list is within the limits, in the form that it has. Without `old_dates`, dates before 1970
/// are beyond the limits too, and in XML those of 1970, whose offset may reach back.
pub open spec fn within_limits(bytes: Seq<u8>, old_dates: bool) -> bool {
    if bytes.len() >= 8 && bytes.take(8) == binary_magic() {
        binary_within_limits(bytes, old_dates)
    } else if starts_as_xml(bytes) {
        xml_within_limits(bytes, 0, 0, None, old_dates)
    } else {
        ascii_within_limits(bytes, 0, 0)
    }
}

/// A list that is within the limits without old dates is so with them.
pub proof fn law_old_dates_widen_the_limits(bytes: Seq<u8>)
    requires
        within_limits(bytes, false),
    ensures
        within_limits(bytes, true),
{
    if bytes.len() >= 8 && bytes.take(8) == binary_magic() {
        lemma_weight_old(bytes, root_object(bytes), MAX_PLIST_DEPTH as nat);
    } else if starts_as_xml(bytes) {
        lemma_xml_old(bytes, 0, 0, None);
    }
}

fn looks_like_xml(bytes: &[u8]) -> (r: bool)
    ensures
        r == starts_as_xml(bytes@),
{
    let total: usize = bytes.len();
    let mut at: usize = 0;
    while at < total
        invariant
            at <= total == bytes@.len(),
            first_sign(bytes@, 0) == first_sign(bytes@, at as int),
        decreases total - at,
    {
        let b: u8 = bytes[at];
        if !((9 <= b && b <= 13) || b == 32) {
            return b == 60 || b == 38 || b >= 128;
        }
        at = at + 1;
    }
    true
}

/// Whether a property list is within the limits.
pub fn fits(bytes: &[u8], old_dates: bool) -> (r: bool)
    ensures
        r == within_limits(bytes@, old_dates),
{
    let total: usize = bytes.len();
    let magic: [u8; 8] = [98, 112, 108, 105, 115, 116, 48, 48];
    assert(magic@ =~= binary_magic());
    if total >= 8 {
        let head: &[u8] = &bytes[0..8];
        assert(head@ =~= bytes@.take(8));
        if bytes_eq(head, &magic) {
            return binary_fits(bytes, old_dates);
        }
    }
    if looks_like_xml(bytes) {
        xml_fits(bytes, old_dates)
    } else {
        ascii_fits(bytes)
    }
}

/// A list that starts with `bplist00` is a binary one. It is read where its dates are not too
/// early, its arrays and dictionaries are nested at most a thousand deep and no object is referred
/// to twice.
pub proof fn law_ordinary_binary_list_is_read(
    rest: Seq<u8>,
    level: spec_fn(nat) -> nat,
    old_dates: bool,
)
    requires
        is_forest(
            seq![98u8, 112u8, 108u8, 105u8, 115u8, 116u8, 48u8, 48u8] + rest,
            level,
            old_dates,
        ),
        level(
            root_object(seq![98u8, 112u8, 108u8, 105u8, 115u8, 116u8, 48u8, 48u8] + rest),
        ) <= 1000,
    ensures
        within_limits(
            seq![98u8, 112u8, 108u8, 105u8, 115u8, 116u8, 48u8, 48u8] + rest,
            old_dates,
        ),
{
    let bytes = seq![98u8, 112u8, 108u8, 105u8, 115u8, 116u8, 48u8, 48u8] + rest;
    assert(bytes.take(8) =~= binary_magic());
    law_ordinary_list_is_read(bytes, level, old_dates);
}

/// The form of a list shows in its first bytes: `bplist00` starts a binary one.
pub proof fn law_binary_form(rest: Seq<u8>, old_dates: bool)
    ensures
        within_limits(
            seq![98u8, 112u8, 108u8, 105u8, 115u8, 116u8, 48u8, 48u8] + rest,
            old_dates,
        ) == binary_within_limits(
            seq![98u8, 112u8, 108u8, 105u8, 115u8, 116u8, 48u8, 48u8] + rest,
            old_dates,
        ),
{
    let bytes = seq![98u8, 112u8, 108u8, 105u8, 115u8, 116u8, 48u8, 48u8] + rest;
    assert(bytes.take(8) =~= binary_magic());
}

proof fn lemma_first_sign(white: Seq<u8>, rest: Seq<u8>, at: int)
    requires
        0 <= at <= white.len(),
        forall|i: int| 0 <= i < white.len() ==> 9 <= #[trigger] white[i] <= 13 || white[i] == 32,
        rest.len() > 0 ==> !(9 <= rest[0] <= 13) && rest[0] != 32,
    ensures
        first_sign(white + rest, at) == (if rest.len() > 0 {
            Some(rest[0])
        } else {
            None
        }),
    decreases white.len() - at,
{
    let bytes = white + rest;
    if at < white.len() {
        assert(bytes[at] == white[at]);
        lemma_first_sign(white, rest, at + 1);
    } else if rest.len() > 0 {
        assert(bytes[at] == rest[0]);
    }
}

/// Behind white space, a tag, a reference or a character beyond ASCII starts an XML list, and
/// anything else one in the old text form.
pub proof fn law_text_forms(white: Seq<u8>, rest: Seq<u8>, old_dates: bool)
    requires
        forall|i: int| 0 <= i < white.len() ==> 9 <= #[trigger] white[i] <= 13 || white[i] == 32,
        rest.len() > 0 ==> !(9 <= rest[0] <= 13) && rest[0] != 32,
        white.len() == 0 && rest.len() > 0 ==> rest[0] != 98,
    ensures
        rest.len() == 0 || rest[0] == 60 || rest[0] == 38 || rest[0] >= 128 ==> within_limits(
            white + rest,
            old_dates,
        ) == xml_within_limits(white + rest, 0, 0, None, old_dates),
        rest.len() > 0 && rest[0] != 60 && rest[0] != 38 && rest[0] < 128 ==> within_limits(
            white + rest,
            old_dates,
        ) == ascii_within_limits(white + rest, 0, 0),
{
    let bytes = white + rest;
    lemma_first_sign(white, rest, 0);
    if bytes.len() >= 8 && bytes.take(8) == binary_magic() {
        assert(bytes.take(8)[0] == bytes[0]);
        assert(binary_magic()[0] == 98);
        if white.len() > 0 {
            assert(bytes[0] == white[0]);
        } else {
            assert(bytes[0] == rest[0]);
        }
    }
}

/// A list that is not binary is read where it is shorter than one buffer, holds no `date` and has
/// at most a thousand opening brackets of each form.
pub proof fn law_small_text_is_read(bytes: Seq<u8>, old_dates: bool)
    requires
        bytes.len() < 8192,
        bytes.len() > 0 ==> bytes[0] != 98,
        brackets(bytes, 0) <= 1000,
        openings(bytes, 0) <= 1000,
        forall|i: int|
            0 <= i < bytes.len() - 3 ==> !(#[trigger] bytes[i] == 100 && bytes[i + 1] == 97
                && bytes[i + 2] == 116 && bytes[i + 3] == 101),
    ensures
        within_limits(bytes, old_dates),
{
    if bytes.len() >= 8 && bytes.take(8) == binary_magic() {
        assert(bytes.take(8)[0] == bytes[0]);
        assert(binary_magic()[0] == 98);
    }
    law_small_xml_is_read(bytes, old_dates);
    law_few_brackets_are_read(bytes);
}

/// Lists of these three sorts are never refused: binary ones of trees that are not too deep and
/// without early dates, and small ones in both text forms.
pub proof fn law_ordinary_lists_fit(
    bytes: &[u8],
    old_dates: bool,
    r: bool,
    level: spec_fn(nat) -> nat,
)
    requires
        call_ensures(fits, (bytes, old_dates), r),
    ensures
        bytes@.len() >= 8 && bytes@.take(8) =~= seq![
            98u8,
            112u8,
            108u8,
            105u8,
            115u8,
            116u8,
            48u8,
            48u8,
        ] && is_forest(bytes@, level, old_dates) && level(root_object(bytes@)) <= 1000 ==> r,
        bytes@.len() < 8192 && (bytes@.len() > 0 ==> bytes@[0] != 98) && brackets(bytes@, 0) <= 1000
            && openings(bytes@, 0) <= 1000 && (forall|i: int|
            0 <= i < bytes@.len() - 3 ==> !(#[trigger] bytes@[i] == 100 && bytes@[i + 1] == 97
                && bytes@[i + 2] == 116 && bytes@[i + 3] == 101)) ==> r,
{
    if bytes@.len() >= 8 && bytes@.take(8) =~= binary_magic() && is_forest(bytes@, level, old_dates)
        && level(root_object(bytes@)) <= 1000 {
        law_ordinary_list_is_read(bytes@, level, old_dates);
    }
    if bytes@.len() < 8192 && (bytes@.len() > 0 ==> bytes@[0] != 98) && brackets(bytes@, 0) <= 1000
        && openings(bytes@, 0) <= 1000 && (forall|i: int|
        0 <= i < bytes@.len() - 3 ==> !(#[trigger] bytes@[i] == 100 && bytes@[i + 1] == 97
            && bytes@[i + 2] == 116 && bytes@[i + 3] == 101)) {
        law_small_text_is_read(bytes@, old_dates);
    }
}

} // verus!
