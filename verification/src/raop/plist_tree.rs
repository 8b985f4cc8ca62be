//! Property lists: values that the `plist` crate holds, reads and writes.
use crate::raop::plist_limits::within_limits;
use vstd::prelude::*;

verus! {

/// A value of the `plist` crate.
#[verifier::external_type_specification]
#[verifier::external_body]
pub struct ExPlistValue(plist::Value);

/// An error of the `plist` crate.
#[verifier::external_type_specification]
#[verifier::external_body]
pub struct ExPlistError(plist::Error);

/// A time of the system's clock.
#[verifier::external_type_specification]
#[verifier::external_body]
pub struct ExSystemTime(std::time::SystemTime);

/// Lists and dictionaries inside one another that are written, at most.
pub const MAX_WRITTEN_DEPTH: u64 = 8;

/// Seconds from the start of the year zero to 1970.
pub const YEAR_ZERO_AGE: u64 = 62167219200;

/// What a value holds.
pub enum PlistTree {
    /// A whole number.
    Integer(int),
    /// A text.
    Text(Seq<char>),
    /// A floating-point number, by its bit pattern.
    Real(int),
    /// A list of values.
    Array(Seq<PlistTree>),
    /// Values under different keys, in their order.
    Dict(Seq<(Seq<char>, PlistTree)>),
    /// A value of another kind.
    Other,
}

/// What a value of the `plist` crate holds.
pub uninterp spec fn plist_tree(value: plist::Value) -> PlistTree;

/// The XML property list that is written for a tree of numbers, texts, lists and dictionaries.
pub uninterp spec fn plist_xml(tree: PlistTree) -> Seq<u8>;

/// The tree that a property list in any of its encodings holds, where it is within the limits and
/// its dates are those that every system's clock holds.
pub uninterp spec fn plist_parsed(bytes: Seq<u8>) -> Option<PlistTree>;

impl PlistTree {
    /// Only numbers, texts, lists and dictionaries stand in the tree, and lists and dictionaries
    /// are nested at most `depth` deep.
    pub open spec fn plain(self, depth: nat) -> bool
        decreases depth,
    {
        match self {
            PlistTree::Array(list) => depth > 0 && forall|i: int|
                0 <= i < list.len() ==> (#[trigger] list[i]).plain((depth - 1) as nat),
            PlistTree::Dict(entries) => depth > 0 && forall|i: int|
                0 <= i < entries.len() ==> (#[trigger] entries[i]).1.plain((depth - 1) as nat),
            PlistTree::Other => false,
            _ => true,
        }
    }

    /// The value under a key of a dictionary.
    pub open spec fn entry(self, key: Seq<char>) -> Option<PlistTree> {
        match self {
            PlistTree::Dict(entries) => if exists|i: int|
                0 <= i < entries.len() && (#[trigger] entries[i]).0 == key {
                Some(
                    entries[choose|i: int|
                        0 <= i < entries.len() && (#[trigger] entries[i]).0 == key].1,
                )
            } else {
                None
            },
            _ => None,
        }
    }
}

/// No key occurs twice.
pub open spec fn keys_differ(entries: Seq<(Seq<char>, PlistTree)>) -> bool {
    forall|i: int, j: int|
        0 <= i < j < entries.len() ==> (#[trigger] entries[i]).0 != (#[trigger] entries[j]).0
}

/// What a list of keys with values stands for.
pub open spec fn entries_view(entries: Seq<(String, plist::Value)>) -> Seq<
    (Seq<char>, PlistTree),
> {
    entries.map_values(|e: (String, plist::Value)| (e.0@, plist_tree(e.1)))
}

/// Makes a `plist::Value::Integer`.
#[verifier::external_body]
pub(crate) fn integer_value(n: i64) -> (r: plist::Value)
    ensures
        plist_tree(r) == PlistTree::Integer(n as int),
{
    plist::Value::Integer(n.into())
}

/// Makes a `plist::Value::String`.
#[verifier::external_body]
pub(crate) fn text_value(text: &str) -> (r: plist::Value)
    ensures
        plist_tree(r) == PlistTree::Text(text@),
{
    plist::Value::String(text.to_owned())
}

/// Makes a `plist::Value::Array` of one value.
#[verifier::external_body]
pub(crate) fn single_value(value: plist::Value) -> (r: plist::Value)
    ensures
        plist_tree(r) == PlistTree::Array(seq![plist_tree(value)]),
{
    plist::Value::Array(vec![value])
}

/// Collects entries into a `plist::Dictionary`, which keeps them in their order where no key
/// occurs twice, and makes a `plist::Value` of it.
#[verifier::external_body]
pub(crate) fn dict_value(entries: Vec<(String, plist::Value)>) -> (r: plist::Value)
    requires
        keys_differ(entries_view(entries@)),
    ensures
        plist_tree(r) == PlistTree::Dict(entries_view(entries@)),
{
    plist::Value::Dictionary(entries.into_iter().collect())
}

/// Calls `clone` on a `plist::Value::Real`.
#[verifier::external_body]
pub(crate) fn copy_value(value: &plist::Value) -> (r: plist::Value)
    requires
        plist_tree(*value) is Real,
    ensures
        plist_tree(r) == plist_tree(*value),
{
    value.clone()
}

/// Calls `plist::Value::as_real`, which gives a number for a `plist::Value::Real` only.
#[verifier::external_body]
pub(crate) fn is_real(value: &plist::Value) -> (r: bool)
    ensures
        r == (plist_tree(*value) is Real),
{
    value.as_real().is_some()
}

/// Calls `plist::to_writer_xml` on a buffer in memory, with numbers, texts, lists and dictionaries
/// only: they can all be written, and what is written depends on the tree alone.
#[verifier::external_body]
pub(crate) fn write_xml(value: &plist::Value) -> (r: Result<Vec<u8>, plist::Error>)
    requires
        plist_tree(*value).plain(MAX_WRITTEN_DEPTH as nat),
    ensures
        r is Ok,
        r->Ok_0@ == plist_xml(plist_tree(*value)),
{
    let mut buf = Vec::new();
    plist::to_writer_xml(&mut buf, value)?;
    Ok(buf)
}

/// The seconds from 1970 to a time of the system's clock.
pub uninterp spec fn unix_seconds(time: std::time::SystemTime) -> int;

/// Calls `std::time::SystemTime::checked_sub` on the start of 1970. Whether the system's clock
/// reaches back that far is up to the system.
#[verifier::external_body]
pub(crate) fn time_before_epoch(seconds: u64) -> (r: Option<std::time::SystemTime>)
    ensures
        r is Some ==> unix_seconds(r->Some_0) == -seconds,
{
    std::time::SystemTime::UNIX_EPOCH.checked_sub(std::time::Duration::from_secs(seconds))
}

/// The time shows that the system's clock reaches back to the year zero.
pub open spec fn shows_year_zero(time: Option<std::time::SystemTime>) -> bool {
    time is Some && unix_seconds(time->Some_0) == -YEAR_ZERO_AGE
}

/// Calls `plist::from_bytes`. The limits leave out the lists that it does not return from: it
/// recurses for each level of nesting, reads an object of a binary list again for each reference to
/// it, and writes each date out, which panics outside the years 0 to 9999. It also makes a time of
/// the system's clock of each date, which may panic before 1970 where the clock does not reach that
/// far back: `oldest` shows that it does where there are such dates. Whether it succeeds, and what
/// the value holds, depends on the bytes alone where there are none; of lists with older dates
/// nothing is said, because the result is up to the system.
#[verifier::external_body]
pub(crate) fn parse_plist(bytes: &[u8], oldest: &Option<std::time::SystemTime>) -> (r: Result<
    plist::Value,
    plist::Error,
>)
    requires
        within_limits(bytes@, shows_year_zero(*oldest)),
    ensures
        within_limits(bytes@, false) ==> match r {
            Ok(value) => plist_parsed(bytes@) == Some(plist_tree(value)),
            Err(_) => plist_parsed(bytes@) is None,
        },
{
    plist::from_bytes(bytes)
}

/// Calls `plist::Value::as_dictionary` and `plist::Dictionary::get`: the value under a key, where
/// there is a dictionary and the key stands in it.
#[verifier::external_body]
pub(crate) fn dict_entry<'a>(value: &'a plist::Value, key: &str) -> (r: Option<&'a plist::Value>)
    ensures
        match r {
            Some(entry) => plist_tree(*value).entry(key@) == Some(plist_tree(*entry)),
            None => plist_tree(*value).entry(key@) is None,
        },
{
    value.as_dictionary()?.get(key)
}

/// Calls `plist::Value::as_string`: the text of a `plist::Value::String`, of no other value.
#[verifier::external_body]
pub(crate) fn text_of<'a>(value: &'a plist::Value) -> (r: Option<&'a str>)
    ensures
        match r {
            Some(text) => plist_tree(*value) == PlistTree::Text(text@),
            None => !(plist_tree(*value) is Text),
        },
{
    value.as_string()
}

/// No key occurs twice where the keys, taken alone, are all different.
pub proof fn law_keys_differ(entries: Seq<(Seq<char>, PlistTree)>)
    ensures
        keys_differ(entries) <==> entries.map_values(
            |e: (Seq<char>, PlistTree)| e.0,
        ).no_duplicates(),
{
    let keys = entries.map_values(|e: (Seq<char>, PlistTree)| e.0);
    assert forall|i: int| 0 <= i < entries.len() implies keys[i] == (#[trigger] entries[i]).0 by {}
    if keys.no_duplicates() {
        assert forall|i: int, j: int| 0 <= i < j < entries.len() implies (
        #[trigger] entries[i]).0 != (#[trigger] entries[j]).0 by {
            assert(keys[i] != keys[j]);
        }
    }
    if keys_differ(entries) {
        assert forall|i: int, j: int| 0 <= i < keys.len() && 0 <= j < keys.len() && i
            != j implies keys[i] != keys[j] by {
            if i < j {
                assert(entries[i].0 != entries[j].0);
            } else {
                assert(entries[j].0 != entries[i].0);
            }
        }
    }
}

/// Each value of a dictionary stands under its own key, and nothing under any other.
pub proof fn law_dictionary_entries(
    entries: Seq<(Seq<char>, PlistTree)>,
    i: int,
    key: Seq<char>,
)
    requires
        keys_differ(entries),
    ensures
        0 <= i < entries.len() ==> PlistTree::Dict(entries).entry(entries[i].0) == Some(
            entries[i].1,
        ),
        (forall|k: int| 0 <= k < entries.len() ==> (#[trigger] entries[k]).0 != key)
            ==> PlistTree::Dict(entries).entry(key) is None,
{
    if 0 <= i < entries.len() {
        let name = entries[i].0;
        assert(exists|k: int| 0 <= k < entries.len() && (#[trigger] entries[k]).0 == name);
        let k = choose|k: int| 0 <= k < entries.len() && (#[trigger] entries[k]).0 == name;
        if k < i {
            assert(entries[k].0 != entries[i].0);
        } else if i < k {
            assert(entries[i].0 != entries[k].0);
        }
    }
}

/// Only dictionaries have entries.
pub proof fn law_other_values_have_no_entries(tree: PlistTree, key: Seq<char>)
    requires
        !(tree is Dict),
    ensures
        tree.entry(key) is None,
{
}

/// Entries are seen one by one, keys with keys and values with values.
pub proof fn law_entries_view(entries: Seq<(String, plist::Value)>)
    ensures
        entries_view(entries).len() == entries.len(),
        forall|i: int|
            0 <= i < entries.len() ==> entries_view(entries)[i].0 == (#[trigger] entries[i]).0@
                && entries_view(entries)[i].1 == plist_tree(entries[i].1),
{
}

/// A tree may be written where nothing of another kind stands in it and it is not nested too
/// deeply: numbers and texts at any place, lists and dictionaries down to the last level.
pub proof fn law_plain_trees(depth: nat, list: Seq<PlistTree>, number: int, text: Seq<char>)
    ensures
        PlistTree::Integer(number).plain(depth),
        PlistTree::Real(number).plain(depth),
        PlistTree::Text(text).plain(depth),
        !PlistTree::Other.plain(depth),
        !PlistTree::Array(list).plain(0),
        PlistTree::Array(list).plain(depth + 1) <==> forall|i: int|
            0 <= i < list.len() ==> (#[trigger] list[i]).plain(depth),
{
    reveal_with_fuel(PlistTree::plain, 2);
    let deeper = depth + 1;
    assert((deeper - 1) as nat == depth);
    if PlistTree::Array(list).plain(deeper) {
        assert forall|i: int| 0 <= i < list.len() implies (#[trigger] list[i]).plain(depth) by {
            lemma_part_is_plain(list, deeper, i);
        }
    }
    if forall|i: int| 0 <= i < list.len() ==> (#[trigger] list[i]).plain(depth) {
        assert forall|i: int| 0 <= i < list.len() implies (#[trigger] list[i]).plain(
            (deeper - 1) as nat,
        ) by {
            assert(list[i].plain(depth));
        }
    }
}

/// The year zero started 719528 days before 1970, and a time shows that the clock reaches back so
/// far where it is exactly that long before.
pub proof fn law_year_zero(time: std::time::SystemTime)
    ensures
        YEAR_ZERO_AGE == 719528 * 86400,
        shows_year_zero(Some(time)) <==> unix_seconds(time) + 719528 * 86400 == 0,
        !shows_year_zero(None),
{
}

proof fn lemma_part_is_plain(list: Seq<PlistTree>, depth: nat, i: int)
    requires
        PlistTree::Array(list).plain(depth),
        0 <= i < list.len(),
    ensures
        depth > 0,
        list[i].plain((depth - 1) as nat),
{
    reveal_with_fuel(PlistTree::plain, 2);
    let tree = PlistTree::Array(list);
    assert(tree->Array_0 == list);
    assert(tree.plain(depth));
    assert(list[i] == tree->Array_0[i]);
}

} // verus!
