//! Binary property lists: how many values are read for them, how deeply their arrays and
//! dictionaries are nested, and how early their dates are.
use crate::raop::plist_limits::MAX_PLIST_DEPTH;
use crate::wire::{be_nat, lemma_be_nat_bound, lemma_byte_range_mono, lemma_byte_range_u64};
use vstd::prelude::*;

verus! {

/// Values that a list may hold beyond its length in bytes. Each reference takes a byte of the list,
/// so only one whose arrays or dictionaries are referred to more than once comes that far.
pub const SHARED_VALUES: u64 = 1048576;

/// The start of the year zero: the bits of a negative floating-point number, the seconds before
/// 2001. Greater bits stand for earlier dates or for no number.
pub const YEAR_ZERO_BITS: u64 = 13991953453421690880;

/// The start of 1970, in the same way.
pub const EPOCH_BITS: u64 = 13964861880825544704;

/// Bytes at the end of a binary list that say where its objects are.
pub const TRAILER_LEN: usize = 32;

/// The number in `size` bytes.
pub open spec fn field(bytes: Seq<u8>, at: int, size: int) -> nat {
    be_nat(bytes.subrange(at, at + size))
}

/// Bytes of an entry in the object table.
pub open spec fn offset_size(bytes: Seq<u8>) -> int {
    bytes[bytes.len() - 26] as int
}

/// Bytes of a reference to an object.
pub open spec fn ref_size(bytes: Seq<u8>) -> int {
    bytes[bytes.len() - 25] as int
}

/// Entries in the object table.
pub open spec fn object_count(bytes: Seq<u8>) -> nat {
    field(bytes, bytes.len() - 24, 8)
}

/// The object that the list stands for.
pub open spec fn root_object(bytes: Seq<u8>) -> nat {
    field(bytes, bytes.len() - 16, 8)
}

/// Where the object table starts.
pub open spec fn table_start(bytes: Seq<u8>) -> nat {
    field(bytes, bytes.len() - 8, 8)
}

/// A size of numbers that a binary list may use.
pub open spec fn is_int_size(size: int) -> bool {
    size == 1 || size == 2 || size == 3 || size == 4 || size == 8
}

/// There is an object table, and it stands in front of the trailer.
pub open spec fn has_table(bytes: Seq<u8>) -> bool {
    &&& bytes.len() >= TRAILER_LEN
    &&& is_int_size(offset_size(bytes))
    &&& is_int_size(ref_size(bytes))
    &&& table_start(bytes) + object_count(bytes) * offset_size(bytes) <= bytes.len() - TRAILER_LEN
}

/// Where an object stands. It is nowhere where the table or the part in front of the trailer does
/// not reach that far.
pub open spec fn object_at(bytes: Seq<u8>, object: nat) -> Option<int> {
    if object < object_count(bytes) {
        let at = field(
            bytes,
            table_start(bytes) + object * offset_size(bytes),
            offset_size(bytes),
        );
        if at < bytes.len() - TRAILER_LEN {
            Some(at as int)
        } else {
            None
        }
    } else {
        None
    }
}

/// The object that starts with `token` is an array or a dictionary.
pub open spec fn is_container(token: u8) -> bool {
    token / 16 == 10 || token / 16 == 13
}

/// Bytes of the length behind the token, where the token does not hold it.
pub open spec fn length_size(selector: u8) -> int {
    if selector % 4 == 0 {
        1
    } else if selector % 4 == 1 {
        2
    } else if selector % 4 == 2 {
        4
    } else {
        8
    }
}

/// Where the references of an array or a dictionary start.
pub open spec fn refs_start(bytes: Seq<u8>, at: int) -> int {
    if bytes[at] % 16 == 15 {
        at + 2 + length_size(bytes[at + 1])
    } else {
        at + 1
    }
}

/// How many values an array, or keys a dictionary has.
pub open spec fn entry_count(bytes: Seq<u8>, at: int) -> nat {
    if bytes[at] % 16 == 15 {
        field(bytes, at + 2, length_size(bytes[at + 1]))
    } else {
        (bytes[at] % 16) as nat
    }
}

/// How many references an array or a dictionary has: none where the list ends before.
pub open spec fn ref_count(bytes: Seq<u8>, at: int) -> nat {
    let n = if bytes[at] / 16 == 13 {
        2 * entry_count(bytes, at)
    } else {
        entry_count(bytes, at)
    };
    if refs_start(bytes, at) + n * ref_size(bytes) <= bytes.len() {
        n
    } else {
        0
    }
}

/// Values that a binary list may hold, each counted as often as it is read.
pub open spec fn value_limit(bytes: Seq<u8>) -> nat {
    bytes.len() + SHARED_VALUES as nat
}

/// The earliest date that counts, as the bits of a negative floating-point number.
pub open spec fn earliest_bits(old_dates: bool) -> u64 {
    if old_dates {
        YEAR_ZERO_BITS
    } else {
        EPOCH_BITS
    }
}

/// The number of values that are read for an object with all that it refers to. It is more than
/// the limit where arrays and dictionaries are nested more than `depth` deep or a date is too
/// early.
pub open spec fn weight(bytes: Seq<u8>, object: nat, depth: nat, old_dates: bool) -> nat
    decreases depth, 1int, 0nat,
{
    match object_at(bytes, object) {
        None => 1,
        Some(at) => if bytes[at] == 51 && field(bytes, at + 1, 8) > earliest_bits(old_dates) {
            value_limit(bytes) + 1
        } else if !is_container(bytes[at]) {
            1
        } else if depth == 0 {
            value_limit(bytes) + 1
        } else {
            1 + refs_weight(
                bytes,
                refs_start(bytes, at),
                ref_count(bytes, at),
                depth,
                old_dates,
            )
        },
    }
}

/// The number of values that are read for `n` references inside an array or a dictionary.
pub open spec fn refs_weight(
    bytes: Seq<u8>,
    first: int,
    n: nat,
    depth: nat,
    old_dates: bool,
) -> nat
    decreases depth, 0int, n,
{
    if n == 0 || depth == 0 {
        0
    } else {
        refs_weight(bytes, first, (n - 1) as nat, depth, old_dates) + weight(
            bytes,
            field(bytes, first + (n - 1) * ref_size(bytes), ref_size(bytes)),
            (depth - 1) as nat,
            old_dates,
        )
    }
}

/// A binary list is within the limits. One without an object table is not read on.
pub open spec fn binary_within_limits(bytes: Seq<u8>, old_dates: bool) -> bool {
    has_table(bytes) ==> weight(bytes, root_object(bytes), MAX_PLIST_DEPTH as nat, old_dates)
        <= value_limit(bytes)
}

proof fn lemma_refs_weight_mono(
    bytes: Seq<u8>,
    first: int,
    m: nat,
    n: nat,
    depth: nat,
    old_dates: bool,
)
    requires
        m <= n,
    ensures
        refs_weight(bytes, first, m, depth, old_dates) <= refs_weight(
            bytes,
            first,
            n,
            depth,
            old_dates,
        ),
    decreases n,
{
    if m < n {
        lemma_refs_weight_mono(bytes, first, m, (n - 1) as nat, depth, old_dates);
    }
}

/// Old dates make no list heavier.
pub proof fn lemma_weight_old(bytes: Seq<u8>, object: nat, depth: nat)
    ensures
        weight(bytes, object, depth, true) <= weight(bytes, object, depth, false),
    decreases depth, 1int, 0nat,
{
    match object_at(bytes, object) {
        Some(at) => if depth > 0 {
            lemma_refs_weight_old(bytes, refs_start(bytes, at), ref_count(bytes, at), depth);
        },
        None => {},
    }
}

proof fn lemma_refs_weight_old(bytes: Seq<u8>, first: int, n: nat, depth: nat)
    ensures
        refs_weight(bytes, first, n, depth, true) <= refs_weight(bytes, first, n, depth, false),
    decreases depth, 0int, n,
{
    if n > 0 && depth > 0 {
        lemma_refs_weight_old(bytes, first, (n - 1) as nat, depth);
        lemma_weight_old(
            bytes,
            field(bytes, first + (n - 1) * ref_size(bytes), ref_size(bytes)),
            (depth - 1) as nat,
        );
    }
}

fn read_field(bytes: &[u8], at: usize, size: usize) -> (r: u64)
    requires
        size <= 8,
        at + size <= bytes@.len(),
    ensures
        r == field(bytes@, at as int, size as int),
{
    let total: usize = bytes.len();
    let mut r: u64 = 0;
    let mut i: usize = 0;
    assert(bytes@.subrange(at as int, at as int) =~= Seq::<u8>::empty());
    while i < size
        invariant
            i <= size <= 8,
            at + size <= total == bytes@.len(),
            r == field(bytes@, at as int, i as int),
        decreases size - i,
    {
        let ghost next = bytes@.subrange(at as int, at + i + 1);
        proof {
            assert(next.drop_last() =~= bytes@.subrange(at as int, at + i));
            assert(next.last() == bytes@[at + i]);
            lemma_be_nat_bound(next);
            lemma_byte_range_mono((i + 1) as nat, 8);
            lemma_byte_range_u64();
        }
        r = r * 256 + bytes[at + i] as u64;
        i = i + 1;
    }
    r
}

/// What the trailer of a binary list says of its objects.
struct ObjectTable {
    offset_size: usize,
    ref_size: usize,
    objects: u64,
    start: usize,
}

impl ObjectTable {
    spec fn stands_in(self, bytes: Seq<u8>) -> bool {
        &&& has_table(bytes)
        &&& self.offset_size == offset_size(bytes)
        &&& self.ref_size == ref_size(bytes)
        &&& self.objects == object_count(bytes)
        &&& self.start == table_start(bytes)
    }
}

fn is_int_width(size: usize) -> (r: bool)
    ensures
        r == is_int_size(size as int),
{
    size == 1 || size == 2 || size == 3 || size == 4 || size == 8
}

fn object_table(bytes: &[u8]) -> (r: Option<ObjectTable>)
    ensures
        match r {
            Some(table) => table.stands_in(bytes@),
            None => !has_table(bytes@),
        },
{
    let total: usize = bytes.len();
    if total < TRAILER_LEN {
        return None;
    }
    let end: usize = total - TRAILER_LEN;
    let offset_size: usize = bytes[total - 26] as usize;
    let ref_size: usize = bytes[total - 25] as usize;
    if !is_int_width(offset_size) || !is_int_width(ref_size) {
        return None;
    }
    let objects: u64 = read_field(bytes, total - 24, 8);
    let start: u64 = read_field(bytes, total - 8, 8);
    assert(objects * offset_size <= 0xFFFF_FFFF_FFFF_FFFFu64 * 8) by (nonlinear_arith)
        requires
            0 <= offset_size <= 8,
            0 <= objects <= 0xFFFF_FFFF_FFFF_FFFFu64,
    ;
    assert(objects * offset_size >= 0) by (nonlinear_arith)
        requires
            0 <= offset_size,
            0 <= objects,
    ;
    if start as u128 + objects as u128 * offset_size as u128 > end as u128 {
        return None;
    }
    Some(ObjectTable { offset_size, ref_size, objects, start: start as usize })
}

fn find_object(bytes: &[u8], table: &ObjectTable, object: u64) -> (r: Option<usize>)
    requires
        table.stands_in(bytes@),
    ensures
        match r {
            Some(at) => object_at(bytes@, object as nat) == Some(at as int),
            None => object_at(bytes@, object as nat) is None,
        },
{
    let total: usize = bytes.len();
    if object >= table.objects {
        return None;
    }
    proof {
        let size = table.offset_size as int;
        assert(object * size + size <= table.objects * size) by (nonlinear_arith)
            requires
                object + 1 <= table.objects,
                size >= 1,
        ;
        assert(object * size >= 0) by (nonlinear_arith)
            requires
                object >= 0,
                size >= 1,
        ;
        assert(object * size >= object) by (nonlinear_arith)
            requires
                object >= 0,
                size >= 1,
        ;
    }
    let at: u64 = read_field(
        bytes,
        table.start + object as usize * table.offset_size,
        table.offset_size,
    );
    if at < (total - TRAILER_LEN) as u64 {
        Some(at as usize)
    } else {
        None
    }
}

fn find_refs(bytes: &[u8], table: &ObjectTable, at: usize) -> (r: (usize, usize))
    requires
        table.stands_in(bytes@),
        at < bytes@.len() - TRAILER_LEN,
    ensures
        r.0 == refs_start(bytes@, at as int),
        r.1 == ref_count(bytes@, at as int),
        r.0 + r.1 * table.ref_size <= bytes@.len(),
{
    let total: usize = bytes.len();
    let token: u8 = bytes[at];
    let (first, entries): (usize, u64) = if token % 16 == 15 {
        let selector: u8 = bytes[at + 1];
        let size: usize = if selector % 4 == 0 {
            1
        } else if selector % 4 == 1 {
            2
        } else if selector % 4 == 2 {
            4
        } else {
            8
        };
        (at + 2 + size, read_field(bytes, at + 2, size))
    } else {
        (at + 1, (token % 16) as u64)
    };
    let n: u128 = if token / 16 == 13 {
        2 * entries as u128
    } else {
        entries as u128
    };
    let size: usize = table.ref_size;
    assert(0 <= n * size <= 0x1_FFFF_FFFF_FFFF_FFFE * 8) by (nonlinear_arith)
        requires
            0 <= n <= 0x1_FFFF_FFFF_FFFF_FFFE,
            1 <= size <= 8,
    ;
    assert(n <= n * size) by (nonlinear_arith)
        requires
            0 <= n,
            1 <= size,
    ;
    if first as u128 + n * size as u128 <= total as u128 {
        (first, n as usize)
    } else {
        assert(0 * size == 0);
        (first, 0)
    }
}

/// Counts the values that are read for an object, as long as there are no more than `budget`.
fn weigh(
    bytes: &[u8],
    table: &ObjectTable,
    object: u64,
    depth: u64,
    budget: u128,
    old_dates: bool,
) -> (r: Option<u128>)
    requires
        table.stands_in(bytes@),
        budget <= value_limit(bytes@),
    ensures
        match r {
            Some(w) => w == weight(bytes@, object as nat, depth as nat, old_dates) && w <= budget,
            None => weight(bytes@, object as nat, depth as nat, old_dates) > budget,
        },
    decreases depth,
{
    let total: usize = bytes.len();
    if budget == 0 {
        return None;
    }
    let at: usize = match find_object(bytes, table, object) {
        Some(at) => at,
        None => {
            return Some(1);
        },
    };
    let token: u8 = bytes[at];
    let earliest: u64 = if old_dates {
        YEAR_ZERO_BITS
    } else {
        EPOCH_BITS
    };
    if token == 51 && read_field(bytes, at + 1, 8) > earliest {
        return None;
    }
    if token / 16 != 10 && token / 16 != 13 {
        return Some(1);
    }
    if depth == 0 {
        return None;
    }
    let (first, n) = find_refs(bytes, table, at);
    let size: usize = table.ref_size;
    let mut w: u128 = 1;
    let mut i: usize = 0;
    while i < n
        invariant
            table.stands_in(bytes@),
            total == bytes@.len(),
            budget <= value_limit(bytes@),
            0 < depth,
            size == table.ref_size,
            i <= n,
            first == refs_start(bytes@, at as int),
            n == ref_count(bytes@, at as int),
            first + n * size <= bytes@.len(),
            object_at(bytes@, object as nat) == Some(at as int),
            weight(bytes@, object as nat, depth as nat, old_dates) == 1 + refs_weight(
                bytes@,
                first as int,
                n as nat,
                depth as nat,
                old_dates,
            ),
            w == 1 + refs_weight(bytes@, first as int, i as nat, depth as nat, old_dates),
            w <= budget,
        decreases n - i,
    {
        proof {
            assert(i * size + size <= n * size) by (nonlinear_arith)
                requires
                    i + 1 <= n,
                    size >= 1,
            ;
            assert(i * size >= 0) by (nonlinear_arith)
                requires
                    i >= 0,
                    size >= 1,
            ;
            lemma_refs_weight_mono(
                bytes@,
                first as int,
                (i + 1) as nat,
                n as nat,
                depth as nat,
                old_dates,
            );
        }
        let child: u64 = read_field(bytes, first + i * size, size);
        match weigh(bytes, table, child, depth - 1, budget - w, old_dates) {
            Some(more) => {
                w = w + more;
            },
            None => {
                return None;
            },
        }
        i = i + 1;
    }
    Some(w)
}

/// Whether a binary list is within the limits.
pub fn binary_fits(bytes: &[u8], old_dates: bool) -> (r: bool)
    ensures
        r == binary_within_limits(bytes@, old_dates),
{
    let total: usize = bytes.len();
    match object_table(bytes) {
        Some(table) => {
            let root: u64 = read_field(bytes, total - 16, 8);
            let budget: u128 = total as u128 + SHARED_VALUES as u128;
            weigh(bytes, &table, root, MAX_PLIST_DEPTH, budget, old_dates).is_some()
        },
        None => true,
    }
}

/// Where an array or a dictionary stands.
pub open spec fn container_at(bytes: Seq<u8>, object: nat) -> Option<int> {
    match object_at(bytes, object) {
        Some(at) => if is_container(bytes[at]) {
            Some(at)
        } else {
            None
        },
        None => None,
    }
}

/// The objects that an object refers to.
pub open spec fn children(bytes: Seq<u8>, object: nat) -> Seq<nat> {
    match container_at(bytes, object) {
        Some(at) => Seq::new(
            ref_count(bytes, at),
            |i: int| field(bytes, refs_start(bytes, at) + i * ref_size(bytes), ref_size(bytes)),
        ),
        None => Seq::empty(),
    }
}

/// The object is a date that is too early.
pub open spec fn is_early(bytes: Seq<u8>, object: nat, old_dates: bool) -> bool {
    match object_at(bytes, object) {
        Some(at) => bytes[at] == 51 && field(bytes, at + 1, 8) > earliest_bits(old_dates),
        None => false,
    }
}

/// The weights of some objects together.
pub open spec fn total_weight(bytes: Seq<u8>, list: Seq<nat>, depth: nat, old_dates: bool) -> nat
    decreases list.len(),
{
    if list.len() == 0 {
        0
    } else {
        total_weight(bytes, list.drop_last(), depth, old_dates) + weight(
            bytes,
            list.last(),
            depth,
            old_dates,
        )
    }
}

proof fn lemma_refs_total(bytes: Seq<u8>, first: int, n: nat, depth: nat, old_dates: bool)
    requires
        depth > 0,
    ensures
        refs_weight(bytes, first, n, depth, old_dates) == total_weight(
            bytes,
            Seq::new(
                n,
                |i: int| field(bytes, first + i * ref_size(bytes), ref_size(bytes)),
            ),
            (depth - 1) as nat,
            old_dates,
        ),
    decreases n,
{
    if n > 0 {
        lemma_refs_total(bytes, first, (n - 1) as nat, depth, old_dates);
        let list = Seq::new(
            n,
            |i: int| field(bytes, first + i * ref_size(bytes), ref_size(bytes)),
        );
        assert(list.drop_last() =~= Seq::new(
            (n - 1) as nat,
            |i: int| field(bytes, first + i * ref_size(bytes), ref_size(bytes)),
        ));
    }
}

/// An object that is neither a date nor an array or a dictionary weighs exactly one, whatever its
/// token is, and so does a number that stands for no object.
pub proof fn law_plain_object_weighs_one(
    bytes: Seq<u8>,
    object: nat,
    depth: nat,
    old_dates: bool,
)
    requires
        object_at(bytes, object) matches Some(at) ==> bytes[at] != 51 && bytes[at] / 16 != 10
            && bytes[at] / 16 != 13,
    ensures
        weight(bytes, object, depth, old_dates) == 1,
{
}

/// A date weighs one where it is not too early, and breaks the limit where it is.
pub proof fn law_date_weight(bytes: Seq<u8>, object: nat, depth: nat, old_dates: bool, at: int)
    requires
        object_at(bytes, object) == Some(at),
        bytes[at] == 51,
    ensures
        be_nat(bytes.subrange(at + 1, at + 9)) <= earliest_bits(old_dates) ==> weight(
            bytes,
            object,
            depth,
            old_dates,
        ) == 1,
        be_nat(bytes.subrange(at + 1, at + 9)) > earliest_bits(old_dates) ==> weight(
            bytes,
            object,
            depth,
            old_dates,
        ) > bytes.len() + 1048576,
{
}

/// The earliest dates: negative numbers of 64 bits whose size is the seconds between the start of
/// 2001 and, 11323 days earlier, the start of 1970 or, 730851 days earlier, that of the year zero.
pub proof fn law_earliest_dates()
    ensures
        earliest_bits(false) == 0x8000_0000_0000_0000 + 1052 * 0x10_0000_0000_0000 + (11323 * 86400
            * 0x80_0000 - 0x10_0000_0000_0000),
        earliest_bits(true) == 0x8000_0000_0000_0000 + 1058 * 0x10_0000_0000_0000 + (730851 * 86400
            * 0x2_0000 - 0x10_0000_0000_0000),
{
}

/// An array or a dictionary weighs one and what the objects weigh that it refers to, one level
/// further down.
pub proof fn law_container_weight(bytes: Seq<u8>, object: nat, depth: nat, old_dates: bool)
    requires
        container_at(bytes, object) is Some,
    ensures
        weight(bytes, object, depth + 1, old_dates) == 1 + total_weight(
            bytes,
            children(bytes, object),
            depth,
            old_dates,
        ),
        weight(bytes, object, 0, old_dates) > bytes.len() + 1048576,
{
    let at = container_at(bytes, object)->0;
    lemma_refs_total(bytes, refs_start(bytes, at), ref_count(bytes, at), depth + 1, old_dates);
    assert(children(bytes, object) =~= Seq::new(
        ref_count(bytes, at),
        |i: int| field(bytes, refs_start(bytes, at) + i * ref_size(bytes), ref_size(bytes)),
    ));
}

proof fn lemma_part_of_total(
    bytes: Seq<u8>,
    list: Seq<nat>,
    i: int,
    depth: nat,
    old_dates: bool,
)
    requires
        0 <= i < list.len(),
    ensures
        weight(bytes, list[i], depth, old_dates) <= total_weight(bytes, list, depth, old_dates),
    decreases list.len(),
{
    if i < list.len() - 1 {
        lemma_part_of_total(bytes, list.drop_last(), i, depth, old_dates);
    }
}

/// A chain of arrays and dictionaries, each referred to by the one before.
pub open spec fn is_chain(bytes: Seq<u8>, chain: Seq<nat>) -> bool {
    &&& forall|k: int| 0 <= k < chain.len() ==> container_at(bytes, #[trigger] chain[k]) is Some
    &&& forall|k: int|
        1 <= k < chain.len() ==> children(bytes, chain[k - 1]).contains(#[trigger] chain[k])
}

proof fn lemma_chain_weight(bytes: Seq<u8>, chain: Seq<nat>, depth: nat, old_dates: bool)
    requires
        is_chain(bytes, chain),
        chain.len() > depth,
    ensures
        weight(bytes, chain[0], depth, old_dates) > value_limit(bytes),
    decreases depth,
{
    assert(container_at(bytes, chain[0]) is Some);
    if depth > 0 {
        let rest = chain.drop_first();
        assert forall|k: int| 0 <= k < rest.len() implies container_at(
            bytes,
            #[trigger] rest[k],
        ) is Some by {
            assert(rest[k] == chain[k + 1]);
        }
        assert forall|k: int| 1 <= k < rest.len() implies children(bytes, rest[k - 1]).contains(
            #[trigger] rest[k],
        ) by {
            assert(rest[k] == chain[k + 1]);
            assert(children(bytes, chain[k]).contains(chain[k + 1]));
        }
        lemma_chain_weight(bytes, rest, (depth - 1) as nat, old_dates);
        let list = children(bytes, chain[0]);
        assert(list.contains(chain[1]));
        let i = choose|i: int| 0 <= i < list.len() && list[i] == chain[1];
        law_container_weight(bytes, chain[0], (depth - 1) as nat, old_dates);
        lemma_part_of_total(bytes, list, i, (depth - 1) as nat, old_dates);
    } else {
        law_container_weight(bytes, chain[0], 0, old_dates);
    }
}

/// A list in which more than a thousand arrays and dictionaries stand inside one another is
/// refused.
pub proof fn law_deep_list_is_refused(bytes: Seq<u8>, chain: Seq<nat>, old_dates: bool)
    requires
        has_table(bytes),
        is_chain(bytes, chain),
        chain.len() > 1000,
        chain[0] == root_object(bytes),
    ensures
        !binary_within_limits(bytes, old_dates),
{
    lemma_chain_weight(bytes, chain, MAX_PLIST_DEPTH as nat, old_dates);
}

/// The objects of a list form trees: no object is referred to twice, none of the dates is too early,
/// and `level` says of each array or dictionary how deeply others are nested in it, itself
/// included.
pub open spec fn is_forest(bytes: Seq<u8>, level: spec_fn(nat) -> nat, old_dates: bool) -> bool {
    &&& forall|o: nat, i: int|
        0 <= i < children(bytes, o).len() ==> level(#[trigger] children(bytes, o)[i]) < level(o)
    &&& forall|o: nat, i: int, p: nat, j: int|
        0 <= i < children(bytes, o).len() && 0 <= j < children(bytes, p).len() && (
        #[trigger] children(bytes, o)[i]) == (#[trigger] children(bytes, p)[j]) ==> o == p && i
            == j
    &&& forall|o: nat| #[trigger] container_at(bytes, o) is Some ==> level(o) >= 1
    &&& forall|o: nat| !#[trigger] is_early(bytes, o, old_dates)
}

/// An object with all that it refers to, `depth` levels down.
pub open spec fn reached(bytes: Seq<u8>, object: nat, depth: nat) -> Set<int>
    decreases depth, 1int, 0nat,
{
    if depth == 0 {
        Set::empty().insert(object as int)
    } else {
        reached_from(bytes, children(bytes, object), depth).insert(object as int)
    }
}

/// What is reached from some objects that are referred to.
pub open spec fn reached_from(bytes: Seq<u8>, list: Seq<nat>, depth: nat) -> Set<int>
    decreases depth, 0int, list.len(),
{
    if list.len() == 0 || depth == 0 {
        Set::empty()
    } else {
        reached_from(bytes, list.drop_last(), depth).union(
            reached(bytes, list.last(), (depth - 1) as nat),
        )
    }
}

proof fn lemma_reached_by(bytes: Seq<u8>, list: Seq<nat>, depth: nat, x: int) -> (i: int)
    requires
        depth > 0,
        reached_from(bytes, list, depth).contains(x),
    ensures
        0 <= i < list.len(),
        reached(bytes, list[i], (depth - 1) as nat).contains(x),
    decreases list.len(),
{
    if reached(bytes, list.last(), (depth - 1) as nat).contains(x) {
        list.len() - 1
    } else {
        let i = lemma_reached_by(bytes, list.drop_last(), depth, x);
        assert(list.drop_last()[i] == list[i]);
        i
    }
}

proof fn lemma_reaches(bytes: Seq<u8>, list: Seq<nat>, depth: nat, i: int, x: int)
    requires
        depth > 0,
        0 <= i < list.len(),
        reached(bytes, list[i], (depth - 1) as nat).contains(x),
    ensures
        reached_from(bytes, list, depth).contains(x),
    decreases list.len(),
{
    if i < list.len() - 1 {
        assert(list.drop_last()[i] == list[i]);
        lemma_reaches(bytes, list.drop_last(), depth, i, x);
    }
}

/// What is reached lies further down and is referred to by something that is reached too.
proof fn lemma_reached(
    bytes: Seq<u8>,
    level: spec_fn(nat) -> nat,
    old_dates: bool,
    object: nat,
    depth: nat,
    x: int,
)
    requires
        is_forest(bytes, level, old_dates),
        reached(bytes, object, depth).contains(x),
    ensures
        x >= 0,
        x == object || level(x as nat) < level(object),
        x != object ==> exists|p: nat, i: int|
            reached(bytes, object, depth).contains(p as int) && 0 <= i < children(bytes, p).len()
                && (#[trigger] children(bytes, p)[i]) == x,
    decreases depth,
{
    if depth > 0 && x != object {
        let list = children(bytes, object);
        let k = lemma_reached_by(bytes, list, depth, x);
        let below = (depth - 1) as nat;
        lemma_reached(bytes, level, old_dates, list[k], below, x);
        if x == list[k] {
            assert(reached(bytes, object, depth).contains(object as int));
            assert(children(bytes, object)[k] == x);
        } else {
            let (p, i) = choose|p: nat, i: int|
                reached(bytes, list[k], below).contains(p as int) && 0 <= i < children(
                    bytes,
                    p,
                ).len() && (#[trigger] children(bytes, p)[i]) == x;
            lemma_reaches(bytes, list, depth, k, p as int);
            assert(children(bytes, p)[i] == x);
        }
    }
}

/// Where two objects reach a third, one of them reaches the other.
proof fn lemma_reached_twice(
    bytes: Seq<u8>,
    level: spec_fn(nat) -> nat,
    old_dates: bool,
    a: nat,
    b: nat,
    depth: nat,
    x: int,
)
    requires
        is_forest(bytes, level, old_dates),
        reached(bytes, a, depth).contains(x),
        reached(bytes, b, depth).contains(x),
    ensures
        reached(bytes, b, depth).contains(a as int) || reached(bytes, a, depth).contains(b as int),
    decreases level(a) - level(x as nat),
{
    lemma_reached(bytes, level, old_dates, a, depth, x);
    lemma_reached(bytes, level, old_dates, b, depth, x);
    if x != a && x != b {
        let (p, i) = choose|p: nat, i: int|
            reached(bytes, a, depth).contains(p as int) && 0 <= i < children(bytes, p).len() && (
            #[trigger] children(bytes, p)[i]) == x;
        let (q, j) = choose|q: nat, j: int|
            reached(bytes, b, depth).contains(q as int) && 0 <= j < children(bytes, q).len() && (
            #[trigger] children(bytes, q)[j]) == x;
        assert(children(bytes, p)[i] == children(bytes, q)[j]);
        lemma_reached(bytes, level, old_dates, a, depth, p as int);
        assert(level(children(bytes, p)[i]) < level(p));
        lemma_reached_twice(bytes, level, old_dates, a, b, depth, p as int);
    }
}

/// What two references of an object reach has nothing in common.
proof fn lemma_reached_apart(
    bytes: Seq<u8>,
    level: spec_fn(nat) -> nat,
    old_dates: bool,
    object: nat,
    k: int,
    m: int,
    depth: nat,
    x: int,
)
    requires
        is_forest(bytes, level, old_dates),
        0 <= k < m < children(bytes, object).len(),
        reached(bytes, children(bytes, object)[k], depth).contains(x),
    ensures
        !reached(bytes, children(bytes, object)[m], depth).contains(x),
{
    let a = children(bytes, object)[k];
    let b = children(bytes, object)[m];
    if reached(bytes, b, depth).contains(x) {
        lemma_reached_twice(bytes, level, old_dates, a, b, depth, x);
        if reached(bytes, b, depth).contains(a as int) {
            lemma_reached_parent(bytes, level, old_dates, object, k, b, depth);
        } else {
            lemma_reached_parent(bytes, level, old_dates, object, m, a, depth);
        }
    }
}

/// An object that reaches another one's child without being it reaches the parent too.
proof fn lemma_reached_parent(
    bytes: Seq<u8>,
    level: spec_fn(nat) -> nat,
    old_dates: bool,
    object: nat,
    k: int,
    from: nat,
    depth: nat,
)
    requires
        is_forest(bytes, level, old_dates),
        0 <= k < children(bytes, object).len(),
        children(bytes, object)[k] != from,
        reached(bytes, from, depth).contains(children(bytes, object)[k] as int),
    ensures
        level(object) <= level(from),
{
    let x = children(bytes, object)[k];
    lemma_reached(bytes, level, old_dates, from, depth, x as int);
    let (p, i) = choose|p: nat, i: int|
        reached(bytes, from, depth).contains(p as int) && 0 <= i < children(bytes, p).len() && (
        #[trigger] children(bytes, p)[i]) == x;
    assert(children(bytes, p)[i] == children(bytes, object)[k]);
    lemma_reached(bytes, level, old_dates, from, depth, p as int);
}

proof fn lemma_weight_is_count(
    bytes: Seq<u8>,
    level: spec_fn(nat) -> nat,
    old_dates: bool,
    object: nat,
    depth: nat,
)
    requires
        is_forest(bytes, level, old_dates),
        level(object) <= depth,
    ensures
        reached(bytes, object, depth).finite(),
        weight(bytes, object, depth, old_dates) == reached(bytes, object, depth).len(),
    decreases depth, 1int, 0int,
{
    assert(!is_early(bytes, object, old_dates));
    if container_at(bytes, object) is Some {
        let list = children(bytes, object);
        lemma_total_is_count(bytes, level, old_dates, object, list.len() as int, depth);
        assert(list.take(list.len() as int) =~= list);
        law_container_weight(bytes, object, (depth - 1) as nat, old_dates);
        if reached_from(bytes, list, depth).contains(object as int) {
            let k = lemma_reached_by(bytes, list, depth, object as int);
            lemma_reached(bytes, level, old_dates, list[k], (depth - 1) as nat, object as int);
            assert(level(children(bytes, object)[k]) < level(object));
        }
    } else {
        let list = children(bytes, object);
        assert(list.len() == 0);
        assert(reached(bytes, object, depth) =~= Set::empty().insert(object as int));
    }
}

proof fn lemma_total_is_count(
    bytes: Seq<u8>,
    level: spec_fn(nat) -> nat,
    old_dates: bool,
    object: nat,
    n: int,
    depth: nat,
)
    requires
        is_forest(bytes, level, old_dates),
        0 <= n <= children(bytes, object).len(),
        level(object) <= depth,
        depth > 0,
    ensures
        reached_from(bytes, children(bytes, object).take(n), depth).finite(),
        total_weight(bytes, children(bytes, object).take(n), (depth - 1) as nat, old_dates)
            == reached_from(bytes, children(bytes, object).take(n), depth).len(),
    decreases depth, 0int, n,
{
    let list = children(bytes, object).take(n);
    if n > 0 {
        let m = n - 1;
        let head = children(bytes, object).take(m);
        assert(list.drop_last() =~= head);
        assert(list.last() == children(bytes, object)[m]);
        lemma_total_is_count(bytes, level, old_dates, object, m, depth);
        lemma_weight_is_count(
            bytes,
            level,
            old_dates,
            children(bytes, object)[m],
            (depth - 1) as nat,
        );
        let a = reached_from(bytes, head, depth);
        let b = reached(bytes, children(bytes, object)[m], (depth - 1) as nat);
        assert(a.disjoint(b)) by {
            assert forall|x: int| a.contains(x) implies !b.contains(x) by {
                let k = lemma_reached_by(bytes, head, depth, x);
                assert(head[k] == children(bytes, object)[k]);
                lemma_reached_apart(
                    bytes,
                    level,
                    old_dates,
                    object,
                    k,
                    m,
                    (depth - 1) as nat,
                    x,
                );
            }
        }
        vstd::set_lib::lemma_set_disjoint_lens(a, b);
        assert(reached_from(bytes, list, depth) =~= a + b);
    }
}

/// The numbers that stand as references at the first `n` places of a list.
spec fn numbers_at(bytes: Seq<u8>, n: nat) -> Set<int>
    decreases n,
{
    if n == 0 {
        Set::empty()
    } else {
        numbers_at(bytes, (n - 1) as nat).insert(
            field(bytes, n - 1, ref_size(bytes)) as int,
        )
    }
}

proof fn lemma_numbers_at(bytes: Seq<u8>, n: nat)
    ensures
        numbers_at(bytes, n).finite(),
        numbers_at(bytes, n).len() <= n,
        forall|k: int|
            0 <= k < n ==> numbers_at(bytes, n).contains(
                #[trigger] field(bytes, k, ref_size(bytes)) as int,
            ),
    decreases n,
{
    if n > 0 {
        lemma_numbers_at(bytes, (n - 1) as nat);
    }
}

/// Every reference stands somewhere in the list.
proof fn lemma_reference_place(bytes: Seq<u8>, object: nat, i: int)
    requires
        0 <= i < children(bytes, object).len(),
    ensures
        numbers_at(bytes, bytes.len() + 1).contains(children(bytes, object)[i] as int),
{
    let at = container_at(bytes, object)->0;
    let (n, size) = (ref_count(bytes, at) as int, ref_size(bytes));
    let place = refs_start(bytes, at) + i * size;
    assert(0 <= i * size <= n * size) by (nonlinear_arith)
        requires
            0 <= i <= n,
            0 <= size,
    ;
    lemma_numbers_at(bytes, bytes.len() + 1);
    assert(children(bytes, object)[i] == field(bytes, place, size));
    assert(0 <= place < bytes.len() + 1);
}

/// Where no object is referred to twice, as many values are read as there are objects that are
/// reached, each once. They are no more than there are places in the list for references, and no
/// more than the object table has entries where all references are to its entries.
pub proof fn law_each_object_is_read_once(
    bytes: Seq<u8>,
    level: spec_fn(nat) -> nat,
    old_dates: bool,
    object: nat,
    depth: nat,
)
    requires
        is_forest(bytes, level, old_dates),
        level(object) <= depth,
    ensures
        weight(bytes, object, depth, old_dates) == reached(bytes, object, depth).len(),
        weight(bytes, object, depth, old_dates) <= bytes.len() + 2,
        object < object_count(bytes) && (forall|o: nat, i: int|
            0 <= i < children(bytes, o).len() ==> (#[trigger] children(bytes, o)[i]) < object_count(
                bytes,
            )) ==> weight(bytes, object, depth, old_dates) <= object_count(bytes),
{
    lemma_weight_is_count(bytes, level, old_dates, object, depth);
    let all = reached(bytes, object, depth);
    let places = numbers_at(bytes, bytes.len() + 1).insert(object as int);
    lemma_numbers_at(bytes, bytes.len() + 1);
    assert(all.subset_of(places)) by {
        assert forall|x: int| all.contains(x) implies places.contains(x) by {
            lemma_reached(bytes, level, old_dates, object, depth, x);
            if x != object {
                let (p, i) = choose|p: nat, i: int|
                    all.contains(p as int) && 0 <= i < children(bytes, p).len() && (
                    #[trigger] children(bytes, p)[i]) == x;
                lemma_reference_place(bytes, p, i);
            }
        }
    }
    vstd::set_lib::lemma_len_subset(all, places);
    let count = object_count(bytes) as int;
    if object < count && (forall|o: nat, i: int|
        0 <= i < children(bytes, o).len() ==> (#[trigger] children(bytes, o)[i]) < count) {
        let entries = vstd::set_lib::set_int_range(0, count);
        vstd::set_lib::lemma_int_range(0, count);
        assert(all.subset_of(entries)) by {
            assert forall|x: int| all.contains(x) implies entries.contains(x) by {
                lemma_reached(bytes, level, old_dates, object, depth, x);
            }
        }
        vstd::set_lib::lemma_len_subset(all, entries);
    }
}

/// A list whose dates are not too early, whose arrays and dictionaries are nested at most a
/// thousand deep and in which no object is referred to twice is never refused, whatever else its
/// objects are.
pub proof fn law_ordinary_list_is_read(
    bytes: Seq<u8>,
    level: spec_fn(nat) -> nat,
    old_dates: bool,
)
    requires
        is_forest(bytes, level, old_dates),
        level(root_object(bytes)) <= 1000,
    ensures
        binary_within_limits(bytes, old_dates),
{
    if has_table(bytes) {
        law_each_object_is_read_once(bytes, level, old_dates, root_object(bytes), 1000);
    }
}

/// A list without an object table is left to the reader.
pub proof fn law_list_without_table_is_read(bytes: Seq<u8>, old_dates: bool)
    requires
        bytes.len() < 32 || table_start(bytes) + object_count(bytes) * offset_size(bytes)
            > bytes.len() - 32,
    ensures
        binary_within_limits(bytes, old_dates),
{
}

/// The last 26 bytes of a list: the two sizes, then three numbers of eight bytes.
pub proof fn law_trailer_layout(
    front: Seq<u8>,
    offset_bytes: u8,
    ref_bytes: u8,
    count: Seq<u8>,
    root: Seq<u8>,
    start: Seq<u8>,
)
    requires
        count.len() == 8,
        root.len() == 8,
        start.len() == 8,
    ensures
        ({
            let bytes = front + seq![offset_bytes, ref_bytes] + count + root + start;
            &&& offset_size(bytes) == offset_bytes
            &&& ref_size(bytes) == ref_bytes
            &&& object_count(bytes) == be_nat(count)
            &&& root_object(bytes) == be_nat(root)
            &&& table_start(bytes) == be_nat(start)
        }),
{
    let bytes = front + seq![offset_bytes, ref_bytes] + count + root + start;
    let n = bytes.len() as int;
    assert(bytes.subrange(n - 24, n - 16) =~= count);
    assert(bytes.subrange(n - 16, n - 8) =~= root);
    assert(bytes.subrange(n - 8, n) =~= start);
}

/// Numbers have one, two, three, four or eight bytes, and the table ends in front of the trailer.
pub proof fn law_table_stands_before_trailer(bytes: Seq<u8>)
    ensures
        has_table(bytes) <==> {
            &&& bytes.len() >= 32
            &&& seq![1int, 2, 3, 4, 8].contains(offset_size(bytes))
            &&& seq![1int, 2, 3, 4, 8].contains(ref_size(bytes))
            &&& table_start(bytes) + object_count(bytes) * offset_size(bytes) + 32 <= bytes.len()
        },
{
    let sizes = seq![1int, 2, 3, 4, 8];
    assert(sizes[0] == 1 && sizes[1] == 2 && sizes[2] == 3 && sizes[3] == 4 && sizes[4] == 8);
}

/// An entry of the object table says where the object stands, as long as that is in front of the
/// trailer.
pub proof fn law_table_entry(before: Seq<u8>, entry: Seq<u8>, after: Seq<u8>, object: nat)
    requires
        offset_size(before + entry + after) == entry.len(),
        object < object_count(before + entry + after),
        before.len() == table_start(before + entry + after) + object * entry.len(),
    ensures
        be_nat(entry) + 32 < (before + entry + after).len() ==> object_at(
            before + entry + after,
            object,
        ) == Some(be_nat(entry) as int),
        be_nat(entry) + 32 >= (before + entry + after).len() ==> object_at(
            before + entry + after,
            object,
        ) is None,
{
    let bytes = before + entry + after;
    let at = before.len() as int;
    assert(bytes.subrange(at, at + entry.len()) =~= entry);
}

/// An object that the table has no entry for is nowhere.
pub proof fn law_no_table_entry(bytes: Seq<u8>, object: nat)
    requires
        object >= object_count(bytes),
    ensures
        object_at(bytes, object) is None,
{
}

/// Tokens from 160 are arrays, those from 208 dictionaries, sixteen of each, and no others.
pub proof fn law_container_tokens(token: u8)
    ensures
        is_container(token) <==> 160 <= token <= 175 || 208 <= token <= 223,
{
}

/// An array or a dictionary of fewer than fifteen entries holds their number in its token, and its
/// references follow at once. A dictionary has a key and a value for each.
pub proof fn law_short_container(before: Seq<u8>, n: u8, after: Seq<u8>)
    requires
        n < 15,
    ensures
        ({
            let bytes = before.push((160 + n) as u8) + after;
            let at = before.len() as int;
            &&& refs_start(bytes, at) == at + 1
            &&& n * ref_size(bytes) <= after.len() ==> ref_count(bytes, at) == n
            &&& n * ref_size(bytes) > after.len() ==> ref_count(bytes, at) == 0
        }),
        ({
            let bytes = before.push((208 + n) as u8) + after;
            let at = before.len() as int;
            &&& refs_start(bytes, at) == at + 1
            &&& 2 * n * ref_size(bytes) <= after.len() ==> ref_count(bytes, at) == 2 * n
            &&& 2 * n * ref_size(bytes) > after.len() ==> ref_count(bytes, at) == 0
        }),
{
    assert((2 * n) * 1 == 2 * n);
}

/// One of more entries has its number behind the token and a byte whose two lowest bits give the
/// number's size: one, two, four or eight bytes.
pub proof fn law_long_container(
    before: Seq<u8>,
    array: bool,
    selector: u8,
    number: Seq<u8>,
    after: Seq<u8>,
)
    requires
        selector % 4 == 0 && number.len() == 1 || selector % 4 == 1 && number.len() == 2 || selector
            % 4 == 2 && number.len() == 4 || selector % 4 == 3 && number.len() == 8,
    ensures
        ({
            let token = if array {
                175u8
            } else {
                223u8
            };
            let bytes = before + seq![token, selector] + number + after;
            let at = before.len() as int;
            let n = if array {
                be_nat(number)
            } else {
                2 * be_nat(number)
            };
            &&& refs_start(bytes, at) == at + 2 + number.len()
            &&& n * ref_size(bytes) <= after.len() ==> ref_count(bytes, at) == n
            &&& n * ref_size(bytes) > after.len() ==> ref_count(bytes, at) == 0
        }),
{
    let token = if array {
        175u8
    } else {
        223u8
    };
    let bytes = before + seq![token, selector] + number + after;
    let at = before.len() as int;
    assert(bytes[at] == token);
    assert(bytes[at + 1] == selector);
    assert(bytes.subrange(at + 2, at + 2 + number.len()) =~= number);
}

/// The references of an array or a dictionary follow one another, each a number of the list's
/// reference size.
pub proof fn law_reference(
    before: Seq<u8>,
    reference: Seq<u8>,
    after: Seq<u8>,
    object: nat,
    at: int,
    i: int,
)
    requires
        ref_size(before + reference + after) == reference.len(),
        container_at(before + reference + after, object) == Some(at),
        0 <= i < ref_count(before + reference + after, at),
        before.len() == refs_start(before + reference + after, at) + i * reference.len(),
    ensures
        children(before + reference + after, object).len() == ref_count(
            before + reference + after,
            at,
        ),
        children(before + reference + after, object)[i] == be_nat(reference),
{
    let bytes = before + reference + after;
    let start = before.len() as int;
    assert(bytes.subrange(start, start + reference.len()) =~= reference);
}

/// A list with an object table is read where its root weighs at most as much as the list is long
/// and 1048576 more, a thousand levels down, and refused where it weighs more.
pub proof fn law_weight_decides(bytes: Seq<u8>, old_dates: bool)
    requires
        has_table(bytes),
    ensures
        binary_within_limits(bytes, old_dates) <==> weight(
            bytes,
            root_object(bytes),
            1000,
            old_dates,
        ) <= bytes.len() + 1048576,
{
}

} // verus!
