//! Finding the AAC access unit in a decrypted audio payload.
//!
//! Senders frame access units in several ways: bare, with an ADTS header, with an AU header
//! section, with an AU header alone, and with a few bytes in front of each.
use crate::text::{decimal, hex, law_decimal_reads_back, push_hex, spelled};
use crate::wire::{be_nat, bytes_eq, read_be_u16};
use vstd::prelude::*;

verus! {

/// `base` for offset zero, `base+offset` for others.
pub open spec fn offset_label(base: Seq<char>, offset: nat) -> Seq<char> {
    if offset == 0 {
        base
    } else {
        base + seq!['+'] + decimal(offset)
    }
}

/// The label of an access unit found behind `offset` bytes.
pub fn aac_au_label_for_offset(offset: usize) -> (r: &'static str)
    ensures
        r@ == offset_label("aac-au"@, if offset < 16 {
            offset as nat
        } else {
            16
        }),
{
    proof {
        reveal_strlit("aac-au");
        reveal_strlit("aac-au+1");
        reveal_strlit("aac-au+2");
        reveal_strlit("aac-au+3");
        reveal_strlit("aac-au+4");
        reveal_strlit("aac-au+5");
        reveal_strlit("aac-au+6");
        reveal_strlit("aac-au+7");
        reveal_strlit("aac-au+8");
        reveal_strlit("aac-au+9");
        reveal_strlit("aac-au+10");
        reveal_strlit("aac-au+11");
        reveal_strlit("aac-au+12");
        reveal_strlit("aac-au+13");
        reveal_strlit("aac-au+14");
        reveal_strlit("aac-au+15");
        reveal_strlit("aac-au+16");
        reveal_with_fuel(decimal, 3);
    }
    let r: &'static str = match offset {
        0 => "aac-au",
        1 => "aac-au+1",
        2 => "aac-au+2",
        3 => "aac-au+3",
        4 => "aac-au+4",
        5 => "aac-au+5",
        6 => "aac-au+6",
        7 => "aac-au+7",
        8 => "aac-au+8",
        9 => "aac-au+9",
        10 => "aac-au+10",
        11 => "aac-au+11",
        12 => "aac-au+12",
        13 => "aac-au+13",
        14 => "aac-au+14",
        15 => "aac-au+15",
        _ => "aac-au+16",
    };
    assert(r@ =~= offset_label("aac-au"@, if offset < 16 {
        offset as nat
    } else {
        16
    }));
    r
}

/// The label of an access unit with a bare header behind `offset` bytes.
pub fn aac_au_direct_label_for_offset(offset: usize) -> (r: &'static str)
    ensures
        r@ == offset_label("aac-au-direct"@, if offset < 16 {
            offset as nat
        } else {
            16
        }),
{
    proof {
        reveal_strlit("aac-au-direct");
        reveal_strlit("aac-au-direct+1");
        reveal_strlit("aac-au-direct+2");
        reveal_strlit("aac-au-direct+3");
        reveal_strlit("aac-au-direct+4");
        reveal_strlit("aac-au-direct+5");
        reveal_strlit("aac-au-direct+6");
        reveal_strlit("aac-au-direct+7");
        reveal_strlit("aac-au-direct+8");
        reveal_strlit("aac-au-direct+9");
        reveal_strlit("aac-au-direct+10");
        reveal_strlit("aac-au-direct+11");
        reveal_strlit("aac-au-direct+12");
        reveal_strlit("aac-au-direct+13");
        reveal_strlit("aac-au-direct+14");
        reveal_strlit("aac-au-direct+15");
        reveal_strlit("aac-au-direct+16");
        reveal_with_fuel(decimal, 3);
    }
    let r: &'static str = match offset {
        0 => "aac-au-direct",
        1 => "aac-au-direct+1",
        2 => "aac-au-direct+2",
        3 => "aac-au-direct+3",
        4 => "aac-au-direct+4",
        5 => "aac-au-direct+5",
        6 => "aac-au-direct+6",
        7 => "aac-au-direct+7",
        8 => "aac-au-direct+8",
        9 => "aac-au-direct+9",
        10 => "aac-au-direct+10",
        11 => "aac-au-direct+11",
        12 => "aac-au-direct+12",
        13 => "aac-au-direct+13",
        14 => "aac-au-direct+14",
        15 => "aac-au-direct+15",
        _ => "aac-au-direct+16",
    };
    assert(r@ =~= offset_label("aac-au-direct"@, if offset < 16 {
        offset as nat
    } else {
        16
    }));
    r
}

/// The label of raw data behind `offset` bytes.
pub fn aac_raw_label_for_offset(offset: usize) -> (r: &'static str)
    ensures
        r@ == offset_label("aac"@, if offset < 32 {
            offset as nat
        } else {
            32
        }),
{
    proof {
        reveal_strlit("aac");
        reveal_strlit("aac+1");
        reveal_strlit("aac+2");
        reveal_strlit("aac+3");
        reveal_strlit("aac+4");
        reveal_strlit("aac+5");
        reveal_strlit("aac+6");
        reveal_strlit("aac+7");
        reveal_strlit("aac+8");
        reveal_strlit("aac+9");
        reveal_strlit("aac+10");
        reveal_strlit("aac+11");
        reveal_strlit("aac+12");
        reveal_strlit("aac+13");
        reveal_strlit("aac+14");
        reveal_strlit("aac+15");
        reveal_strlit("aac+16");
        reveal_strlit("aac+17");
        reveal_strlit("aac+18");
        reveal_strlit("aac+19");
        reveal_strlit("aac+20");
        reveal_strlit("aac+21");
        reveal_strlit("aac+22");
        reveal_strlit("aac+23");
        reveal_strlit("aac+24");
        reveal_strlit("aac+25");
        reveal_strlit("aac+26");
        reveal_strlit("aac+27");
        reveal_strlit("aac+28");
        reveal_strlit("aac+29");
        reveal_strlit("aac+30");
        reveal_strlit("aac+31");
        reveal_strlit("aac+32");
        reveal_with_fuel(decimal, 3);
    }
    let r: &'static str = match offset {
        0 => "aac",
        1 => "aac+1",
        2 => "aac+2",
        3 => "aac+3",
        4 => "aac+4",
        5 => "aac+5",
        6 => "aac+6",
        7 => "aac+7",
        8 => "aac+8",
        9 => "aac+9",
        10 => "aac+10",
        11 => "aac+11",
        12 => "aac+12",
        13 => "aac+13",
        14 => "aac+14",
        15 => "aac+15",
        16 => "aac+16",
        17 => "aac+17",
        18 => "aac+18",
        19 => "aac+19",
        20 => "aac+20",
        21 => "aac+21",
        22 => "aac+22",
        23 => "aac+23",
        24 => "aac+24",
        25 => "aac+25",
        26 => "aac+26",
        27 => "aac+27",
        28 => "aac+28",
        29 => "aac+29",
        30 => "aac+30",
        31 => "aac+31",
        _ => "aac+32",
    };
    assert(r@ =~= offset_label("aac"@, if offset < 32 {
        offset as nat
    } else {
        32
    }));
    r
}

/// `n` bits in whole bytes.
pub open spec fn bytes_of_bits(bits: nat) -> nat {
    (bits + 7) / 8
}

/// Where the access unit stands behind an AU header section: a 16-bit length of the headers in
/// bits, the headers, the unit. The section is a whole number of bytes, 16 at most. A first header
/// of 16 bits says the size of the unit in its 13 high bits, in bits; without one the unit is all
/// that follows, 8 bytes at least.
pub open spec fn section_unit(payload: Seq<u8>) -> Option<(int, int)> {
    let bits = be_nat(payload.take(2));
    let start = 2 + bits as int / 8;
    if payload.len() < 4 || bits == 0 || bits % 8 != 0 || bits > 128 || start >= payload.len() {
        None
    } else if bits >= 16 {
        let size_bits = be_nat(payload.subrange(2, 4)) / 8;
        let end = start + bytes_of_bits(size_bits);
        if size_bits == 0 || end > payload.len() {
            None
        } else {
            Some((start, end))
        }
    } else if payload.len() - start >= 8 {
        Some((start, payload.len() as int))
    } else {
        None
    }
}

/// Where the access unit stands behind a bare 16-bit AU header. It has 8 bytes at least.
pub open spec fn direct_unit(payload: Seq<u8>) -> Option<(int, int)> {
    let size_bits = be_nat(payload.take(2)) / 8;
    let end = 2 + bytes_of_bits(size_bits) as int;
    if payload.len() < 3 || size_bits == 0 || end > payload.len() || end < 10 {
        None
    } else {
        Some((2, end))
    }
}

/// Whether `payload` starts with the twelve set bits of an ADTS header.
pub open spec fn adts_sync(payload: Seq<u8>) -> bool {
    payload.len() >= 2 && payload[0] == 0xff && payload[1] >= 0xf0
}

/// The access unit behind an AU header section.
pub fn extract_aac_access_unit(payload: &[u8]) -> (r: Option<&[u8]>)
    ensures
        match r {
            None => section_unit(payload@) is None,
            Some(au) => section_unit(payload@) matches Some((a, b)) && au@ == payload@.subrange(
                a,
                b,
            ),
        },
{
    if payload.len() < 4 {
        return None;
    }
    assert(payload@.take(2) =~= payload@.subrange(0, 2));
    let bits: usize = read_be_u16(payload, 0) as usize;
    if bits == 0 || bits % 8 != 0 || bits > 128 {
        return None;
    }
    let start: usize = 2 + bits / 8;
    if start >= payload.len() {
        return None;
    }
    if bits >= 16 {
        let size_bits: usize = (read_be_u16(payload, 2) / 8) as usize;
        if size_bits == 0 {
            return None;
        }
        let size: usize = (size_bits + 7) / 8;
        if size <= payload.len() - start {
            return Some(&payload[start..start + size]);
        }
        return None;
    }
    if payload.len() - start >= 8 {
        Some(&payload[start..payload.len()])
    } else {
        None
    }
}

/// The access unit behind a bare AU header.
pub fn extract_aac_access_unit_direct_header(payload: &[u8]) -> (r: Option<&[u8]>)
    ensures
        match r {
            None => direct_unit(payload@) is None,
            Some(au) => direct_unit(payload@) matches Some((a, b)) && au@ == payload@.subrange(
                a,
                b,
            ),
        },
{
    if payload.len() < 3 {
        return None;
    }
    assert(payload@.take(2) =~= payload@.subrange(0, 2));
    let size_bits: usize = (read_be_u16(payload, 0) / 8) as usize;
    if size_bits == 0 {
        return None;
    }
    let size: usize = (size_bits + 7) / 8;
    if size > payload.len() - 2 {
        return None;
    }
    if size >= 8 {
        Some(&payload[2..2 + size])
    } else {
        None
    }
}

/// Whether `payload` starts with an ADTS header.
pub fn starts_with_adts_sync(payload: &[u8]) -> (r: bool)
    ensures
        r == adts_sync(payload@),
{
    payload.len() >= 2 && payload[0] == 0xff && payload[1] >= 0xf0
}

/// A part of a payload with its label.
#[verifier::ext_equal]
pub struct Candidate {
    /// The bytes.
    pub bytes: Seq<u8>,
    /// How they were found.
    pub label: Seq<char>,
}

/// The bytes of `payload` in a range, where there is one.
pub open spec fn part(payload: Seq<u8>, range: Option<(int, int)>, label: Seq<char>) -> Seq<
    Candidate,
> {
    match range {
        None => Seq::empty(),
        Some((a, b)) => seq![Candidate { bytes: payload.subrange(a, b), label }],
    }
}

/// The first offset, from `offset` to 16, behind which an AU header section with its unit stands.
pub open spec fn first_shifted(payload: Seq<u8>, offset: nat) -> Option<nat>
    decreases 17 - offset,
{
    if offset > 16 || offset > payload.len() {
        None
    } else if section_unit(payload.skip(offset as int)) is Some {
        Some(offset)
    } else {
        first_shifted(payload, offset + 1)
    }
}

/// The first access unit behind an AU header section, with up to 16 bytes in front of it.
pub fn extract_aac_access_unit_shifted(payload: &[u8]) -> (r: Option<(&[u8], &'static str)>)
    ensures
        match r {
            None => first_shifted(payload@, 0) is None,
            Some((au, label)) => first_shifted(payload@, 0) matches Some(offset) && section_unit(
                payload@.skip(offset as int),
            ) matches Some((a, b)) && au@ == payload@.skip(offset as int).subrange(a, b) && label@
                == offset_label("aac-au"@, offset),
        },
{
    let mut offset: usize = 0;
    while offset <= 16 && payload.len() >= 4 && offset <= payload.len() - 4
        invariant
            offset <= 17,
            first_shifted(payload@, 0) == first_shifted(payload@, offset as nat),
        decreases 17 - offset,
    {
        let view: &[u8] = &payload[offset..payload.len()];
        assert(view@ =~= payload@.skip(offset as int));
        if let Some(au) = extract_aac_access_unit(view) {
            return Some((au, aac_au_label_for_offset(offset)));
        }
        offset = offset + 1;
    }
    proof {
        lemma_no_shifted(payload@, offset as nat);
    }
    None
}

/// Behind too large an offset there is no room for a section.
proof fn lemma_no_shifted(payload: Seq<u8>, offset: nat)
    requires
        offset > 16 || payload.len() < offset + 4,
    ensures
        first_shifted(payload, offset) is None,
    decreases 17 - offset,
{
    if offset <= 16 && offset <= payload.len() {
        lemma_no_shifted(payload, offset + 1);
    }
}

/// The part of `payload` to decode: behind an ADTS header, at the start or behind 4 bytes; else
/// the unit of an AU header section, behind up to 16 bytes; else the unit of a bare AU header;
/// else all of it.
pub open spec fn selected(payload: Seq<u8>) -> Candidate {
    if adts_sync(payload) && payload.len() > 7 {
        Candidate { bytes: payload.skip(7), label: "aac-adts"@ }
    } else if payload.len() > 11 && adts_sync(payload.skip(4)) {
        Candidate { bytes: payload.skip(11), label: "aac-adts+4"@ }
    } else {
        match first_shifted(payload, 0) {
            Some(offset) => part(
                payload.skip(offset as int),
                section_unit(payload.skip(offset as int)),
                offset_label("aac-au"@, offset),
            )[0],
            None => match direct_unit(payload) {
                Some((a, b)) => Candidate {
                    bytes: payload.subrange(a, b),
                    label: "aac-au-direct"@,
                },
                None => Candidate { bytes: payload, label: "aac"@ },
            },
        }
    }
}

/// The part of `payload` to decode, with its label.
pub fn select_aac_payload(payload: &[u8]) -> (r: (&[u8], &'static str))
    ensures
        r.0@ == selected(payload@).bytes,
        r.1@ == selected(payload@).label,
{
    let len: usize = payload.len();
    if starts_with_adts_sync(payload) && len > 7 {
        assert(payload@.subrange(7, len as int) =~= payload@.skip(7));
        return (&payload[7..len], "aac-adts");
    }
    if len > 11 {
        let view: &[u8] = &payload[4..len];
        assert(view@ =~= payload@.skip(4));
        if starts_with_adts_sync(view) {
            assert(payload@.subrange(11, len as int) =~= payload@.skip(11));
            return (&payload[11..len], "aac-adts+4");
        }
    }
    if let Some((au, label)) = extract_aac_access_unit_shifted(payload) {
        return (au, label);
    }
    if let Some(au) = extract_aac_access_unit_direct_header(payload) {
        return (au, "aac-au-direct");
    }
    (payload, "aac")
}

/// What stands behind an ADTS header at the start of `payload` or behind 4 bytes.
pub open spec fn adts_parts(payload: Seq<u8>) -> Seq<Candidate> {
    let first: Seq<Candidate> = if adts_sync(payload) && payload.len() > 7 {
        seq![Candidate { bytes: payload.skip(7), label: "aac-adts"@ }]
    } else {
        Seq::empty()
    };
    let second: Seq<Candidate> = if payload.len() > 11 && adts_sync(payload.skip(4)) {
        seq![Candidate { bytes: payload.skip(11), label: "aac-adts+4"@ }]
    } else {
        Seq::empty()
    };
    first + second
}

/// The units behind AU headers, with `offset` bytes in front.
pub open spec fn unit_parts_at(payload: Seq<u8>, offset: nat) -> Seq<Candidate> {
    if payload.len() < offset + 4 {
        Seq::empty()
    } else {
        let view = payload.skip(offset as int);
        part(view, section_unit(view), offset_label("aac-au"@, offset)) + part(
            view,
            direct_unit(view),
            offset_label("aac-au-direct"@, offset),
        )
    }
}

/// The units behind AU headers, with fewer than `offsets` bytes in front.
pub open spec fn unit_parts(payload: Seq<u8>, offsets: nat) -> Seq<Candidate>
    decreases offsets,
{
    if offsets == 0 {
        Seq::empty()
    } else {
        unit_parts(payload, (offsets - 1) as nat) + unit_parts_at(payload, (offsets - 1) as nat)
    }
}

/// The payload without its first bytes, for each count below `offsets` that leaves more than 8.
pub open spec fn raw_parts(payload: Seq<u8>, offsets: nat) -> Seq<Candidate>
    decreases offsets,
{
    if offsets == 0 {
        Seq::empty()
    } else {
        let before = raw_parts(payload, (offsets - 1) as nat);
        if payload.len() > (offsets - 1) + 8 {
            before.push(
                Candidate {
                    bytes: payload.skip(offsets - 1),
                    label: offset_label("aac"@, (offsets - 1) as nat),
                },
            )
        } else {
            before
        }
    }
}

/// Every reading of `payload`, in the order in which they are tried.
pub open spec fn all_parts(payload: Seq<u8>) -> Seq<Candidate> {
    adts_parts(payload) + unit_parts(payload, 17) + raw_parts(payload, 33)
}

/// Whether `parts` holds these bytes.
pub open spec fn holds_bytes(parts: Seq<Candidate>, bytes: Seq<u8>) -> bool {
    exists|i: int| 0 <= i < parts.len() && (#[trigger] parts[i]).bytes == bytes
}

/// The parts of 8 bytes or more, each run of bytes once, under its first label.
pub open spec fn distinct_parts(parts: Seq<Candidate>) -> Seq<Candidate>
    decreases parts.len(),
{
    if parts.len() == 0 {
        Seq::empty()
    } else {
        let before = distinct_parts(parts.drop_last());
        let last = parts.last();
        if last.bytes.len() < 8 || holds_bytes(before, last.bytes) {
            before
        } else {
            before.push(last)
        }
    }
}

/// The parts of a payload that are worth a decoding attempt.
pub open spec fn candidates(payload: Seq<u8>) -> Seq<Candidate> {
    distinct_parts(all_parts(payload))
}

/// The readings that are kept have 8 bytes or more, differ from each other in their bytes, and
/// leave out none of 8 bytes or more.
pub proof fn law_candidates_distinct(parts: Seq<Candidate>)
    ensures
        forall|i: int|
            0 <= i < distinct_parts(parts).len() ==> (#[trigger] distinct_parts(
                parts,
            )[i]).bytes.len() >= 8,
        forall|i: int, j: int|
            0 <= i < j < distinct_parts(parts).len() ==> (#[trigger] distinct_parts(
                parts,
            )[i]).bytes != (#[trigger] distinct_parts(parts)[j]).bytes,
        forall|k: int|
            0 <= k < parts.len() && (#[trigger] parts[k]).bytes.len() >= 8 ==> holds_bytes(
                distinct_parts(parts),
                parts[k].bytes,
            ),
        forall|i: int|
            0 <= i < distinct_parts(parts).len() ==> parts.contains(
                #[trigger] distinct_parts(parts)[i],
            ),
    decreases parts.len(),
{
    if parts.len() > 0 {
        let init = parts.drop_last();
        let before = distinct_parts(init);
        let after = distinct_parts(parts);
        law_candidates_distinct(init);
        assert forall|k: int| 0 <= k < parts.len() && (#[trigger] parts[k]).bytes.len() >= 8
            implies holds_bytes(after, parts[k].bytes) by {
            if k < init.len() {
                assert(init[k] == parts[k]);
                let i = choose|i: int|
                    0 <= i < before.len() && (#[trigger] before[i]).bytes == parts[k].bytes;
                assert(after[i].bytes == parts[k].bytes);
            } else if !holds_bytes(before, parts[k].bytes) {
                assert(after[before.len() as int].bytes == parts[k].bytes);
            }
        }
        assert forall|i: int, j: int| 0 <= i < j < after.len() implies (#[trigger] after[i]).bytes
            != (#[trigger] after[j]).bytes by {
            assert(after[i] == before[i]);
            if j < before.len() {
                assert(after[j] == before[j]);
            }
        }
        assert forall|i: int| 0 <= i < after.len() implies parts.contains(
            #[trigger] after[i],
        ) by {
            if i < before.len() {
                assert(init.contains(before[i]));
                let k = choose|k: int| 0 <= k < init.len() && init[k] == before[i];
                assert(parts[k] == after[i]);
            } else {
                assert(parts[parts.len() - 1] == after[i]);
            }
        }
    }
}

/// `bytes` stand together in `payload`.
pub open spec fn is_part_of(bytes: Seq<u8>, payload: Seq<u8>) -> bool {
    exists|a: int, b: int|
        0 <= a <= b <= payload.len() && bytes == #[trigger] payload.subrange(a, b)
}

proof fn lemma_unit_parts(payload: Seq<u8>, offsets: nat)
    ensures
        forall|i: int|
            0 <= i < unit_parts(payload, offsets).len() ==> is_part_of(
                (#[trigger] unit_parts(payload, offsets)[i]).bytes,
                payload,
            ),
    decreases offsets,
{
    if offsets > 0 {
        let o = (offsets - 1) as nat;
        lemma_unit_parts(payload, o);
        let before = unit_parts(payload, o);
        let here = unit_parts_at(payload, o);
        assert forall|i: int| 0 <= i < here.len() implies is_part_of(
            (#[trigger] here[i]).bytes,
            payload,
        ) by {
            let view = payload.skip(o as int);
            let first = part(view, section_unit(view), offset_label("aac-au"@, o));
            let range = if i < first.len() {
                section_unit(view)
            } else {
                direct_unit(view)
            };
            let (a, b) = range->0;
            assert(here[i].bytes == view.subrange(a, b));
            assert(view.subrange(a, b) =~= payload.subrange(a + o, b + o));
        }
        assert forall|i: int| 0 <= i < unit_parts(payload, offsets).len() implies is_part_of(
            (#[trigger] unit_parts(payload, offsets)[i]).bytes,
            payload,
        ) by {
            if i < before.len() {
                assert(unit_parts(payload, offsets)[i] == before[i]);
            } else {
                assert(unit_parts(payload, offsets)[i] == here[i - before.len()]);
            }
        }
    }
}

proof fn lemma_raw_parts(payload: Seq<u8>, offsets: nat)
    ensures
        forall|i: int|
            0 <= i < raw_parts(payload, offsets).len() ==> is_part_of(
                (#[trigger] raw_parts(payload, offsets)[i]).bytes,
                payload,
            ),
        offsets > 0 && payload.len() > 8 ==> raw_parts(payload, offsets).len() > 0
            && raw_parts(payload, offsets)[0].bytes == payload,
    decreases offsets,
{
    if offsets > 0 {
        let o = offsets - 1;
        lemma_raw_parts(payload, o as nat);
        let before = raw_parts(payload, o as nat);
        let all = raw_parts(payload, offsets);
        assert(payload.skip(0) =~= payload);
        assert forall|i: int| 0 <= i < all.len() implies is_part_of(
            (#[trigger] all[i]).bytes,
            payload,
        ) by {
            if i < before.len() {
                assert(all[i] == before[i]);
            } else {
                assert(payload.skip(o) =~= payload.subrange(o, payload.len() as int));
            }
        }
    }
}

/// Every candidate stands in the payload as it is, and the whole payload is a candidate whenever
/// it has more than 8 bytes.
pub proof fn law_candidates_are_parts(payload: Seq<u8>)
    ensures
        forall|i: int|
            0 <= i < candidates(payload).len() ==> is_part_of(
                (#[trigger] candidates(payload)[i]).bytes,
                payload,
            ),
        payload.len() > 8 ==> holds_bytes(candidates(payload), payload),
{
    let all = all_parts(payload);
    let adts = adts_parts(payload);
    let units = unit_parts(payload, 17);
    let raw = raw_parts(payload, 33);
    lemma_unit_parts(payload, 17);
    lemma_raw_parts(payload, 33);
    law_candidates_distinct(all);
    assert forall|k: int| 0 <= k < all.len() implies is_part_of(
        (#[trigger] all[k]).bytes,
        payload,
    ) by {
        if k < adts.len() {
            if payload.len() > 7 {
                assert(payload.skip(7) =~= payload.subrange(7, payload.len() as int));
            }
            if payload.len() > 11 {
                assert(payload.skip(11) =~= payload.subrange(11, payload.len() as int));
            }
            assert(all[k] == adts[k]);
        } else if k < adts.len() + units.len() {
            assert(all[k] == units[k - adts.len()]);
        } else {
            assert(all[k] == raw[k - adts.len() - units.len()]);
        }
    }
    assert forall|i: int| 0 <= i < candidates(payload).len() implies is_part_of(
        (#[trigger] candidates(payload)[i]).bytes,
        payload,
    ) by {
        assert(all.contains(candidates(payload)[i]));
        let k = choose|k: int| 0 <= k < all.len() && all[k] == candidates(payload)[i];
        assert(is_part_of(all[k].bytes, payload));
    }
    if payload.len() > 8 {
        assert(all[(adts.len() + units.len()) as int] == raw[0]);
    }
}

/// What a list of slices with labels stands for.
pub open spec fn parts_view(v: Seq<(&[u8], &'static str)>) -> Seq<Candidate> {
    v.map_values(|c: (&[u8], &'static str)| Candidate { bytes: c.0@, label: c.1@ })
}

fn push_part<'a>(list: &mut Vec<(&'a [u8], &'static str)>, bytes: &'a [u8], label: &'static str)
    ensures
        parts_view(final(list)@) == parts_view(old(list)@).push(
            Candidate { bytes: bytes@, label: label@ },
        ),
{
    let ghost before = list@;
    list.push((bytes, label));
    assert(parts_view(list@) =~= parts_view(before).push(
        Candidate { bytes: bytes@, label: label@ },
    ));
}

/// The parts of `payload` that are worth a decoding attempt, with their labels.
pub fn collect_aac_payload_candidates<'a>(payload: &'a [u8]) -> (r: Vec<(&'a [u8], &'static str)>)
    ensures
        parts_view(r@) == candidates(payload@),
{
    let len: usize = payload.len();
    let mut all: Vec<(&'a [u8], &'static str)> = Vec::new();
    assert(parts_view(all@) =~= Seq::empty());
    if starts_with_adts_sync(payload) && len > 7 {
        assert(payload@.subrange(7, len as int) =~= payload@.skip(7));
        push_part(&mut all, &payload[7..len], "aac-adts");
    }
    if len > 11 {
        let view: &[u8] = &payload[4..len];
        assert(view@ =~= payload@.skip(4));
        if starts_with_adts_sync(view) {
            assert(payload@.subrange(11, len as int) =~= payload@.skip(11));
            push_part(&mut all, &payload[11..len], "aac-adts+4");
        }
    }
    assert(parts_view(all@) =~= adts_parts(payload@) + unit_parts(payload@, 0));
    let mut offset: usize = 0;
    while offset <= 16
        invariant
            offset <= 17,
            len == payload@.len(),
            parts_view(all@) == adts_parts(payload@) + unit_parts(payload@, offset as nat),
        decreases 17 - offset,
    {
        let ghost before = parts_view(all@);
        if len >= 4 && offset <= len - 4 {
            let view: &[u8] = &payload[offset..len];
            assert(view@ =~= payload@.skip(offset as int));
            if let Some(au) = extract_aac_access_unit(view) {
                push_part(&mut all, au, aac_au_label_for_offset(offset));
            }
            if let Some(au) = extract_aac_access_unit_direct_header(view) {
                push_part(&mut all, au, aac_au_direct_label_for_offset(offset));
            }
        }
        assert(parts_view(all@) =~= before + unit_parts_at(payload@, offset as nat));
        offset = offset + 1;
        assert(parts_view(all@) =~= adts_parts(payload@) + unit_parts(payload@, offset as nat));
    }
    assert(parts_view(all@) =~= adts_parts(payload@) + unit_parts(payload@, 17) + raw_parts(
        payload@,
        0,
    ));
    let mut offset: usize = 0;
    while offset <= 32
        invariant
            offset <= 33,
            len == payload@.len(),
            parts_view(all@) == adts_parts(payload@) + unit_parts(payload@, 17) + raw_parts(
                payload@,
                offset as nat,
            ),
        decreases 33 - offset,
    {
        let ghost before = parts_view(all@);
        if len > offset + 8 {
            assert(payload@.subrange(offset as int, len as int) =~= payload@.skip(offset as int));
            push_part(&mut all, &payload[offset..len], aac_raw_label_for_offset(offset));
        }
        offset = offset + 1;
        assert(parts_view(all@) =~= adts_parts(payload@) + unit_parts(payload@, 17) + raw_parts(
            payload@,
            offset as nat,
        ));
    }
    remove_duplicates(&all)
}

/// Whether a list holds a slice with these bytes.
fn list_holds(list: &Vec<(&[u8], &'static str)>, bytes: &[u8]) -> (r: bool)
    ensures
        r == holds_bytes(parts_view(list@), bytes@),
{
    let mut i: usize = 0;
    while i < list.len()
        invariant
            i <= list@.len(),
            forall|k: int| 0 <= k < i ==> (#[trigger] parts_view(list@)[k]).bytes != bytes@,
        decreases list@.len() - i,
    {
        if bytes_eq(list[i].0, bytes) {
            assert(parts_view(list@)[i as int].bytes == bytes@);
            return true;
        }
        assert(parts_view(list@)[i as int].bytes == list@[i as int].0@);
        i = i + 1;
    }
    false
}

/// The slices of 8 bytes or more, each run of bytes once.
fn remove_duplicates<'a>(all: &Vec<(&'a [u8], &'static str)>) -> (r: Vec<
    (&'a [u8], &'static str),
>)
    ensures
        parts_view(r@) == distinct_parts(parts_view(all@)),
{
    let ghost parts = parts_view(all@);
    let mut unique: Vec<(&'a [u8], &'static str)> = Vec::new();
    let mut i: usize = 0;
    assert(parts_view(unique@) =~= distinct_parts(parts.take(0)));
    while i < all.len()
        invariant
            i <= all@.len(),
            parts == parts_view(all@),
            parts_view(unique@) == distinct_parts(parts.take(i as int)),
        decreases all@.len() - i,
    {
        let bytes: &'a [u8] = all[i].0;
        let label: &'static str = all[i].1;
        assert(parts.take(i + 1).drop_last() =~= parts.take(i as int));
        assert(parts.take(i + 1).last() == (Candidate { bytes: bytes@, label: label@ }));
        if bytes.len() >= 8 && !list_holds(&unique, bytes) {
            push_part(&mut unique, bytes, label);
        }
        i = i + 1;
    }
    assert(parts.take(i as int) =~= parts);
    unique
}

/// How many bytes are not zero.
pub open spec fn nonzero_count(bytes: Seq<u8>) -> nat
    decreases bytes.len(),
{
    if bytes.len() == 0 {
        0
    } else {
        nonzero_count(bytes.drop_last()) + if bytes.last() != 0 {
            1nat
        } else {
            0nat
        }
    }
}

/// How many bytes are not zero.
pub fn count_nonzero(bytes: &[u8]) -> (r: usize)
    ensures
        r == nonzero_count(bytes@),
{
    let mut r: usize = 0;
    let mut i: usize = 0;
    while i < bytes.len()
        invariant
            r <= i <= bytes@.len(),
            r == nonzero_count(bytes@.take(i as int)),
        decreases bytes@.len() - i,
    {
        if bytes[i] != 0 {
            r = r + 1;
        }
        i = i + 1;
        assert(bytes@.take(i as int).drop_last() =~= bytes@.take(i - 1));
    }
    assert(bytes@.take(i as int) =~= bytes@);
    r
}

/// The first `max_len` bytes in hexadecimal.
pub fn prefix_hex(payload: &[u8], max_len: usize) -> (r: String)
    ensures
        r@ == hex(
            if max_len < payload@.len() {
                payload@.take(max_len as int)
            } else {
                payload@
            },
        ),
{
    let mut r = String::new();
    if max_len < payload.len() {
        push_hex(&mut r, &payload[0..max_len]);
        assert(payload@.subrange(0, max_len as int) =~= payload@.take(max_len as int));
    } else {
        push_hex(&mut r, payload);
    }
    assert(r@ =~= hex(
        if max_len < payload@.len() {
            payload@.take(max_len as int)
        } else {
            payload@
        },
    ));
    r
}

/// What a fresh decoder made of a candidate.
#[derive(Clone, Copy, Debug)]
pub enum DecodeTrial {
    /// No decoder could be made. Nothing is tried after this.
    Unavailable,
    /// The decoder refused the candidate.
    Failed,
    /// The decoder gave samples.
    Decoded {
        /// How many samples.
        sample_count: usize,
        /// The IEEE 754 single-precision bit pattern of the greatest absolute sample. Patterns of
        /// numbers that are not negative are in the order of the numbers.
        peak_bits: u32,
    },
}

/// The bit pattern of the single-precision number nearest to one ten-millionth. Samples up to this
/// are silence.
pub const SILENCE_PEAK_BITS: u32 = 0x33d6_bf95;

impl DecodeTrial {
    /// The decoder gave samples, at least one.
    pub open spec fn has_samples(self) -> bool {
        self matches DecodeTrial::Decoded { sample_count, .. } && sample_count > 0
    }

    /// The pattern of the greatest absolute sample.
    pub open spec fn peak(self) -> u32 {
        self->peak_bits
    }

    /// The decoder gave samples louder than silence.
    pub open spec fn audible(self) -> bool {
        self.has_samples() && self.peak() > SILENCE_PEAK_BITS
    }

    /// The decoder gave samples, all of them silence.
    pub open spec fn silent(self) -> bool {
        self.has_samples() && self.peak() <= SILENCE_PEAK_BITS
    }
}

/// How many of the first `n` trials come before one without a decoder.
pub open spec fn tried(trials: Seq<DecodeTrial>, n: nat) -> nat
    decreases n,
{
    if n == 0 {
        0
    } else {
        let before = tried(trials, (n - 1) as nat);
        if before == n - 1 && !(trials[n - 1] is Unavailable) {
            n
        } else {
            before
        }
    }
}

/// How many of the first `n` trials are of a kind.
pub open spec fn count_trials(
    trials: Seq<DecodeTrial>,
    n: nat,
    kind: spec_fn(DecodeTrial) -> bool,
) -> nat
    decreases n,
{
    if n == 0 {
        0
    } else {
        count_trials(trials, (n - 1) as nat, kind) + if kind(trials[n - 1]) {
            1nat
        } else {
            0nat
        }
    }
}

/// The first of the loudest among the first `n` trials of a kind.
pub open spec fn loudest(
    trials: Seq<DecodeTrial>,
    n: nat,
    kind: spec_fn(DecodeTrial) -> bool,
) -> Option<int>
    decreases n,
{
    if n == 0 {
        None
    } else {
        let before = loudest(trials, (n - 1) as nat, kind);
        let trial = trials[n - 1];
        if kind(trial) && (before matches Some(i) ==> trial.peak() > trials[i].peak()) {
            Some(n - 1)
        } else {
            before
        }
    }
}

/// The greatest peak among the first `n` trials with samples, zero where there is none.
pub open spec fn top_peak(trials: Seq<DecodeTrial>, n: nat) -> u32
    decreases n,
{
    if n == 0 {
        0
    } else {
        let before = top_peak(trials, (n - 1) as nat);
        if trials[n - 1].has_samples() && trials[n - 1].peak() > before {
            trials[n - 1].peak()
        } else {
            before
        }
    }
}

/// The candidate to take: the loudest one that is not silence; where all are, the loudest.
pub open spec fn choice(trials: Seq<DecodeTrial>, n: nat) -> Option<int> {
    match loudest(trials, n, |t: DecodeTrial| t.audible()) {
        Some(i) => Some(i),
        None => loudest(trials, n, |t: DecodeTrial| t.silent()),
    }
}

/// The first of the loudest trials of a kind is of the kind, no other is louder, and those before
/// it are not as loud.
pub proof fn lemma_loudest(
    trials: Seq<DecodeTrial>,
    n: nat,
    kind: spec_fn(DecodeTrial) -> bool,
)
    ensures
        match loudest(trials, n, kind) {
            None => forall|k: int| 0 <= k < n ==> !kind(#[trigger] trials[k]),
            Some(i) => 0 <= i < n && kind(trials[i]) && forall|k: int|
                0 <= k < n && kind(#[trigger] trials[k]) ==> {
                    &&& trials[k].peak() <= trials[i].peak()
                    &&& k < i ==> trials[k].peak() < trials[i].peak()
                },
        },
    decreases n,
{
    if n > 0 {
        lemma_loudest(trials, (n - 1) as nat, kind);
    }
}

/// Whenever a trial gave samples a candidate is taken. It is as loud as any other, and it is
/// silence only where all are.
pub proof fn law_choice_is_loudest(trials: Seq<DecodeTrial>, n: nat)
    ensures
        choice(trials, n) is None <==> forall|k: int|
            0 <= k < n ==> !(#[trigger] trials[k]).has_samples(),
        choice(trials, n) matches Some(i) ==> 0 <= i < n && trials[i].has_samples() && forall|
            k: int,
        |
            0 <= k < n && (#[trigger] trials[k]).has_samples() ==> trials[k].peak()
                <= trials[i].peak(),
{
    let audible = |t: DecodeTrial| t.audible();
    let silent = |t: DecodeTrial| t.silent();
    lemma_loudest(trials, n, audible);
    lemma_loudest(trials, n, silent);
    assert forall|k: int| 0 <= k < n && (#[trigger] trials[k]).has_samples() implies audible(
        trials[k],
    ) || silent(trials[k]) by {}
}

/// A candidate that was taken.
#[derive(Debug)]
pub struct AacChoice<'a> {
    /// The bytes to decode.
    pub payload: &'a [u8],
    /// How they were found.
    pub label: &'static str,
    /// How many bytes they are.
    pub payload_len: usize,
    /// The first 16 bytes in hexadecimal.
    pub prefix_hex: String,
    /// The peak that its trial gave.
    pub peak_bits: u32,
}

impl<'a> AacChoice<'a> {
    /// Whether this is what a candidate and its trial say.
    pub open spec fn describes(self, candidate: Candidate, trial: DecodeTrial) -> bool {
        &&& self.payload@ == candidate.bytes
        &&& self.label@ == candidate.label
        &&& self.payload_len == candidate.bytes.len()
        &&& self.prefix_hex@ == hex(
            if candidate.bytes.len() > 16 {
                candidate.bytes.take(16)
            } else {
                candidate.bytes
            },
        )
        &&& self.peak_bits == trial.peak()
    }
}

/// What the trials of a payload's candidates gave.
#[derive(Debug)]
pub struct AacProbeOutcome<'a> {
    /// The candidate to decode.
    pub chosen: Option<AacChoice<'a>>,
    /// How many candidates there are.
    pub candidate_count: usize,
    /// How many of them a decoder accepted.
    pub decoded_count: usize,
    /// How many of them are louder than silence.
    pub non_silent_count: usize,
    /// The greatest peak, as a bit pattern.
    pub best_peak_bits: u32,
}

fn describe<'a>(candidate: (&'a [u8], &'static str), peak_bits: u32) -> (r: AacChoice<'a>)
    ensures
        r.payload@ == candidate.0@,
        r.label@ == candidate.1@,
        r.payload_len == candidate.0@.len(),
        r.prefix_hex@ == hex(
            if candidate.0@.len() > 16 {
                candidate.0@.take(16)
            } else {
                candidate.0@
            },
        ),
        r.peak_bits == peak_bits,
{
    AacChoice {
        payload: candidate.0,
        label: candidate.1,
        payload_len: candidate.0.len(),
        prefix_hex: prefix_hex(candidate.0, 16),
        peak_bits,
    }
}

/// How many trials count: those before one without a decoder, one for each candidate at most.
pub open spec fn probed(payload: Seq<u8>, trials: Seq<DecodeTrial>) -> nat {
    let n = candidates(payload).len();
    tried(
        trials,
        if trials.len() < n {
            trials.len()
        } else {
            n
        },
    )
}

/// Takes the candidate whose trial was best. `trials` holds what fresh decoders made of the
/// candidates of `payload`, in their order.
pub fn probe_aac_candidates<'a>(payload: &'a [u8], trials: &[DecodeTrial]) -> (r: AacProbeOutcome<
    'a,
>)
    ensures
        ({
            let n = probed(payload@, trials@);
            &&& r.candidate_count == candidates(payload@).len()
            &&& r.decoded_count == count_trials(trials@, n, |t: DecodeTrial| t is Decoded)
            &&& r.non_silent_count == count_trials(trials@, n, |t: DecodeTrial| t.audible())
            &&& r.best_peak_bits == top_peak(trials@, n)
            &&& match choice(trials@, n) {
                None => r.chosen is None,
                Some(i) => r.chosen matches Some(chosen) && chosen.describes(
                    candidates(payload@)[i],
                    trials@[i],
                ),
            }
        }),
{
    let list = collect_aac_payload_candidates(payload);
    let ghost parts = parts_view(list@);
    let ghost audible = |t: DecodeTrial| t.audible();
    let ghost silent = |t: DecodeTrial| t.silent();
    let ghost decoded = |t: DecodeTrial| t is Decoded;
    let count: usize = if trials.len() < list.len() {
        trials.len()
    } else {
        list.len()
    };
    let mut best_loud: Option<usize> = None;
    let mut best_silent: Option<usize> = None;
    let mut loud_peak: u32 = 0;
    let mut silent_peak: u32 = 0;
    let mut decoded_count: usize = 0;
    let mut non_silent_count: usize = 0;
    let mut best_peak_bits: u32 = 0;
    let mut i: usize = 0;
    while i < count
        invariant_except_break
            tried(trials@, i as nat) == i,
        invariant
            i <= count <= trials@.len(),
            decoded == (|t: DecodeTrial| t is Decoded),
            audible == (|t: DecodeTrial| t.audible()),
            silent == (|t: DecodeTrial| t.silent()),
            decoded_count <= i,
            non_silent_count <= i,
            decoded_count == count_trials(trials@, i as nat, decoded),
            non_silent_count == count_trials(trials@, i as nat, audible),
            best_peak_bits == top_peak(trials@, i as nat),
            match best_loud {
                None => loudest(trials@, i as nat, audible) is None,
                Some(k) => loudest(trials@, i as nat, audible) == Some(k as int) && k < i
                    && loud_peak == trials@[k as int].peak(),
            },
            match best_silent {
                None => loudest(trials@, i as nat, silent) is None,
                Some(k) => loudest(trials@, i as nat, silent) == Some(k as int) && k < i
                    && silent_peak == trials@[k as int].peak(),
            },
        ensures
            tried(trials@, count as nat) == i,
        decreases count - i,
    {
        match trials[i] {
            DecodeTrial::Unavailable => {
                proof {
                    lemma_tried_stops(trials@, i as nat, count as nat);
                }
                break;
            },
            DecodeTrial::Failed => {},
            DecodeTrial::Decoded { sample_count, peak_bits } => {
                decoded_count = decoded_count + 1;
                if sample_count > 0 {
                    if peak_bits > best_peak_bits {
                        best_peak_bits = peak_bits;
                    }
                    if peak_bits > SILENCE_PEAK_BITS {
                        non_silent_count = non_silent_count + 1;
                        if best_loud.is_none() || peak_bits > loud_peak {
                            best_loud = Some(i);
                            loud_peak = peak_bits;
                        }
                    } else if best_silent.is_none() || peak_bits > silent_peak {
                        best_silent = Some(i);
                        silent_peak = peak_bits;
                    }
                }
            },
        }
        i = i + 1;
    }
    let chosen: Option<AacChoice<'a>> = match best_loud {
        Some(k) => {
            assert(parts[k as int].bytes == list@[k as int].0@);
            Some(describe(list[k], loud_peak))
        },
        None => match best_silent {
            Some(k) => {
                assert(parts[k as int].bytes == list@[k as int].0@);
                Some(describe(list[k], silent_peak))
            },
            None => None,
        },
    };
    AacProbeOutcome {
        chosen,
        candidate_count: list.len(),
        decoded_count,
        non_silent_count,
        best_peak_bits,
    }
}

/// The bytes to decode: those that the probe chose, or the usual part of the payload where every
/// trial failed.
pub fn settle_aac_payload<'a>(payload: &'a [u8], chosen: Option<AacChoice<'a>>) -> (r: AacChoice<
    'a,
>)
    ensures
        match chosen {
            Some(choice) => r == choice,
            None => r.payload@ == selected(payload@).bytes && r.label@ == selected(payload@).label
                && r.payload_len == selected(payload@).bytes.len() && r.prefix_hex@ == hex(
                if selected(payload@).bytes.len() > 16 {
                    selected(payload@).bytes.take(16)
                } else {
                    selected(payload@).bytes
                },
            ) && r.peak_bits == 0,
        },
{
    match chosen {
        Some(choice) => choice,
        None => describe(select_aac_payload(payload), 0),
    }
}

proof fn lemma_tried_stops(trials: Seq<DecodeTrial>, i: nat, n: nat)
    requires
        i < n,
        tried(trials, i) == i,
        trials[i as int] is Unavailable,
    ensures
        tried(trials, n) == i,
    decreases n,
{
    if n > i + 1 {
        lemma_tried_stops(trials, i, (n - 1) as nat);
    }
}

/// The bytes that are counted are those that are left when the zeros are taken out.
pub proof fn law_nonzero_count(bytes: Seq<u8>)
    ensures
        nonzero_count(bytes) == bytes.filter(|b: u8| b != 0).len(),
    decreases bytes.len(),
{
    reveal(Seq::filter);
    if bytes.len() > 0 {
        law_nonzero_count(bytes.drop_last());
    }
}

/// A label names the offset behind a plus sign, but for offset zero.
pub proof fn law_offset_label(base: Seq<char>, offset: nat)
    ensures
        offset == 0 ==> offset_label(base, offset) == base,
        offset > 0 ==> offset_label(base, offset).len() > base.len() + 1 && offset_label(
            base,
            offset,
        ).take(base.len() as int) == base && offset_label(base, offset)[base.len() as int] == '+'
            && spelled(offset_label(base, offset).skip(base.len() as int + 1)) == offset,
{
    law_decimal_reads_back(offset);
    if offset > 0 {
        let label = offset_label(base, offset);
        assert(label.take(base.len() as int) =~= base);
        assert(label.skip(base.len() as int + 1) =~= decimal(offset));
    }
}

/// Bits fill as many bytes as are needed and no more.
pub proof fn law_bytes_of_bits(bits: nat)
    ensures
        bits <= 8 * bytes_of_bits(bits) < bits + 8,
{
}

/// An AU header section is a length in bits, that many bits of headers, and the unit, whose size in
/// bits is in the 13 high bits of the first header. The unit comes out exactly, whatever follows.
pub proof fn law_section_unit(length: Seq<u8>, headers: Seq<u8>, unit: Seq<u8>, rest: Seq<u8>)
    requires
        length.len() == 2,
        2 <= headers.len() <= 16,
        be_nat(length) == 8 * headers.len(),
        unit.len() > 0,
        8 * unit.len() - 8 < be_nat(headers.take(2)) / 8 <= 8 * unit.len(),
    ensures
        section_unit(length + headers + unit + rest) == Some(
            (2 + headers.len() as int, 2 + headers.len() as int + unit.len()),
        ),
        (length + headers + unit + rest).subrange(
            2 + headers.len() as int,
            2 + headers.len() as int + unit.len(),
        ) == unit,
{
    let payload = length + headers + unit + rest;
    assert(payload.take(2) =~= length);
    assert(payload.subrange(2, 4) =~= headers.take(2));
    let start = 2 + headers.len() as int;
    assert(payload.subrange(start, start + unit.len()) =~= unit);
}

/// A section whose headers are one byte says no size: the unit is all that follows, where that is
/// at least eight bytes.
pub proof fn law_section_without_size(length: Seq<u8>, header: u8, unit: Seq<u8>)
    requires
        length.len() == 2,
        be_nat(length) == 8,
    ensures
        unit.len() >= 8 ==> section_unit(length.push(header) + unit) == Some(
            (3int, 3int + unit.len()),
        ),
        unit.len() < 8 ==> section_unit(length.push(header) + unit) is None,
{
    let payload = length.push(header) + unit;
    assert(payload.take(2) =~= length);
}

/// There is no unit behind a section of no bits, of a broken number of bytes or of more than
/// sixteen bytes, behind one whose unit has no size or is not complete, nor in fewer than four
/// bytes.
pub proof fn law_no_section_unit(payload: Seq<u8>)
    requires
        ({
            let bits = be_nat(payload.take(2));
            ||| payload.len() < 4
            ||| bits == 0
            ||| bits % 8 != 0
            ||| bits > 128
            ||| 16 + bits >= 8 * payload.len()
            ||| bits >= 16 && be_nat(payload.subrange(2, 4)) < 8
            ||| bits >= 16 && be_nat(payload.subrange(2, 4)) / 8 > 8 * payload.len() - 16 - bits
        }),
    ensures
        section_unit(payload) is None,
{
}

/// Behind a bare header the unit has the size in bits that the header's 13 high bits say. It comes
/// out exactly, where it has at least eight bytes.
pub proof fn law_direct_unit(header: Seq<u8>, unit: Seq<u8>, rest: Seq<u8>)
    requires
        header.len() == 2,
        unit.len() > 0,
        8 * unit.len() - 8 < be_nat(header) / 8 <= 8 * unit.len(),
    ensures
        unit.len() >= 8 ==> direct_unit(header + unit + rest) == Some((2int, 2int + unit.len()))
            && (header + unit + rest).subrange(2, 2int + unit.len()) == unit,
        unit.len() < 8 ==> direct_unit(header + unit + rest) is None,
{
    let payload = header + unit + rest;
    assert(payload.take(2) =~= header);
    assert(payload.subrange(2, 2int + unit.len()) =~= unit);
}

/// There is no unit behind a bare header that says no size or more than there is, nor in fewer than
/// three bytes.
pub proof fn law_no_direct_unit(payload: Seq<u8>)
    requires
        payload.len() < 3 || be_nat(payload.take(2)) < 8 || be_nat(payload.take(2)) / 8 > 8
            * payload.len() - 16,
    ensures
        direct_unit(payload) is None,
{
}

/// An ADTS header starts with twelve set bits.
pub proof fn law_adts_sync(payload: Seq<u8>)
    ensures
        adts_sync(payload) <==> payload.len() >= 2 && 16 * payload[0] + payload[1] / 16 == 4095,
{
}

/// The first offset is the first, up to sixteen bytes.
pub proof fn law_first_shifted(payload: Seq<u8>, offset: nat)
    ensures
        match first_shifted(payload, offset) {
            Some(found) => offset <= found <= 16 && found <= payload.len() && section_unit(
                payload.skip(found as int),
            ) is Some && forall|k: nat|
                offset <= k < found ==> section_unit(#[trigger] payload.skip(k as int)) is None,
            None => forall|k: nat|
                offset <= k <= 16 && k <= payload.len() ==> section_unit(
                    #[trigger] payload.skip(k as int),
                ) is None,
        },
    decreases 17 - offset,
{
    if offset <= 16 && offset <= payload.len() {
        law_first_shifted(payload, offset + 1);
    }
}

/// Behind an ADTS header of seven bytes, at the start or behind four bytes, all that follows is to
/// be decoded.
pub proof fn law_selected_behind_adts(front: Seq<u8>, header: Seq<u8>, rest: Seq<u8>)
    requires
        header.len() == 7,
        header[0] == 255,
        header[1] >= 240,
        rest.len() > 0,
        front.len() == 4,
    ensures
        selected(header + rest) == (Candidate { bytes: rest, label: "aac-adts"@ }),
        !(front[0] == 255 && front[1] >= 240) ==> selected(front + header + rest) == (Candidate {
            bytes: rest,
            label: "aac-adts+4"@,
        }),
{
    assert((header + rest).skip(7) =~= rest);
    assert((front + header + rest).skip(11) =~= rest);
    assert((front + header + rest).skip(4) =~= header + rest);
}

/// Without ADTS headers, the unit of the first AU header section counts, then that of a bare header
/// at the start, then the whole payload.
pub proof fn law_selected_without_adts(payload: Seq<u8>)
    requires
        !(payload.len() > 7 && payload[0] == 255 && payload[1] >= 240),
        !(payload.len() > 11 && payload[4] == 255 && payload[5] >= 240),
    ensures
        first_shifted(payload, 0) matches Some(offset) ==> ({
            let range = section_unit(payload.skip(offset as int))->0;
            &&& selected(payload).bytes == payload.subrange(offset + range.0, offset + range.1)
            &&& selected(payload).label == offset_label("aac-au"@, offset)
        }),
        first_shifted(payload, 0) is None ==> match direct_unit(payload) {
            Some((a, b)) => selected(payload).bytes == payload.subrange(a, b) && selected(
                payload,
            ).label == "aac-au-direct"@,
            None => selected(payload).bytes == payload && selected(payload).label == "aac"@,
        },
{
    law_first_shifted(payload, 0);
    if let Some(offset) = first_shifted(payload, 0) {
        let view = payload.skip(offset as int);
        let (a, b) = section_unit(view)->0;
        assert(view.subrange(a, b) =~= payload.subrange(offset + a, offset + b));
    }
}

/// The readings behind ADTS headers: at the start, then behind four bytes.
pub proof fn law_adts_parts(payload: Seq<u8>)
    ensures
        ({
            let first = payload.len() > 7 && payload[0] == 255 && payload[1] >= 240;
            let second = payload.len() > 11 && payload[4] == 255 && payload[5] >= 240;
            let parts = adts_parts(payload);
            &&& first && second ==> parts.len() == 2 && parts[0] == (Candidate {
                bytes: payload.skip(7),
                label: "aac-adts"@,
            }) && parts[1] == (Candidate { bytes: payload.skip(11), label: "aac-adts+4"@ })
            &&& first && !second ==> parts == seq![
                Candidate { bytes: payload.skip(7), label: "aac-adts"@ },
            ]
            &&& !first && second ==> parts == seq![
                Candidate { bytes: payload.skip(11), label: "aac-adts+4"@ },
            ]
            &&& !first && !second ==> parts.len() == 0
        }),
{
}

/// The readings behind AU headers, offset by offset: that of a section, then that of a bare header.
pub proof fn law_unit_parts(payload: Seq<u8>, offset: nat)
    ensures
        unit_parts(payload, 0).len() == 0,
        payload.len() < offset + 4 ==> unit_parts(payload, offset + 1) == unit_parts(
            payload,
            offset,
        ),
        payload.len() >= offset + 4 ==> ({
            let view = payload.skip(offset as int);
            let section: Seq<Candidate> = match section_unit(view) {
                Some((a, b)) => seq![
                    Candidate {
                        bytes: payload.subrange(offset + a, offset + b),
                        label: offset_label("aac-au"@, offset),
                    },
                ],
                None => Seq::empty(),
            };
            let direct: Seq<Candidate> = match direct_unit(view) {
                Some((a, b)) => seq![
                    Candidate {
                        bytes: payload.subrange(offset + a, offset + b),
                        label: offset_label("aac-au-direct"@, offset),
                    },
                ],
                None => Seq::empty(),
            };
            unit_parts(payload, offset + 1) == unit_parts(payload, offset) + section + direct
        }),
{
    let view = payload.skip(offset as int);
    if payload.len() >= offset + 4 {
        if let Some((a, b)) = section_unit(view) {
            assert(view.subrange(a, b) =~= payload.subrange(offset + a, offset + b));
        }
        if let Some((a, b)) = direct_unit(view) {
            assert(view.subrange(a, b) =~= payload.subrange(offset + a, offset + b));
        }
        let section = part(view, section_unit(view), offset_label("aac-au"@, offset));
        let direct = part(view, direct_unit(view), offset_label("aac-au-direct"@, offset));
        assert(unit_parts(payload, offset + 1) =~= unit_parts(payload, offset) + section + direct);
    } else {
        assert(unit_parts(payload, offset) + Seq::<Candidate>::empty() =~= unit_parts(
            payload,
            offset,
        ));
    }
}

/// The payload without its first bytes is a reading for every offset that leaves more than eight,
/// in the order of the offsets.
pub proof fn law_raw_parts(payload: Seq<u8>, offsets: nat)
    ensures
        raw_parts(payload, offsets).len() == (if payload.len() <= 8 {
            0
        } else if payload.len() - 8 < offsets {
            payload.len() - 8
        } else {
            offsets as int
        }),
        forall|i: int|
            0 <= i < raw_parts(payload, offsets).len() ==> (#[trigger] raw_parts(
                payload,
                offsets,
            )[i]).bytes == payload.skip(i) && raw_parts(payload, offsets)[i].label == offset_label(
                "aac"@,
                i as nat,
            ),
    decreases offsets,
{
    if offsets > 0 {
        law_raw_parts(payload, (offsets - 1) as nat);
    }
}

/// All readings are those behind ADTS headers, then those behind AU headers with up to sixteen
/// bytes in front, then the payload without up to 32 bytes.
pub proof fn law_all_parts(payload: Seq<u8>)
    ensures
        all_parts(payload) == adts_parts(payload) + unit_parts(payload, 17) + raw_parts(
            payload,
            33,
        ),
{
}

/// One more reading is kept behind the others where it has at least eight bytes and its bytes are
/// not there yet: the first label stays.
pub proof fn law_first_label_stays(parts: Seq<Candidate>, more: Candidate)
    ensures
        distinct_parts(Seq::empty()).len() == 0,
        more.bytes.len() < 8 ==> distinct_parts(parts.push(more)) == distinct_parts(parts),
        (exists|i: int|
            0 <= i < distinct_parts(parts).len() && (#[trigger] distinct_parts(parts)[i]).bytes
                == more.bytes) ==> distinct_parts(parts.push(more)) == distinct_parts(parts),
        more.bytes.len() >= 8 && (forall|i: int|
            0 <= i < distinct_parts(parts).len() ==> (#[trigger] distinct_parts(parts)[i]).bytes
                != more.bytes) ==> distinct_parts(parts.push(more)) == distinct_parts(parts).push(
            more,
        ),
{
    assert(parts.push(more).drop_last() =~= parts);
}

/// A list of slices with labels is seen one by one.
pub proof fn law_parts_view(v: Seq<(&[u8], &'static str)>)
    ensures
        parts_view(v).len() == v.len(),
        forall|i: int|
            0 <= i < v.len() ==> parts_view(v)[i].bytes == (#[trigger] v[i]).0@ && parts_view(
                v,
            )[i].label == v[i].1@,
{
}

/// A trial gave samples where the decoder gave at least one. They are silence up to the number
/// nearest to one ten-millionth, and audible beyond.
pub proof fn law_trials(sample_count: usize, peak_bits: u32)
    ensures
        ({
            let trial = DecodeTrial::Decoded { sample_count, peak_bits };
            &&& trial.peak() == peak_bits
            &&& trial.has_samples() <==> sample_count != 0
            &&& trial.audible() <==> sample_count != 0 && peak_bits > 0x33d6_bf95
            &&& trial.silent() <==> sample_count != 0 && peak_bits <= 0x33d6_bf95
        }),
        !DecodeTrial::Failed.has_samples() && !DecodeTrial::Failed.audible()
            && !DecodeTrial::Failed.silent(),
        !DecodeTrial::Unavailable.has_samples() && !DecodeTrial::Unavailable.audible()
            && !DecodeTrial::Unavailable.silent(),
        ({
            let mantissa = 0x80_0000 + SILENCE_PEAK_BITS as int % 0x80_0000;
            let exponent = SILENCE_PEAK_BITS as int / 0x80_0000;
            &&& exponent == 150 - 47
            &&& -10_000_000 <= 2 * (mantissa * 10_000_000 - 0x8000_0000_0000) <= 10_000_000
        }),
{
}

/// The trials that count are those before the first one without a decoder.
pub proof fn law_tried(trials: Seq<DecodeTrial>, n: nat)
    requires
        n <= trials.len(),
    ensures
        tried(trials, n) <= n,
        forall|k: int| 0 <= k < tried(trials, n) ==> !(#[trigger] trials[k] is Unavailable),
        tried(trials, n) < n ==> trials[tried(trials, n) as int] is Unavailable,
    decreases n,
{
    if n > 0 {
        law_tried(trials, (n - 1) as nat);
    }
}

/// As many trials count as there are, but no more than candidates, up to the first one without a
/// decoder.
pub proof fn law_probed(payload: Seq<u8>, trials: Seq<DecodeTrial>)
    ensures
        probed(payload, trials) <= trials.len(),
        probed(payload, trials) <= candidates(payload).len(),
        forall|k: int| 0 <= k < probed(payload, trials) ==> !(#[trigger] trials[k] is Unavailable),
        probed(payload, trials) < trials.len() && probed(payload, trials) < candidates(
            payload,
        ).len() ==> trials[probed(payload, trials) as int] is Unavailable,
{
    let n = candidates(payload).len();
    law_tried(
        trials,
        if trials.len() < n {
            trials.len()
        } else {
            n
        },
    );
}

/// Trials of a kind are counted one by one.
pub proof fn law_count_trials(
    trials: Seq<DecodeTrial>,
    n: nat,
    kind: spec_fn(DecodeTrial) -> bool,
)
    requires
        n <= trials.len(),
    ensures
        count_trials(trials, n, kind) == trials.take(n as int).filter(kind).len(),
    decreases n,
{
    reveal(Seq::filter);
    if n > 0 {
        law_count_trials(trials, (n - 1) as nat, kind);
        assert(trials.take(n as int).drop_last() =~= trials.take(n - 1));
        assert(trials.take(n as int).last() == trials[n - 1]);
    } else {
        assert(trials.take(0) =~= Seq::empty());
    }
}

/// The greatest peak is that of a trial with samples, and no such trial has a greater one. Without
/// such trials it is zero.
pub proof fn law_top_peak(trials: Seq<DecodeTrial>, n: nat)
    requires
        n <= trials.len(),
    ensures
        forall|k: int|
            0 <= k < n && (#[trigger] trials[k]).has_samples() ==> trials[k].peak() <= top_peak(
                trials,
                n,
            ),
        top_peak(trials, n) == 0 || exists|k: int|
            0 <= k < n && (#[trigger] trials[k]).has_samples() && trials[k].peak() == top_peak(
                trials,
                n,
            ),
    decreases n,
{
    if n > 0 {
        law_top_peak(trials, (n - 1) as nat);
    }
}

/// Of several candidates that are equally loud the first one is taken.
pub proof fn law_choice_is_first(trials: Seq<DecodeTrial>, n: nat)
    ensures
        choice(trials, n) matches Some(i) ==> forall|k: int|
            0 <= k < i && (#[trigger] trials[k]).has_samples() ==> trials[k].peak()
                < trials[i].peak(),
{
    let audible = |t: DecodeTrial| t.audible();
    let silent = |t: DecodeTrial| t.silent();
    lemma_loudest(trials, n, audible);
    lemma_loudest(trials, n, silent);
    if let Some(i) = choice(trials, n) {
        assert forall|k: int|
            0 <= k < i && (#[trigger] trials[k]).has_samples() implies trials[k].peak()
            < trials[i].peak() by {
            assert(audible(trials[k]) || silent(trials[k]));
        }
    }
}

/// What is said of a candidate that was taken: its bytes, its label, its length, its first sixteen
/// bytes in hexadecimal and the peak of its trial.
pub proof fn law_choice_describes(
    chosen: AacChoice<'_>,
    candidate: Candidate,
    trial: DecodeTrial,
)
    requires
        chosen.describes(candidate, trial),
    ensures
        chosen.payload@ == candidate.bytes,
        chosen.label@ == candidate.label,
        chosen.payload_len == candidate.bytes.len(),
        candidate.bytes.len() <= 16 ==> chosen.prefix_hex@ == hex(candidate.bytes),
        candidate.bytes.len() > 16 ==> chosen.prefix_hex@ == hex(candidate.bytes.take(16)),
        trial matches DecodeTrial::Decoded { peak_bits, .. } ==> chosen.peak_bits == peak_bits,
{
    assert(candidate.bytes.take(candidate.bytes.len() as int) =~= candidate.bytes);
}

/// The candidates are the different readings of at least eight bytes, in the order of all readings,
/// and none of them is left out.
pub proof fn law_every_reading_is_tried(payload: Seq<u8>)
    ensures
        candidates(payload) == distinct_parts(all_parts(payload)),
        forall|k: int|
            0 <= k < all_parts(payload).len() && (#[trigger] all_parts(payload)[k]).bytes.len() >= 8
                ==> holds_bytes(candidates(payload), all_parts(payload)[k].bytes),
        forall|i: int|
            0 <= i < candidates(payload).len() ==> all_parts(payload).contains(
                #[trigger] candidates(payload)[i],
            ),
{
    law_candidates_distinct(all_parts(payload));
}

/// The labels of the readings name their kind and their offset, 16 at most behind AU headers and 32
/// at most for raw data.
pub proof fn law_labels(
    offset: usize,
    section: &'static str,
    direct: &'static str,
    raw: &'static str,
)
    requires
        call_ensures(aac_au_label_for_offset, (offset,), section),
        call_ensures(aac_au_direct_label_for_offset, (offset,), direct),
        call_ensures(aac_raw_label_for_offset, (offset,), raw),
    ensures
        offset <= 16 ==> section@ == offset_label("aac-au"@, offset as nat) && direct@
            == offset_label("aac-au-direct"@, offset as nat),
        offset > 16 ==> section@ == offset_label("aac-au"@, 16) && direct@ == offset_label(
            "aac-au-direct"@,
            16,
        ),
        offset <= 32 ==> raw@ == offset_label("aac"@, offset as nat),
        offset > 32 ==> raw@ == offset_label("aac"@, 32),
{
}

/// The unit behind an AU header section comes out exactly, whatever follows it.
pub proof fn law_extracted_unit(
    payload: &[u8],
    length: Seq<u8>,
    headers: Seq<u8>,
    unit: Seq<u8>,
    rest: Seq<u8>,
    r: Option<&[u8]>,
)
    requires
        call_ensures(extract_aac_access_unit, (payload,), r),
        length.len() == 2,
        2 <= headers.len() <= 16,
        be_nat(length) == 8 * headers.len(),
        unit.len() > 0,
        8 * unit.len() - 8 < be_nat(headers.take(2)) / 8 <= 8 * unit.len(),
        payload@ == length + headers + unit + rest,
    ensures
        r matches Some(found) && found@ == unit,
{
    law_section_unit(length, headers, unit, rest);
}

/// The unit behind a bare AU header comes out exactly, whatever follows it, where it has at least
/// eight bytes.
pub proof fn law_extracted_direct_unit(
    payload: &[u8],
    header: Seq<u8>,
    unit: Seq<u8>,
    rest: Seq<u8>,
    r: Option<&[u8]>,
)
    requires
        call_ensures(extract_aac_access_unit_direct_header, (payload,), r),
        header.len() == 2,
        unit.len() > 0,
        8 * unit.len() - 8 < be_nat(header) / 8 <= 8 * unit.len(),
        payload@ == header + unit + rest,
    ensures
        unit.len() >= 8 ==> (r matches Some(found) && found@ == unit),
        unit.len() < 8 ==> r is None,
{
    law_direct_unit(header, unit, rest);
}

/// Behind an ADTS header of seven bytes at the start, all that follows is selected.
pub proof fn law_selected_by_call(
    payload: &[u8],
    header: Seq<u8>,
    rest: Seq<u8>,
    r: (&[u8], &'static str),
)
    requires
        call_ensures(select_aac_payload, (payload,), r),
        header.len() == 7,
        header[0] == 255,
        header[1] >= 240,
        rest.len() > 0,
        payload@ == header + rest,
    ensures
        r.0@ == rest,
        r.1@ == "aac-adts"@,
{
    law_selected_behind_adts(seq![0u8, 0u8, 0u8, 0u8], header, rest);
}

/// The candidates that are collected stand in the payload, have at least eight bytes and differ
/// from each other. The whole payload is one of them where it has more than eight bytes.
pub proof fn law_collected_candidates(payload: &[u8], r: Vec<(&[u8], &'static str)>)
    requires
        call_ensures(collect_aac_payload_candidates, (payload,), r),
    ensures
        r@.len() == candidates(payload@).len(),
        forall|i: int|
            0 <= i < r@.len() ==> (#[trigger] r@[i]).0@.len() >= 8 && is_part_of(
                r@[i].0@,
                payload@,
            ),
        forall|i: int, j: int|
            0 <= i < j < r@.len() ==> (#[trigger] r@[i]).0@ != (#[trigger] r@[j]).0@,
        payload@.len() > 8 ==> exists|i: int|
            0 <= i < r@.len() && (#[trigger] r@[i]).0@ == payload@,
{
    let list = parts_view(r@);
    law_parts_view(r@);
    law_candidates_are_parts(payload@);
    law_candidates_distinct(all_parts(payload@));
    assert(list =~= candidates(payload@));
    assert forall|i: int| 0 <= i < r@.len() implies (#[trigger] r@[i]).0@.len() >= 8 && is_part_of(
        r@[i].0@,
        payload@,
    ) by {
        assert(list[i].bytes == r@[i].0@);
        assert(candidates(payload@)[i].bytes.len() >= 8);
    }
    assert forall|i: int, j: int| 0 <= i < j < r@.len() implies (#[trigger] r@[i]).0@ != (
    #[trigger] r@[j]).0@ by {
        assert(list[i].bytes != list[j].bytes);
    }
    if payload@.len() > 8 {
        let i = choose|i: int|
            0 <= i < candidates(payload@).len() && (#[trigger] candidates(payload@)[i]).bytes
                == payload@;
        assert(list[i].bytes == r@[i].0@);
    }
}

/// The candidate that is chosen is one that was decoded, as loud as any, and the first of those: its
/// trial's peak is the greatest. None is chosen only where no trial gave samples.
pub proof fn law_probe_chooses_the_loudest(
    payload: &[u8],
    trials: &[DecodeTrial],
    r: AacProbeOutcome<'_>,
)
    requires
        call_ensures(probe_aac_candidates, (payload, trials), r),
    ensures
        r.candidate_count == candidates(payload@).len(),
        r.chosen is None <==> forall|k: int|
            0 <= k < probed(payload@, trials@) ==> !(#[trigger] trials@[k]).has_samples(),
        r.chosen matches Some(chosen) ==> exists|i: int|
            0 <= i < probed(payload@, trials@) && (#[trigger] trials@[i]).has_samples()
                && chosen.payload@ == candidates(payload@)[i].bytes && chosen.label@ == candidates(
                payload@,
            )[i].label && chosen.peak_bits == trials@[i].peak() && forall|k: int|
                0 <= k < probed(payload@, trials@) && (#[trigger] trials@[k]).has_samples()
                    ==> trials@[k].peak() <= trials@[i].peak() && (k < i ==> trials@[k].peak()
                    < trials@[i].peak()),
        r.decoded_count == trials@.take(probed(payload@, trials@) as int).filter(
            |t: DecodeTrial| t is Decoded,
        ).len(),
        r.non_silent_count == trials@.take(probed(payload@, trials@) as int).filter(
            |t: DecodeTrial| t.audible(),
        ).len(),
{
    let n = probed(payload@, trials@);
    law_probed(payload@, trials@);
    law_choice_is_loudest(trials@, n);
    law_choice_is_first(trials@, n);
    law_count_trials(trials@, n, |t: DecodeTrial| t is Decoded);
    law_count_trials(trials@, n, |t: DecodeTrial| t.audible());
    if let Some(i) = choice(trials@, n) {
        assert(trials@[i].has_samples());
    }
}

/// What is settled on is what the probe chose, and the usual part of the payload without a choice.
pub proof fn law_settled_payload<'a>(
    payload: &'a [u8],
    chosen: Option<AacChoice<'a>>,
    r: AacChoice<'a>,
)
    requires
        call_ensures(settle_aac_payload, (payload, chosen), r),
    ensures
        chosen matches Some(choice) ==> r == choice,
        chosen is None ==> r.payload@ == selected(payload@).bytes && r.label@ == selected(
            payload@,
        ).label && r.payload_len == selected(payload@).bytes.len() && r.peak_bits == 0,
{
}

} // verus!
