//! Session descriptions, as far as audio sessions need them.
use crate::text::{
    chars_of, find_char, first_index, first_value, is_bare, is_blank, is_space, is_text,
    law_first_index, law_first_value_of_one, law_first_value_stays, law_split, law_text_views,
    law_trim, law_trim_takes_apart, lemma_first_index, slices_view, split, split_chars, str_view,
    string_of, text_view, trim, trim_chars,
};
use vstd::prelude::*;

verus! {

/// What stands behind `kind=` on a line, without white space around it.
pub open spec fn line_value(line: Seq<char>, kind: char) -> Option<Seq<char>> {
    let t = trim(line);
    if t.len() >= 2 && t[0] == kind && t[1] == '=' {
        Some(trim(t.skip(2)))
    } else {
        None
    }
}

/// The value of a line of a kind, where it is not empty.
pub open spec fn field_value(line: Seq<char>, kind: char) -> Option<Seq<char>> {
    match line_value(line, kind) {
        Some(value) => if value.len() > 0 {
            Some(value)
        } else {
            None
        },
        None => None,
    }
}

/// The value of the attribute `key` in `key:value`, where it is not empty.
pub open spec fn attribute(value: Seq<char>, key: Seq<char>) -> Option<Seq<char>> {
    match first_index(value, ':') {
        Some(i) => if trim(value.take(i)) == key && trim(value.skip(i + 1)).len() > 0 {
            Some(trim(value.skip(i + 1)))
        } else {
            None
        },
        None => None,
    }
}

/// The value of the attribute `key` on a line `a=key:value`, where it is not empty.
pub open spec fn attribute_value(line: Seq<char>, key: Seq<char>) -> Option<Seq<char>> {
    match line_value(line, 'a') {
        Some(value) => attribute(value, key),
        None => None,
    }
}

/// The fields of a description as mathematical values.
#[verifier::ext_equal]
pub struct SdpView {
    pub version: Option<Seq<char>>,
    pub connection: Option<Seq<char>>,
    pub rtpmap: Option<Seq<char>>,
    pub fmtp: Option<Seq<char>>,
    pub rsaaeskey: Option<Seq<char>>,
    pub fpaeskey: Option<Seq<char>>,
    pub aesiv: Option<Seq<char>>,
    pub min_latency: Option<Seq<char>>,
}

/// The fields on some lines: of each the first value that is not empty.
pub open spec fn fields(list: Seq<Seq<char>>) -> SdpView {
    SdpView {
        version: first_value(list, |l: Seq<char>| field_value(l, 'v')),
        connection: first_value(list, |l: Seq<char>| field_value(l, 'c')),
        rtpmap: first_value(list, |l: Seq<char>| attribute_value(l, "rtpmap"@)),
        fmtp: first_value(list, |l: Seq<char>| attribute_value(l, "fmtp"@)),
        rsaaeskey: first_value(list, |l: Seq<char>| attribute_value(l, "rsaaeskey"@)),
        fpaeskey: first_value(list, |l: Seq<char>| attribute_value(l, "fpaeskey"@)),
        aesiv: first_value(list, |l: Seq<char>| attribute_value(l, "aesiv"@)),
        min_latency: first_value(list, |l: Seq<char>| attribute_value(l, "min-latency"@)),
    }
}

/// A session description.
#[derive(Debug)]
pub struct Sdp {
    version: Option<String>,
    connection: Option<String>,
    rtpmap: Option<String>,
    fmtp: Option<String>,
    rsaaeskey: Option<String>,
    fpaeskey: Option<String>,
    aesiv: Option<String>,
    min_latency: Option<String>,
}

impl View for Sdp {
    type V = SdpView;

    closed spec fn view(&self) -> SdpView {
        SdpView {
            version: text_view(self.version),
            connection: text_view(self.connection),
            rtpmap: text_view(self.rtpmap),
            fmtp: text_view(self.fmtp),
            rsaaeskey: text_view(self.rsaaeskey),
            fpaeskey: text_view(self.fpaeskey),
            aesiv: text_view(self.aesiv),
            min_latency: text_view(self.min_latency),
        }
    }
}

/// Sets a field that is not set yet.
fn set_first(slot: &mut Option<String>, value: &[char])
    ensures
        text_view(*final(slot)) == (match text_view(*old(slot)) {
            Some(before) => Some(before),
            None => Some(value@),
        }),
{
    if slot.is_none() {
        *slot = Some(string_of(value));
    }
}

fn as_text(field: &Option<String>) -> (r: Option<&str>)
    ensures
        str_view(r) == text_view(*field),
{
    match field {
        Some(text) => Some(text.as_str()),
        None => None,
    }
}

impl Sdp {
    /// Parses a description. Lines that cannot be understood are passed over.
    pub fn parse(data: &str) -> (r: Self)
        ensures
            r@ == fields(split(data@, '\n')),
    {
        let chars = chars_of(data);
        let list = split_chars(chars.as_slice(), '\n');
        let ghost all = slices_view(list@);
        let mut sdp = Sdp {
            version: None,
            connection: None,
            rtpmap: None,
            fmtp: None,
            rsaaeskey: None,
            fpaeskey: None,
            aesiv: None,
            min_latency: None,
        };
        let mut i: usize = 0;
        assert(all.take(0) =~= Seq::empty());
        while i < list.len()
            invariant
                i <= list@.len(),
                all == slices_view(list@),
                sdp@ == fields(all.take(i as int)),
            decreases list@.len() - i,
        {
            sdp.read_line(list[i]);
            proof {
                assert(all.take(i + 1) =~= all.take(i as int).push(list@[i as int]@));
                lemma_fields_push(all.take(i as int), list@[i as int]@);
            }
            i = i + 1;
        }
        assert(all.take(i as int) =~= all);
        sdp
    }

    fn read_line(&mut self, line: &[char])
        ensures
            final(self)@ == fields_after(old(self)@, line@),
    {
        let line = trim_chars(line);
        let ghost before = self@;
        if line.len() < 2 || line[1] != '=' {
            return;
        }
        let kind: char = line[0];
        let tail: &[char] = &line[2..line.len()];
        assert(tail@ =~= line@.skip(2));
        let value: &[char] = trim_chars(tail);
        if kind == 'v' {
            if value.len() > 0 {
                set_first(&mut self.version, value);
            }
        } else if kind == 'c' {
            if value.len() > 0 {
                set_first(&mut self.connection, value);
            }
        } else if kind == 'a' {
            self.read_attribute(value);
        }
    }

    fn read_attribute(&mut self, value: &[char])
        ensures
            final(self)@ == attributes_after(old(self)@, value@),
    {
        let len: usize = value.len();
        proof {
            lemma_first_index(value@, ':');
        }
        if let Some(n) = find_char(value, ':') {
            let head: &[char] = &value[0..n];
            let tail: &[char] = &value[n + 1..len];
            assert(head@ =~= value@.take(n as int));
            assert(tail@ =~= value@.skip(n + 1));
            let key: &[char] = trim_chars(head);
            let val: &[char] = trim_chars(tail);
            if val.len() == 0 {
                return;
            }
            proof {
                lemma_keys_differ();
            }
            if is_text(key, "rtpmap") {
                set_first(&mut self.rtpmap, val);
            } else if is_text(key, "fmtp") {
                set_first(&mut self.fmtp, val);
            } else if is_text(key, "rsaaeskey") {
                set_first(&mut self.rsaaeskey, val);
            } else if is_text(key, "fpaeskey") {
                set_first(&mut self.fpaeskey, val);
            } else if is_text(key, "aesiv") {
                set_first(&mut self.aesiv, val);
            } else if is_text(key, "min-latency") {
                set_first(&mut self.min_latency, val);
            }
        }
    }

    /// The version, `v=`.
    pub fn version(&self) -> (r: Option<&str>)
        ensures
            str_view(r) == self@.version,
    {
        as_text(&self.version)
    }

    /// The connection address, `c=`.
    pub fn connection(&self) -> (r: Option<&str>)
        ensures
            str_view(r) == self@.connection,
    {
        as_text(&self.connection)
    }

    /// The payload mapping, `a=rtpmap`.
    pub fn rtpmap(&self) -> (r: Option<&str>)
        ensures
            str_view(r) == self@.rtpmap,
    {
        as_text(&self.rtpmap)
    }

    /// The format parameters, `a=fmtp`.
    pub fn fmtp(&self) -> (r: Option<&str>)
        ensures
            str_view(r) == self@.fmtp,
    {
        as_text(&self.fmtp)
    }

    /// The RSA-encrypted session key, `a=rsaaeskey`.
    pub fn rsaaeskey(&self) -> (r: Option<&str>)
        ensures
            str_view(r) == self@.rsaaeskey,
    {
        as_text(&self.rsaaeskey)
    }

    /// The FairPlay-encrypted session key, `a=fpaeskey`.
    pub fn fpaeskey(&self) -> (r: Option<&str>)
        ensures
            str_view(r) == self@.fpaeskey,
    {
        as_text(&self.fpaeskey)
    }

    /// The initialization vector, `a=aesiv`.
    pub fn aesiv(&self) -> (r: Option<&str>)
        ensures
            str_view(r) == self@.aesiv,
    {
        as_text(&self.aesiv)
    }

    /// The least latency, `a=min-latency`.
    pub fn min_latency(&self) -> (r: Option<&str>)
        ensures
            str_view(r) == self@.min_latency,
    {
        as_text(&self.min_latency)
    }
}

/// `value`, or `more` where there is none.
spec fn or_else(value: Option<Seq<char>>, more: Option<Seq<char>>) -> Option<Seq<char>> {
    match value {
        Some(v) => Some(v),
        None => more,
    }
}

/// The fields when one more line has been read.
spec fn fields_after(before: SdpView, line: Seq<char>) -> SdpView {
    SdpView {
        version: or_else(before.version, field_value(line, 'v')),
        connection: or_else(before.connection, field_value(line, 'c')),
        rtpmap: or_else(before.rtpmap, attribute_value(line, "rtpmap"@)),
        fmtp: or_else(before.fmtp, attribute_value(line, "fmtp"@)),
        rsaaeskey: or_else(before.rsaaeskey, attribute_value(line, "rsaaeskey"@)),
        fpaeskey: or_else(before.fpaeskey, attribute_value(line, "fpaeskey"@)),
        aesiv: or_else(before.aesiv, attribute_value(line, "aesiv"@)),
        min_latency: or_else(before.min_latency, attribute_value(line, "min-latency"@)),
    }
}

/// The fields when one more attribute has been read.
spec fn attributes_after(before: SdpView, value: Seq<char>) -> SdpView {
    SdpView {
        version: before.version,
        connection: before.connection,
        rtpmap: or_else(before.rtpmap, attribute(value, "rtpmap"@)),
        fmtp: or_else(before.fmtp, attribute(value, "fmtp"@)),
        rsaaeskey: or_else(before.rsaaeskey, attribute(value, "rsaaeskey"@)),
        fpaeskey: or_else(before.fpaeskey, attribute(value, "fpaeskey"@)),
        aesiv: or_else(before.aesiv, attribute(value, "aesiv"@)),
        min_latency: or_else(before.min_latency, attribute(value, "min-latency"@)),
    }
}

proof fn lemma_fields_push(list: Seq<Seq<char>>, line: Seq<char>)
    ensures
        fields(list.push(line)) == fields_after(fields(list), line),
{
    assert(list.push(line).drop_last() =~= list);
    assert(fields(list.push(line)) =~= fields_after(fields(list), line));
}

proof fn lemma_keys_differ()
    ensures
        "rtpmap"@ != "fmtp"@,
        "rtpmap"@ != "rsaaeskey"@,
        "rtpmap"@ != "fpaeskey"@,
        "rtpmap"@ != "aesiv"@,
        "rtpmap"@ != "min-latency"@,
        "fmtp"@ != "rsaaeskey"@,
        "fmtp"@ != "fpaeskey"@,
        "fmtp"@ != "aesiv"@,
        "fmtp"@ != "min-latency"@,
        "rsaaeskey"@ != "fpaeskey"@,
        "rsaaeskey"@ != "aesiv"@,
        "rsaaeskey"@ != "min-latency"@,
        "fpaeskey"@ != "aesiv"@,
        "fpaeskey"@ != "min-latency"@,
        "aesiv"@ != "min-latency"@,
{
    reveal_strlit("rtpmap");
    assert("rtpmap"@.len() == 6);
    reveal_strlit("fmtp");
    assert("fmtp"@.len() == 4);
    reveal_strlit("rsaaeskey");
    assert("rsaaeskey"@.len() == 9);
    reveal_strlit("fpaeskey");
    assert("fpaeskey"@.len() == 8);
    reveal_strlit("aesiv");
    assert("aesiv"@.len() == 5);
    reveal_strlit("min-latency");
    assert("min-latency"@.len() == 11);
}

/// A line with white space around it and around what stands behind `kind=`.
pub open spec fn written_line(
    before: Seq<char>,
    kind: char,
    gap: Seq<char>,
    value: Seq<char>,
    after: Seq<char>,
) -> Seq<char> {
    before + seq![kind, '='] + gap + value + after
}

/// The value of a line comes back whole, whatever signs it holds, and only for the line's kind.
pub proof fn law_field_comes_back_whole(
    before: Seq<char>,
    kind: char,
    gap: Seq<char>,
    value: Seq<char>,
    after: Seq<char>,
    other: char,
)
    requires
        is_blank(before),
        !is_space(kind),
        is_blank(gap),
        value.len() > 0,
        is_bare(value),
        is_blank(after),
    ensures
        line_value(written_line(before, kind, gap, value, after), kind) == Some(value),
        field_value(written_line(before, kind, gap, value, after), kind) == Some(value),
        other != kind ==> line_value(written_line(before, kind, gap, value, after), other) is None,
        other != kind ==> field_value(written_line(before, kind, gap, value, after), other) is None,
{
    let line = written_line(before, kind, gap, value, after);
    let t = seq![kind, '='] + gap + value;
    assert(t[0] == kind);
    assert(t.last() == value.last());
    assert(line =~= before + t + after);
    law_trim(before, t, after);
    assert(t.skip(2) =~= gap + value + Seq::empty());
    law_trim(gap, value, Seq::empty());
}

/// A value is never read from a line that does not hold it: where one is read, the line is
/// `kind=` with the value behind it, and the value is not empty and has no white space at its
/// ends.
pub proof fn law_field_stands_on_the_line(line: Seq<char>, kind: char)
    requires
        field_value(line, kind) is Some,
        !is_space(kind),
    ensures
        field_value(line, kind)->0.len() > 0,
        is_bare(field_value(line, kind)->0),
        exists|before: Seq<char>, gap: Seq<char>, after: Seq<char>|
            is_blank(before) && is_blank(gap) && is_blank(after) && line == #[trigger] written_line(
                before,
                kind,
                gap,
                field_value(line, kind)->0,
                after,
            ),
{
    let t = trim(line);
    let value = field_value(line, kind)->0;
    let rest = t.skip(2);
    law_trim_takes_apart(line);
    law_trim_takes_apart(rest);
    let (before, after) = choose|before: Seq<char>, after: Seq<char>|
        is_blank(before) && is_blank(after) && line == #[trigger] (before + t + after);
    let (gap, tail) = choose|gap: Seq<char>, tail: Seq<char>|
        is_blank(gap) && is_blank(tail) && rest == #[trigger] (gap + value + tail);
    let end = tail + after;
    assert forall|i: int| 0 <= i < end.len() implies is_space(#[trigger] end[i]) by {
        if i < tail.len() {
            assert(end[i] == tail[i]);
        } else {
            assert(end[i] == after[i - tail.len()]);
        }
    }
    assert(t =~= seq![kind, '='] + rest);
    assert(line =~= written_line(before, kind, gap, value, end));
}

/// An attribute's line, `a=key:value`, with white space wherever it may stand.
pub open spec fn written_attribute(
    before: Seq<char>,
    lead: Seq<char>,
    key: Seq<char>,
    gap: Seq<char>,
    space: Seq<char>,
    value: Seq<char>,
    after: Seq<char>,
) -> Seq<char> {
    before + seq!['a', '='] + lead + key + gap + seq![':'] + space + value + after
}

/// An attribute's value comes back whole, whatever signs it holds: only the first colon ends the
/// key, and nothing ends the value but white space at the end of the line. It comes back for its
/// own key only.
pub proof fn law_attribute_comes_back_whole(
    before: Seq<char>,
    lead: Seq<char>,
    key: Seq<char>,
    gap: Seq<char>,
    space: Seq<char>,
    value: Seq<char>,
    after: Seq<char>,
    other: Seq<char>,
)
    requires
        is_blank(before),
        is_blank(lead),
        key.len() > 0,
        is_bare(key),
        !key.contains(':'),
        is_blank(gap),
        is_blank(space),
        value.len() > 0,
        is_bare(value),
        is_blank(after),
    ensures
        attribute_value(written_attribute(before, lead, key, gap, space, value, after), key)
            == Some(value),
        other != key ==> attribute_value(
            written_attribute(before, lead, key, gap, space, value, after),
            other,
        ) is None,
{
    let line = written_attribute(before, lead, key, gap, space, value, after);
    let head = key + gap;
    let text = head.push(':') + (space + value);
    assert(text[0] == key[0]);
    assert(text.last() == value.last());
    assert(line =~= written_line(before, 'a', lead, text, after));
    law_field_comes_back_whole(before, 'a', lead, text, after, 'a');
    assert(!head.contains(':')) by {
        assert forall|i: int| 0 <= i < head.len() implies head[i] != ':' by {
            if i < key.len() {
                assert(key.contains(key[i]));
            } else {
                assert(is_space(gap[i - key.len()]));
            }
        }
    }
    law_first_index(head, ':', space + value);
    let i = head.len() as int;
    assert(text.take(i) =~= Seq::empty() + key + gap);
    assert(text.skip(i + 1) =~= space + value + Seq::empty());
    law_trim(Seq::empty(), key, gap);
    law_trim(space, value, Seq::empty());
}

/// The line `a=key:value` gives exactly `value` for `key`: for every key without a colon and white
/// space and every value that is not empty and has no white space at its ends.
pub proof fn law_plain_attribute(key: Seq<char>, value: Seq<char>)
    requires
        key.len() > 0,
        !key.contains(':'),
        forall|i: int| 0 <= i < key.len() ==> !is_space(#[trigger] key[i]),
        value.len() > 0,
        !is_space(value[0]),
        !is_space(value.last()),
    ensures
        attribute_value("a="@ + key + ":"@ + value, key) == Some(value),
{
    let none = Seq::<char>::empty();
    reveal_strlit("a=");
    reveal_strlit(":");
    assert("a="@ + key + ":"@ + value =~= written_attribute(
        none,
        none,
        key,
        none,
        none,
        value,
        none,
    ));
    law_attribute_comes_back_whole(none, none, key, none, none, value, none, key);
}

/// Where an attribute's value is read, the line holds the key, a colon and the value, each with no
/// more than white space around it, and no colon stands before that one.
pub proof fn law_attribute_stands_on_the_line(line: Seq<char>, key: Seq<char>)
    requires
        attribute_value(line, key) is Some,
    ensures
        attribute_value(line, key)->0.len() > 0,
        is_bare(attribute_value(line, key)->0),
        is_bare(key),
        !key.contains(':'),
        exists|
            before: Seq<char>,
            lead: Seq<char>,
            gap: Seq<char>,
            space: Seq<char>,
            after: Seq<char>,
        |
            is_blank(before) && is_blank(lead) && is_blank(gap) && is_blank(space) && is_blank(
                after,
            ) && line == #[trigger] written_attribute(
                before,
                lead,
                key,
                gap,
                space,
                attribute_value(line, key)->0,
                after,
            ),
{
    let text = line_value(line, 'a')->0;
    let value = attribute_value(line, key)->0;
    lemma_first_index(text, ':');
    let n = first_index(text, ':')->0;
    let head = text.take(n);
    let tail = text.skip(n + 1);
    law_field_stands_on_the_line(line, 'a');
    let (before, lead, after) = choose|before: Seq<char>, lead: Seq<char>, after: Seq<char>|
        is_blank(before) && is_blank(lead) && is_blank(after) && line == #[trigger] written_line(
            before,
            'a',
            lead,
            text,
            after,
        );
    law_trim_takes_apart(head);
    law_trim_takes_apart(tail);
    let (more, gap) = choose|more: Seq<char>, gap: Seq<char>|
        is_blank(more) && is_blank(gap) && head == #[trigger] (more + key + gap);
    let (space, rest) = choose|space: Seq<char>, rest: Seq<char>|
        is_blank(space) && is_blank(rest) && tail == #[trigger] (space + value + rest);
    assert forall|i: int| 0 <= i < key.len() implies key[i] != ':' by {
        assert(head[more.len() + i] == key[i]);
        assert(text[more.len() + i] == key[i]);
    }
    let start = lead + more;
    let end = rest + after;
    assert forall|i: int| 0 <= i < start.len() implies is_space(
        #[trigger] start[i],
    ) by {
        if i < lead.len() {
            assert(start[i] == lead[i]);
        } else {
            assert(start[i] == more[i - lead.len()]);
        }
    }
    assert forall|i: int| 0 <= i < end.len() implies is_space(#[trigger] end[i]) by {
        if i < rest.len() {
            assert(end[i] == rest[i]);
        } else {
            assert(end[i] == after[i - rest.len()]);
        }
    }
    assert(text =~= head + seq![':'] + tail);
    assert(line =~= written_attribute(before, start, key, gap, space, value, end));
}

/// Each field is read from the lines of its own kind: the version from `v=`, the connection from
/// `c=`, the others from the attributes of their names.
pub proof fn law_fields_of_one_line(line: Seq<char>)
    ensures
        fields(seq![line]).version == field_value(line, 'v'),
        fields(seq![line]).connection == field_value(line, 'c'),
        fields(seq![line]).rtpmap == attribute_value(line, "rtpmap"@),
        fields(seq![line]).fmtp == attribute_value(line, "fmtp"@),
        fields(seq![line]).rsaaeskey == attribute_value(line, "rsaaeskey"@),
        fields(seq![line]).fpaeskey == attribute_value(line, "fpaeskey"@),
        fields(seq![line]).aesiv == attribute_value(line, "aesiv"@),
        fields(seq![line]).min_latency == attribute_value(line, "min-latency"@),
{
    law_first_value_of_one(line, |l: Seq<char>| field_value(l, 'v'));
    law_first_value_of_one(line, |l: Seq<char>| field_value(l, 'c'));
    law_first_value_of_one(line, |l: Seq<char>| attribute_value(l, "rtpmap"@));
    law_first_value_of_one(line, |l: Seq<char>| attribute_value(l, "fmtp"@));
    law_first_value_of_one(line, |l: Seq<char>| attribute_value(l, "rsaaeskey"@));
    law_first_value_of_one(line, |l: Seq<char>| attribute_value(l, "fpaeskey"@));
    law_first_value_of_one(line, |l: Seq<char>| attribute_value(l, "aesiv"@));
    law_first_value_of_one(line, |l: Seq<char>| attribute_value(l, "min-latency"@));
}

/// A field that is on the lines keeps its value whatever follows, and one that is not is read from
/// what follows.
pub proof fn law_first_lines_count(list: Seq<Seq<char>>, more: Seq<Seq<char>>)
    ensures
        ({
            let (first, rest, all) = (fields(list), fields(more), fields(list + more));
            &&& all.version == (if first.version is Some {
                first.version
            } else {
                rest.version
            })
            &&& all.connection == (if first.connection is Some {
                first.connection
            } else {
                rest.connection
            })
            &&& all.rtpmap == (if first.rtpmap is Some {
                first.rtpmap
            } else {
                rest.rtpmap
            })
            &&& all.fmtp == (if first.fmtp is Some {
                first.fmtp
            } else {
                rest.fmtp
            })
            &&& all.rsaaeskey == (if first.rsaaeskey is Some {
                first.rsaaeskey
            } else {
                rest.rsaaeskey
            })
            &&& all.fpaeskey == (if first.fpaeskey is Some {
                first.fpaeskey
            } else {
                rest.fpaeskey
            })
            &&& all.aesiv == (if first.aesiv is Some {
                first.aesiv
            } else {
                rest.aesiv
            })
            &&& all.min_latency == (if first.min_latency is Some {
                first.min_latency
            } else {
                rest.min_latency
            })
        }),
{
    law_first_value_stays(list, more, |l: Seq<char>| field_value(l, 'v'));
    law_first_value_stays(list, more, |l: Seq<char>| field_value(l, 'c'));
    law_first_value_stays(list, more, |l: Seq<char>| attribute_value(l, "rtpmap"@));
    law_first_value_stays(list, more, |l: Seq<char>| attribute_value(l, "fmtp"@));
    law_first_value_stays(list, more, |l: Seq<char>| attribute_value(l, "rsaaeskey"@));
    law_first_value_stays(list, more, |l: Seq<char>| attribute_value(l, "fpaeskey"@));
    law_first_value_stays(list, more, |l: Seq<char>| attribute_value(l, "aesiv"@));
    law_first_value_stays(list, more, |l: Seq<char>| attribute_value(l, "min-latency"@));
}

/// A description that starts with the attribute of a name on its first line holds exactly that
/// value, whatever follows.
pub proof fn law_first_line_is_kept(value: Seq<char>, rest: Seq<char>)
    requires
        value.len() > 0,
        is_bare(value),
        !value.contains('\n'),
    ensures
        fields(split(("v="@ + value).push('\n') + rest, '\n')).version == Some(value),
        fields(split(("c="@ + value).push('\n') + rest, '\n')).connection == Some(value),
        fields(split(("a=rtpmap:"@ + value).push('\n') + rest, '\n')).rtpmap == Some(value),
        fields(split(("a=fmtp:"@ + value).push('\n') + rest, '\n')).fmtp == Some(value),
        fields(split(("a=rsaaeskey:"@ + value).push('\n') + rest, '\n')).rsaaeskey == Some(value),
        fields(split(("a=fpaeskey:"@ + value).push('\n') + rest, '\n')).fpaeskey == Some(value),
        fields(split(("a=aesiv:"@ + value).push('\n') + rest, '\n')).aesiv == Some(value),
        fields(split(("a=min-latency:"@ + value).push('\n') + rest, '\n')).min_latency == Some(
            value,
        ),
{
    let none = Seq::<char>::empty();
    reveal_strlit("v=");
    reveal_strlit("c=");
    assert("v="@ + value =~= written_line(none, 'v', none, value, none));
    law_field_comes_back_whole(none, 'v', none, value, none, 'v');
    assert(!("v="@).contains('\n'));
    lemma_first_line("v="@, value, rest);
    assert("c="@ + value =~= written_line(none, 'c', none, value, none));
    law_field_comes_back_whole(none, 'c', none, value, none, 'c');
    assert(!("c="@).contains('\n'));
    lemma_first_line("c="@, value, rest);
    reveal_strlit("a=rtpmap:");
    reveal_strlit("rtpmap");
    lemma_attribute_line("a=rtpmap:"@, "rtpmap"@, value, rest);
    reveal_strlit("a=fmtp:");
    reveal_strlit("fmtp");
    lemma_attribute_line("a=fmtp:"@, "fmtp"@, value, rest);
    reveal_strlit("a=rsaaeskey:");
    reveal_strlit("rsaaeskey");
    lemma_attribute_line("a=rsaaeskey:"@, "rsaaeskey"@, value, rest);
    reveal_strlit("a=fpaeskey:");
    reveal_strlit("fpaeskey");
    lemma_attribute_line("a=fpaeskey:"@, "fpaeskey"@, value, rest);
    reveal_strlit("a=aesiv:");
    reveal_strlit("aesiv");
    lemma_attribute_line("a=aesiv:"@, "aesiv"@, value, rest);
    reveal_strlit("a=min-latency:");
    reveal_strlit("min-latency");
    lemma_attribute_line("a=min-latency:"@, "min-latency"@, value, rest);
}

proof fn lemma_attribute_line(prefix: Seq<char>, key: Seq<char>, value: Seq<char>, rest: Seq<char>)
    requires
        prefix =~= seq!['a', '='] + key + seq![':'],
        key.len() > 0,
        is_bare(key),
        !key.contains(':'),
        !key.contains('\n'),
        value.len() > 0,
        is_bare(value),
        !value.contains('\n'),
    ensures
        attribute_value(prefix + value, key) == Some(value),
        split((prefix + value).push('\n') + rest, '\n') == seq![prefix + value] + split(
            rest,
            '\n',
        ),
        ({
            let all = fields(split((prefix + value).push('\n') + rest, '\n'));
            let line = fields(seq![prefix + value]);
            &&& line.rtpmap is Some ==> all.rtpmap == line.rtpmap
            &&& line.fmtp is Some ==> all.fmtp == line.fmtp
            &&& line.rsaaeskey is Some ==> all.rsaaeskey == line.rsaaeskey
            &&& line.fpaeskey is Some ==> all.fpaeskey == line.fpaeskey
            &&& line.aesiv is Some ==> all.aesiv == line.aesiv
            &&& line.min_latency is Some ==> all.min_latency == line.min_latency
            &&& line.rtpmap == attribute_value(prefix + value, "rtpmap"@)
            &&& line.fmtp == attribute_value(prefix + value, "fmtp"@)
            &&& line.rsaaeskey == attribute_value(prefix + value, "rsaaeskey"@)
            &&& line.fpaeskey == attribute_value(prefix + value, "fpaeskey"@)
            &&& line.aesiv == attribute_value(prefix + value, "aesiv"@)
            &&& line.min_latency == attribute_value(prefix + value, "min-latency"@)
        }),
{
    let none = Seq::<char>::empty();
    assert(prefix + value =~= written_attribute(none, none, key, none, none, value, none));
    law_attribute_comes_back_whole(none, none, key, none, none, value, none, key);
    assert forall|i: int| 0 <= i < prefix.len() implies prefix[i] != '\n' by {
        if 2 <= i < 2 + key.len() {
            assert(key.contains(key[i - 2]));
        }
    }
    lemma_first_line(prefix, value, rest);
}

proof fn lemma_first_line(prefix: Seq<char>, value: Seq<char>, rest: Seq<char>)
    requires
        !prefix.contains('\n'),
        !value.contains('\n'),
    ensures
        split((prefix + value).push('\n') + rest, '\n') == seq![prefix + value] + split(
            rest,
            '\n',
        ),
        ({
            let all = fields(split((prefix + value).push('\n') + rest, '\n'));
            let line = fields(seq![prefix + value]);
            &&& line.version is Some ==> all.version == line.version
            &&& line.connection is Some ==> all.connection == line.connection
            &&& line.rtpmap is Some ==> all.rtpmap == line.rtpmap
            &&& line.fmtp is Some ==> all.fmtp == line.fmtp
            &&& line.rsaaeskey is Some ==> all.rsaaeskey == line.rsaaeskey
            &&& line.fpaeskey is Some ==> all.fpaeskey == line.fpaeskey
            &&& line.aesiv is Some ==> all.aesiv == line.aesiv
            &&& line.min_latency is Some ==> all.min_latency == line.min_latency
            &&& line.version == field_value(prefix + value, 'v')
            &&& line.connection == field_value(prefix + value, 'c')
            &&& line.rtpmap == attribute_value(prefix + value, "rtpmap"@)
            &&& line.fmtp == attribute_value(prefix + value, "fmtp"@)
            &&& line.rsaaeskey == attribute_value(prefix + value, "rsaaeskey"@)
            &&& line.fpaeskey == attribute_value(prefix + value, "fpaeskey"@)
            &&& line.aesiv == attribute_value(prefix + value, "aesiv"@)
            &&& line.min_latency == attribute_value(prefix + value, "min-latency"@)
        }),
{
    let line = prefix + value;
    assert(!line.contains('\n')) by {
        assert forall|i: int| 0 <= i < line.len() implies line[i] != '\n' by {
            if i < prefix.len() {
                assert(prefix.contains(prefix[i]));
            } else {
                assert(value.contains(value[i - prefix.len()]));
            }
        }
    }
    law_split(line, '\n', rest);
    law_first_lines_count(seq![line], split(rest, '\n'));
    law_fields_of_one_line(line);
}

/// Reading a description whose first line is an attribute gives that attribute's value whole, and
/// the other attributes as the rest of the description has them.
pub proof fn law_parsed_attributes(
    data: &str,
    sdp: Sdp,
    value: Seq<char>,
    rest: Seq<char>,
    rtpmap: Option<&str>,
    fmtp: Option<&str>,
    rsaaeskey: Option<&str>,
    fpaeskey: Option<&str>,
    aesiv: Option<&str>,
    min_latency: Option<&str>,
)
    requires
        value.len() > 0,
        is_bare(value),
        !value.contains('\n'),
        call_ensures(Sdp::parse, (data,), sdp),
        call_ensures(Sdp::rtpmap, (&sdp,), rtpmap),
        call_ensures(Sdp::fmtp, (&sdp,), fmtp),
        call_ensures(Sdp::rsaaeskey, (&sdp,), rsaaeskey),
        call_ensures(Sdp::fpaeskey, (&sdp,), fpaeskey),
        call_ensures(Sdp::aesiv, (&sdp,), aesiv),
        call_ensures(Sdp::min_latency, (&sdp,), min_latency),
    ensures
        data@ == ("a=rtpmap:"@ + value).push('\n') + rest ==> (rtpmap matches Some(text) && text@
            == value),
        data@ == ("a=fmtp:"@ + value).push('\n') + rest ==> (fmtp matches Some(text) && text@
            == value),
        data@ == ("a=rsaaeskey:"@ + value).push('\n') + rest ==> (rsaaeskey matches Some(text)
            && text@ == value),
        data@ == ("a=fpaeskey:"@ + value).push('\n') + rest ==> (fpaeskey matches Some(text)
            && text@ == value),
        data@ == ("a=aesiv:"@ + value).push('\n') + rest ==> (aesiv matches Some(text) && text@
            == value),
        data@ == ("a=min-latency:"@ + value).push('\n') + rest ==> (min_latency matches Some(text)
            && text@ == value),
{
    law_first_line_is_kept(value, rest);
    law_text_views(None, rtpmap);
    law_text_views(None, fmtp);
    law_text_views(None, rsaaeskey);
    law_text_views(None, fpaeskey);
    law_text_views(None, aesiv);
    law_text_views(None, min_latency);
}

/// Reading a description whose first line is its version or its connection gives it whole.
pub proof fn law_parsed_fields(
    data: &str,
    sdp: Sdp,
    value: Seq<char>,
    rest: Seq<char>,
    version: Option<&str>,
    connection: Option<&str>,
)
    requires
        value.len() > 0,
        is_bare(value),
        !value.contains('\n'),
        call_ensures(Sdp::parse, (data,), sdp),
        call_ensures(Sdp::version, (&sdp,), version),
        call_ensures(Sdp::connection, (&sdp,), connection),
    ensures
        data@ == ("v="@ + value).push('\n') + rest ==> (version matches Some(text) && text@
            == value),
        data@ == ("c="@ + value).push('\n') + rest ==> (connection matches Some(text) && text@
            == value),
{
    law_first_line_is_kept(value, rest);
    law_text_views(None, version);
    law_text_views(None, connection);
}

} // verus!
