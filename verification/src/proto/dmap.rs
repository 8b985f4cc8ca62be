//! Track metadata in DMAP (Digital Media Access Protocol).
//!
//! An item is a 4-byte tag, a big-endian 32-bit length, and that many bytes of value. Metadata
//! comes as one `mlit` item that holds others.
use crate::text::{text_view, utf8_text};
use crate::wire::{be_nat, read_be_u16, read_be_u32};
use vstd::prelude::*;
use vstd::utf8::{decode_utf8, valid_utf8};

verus! {

/// `mlit`, the list that all other items stand in.
pub const TAG_LISTING: u32 = 0x6d6c_6974;

/// `minm`, the title.
pub const TAG_TITLE: u32 = 0x6d69_6e6d;

/// `asar`, the artist.
pub const TAG_ARTIST: u32 = 0x6173_6172;

/// `asal`, the album.
pub const TAG_ALBUM: u32 = 0x6173_616c;

/// `asgn`, the genre.
pub const TAG_GENRE: u32 = 0x6173_676e;

/// `astm`, the duration.
pub const TAG_DURATION: u32 = 0x6173_746d;

/// `astn`, the track number.
pub const TAG_TRACK: u32 = 0x6173_746e;

/// `asdk`, the disc number.
pub const TAG_DISC: u32 = 0x6173_646b;

/// An item: its tag as a big-endian number, and its value.
pub struct Item {
    /// The tag.
    pub tag: nat,
    /// The value.
    pub value: Seq<u8>,
}

/// The items at the start of `body`, up to one that is not complete.
pub open spec fn items(body: Seq<u8>) -> Seq<Item>
    decreases body.len(),
{
    if body.len() < 8 {
        Seq::empty()
    } else {
        let len = be_nat(body.subrange(4, 8)) as int;
        if 8 + len > body.len() {
            Seq::empty()
        } else {
            seq![Item { tag: be_nat(body.take(4)), value: body.subrange(8, 8 + len) }] + items(
                body.skip(8 + len),
            )
        }
    }
}

/// What stands in the `mlit` item at the start of `data`: as many bytes as it declares, or as many
/// as there are. A length that no memory could hold counts as nothing.
pub open spec fn listing(data: Seq<u8>) -> Seq<u8> {
    if data.len() < 8 || be_nat(data.take(4)) != TAG_LISTING {
        Seq::empty()
    } else {
        let end = 8 + be_nat(data.subrange(4, 8)) as int;
        if end > usize::MAX {
            Seq::empty()
        } else if end < data.len() {
            data.subrange(8, end)
        } else {
            data.skip(8)
        }
    }
}

/// The value of the last item that `read` understands.
pub open spec fn last_value<T>(list: Seq<Item>, read: spec_fn(Item) -> Option<T>) -> Option<T>
    decreases list.len(),
{
    if list.len() == 0 {
        None
    } else {
        match read(list.last()) {
            Some(value) => Some(value),
            None => last_value(list.drop_last(), read),
        }
    }
}

/// The text of an item with a tag, where its value is well-formed UTF-8.
pub open spec fn text_item(tag: u32) -> spec_fn(Item) -> Option<Seq<char>> {
    |item: Item|
        if item.tag == tag && valid_utf8(item.value) {
            Some(decode_utf8(item.value))
        } else {
            None
        }
}

/// The number of an item with a tag, where its value has `width` bytes.
pub open spec fn number_item(tag: u32, width: nat) -> spec_fn(Item) -> Option<nat> {
    |item: Item|
        if item.tag == tag && item.value.len() == width {
            Some(be_nat(item.value))
        } else {
            None
        }
}

/// Metadata as mathematical values.
#[verifier::ext_equal]
pub struct MetadataView {
    pub title: Option<Seq<char>>,
    pub artist: Option<Seq<char>>,
    pub album: Option<Seq<char>>,
    pub genre: Option<Seq<char>>,
    pub duration_ms: Option<nat>,
    pub track_number: Option<nat>,
    pub disc_number: Option<nat>,
}

/// The metadata in a list of items: for each field the last item that holds a proper value.
pub open spec fn metadata(list: Seq<Item>) -> MetadataView {
    MetadataView {
        title: last_value(list, text_item(TAG_TITLE)),
        artist: last_value(list, text_item(TAG_ARTIST)),
        album: last_value(list, text_item(TAG_ALBUM)),
        genre: last_value(list, text_item(TAG_GENRE)),
        duration_ms: last_value(list, number_item(TAG_DURATION, 4)),
        track_number: last_value(list, number_item(TAG_TRACK, 2)),
        disc_number: last_value(list, number_item(TAG_DISC, 2)),
    }
}

/// Metadata of a track.
#[derive(Debug, Clone)]
pub struct TrackMetadata {
    /// The title.
    pub title: Option<String>,
    /// The artist's name.
    pub artist: Option<String>,
    /// The album's name.
    pub album: Option<String>,
    /// The genre.
    pub genre: Option<String>,
    /// The duration in milliseconds.
    pub duration_ms: Option<u32>,
    /// The number of the track.
    pub track_number: Option<u16>,
    /// The number of the disc.
    pub disc_number: Option<u16>,
}

impl View for TrackMetadata {
    type V = MetadataView;

    open spec fn view(&self) -> MetadataView {
        MetadataView {
            title: text_view(self.title),
            artist: text_view(self.artist),
            album: text_view(self.album),
            genre: text_view(self.genre),
            duration_ms: match self.duration_ms {
                Some(n) => Some(n as nat),
                None => None,
            },
            track_number: match self.track_number {
                Some(n) => Some(n as nat),
                None => None,
            },
            disc_number: match self.disc_number {
                Some(n) => Some(n as nat),
                None => None,
            },
        }
    }
}

impl Default for TrackMetadata {
    fn default() -> (r: Self)
        ensures
            r@ == metadata(Seq::empty()),
    {
        TrackMetadata {
            title: None,
            artist: None,
            album: None,
            genre: None,
            duration_ms: None,
            track_number: None,
            disc_number: None,
        }
    }
}

/// A text, or `before` where there is none.
fn text_or(value: &[u8], before: Option<String>) -> (r: Option<String>)
    ensures
        valid_utf8(value@) ==> text_view(r) == Some(decode_utf8(value@)),
        !valid_utf8(value@) ==> r == before,
{
    match utf8_text(value) {
        Some(text) => Some(text.to_owned()),
        None => before,
    }
}

impl TrackMetadata {
    /// Parses metadata. What cannot be understood is passed over; bytes behind the declared length
    /// are not looked at, and a listing that is cut short gives what is there.
    pub fn from_dmap(data: &[u8]) -> (r: Self)
        ensures
            r@ == metadata(items(listing(data@))),
    {
        let mut meta = TrackMetadata::default();
        let len: usize = data.len();
        if len < 8 {
            return meta;
        }
        assert(data@.take(4) =~= data@.subrange(0, 4));
        if read_be_u32(data, 0) != TAG_LISTING {
            return meta;
        }
        let declared: usize = read_be_u32(data, 4) as usize;
        if declared > usize::MAX - 8 {
            return meta;
        }
        let end: usize = if 8 + declared < len {
            8 + declared
        } else {
            len
        };
        let ghost body = listing(data@);
        let ghost mut seen: Seq<Item> = Seq::empty();
        let mut pos: usize = 8;
        proof {
            assert(data@.subrange(pos as int, end as int) =~= body);
            assert(seen + items(body) =~= items(body));
        }
        while end - pos >= 8
            invariant
                pos <= end <= len == data@.len(),
                meta@ == metadata(seen),
                seen + items(data@.subrange(pos as int, end as int)) == items(body),
            ensures
                meta@ == metadata(items(body)),
            decreases end - pos,
        {
            let ghost rest = data@.subrange(pos as int, end as int);
            assert(rest.take(4) =~= data@.subrange(pos as int, pos + 4));
            assert(rest.subrange(4, 8) =~= data@.subrange(pos + 4, pos + 8));
            let tag: u32 = read_be_u32(data, pos);
            let size: usize = read_be_u32(data, pos + 4) as usize;
            if size > end - pos - 8 {
                assert(seen + Seq::<Item>::empty() =~= seen);
                break;
            }
            let value_end: usize = pos + 8 + size;
            let value: &[u8] = &data[pos + 8..value_end];
            let ghost item = Item { tag: tag as nat, value: value@ };
            let ghost before = meta@;
            if tag == TAG_TITLE {
                meta.title = text_or(value, meta.title);
            } else if tag == TAG_ARTIST {
                meta.artist = text_or(value, meta.artist);
            } else if tag == TAG_ALBUM {
                meta.album = text_or(value, meta.album);
            } else if tag == TAG_GENRE {
                meta.genre = text_or(value, meta.genre);
            } else if tag == TAG_DURATION {
                if value.len() == 4 {
                    meta.duration_ms = Some(read_be_u32(value, 0));
                    assert(value@.subrange(0, 4) =~= value@);
                }
            } else if tag == TAG_TRACK {
                if value.len() == 2 {
                    meta.track_number = Some(read_be_u16(value, 0));
                    assert(value@.subrange(0, 2) =~= value@);
                }
            } else if tag == TAG_DISC {
                if value.len() == 2 {
                    meta.disc_number = Some(read_be_u16(value, 0));
                    assert(value@.subrange(0, 2) =~= value@);
                }
            }
            proof {
                assert(rest.subrange(8, 8 + size) =~= value@);
                assert(rest.skip(8 + size) =~= data@.subrange(value_end as int, end as int));
                assert(seen.push(item).drop_last() =~= seen);
                assert(meta@ =~= metadata(seen.push(item)));
                assert(seen + items(rest) =~= seen.push(item) + items(rest.skip(8 + size)));
                seen = seen.push(item);
            }
            pos = value_end;
        }
        meta
    }
}

/// An item whose value is not proper for its tag does not change what earlier items said.
pub proof fn law_improper_item_changes_nothing(list: Seq<Item>, item: Item)
    requires
        item.tag == TAG_TITLE || item.tag == TAG_ARTIST || item.tag == TAG_ALBUM || item.tag
            == TAG_GENRE ==> !valid_utf8(item.value),
        item.tag == TAG_DURATION ==> item.value.len() != 4,
        item.tag == TAG_TRACK || item.tag == TAG_DISC ==> item.value.len() != 2,
    ensures
        metadata(list.push(item)) == metadata(list),
{
    assert(list.push(item).drop_last() =~= list);
}

/// Bytes behind the declared length of the listing are not looked at.
pub proof fn law_declared_length_holds(data: Seq<u8>, more: Seq<u8>)
    requires
        data.len() >= 8,
        be_nat(data.subrange(4, 8)) + 8 <= data.len(),
    ensures
        metadata(items(listing(data + more))) == metadata(items(listing(data))),
{
    assert((data + more).take(4) =~= data.take(4));
    assert((data + more).subrange(4, 8) =~= data.subrange(4, 8));
    assert(listing(data + more) =~= listing(data));
}

/// The items of the start of a body are the first items of the body.
proof fn lemma_items_of_start(body: Seq<u8>, n: int)
    requires
        0 <= n <= body.len(),
    ensures
        items(body.take(n)).is_prefix_of(items(body)),
    decreases body.len(),
{
    let start = body.take(n);
    if n >= 8 {
        assert(start.subrange(4, 8) =~= body.subrange(4, 8));
        assert(start.take(4) =~= body.take(4));
        let len = be_nat(body.subrange(4, 8)) as int;
        if 8 + len <= n {
            assert(start.subrange(8, 8 + len) =~= body.subrange(8, 8 + len));
            assert(start.skip(8 + len) =~= body.skip(8 + len).take(n - 8 - len));
            lemma_items_of_start(body.skip(8 + len), n - 8 - len);
            assert(items(start) =~= items(body).take(items(start).len() as int));
        }
    }
}

/// A listing that is cut short gives the items before the cut.
pub proof fn law_truncated_listing(data: Seq<u8>, n: int)
    requires
        8 <= n <= data.len(),
    ensures
        items(listing(data.take(n))).is_prefix_of(items(listing(data))),
{
    assert(data.take(n).take(4) =~= data.take(4));
    assert(data.take(n).subrange(4, 8) =~= data.subrange(4, 8));
    let body = listing(data);
    let m = if n - 8 < body.len() {
        n - 8
    } else {
        body.len() as int
    };
    assert(listing(data.take(n)) =~= body.take(m));
    lemma_items_of_start(body, m);
}

/// An item is its tag, its length and its value, and what follows is read on its own.
pub proof fn law_item_layout(tag: Seq<u8>, length: Seq<u8>, value: Seq<u8>, rest: Seq<u8>)
    requires
        tag.len() == 4,
        length.len() == 4,
        be_nat(length) == value.len(),
    ensures
        items(tag + length + value + rest) == seq![Item { tag: be_nat(tag), value }] + items(rest),
{
    let body = tag + length + value + rest;
    let n = value.len() as int;
    assert(body.take(4) =~= tag);
    assert(body.subrange(4, 8) =~= length);
    assert(body.subrange(8, 8 + n) =~= value);
    assert(body.skip(8 + n) =~= rest);
}

/// An item that is not complete ends the list.
pub proof fn law_incomplete_item(tag: Seq<u8>, length: Seq<u8>, value: Seq<u8>, body: Seq<u8>)
    requires
        tag.len() == 4,
        length.len() == 4,
        be_nat(length) > value.len(),
        body.len() < 8,
    ensures
        items(tag + length + value) == Seq::<Item>::empty(),
        items(body) == Seq::<Item>::empty(),
{
    assert((tag + length + value).subrange(4, 8) =~= length);
}

/// A listing is `mlit`, a length and that many bytes. What follows is not in it, and one that is
/// cut short is what there is.
pub proof fn law_listing_layout(length: Seq<u8>, body: Seq<u8>, more: Seq<u8>)
    requires
        length.len() == 4,
        be_nat(length) + 8 <= usize::MAX,
    ensures
        be_nat(length) == body.len() ==> listing(
            seq![109u8, 108u8, 105u8, 116u8] + length + body + more,
        ) == body,
        be_nat(length) >= body.len() ==> listing(seq![109u8, 108u8, 105u8, 116u8] + length + body)
            == body,
{
    let tag = seq![109u8, 108u8, 105u8, 116u8];
    lemma_tag(109, 108, 105, 116);
    let all = tag + length + body + more;
    let short = tag + length + body;
    assert(all.take(4) =~= tag);
    assert(all.subrange(4, 8) =~= length);
    assert(short.take(4) =~= tag);
    assert(short.subrange(4, 8) =~= length);
    assert(short.skip(8) =~= body);
    if be_nat(length) == body.len() {
        let end = 8 + be_nat(length) as int;
        if end < all.len() {
            assert(all.subrange(8, end) =~= body);
        } else {
            assert(all.skip(8) =~= body);
        }
    }
    if be_nat(length) == body.len() {
        assert(short.subrange(8, short.len() as int) =~= body);
    }
}

/// What does not start with `mlit` holds nothing.
pub proof fn law_other_data_is_no_listing(data: Seq<u8>)
    requires
        data.len() < 8 || data[0] != 109 || data[1] != 108 || data[2] != 105 || data[3] != 116,
    ensures
        listing(data) == Seq::<u8>::empty(),
        metadata(items(listing(data))) == metadata(Seq::empty()),
{
    if data.len() >= 8 {
        let tag = data.take(4);
        assert(tag =~= seq![data[0], data[1], data[2], data[3]]);
        lemma_tag(data[0], data[1], data[2], data[3]);
    }
}

/// The number that four bytes spell.
proof fn lemma_tag(a: u8, b: u8, c: u8, d: u8)
    ensures
        be_nat(seq![a, b, c, d]) == 0x100_0000 * a + 0x1_0000 * b + 0x100 * c + d,
{
    reveal_with_fuel(be_nat, 5);
    assert(seq![a, b, c, d].drop_last() =~= seq![a, b, c]);
    assert(seq![a, b, c].drop_last() =~= seq![a, b]);
    assert(seq![a, b].drop_last() =~= seq![a]);
    assert(seq![a].drop_last() =~= Seq::empty());
}

/// No items say nothing.
pub proof fn law_no_items()
    ensures
        metadata(Seq::empty()).title is None,
        metadata(Seq::empty()).artist is None,
        metadata(Seq::empty()).album is None,
        metadata(Seq::empty()).genre is None,
        metadata(Seq::empty()).duration_ms is None,
        metadata(Seq::empty()).track_number is None,
        metadata(Seq::empty()).disc_number is None,
{
}

/// A text item sets the field of its tag, `minm`, `asar`, `asal` or `asgn`, to its whole text,
/// whatever came before, and no other field.
pub proof fn law_text_items(list: Seq<Item>, value: Seq<u8>)
    requires
        valid_utf8(value),
    ensures
        metadata(list.push(Item { tag: be_nat(seq![109u8, 105u8, 110u8, 109u8]), value })) == (
        MetadataView { title: Some(decode_utf8(value)), ..metadata(list) }),
        metadata(list.push(Item { tag: be_nat(seq![97u8, 115u8, 97u8, 114u8]), value })) == (
        MetadataView { artist: Some(decode_utf8(value)), ..metadata(list) }),
        metadata(list.push(Item { tag: be_nat(seq![97u8, 115u8, 97u8, 108u8]), value })) == (
        MetadataView { album: Some(decode_utf8(value)), ..metadata(list) }),
        metadata(list.push(Item { tag: be_nat(seq![97u8, 115u8, 103u8, 110u8]), value })) == (
        MetadataView { genre: Some(decode_utf8(value)), ..metadata(list) }),
{
    lemma_tag(109, 105, 110, 109);
    lemma_tag(97, 115, 97, 114);
    lemma_tag(97, 115, 97, 108);
    lemma_tag(97, 115, 103, 110);
    assert forall|item: Item| (#[trigger] list.push(item)).drop_last() =~= list by {}
}

/// A number item sets the field of its tag, `astm` with four bytes, `astn` or `asdk` with two, to
/// its number, whatever came before, and no other field.
pub proof fn law_number_items(list: Seq<Item>, long: Seq<u8>, short: Seq<u8>)
    requires
        long.len() == 4,
        short.len() == 2,
    ensures
        metadata(list.push(Item { tag: be_nat(seq![97u8, 115u8, 116u8, 109u8]), value: long })) == (
        MetadataView { duration_ms: Some(be_nat(long)), ..metadata(list) }),
        metadata(list.push(Item { tag: be_nat(seq![97u8, 115u8, 116u8, 110u8]), value: short }))
            == (MetadataView { track_number: Some(be_nat(short)), ..metadata(list) }),
        metadata(list.push(Item { tag: be_nat(seq![97u8, 115u8, 100u8, 107u8]), value: short }))
            == (MetadataView { disc_number: Some(be_nat(short)), ..metadata(list) }),
{
    lemma_tag(97, 115, 116, 109);
    lemma_tag(97, 115, 116, 110);
    lemma_tag(97, 115, 100, 107);
    assert forall|item: Item| (#[trigger] list.push(item)).drop_last() =~= list by {}
}

/// An item of any other tag changes nothing.
pub proof fn law_other_items(list: Seq<Item>, item: Item)
    requires
        item.tag != be_nat(seq![109u8, 105u8, 110u8, 109u8]),
        item.tag != be_nat(seq![97u8, 115u8, 97u8, 114u8]),
        item.tag != be_nat(seq![97u8, 115u8, 97u8, 108u8]),
        item.tag != be_nat(seq![97u8, 115u8, 103u8, 110u8]),
        item.tag != be_nat(seq![97u8, 115u8, 116u8, 109u8]),
        item.tag != be_nat(seq![97u8, 115u8, 116u8, 110u8]),
        item.tag != be_nat(seq![97u8, 115u8, 100u8, 107u8]),
    ensures
        metadata(list.push(item)) == metadata(list),
{
    lemma_tag(109, 105, 110, 109);
    lemma_tag(97, 115, 97, 114);
    lemma_tag(97, 115, 97, 108);
    lemma_tag(97, 115, 103, 110);
    lemma_tag(97, 115, 116, 109);
    lemma_tag(97, 115, 116, 110);
    lemma_tag(97, 115, 100, 107);
    assert(list.push(item).drop_last() =~= list);
}

/// Metadata is seen field by field, each as it is.
pub proof fn law_metadata_fields(meta: TrackMetadata)
    ensures
        meta.title matches Some(text) ==> meta@.title == Some(text@),
        meta.artist matches Some(text) ==> meta@.artist == Some(text@),
        meta.album matches Some(text) ==> meta@.album == Some(text@),
        meta.genre matches Some(text) ==> meta@.genre == Some(text@),
        meta.duration_ms matches Some(n) ==> meta@.duration_ms == Some(n as nat),
        meta.track_number matches Some(n) ==> meta@.track_number == Some(n as nat),
        meta.disc_number matches Some(n) ==> meta@.disc_number == Some(n as nat),
        meta.title is None <==> meta@.title is None,
        meta.artist is None <==> meta@.artist is None,
        meta.album is None <==> meta@.album is None,
        meta.genre is None <==> meta@.genre is None,
        meta.duration_ms is None <==> meta@.duration_ms is None,
        meta.track_number is None <==> meta@.track_number is None,
        meta.disc_number is None <==> meta@.disc_number is None,
{
}

/// Reading metadata gives for each field the value of the last proper item of the listing, and
/// nothing for a field without one.
pub proof fn law_parsed_metadata(data: &[u8], meta: TrackMetadata)
    requires
        call_ensures(TrackMetadata::from_dmap, (data,), meta),
    ensures
        meta@ == metadata(items(listing(data@))),
        data@.len() < 8 ==> meta.title is None && meta.artist is None && meta.album is None
            && meta.genre is None && meta.duration_ms is None && meta.track_number is None
            && meta.disc_number is None,
{
    law_metadata_fields(meta);
    law_no_items();
    if data@.len() < 8 {
        law_other_data_is_no_listing(data@);
    }
}

/// A listing of one title and nothing else gives that title and nothing else, whatever its length.
pub proof fn law_parsed_title(
    data: &[u8],
    meta: TrackMetadata,
    whole: Seq<u8>,
    length: Seq<u8>,
    title: Seq<u8>,
)
    requires
        call_ensures(TrackMetadata::from_dmap, (data,), meta),
        whole.len() == 4,
        length.len() == 4,
        be_nat(length) == title.len(),
        be_nat(whole) == title.len() + 8,
        be_nat(whole) + 8 <= usize::MAX,
        valid_utf8(title),
        data@ == seq![109u8, 108u8, 105u8, 116u8] + whole + (seq![109u8, 105u8, 110u8, 109u8]
            + length + title),
    ensures
        meta.title matches Some(text) && text@ == decode_utf8(title),
        meta.artist is None,
        meta.album is None,
        meta.genre is None,
        meta.duration_ms is None,
        meta.track_number is None,
        meta.disc_number is None,
{
    let tag = seq![109u8, 105u8, 110u8, 109u8];
    let body = tag + length + title;
    law_listing_layout(whole, body, Seq::empty());
    law_item_layout(tag, length, title, Seq::empty());
    assert(items(Seq::empty()) =~= Seq::<Item>::empty());
    let item = Item { tag: be_nat(tag), value: title };
    assert(body + Seq::<u8>::empty() =~= body);
    assert(seq![item] + Seq::<Item>::empty() =~= Seq::<Item>::empty().push(item));
    law_text_items(Seq::empty(), title);
    law_no_items();
    law_metadata_fields(meta);
}

} // verus!
