//! The requests that control HTTP live streaming: `/server-info`, `/play`, `/playback-info`,
//! `/scrub`, `/rate`, `/stop`.
use crate::raop::plist_limits::{fits, law_old_dates_widen_the_limits, within_limits};
use crate::raop::plist_tree::{
    copy_value, dict_entry, dict_value, entries_view, integer_value, is_real, keys_differ,
    law_dictionary_entries, parse_plist, plist_parsed, plist_tree, plist_xml, shows_year_zero,
    single_value, text_of, text_value, time_before_epoch, write_xml, PlistTree, MAX_WRITTEN_DEPTH,
    YEAR_ZERO_AGE,
};
use crate::text::{
    chars_of, colon_hex, colon_hex_text, find_char, first_index, first_value, is_text,
    law_first_index, law_first_value_of_one, law_first_value_stays, law_split, law_text_views,
    lemma_first_index, slices_view, split, split_chars, string_of, text_view,
};
use vstd::prelude::*;

verus! {

/// The content type of a property list in XML.
pub const PLIST_CONTENT_TYPE: &'static str = "text/x-apple-plist+xml";

/// Video, photos, protected content, volume, live streaming, slide shows and audio, as bits.
pub const HLS_FEATURES: i64 = 0x27F;

/// What the server says of itself.
pub open spec fn server_info_tree(
    hwaddr: Seq<u8>,
    model: Seq<char>,
    srcvers: Seq<char>,
) -> PlistTree {
    PlistTree::Dict(
        seq![
            ("features"@, PlistTree::Integer(HLS_FEATURES as int)),
            ("macAddress"@, PlistTree::Text(colon_hex(hwaddr))),
            ("model"@, PlistTree::Text(model)),
            ("osBuildVersion"@, PlistTree::Text("12B435"@)),
            ("protovers"@, PlistTree::Text("1.0"@)),
            ("srcvers"@, PlistTree::Text(srcvers)),
            ("vv"@, PlistTree::Integer(2)),
            ("deviceid"@, PlistTree::Text(colon_hex(hwaddr))),
        ],
    )
}

proof fn lemma_server_info_keys(hwaddr: Seq<u8>, model: Seq<char>, srcvers: Seq<char>)
    ensures
        keys_differ(server_info_tree(hwaddr, model, srcvers)->Dict_0),
{
    reveal_strlit("features");
    reveal_strlit("macAddress");
    reveal_strlit("model");
    reveal_strlit("osBuildVersion");
    reveal_strlit("protovers");
    reveal_strlit("srcvers");
    reveal_strlit("vv");
    reveal_strlit("deviceid");
    assert("features"@.len() == 8 && "features"@[0] == 'f');
    assert("macAddress"@.len() == 10);
    assert("model"@.len() == 5);
    assert("osBuildVersion"@.len() == 14);
    assert("protovers"@.len() == 9);
    assert("srcvers"@.len() == 7);
    assert("vv"@.len() == 2);
    assert("deviceid"@.len() == 8 && "deviceid"@[0] == 'd');
}

/// `GET /server-info`: the body of the answer.
pub fn server_info(hwaddr: &[u8], model: &str, srcvers: &str) -> (r: Option<Vec<u8>>)
    ensures
        r matches Some(body) && body@ == plist_xml(
            server_info_tree(hwaddr@, model@, srcvers@),
        ),
{
    let mac = colon_hex_text(hwaddr);
    let mut dict: Vec<(String, plist::Value)> = Vec::new();
    dict.push(("features".to_owned(), integer_value(HLS_FEATURES)));
    dict.push(("macAddress".to_owned(), text_value(mac.as_str())));
    dict.push(("model".to_owned(), text_value(model)));
    dict.push(("osBuildVersion".to_owned(), text_value("12B435")));
    dict.push(("protovers".to_owned(), text_value("1.0")));
    dict.push(("srcvers".to_owned(), text_value(srcvers)));
    dict.push(("vv".to_owned(), integer_value(2)));
    dict.push(("deviceid".to_owned(), text_value(mac.as_str())));
    let ghost tree = server_info_tree(hwaddr@, model@, srcvers@);
    proof {
        lemma_server_info_keys(hwaddr@, model@, srcvers@);
        reveal_with_fuel(PlistTree::plain, 3);
        assert(entries_view(dict@) =~= tree->Dict_0);
    }
    let value = dict_value(dict);
    match write_xml(&value) {
        Ok(body) => Some(body),
        Err(_) => None,
    }
}

/// The times of a playback, as floating-point values of the `plist` crate.
pub struct PlaybackTimes {
    /// The duration in seconds.
    pub duration: plist::Value,
    /// The position in seconds.
    pub position: plist::Value,
    /// The rate, zero while paused.
    pub rate: plist::Value,
    /// What is left between the position and the end.
    pub remaining: plist::Value,
    /// Zero seconds.
    pub start: plist::Value,
}

impl PlaybackTimes {
    /// All times are floating-point values.
    pub open spec fn all_real(self) -> bool {
        &&& plist_tree(self.duration) is Real
        &&& plist_tree(self.position) is Real
        &&& plist_tree(self.rate) is Real
        &&& plist_tree(self.remaining) is Real
        &&& plist_tree(self.start) is Real
    }
}

/// A list of one time range.
pub open spec fn range_tree(start: PlistTree, duration: PlistTree) -> PlistTree {
    PlistTree::Array(
        seq![PlistTree::Dict(seq![("start"@, start), ("duration"@, duration)])],
    )
}

/// The state of a playback. What is loaded reaches from the position to the end, and all of it can
/// be sought in.
pub open spec fn playback_info_tree(times: PlaybackTimes, ready: bool) -> PlistTree {
    PlistTree::Dict(
        seq![
            ("duration"@, plist_tree(times.duration)),
            ("position"@, plist_tree(times.position)),
            ("rate"@, plist_tree(times.rate)),
            (
                "readyToPlay"@,
                PlistTree::Integer(
                    if ready {
                        1
                    } else {
                        0
                    },
                ),
            ),
            ("playbackBufferEmpty"@, PlistTree::Integer(0)),
            ("playbackBufferFull"@, PlistTree::Integer(1)),
            ("playbackLikelyToKeepUp"@, PlistTree::Integer(1)),
            (
                "loadedTimeRanges"@,
                range_tree(plist_tree(times.position), plist_tree(times.remaining)),
            ),
            (
                "seekableTimeRanges"@,
                range_tree(plist_tree(times.start), plist_tree(times.duration)),
            ),
        ],
    )
}

fn range_value(start: plist::Value, duration: plist::Value) -> (r: plist::Value)
    ensures
        plist_tree(r) == range_tree(plist_tree(start), plist_tree(duration)),
{
    let ghost s = plist_tree(start);
    let ghost d = plist_tree(duration);
    let mut dict: Vec<(String, plist::Value)> = Vec::new();
    dict.push(("start".to_owned(), start));
    dict.push(("duration".to_owned(), duration));
    proof {
        reveal_strlit("start");
        reveal_strlit("duration");
        assert("start"@.len() != "duration"@.len());
        assert(entries_view(dict@) =~= seq![("start"@, s), ("duration"@, d)]);
    }
    single_value(dict_value(dict))
}

proof fn lemma_playback_info_keys(times: PlaybackTimes, ready: bool)
    ensures
        keys_differ(playback_info_tree(times, ready)->Dict_0),
{
    reveal_strlit("duration");
    reveal_strlit("position");
    reveal_strlit("rate");
    reveal_strlit("readyToPlay");
    reveal_strlit("playbackBufferEmpty");
    reveal_strlit("playbackBufferFull");
    reveal_strlit("playbackLikelyToKeepUp");
    reveal_strlit("loadedTimeRanges");
    reveal_strlit("seekableTimeRanges");
    assert("duration"@.len() == 8 && "duration"@[0] == 'd');
    assert("position"@.len() == 8 && "position"@[0] == 'p');
    assert("rate"@.len() == 4);
    assert("readyToPlay"@.len() == 11);
    assert("playbackBufferEmpty"@.len() == 19);
    assert("playbackBufferFull"@.len() == 18 && "playbackBufferFull"@[0] == 'p');
    assert("playbackLikelyToKeepUp"@.len() == 22);
    assert("loadedTimeRanges"@.len() == 16);
    assert("seekableTimeRanges"@.len() == 18 && "seekableTimeRanges"@[0] == 's');
}

proof fn lemma_playback_info_plain(times: PlaybackTimes, ready: bool)
    requires
        times.all_real(),
    ensures
        playback_info_tree(times, ready).plain(MAX_WRITTEN_DEPTH as nat),
{
    reveal_with_fuel(PlistTree::plain, 4);
}

/// `GET /playback-info`: the body of the answer. There is one whenever the times are
/// floating-point values.
pub fn playback_info(times: &PlaybackTimes, ready: bool) -> (r: Option<Vec<u8>>)
    ensures
        match r {
            Some(body) => times.all_real() && body@ == plist_xml(playback_info_tree(*times, ready)),
            None => !times.all_real(),
        },
{
    if !(is_real(&times.duration) && is_real(&times.position) && is_real(&times.rate) && is_real(
        &times.remaining,
    ) && is_real(&times.start)) {
        return None;
    }
    let mut dict: Vec<(String, plist::Value)> = Vec::new();
    dict.push(("duration".to_owned(), copy_value(&times.duration)));
    dict.push(("position".to_owned(), copy_value(&times.position)));
    dict.push(("rate".to_owned(), copy_value(&times.rate)));
    dict.push(
        (
            "readyToPlay".to_owned(),
            integer_value(
                if ready {
                    1
                } else {
                    0
                },
            ),
        ),
    );
    dict.push(("playbackBufferEmpty".to_owned(), integer_value(0)));
    dict.push(("playbackBufferFull".to_owned(), integer_value(1)));
    dict.push(("playbackLikelyToKeepUp".to_owned(), integer_value(1)));
    dict.push(
        (
            "loadedTimeRanges".to_owned(),
            range_value(copy_value(&times.position), copy_value(&times.remaining)),
        ),
    );
    dict.push(
        (
            "seekableTimeRanges".to_owned(),
            range_value(copy_value(&times.start), copy_value(&times.duration)),
        ),
    );
    let ghost tree = playback_info_tree(*times, ready);
    proof {
        lemma_playback_info_keys(*times, ready);
        lemma_playback_info_plain(*times, ready);
        assert(entries_view(dict@) =~= tree->Dict_0);
    }
    let value = dict_value(dict);
    match write_xml(&value) {
        Ok(body) => Some(body),
        Err(_) => None,
    }
}

/// A request to play a stream.
pub struct PlayRequest {
    /// The address of the stream.
    pub url: String,
    /// Where to start. Only a floating-point value counts.
    pub start_position: Option<plist::Value>,
}

/// What a play request holds.
pub open spec fn play_url(tree: PlistTree) -> Option<Seq<char>> {
    match tree.entry("Content-Location"@) {
        Some(PlistTree::Text(url)) => Some(url),
        _ => None,
    }
}

/// Reads a play request from its property list. There is none without an address.
pub fn play_request_of(value: &plist::Value) -> (r: Option<PlayRequest>)
    ensures
        match r {
            Some(request) => {
                &&& play_url(plist_tree(*value)) == Some(request.url@)
                &&& match request.start_position {
                    Some(start) => plist_tree(*value).entry("Start-Position"@) == Some(
                        plist_tree(start),
                    ) && plist_tree(start) is Real,
                    None => !(plist_tree(*value).entry("Start-Position"@) matches Some(start)
                        && start is Real),
                }
            },
            None => play_url(plist_tree(*value)) is None,
        },
{
    let url = match dict_entry(value, "Content-Location") {
        Some(entry) => match text_of(entry) {
            Some(url) => url.to_owned(),
            None => {
                return None;
            },
        },
        None => {
            return None;
        },
    };
    let start_position: Option<plist::Value> = match dict_entry(value, "Start-Position") {
        Some(entry) => if is_real(entry) {
            Some(copy_value(entry))
        } else {
            None
        },
        None => None,
    };
    Some(PlayRequest { url, start_position })
}

/// `POST /play`: the request in a body. There is none where the body is no property list or says
/// no address, nor where the list is beyond the limits of what can be read. A body with a date
/// before 1971 is read where the system's clock reaches back to the year zero; of the request in it
/// nothing more is said.
pub fn play_request(body: &[u8]) -> (r: Option<PlayRequest>)
    ensures
        !within_limits(body@, true) ==> r is None,
        within_limits(body@, false) ==> match r {
            Some(request) => plist_parsed(body@) matches Some(tree) && play_url(tree) == Some(
                request.url@,
            ) && match request.start_position {
                Some(start) => tree.entry("Start-Position"@) == Some(plist_tree(start))
                    && plist_tree(start) is Real,
                None => !(tree.entry("Start-Position"@) matches Some(start) && start is Real),
            },
            None => plist_parsed(body@) matches Some(tree) ==> play_url(tree) is None,
        },
{
    let oldest = time_before_epoch(YEAR_ZERO_AGE);
    let old_dates: bool = oldest.is_some();
    proof {
        assert(old_dates == shows_year_zero(oldest));
        if within_limits(body@, false) {
            law_old_dates_widen_the_limits(body@);
        }
    }
    if !fits(body, old_dates) {
        return None;
    }
    match parse_plist(body, &oldest) {
        Ok(value) => play_request_of(&value),
        Err(_) => None,
    }
}

/// The query of a URL: what stands behind the first question mark, up to the next one.
pub open spec fn query(url: Seq<char>) -> Option<Seq<char>> {
    match first_index(url, '?') {
        None => None,
        Some(i) => Some(split(url.skip(i + 1), '?')[0]),
    }
}

/// The value of a parameter `key=value`.
pub open spec fn parameter_value(parameter: Seq<char>, key: Seq<char>) -> Option<Seq<char>> {
    match first_index(parameter, '=') {
        Some(i) => if parameter.take(i) == key {
            Some(parameter.skip(i + 1))
        } else {
            None
        },
        None => None,
    }
}

/// The value of the first parameter with a key, in the query of a URL.
pub open spec fn query_value_of(url: Seq<char>, key: Seq<char>) -> Option<Seq<char>> {
    match query(url) {
        None => None,
        Some(q) => first_value(split(q, '&'), |p: Seq<char>| parameter_value(p, key)),
    }
}

/// The value of a parameter in the query of a URL, as the `/scrub` and `/rate` requests have it.
pub fn query_value(url: &str, key: &str) -> (r: Option<String>)
    ensures
        text_view(r) == query_value_of(url@, key@),
{
    let text = chars_of(url);
    let chars: &[char] = text.as_slice();
    let len: usize = chars.len();
    proof {
        lemma_first_index(chars@, '?');
    }
    let rest: &[char] = match find_char(chars, '?') {
        Some(i) => {
            let rest: &[char] = &chars[i + 1..len];
            assert(rest@ =~= chars@.skip(i + 1));
            rest
        },
        None => {
            return None;
        },
    };
    let pieces = split_chars(rest, '?');
    assert(slices_view(pieces@) == split(rest@, '?'));
    assert(split(rest@, '?').len() > 0);
    assert(slices_view(pieces@)[0] == pieces@[0]@);
    let list = split_chars(pieces[0], '&');
    let ghost all = slices_view(list@);
    let ghost read = |p: Seq<char>| parameter_value(p, key@);
    let mut i: usize = 0;
    while i < list.len()
        invariant
            i <= list@.len(),
            all == slices_view(list@),
            read == (|p: Seq<char>| parameter_value(p, key@)),
            query_value_of(url@, key@) == first_value(all, read),
            first_value(all.take(i as int), read) is None,
        decreases list@.len() - i,
    {
        let parameter: &[char] = list[i];
        let n: usize = parameter.len();
        proof {
            lemma_first_index(parameter@, '=');
            assert(all.take(i + 1).drop_last() =~= all.take(i as int));
            assert(all.take(i + 1).last() == parameter@);
        }
        if let Some(k) = find_char(parameter, '=') {
            let name: &[char] = &parameter[0..k];
            let value: &[char] = &parameter[k + 1..n];
            assert(name@ =~= parameter@.take(k as int));
            assert(value@ =~= parameter@.skip(k + 1));
            if is_text(name, key) {
                proof {
                    assert(read(parameter@) == Some(value@));
                    law_first_value_stays(
                        all.take(i + 1),
                        all.skip(i + 1),
                        read,
                    );
                    assert(all.take(i + 1) + all.skip(i + 1) =~= all);
                }
                return Some(string_of(value));
            }
        }
        i = i + 1;
    }
    assert(all.take(i as int) =~= all);
    None
}

/// The server says eight things of itself: its features, its hardware address twice, in bytes with
/// colons between, and its model and versions as they are given.
pub proof fn law_server_info_entries(hwaddr: Seq<u8>, model: Seq<char>, srcvers: Seq<char>)
    ensures
        ({
            let tree = server_info_tree(hwaddr, model, srcvers);
            &&& tree.entry("features"@) == Some(PlistTree::Integer(639))
            &&& tree.entry("macAddress"@) == Some(PlistTree::Text(colon_hex(hwaddr)))
            &&& tree.entry("deviceid"@) == Some(PlistTree::Text(colon_hex(hwaddr)))
            &&& tree.entry("model"@) == Some(PlistTree::Text(model))
            &&& tree.entry("osBuildVersion"@) == Some(PlistTree::Text("12B435"@))
            &&& tree.entry("protovers"@) == Some(PlistTree::Text("1.0"@))
            &&& tree.entry("srcvers"@) == Some(PlistTree::Text(srcvers))
            &&& tree.entry("vv"@) == Some(PlistTree::Integer(2))
            &&& tree->Dict_0.map_values(|e: (Seq<char>, PlistTree)| e.0) =~= seq![
                "features"@,
                "macAddress"@,
                "model"@,
                "osBuildVersion"@,
                "protovers"@,
                "srcvers"@,
                "vv"@,
                "deviceid"@,
            ]
        }),
{
    let tree = server_info_tree(hwaddr, model, srcvers);
    let list = tree->Dict_0;
    lemma_server_info_keys(hwaddr, model, srcvers);
    law_dictionary_entries(list, 0, "vv"@);
    law_dictionary_entries(list, 1, "vv"@);
    law_dictionary_entries(list, 2, "vv"@);
    law_dictionary_entries(list, 3, "vv"@);
    law_dictionary_entries(list, 4, "vv"@);
    law_dictionary_entries(list, 5, "vv"@);
    law_dictionary_entries(list, 6, "vv"@);
    law_dictionary_entries(list, 7, "vv"@);
}

/// The state of a playback has nine entries: its times as they are, that it is ready or not, that
/// its buffer is full, and two lists of one range each. What is loaded starts at the position and
/// lasts as long as there is left; what can be sought in starts at the start and lasts as long as
/// the whole.
pub proof fn law_playback_info_entries(times: PlaybackTimes, ready: bool)
    ensures
        ({
            let tree = playback_info_tree(times, ready);
            &&& tree.entry("duration"@) == Some(plist_tree(times.duration))
            &&& tree.entry("position"@) == Some(plist_tree(times.position))
            &&& tree.entry("rate"@) == Some(plist_tree(times.rate))
            &&& ready ==> tree.entry("readyToPlay"@) == Some(PlistTree::Integer(1))
            &&& !ready ==> tree.entry("readyToPlay"@) == Some(PlistTree::Integer(0))
            &&& tree.entry("playbackBufferEmpty"@) == Some(PlistTree::Integer(0))
            &&& tree.entry("playbackBufferFull"@) == Some(PlistTree::Integer(1))
            &&& tree.entry("playbackLikelyToKeepUp"@) == Some(PlistTree::Integer(1))
            &&& tree.entry("loadedTimeRanges"@) == Some(
                range_tree(plist_tree(times.position), plist_tree(times.remaining)),
            )
            &&& tree.entry("seekableTimeRanges"@) == Some(
                range_tree(plist_tree(times.start), plist_tree(times.duration)),
            )
            &&& tree->Dict_0.map_values(|e: (Seq<char>, PlistTree)| e.0) =~= seq![
                "duration"@,
                "position"@,
                "rate"@,
                "readyToPlay"@,
                "playbackBufferEmpty"@,
                "playbackBufferFull"@,
                "playbackLikelyToKeepUp"@,
                "loadedTimeRanges"@,
                "seekableTimeRanges"@,
            ]
        }),
{
    let list = playback_info_tree(times, ready)->Dict_0;
    lemma_playback_info_keys(times, ready);
    law_dictionary_entries(list, 0, "rate"@);
    law_dictionary_entries(list, 1, "rate"@);
    law_dictionary_entries(list, 2, "rate"@);
    law_dictionary_entries(list, 3, "rate"@);
    law_dictionary_entries(list, 4, "rate"@);
    law_dictionary_entries(list, 5, "rate"@);
    law_dictionary_entries(list, 6, "rate"@);
    law_dictionary_entries(list, 7, "rate"@);
    law_dictionary_entries(list, 8, "rate"@);
}

/// A list of one time range has one dictionary, with where the range starts and how long it lasts.
pub proof fn law_range_entries(start: PlistTree, duration: PlistTree)
    ensures
        range_tree(start, duration) is Array,
        range_tree(start, duration)->Array_0.len() == 1,
        range_tree(start, duration)->Array_0[0].entry("start"@) == Some(start),
        range_tree(start, duration)->Array_0[0].entry("duration"@) == Some(duration),
{
    reveal_strlit("start");
    reveal_strlit("duration");
    assert("start"@.len() != "duration"@.len());
    let list = range_tree(start, duration)->Array_0[0]->Dict_0;
    law_dictionary_entries(list, 0, "start"@);
    law_dictionary_entries(list, 1, "start"@);
}

/// The times count where all five are floating-point values.
pub proof fn law_all_real(times: PlaybackTimes)
    ensures
        times.all_real() <==> plist_tree(times.duration) is Real && plist_tree(
            times.position,
        ) is Real && plist_tree(times.rate) is Real && plist_tree(times.remaining) is Real
            && plist_tree(times.start) is Real,
{
}

/// The address of a stream is the text under `Content-Location`, the whole of it, and nothing else.
pub proof fn law_play_url(tree: PlistTree, url: Seq<char>)
    ensures
        tree.entry("Content-Location"@) == Some(PlistTree::Text(url)) ==> play_url(tree) == Some(
            url,
        ),
        tree.entry("Content-Location"@) is None ==> play_url(tree) is None,
        play_url(tree) matches Some(found) ==> tree.entry("Content-Location"@) == Some(
            PlistTree::Text(found),
        ),
{
}

/// The query stands behind the first question mark of a URL and ends at the next one or with the
/// URL. A URL without a question mark has none.
pub proof fn law_query(base: Seq<char>, text: Seq<char>, more: Seq<char>)
    requires
        !base.contains('?'),
        !text.contains('?'),
    ensures
        query(base) is None,
        query(base.push('?') + text) == Some(text),
        query(base.push('?') + (text.push('?') + more)) == Some(text),
{
    law_first_index(base, '?', text);
    law_first_index(base, '?', text.push('?') + more);
    law_split(text, '?', more);
    let n = base.len() as int;
    assert((base.push('?') + text).skip(n + 1) =~= text);
    assert((base.push('?') + (text.push('?') + more)).skip(n + 1) =~= text.push('?') + more);
    assert((seq![text] + split(more, '?'))[0] == text);
}

/// The value of a parameter is all that stands behind its first equals sign, for its own key only.
/// A parameter without an equals sign has none.
pub proof fn law_parameter(name: Seq<char>, value: Seq<char>, key: Seq<char>)
    requires
        !name.contains('='),
    ensures
        parameter_value(name.push('=') + value, name) == Some(value),
        key != name ==> parameter_value(name.push('=') + value, key) is None,
        parameter_value(name, key) is None,
{
    law_first_index(name, '=', value);
    let n = name.len() as int;
    assert((name.push('=') + value).take(n) =~= name);
    assert((name.push('=') + value).skip(n + 1) =~= value);
}

/// A URL's first parameter counts where it has the key, and else the rest of the query does.
pub proof fn law_first_parameter_counts(
    base: Seq<char>,
    parameter: Seq<char>,
    rest: Seq<char>,
    key: Seq<char>,
)
    requires
        !base.contains('?'),
        !parameter.contains('?'),
        !parameter.contains('&'),
        !rest.contains('?'),
    ensures
        query_value_of(base, key) is None,
        query_value_of(base.push('?') + parameter, key) == parameter_value(parameter, key),
        query_value_of(base.push('?') + (parameter.push('&') + rest), key) == (if parameter_value(
            parameter,
            key,
        ) is Some {
            parameter_value(parameter, key)
        } else {
            query_value_of(base.push('?') + rest, key)
        }),
{
    let read = |p: Seq<char>| parameter_value(p, key);
    let both = parameter.push('&') + rest;
    assert(!both.contains('?')) by {
        assert forall|i: int| 0 <= i < both.len() implies both[i] != '?' by {
            if i < parameter.len() {
                assert(parameter.contains(parameter[i]));
            } else if i > parameter.len() {
                assert(rest.contains(rest[i - parameter.len() - 1]));
            }
        }
    }
    law_query(base, parameter, Seq::empty());
    law_query(base, both, Seq::empty());
    law_query(base, rest, Seq::empty());
    law_split(parameter, '&', rest);
    law_first_value_of_one(parameter, read);
    law_first_value_stays(seq![parameter], split(rest, '&'), read);
}

/// Property lists are sent as XML of this content type.
pub proof fn law_plist_content_type()
    ensures
        PLIST_CONTENT_TYPE@ == "text/x-apple-plist+xml"@,
{
}

/// The server's description is the property list of its eight entries.
pub proof fn law_server_info_body(
    hwaddr: &[u8],
    model: &str,
    srcvers: &str,
    r: Option<Vec<u8>>,
)
    requires
        call_ensures(server_info, (hwaddr, model, srcvers), r),
    ensures
        r matches Some(body) && body@ == plist_xml(server_info_tree(hwaddr@, model@, srcvers@)),
{
}

/// The state of a playback is told exactly where all its times are floating-point values.
pub proof fn law_playback_info_body(times: &PlaybackTimes, ready: bool, r: Option<Vec<u8>>)
    requires
        call_ensures(playback_info, (times, ready), r),
    ensures
        r is Some <==> plist_tree(times.duration) is Real && plist_tree(times.position) is Real
            && plist_tree(times.rate) is Real && plist_tree(times.remaining) is Real && plist_tree(
            times.start,
        ) is Real,
        r matches Some(body) ==> body@ == plist_xml(playback_info_tree(*times, ready)),
{
    law_all_real(*times);
}

/// A play request has the whole text under `Content-Location` as its address and, where there is a
/// floating-point value under `Start-Position`, that value as its start. Without an address there
/// is no request.
pub proof fn law_play_requests(value: &plist::Value, url: Seq<char>, r: Option<PlayRequest>)
    requires
        call_ensures(play_request_of, (value,), r),
    ensures
        plist_tree(*value).entry("Content-Location"@) == Some(PlistTree::Text(url)) ==> (
        r matches Some(request) && request.url@ == url),
        plist_tree(*value).entry("Content-Location"@) is None ==> r is None,
        r matches Some(request) ==> (request.start_position is Some <==> (plist_tree(
            *value,
        ).entry("Start-Position"@) matches Some(start) && start is Real)),
        r matches Some(request) ==> (request.start_position matches Some(start) ==> plist_tree(
            *value,
        ).entry("Start-Position"@) == Some(plist_tree(start))),
{
    law_play_url(plist_tree(*value), url);
}

/// A parameter's value comes out of a URL whole, whatever signs but a question mark and an
/// ampersand it holds, where no parameter in front of it has its key.
pub proof fn law_query_values(
    url: &str,
    key: &str,
    base: Seq<char>,
    value: Seq<char>,
    rest: Seq<char>,
    r: Option<String>,
)
    requires
        call_ensures(query_value, (url, key), r),
        !base.contains('?'),
        !key@.contains('?') && !key@.contains('&') && !key@.contains('='),
        !value.contains('?') && !value.contains('&'),
        !rest.contains('?'),
    ensures
        url@ == base ==> r is None,
        url@ == base.push('?') + (key@.push('=') + value) ==> (r matches Some(text) && text@
            == value),
        url@ == base.push('?') + ((key@.push('=') + value).push('&') + rest) ==> (
        r matches Some(text) && text@ == value),
{
    let parameter = key@.push('=') + value;
    assert forall|i: int| 0 <= i < parameter.len() implies parameter[i] != '?' && parameter[i]
        != '&' by {
        if i < key@.len() {
            assert(key@.contains(key@[i]));
        } else if i > key@.len() {
            assert(value.contains(value[i - key@.len() - 1]));
        }
    }
    law_parameter(key@, value, key@);
    law_first_parameter_counts(base, parameter, rest, key@);
    law_text_views(r, None);
}

} // verus!
