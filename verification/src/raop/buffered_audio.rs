//! Buffered audio: packets arrive early, are kept by their RTP timestamp, and are played out when
//! their time has come.
use crate::crypto::aead::max_sealed_len;
use crate::raop::aac_payload::{
    candidates, choice, count_nonzero, count_trials, law_nonzero_count, nonzero_count, prefix_hex,
    probe_aac_candidates, probed, selected, settle_aac_payload, top_peak, DecodeTrial,
};
use crate::raop::audio_pipeline::{
    alac_info, alac_info_block, decrypt_rtp_chacha, law_alac_info_layout, output_target,
    rtp_plaintext, target_channels, target_rate, AudioCodec, AudioFormat, CHACHA_TAG_LEN,
    NONCE_TRAIL_LEN, RTP_HEADER_LEN,
};
use crate::text::hex;
use crate::wire::{
    be_bytes, be_nat, lemma_be_bytes_len, lemma_be_nat_of_bytes, lemma_byte_range_step,
    read_be_u16, read_be_u32,
};
use std::collections::BTreeMap;
use vstd::laws_cmp::obeys_cmp;
use vstd::prelude::*;
use vstd::std_specs::btree::{increasing_seq, spec_btree_map_iter};
use vstd::std_specs::cmp::OrdSpec;
use vstd::std_specs::iter::IteratorSpec;

verus! {

broadcast use vstd::laws_cmp::group_laws_cmp;

/// What samples are turned into before they are delivered.
#[derive(Clone, Copy, Debug)]
pub struct OutputConfig {
    /// The sample rate to deliver, the source's own where there is none.
    pub sample_rate: Option<u32>,
    /// The greatest number of channels to deliver.
    pub max_channels: Option<u8>,
}

/// What the control connection asks of the playout.
#[derive(Debug)]
pub enum PlayoutCommand {
    /// Sets the rate and the anchor. Rate zero is pause.
    SetRate {
        /// The RTP timestamp of the anchor.
        anchor_rtp: u32,
        /// The network time of the anchor, in nanoseconds.
        anchor_time_ns: u64,
        /// One to play, zero to pause.
        rate: u32,
    },
    /// Drops buffered frames between two timestamps, both of them included.
    Flush {
        /// The first timestamp to drop.
        from_seq: u32,
        /// The last timestamp to drop.
        until_seq: u32,
    },
    /// Ends the playout.
    Stop,
}

/// The frames that wait and the clock that they wait for.
pub struct PlayoutState<F> {
    /// The frames by their RTP timestamps.
    pub buffer: BTreeMap<u32, F>,
    /// The timestamp that is due at `anchor_local_ns`.
    pub anchor_rtp: u32,
    /// The local time of the anchor, in nanoseconds.
    pub anchor_local_ns: u64,
    /// Zero while paused.
    pub rate: u32,
    /// Frames in a second.
    pub sample_rate: u32,
    /// Channels of the frames.
    pub channels: u8,
    /// The playout has ended.
    pub stopped: bool,
    /// The format changed since the last session was made.
    pub format_changed: bool,
    /// The session is to be flushed.
    pub flush_pending: bool,
}

/// `a - b` on timestamps, which wrap.
pub open spec fn timestamp_diff(a: u32, b: u32) -> int {
    (a - b) % 0x1_0000_0000
}

/// `ts` lies before `anchor`, less than half the range of timestamps away.
pub open spec fn is_stale(anchor: u32, ts: u32) -> bool {
    0 < timestamp_diff(anchor, ts) < 0x8000_0000
}

/// `ts` is at `target` or before it, less than half the range of timestamps away.
pub open spec fn is_due(target: u32, ts: u32) -> bool {
    timestamp_diff(target, ts) < 0x8000_0000
}

/// `first` is the smallest timestamp of the frames.
pub open spec fn is_first<F>(frames: Map<u32, F>, first: u32) -> bool {
    frames.contains_key(first) && forall|ts: u32| frames.contains_key(ts) ==> first <= ts
}

/// The anchor that playing starts from: a tenth of a second before the first frame, or the one
/// that was asked for where no frame waits.
pub open spec fn start_anchor<F>(frames: Map<u32, F>, sample_rate: u32, asked: u32) -> u32 {
    if frames.is_empty() {
        asked
    } else {
        timestamp_diff(choose|first: u32| is_first(frames, first), sample_rate / 10) as u32
    }
}

/// The frames without those of a kind.
pub open spec fn without<F>(frames: Map<u32, F>, dropped: spec_fn(u32) -> bool) -> Map<u32, F> {
    frames.remove_keys(Set::new(|ts: u32| dropped(ts)))
}

impl<F> PlayoutState<F> {
    /// `self` and `other` agree but for the frames, the anchor and the rate.
    pub open spec fn same_session(self, other: Self) -> bool {
        &&& self.sample_rate == other.sample_rate
        &&& self.channels == other.channels
        &&& self.format_changed == other.format_changed
    }

    /// A paused playout without frames.
    pub fn new(config: &OutputConfig) -> (r: Self)
        ensures
            r.buffer@ == Map::<u32, F>::empty(),
            r.anchor_rtp == 0,
            r.anchor_local_ns == 0,
            r.rate == 0,
            r.sample_rate == target_rate(44100, config.sample_rate),
            r.channels == 2,
            !r.stopped,
            !r.format_changed,
            !r.flush_pending,
    {
        let sample_rate: u32 = match config.sample_rate {
            Some(rate) => rate,
            None => 44100,
        };
        PlayoutState {
            buffer: BTreeMap::new(),
            anchor_rtp: 0,
            anchor_local_ns: 0,
            rate: 0,
            sample_rate,
            channels: 2,
            stopped: false,
            format_changed: false,
            flush_pending: false,
        }
    }
}

/// Timestamps in increasing order.
pub open spec fn increasing(s: Seq<u32>) -> bool {
    forall|i: int, j: int| 0 <= i < j < s.len() ==> s[i] < s[j]
}

/// The timestamps of the frames, in increasing order.
fn timestamps<F>(buffer: &BTreeMap<u32, F>) -> (r: Vec<u32>)
    ensures
        increasing(r@),
        forall|ts: u32|
            #![trigger r@.contains(ts)]
            #![trigger buffer@.contains_key(ts)]
            r@.contains(ts) <==> buffer@.contains_key(ts),
{
    let mut r: Vec<u32> = Vec::new();
    let ghost pairs = spec_btree_map_iter(buffer).remaining();
    let ghost keys = pairs.map_values(|kv: (&u32, &F)| *kv.0);
    for kv in it: buffer.iter()
        invariant
            it.seq() == pairs,
            keys == pairs.map_values(|kv: (&u32, &F)| *kv.0),
            increasing_seq(keys),
            r@ == keys.take(it.index()),
    {
        r.push(*kv.0);
    }
    proof {
        assert(r@ =~= keys);
        assert(obeys_cmp::<u32>());
        assert forall|i: int, j: int| 0 <= i < j < keys.len() implies keys[i] < keys[j] by {
            assert(keys[i].cmp_spec(&keys[j]) is Less);
        }
        assert forall|ts: u32| r@.contains(ts) <==> buffer@.contains_key(ts) by {
            if buffer@.contains_key(ts) {
                assert(pairs.contains((&ts, &buffer@[ts])));
                let i = choose|i: int| 0 <= i < pairs.len() && pairs[i] == (&ts, &buffer@[ts]);
                assert(keys[i] == ts);
            }
            if r@.contains(ts) {
                let i = choose|i: int| 0 <= i < keys.len() && keys[i] == ts;
                assert(buffer@.contains_key(*pairs[i].0));
            }
        }
    }
    r
}

/// Drops the frames with these timestamps.
fn remove_all<F>(buffer: &mut BTreeMap<u32, F>, keys: &Vec<u32>)
    ensures
        final(buffer)@ == without(old(buffer)@, |ts: u32| keys@.contains(ts)),
{
    let ghost before = buffer@;
    let mut i: usize = 0;
    assert(buffer@ =~= without(before, |ts: u32| keys@.take(0).contains(ts)));
    while i < keys.len()
        invariant
            i <= keys@.len(),
            buffer@ == without(before, |ts: u32| keys@.take(i as int).contains(ts)),
        decreases keys@.len() - i,
    {
        buffer.remove(&keys[i]);
        proof {
            let now = keys@.take(i + 1);
            assert(now.drop_last() =~= keys@.take(i as int));
            assert forall|ts: u32| now.contains(ts) <==> keys@.take(i as int).contains(ts) || ts
                == keys@[i as int] by {
                if keys@.take(i as int).contains(ts) {
                    let k = choose|k: int| 0 <= k < i && keys@.take(i as int)[k] == ts;
                    assert(now[k] == ts);
                }
                assert(now[i as int] == keys@[i as int]);
            }
            assert(buffer@ =~= without(before, |ts: u32| keys@.take(i + 1).contains(ts)));
        }
        i = i + 1;
    }
    assert(keys@.take(i as int) =~= keys@);
}

/// The smallest timestamp of the frames.
fn first_timestamp<F>(buffer: &BTreeMap<u32, F>) -> (r: Option<u32>)
    ensures
        match r {
            Some(first) => is_first(buffer@, first),
            None => buffer@.is_empty(),
        },
{
    let keys = timestamps(buffer);
    if keys.len() == 0 {
        assert forall|ts: u32| !buffer@.contains_key(ts) by {
            assert(!keys@.contains(ts));
        }
        assert(buffer@.dom() =~= Set::empty());
        None
    } else {
        assert(keys@.contains(keys@[0]));
        assert forall|ts: u32| buffer@.contains_key(ts) implies keys@[0] <= ts by {
            assert(keys@.contains(ts));
            let k = choose|k: int| 0 <= k < keys@.len() && keys@[k] == ts;
            assert(keys@[k] == ts);
        }
        Some(keys[0])
    }
}

/// No two timestamps are both the smallest.
proof fn lemma_first_unique<F>(frames: Map<u32, F>, a: u32, b: u32)
    requires
        is_first(frames, a),
        is_first(frames, b),
    ensures
        a == b,
{
}

/// The timestamps of stale frames.
fn stale_timestamps<F>(buffer: &BTreeMap<u32, F>, anchor: u32) -> (r: Vec<u32>)
    ensures
        forall|ts: u32|
            #![trigger r@.contains(ts)]
            r@.contains(ts) <==> buffer@.contains_key(ts) && is_stale(anchor, ts),
{
    let keys = timestamps(buffer);
    let mut r: Vec<u32> = Vec::new();
    let mut i: usize = 0;
    while i < keys.len()
        invariant
            i <= keys@.len(),
            forall|ts: u32|
                #![trigger r@.contains(ts)]
                #![trigger keys@.take(i as int).contains(ts)]
                r@.contains(ts) <==> keys@.take(i as int).contains(ts) && is_stale(anchor, ts),
        decreases keys@.len() - i,
    {
        let ts: u32 = keys[i];
        let diff: u32 = anchor.wrapping_sub(ts);
        let ghost before = r@;
        if diff > 0 && diff < 0x8000_0000 {
            r.push(ts);
        }
        proof {
            lemma_extended(keys@, i as int);
            lemma_pushed(before, ts);
        }
        i = i + 1;
    }
    assert(keys@.take(i as int) =~= keys@);
    r
}

/// The timestamps of frames in a range.
fn timestamps_between<F>(buffer: &BTreeMap<u32, F>, from: u32, until: u32) -> (r: Vec<u32>)
    ensures
        forall|ts: u32|
            #![trigger r@.contains(ts)]
            r@.contains(ts) <==> buffer@.contains_key(ts) && from <= ts <= until,
{
    let keys = timestamps(buffer);
    let mut r: Vec<u32> = Vec::new();
    let mut i: usize = 0;
    while i < keys.len()
        invariant
            i <= keys@.len(),
            forall|ts: u32|
                #![trigger r@.contains(ts)]
                #![trigger keys@.take(i as int).contains(ts)]
                r@.contains(ts) <==> keys@.take(i as int).contains(ts) && from <= ts <= until,
        decreases keys@.len() - i,
    {
        let ts: u32 = keys[i];
        let ghost before = r@;
        if ts >= from && ts <= until {
            r.push(ts);
        }
        proof {
            lemma_extended(keys@, i as int);
            lemma_pushed(before, ts);
        }
        i = i + 1;
    }
    assert(keys@.take(i as int) =~= keys@);
    r
}

/// One more element of a prefix.
proof fn lemma_extended(s: Seq<u32>, i: int)
    requires
        0 <= i < s.len(),
    ensures
        forall|x: u32| #[trigger]
            s.take(i + 1).contains(x) <==> s.take(i).contains(x) || x == s[i],
{
    assert(s.take(i + 1) =~= s.take(i).push(s[i]));
    lemma_pushed(s.take(i), s[i]);
}

proof fn lemma_pushed(s: Seq<u32>, a: u32)
    ensures
        forall|x: u32| #[trigger] s.push(a).contains(x) <==> s.contains(x) || x == a,
{
    assert forall|x: u32| #[trigger] s.push(a).contains(x) <==> s.contains(x) || x == a by {
        if s.contains(x) {
            let k = choose|k: int| 0 <= k < s.len() && s[k] == x;
            assert(s.push(a)[k] == x);
        }
        assert(s.push(a)[s.len() as int] == a);
    }
}

/// Carries a command out. The result says whether the playout goes on.
pub fn apply_playout_command<F>(
    s: &mut PlayoutState<F>,
    cmd: PlayoutCommand,
    now_ns_fn: impl FnOnce() -> u64,
) -> (r: bool)
    requires
        call_requires(now_ns_fn, ()),
    ensures
        final(s).same_session(*old(s)),
        r == !(cmd is Stop),
        match cmd {
            PlayoutCommand::SetRate { anchor_rtp, anchor_time_ns, rate } => {
                let anchor = start_anchor(old(s).buffer@, old(s).sample_rate, anchor_rtp);
                &&& final(s).rate == rate
                &&& final(s).stopped == old(s).stopped
                &&& final(s).flush_pending == old(s).flush_pending
                &&& rate == 0 ==> {
                    &&& final(s).anchor_rtp == anchor_rtp
                    &&& final(s).anchor_local_ns == old(s).anchor_local_ns
                    &&& final(s).buffer == old(s).buffer
                }
                &&& rate != 0 ==> {
                    &&& final(s).anchor_rtp == anchor
                    &&& call_ensures(now_ns_fn, (), final(s).anchor_local_ns)
                    &&& final(s).buffer@ == without(
                        old(s).buffer@,
                        |ts: u32| is_stale(anchor, ts),
                    )
                }
            },
            PlayoutCommand::Flush { from_seq, until_seq } => {
                &&& final(s).rate == old(s).rate
                &&& final(s).anchor_rtp == old(s).anchor_rtp
                &&& final(s).anchor_local_ns == old(s).anchor_local_ns
                &&& final(s).stopped == old(s).stopped
                &&& final(s).flush_pending
                &&& final(s).buffer@ == without(
                    old(s).buffer@,
                    |ts: u32| from_seq <= ts <= until_seq,
                )
            },
            PlayoutCommand::Stop => {
                &&& final(s).rate == old(s).rate
                &&& final(s).anchor_rtp == old(s).anchor_rtp
                &&& final(s).anchor_local_ns == old(s).anchor_local_ns
                &&& final(s).flush_pending == old(s).flush_pending
                &&& final(s).stopped
                &&& final(s).buffer@ == Map::<u32, F>::empty()
            },
        },
{
    match cmd {
        PlayoutCommand::SetRate { anchor_rtp, anchor_time_ns: _, rate } => {
            s.anchor_rtp = anchor_rtp;
            s.rate = rate;
            if rate != 0 {
                if let Some(first) = first_timestamp(&s.buffer) {
                    s.anchor_rtp = first.wrapping_sub(s.sample_rate / 10);
                    proof {
                        let chosen = choose|k: u32| is_first(s.buffer@, k);
                        lemma_first_unique(s.buffer@, first, chosen);
                        assert(s.buffer@.dom().contains(first));
                    }
                }
                s.anchor_local_ns = now_ns_fn();
                let stale = stale_timestamps(&s.buffer, s.anchor_rtp);
                let ghost before = s.buffer@;
                remove_all(&mut s.buffer, &stale);
                assert(s.buffer@ =~= without(before, |ts: u32| is_stale(s.anchor_rtp, ts)));
            }
            true
        },
        PlayoutCommand::Flush { from_seq, until_seq } => {
            let keys = timestamps_between(&s.buffer, from_seq, until_seq);
            let ghost before = s.buffer@;
            remove_all(&mut s.buffer, &keys);
            assert(s.buffer@ =~= without(before, |ts: u32| from_seq <= ts <= until_seq));
            s.flush_pending = true;
            true
        },
        PlayoutCommand::Stop => {
            s.stopped = true;
            s.buffer.clear();
            false
        },
    }
}

/// Starting to play keeps the earliest frame that waits.
pub proof fn law_first_frame_kept<F>(frames: Map<u32, F>, sample_rate: u32, asked: u32, first: u32)
    requires
        is_first(frames, first),
    ensures
        without(
            frames,
            |ts: u32| is_stale(start_anchor(frames, sample_rate, asked), ts),
        ).contains_key(first),
{
    assert(frames.dom().contains(first));
    lemma_first_unique(frames, first, choose|k: u32| is_first(frames, k));
}

/// How many frames of audio `elapsed_ns` nanoseconds are.
pub open spec fn elapsed_frames(elapsed_ns: nat, sample_rate: u32) -> nat {
    elapsed_ns * sample_rate as nat / 1_000_000_000
}

/// The timestamp that is due at `now_ns`.
pub open spec fn play_position(
    anchor_rtp: u32,
    anchor_local_ns: u64,
    sample_rate: u32,
    now_ns: u64,
) -> u32 {
    let elapsed_ns: nat = if now_ns < anchor_local_ns {
        0
    } else {
        (now_ns - anchor_local_ns) as nat
    };
    ((anchor_rtp + elapsed_frames(elapsed_ns, sample_rate)) % 0x1_0000_0000) as u32
}

/// The first frame is due a tenth of a second after playing started, not before: as long as fewer
/// frames than half the range of timestamps have gone by, it is due exactly when the lead has.
pub proof fn law_first_frame_waits_for_lead<F>(
    frames: Map<u32, F>,
    sample_rate: u32,
    asked: u32,
    first: u32,
    started_ns: u64,
    now_ns: u64,
)
    requires
        is_first(frames, first),
        started_ns <= now_ns,
        elapsed_frames((now_ns - started_ns) as nat, sample_rate) < 0x8000_0000,
    ensures
        is_due(
            play_position(
                start_anchor(frames, sample_rate, asked),
                started_ns,
                sample_rate,
                now_ns,
            ),
            first,
        ) <==> elapsed_frames((now_ns - started_ns) as nat, sample_rate) >= sample_rate / 10,
{
    assert(frames.dom().contains(first));
    lemma_first_unique(frames, first, choose|k: u32| is_first(frames, k));
}

/// A frame that is due stays due while time goes on, as long as the play position is less than
/// half the range of timestamps past it.
#[verifier::spinoff_prover]
pub proof fn law_due_stays_due(
    anchor_rtp: u32,
    anchor_local_ns: u64,
    sample_rate: u32,
    now_ns: u64,
    later_ns: u64,
    ts: u32,
)
    requires
        anchor_local_ns <= now_ns <= later_ns,
        is_due(play_position(anchor_rtp, anchor_local_ns, sample_rate, now_ns), ts),
        timestamp_diff(play_position(anchor_rtp, anchor_local_ns, sample_rate, now_ns), ts)
            + elapsed_frames((later_ns - anchor_local_ns) as nat, sample_rate) - elapsed_frames(
            (now_ns - anchor_local_ns) as nat,
            sample_rate,
        ) < 0x8000_0000,
    ensures
        is_due(play_position(anchor_rtp, anchor_local_ns, sample_rate, later_ns), ts),
{
    let n = (now_ns - anchor_local_ns) as nat;
    let m = (later_ns - anchor_local_ns) as nat;
    assert(n * sample_rate as nat <= m * sample_rate as nat) by (nonlinear_arith)
        requires
            n <= m,
    ;
    let a = elapsed_frames(n, sample_rate) as int;
    let b = elapsed_frames(m, sample_rate) as int;
    assert(a <= b);
    let p = (anchor_rtp + a) % 0x1_0000_0000;
    let q = (anchor_rtp + b) % 0x1_0000_0000;
    let k = (anchor_rtp + a) / 0x1_0000_0000;
    let l = (anchor_rtp + b) / 0x1_0000_0000;
    let d = (p - ts) % 0x1_0000_0000;
    let m = (p - ts) / 0x1_0000_0000;
    assert(q - ts == d + (b - a) + 0x1_0000_0000 * (m + k - l));
    assert((q - ts) % 0x1_0000_0000 == (d + (b - a)) % 0x1_0000_0000);
}

fn position<F>(s: &PlayoutState<F>, now_ns: u64) -> (r: u32)
    ensures
        r == play_position(s.anchor_rtp, s.anchor_local_ns, s.sample_rate, now_ns),
{
    let elapsed_ns: u64 = now_ns.saturating_sub(s.anchor_local_ns);
    let rate: u32 = s.sample_rate;
    assert(elapsed_ns * rate <= 0xffff_ffff_ffff_ffff * 0xffff_ffff) by (nonlinear_arith)
        requires
            elapsed_ns <= 0xffff_ffff_ffff_ffff,
            rate <= 0xffff_ffff,
    ;
    let frames: u128 = elapsed_ns as u128 * rate as u128 / 1_000_000_000;
    s.anchor_rtp.wrapping_add((frames % 0x1_0000_0000) as u32)
}

/// Whether the delivery has nothing to do until a command or a packet comes.
pub fn must_wait<F>(s: &PlayoutState<F>) -> (r: bool)
    ensures
        r == (!s.stopped && !s.flush_pending && (s.rate == 0 || s.buffer@.is_empty())),
{
    !s.stopped && !s.flush_pending && (s.rate == 0 || s.buffer.is_empty())
}

/// What the delivery hands to the session.
pub struct Delivery<F> {
    /// The format of a session to be made first.
    pub format: Option<AudioFormat>,
    /// The session is to be flushed before the frames.
    pub flush: bool,
    /// The frames that are due, in the order of their timestamps.
    pub frames: Vec<(u32, F)>,
}

/// `list` holds the frames of a kind, in the order of their timestamps.
pub open spec fn lists_frames<F>(
    list: Seq<(u32, F)>,
    frames: Map<u32, F>,
    kind: spec_fn(u32) -> bool,
) -> bool {
    &&& forall|i: int, j: int| 0 <= i < j < list.len() ==> list[i].0 < list[j].0
    &&& forall|i: int|
        0 <= i < list.len() ==> frames.contains_key((#[trigger] list[i]).0) && kind(list[i].0)
            && frames[list[i].0] == list[i].1
    &&& forall|ts: u32|
        #![trigger frames.contains_key(ts)]
        frames.contains_key(ts) && kind(ts) ==> exists|i: int|
            0 <= i < list.len() && (#[trigger] list[i]).0 == ts
}

/// Takes the frames that are due at `target` out of the buffer.
fn take_due<F>(buffer: &mut BTreeMap<u32, F>, target: u32) -> (r: Vec<(u32, F)>)
    ensures
        final(buffer)@ == without(old(buffer)@, |ts: u32| is_due(target, ts)),
        lists_frames(r@, old(buffer)@, |ts: u32| is_due(target, ts)),
{
    let ghost before = buffer@;
    let keys = timestamps(buffer);
    let mut r: Vec<(u32, F)> = Vec::new();
    let mut i: usize = 0;
    assert(buffer@ =~= without(before, |ts: u32| keys@.take(0).contains(ts) && is_due(target, ts)));
    while i < keys.len()
        invariant
            i <= keys@.len(),
            increasing(keys@),
            forall|ts: u32| keys@.contains(ts) <==> before.contains_key(ts),
            buffer@ == without(
                before,
                |ts: u32| keys@.take(i as int).contains(ts) && is_due(target, ts),
            ),
            forall|k: int|
                0 <= k < r@.len() ==> keys@.take(i as int).contains((#[trigger] r@[k]).0),
            forall|k: int, j: int| 0 <= k < j < r@.len() ==> r@[k].0 < r@[j].0,
            forall|k: int|
                0 <= k < r@.len() ==> before.contains_key((#[trigger] r@[k]).0) && is_due(
                    target,
                    r@[k].0,
                ) && before[r@[k].0] == r@[k].1,
            forall|ts: u32|
                #![trigger keys@.take(i as int).contains(ts)]
                keys@.take(i as int).contains(ts) && is_due(target, ts) ==> exists|k: int|
                    0 <= k < r@.len() && (#[trigger] r@[k]).0 == ts,
        decreases keys@.len() - i,
    {
        let ts: u32 = keys[i];
        let ghost listed = r@;
        assert(keys@.contains(keys@[i as int]));
        proof {
            lemma_extended(keys@, i as int);
            assert forall|k: int| 0 <= k < listed.len() implies (#[trigger] listed[k]).0 < ts by {
                let m = choose|m: int|
                    0 <= m < i && keys@.take(i as int)[m] == listed[k].0;
                assert(keys@[m] < keys@[i as int]);
            }
            assert(!keys@.take(i as int).contains(ts)) by {
                if keys@.take(i as int).contains(ts) {
                    let m = choose|m: int| 0 <= m < i && keys@.take(i as int)[m] == ts;
                    assert(keys@[m] < keys@[i as int]);
                }
            }
        }
        if target.wrapping_sub(ts) < 0x8000_0000 {
            if let Some(frame) = buffer.remove(&ts) {
                r.push((ts, frame));
            }
            assert(r@ =~= listed.push((ts, before[ts])));
        }
        proof {
            assert(buffer@ =~= without(
                before,
                |t: u32| keys@.take(i + 1).contains(t) && is_due(target, t),
            ));
            assert forall|t: u32|
                #![trigger keys@.take(i + 1).contains(t)]
                keys@.take(i + 1).contains(t) && is_due(target, t) implies exists|k: int|
                    0 <= k < r@.len() && (#[trigger] r@[k]).0 == t by {
                if t == ts {
                    assert(r@[listed.len() as int].0 == ts);
                } else {
                    let k = choose|k: int| 0 <= k < listed.len() && (#[trigger] listed[k]).0 == t;
                    assert(r@[k].0 == t);
                }
            }
        }
        i = i + 1;
    }
    assert(keys@.take(i as int) =~= keys@);
    assert(buffer@ =~= without(before, |ts: u32| is_due(target, ts)));
    r
}

/// One round of the delivery: says which session to make, whether to flush it, and takes the
/// frames that are due out of the buffer. While paused no frame is due. Nothing comes back when
/// the playout has ended.
pub fn delivery_step<F>(s: &mut PlayoutState<F>, has_session: bool, now_ns: u64) -> (r: Option<
    Delivery<F>,
>)
    ensures
        old(s).stopped ==> r is None && *final(s) == *old(s),
        !old(s).stopped ==> {
            let due = |ts: u32|
                old(s).rate != 0 && is_due(
                    play_position(
                        old(s).anchor_rtp,
                        old(s).anchor_local_ns,
                        old(s).sample_rate,
                        now_ns,
                    ),
                    ts,
                );
            &&& r matches Some(d) && d.format == (if !has_session || old(s).format_changed {
                Some(
                    AudioFormat {
                        codec: AudioCodec::Pcm,
                        bits: 32,
                        channels: old(s).channels,
                        sample_rate: old(s).sample_rate,
                    },
                )
            } else {
                None
            }) && d.flush == old(s).flush_pending && lists_frames(
                d.frames@,
                old(s).buffer@,
                due,
            ) && (old(s).rate == 0 ==> d.frames@.len() == 0)
            &&& final(s).buffer@ == without(old(s).buffer@, due)
            &&& old(s).rate == 0 ==> final(s).buffer@ == old(s).buffer@
            &&& !final(s).format_changed
            &&& !final(s).flush_pending
            &&& !final(s).stopped
            &&& final(s).anchor_rtp == old(s).anchor_rtp
            &&& final(s).anchor_local_ns == old(s).anchor_local_ns
            &&& final(s).rate == old(s).rate
            &&& final(s).sample_rate == old(s).sample_rate
            &&& final(s).channels == old(s).channels
        },
{
    if s.stopped {
        return None;
    }
    let format: Option<AudioFormat> = if !has_session || s.format_changed {
        s.format_changed = false;
        Some(
            AudioFormat {
                codec: AudioCodec::Pcm,
                bits: 32,
                channels: s.channels,
                sample_rate: s.sample_rate,
            },
        )
    } else {
        None
    };
    let flush: bool = s.flush_pending;
    s.flush_pending = false;
    let ghost held = s.buffer@;
    let frames: Vec<(u32, F)> = if s.rate == 0 {
        assert(without(held, |ts: u32| false) =~= held);
        Vec::new()
    } else {
        let target: u32 = position(s, now_ns);
        take_due(&mut s.buffer, target)
    };
    Some(Delivery { format, flush, frames })
}

/// Every frame of the buffer is either delivered or stays: the frames that come out are those that
/// are missing afterwards, no frame is in both, and none that is due stays.
pub proof fn law_delivery_loses_nothing<F>(
    list: Seq<(u32, F)>,
    frames: Map<u32, F>,
    due: spec_fn(u32) -> bool,
    ts: u32,
)
    requires
        lists_frames(list, frames, due),
        frames.contains_key(ts),
    ensures
        (exists|i: int| 0 <= i < list.len() && (#[trigger] list[i]) == (ts, frames[ts]))
            <==> !without(frames, due).contains_key(ts),
        without(frames, due).contains_key(ts) ==> without(frames, due)[ts] == frames[ts],
        without(frames, due).contains_key(ts) ==> !due(ts),
{
    if due(ts) {
        let i = choose|i: int| 0 <= i < list.len() && (#[trigger] list[i]).0 == ts;
        assert(list[i] == (ts, frames[ts]));
    }
}

/// Keeps a frame until its time comes. One with the same timestamp is replaced.
pub fn enqueue<F>(s: &mut PlayoutState<F>, timestamp: u32, frame: F)
    ensures
        final(s).buffer@ == old(s).buffer@.insert(timestamp, frame),
        final(s).same_session(*old(s)),
        final(s).anchor_rtp == old(s).anchor_rtp,
        final(s).anchor_local_ns == old(s).anchor_local_ns,
        final(s).rate == old(s).rate,
        final(s).stopped == old(s).stopped,
        final(s).flush_pending == old(s).flush_pending,
{
    s.buffer.insert(timestamp, frame);
}

/// Ends the playout when the sender is gone.
pub fn finish<F>(s: &mut PlayoutState<F>)
    ensures
        final(s).buffer@ == Map::<u32, F>::empty(),
        final(s).stopped,
        final(s).same_session(*old(s)),
        final(s).anchor_rtp == old(s).anchor_rtp,
        final(s).anchor_local_ns == old(s).anchor_local_ns,
        final(s).rate == old(s).rate,
        final(s).flush_pending == old(s).flush_pending,
{
    s.stopped = true;
    s.buffer.clear();
}

/// A source format, as the synchronisation source of a packet names it.
#[derive(Clone, Copy, Debug)]
pub struct SourceFormat {
    /// The synchronisation source.
    pub id: u32,
    /// Frames in a second.
    pub sample_rate: u32,
    /// Channels in a frame.
    pub channels: u8,
    /// The coding is ALAC, AAC otherwise.
    pub is_alac: bool,
    /// Bits in a sample, where the source says so.
    pub bit_depth: Option<u8>,
}

/// How a decoder is to be made.
#[derive(Debug)]
pub enum DecoderSetup {
    /// An ALAC decoder.
    Alac {
        /// Bits in a sample.
        bit_depth: u8,
        /// Channels in a frame.
        channels: u8,
        /// The configuration block.
        info: [u8; 48],
    },
    /// An AAC decoder.
    Aac {
        /// Frames in a second.
        sample_rate: u32,
        /// Channels in a frame.
        channels: u8,
    },
}

/// Samples in an ALAC frame at a sample rate.
pub open spec fn alac_frame_len(sample_rate: u32) -> u32 {
    if sample_rate >= 48_000 {
        480
    } else {
        352
    }
}

/// The configuration block of an ALAC decoder for a buffered stream.
pub fn alac_decoder_info(sample_rate: u32, bit_depth: u8, channels: u8) -> (r: [u8; 48])
    ensures
        r@ == alac_info(alac_frame_len(sample_rate), bit_depth, channels, sample_rate),
{
    let samples_per_frame: u32 = if sample_rate >= 48_000 {
        480
    } else {
        352
    };
    alac_info_block(samples_per_frame, bit_depth, channels, sample_rate)
}

/// The bit depth of an ALAC source, 16 where it says none.
pub open spec fn alac_depth(source: SourceFormat) -> u8 {
    match source.bit_depth {
        Some(depth) => depth,
        None => 16,
    }
}

impl DecoderSetup {
    /// Whether this is the decoder for a source.
    pub open spec fn fits(self, source: SourceFormat) -> bool {
        match self {
            DecoderSetup::Alac { bit_depth, channels, info } => {
                &&& source.is_alac
                &&& bit_depth == alac_depth(source)
                &&& channels == source.channels
                &&& info@ == alac_info(
                    alac_frame_len(source.sample_rate),
                    alac_depth(source),
                    source.channels,
                    source.sample_rate,
                )
            },
            DecoderSetup::Aac { sample_rate, channels } => {
                &&& !source.is_alac
                &&& sample_rate == source.sample_rate
                &&& channels == source.channels
            },
        }
    }
}

impl FormatChange {
    /// Whether this is what a source calls for.
    pub open spec fn fits(self, source: SourceFormat, config: OutputConfig) -> bool {
        &&& self.decoder.fits(source)
        &&& self.source_rate == source.sample_rate
        &&& self.source_channels == source.channels
        &&& self.target_rate == target_rate(source.sample_rate, config.sample_rate)
        &&& self.target_channels == target_channels(source.channels, config.max_channels)
    }
}

/// The decoder for a source.
pub fn make_decoder(source: &SourceFormat) -> (r: DecoderSetup)
    ensures
        r.fits(*source),
{
    if source.is_alac {
        let bit_depth: u8 = match source.bit_depth {
            Some(depth) => depth,
            None => 16,
        };
        DecoderSetup::Alac {
            bit_depth,
            channels: source.channels,
            info: alac_decoder_info(source.sample_rate, bit_depth, source.channels),
        }
    } else {
        DecoderSetup::Aac { sample_rate: source.sample_rate, channels: source.channels }
    }
}

/// What a new source format calls for.
#[derive(Debug)]
pub struct FormatChange {
    /// The decoder to make.
    pub decoder: DecoderSetup,
    /// The source's frames in a second.
    pub source_rate: u32,
    /// The source's channels.
    pub source_channels: u8,
    /// The frames in a second to deliver.
    pub target_rate: u32,
    /// The channels to deliver.
    pub target_channels: u8,
}

/// Makes a new format known to the delivery.
pub fn set_format<F>(s: &mut PlayoutState<F>, change: &FormatChange)
    ensures
        final(s).sample_rate == change.target_rate,
        final(s).channels == change.target_channels,
        final(s).format_changed,
        final(s).buffer == old(s).buffer,
        final(s).anchor_rtp == old(s).anchor_rtp,
        final(s).anchor_local_ns == old(s).anchor_local_ns,
        final(s).rate == old(s).rate,
        final(s).stopped == old(s).stopped,
        final(s).flush_pending == old(s).flush_pending,
{
    s.sample_rate = change.target_rate;
    s.channels = change.target_channels;
    s.format_changed = true;
}

/// The bytes of a packet behind its length field, which counts itself. A length below two ends the
/// stream.
pub fn packet_body_len(field: &[u8; 2]) -> (r: Option<usize>)
    ensures
        match r {
            Some(n) => n + 2 == be_nat(field@),
            None => be_nat(field@) < 2,
        },
{
    let total: usize = read_be_u16(field, 0) as usize;
    assert(field@.subrange(0, 2) =~= field@);
    if total < 2 {
        None
    } else {
        Some(total - 2)
    }
}

/// The timestamp of a packet.
pub open spec fn packet_timestamp(packet: Seq<u8>) -> nat {
    be_nat(packet.subrange(4, 8))
}

/// The synchronisation source of a packet.
pub open spec fn packet_source(packet: Seq<u8>) -> nat {
    be_nat(packet.subrange(8, 12))
}

/// A packet is long enough to be looked at.
pub open spec fn packet_usable(packet: Seq<u8>) -> bool {
    packet.len() > RTP_HEADER_LEN + NONCE_TRAIL_LEN
}

/// The synchronisation source of a packet that is long enough.
pub fn packet_source_id(packet: &[u8]) -> (r: Option<u32>)
    ensures
        match r {
            Some(id) => packet_usable(packet@) && id == packet_source(packet@),
            None => !packet_usable(packet@),
        },
{
    if packet.len() <= RTP_HEADER_LEN + NONCE_TRAIL_LEN {
        return None;
    }
    Some(read_be_u32(packet, 8))
}

/// What the receiver makes of a packet.
#[derive(Debug)]
pub struct AudioPacket {
    /// The RTP timestamp.
    pub timestamp: u32,
    /// The packet brings a new source format.
    pub change: Option<FormatChange>,
    /// The decrypted payload, where the packet is authentic.
    pub plaintext: Option<Vec<u8>>,
}

/// The receiving side of a buffered stream.
pub struct BufferedReceiver {
    /// The key of the stream.
    pub key: [u8; 32],
    /// What samples are turned into.
    pub config: OutputConfig,
    /// The source format in use.
    pub current: Option<u32>,
}

impl BufferedReceiver {
    /// A receiver that saw no packet yet.
    pub fn new(key: [u8; 32], config: OutputConfig) -> (r: Self)
        ensures
            r.key == key,
            r.config == config,
            r.current is None,
    {
        BufferedReceiver { key, config, current: None }
    }

    /// A source format that is known and not the one in use.
    pub open spec fn is_new(self, source: Option<SourceFormat>) -> bool {
        source matches Some(format) && self.current != Some(format.id)
    }

    /// Takes a packet in. `source` is the format that its synchronisation source names, where it
    /// names one. A new format is taken up even if the packet turns out not to be authentic.
    pub fn on_packet(&mut self, packet: &[u8], source: Option<SourceFormat>) -> (r: Option<
        AudioPacket,
    >)
        requires
            packet@.len() <= max_sealed_len(),
        ensures
            final(self).key == old(self).key,
            final(self).config == old(self).config,
            final(self).current == (if packet_usable(packet@) && old(self).is_new(source) {
                Some(source->0.id)
            } else {
                old(self).current
            }),
            match r {
                None => !packet_usable(packet@),
                Some(p) => {
                    &&& packet_usable(packet@)
                    &&& p.timestamp == packet_timestamp(packet@)
                    &&& match p.plaintext {
                        None => rtp_plaintext(old(self).key@, packet@) is None,
                        Some(plain) => rtp_plaintext(old(self).key@, packet@) == Some(plain@)
                            && plain@.len() + RTP_HEADER_LEN + CHACHA_TAG_LEN + NONCE_TRAIL_LEN
                            == packet@.len(),
                    }
                    &&& match p.change {
                        None => !old(self).is_new(source),
                        Some(change) => old(self).is_new(source) && change.fits(
                            source->0,
                            old(self).config,
                        ),
                    }
                },
            },
    {
        if packet.len() <= RTP_HEADER_LEN + NONCE_TRAIL_LEN {
            return None;
        }
        let timestamp: u32 = read_be_u32(packet, 4);
        let mut change: Option<FormatChange> = None;
        if let Some(format) = source {
            let known: bool = match self.current {
                Some(id) => id == format.id,
                None => false,
            };
            if !known {
                self.current = Some(format.id);
                let (rate, channels): (u32, u8) = output_target(
                    format.sample_rate,
                    format.channels,
                    self.config.sample_rate,
                    self.config.max_channels,
                );
                change =
                Some(
                    FormatChange {
                        decoder: make_decoder(&format),
                        source_rate: format.sample_rate,
                        source_channels: format.channels,
                        target_rate: rate,
                        target_channels: channels,
                    },
                );
            }
        }
        let plaintext = decrypt_rtp_chacha(&self.key, packet);
        Some(AudioPacket { timestamp, change, plaintext })
    }
}

/// What is known of a frame when it is put into the buffer, beside its samples.
#[derive(Debug)]
pub struct FrameReport {
    /// The source format.
    pub source: Option<u32>,
    /// How the decoded bytes were found.
    pub decoder_kind: &'static str,
    /// Bytes of the decrypted payload.
    pub plaintext_len: usize,
    /// Those of them that are not zero.
    pub plaintext_nonzero_bytes: usize,
    /// The first 16 of them in hexadecimal.
    pub plaintext_prefix_hex: String,
    /// Bytes that the decoder was given.
    pub selected_payload_len: usize,
    /// The first 16 of them in hexadecimal.
    pub selected_payload_prefix_hex: String,
    /// How many candidates there were.
    pub aac_candidate_count: usize,
    /// How many of them a decoder accepted.
    pub aac_decoded_count: usize,
    /// How many of them are louder than silence.
    pub aac_non_silent_count: usize,
    /// The greatest peak, as a bit pattern.
    pub aac_best_peak_bits: u32,
}

/// The first 16 bytes in hexadecimal.
pub open spec fn prefix_text(bytes: Seq<u8>) -> Seq<char> {
    hex(
        if 16 < bytes.len() {
            bytes.take(16)
        } else {
            bytes
        },
    )
}

impl FrameReport {
    /// Whether the report is about a payload of which `part` is decoded.
    pub open spec fn describes(
        self,
        source: Option<u32>,
        plaintext: Seq<u8>,
        part: Seq<u8>,
        label: Seq<char>,
    ) -> bool {
        &&& self.source == source
        &&& self.decoder_kind@ == label
        &&& self.plaintext_len == plaintext.len()
        &&& self.plaintext_nonzero_bytes == nonzero_count(plaintext)
        &&& self.plaintext_prefix_hex@ == prefix_text(plaintext)
        &&& self.selected_payload_len == part.len()
        &&& self.selected_payload_prefix_hex@ == prefix_text(part)
    }
}

/// What to give to the decoder, and what to report of it.
#[derive(Debug)]
pub struct DecodePlan<'a> {
    /// The bytes to decode.
    pub payload: &'a [u8],
    /// The report.
    pub report: FrameReport,
}

/// The plan for an ALAC payload: all of it is decoded.
pub fn plan_alac<'a>(source: Option<u32>, plaintext: &'a [u8]) -> (r: DecodePlan<'a>)
    ensures
        r.payload@ == plaintext@,
        r.report.describes(source, plaintext@, plaintext@, "alac"@),
        r.report.aac_candidate_count == 0,
        r.report.aac_decoded_count == 0,
        r.report.aac_non_silent_count == 0,
        r.report.aac_best_peak_bits == 0,
{
    DecodePlan {
        payload: plaintext,
        report: FrameReport {
            source,
            decoder_kind: "alac",
            plaintext_len: plaintext.len(),
            plaintext_nonzero_bytes: count_nonzero(plaintext),
            plaintext_prefix_hex: prefix_hex(plaintext, 16),
            selected_payload_len: plaintext.len(),
            selected_payload_prefix_hex: prefix_hex(plaintext, 16),
            aac_candidate_count: 0,
            aac_decoded_count: 0,
            aac_non_silent_count: 0,
            aac_best_peak_bits: 0,
        },
    }
}

/// The plan for an AAC payload: the candidate whose trial was best is decoded, the usual part of
/// the payload where every trial failed.
pub fn plan_aac<'a>(source: Option<u32>, plaintext: &'a [u8], trials: &[DecodeTrial]) -> (r:
    DecodePlan<'a>)
    ensures
        ({
            let n = probed(plaintext@, trials@);
            let part = match choice(trials@, n) {
                Some(i) => candidates(plaintext@)[i],
                None => selected(plaintext@),
            };
            &&& r.payload@ == part.bytes
            &&& r.report.describes(source, plaintext@, part.bytes, part.label)
            &&& r.report.aac_candidate_count == candidates(plaintext@).len()
            &&& r.report.aac_decoded_count == count_trials(
                trials@,
                n,
                |t: DecodeTrial| t is Decoded,
            )
            &&& r.report.aac_non_silent_count == count_trials(
                trials@,
                n,
                |t: DecodeTrial| t.audible(),
            )
            &&& r.report.aac_best_peak_bits == top_peak(trials@, n)
        }),
{
    let probe = probe_aac_candidates(plaintext, trials);
    let aac_candidate_count: usize = probe.candidate_count;
    let aac_decoded_count: usize = probe.decoded_count;
    let aac_non_silent_count: usize = probe.non_silent_count;
    let aac_best_peak_bits: u32 = probe.best_peak_bits;
    let chosen = settle_aac_payload(plaintext, probe.chosen);
    DecodePlan {
        payload: chosen.payload,
        report: FrameReport {
            source,
            decoder_kind: chosen.label,
            plaintext_len: plaintext.len(),
            plaintext_nonzero_bytes: count_nonzero(plaintext),
            plaintext_prefix_hex: prefix_hex(plaintext, 16),
            selected_payload_len: chosen.payload_len,
            selected_payload_prefix_hex: chosen.prefix_hex,
            aac_candidate_count,
            aac_decoded_count,
            aac_non_silent_count,
            aac_best_peak_bits,
        },
    }
}

/// The play position moves at the sample rate for as long as playing lasts: it is at the anchor
/// when playing starts and before, and each second takes it on by the sample rate.
#[verifier::spinoff_prover]
pub proof fn law_position_moves_at_sample_rate(
    anchor_rtp: u32,
    anchor_local_ns: u64,
    sample_rate: u32,
    now_ns: u64,
    seconds: nat,
)
    requires
        anchor_local_ns <= now_ns,
        now_ns + seconds * 1_000_000_000 <= u64::MAX,
    ensures
        play_position(anchor_rtp, anchor_local_ns, sample_rate, anchor_local_ns) == anchor_rtp,
        play_position(
            anchor_rtp,
            anchor_local_ns,
            sample_rate,
            (now_ns + seconds * 1_000_000_000) as u64,
        ) == (play_position(anchor_rtp, anchor_local_ns, sample_rate, now_ns) + seconds
            * sample_rate) % 0x1_0000_0000,
{
    let n = (now_ns - anchor_local_ns) as nat;
    let m = n + seconds * 1_000_000_000;
    let x = n * sample_rate as nat;
    let k = seconds * sample_rate as nat;
    assert(m * sample_rate as nat == x + k * 1_000_000_000) by (nonlinear_arith)
        requires
            m == n + seconds * 1_000_000_000,
            x == n * sample_rate as nat,
            k == seconds * sample_rate as nat,
    ;
    assert((x + k * 1_000_000_000) / 1_000_000_000 == x / 1_000_000_000 + k);
    assert(0 * sample_rate as nat == 0);
    let a = anchor_rtp + x / 1_000_000_000;
    assert((a + k) % 0x1_0000_0000 == (a % 0x1_0000_0000 + k) % 0x1_0000_0000);
}

/// Before the anchor's time the play position is at the anchor.
pub proof fn law_position_waits_for_anchor(
    anchor_rtp: u32,
    anchor_local_ns: u64,
    sample_rate: u32,
    now_ns: u64,
)
    requires
        now_ns <= anchor_local_ns,
    ensures
        play_position(anchor_rtp, anchor_local_ns, sample_rate, now_ns) == anchor_rtp,
{
    assert(0 * sample_rate as nat == 0);
}

/// A frame that lies `distance` frames behind the anchor is due exactly when that much audio has
/// been played: when the time since the anchor, at the sample rate, is that many frames. Frames in
/// front of the anchor are due at once. This holds until the position is half the range of
/// timestamps past the frame.
#[verifier::spinoff_prover]
pub proof fn law_frame_is_due_when_its_time_has_come(
    anchor_rtp: u32,
    anchor_local_ns: u64,
    sample_rate: u32,
    now_ns: u64,
    distance: int,
)
    requires
        anchor_local_ns <= now_ns,
        -0x8000_0000 < distance < 0x8000_0000,
        (now_ns - anchor_local_ns) * sample_rate < (distance + 0x8000_0000) * 1_000_000_000,
    ensures
        is_due(
            play_position(anchor_rtp, anchor_local_ns, sample_rate, now_ns),
            ((anchor_rtp + distance) % 0x1_0000_0000) as u32,
        ) <==> (now_ns - anchor_local_ns) * sample_rate >= distance * 1_000_000_000,
{
    let x = (now_ns - anchor_local_ns) as nat * sample_rate as nat;
    assert(x == (now_ns - anchor_local_ns) * sample_rate);
    let e = x as int / 1_000_000_000;
    assert(0 <= e) by (nonlinear_arith)
        requires
            e == x as int / 1_000_000_000,
    ;
    let p = (anchor_rtp + e) % 0x1_0000_0000;
    let t = (anchor_rtp + distance) % 0x1_0000_0000;
    assert((p - t) % 0x1_0000_0000 == (e - distance) % 0x1_0000_0000);
}

/// Timestamps wrap: a frame is stale exactly when it lies less than half the range in front of the
/// anchor.
#[verifier::spinoff_prover]
pub proof fn law_stale_lies_before_anchor(anchor: u32, distance: int)
    requires
        -0x8000_0000 <= distance < 0x8000_0000,
    ensures
        is_stale(anchor, ((anchor + distance) % 0x1_0000_0000) as u32) <==> -0x8000_0000 < distance
            < 0,
{
    let t = (anchor + distance) % 0x1_0000_0000;
    assert((anchor - t) % 0x1_0000_0000 == (-distance) % 0x1_0000_0000);
}

/// Playing starts a tenth of a second of frames in front of the first one that waits, or where it
/// was asked to where none waits.
pub proof fn law_start_leads_first_frame<F>(
    frames: Map<u32, F>,
    sample_rate: u32,
    asked: u32,
    first: u32,
)
    ensures
        (forall|ts: u32| !frames.contains_key(ts)) ==> start_anchor(frames, sample_rate, asked)
            == asked,
        frames.contains_key(first) && (forall|ts: u32| frames.contains_key(ts) ==> first <= ts)
            ==> (start_anchor(frames, sample_rate, asked) + sample_rate / 10) % 0x1_0000_0000
            == first,
{
    if forall|ts: u32| !frames.contains_key(ts) {
        assert(frames.dom() =~= Set::empty());
    }
    if frames.contains_key(first) && (forall|ts: u32| frames.contains_key(ts) ==> first <= ts) {
        assert(frames.dom().contains(first));
        assert(is_first(frames, first));
        lemma_first_unique(frames, first, choose|k: u32| is_first(frames, k));
    }
}

/// Taking frames of a kind away leaves the others as they are and none of the kind.
pub proof fn law_without<F>(frames: Map<u32, F>, dropped: spec_fn(u32) -> bool, ts: u32)
    ensures
        without(frames, dropped).contains_key(ts) <==> frames.contains_key(ts) && !dropped(ts),
        without(frames, dropped).contains_key(ts) ==> without(frames, dropped)[ts] == frames[ts],
{
}

/// The frames that are delivered come in the order of their timestamps, each of them waited under
/// its timestamp and is of the kind, and no frame of the kind is left out.
pub proof fn law_delivered_frames<F>(
    list: Seq<(u32, F)>,
    frames: Map<u32, F>,
    due: spec_fn(u32) -> bool,
)
    requires
        lists_frames(list, frames, due),
    ensures
        forall|i: int, j: int| 0 <= i < j < list.len() ==> list[i].0 < list[j].0,
        forall|i: int|
            0 <= i < list.len() ==> due((#[trigger] list[i]).0) && frames.contains_pair(
                list[i].0,
                list[i].1,
            ),
        forall|ts: u32|
            frames.contains_key(ts) && due(ts) ==> list.contains((ts, #[trigger] frames[ts])),
{
    assert forall|ts: u32| frames.contains_key(ts) && due(ts) implies list.contains(
        (ts, #[trigger] frames[ts]),
    ) by {
        let i = choose|i: int| 0 <= i < list.len() && (#[trigger] list[i]).0 == ts;
        assert(list[i] == (ts, frames[ts]));
    }
}

/// What a command leaves as it is includes the rate of the samples, their channels and whether the
/// format changed.
pub proof fn law_same_session<F>(one: PlayoutState<F>, other: PlayoutState<F>)
    requires
        one.same_session(other),
    ensures
        one.sample_rate == other.sample_rate,
        one.channels == other.channels,
        one.format_changed == other.format_changed,
{
}

/// The decoder of a source has the source's own rate, channels and depth, 16 bits where it says
/// none, and an ALAC frame has 352 samples below 48 kHz and 480 from there on.
pub proof fn law_decoder_fits(setup: DecoderSetup, source: SourceFormat)
    requires
        setup.fits(source),
    ensures
        setup is Alac <==> source.is_alac,
        setup matches DecoderSetup::Aac { sample_rate, channels } ==> sample_rate
            == source.sample_rate && channels == source.channels,
        setup matches DecoderSetup::Alac { bit_depth, channels, info } ==> {
            &&& channels == source.channels
            &&& source.bit_depth matches Some(depth) ==> bit_depth == depth
            &&& source.bit_depth is None ==> bit_depth == 16
            &&& info@.len() == 48
            &&& be_nat(info@.subrange(24, 28)) == (if source.sample_rate < 48_000 {
                352int
            } else {
                480
            })
            &&& info@[29] == bit_depth
            &&& info@[33] == channels
            &&& be_nat(info@.subrange(44, 48)) == source.sample_rate
        },
{
    if setup is Alac {
        law_alac_info_layout(
            alac_frame_len(source.sample_rate),
            alac_depth(source),
            source.channels,
            source.sample_rate,
        );
    }
}

/// A change of format names the source's own rate and channels, and delivers at the rate that was
/// wanted, with as many channels as both sides can have.
pub proof fn law_change_fits(change: FormatChange, source: SourceFormat, config: OutputConfig)
    requires
        change.fits(source, config),
    ensures
        change.decoder.fits(source),
        change.source_rate == source.sample_rate,
        change.source_channels == source.channels,
        config.sample_rate matches Some(rate) ==> change.target_rate == rate,
        config.sample_rate is None ==> change.target_rate == source.sample_rate,
        change.target_channels <= source.channels,
        config.max_channels matches Some(most) ==> change.target_channels <= most && (
        change.target_channels == most || change.target_channels == source.channels),
        config.max_channels is None ==> change.target_channels == source.channels,
{
}

/// A packet is looked at when something stands between its 12-byte header and its 8-byte nonce.
/// Bytes 4 to 7 are its timestamp, bytes 8 to 11 its source, both big-endian.
pub proof fn law_packet_layout(head: Seq<u8>, timestamp: u32, source: u32, rest: Seq<u8>)
    requires
        head.len() == 4,
    ensures
        ({
            let packet = head + be_bytes(timestamp as nat, 4) + be_bytes(source as nat, 4) + rest;
            &&& packet_timestamp(packet) == timestamp
            &&& packet_source(packet) == source
            &&& packet_usable(packet) <==> rest.len() > 8
        }),
{
    let t = be_bytes(timestamp as nat, 4);
    let s = be_bytes(source as nat, 4);
    let packet = head + t + s + rest;
    lemma_byte_range_step(0);
    lemma_byte_range_step(1);
    lemma_byte_range_step(2);
    lemma_byte_range_step(3);
    lemma_be_bytes_len(timestamp as nat, 4);
    lemma_be_bytes_len(source as nat, 4);
    lemma_be_nat_of_bytes(timestamp as nat, 4);
    lemma_be_nat_of_bytes(source as nat, 4);
    assert(packet.subrange(4, 8) =~= t);
    assert(packet.subrange(8, 12) =~= s);
}

/// A source format is new when it is known and its identifier is not the one in use.
pub proof fn law_new_source(receiver: BufferedReceiver, format: SourceFormat)
    ensures
        !receiver.is_new(None),
        receiver.current is None ==> receiver.is_new(Some(format)),
        receiver.current matches Some(id) ==> (receiver.is_new(Some(format)) <==> id != format.id),
{
}

/// A report counts the bytes of the payload and of the decoded part, those of the payload that are
/// not zero, and shows the first 16 bytes of both, two digits each.
pub proof fn law_report_describes(
    report: FrameReport,
    source: Option<u32>,
    plaintext: Seq<u8>,
    part: Seq<u8>,
    label: Seq<char>,
)
    requires
        report.describes(source, plaintext, part, label),
    ensures
        report.source == source,
        report.decoder_kind@ == label,
        report.plaintext_len == plaintext.len(),
        report.plaintext_nonzero_bytes == plaintext.filter(|b: u8| b != 0).len(),
        report.selected_payload_len == part.len(),
        plaintext.len() > 16 ==> report.plaintext_prefix_hex@ == hex(plaintext.subrange(0, 16)),
        plaintext.len() <= 16 ==> report.plaintext_prefix_hex@ == hex(plaintext),
        part.len() <= 16 ==> report.selected_payload_prefix_hex@ == hex(part),
        part.len() > 16 ==> report.selected_payload_prefix_hex@ == hex(part.subrange(0, 16)),
{
    law_nonzero_count(plaintext);
}

/// Timestamps wrap: a frame is due exactly when it lies at the position or less than half the range
/// in front of it.
#[verifier::spinoff_prover]
pub proof fn law_due_lies_before_position(position: u32, distance: int)
    requires
        -0x8000_0000 <= distance < 0x8000_0000,
    ensures
        is_due(position, ((position - distance) % 0x1_0000_0000) as u32) <==> distance >= 0,
{
    let t = (position - distance) % 0x1_0000_0000;
    assert((position - t) % 0x1_0000_0000 == distance % 0x1_0000_0000);
}

/// While playing, a frame `distance` frames behind the anchor is handed out exactly when the time
/// since the anchor, at the sample rate, is that many frames; until then it waits. This holds until
/// the position is half the range of timestamps past the frame.
pub proof fn law_frames_are_delivered_in_time<F>(
    s: &mut PlayoutState<F>,
    has_session: bool,
    now_ns: u64,
    r: Option<Delivery<F>>,
    distance: int,
)
    requires
        call_ensures(delivery_step::<F>, (s, has_session, now_ns), r),
        !old(s).stopped,
        old(s).rate != 0,
        old(s).anchor_local_ns <= now_ns,
        -0x8000_0000 < distance < 0x8000_0000,
        (now_ns - old(s).anchor_local_ns) * old(s).sample_rate < (distance + 0x8000_0000)
            * 1_000_000_000,
        old(s).buffer@.contains_key(((old(s).anchor_rtp + distance) % 0x1_0000_0000) as u32),
    ensures
        ({
            let ts = ((old(s).anchor_rtp + distance) % 0x1_0000_0000) as u32;
            let frame = old(s).buffer@[ts];
            let due = (now_ns - old(s).anchor_local_ns) * old(s).sample_rate >= distance
                * 1_000_000_000;
            &&& r is Some
            &&& due ==> r->0.frames@.contains((ts, frame)) && !final(s).buffer@.contains_key(ts)
            &&& !due ==> !r->0.frames@.contains((ts, frame)) && final(s).buffer@.contains_key(ts)
                && final(s).buffer@[ts] == frame
        }),
{
    law_frame_is_due_when_its_time_has_come(
        old(s).anchor_rtp,
        old(s).anchor_local_ns,
        old(s).sample_rate,
        now_ns,
        distance,
    );
    let due = |ts: u32|
        old(s).rate != 0 && is_due(
            play_position(
                old(s).anchor_rtp,
                old(s).anchor_local_ns,
                old(s).sample_rate,
                now_ns,
            ),
            ts,
        );
    let ts = ((old(s).anchor_rtp + distance) % 0x1_0000_0000) as u32;
    let list = r->0.frames@;
    law_delivery_loses_nothing(list, old(s).buffer@, due, ts);
    if due(ts) {
        let i = choose|i: int|
            0 <= i < list.len() && (#[trigger] list[i]) == (ts, old(s).buffer@[ts]);
        assert(list.contains(list[i]));
    }
}

/// While paused nothing is handed out and all frames wait, and after the end nothing comes back.
pub proof fn law_nothing_is_delivered<F>(
    s: &mut PlayoutState<F>,
    has_session: bool,
    now_ns: u64,
    r: Option<Delivery<F>>,
)
    requires
        call_ensures(delivery_step::<F>, (s, has_session, now_ns), r),
    ensures
        old(s).stopped <==> r is None,
        !old(s).stopped && old(s).rate == 0 ==> r->0.frames@.len() == 0 && final(s).buffer@
            == old(s).buffer@,
        !old(s).stopped ==> (r->0.format is Some <==> !has_session || old(s).format_changed),
        !old(s).stopped ==> r->0.flush == old(s).flush_pending,
        !old(s).stopped && r->0.format is Some ==> r->0.format->0.sample_rate == old(s).sample_rate
            && r->0.format->0.channels == old(s).channels && r->0.format->0.bits == 32,
{
}

/// A session is flushed once and told of a format once: the next round does neither again.
pub proof fn law_flush_and_format_come_once<F>(
    s: &mut PlayoutState<F>,
    later: &mut PlayoutState<F>,
    first_ns: u64,
    now_ns: u64,
    first: Option<Delivery<F>>,
    next: Option<Delivery<F>>,
)
    requires
        !old(s).stopped,
        call_ensures(delivery_step::<F>, (s, true, first_ns), first),
        *old(later) == *final(s),
        call_ensures(delivery_step::<F>, (later, true, now_ns), next),
    ensures
        next is Some,
        !next->0.flush,
        next->0.format is None,
{
}

/// Flushing drops the frames between the two timestamps, both of them too, and keeps all others.
pub proof fn law_flush_drops_a_range<F, C: FnOnce() -> u64>(
    s: &mut PlayoutState<F>,
    from_seq: u32,
    until_seq: u32,
    clock: C,
    r: bool,
    ts: u32,
)
    requires
        call_ensures(
            apply_playout_command::<F>,
            (s, PlayoutCommand::Flush { from_seq, until_seq }, clock),
            r,
        ),
    ensures
        r,
        final(s).flush_pending,
        final(s).buffer@.contains_key(ts) <==> old(s).buffer@.contains_key(ts) && !(from_seq <= ts
            <= until_seq),
        final(s).buffer@.contains_key(ts) ==> final(s).buffer@[ts] == old(s).buffer@[ts],
        final(s).anchor_rtp == old(s).anchor_rtp,
        final(s).rate == old(s).rate,
        final(s).sample_rate == old(s).sample_rate,
        final(s).channels == old(s).channels,
{
}

/// Stopping drops all frames and ends the playout.
pub proof fn law_stop_ends<F, C: FnOnce() -> u64>(
    s: &mut PlayoutState<F>,
    clock: C,
    r: bool,
    ts: u32,
)
    requires
        call_ensures(apply_playout_command::<F>, (s, PlayoutCommand::Stop, clock), r),
    ensures
        !r,
        final(s).stopped,
        !final(s).buffer@.contains_key(ts),
{
}

/// Starting to play sets the anchor a tenth of a second in front of the first frame, at the local
/// time, drops the frames that lie in front of it and keeps the first and all behind. Pausing keeps
/// every frame.
pub proof fn law_set_rate<F, C: FnOnce() -> u64>(
    s: &mut PlayoutState<F>,
    anchor_rtp: u32,
    anchor_time_ns: u64,
    rate: u32,
    clock: C,
    r: bool,
    first: u32,
)
    requires
        call_ensures(
            apply_playout_command::<F>,
            (s, PlayoutCommand::SetRate { anchor_rtp, anchor_time_ns, rate }, clock),
            r,
        ),
        old(s).buffer@.contains_key(first),
        forall|ts: u32| old(s).buffer@.contains_key(ts) ==> first <= ts,
    ensures
        r,
        final(s).rate == rate,
        final(s).stopped == old(s).stopped,
        rate == 0 ==> final(s).buffer@ == old(s).buffer@ && final(s).anchor_rtp == anchor_rtp,
        rate != 0 ==> (final(s).anchor_rtp + old(s).sample_rate / 10) % 0x1_0000_0000 == first,
        rate != 0 ==> call_ensures(clock, (), final(s).anchor_local_ns),
        rate != 0 ==> final(s).buffer@.contains_key(first),
{
    law_start_leads_first_frame(old(s).buffer@, old(s).sample_rate, anchor_rtp, first);
    assert(is_first(old(s).buffer@, first));
    law_first_frame_kept(old(s).buffer@, old(s).sample_rate, anchor_rtp, first);
}

/// A frame waits under its timestamp, in the place of one that had it, beside all others.
pub proof fn law_enqueued<F>(s: &mut PlayoutState<F>, timestamp: u32, frame: F, ts: u32)
    requires
        call_ensures(enqueue::<F>, (s, timestamp, frame), ()),
    ensures
        final(s).buffer@.contains_key(timestamp),
        final(s).buffer@[timestamp] == frame,
        ts != timestamp ==> final(s).buffer@.contains_key(ts) == old(s).buffer@.contains_key(ts),
        ts != timestamp && old(s).buffer@.contains_key(ts) ==> final(s).buffer@[ts]
            == old(s).buffer@[ts],
        final(s).rate == old(s).rate,
        final(s).anchor_rtp == old(s).anchor_rtp,
        final(s).anchor_local_ns == old(s).anchor_local_ns,
        final(s).sample_rate == old(s).sample_rate,
{
}

/// A new format is delivered from the next round on, and the frames keep waiting.
pub proof fn law_format_is_set<F>(s: &mut PlayoutState<F>, change: &FormatChange)
    requires
        call_ensures(set_format::<F>, (s, change), ()),
    ensures
        final(s).sample_rate == change.target_rate,
        final(s).channels == change.target_channels,
        final(s).format_changed,
        final(s).buffer == old(s).buffer,
        final(s).rate == old(s).rate,
        final(s).anchor_rtp == old(s).anchor_rtp,
        final(s).anchor_local_ns == old(s).anchor_local_ns,
{
}

/// A playout starts paused and empty, in stereo, at the rate that is wanted or that of CDs.
pub proof fn law_new_playout<F>(config: &OutputConfig, s: PlayoutState<F>, ts: u32)
    requires
        call_ensures(PlayoutState::<F>::new, (config,), s),
    ensures
        s.rate == 0,
        !s.stopped,
        !s.format_changed,
        !s.flush_pending,
        !s.buffer@.contains_key(ts),
        s.channels == 2,
        config.sample_rate matches Some(rate) ==> s.sample_rate == rate,
        config.sample_rate is None ==> s.sample_rate == 44100,
{
}

/// The delivery waits while it has nothing to do: it is not ended, no flush is due, and it is
/// paused or no frame waits.
pub proof fn law_must_wait<F>(s: &PlayoutState<F>, r: bool, ts: u32)
    requires
        call_ensures(must_wait::<F>, (s,), r),
    ensures
        s.stopped || s.flush_pending ==> !r,
        !s.stopped && !s.flush_pending && s.rate == 0 ==> r,
        s.rate != 0 && s.buffer@.contains_key(ts) ==> !r,
        !s.stopped && !s.flush_pending && s.buffer@ =~= Map::empty() ==> r,
{
    if s.buffer@.contains_key(ts) {
        assert(s.buffer@.dom().contains(ts));
    }
}

/// A packet's length field counts itself, its high byte first. Less than its own two bytes is no
/// packet.
pub proof fn law_packet_body_len(field: &[u8; 2], r: Option<usize>)
    requires
        call_ensures(packet_body_len, (field,), r),
    ensures
        r matches Some(n) ==> 256 * field@[0] + field@[1] == n + 2,
        r is None <==> 256 * field@[0] + field@[1] < 2,
{
    reveal_with_fuel(be_nat, 3);
    assert(field@ =~= seq![field@[0], field@[1]]);
    assert(seq![field@[0], field@[1]].drop_last() =~= seq![field@[0]]);
    assert(seq![field@[0]].drop_last() =~= Seq::empty());
}

/// The payload of an ALAC packet is decoded whole, and reported as it is.
pub proof fn law_alac_plan(source: Option<u32>, plaintext: &[u8], r: DecodePlan<'_>)
    requires
        call_ensures(plan_alac, (source, plaintext), r),
    ensures
        r.payload@ == plaintext@,
        r.report.source == source,
        r.report.decoder_kind@ == "alac"@,
        r.report.plaintext_len == plaintext@.len(),
        r.report.selected_payload_len == plaintext@.len(),
        r.report.aac_candidate_count == 0,
{
}

/// A packet of more than a header and a nonce is taken with its own timestamp, and opened with the
/// receiver's key. A format that is not the one in use is taken up with it.
pub proof fn law_packets_taken(
    receiver: &mut BufferedReceiver,
    packet: &[u8],
    source: Option<SourceFormat>,
    r: Option<AudioPacket>,
)
    requires
        packet@.len() <= max_sealed_len(),
        call_ensures(BufferedReceiver::on_packet, (receiver, packet, source), r),
    ensures
        r is Some <==> packet@.len() > 20,
        final(receiver).key == old(receiver).key,
        r matches Some(p) ==> p.timestamp == be_nat(packet@.subrange(4, 8)),
        r matches Some(p) ==> match p.plaintext {
            Some(plain) => rtp_plaintext(old(receiver).key@, packet@) == Some(plain@),
            None => rtp_plaintext(old(receiver).key@, packet@) is None,
        },
        r matches Some(p) ==> (p.change is Some <==> source is Some && old(receiver).current
            != Some(source->0.id)),
        r is Some && source is Some ==> final(receiver).current == Some(source->0.id),
        r is Some && source is None ==> final(receiver).current == old(receiver).current,
        r matches Some(p) ==> (p.change matches Some(change) ==> change.source_rate
            == source->0.sample_rate && change.source_channels == source->0.channels),
{
}

} // verus!
