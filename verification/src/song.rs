//! Time slices of a Standard MIDI File: for every tick at which something
//! happens, the notes that each voice is holding once it has happened.

use crate::ordering::{
    as_ints, enumerates, in_order, ints_of, lemma_in_order, lemma_integer_orders,
    lemma_listing_exists, pair_le, pair_lt, pair_set, sorted, sorted_distinct,
};
use midly::{MidiMessage as WireMessage, TrackEventKind as WireKind};
use std::collections::{HashMap, HashSet};
use vstd::prelude::*;

verus! {

/// A message on a MIDI channel. Only the two that start and stop notes are told
/// apart; every other channel message is `Other`.
#[derive(Clone, Copy, Debug, PartialEq, Eq, Structural)]
pub enum MidiMessage {
    NoteOff { key: u8, vel: u8 },
    NoteOn { key: u8, vel: u8 },
    Other,
}

/// What a track event is: a message on a channel, or anything else (meta events,
/// system exclusive data, escapes).
#[derive(Clone, Copy, Debug, PartialEq, Eq, Structural)]
pub enum TrackEventKind {
    Midi { channel: u8, message: MidiMessage },
    Other,
}

/// One event of a track, `delta` ticks after the event before it.
#[derive(Clone, Copy, Debug, PartialEq, Eq, Structural)]
pub struct TrackEvent {
    pub delta: u32,
    pub kind: TrackEventKind,
}

/// The tracks of a Standard MIDI File.
#[derive(Clone, Debug)]
pub struct Smf {
    pub tracks: Vec<Vec<TrackEvent>>,
}

/// Why a byte string was not read as a Standard MIDI File.
#[derive(Clone, Debug)]
pub struct ParseError {
    /// What the parser said of the bytes.
    pub message: String,
}

/// The error type of the `midly` parser.
#[verifier::external_type_specification]
#[verifier::external_body]
pub struct ExMidlyError(midly::Error);

/// What `midly::Smf::parse` makes of a byte string: the tracks of the file it
/// holds, or `None` where the parser rejects it.
pub uninterp spec fn parsed_tracks(raw: Seq<u8>) -> Option<Seq<Seq<TrackEvent>>>;

/// Calls `midly::Smf::parse` and copies the tracks it returns, event by event:
/// the delta time, and of a channel message the channel, whether it is a note-on
/// or a note-off, the key and the velocity. The result is the parser's, named by
/// `parsed_tracks`; nothing is claimed about which files it accepts.
#[verifier::external_body]
fn parse_tracks(raw: &[u8]) -> (r: Result<Smf, midly::Error>)
    ensures
        r matches Ok(smf) ==> parsed_tracks(raw@) == Some(smf@),
        r is Err ==> parsed_tracks(raw@) is None,
{
    let smf = midly::Smf::parse(raw)?;
    let message_of = |message| match message {
        WireMessage::NoteOff { key, vel } => note_off(key.as_int(), vel.as_int()),
        WireMessage::NoteOn { key, vel } => note_on(key.as_int(), vel.as_int()),
        _ => MidiMessage::Other,
    };
    let kind_of = |kind| match kind {
        WireKind::Midi { channel, message } => TrackEventKind::Midi { channel: channel.as_int(), message: message_of(message) },
        _ => TrackEventKind::Other,
    };
    Ok(Smf { tracks: smf.tracks.iter().map(|track| track.iter().map(|event| TrackEvent { delta: event.delta.as_int(), kind: kind_of(event.kind) }).collect()).collect() })
}

fn note_off(key: u8, vel: u8) -> (message: MidiMessage)
    ensures
        message == (MidiMessage::NoteOff { key, vel }),
{
    MidiMessage::NoteOff { key, vel }
}

fn note_on(key: u8, vel: u8) -> (message: MidiMessage)
    ensures
        message == (MidiMessage::NoteOn { key, vel }),
{
    MidiMessage::NoteOn { key, vel }
}

/// The text of a `midly::Error`, as its `Display` writes it.
#[verifier::external_body]
fn describe(error: &midly::Error) -> String {
    error.to_string()
}

impl Smf {
    /// Reads a Standard MIDI File from its bytes.
    pub fn parse(raw: &[u8]) -> (r: Result<Smf, ParseError>)
        ensures
            r matches Ok(smf) ==> parsed_tracks(raw@) == Some(smf@),
            r is Err ==> parsed_tracks(raw@) is None,
    {
        match parse_tracks(raw) {
            Ok(smf) => Ok(smf),
            Err(error) => Err(ParseError { message: describe(&error) }),
        }
    }
}

impl View for Smf {
    type V = Seq<Seq<TrackEvent>>;

    open spec fn view(&self) -> Seq<Seq<TrackEvent>> {
        Seq::new(self.tracks@.len(), |i: int| self.tracks@[i]@)
    }
}

/// The notes that the voices hold at one position of a song: for each voice, a
/// map from the keys that are down to the velocity they were struck with.
#[derive(Clone, Debug)]
pub struct TimeSlice {
    pub notes_by_voice: Vec<HashMap<u8, u8>>,
}

impl View for TimeSlice {
    type V = Seq<Map<u8, u8>>;

    open spec fn view(&self) -> Seq<Map<u8, u8>> {
        Seq::new(self.notes_by_voice@.len(), |i: int| self.notes_by_voice@[i]@)
    }
}

/// A song as a sequence of time slices.
#[derive(Clone, Debug)]
pub struct Song {
    /// The number of voices; every slice has this many entries.
    pub voices: usize,
    pub slices: Vec<TimeSlice>,
}

impl View for Song {
    type V = Seq<Seq<Map<u8, u8>>>;

    open spec fn view(&self) -> Seq<Seq<Map<u8, u8>>> {
        Seq::new(self.slices@.len(), |i: int| self.slices@[i]@)
    }
}

/// A channel message with its place in the file: the tick it falls on, counted
/// from the start of its track, the track, and the channel.
pub struct Timed {
    pub tick: int,
    pub track: int,
    pub channel: u8,
    pub message: MidiMessage,
}

/// The tick reached after the first `n` events of a track.
pub open spec fn ticks_after(track: Seq<TrackEvent>, n: int) -> int
    decreases n,
{
    if n <= 0 {
        0
    } else {
        ticks_after(track, n - 1) + track[n - 1].delta
    }
}

/// The channel messages among the first `n` events of the track with the given
/// index, in the order of the track.
pub open spec fn track_messages(track: Seq<TrackEvent>, index: int, n: int) -> Seq<Timed>
    decreases n,
{
    if n <= 0 {
        Seq::empty()
    } else {
        let earlier = track_messages(track, index, n - 1);
        match track[n - 1].kind {
            TrackEventKind::Midi { channel, message } => earlier.push(
                Timed { tick: ticks_after(track, n), track: index, channel, message },
            ),
            TrackEventKind::Other => earlier,
        }
    }
}

/// The channel messages of the first `n` tracks: track after track.
pub open spec fn messages_of(tracks: Seq<Seq<TrackEvent>>, n: int) -> Seq<Timed>
    decreases n,
{
    if n <= 0 {
        Seq::empty()
    } else {
        messages_of(tracks, n - 1) + track_messages(tracks[n - 1], n - 1, tracks[n - 1].len() as int)
    }
}

/// All channel messages of a file: track after track, each in its own order.
pub open spec fn messages(tracks: Seq<Seq<TrackEvent>>) -> Seq<Timed> {
    messages_of(tracks, tracks.len() as int)
}

/// What tells voices apart: the track and the channel of a message.
pub open spec fn voice_key(m: Timed) -> (int, int) {
    (m.track, m.channel as int)
}

/// The voice keys that occur among the messages.
pub open spec fn voice_key_set(msgs: Seq<Timed>) -> Set<(int, int)> {
    Set::new(|k: (int, int)| exists|i: int| 0 <= i < msgs.len() && voice_key(#[trigger] msgs[i]) == k)
}

/// The voices of a song: the voice keys that occur, by track and then by channel.
/// A voice's index is its place in this sequence.
pub open spec fn voice_keys(msgs: Seq<Timed>) -> Seq<(int, int)> {
    in_order(voice_key_set(msgs), pair_lt())
}

/// The index of the voice that a message belongs to.
pub open spec fn voice_of(msgs: Seq<Timed>, m: Timed) -> int {
    voice_keys(msgs).index_of(voice_key(m))
}

/// No voice holds a note.
pub open spec fn silence(voices: nat) -> Seq<Map<u8, u8>> {
    Seq::new(voices, |v: int| Map::<u8, u8>::empty())
}

/// What the voices hold after a message for the given voice: a note-on with a
/// velocity above zero puts the key down, a note-on with velocity zero and a
/// note-off lift it, and any other message changes nothing.
pub open spec fn play(held: Seq<Map<u8, u8>>, voice: int, message: MidiMessage) -> Seq<Map<u8, u8>> {
    match message {
        MidiMessage::NoteOn { key, vel } => if vel > 0 {
            held.update(voice, held[voice].insert(key, vel))
        } else {
            held.update(voice, held[voice].remove(key))
        },
        MidiMessage::NoteOff { key, vel } => held.update(voice, held[voice].remove(key)),
        MidiMessage::Other => held,
    }
}

/// Whether something happens at tick `t`. Tick 0 always counts, so that a song
/// has a slice at its start even when its first message comes later.
pub open spec fn is_tick(msgs: Seq<Timed>, t: int) -> bool {
    t == 0 || exists|i: int| 0 <= i < msgs.len() && (#[trigger] msgs[i]).tick == t
}

/// What the voices hold after those of the first `n` messages that fall on tick
/// `t`, played in their order.
pub open spec fn play_tick(held: Seq<Map<u8, u8>>, msgs: Seq<Timed>, t: int, n: int) -> Seq<
    Map<u8, u8>,
>
    decreases n,
{
    if n <= 0 {
        held
    } else {
        let before = play_tick(held, msgs, t, n - 1);
        if msgs[n - 1].tick == t {
            play(before, voice_of(msgs, msgs[n - 1]), msgs[n - 1].message)
        } else {
            before
        }
    }
}

/// What the voices hold after tick `t` and the ticks that lead up to it without a
/// gap. Ticks one apart count as one moment: a note-off one tick before the next
/// note-on is to sound no silence. They are played from the latest tick back to
/// the earliest, each tick's messages in their order.
pub open spec fn play_run(held: Seq<Map<u8, u8>>, msgs: Seq<Timed>, t: int) -> Seq<Map<u8, u8>>
    decreases t,
{
    let now = play_tick(held, msgs, t, msgs.len() as int);
    if t > 0 && is_tick(msgs, t - 1) {
        play_run(now, msgs, t - 1)
    } else {
        now
    }
}

/// Whether tick `t` ends a run of ticks: something happens at `t` and nothing one
/// tick later. Every such tick gives one slice.
pub open spec fn closes(msgs: Seq<Timed>, t: int) -> bool {
    is_tick(msgs, t) && !is_tick(msgs, t + 1)
}

/// What the voices hold once every run of ticks that ends at or before `t` has
/// been played.
pub open spec fn held_at(msgs: Seq<Timed>, t: int) -> Seq<Map<u8, u8>>
    decreases t + 1,
{
    if t < 0 {
        silence(voice_keys(msgs).len())
    } else {
        let before = held_at(msgs, t - 1);
        if closes(msgs, t) {
            play_run(before, msgs, t)
        } else {
            before
        }
    }
}

/// The ticks up to `t` that give a slice, in ascending order.
pub open spec fn slice_ticks(msgs: Seq<Timed>, t: int) -> Seq<int>
    decreases t + 1,
{
    if t < 0 {
        Seq::empty()
    } else if closes(msgs, t) {
        slice_ticks(msgs, t - 1).push(t)
    } else {
        slice_ticks(msgs, t - 1)
    }
}

/// The last tick at which something happens.
pub open spec fn last_tick(msgs: Seq<Timed>) -> int
    decreases msgs.len(),
{
    if msgs.len() == 0 {
        0
    } else if msgs.last().tick > last_tick(msgs.drop_last()) {
        msgs.last().tick
    } else {
        last_tick(msgs.drop_last())
    }
}

/// The slices for the ticks up to `t`: one for every tick that ends a run of
/// ticks, in ascending order, each holding what the voices hold after that run.
pub open spec fn slices_upto(msgs: Seq<Timed>, t: int) -> Seq<Seq<Map<u8, u8>>> {
    let ticks = slice_ticks(msgs, t);
    Seq::new(ticks.len(), |i: int| held_at(msgs, ticks[i]))
}

/// The slices of a song.
pub open spec fn slices_of(msgs: Seq<Timed>) -> Seq<Seq<Map<u8, u8>>> {
    slices_upto(msgs, last_tick(msgs))
}

/// A message as it is held while the slices are built.
#[derive(Clone, Copy)]
struct Placed {
    tick: u128,
    track: usize,
    channel: u8,
    message: MidiMessage,
}

impl Placed {
    spec fn timed(self) -> Timed {
        Timed {
            tick: self.tick as int,
            track: self.track as int,
            channel: self.channel,
            message: self.message,
        }
    }
}

spec fn views(placed: Seq<Placed>) -> Seq<Timed> {
    Seq::new(placed.len(), |i: int| placed[i].timed())
}

/// Collects the channel messages of a file with their ticks.
fn place_messages(smf: &Smf) -> (placed: Vec<Placed>)
    ensures
        views(placed@) == messages(smf@),
        forall|i: int| 0 <= i < placed@.len() ==> (#[trigger] placed@[i]).tick < 0x1_0000_0000_0000_0000_0000_0000,
{
    let mut placed: Vec<Placed> = Vec::new();
    let mut t: usize = 0;
    assert(views(placed@) =~= messages_of(smf@, 0));
    while t < smf.tracks.len()
        invariant
            t <= smf.tracks@.len(),
            views(placed@) == messages_of(smf@, t as int),
            forall|i: int| 0 <= i < placed@.len() ==> (#[trigger] placed@[i]).tick < 0x1_0000_0000_0000_0000_0000_0000,
        decreases smf.tracks@.len() - t,
    {
        let track = &smf.tracks[t];
        let ghost before = views(placed@);
        let mut tick: u128 = 0;
        let mut i: usize = 0;
        assert(views(placed@) =~= before + track_messages(track@, t as int, 0));
        while i < track.len()
            invariant
                i <= track@.len(),
                tick == ticks_after(track@, i as int),
                tick <= i * 0xffff_ffff,
                views(placed@) == before + track_messages(track@, t as int, i as int),
                forall|i: int| 0 <= i < placed@.len() ==> (#[trigger] placed@[i]).tick < 0x1_0000_0000_0000_0000_0000_0000,
            decreases track@.len() - i,
        {
            let event = track[i];
            tick = tick + event.delta as u128;
            match event.kind {
                TrackEventKind::Midi { channel, message } => {
                    let item = Placed { tick, track: t, channel, message };
                    assert(views(placed@.push(item)) =~= views(placed@).push(item.timed()));
                    assert(before + track_messages(track@, t as int, i as int).push(item.timed()) =~= (before
                        + track_messages(track@, t as int, i as int)).push(item.timed()));
                    placed.push(item);
                },
                TrackEventKind::Other => {},
            }
            i += 1;
        }
        assert(smf@[t as int] == track@);
        t += 1;
    }
    placed
}

/// The voice keys of the messages, in order.
fn voice_table(placed: &Vec<Placed>) -> (keys: Vec<(u128, u128)>)
    ensures
        ints_of(keys@) == voice_keys(views(placed@)),
        enumerates(ints_of(keys@), voice_key_set(views(placed@)), pair_lt()),
{
    let mut pairs: Vec<(u128, u128)> = Vec::new();
    let mut i: usize = 0;
    while i < placed.len()
        invariant
            i <= placed@.len(),
            pairs@.len() == i,
            forall|k: int| 0 <= k < i ==> as_ints(#[trigger] pairs@[k]) == voice_key(placed@[k].timed()),
        decreases placed@.len() - i,
    {
        pairs.push((placed[i].track as u128, placed[i].channel as u128));
        i += 1;
    }
    let ghost listed = pairs@;
    let keys = sorted_distinct(pairs);
    proof {
        let msgs = views(placed@);
        assert forall|k: (int, int)| pair_set(listed).contains(k) <==> voice_key_set(msgs).contains(
            k,
        ) by {
            if pair_set(listed).contains(k) {
                let j = choose|j: int| 0 <= j < listed.len() && as_ints(#[trigger] listed[j]) == k;
                assert(voice_key(msgs[j]) == k);
            }
            if voice_key_set(msgs).contains(k) {
                let j = choose|j: int| 0 <= j < msgs.len() && voice_key(#[trigger] msgs[j]) == k;
                assert(as_ints(listed[j]) == k);
            }
        }
        assert(pair_set(listed) =~= voice_key_set(msgs));
        lemma_integer_orders();
        lemma_in_order(ints_of(keys@), voice_key_set(msgs), pair_lt());
    }
    keys
}

/// The voice index of each message.
fn voice_indices(placed: &Vec<Placed>, keys: &Vec<(u128, u128)>) -> (voices: Vec<usize>)
    requires
        ints_of(keys@) == voice_keys(views(placed@)),
        enumerates(ints_of(keys@), voice_key_set(views(placed@)), pair_lt()),
    ensures
        voices@.len() == placed@.len(),
        forall|k: int| 0 <= k < placed@.len() ==> #[trigger] voices@[k] == voice_of(views(placed@), placed@[k].timed()),
        forall|k: int| 0 <= k < placed@.len() ==> #[trigger] voices@[k] < keys@.len(),
{
    let ghost msgs = views(placed@);
    let mut voices: Vec<usize> = Vec::new();
    let mut i: usize = 0;
    while i < placed.len()
        invariant
            i <= placed@.len(),
            voices@.len() == i,
            msgs == views(placed@),
            ints_of(keys@) == voice_keys(msgs),
            enumerates(ints_of(keys@), voice_key_set(msgs), pair_lt()),
            forall|k: int| 0 <= k < i ==> #[trigger] voices@[k] == voice_of(msgs, placed@[k].timed()),
            forall|k: int| 0 <= k < i ==> #[trigger] voices@[k] < keys@.len(),
        decreases placed@.len() - i,
    {
        let track = placed[i].track as u128;
        let channel = placed[i].channel as u128;
        let ghost key = voice_key(placed@[i as int].timed());
        proof {
            assert(voice_key(msgs[i as int]) == key);
            assert(voice_key_set(msgs).contains(key));
            assert(ints_of(keys@).contains(key));
        }
        let count = keys.len();
        let mut v: usize = 0;
        while keys[v].0 != track || keys[v].1 != channel
            invariant
                v < keys@.len() == count,
                key == (track as int, channel as int),
                ints_of(keys@).contains(key),
                forall|u: int| 0 <= u < v ==> ints_of(keys@)[u] != key,
            decreases keys@.len() - v,
        {
            proof {
                let at = choose|at: int| 0 <= at < ints_of(keys@).len() && ints_of(keys@)[at] == key;
                assert(ints_of(keys@)[v as int] != key);
                assert(at != v);
                assert(at < keys@.len());
                assert(v + 1 < keys@.len());
            }
            v += 1;
        }
        proof {
            let s = ints_of(keys@);
            assert(s[v as int] == key);
            let chosen = s.index_of(key);
            assert(0 <= chosen < s.len() && s[chosen] == key);
            if chosen < v {
                assert((pair_lt())(s[chosen], s[v as int]));
            }
            if chosen > v {
                assert((pair_lt())(s[v as int], s[chosen]));
            }
        }
        voices.push(v);
        i += 1;
    }
    voices
}

/// The maps of the voices as mathematical maps.
spec fn held_view(held: Seq<HashMap<u8, u8>>) -> Seq<Map<u8, u8>> {
    Seq::new(held.len(), |i: int| held[i]@)
}

/// Whether `order` lists the messages by tick and, within a tick, by their place
/// among the messages: each entry pairs a tick with the index of a message.
spec fn is_play_order(order: Seq<(u128, u128)>, msgs: Seq<Timed>) -> bool {
    &&& order.len() == msgs.len()
    &&& forall|x: int, y: int|
        0 <= x < y < order.len() ==> (#[trigger] order[x]).0 < (#[trigger] order[y]).0 || (order[x].0
            == order[y].0 && order[x].1 < order[y].1)
    &&& forall|x: int|
        0 <= x < order.len() ==> (#[trigger] order[x]).1 < msgs.len() && order[x].0
            == msgs[order[x].1 as int].tick
    &&& forall|k: int| 0 <= k < msgs.len() ==> #[trigger] has_entry(order, k)
}

/// Whether the order holds an entry for the message with index `k`.
spec fn has_entry(order: Seq<(u128, u128)>, k: int) -> bool {
    exists|x: int| 0 <= x < order.len() && (#[trigger] order[x]).1 == k
}

/// Orders the messages by tick, keeping the order of those that share a tick.
fn play_order(placed: &Vec<Placed>) -> (order: Vec<(u128, u128)>)
    requires
        forall|i: int| 0 <= i < placed@.len() ==> (#[trigger] placed@[i]).tick < 0x1_0000_0000_0000_0000_0000_0000,
    ensures
        is_play_order(order@, views(placed@)),
        forall|x: int| 0 <= x < order@.len() ==> (#[trigger] order@[x]).0 < 0x1_0000_0000_0000_0000_0000_0000,
{
    let mut pairs: Vec<(u128, u128)> = Vec::new();
    let mut i: usize = 0;
    while i < placed.len()
        invariant
            i <= placed@.len(),
            pairs@.len() == i,
            forall|k: int| 0 <= k < i ==> #[trigger] pairs@[k] == (placed@[k].tick, k as u128),
        decreases placed@.len() - i,
    {
        pairs.push((placed[i].tick, i as u128));
        i += 1;
    }
    let ghost given = pairs@;
    let order = sorted(pairs);
    proof {
        let msgs = views(placed@);
        vstd::seq_lib::to_multiset_len(given);
        vstd::seq_lib::to_multiset_len(order@);
        assert(given.no_duplicates());
        given.lemma_multiset_has_no_duplicates();
        order@.lemma_multiset_has_no_duplicates_conv();
        assert forall|x: int| 0 <= x < order@.len() implies (#[trigger] order@[x]).1 < msgs.len()
            && order@[x].0 == msgs[order@[x].1 as int].tick && order@[x].0
            < 0x1_0000_0000_0000_0000_0000_0000 by {
            assert(order@.contains(order@[x]));
            vstd::seq_lib::to_multiset_contains(order@, order@[x]);
            vstd::seq_lib::to_multiset_contains(given, order@[x]);
            assert(given.contains(order@[x]));
            let k = choose|k: int| 0 <= k < given.len() && given[k] == order@[x];
            assert(given[k] == (placed@[k].tick, k as u128));
            assert(msgs[k] == placed@[k].timed());
        }
        assert forall|x: int, y: int| 0 <= x < y < order@.len() implies (#[trigger] order@[x]).0 < (
        #[trigger] order@[y]).0 || (order@[x].0 == order@[y].0 && order@[x].1 < order@[y].1) by {
            assert(pair_le(order@[x], order@[y]));
            assert(order@[x] != order@[y]);
        }
        assert forall|k: int| 0 <= k < msgs.len() implies #[trigger] has_entry(order@, k) by {
            assert(given.contains(given[k]));
            vstd::seq_lib::to_multiset_contains(order@, given[k]);
            vstd::seq_lib::to_multiset_contains(given, given[k]);
            assert(order@.contains(given[k]));
            let x = choose|x: int| 0 <= x < order@.len() && order@[x] == given[k];
            assert(order@[x].1 == k);
        }
    }
    order
}

/// Leaving out messages that do not fall on tick `t` changes nothing.
proof fn lemma_play_tick_skip(held: Seq<Map<u8, u8>>, msgs: Seq<Timed>, t: int, a: int, b: int)
    requires
        0 <= a <= b <= msgs.len(),
        forall|m: int| a <= m < b ==> (#[trigger] msgs[m]).tick != t,
    ensures
        play_tick(held, msgs, t, b) == play_tick(held, msgs, t, a),
    decreases b - a,
{
    if a < b {
        lemma_play_tick_skip(held, msgs, t, a, b - 1);
    }
}

/// Every message that falls on tick `t` has its entry within the stretch of the
/// order that holds the entries of tick `t`.
proof fn lemma_tick_entries(order: Seq<(u128, u128)>, msgs: Seq<Timed>, b: int, e: int, t: int, m: int)
    requires
        is_play_order(order, msgs),
        0 <= b <= e <= order.len(),
        forall|x: int| b <= x < e ==> (#[trigger] order[x]).0 == t,
        b == 0 || order[b - 1].0 < t,
        e == order.len() || order[e].0 > t,
        0 <= m < msgs.len(),
        msgs[m].tick == t,
    ensures
        exists|y: int| b <= y < e && (#[trigger] order[y]).1 == m,
{
    assert(has_entry(order, m));
    let y = choose|y: int| 0 <= y < order.len() && (#[trigger] order[y]).1 == m;
    assert(order[y].0 == t);
    if y < b {
        assert(order[y].0 < order[b - 1].0 || y == b - 1);
    }
    if y >= e {
        assert(order[e].0 < order[y].0 || y == e);
    }
}

/// Plays one message for one voice.
fn strike(held: &mut Vec<HashMap<u8, u8>>, voice: usize, message: MidiMessage)
    requires
        voice < old(held)@.len(),
    ensures
        final(held)@.len() == old(held)@.len(),
        held_view(final(held)@) == play(held_view(old(held)@), voice as int, message),
{
    broadcast use vstd::std_specs::hash::group_hash_axioms;

    match message {
        MidiMessage::NoteOn { key, vel } => {
            if vel > 0 {
                held[voice].insert(key, vel);
            } else {
                held[voice].remove(&key);
            }
        },
        MidiMessage::NoteOff { key, vel } => {
            held[voice].remove(&key);
        },
        MidiMessage::Other => {},
    }
    assert(held_view(held@) =~= play(held_view(old(held)@), voice as int, message));
}

/// Plays the messages of one tick: the entries `from..to` of the order.
fn play_entries(
    held: &mut Vec<HashMap<u8, u8>>,
    placed: &Vec<Placed>,
    voices: &Vec<usize>,
    order: &Vec<(u128, u128)>,
    from: usize,
    to: usize,
)
    requires
        is_play_order(order@, views(placed@)),
        voices@.len() == placed@.len(),
        forall|k: int| 0 <= k < placed@.len() ==> #[trigger] voices@[k] == voice_of(views(placed@), placed@[k].timed()),
        forall|k: int| 0 <= k < placed@.len() ==> #[trigger] voices@[k] < old(held)@.len(),
        from < to <= order@.len(),
        forall|x: int| from <= x < to ==> (#[trigger] order@[x]).0 == order@[from as int].0,
        from == 0 || order@[from - 1].0 < order@[from as int].0,
        to == order@.len() || order@[to as int].0 > order@[from as int].0,
    ensures
        final(held)@.len() == old(held)@.len(),
        held_view(final(held)@) == play_tick(
            held_view(old(held)@),
            views(placed@),
            order@[from as int].0 as int,
            placed@.len() as int,
        ),
{
    let ghost msgs = views(placed@);
    let ghost t = order@[from as int].0 as int;
    let ghost start = held_view(held@);
    let ghost count = held@.len();
    let total = placed.len();
    let mut x: usize = from;
    proof {
        assert forall|m: int| 0 <= m < order@[from as int].1 implies (#[trigger] msgs[m]).tick != t by {
            if msgs[m].tick == t {
                lemma_tick_entries(order@, msgs, from as int, to as int, t, m);
                let y = choose|y: int| from <= y < to && (#[trigger] order@[y]).1 == m;
                assert(y == from || order@[from as int].1 < order@[y].1);
            }
        }
        lemma_play_tick_skip(start, msgs, t, 0, order@[from as int].1 as int);
    }
    while x < to
        invariant
            from <= x <= to <= order@.len(),
            total == placed@.len(),
            msgs == views(placed@),
            t == order@[from as int].0,
            is_play_order(order@, msgs),
            voices@.len() == placed@.len(),
            held@.len() == count,
            forall|k: int| 0 <= k < placed@.len() ==> #[trigger] voices@[k] == voice_of(msgs, placed@[k].timed()),
            forall|k: int| 0 <= k < placed@.len() ==> #[trigger] voices@[k] < count,
            forall|y: int| from <= y < to ==> (#[trigger] order@[y]).0 == t,
            from == 0 || order@[from - 1].0 < t,
            to == order@.len() || order@[to as int].0 > t,
            held_view(held@) == play_tick(
                start,
                msgs,
                t,
                if x < to {
                    order@[x as int].1 as int
                } else {
                    msgs.len() as int
                },
            ),
        decreases to - x,
    {
        let k = order[x].1 as usize;
        let ghost before = held_view(held@);
        assert(msgs[k as int] == placed@[k as int].timed());
        strike(held, voices[k], placed[k].message);
        proof {
            assert(held_view(held@) == play_tick(start, msgs, t, k + 1));
            let next = if x + 1 < to {
                order@[x + 1].1 as int
            } else {
                msgs.len() as int
            };
            assert(k < next);
            assert forall|m: int| k + 1 <= m < next implies (#[trigger] msgs[m]).tick != t by {
                if msgs[m].tick == t {
                    lemma_tick_entries(order@, msgs, from as int, to as int, t, m);
                    let y = choose|y: int| from <= y < to && (#[trigger] order@[y]).1 == m;
                    assert(y == x || order@[y].1 < order@[x as int].1 || order@[x as int].1
                        < order@[y].1);
                    if y > x {
                        assert(y == x + 1 || order@[x + 1].1 < order@[y].1);
                    }
                }
            }
            lemma_play_tick_skip(start, msgs, t, k + 1, next);
        }
        x += 1;
    }
}

/// Whether the entry after `x` falls on the same tick as entry `x` or on the next.
spec fn adjoins(order: Seq<(u128, u128)>, x: int) -> bool {
    order[x + 1].0 <= order[x].0 + 1
}

/// Whether the entries `first..=last` of the order are one whole run of ticks:
/// each falls at most one tick after the one before, and the entries around
/// them are further away.
spec fn is_run(order: Seq<(u128, u128)>, first: int, last: int) -> bool {
    &&& 0 <= first <= last < order.len()
    &&& forall|x: int| first <= x < last ==> #[trigger] adjoins(order, x)
    &&& first == 0 || order[first - 1].0 + 1 < order[first].0
    &&& last + 1 == order.len() || order[last + 1].0 > order[last].0 + 1
}

/// No message falls on a tick before a run that is not a tick of an earlier run.
proof fn lemma_nothing_before(order: Seq<(u128, u128)>, msgs: Seq<Timed>, first: int, t: int)
    requires
        is_play_order(order, msgs),
        0 <= first < order.len(),
        first == 0 || order[first - 1].0 < t,
        t < order[first].0,
    ensures
        forall|m: int| 0 <= m < msgs.len() ==> (#[trigger] msgs[m]).tick != t,
{
    assert forall|m: int| 0 <= m < msgs.len() implies (#[trigger] msgs[m]).tick != t by {
        if msgs[m].tick == t {
            assert(has_entry(order, m));
            let y = choose|y: int| 0 <= y < order.len() && (#[trigger] order[y]).1 == m;
            if y < first {
                assert(y == first - 1 || order[y].0 <= order[first - 1].0);
            } else {
                assert(y == first || order[first].0 <= order[y].0);
            }
        }
    }
}

/// No message falls on a tick after the last entry's.
proof fn lemma_nothing_after(order: Seq<(u128, u128)>, msgs: Seq<Timed>, last: int, t: int)
    requires
        is_play_order(order, msgs),
        0 <= last < order.len(),
        order[last].0 < t,
        last + 1 == order.len() || t < order[last + 1].0,
    ensures
        forall|m: int| 0 <= m < msgs.len() ==> (#[trigger] msgs[m]).tick != t,
{
    assert forall|m: int| 0 <= m < msgs.len() implies (#[trigger] msgs[m]).tick != t by {
        if msgs[m].tick == t {
            assert(has_entry(order, m));
            let y = choose|y: int| 0 <= y < order.len() && (#[trigger] order[y]).1 == m;
            if y <= last {
                assert(y == last || order[y].0 <= order[last].0);
            } else {
                assert(y == last + 1 || order[last + 1].0 <= order[y].0);
            }
        }
    }
}

/// Every tick from the first of a run to its last is the tick of one of its entries.
proof fn lemma_run_covers(order: Seq<(u128, u128)>, first: int, last: int, t: int)
    requires
        0 <= first <= last < order.len(),
        forall|x: int| first <= x < last ==> #[trigger] adjoins(order, x),
        forall|x: int, y: int|
            0 <= x < y < order.len() ==> (#[trigger] order[x]).0 <= (#[trigger] order[y]).0,
        order[first].0 <= t <= order[last].0,
    ensures
        exists|x: int| first <= x <= last && (#[trigger] order[x]).0 == t,
    decreases last - first,
{
    if order[last].0 != t {
        if first == last {
        } else {
            assert(adjoins(order, last - 1));
            lemma_run_covers(order, first, last - 1, t);
        }
    }
}

/// Plays one run of ticks: the entries `first..=last` of the order, from the
/// latest tick back to the earliest.
fn play_stretch(
    held: &mut Vec<HashMap<u8, u8>>,
    placed: &Vec<Placed>,
    voices: &Vec<usize>,
    order: &Vec<(u128, u128)>,
    first: usize,
    last: usize,
)
    requires
        is_play_order(order@, views(placed@)),
        voices@.len() == placed@.len(),
        forall|k: int| 0 <= k < placed@.len() ==> #[trigger] voices@[k] == voice_of(views(placed@), placed@[k].timed()),
        forall|k: int| 0 <= k < placed@.len() ==> #[trigger] voices@[k] < old(held)@.len(),
        is_run(order@, first as int, last as int),
    ensures
        final(held)@.len() == old(held)@.len(),
        held_view(final(held)@) == play_run(
            held_view(old(held)@),
            views(placed@),
            order@[last as int].0 as int,
        ),
{
    let ghost msgs = views(placed@);
    let ghost start = held_view(held@);
    let ghost count = held@.len();
    let ghost end = order@[last as int].0 as int;
    let n = order.len();
    let mut e: usize = last + 1;
    while e > first
        invariant
            first <= e <= last + 1,
            msgs == views(placed@),
            is_play_order(order@, msgs),
            voices@.len() == placed@.len(),
            held@.len() == count,
            forall|k: int| 0 <= k < placed@.len() ==> #[trigger] voices@[k] == voice_of(msgs, placed@[k].timed()),
            forall|k: int| 0 <= k < placed@.len() ==> #[trigger] voices@[k] < count,
            is_run(order@, first as int, last as int),
            end == order@[last as int].0,
            first < e <= last ==> order@[e as int].0 == order@[e - 1].0 + 1,
            play_run(start, msgs, end) == if e > first {
                play_run(held_view(held@), msgs, order@[e - 1].0 as int)
            } else {
                held_view(held@)
            },
        decreases e,
    {
        let tick = order[e - 1].0;
        let mut b: usize = e - 1;
        while b > first && order[b - 1].0 == tick
            invariant
                first <= b < e <= order@.len(),
                forall|x: int| b <= x < e ==> (#[trigger] order@[x]).0 == tick,
            decreases b,
        {
            b -= 1;
        }
        let ghost before = held_view(held@);
        proof {
            if b > first {
                assert(order@[b - 1].0 < order@[b as int].0 || order@[b - 1].1 < order@[b as int].1);
            }
        }
        play_entries(held, placed, voices, order, b, e);
        proof {
            let t = tick as int;
            assert(held_view(held@) == play_tick(before, msgs, t, msgs.len() as int));
            let now = held_view(held@);
            if b > first {
                assert(adjoins(order@, b - 1));
                assert(order@[b - 1].0 == t - 1);
                assert(msgs[order@[b - 1].1 as int].tick == t - 1);
                assert(is_tick(msgs, t - 1));
                assert(play_run(before, msgs, t) == play_run(now, msgs, t - 1));
            } else {
                lemma_nothing_before(order@, msgs, first as int, t - 1);
                if t > 0 && is_tick(msgs, t - 1) {
                    assert(t == 1);
                    lemma_play_tick_skip(now, msgs, 0, 0, msgs.len() as int);
                    assert(play_run(now, msgs, 0) == play_tick(now, msgs, 0, msgs.len() as int));
                    assert(play_run(before, msgs, t) == play_run(now, msgs, 0));
                }
                assert(play_run(before, msgs, t) == now);
            }
        }
        e = b;
    }
}

/// Nothing changes over ticks none of which ends a run.
proof fn lemma_quiet(msgs: Seq<Timed>, a: int, b: int)
    requires
        -1 <= a <= b,
        forall|t: int| a < t <= b ==> !#[trigger] closes(msgs, t),
    ensures
        held_at(msgs, b) == held_at(msgs, a),
        slice_ticks(msgs, b) == slice_ticks(msgs, a),
    decreases b - a,
{
    if a < b {
        assert(!closes(msgs, b));
        lemma_quiet(msgs, a, b - 1);
    }
}

/// The last tick is at or after every message, and is the tick of some message
/// unless it is tick 0.
proof fn lemma_last_tick(msgs: Seq<Timed>)
    ensures
        0 <= last_tick(msgs),
        forall|m: int| 0 <= m < msgs.len() ==> (#[trigger] msgs[m]).tick <= last_tick(msgs),
        last_tick(msgs) == 0 || exists|m: int|
            0 <= m < msgs.len() && (#[trigger] msgs[m]).tick == last_tick(msgs),
    decreases msgs.len(),
{
    if msgs.len() > 0 {
        let rest = msgs.drop_last();
        lemma_last_tick(rest);
        assert forall|m: int| 0 <= m < msgs.len() implies (#[trigger] msgs[m]).tick <= last_tick(
            msgs,
        ) by {
            if m < rest.len() {
                assert(rest[m].tick <= last_tick(rest));
            }
        }
        if last_tick(msgs) != 0 {
            if msgs.last().tick > last_tick(rest) {
                assert(msgs[msgs.len() - 1].tick == last_tick(msgs));
            } else {
                let m = choose|m: int| 0 <= m < rest.len() && (#[trigger] rest[m]).tick == last_tick(rest);
                assert(msgs[m].tick == last_tick(msgs));
            }
        }
    }
}

spec fn slice_views(slices: Seq<TimeSlice>) -> Seq<Seq<Map<u8, u8>>> {
    Seq::new(slices.len(), |i: int| slices[i]@)
}

impl Song {
    /// Builds the song of a MIDI file. A voice is a pair of track and channel that
    /// occurs in the file. There is one slice for every tick at which something
    /// happens, ticks one apart counted as one, and a slice at tick 0 in any case.
    pub fn from_smf(smf: &Smf) -> (song: Song)
        ensures
            song.voices == voice_keys(messages(smf@)).len(),
            song@ == slices_of(messages(smf@)),
            song.slices@.len() >= 1,
            forall|i: int|
                0 <= i < song.slices@.len() ==> (#[trigger] song.slices@[i]).notes_by_voice@.len()
                    == song.voices,
    {
        let placed = place_messages(smf);
        let ghost msgs = views(placed@);
        let keys = voice_table(&placed);
        let voices = voice_indices(&placed, &keys);
        let order = play_order(&placed);
        let n = order.len();
        let count = keys.len();
        let mut held: Vec<HashMap<u8, u8>> = Vec::new();
        while held.len() < count
            invariant
                held@.len() <= count,
                forall|v: int| 0 <= v < held@.len() ==> (#[trigger] held@[v])@ == Map::<u8, u8>::empty(),
            decreases count - held@.len(),
        {
            held.push(HashMap::new());
        }
        assert(held_view(held@) =~= silence(voice_keys(msgs).len()));
        let mut slices: Vec<TimeSlice> = Vec::new();
        let ghost mut done: int = -1;
        if n == 0 || order[0].0 > 1 {
            let slice = TimeSlice { notes_by_voice: held.clone() };
            assert(slice@ =~= held_view(held@));
            slices.push(slice);
            proof {
                done = 0;
                if n > 0 {
                    lemma_nothing_before(order@, msgs, 0, 0);
                    lemma_nothing_before(order@, msgs, 0, 1);
                }
                assert(closes(msgs, 0));
                let quiet = held_view(held@);
                lemma_play_tick_skip(quiet, msgs, 0, 0, msgs.len() as int);
                assert(held_at(msgs, -1) == quiet);
                assert(play_run(quiet, msgs, 0) == play_tick(quiet, msgs, 0, msgs.len() as int));
                assert(held_at(msgs, 0) == play_run(held_at(msgs, -1), msgs, 0));
                assert(slice_ticks(msgs, -1) =~= Seq::<int>::empty());
                assert(slice_ticks(msgs, 0) =~= seq![0int]);
                assert(slice_views(slices@) =~= slices_upto(msgs, 0));
            }
        } else {
            assert(held_at(msgs, -1) == held_view(held@));
            assert(slice_ticks(msgs, -1) =~= Seq::<int>::empty());
            assert(slice_views(slices@) =~= slices_upto(msgs, -1));
        }
        let mut i: usize = 0;
        while i < n
            invariant
                i <= n == order@.len(),
                msgs == views(placed@),
                is_play_order(order@, msgs),
                forall|x: int| 0 <= x < order@.len() ==> (#[trigger] order@[x]).0 < 0x1_0000_0000_0000_0000_0000_0000,
                voices@.len() == placed@.len(),
                held@.len() == count,
                forall|k: int| 0 <= k < placed@.len() ==> #[trigger] voices@[k] == voice_of(msgs, placed@[k].timed()),
                forall|k: int| 0 <= k < placed@.len() ==> #[trigger] voices@[k] < count,
                -1 <= done,
                done == -1 ==> i == 0 && n > 0 && order@[0].0 <= 1,
                i > 0 ==> done == order@[i - 1].0,
                i == 0 && done != -1 ==> done == 0 && (n == 0 || order@[0].0 > 1),
                0 < i < n ==> order@[i - 1].0 + 1 < order@[i as int].0,
                held_view(held@) == held_at(msgs, done),
                slice_views(slices@) == slices_upto(msgs, done),
            decreases n - i,
        {
            let mut j: usize = i;
            while j + 1 < n && order[j + 1].0 <= order[j].0 + 1
                invariant
                    i <= j < n == order@.len(),
                    forall|x: int| 0 <= x < order@.len() ==> (#[trigger] order@[x]).0 < 0x1_0000_0000_0000_0000_0000_0000,
                    forall|x: int| i <= x < j ==> #[trigger] adjoins(order@, x),
                decreases n - j,
            {
                assert(adjoins(order@, j as int));
                j += 1;
            }
            assert(is_run(order@, i as int, j as int));
            let ghost earlier = held_view(held@);
            let ghost earlier_slices = slice_views(slices@);
            play_stretch(&mut held, &placed, &voices, &order, i, j);
            let slice = TimeSlice { notes_by_voice: held.clone() };
            assert(slice@ =~= held_view(held@));
            slices.push(slice);
            proof {
                let from = order@[i as int].0 as int;
                let end = order@[j as int].0 as int;
                assert(msgs[order@[j as int].1 as int].tick == end);
                assert(is_tick(msgs, end));
                lemma_nothing_after(order@, msgs, j as int, end + 1);
                assert(closes(msgs, end));
                assert(from <= end) by {
                    assert(i == j || order@[i as int].0 <= order@[j as int].0);
                }
                assert forall|t: int| done < t <= end - 1 implies !#[trigger] closes(msgs, t) by {
                    if t >= from {
                        assert forall|x: int, y: int| 0 <= x < y < order@.len() implies (
                        #[trigger] order@[x]).0 <= (#[trigger] order@[y]).0 by {}
                        lemma_run_covers(order@, i as int, j as int, t + 1);
                        let x = choose|x: int| i <= x <= j && (#[trigger] order@[x]).0 == t + 1;
                        assert(msgs[order@[x].1 as int].tick == t + 1);
                        assert(is_tick(msgs, t + 1));
                    } else {
                        if t == 0 {
                            assert(from == 1);
                            assert(msgs[order@[i as int].1 as int].tick == 1);
                            assert(is_tick(msgs, 1));
                        } else {
                            lemma_nothing_before(order@, msgs, i as int, t);
                        }
                    }
                }
                lemma_quiet(msgs, done, end - 1);
                assert(held_at(msgs, end) == play_run(held_at(msgs, end - 1), msgs, end));
                assert(held_at(msgs, end) == held_view(held@));
                assert(slice_ticks(msgs, end) == slice_ticks(msgs, done).push(end));
                assert(slice_views(slices@) =~= earlier_slices.push(slice@));
                assert(slices_upto(msgs, end) =~= slices_upto(msgs, done).push(held_at(msgs, end)));
                done = end;
            }
            i = j + 1;
        }
        proof {
            lemma_last_tick(msgs);
            if n > 0 {
                let top = order@[n - 1].0 as int;
                assert(msgs[order@[n - 1].1 as int].tick == top);
                assert(top <= last_tick(msgs));
                assert(done == top);
                if last_tick(msgs) != 0 {
                    let m = choose|m: int| 0 <= m < msgs.len() && (#[trigger] msgs[m]).tick == last_tick(msgs);
                    assert(has_entry(order@, m));
                    let y = choose|y: int| 0 <= y < order@.len() && (#[trigger] order@[y]).1 == m;
                    assert(y == n - 1 || order@[y].0 <= order@[n - 1].0);
                }
            }
            assert(done == last_tick(msgs));
        }
        let song = Song { voices: count, slices };
        proof {
            assert(song@ =~= slice_views(song.slices@));
            lemma_slices_follow_time(msgs);
            lemma_slice_ticks(msgs, done);
            assert forall|i: int| 0 <= i < song.slices@.len() implies (#[trigger] song.slices@[i]).notes_by_voice@.len()
                == song.voices by {
                lemma_held_len(msgs, slice_ticks(msgs, done)[i]);
                assert(song@[i] == held_at(msgs, slice_ticks(msgs, done)[i]));
                assert(song@[i].len() == song.slices@[i].notes_by_voice@.len());
            }
        }
        song
    }
}

/// What is known of the ticks up to `t` that give a slice: each ends a run of
/// ticks and none that does is missing, they ascend, and up to the first of them
/// something happens at every tick.
proof fn lemma_slice_ticks(msgs: Seq<Timed>, t: int)
    requires
        -1 <= t,
    ensures
        forall|i: int|
            0 <= i < slice_ticks(msgs, t).len() ==> 0 <= (#[trigger] slice_ticks(msgs, t)[i]) <= t
                && closes(msgs, slice_ticks(msgs, t)[i]),
        forall|i: int, j: int|
            0 <= i < j < slice_ticks(msgs, t).len() ==> (#[trigger] slice_ticks(msgs, t)[i]) < (
            #[trigger] slice_ticks(msgs, t)[j]),
        forall|u: int| 0 <= u <= t && #[trigger] closes(msgs, u) ==> slice_ticks(msgs, t).contains(u),
        slice_ticks(msgs, t).len() > 0 ==> forall|u: int|
            0 <= u <= slice_ticks(msgs, t)[0] ==> #[trigger] is_tick(msgs, u),
        slice_ticks(msgs, t).len() == 0 ==> forall|u: int| 0 <= u <= t + 1 ==> #[trigger] is_tick(msgs, u),
    decreases t + 1,
{
    if t >= 0 {
        lemma_slice_ticks(msgs, t - 1);
        let before = slice_ticks(msgs, t - 1);
        let now = slice_ticks(msgs, t);
        if closes(msgs, t) {
            assert(now == before.push(t));
            assert forall|u: int| 0 <= u <= t && #[trigger] closes(msgs, u) implies now.contains(u) by {
                if u < t {
                    assert(before.contains(u));
                    let i = choose|i: int| 0 <= i < before.len() && before[i] == u;
                    assert(now[i] == u);
                } else {
                    assert(now[before.len() as int] == t);
                }
            }
            if before.len() > 0 {
                assert(now[0] == before[0]);
            }
        } else {
            assert(now == before);
            if now.len() == 0 {
                assert(is_tick(msgs, t));
                assert(is_tick(msgs, t + 1));
            }
        }
    }
}

/// A song has a slice at its start, and its slices follow one another in time:
/// there is at least one slice; the ticks that the slices stand for ascend, each
/// ending a run of ticks; and the first slice stands for tick 0 together with
/// the ticks that follow tick 0 without a gap, so for tick 0 alone where nothing
/// happens at tick 1.
pub proof fn lemma_slices_follow_time(msgs: Seq<Timed>)
    ensures
        slices_of(msgs).len() == slice_ticks(msgs, last_tick(msgs)).len(),
        slices_of(msgs).len() >= 1,
        forall|i: int, j: int|
            0 <= i < j < slices_of(msgs).len() ==> (#[trigger] slice_ticks(msgs, last_tick(msgs))[i]) < (
            #[trigger] slice_ticks(msgs, last_tick(msgs))[j]),
        forall|i: int|
            0 <= i < slices_of(msgs).len() ==> closes(msgs, #[trigger] slice_ticks(msgs, last_tick(msgs))[i]),
        forall|u: int|
            0 <= u <= slice_ticks(msgs, last_tick(msgs))[0] ==> #[trigger] is_tick(msgs, u),
        !is_tick(msgs, 1) ==> slice_ticks(msgs, last_tick(msgs))[0] == 0,
{
    let last = last_tick(msgs);
    lemma_last_tick(msgs);
    lemma_slice_ticks(msgs, last);
    assert(is_tick(msgs, last));
    assert(!is_tick(msgs, last + 1)) by {
        if is_tick(msgs, last + 1) {
            let m = choose|m: int| 0 <= m < msgs.len() && (#[trigger] msgs[m]).tick == last + 1;
            assert(msgs[m].tick <= last);
        }
    }
    assert(closes(msgs, last));
    assert(slice_ticks(msgs, last).contains(last));
    let first = slice_ticks(msgs, last)[0];
    if !is_tick(msgs, 1) && first != 0 {
        assert(is_tick(msgs, 1));
    }
}

/// Every message belongs to a voice of the song.
pub proof fn lemma_voices_listed(msgs: Seq<Timed>)
    ensures
        enumerates(voice_keys(msgs), voice_key_set(msgs), pair_lt()),
        forall|m: int|
            0 <= m < msgs.len() ==> 0 <= voice_of(msgs, #[trigger] msgs[m]) < voice_keys(msgs).len(),
{
    let keys = Seq::new(msgs.len(), |i: int| voice_key(msgs[i]));
    let set = Set::new(|k: (int, int)| keys.contains(k));
    assert forall|k: (int, int)| set.contains(k) <==> voice_key_set(msgs).contains(k) by {
        if keys.contains(k) {
            let i = choose|i: int| 0 <= i < keys.len() && keys[i] == k;
            assert(voice_key(msgs[i]) == k);
        }
        if voice_key_set(msgs).contains(k) {
            let i = choose|i: int| 0 <= i < msgs.len() && voice_key(#[trigger] msgs[i]) == k;
            assert(keys[i] == k);
        }
    }
    assert(set =~= voice_key_set(msgs));
    lemma_integer_orders();
    lemma_listing_exists(keys, pair_lt());
    assert forall|m: int| 0 <= m < msgs.len() implies 0 <= voice_of(msgs, #[trigger] msgs[m])
        < voice_keys(msgs).len() by {
        assert(voice_key_set(msgs).contains(voice_key(msgs[m])));
        assert(voice_keys(msgs).contains(voice_key(msgs[m])));
    }
}

/// Whether message `m` lifts the key for voice `v`: a note-off, or a note-on with
/// velocity zero.
pub open spec fn is_lift(msgs: Seq<Timed>, m: int, v: int, key: u8) -> bool {
    &&& 0 <= m < msgs.len()
    &&& voice_of(msgs, msgs[m]) == v
    &&& match msgs[m].message {
        MidiMessage::NoteOff { key: k, vel } => k == key,
        MidiMessage::NoteOn { key: k, vel } => k == key && vel == 0,
        MidiMessage::Other => false,
    }
}

/// Whether message `m` strikes the key for voice `v`: a note-on with a velocity
/// above zero.
pub open spec fn is_strike(msgs: Seq<Timed>, m: int, v: int, key: u8) -> bool {
    &&& 0 <= m < msgs.len()
    &&& voice_of(msgs, msgs[m]) == v
    &&& match msgs[m].message {
        MidiMessage::NoteOn { key: k, vel } => k == key && vel > 0,
        _ => false,
    }
}

/// Whether a message at a tick from `from` to `to` lifts the key for voice `v`.
pub open spec fn lifted_within(msgs: Seq<Timed>, from: int, to: int, v: int, key: u8) -> bool {
    exists|m: int| #[trigger] is_lift(msgs, m, v, key) && from <= msgs[m].tick <= to
}

/// Whether a message at a tick from `from` to `to` strikes the key for voice `v`.
pub open spec fn struck_within(msgs: Seq<Timed>, from: int, to: int, v: int, key: u8) -> bool {
    exists|m: int| #[trigger] is_strike(msgs, m, v, key) && from <= msgs[m].tick <= to
}

/// The earliest tick of the run of ticks that ends at `t`.
pub open spec fn run_start(msgs: Seq<Timed>, t: int) -> int
    decreases t,
{
    if t > 0 && is_tick(msgs, t - 1) {
        run_start(msgs, t - 1)
    } else {
        t
    }
}

/// A key that the messages of one tick take from a voice was lifted by one of
/// them, and a key that they give to a voice was struck by one of them.
proof fn lemma_tick_balance(held: Seq<Map<u8, u8>>, msgs: Seq<Timed>, t: int, n: int, v: int, key: u8)
    requires
        0 <= n <= msgs.len(),
        0 <= v < held.len(),
        forall|m: int| 0 <= m < msgs.len() ==> 0 <= voice_of(msgs, #[trigger] msgs[m]) < held.len(),
    ensures
        play_tick(held, msgs, t, n).len() == held.len(),
        held[v].contains_key(key) && !play_tick(held, msgs, t, n)[v].contains_key(key)
            ==> lifted_within(msgs, t, t, v, key),
        !held[v].contains_key(key) && play_tick(held, msgs, t, n)[v].contains_key(key)
            ==> struck_within(msgs, t, t, v, key),
    decreases n,
{
    if n > 0 {
        lemma_tick_balance(held, msgs, t, n - 1, v, key);
        let before = play_tick(held, msgs, t, n - 1);
        let after = play_tick(held, msgs, t, n);
        if msgs[n - 1].tick == t {
            let voice = voice_of(msgs, msgs[n - 1]);
            assert(0 <= voice < before.len());
            if before[v].contains_key(key) && !after[v].contains_key(key) {
                assert(is_lift(msgs, n - 1, v, key));
            }
            if !before[v].contains_key(key) && after[v].contains_key(key) {
                assert(is_strike(msgs, n - 1, v, key));
            }
        }
    }
}

/// A key that a run of ticks takes from a voice was lifted at a tick of the run,
/// and a key that it gives to a voice was struck at a tick of the run.
proof fn lemma_run_balance(held: Seq<Map<u8, u8>>, msgs: Seq<Timed>, t: int, v: int, key: u8)
    requires
        0 <= t,
        0 <= v < held.len(),
        forall|m: int| 0 <= m < msgs.len() ==> 0 <= voice_of(msgs, #[trigger] msgs[m]) < held.len(),
    ensures
        play_run(held, msgs, t).len() == held.len(),
        held[v].contains_key(key) && !play_run(held, msgs, t)[v].contains_key(key) ==> lifted_within(
            msgs,
            run_start(msgs, t),
            t,
            v,
            key,
        ),
        !held[v].contains_key(key) && play_run(held, msgs, t)[v].contains_key(key) ==> struck_within(
            msgs,
            run_start(msgs, t),
            t,
            v,
            key,
        ),
        run_start(msgs, t) <= t,
    decreases t,
{
    lemma_tick_balance(held, msgs, t, msgs.len() as int, v, key);
    let now = play_tick(held, msgs, t, msgs.len() as int);
    if t > 0 && is_tick(msgs, t - 1) {
        lemma_run_balance(now, msgs, t - 1, v, key);
        let end = play_run(now, msgs, t - 1);
        let from = run_start(msgs, t);
        if lifted_within(msgs, t, t, v, key) {
            let m = choose|m: int| #[trigger] is_lift(msgs, m, v, key) && t <= msgs[m].tick <= t;
            assert(is_lift(msgs, m, v, key) && from <= msgs[m].tick <= t);
        }
        if lifted_within(msgs, from, t - 1, v, key) {
            let m = choose|m: int| #[trigger] is_lift(msgs, m, v, key) && from <= msgs[m].tick <= t - 1;
            assert(is_lift(msgs, m, v, key) && from <= msgs[m].tick <= t);
        }
        if struck_within(msgs, t, t, v, key) {
            let m = choose|m: int| #[trigger] is_strike(msgs, m, v, key) && t <= msgs[m].tick <= t;
            assert(is_strike(msgs, m, v, key) && from <= msgs[m].tick <= t);
        }
        if struck_within(msgs, from, t - 1, v, key) {
            let m = choose|m: int| #[trigger] is_strike(msgs, m, v, key) && from <= msgs[m].tick <= t - 1;
            assert(is_strike(msgs, m, v, key) && from <= msgs[m].tick <= t);
        }
    }
}

/// A run of ticks starts after every earlier tick that ends a run.
proof fn lemma_run_start_above(msgs: Seq<Timed>, t: int, u: int)
    requires
        u < t,
        !is_tick(msgs, u + 1),
        is_tick(msgs, t),
    ensures
        run_start(msgs, t) > u + 1,
    decreases t,
{
    if t > 0 && is_tick(msgs, t - 1) {
        lemma_run_start_above(msgs, t - 1, u);
    }
}

/// The voices hold as many maps as there are voices, at every tick.
proof fn lemma_held_len(msgs: Seq<Timed>, t: int)
    requires
        -1 <= t,
    ensures
        held_at(msgs, t).len() == voice_keys(msgs).len(),
    decreases t + 1,
{
    if t >= 0 {
        lemma_held_len(msgs, t - 1);
        lemma_voices_listed(msgs);
        if closes(msgs, t) {
            if voice_keys(msgs).len() > 0 {
                lemma_run_balance(held_at(msgs, t - 1), msgs, t, 0, 0);
            } else {
                if msgs.len() > 0 {
                    let first = msgs[0];
                    assert(0 <= voice_of(msgs, first) < voice_keys(msgs).len());
                }
                lemma_run_len_without_voices(held_at(msgs, t - 1), msgs, t);
            }
        }
    }
}

/// Where a song has no voice it has no message, and nothing is ever played.
proof fn lemma_run_len_without_voices(held: Seq<Map<u8, u8>>, msgs: Seq<Timed>, t: int)
    requires
        0 <= t,
        msgs.len() > 0 ==> 0 <= voice_of(msgs, msgs[0]) < 0,
    ensures
        play_run(held, msgs, t) == held,
    decreases t,
{
    assert(msgs.len() == 0);
    assert(play_tick(held, msgs, t, 0) == held);
    if t > 0 && is_tick(msgs, t - 1) {
        lemma_run_len_without_voices(held, msgs, t - 1);
    }
}

/// Notes are in balance with the messages: from one slice to the next, a voice
/// loses a key only where a message in between lifts it (a note-off, or a
/// note-on with velocity zero, for that voice and key), and gains a key only
/// where a message in between strikes it. In between means after the tick of
/// the earlier slice and up to the tick of the later one.
pub proof fn lemma_note_balance(msgs: Seq<Timed>, i: int, v: int, key: u8)
    requires
        0 <= i,
        i + 1 < slices_of(msgs).len(),
        0 <= v < voice_keys(msgs).len(),
    ensures
        slices_of(msgs)[i].len() == voice_keys(msgs).len(),
        slices_of(msgs)[i + 1].len() == voice_keys(msgs).len(),
        slices_of(msgs)[i][v].contains_key(key) && !slices_of(msgs)[i + 1][v].contains_key(key)
            ==> lifted_within(
            msgs,
            slice_ticks(msgs, last_tick(msgs))[i] + 1,
            slice_ticks(msgs, last_tick(msgs))[i + 1],
            v,
            key,
        ),
        !slices_of(msgs)[i][v].contains_key(key) && slices_of(msgs)[i + 1][v].contains_key(key)
            ==> struck_within(
            msgs,
            slice_ticks(msgs, last_tick(msgs))[i] + 1,
            slice_ticks(msgs, last_tick(msgs))[i + 1],
            v,
            key,
        ),
{
    let last = last_tick(msgs);
    let ticks = slice_ticks(msgs, last);
    lemma_last_tick(msgs);
    lemma_slice_ticks(msgs, last);
    lemma_voices_listed(msgs);
    let u = ticks[i];
    let q = ticks[i + 1];
    assert(u < q);
    assert(closes(msgs, u) && closes(msgs, q));
    lemma_held_len(msgs, u);
    lemma_held_len(msgs, q);
    assert forall|t: int| u < t <= q - 1 implies !#[trigger] closes(msgs, t) by {
        if closes(msgs, t) {
            assert(ticks.contains(t));
            let j = choose|j: int| 0 <= j < ticks.len() && ticks[j] == t;
            if j <= i {
                assert(j == i || ticks[j] < ticks[i]);
            } else {
                assert(j == i + 1 || ticks[i + 1] < ticks[j]);
            }
        }
    }
    lemma_quiet(msgs, u, q - 1);
    let before = held_at(msgs, u);
    assert(held_at(msgs, q) == play_run(before, msgs, q));
    lemma_run_balance(before, msgs, q, v, key);
    lemma_run_start_above(msgs, q, u);
    let from = run_start(msgs, q);
    if lifted_within(msgs, from, q, v, key) {
        let m = choose|m: int| #[trigger] is_lift(msgs, m, v, key) && from <= msgs[m].tick <= q;
        assert(is_lift(msgs, m, v, key) && u + 1 <= msgs[m].tick <= q);
    }
    if struck_within(msgs, from, q, v, key) {
        let m = choose|m: int| #[trigger] is_strike(msgs, m, v, key) && from <= msgs[m].tick <= q;
        assert(is_strike(msgs, m, v, key) && u + 1 <= msgs[m].tick <= q);
    }
}

/// The keys below `n` that a voice holds, in ascending order.
pub open spec fn keys_below(held: Map<u8, u8>, n: int) -> Seq<i32>
    decreases n,
{
    if n <= 0 {
        Seq::empty()
    } else if held.contains_key((n - 1) as u8) {
        keys_below(held, n - 1).push((n - 1) as i32)
    } else {
        keys_below(held, n - 1)
    }
}

/// The keys that the first `n` voices of a slice hold, voice by voice, leaving
/// out the voices that are not among `voices`.
pub open spec fn keys_of_voices(slice: Seq<Map<u8, u8>>, voices: Set<usize>, n: int) -> Seq<i32>
    decreases n,
{
    if n <= 0 {
        Seq::empty()
    } else if voices.contains((n - 1) as usize) {
        keys_of_voices(slice, voices, n - 1) + keys_below(slice[n - 1], 256)
    } else {
        keys_of_voices(slice, voices, n - 1)
    }
}

/// All voices of a song.
pub fn get_voices(song: &Song) -> (voices: HashSet<usize>)
    ensures
        forall|v: usize| voices@.contains(v) <==> v < song.voices,
{
    broadcast use vstd::std_specs::hash::group_hash_axioms;

    let mut voices: HashSet<usize> = HashSet::new();
    let mut v: usize = 0;
    while v < song.voices
        invariant
            v <= song.voices,
            forall|u: usize| voices@.contains(u) <==> u < v,
        decreases song.voices - v,
    {
        voices.insert(v);
        v += 1;
    }
    voices
}

/// The notes to start, or to stop, for a position of a song: the keys that the
/// given voices hold there. Nothing where the song has no such position.
pub fn song_index_notes(song: &Song, voices: &HashSet<usize>, song_index: usize) -> (notes: Vec<i32>)
    ensures
        notes@ == if song_index < song.slices@.len() {
            keys_of_voices(
                song.slices@[song_index as int]@,
                voices@,
                song.slices@[song_index as int].notes_by_voice@.len() as int,
            )
        } else {
            Seq::empty()
        },
{
    broadcast use vstd::std_specs::hash::group_hash_axioms;

    let mut notes: Vec<i32> = Vec::new();
    if song_index >= song.slices.len() {
        return notes;
    }
    let slice = &song.slices[song_index];
    let mut voice: usize = 0;
    while voice < slice.notes_by_voice.len()
        invariant
            voice <= slice.notes_by_voice@.len(),
            notes@ == keys_of_voices(slice@, voices@, voice as int),
        decreases slice.notes_by_voice@.len() - voice,
    {
        if voices.contains(&voice) {
            let held = &slice.notes_by_voice[voice];
            let ghost before = notes@;
            let mut key: u16 = 0;
            while key < 256
                invariant
                    key <= 256,
                    voice < slice.notes_by_voice@.len(),
                    *held == slice.notes_by_voice@[voice as int],
                    notes@ == before + keys_below(held@, key as int),
                decreases 256 - key,
            {
                let k = key as u8;
                if held.contains_key(&k) {
                    notes.push(key as i32);
                    assert(notes@ =~= before + keys_below(held@, key + 1));
                }
                key += 1;
            }
            assert(slice@[voice as int] == held@);
        }
        voice += 1;
    }
    notes
}

} // verus!
