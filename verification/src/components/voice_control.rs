//! The voices' mute and solo switches, and which voices sound as a result.

use crate::bits::{bit_set_of, members};
use bit_set::BitSet;
use vstd::prelude::*;

verus! {

/// The switches and the volume of one voice.
#[derive(Clone, Debug)]
pub struct VoiceState {
    pub name: String,
    pub mute: bool,
    pub solo: bool,
    /// The volume, from 0 to 100.
    pub volume: u32,
}

/// Flips a switch, and turns the other switch off where the first is now on:
/// a voice is not muted and solo at once.
pub fn toggle_and_disable(to_toggle: &mut bool, to_disable_if_other_active: &mut bool)
    ensures
        *final(to_toggle) == !*old(to_toggle),
        *final(to_disable_if_other_active) == (*old(to_disable_if_other_active) && *old(to_toggle)),
{
    *to_toggle = !*to_toggle;
    if *to_toggle {
        *to_disable_if_other_active = false;
    }
}

impl VoiceState {
    /// A voice that is neither muted nor solo, at volume 70.
    pub fn new(name: String) -> (state: VoiceState)
        ensures
            state.name == name,
            !state.mute,
            !state.solo,
            state.volume == 70,
    {
        VoiceState { name, mute: false, solo: false, volume: 70 }
    }

    /// Whether the voice is silent: it is muted, or another voice is solo and
    /// this one is not.
    pub open spec fn silent(&self, any_voice_solo: bool) -> bool {
        self.mute || (!self.solo && any_voice_solo)
    }

    /// Whether the voice is silent, given whether any voice is solo.
    pub fn mute_playback_signal(&self, any_voice_solo: bool) -> (r: bool)
        ensures
            r == self.silent(any_voice_solo),
    {
        self.mute || (!self.solo && any_voice_solo)
    }

    /// Flips the mute switch; muting a voice ends its solo.
    pub fn toggle_mute(&mut self)
        ensures
            final(self).mute == !old(self).mute,
            final(self).solo == (old(self).solo && old(self).mute),
            final(self).volume == old(self).volume,
            final(self).name == old(self).name,
    {
        toggle_and_disable(&mut self.mute, &mut self.solo);
    }

    /// Flips the solo switch; a solo voice is not muted.
    pub fn toggle_solo(&mut self)
        ensures
            final(self).solo == !old(self).solo,
            final(self).mute == (old(self).mute && old(self).solo),
            final(self).volume == old(self).volume,
            final(self).name == old(self).name,
    {
        toggle_and_disable(&mut self.solo, &mut self.mute);
    }
}

/// Whether any of the voices is solo.
pub open spec fn some_solo(states: Seq<VoiceState>) -> bool {
    exists|i: int| 0 <= i < states.len() && (#[trigger] states[i]).solo
}

/// Whether any of the voices is solo.
pub fn any_voice_solo(states: &Vec<VoiceState>) -> (r: bool)
    ensures
        r == some_solo(states@),
{
    let mut i: usize = 0;
    while i < states.len()
        invariant
            i <= states@.len(),
            forall|j: int| 0 <= j < i ==> !(#[trigger] states@[j]).solo,
        decreases states@.len() - i,
    {
        if states[i].solo {
            return true;
        }
        i += 1;
    }
    false
}

/// The voices that sound: those that are not silent.
pub fn active_voices(states: &Vec<VoiceState>) -> (active: BitSet)
    ensures
        forall|v: usize|
            members(active).contains(v) <==> v < states@.len() && !states@[v as int].silent(
                some_solo(states@),
            ),
{
    let any_solo = any_voice_solo(states);
    let mut voices: Vec<usize> = Vec::new();
    let mut i: usize = 0;
    while i < states.len()
        invariant
            i <= states@.len(),
            any_solo == some_solo(states@),
            forall|k: int| 0 <= k < voices@.len() ==> voices@[k] < i,
            forall|v: usize| voices@.contains(v) <==> v < i && !states@[v as int].silent(any_solo),
        decreases states@.len() - i,
    {
        if !states[i].mute_playback_signal(any_solo) {
            let ghost before = voices@;
            voices.push(i);
            proof {
                assert forall|v: usize| voices@.contains(v) <==> v < i + 1 && !states@[v as int].silent(
                    any_solo,
                ) by {
                    if voices@.contains(v) {
                        let k = choose|k: int| 0 <= k < voices@.len() && voices@[k] == v;
                        if k < before.len() {
                            assert(before.contains(v));
                        }
                    }
                    if v < i + 1 && !states@[v as int].silent(any_solo) {
                        if v < i {
                            assert(before.contains(v));
                            let k = choose|k: int| 0 <= k < before.len() && before[k] == v;
                            assert(voices@[k] == v);
                        } else {
                            assert(voices@[before.len() as int] == v);
                        }
                    }
                }
            }
        }
        i += 1;
    }
    bit_set_of(&voices)
}

/// How a voice is called.
#[derive(Clone, Copy, Debug, PartialEq, Eq, Structural)]
pub enum VoiceName {
    Tenor,
    Lead,
    Bari,
    Bass,
    /// "Voice 1", "Voice 2", and so on.
    Numbered(usize),
}

/// The name of a voice. The voices of a song in four parts are tenor, lead,
/// baritone and bass; the voices of any other song are numbered from one.
pub fn voice_name(num_voices: usize, voice: usize) -> (name: VoiceName)
    requires
        voice < num_voices,
    ensures
        name == if num_voices != 4 {
            VoiceName::Numbered((voice + 1) as usize)
        } else if voice == 0 {
            VoiceName::Tenor
        } else if voice == 1 {
            VoiceName::Lead
        } else if voice == 2 {
            VoiceName::Bari
        } else {
            VoiceName::Bass
        },
{
    if num_voices != 4 {
        VoiceName::Numbered(voice + 1)
    } else if voice == 0 {
        VoiceName::Tenor
    } else if voice == 1 {
        VoiceName::Lead
    } else if voice == 2 {
        VoiceName::Bari
    } else {
        VoiceName::Bass
    }
}

} // verus!
