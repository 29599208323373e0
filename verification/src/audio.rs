//! Sounds: their catalogue, what each is made of, the queue through which the game hands
//! them to the mixer, and the small generator behind their jitter.

use vstd::prelude::*;
use crate::num::Num;

verus! {

/// The catalogue of sounds.
#[derive(Clone, Copy, PartialEq, Eq, Structural, Debug)]
pub enum Sfx {
    /// A soldier's weapon.
    Shot,
    /// A tank's cannon.
    TankShot,
    /// The roar of a flamethrower.
    Flame,
    /// The death of a unit.
    Explosion,
    /// The death of a building.
    BigBoom,
    /// A building is up.
    Build,
    /// A unit is ready.
    Train,
    /// Someone is under attack.
    Alarm,
    /// A click of the interface.
    Select,
}

/// The pitch that a sound ends on: one of its own, in hertz, or a share of the one that it
/// began with, in hundredths.
#[derive(Clone, Copy, PartialEq, Eq, Structural, Debug)]
pub enum Fall {
    To(u32),
    Share(u32),
}

/// The shape of an oscillator's wave.
#[derive(Clone, Copy, PartialEq, Eq, Structural, Debug)]
pub enum Waveform {
    Sine,
    Square,
    Saw,
    Triangle,
}

/// What a sound is made of: the pitch in hertz and how much jitter adds to it, the pitch at
/// the end, the wave, the shares of noise and of full volume in hundredths, the decay in
/// tenths, the attack in thousandths and the length in hundredths of a second.
#[derive(Clone, Copy, PartialEq, Eq, Structural, Debug)]
pub struct Timbre {
    pub pitch: u32,
    pub jitter: u32,
    pub fall: Fall,
    pub wave: Waveform,
    pub noise: u32,
    pub volume: u32,
    pub decay: u32,
    pub attack: u32,
    pub length: u32,
}

/// What each sound is made of.
pub open spec fn made_of(s: Sfx) -> Timbre {
    match s {
        Sfx::Shot => Timbre {
            pitch: 680,
            jitter: 280,
            fall: Fall::Share(45),
            wave: Waveform::Square,
            noise: 6,
            volume: 16,
            decay: 400,
            attack: 3,
            length: 10,
        },
        Sfx::TankShot => Timbre {
            pitch: 150,
            jitter: 50,
            fall: Fall::To(52),
            wave: Waveform::Saw,
            noise: 50,
            volume: 34,
            decay: 130,
            attack: 2,
            length: 24,
        },
        Sfx::Flame => Timbre {
            pitch: 240,
            jitter: 90,
            fall: Fall::To(150),
            wave: Waveform::Sine,
            noise: 92,
            volume: 14,
            decay: 70,
            attack: 12,
            length: 20,
        },
        Sfx::Explosion => Timbre {
            pitch: 210,
            jitter: 90,
            fall: Fall::To(55),
            wave: Waveform::Sine,
            noise: 72,
            volume: 36,
            decay: 85,
            attack: 1,
            length: 42,
        },
        Sfx::BigBoom => Timbre {
            pitch: 110,
            jitter: 40,
            fall: Fall::To(34),
            wave: Waveform::Sine,
            noise: 60,
            volume: 52,
            decay: 42,
            attack: 1,
            length: 85,
        },
        Sfx::Build => Timbre {
            pitch: 430,
            jitter: 0,
            fall: Fall::To(680),
            wave: Waveform::Triangle,
            noise: 0,
            volume: 13,
            decay: 70,
            attack: 5,
            length: 32,
        },
        Sfx::Train => Timbre {
            pitch: 560,
            jitter: 160,
            fall: Fall::Share(135),
            wave: Waveform::Square,
            noise: 0,
            volume: 12,
            decay: 200,
            attack: 3,
            length: 9,
        },
        Sfx::Alarm => Timbre {
            pitch: 360,
            jitter: 0,
            fall: Fall::To(300),
            wave: Waveform::Square,
            noise: 0,
            volume: 17,
            decay: 22,
            attack: 10,
            length: 45,
        },
        Sfx::Select => Timbre {
            pitch: 520,
            jitter: 0,
            fall: Fall::To(520),
            wave: Waveform::Sine,
            noise: 0,
            volume: 8,
            decay: 450,
            attack: 2,
            length: 3,
        },
    }
}

/// What a sound is made of.
pub fn timbre(s: Sfx) -> (t: Timbre)
    ensures
        t == made_of(s),
{
    match s {
        Sfx::Shot => Timbre {
            pitch: 680,
            jitter: 280,
            fall: Fall::Share(45),
            wave: Waveform::Square,
            noise: 6,
            volume: 16,
            decay: 400,
            attack: 3,
            length: 10,
        },
        Sfx::TankShot => Timbre {
            pitch: 150,
            jitter: 50,
            fall: Fall::To(52),
            wave: Waveform::Saw,
            noise: 50,
            volume: 34,
            decay: 130,
            attack: 2,
            length: 24,
        },
        Sfx::Flame => Timbre {
            pitch: 240,
            jitter: 90,
            fall: Fall::To(150),
            wave: Waveform::Sine,
            noise: 92,
            volume: 14,
            decay: 70,
            attack: 12,
            length: 20,
        },
        Sfx::Explosion => Timbre {
            pitch: 210,
            jitter: 90,
            fall: Fall::To(55),
            wave: Waveform::Sine,
            noise: 72,
            volume: 36,
            decay: 85,
            attack: 1,
            length: 42,
        },
        Sfx::BigBoom => Timbre {
            pitch: 110,
            jitter: 40,
            fall: Fall::To(34),
            wave: Waveform::Sine,
            noise: 60,
            volume: 52,
            decay: 42,
            attack: 1,
            length: 85,
        },
        Sfx::Build => Timbre {
            pitch: 430,
            jitter: 0,
            fall: Fall::To(680),
            wave: Waveform::Triangle,
            noise: 0,
            volume: 13,
            decay: 70,
            attack: 5,
            length: 32,
        },
        Sfx::Train => Timbre {
            pitch: 560,
            jitter: 160,
            fall: Fall::Share(135),
            wave: Waveform::Square,
            noise: 0,
            volume: 12,
            decay: 200,
            attack: 3,
            length: 9,
        },
        Sfx::Alarm => Timbre {
            pitch: 360,
            jitter: 0,
            fall: Fall::To(300),
            wave: Waveform::Square,
            noise: 0,
            volume: 17,
            decay: 22,
            attack: 10,
            length: 45,
        },
        Sfx::Select => Timbre {
            pitch: 520,
            jitter: 0,
            fall: Fall::To(520),
            wave: Waveform::Sine,
            noise: 0,
            volume: 8,
            decay: 450,
            attack: 2,
            length: 3,
        },
    }
}

/// The next state of the jitter generator.
pub open spec fn spec_jitter(s: u32) -> u32 {
    let a = s ^ (s << 13);
    let b = a ^ (a >> 17);
    b ^ (b << 5)
}

/// The next state of the jitter generator.
#[verifier::when_used_as_spec(spec_jitter)]
pub fn jitter(s: u32) -> (r: u32)
    ensures
        r == spec_jitter(s),
{
    let a: u32 = s ^ (s << 13);
    let b: u32 = a ^ (a >> 17);
    b ^ (b << 5)
}

/// Draws a number of at least 0 and below 1, and moves the generator on.
pub fn rnd(seed: &mut u32) -> (r: Num)
    ensures
        *final(seed) == jitter(*old(seed)),
        r == Num::unit((jitter(*old(seed)) / 256) as u32),
{
    *seed = jitter(*seed);
    let s: u32 = *seed;
    assert(s >> 8 == s / 256) by (bit_vector);
    Num::unit(s >> 8)
}

/// The generator never gets stuck: only zero leads to zero, and no two states lead to the
/// same.
pub proof fn jitter_never_sticks(a: u32, b: u32)
    ensures
        jitter(a) == 0 <==> a == 0,
        jitter(a) == jitter(b) ==> a == b,
{
    assert(forall|a: u32, b: u32|
        a ^ (a << 13) == b ^ (b << 13) ==> a == b) by (bit_vector);
    assert(forall|a: u32, b: u32|
        a ^ (a >> 17) == b ^ (b >> 17) ==> a == b) by (bit_vector);
    assert(forall|a: u32, b: u32| a ^ (a << 5) == b ^ (b << 5) ==> a == b) by (bit_vector);
    lemma_jitter_zero(a);
}

proof fn lemma_jitter_zero(a: u32)
    ensures
        jitter(a) == 0 <==> a == 0,
{
    assert(({
        let x = a ^ (a << 13);
        let y = x ^ (x >> 17);
        y ^ (y << 5)
    }) == 0 <==> a == 0) by (bit_vector);
}

/// A sound to be played: which, how loud, and how far to the left or right.
#[derive(Clone, Copy, PartialEq, Eq, Structural, Debug)]
pub struct Cue {
    pub sfx: Sfx,
    pub gain: Num,
    pub pan: Num,
}

/// How many sounds may wait for the mixer.
pub const CUES_MAX: usize = 96;

/// How many sounds are mixed at once.
pub const VOICES_MAX: usize = 48;

/// What is not louder than a thousandth is not heard.
pub const FAINT_BITS: u32 = 0x3A83_126F;

/// The sounds that wait for the mixer after one more was asked for: it is left out if it is
/// too faint, or if too many wait.
pub open spec fn queued(q: Seq<Cue>, c: Cue) -> Seq<Cue> {
    if c.gain.at_most(Num { bits: FAINT_BITS }) || q.len() >= CUES_MAX {
        q
    } else {
        q.push(c)
    }
}

/// Asks for a sound.
pub fn play(q: &mut Vec<Cue>, sfx: Sfx, gain: Num, pan: Num)
    ensures
        final(q)@ == queued(old(q)@, Cue { sfx, gain, pan }),
{
    if gain.at_most(Num { bits: FAINT_BITS }) {
        return;
    }
    if q.len() < CUES_MAX {
        q.push(Cue { sfx, gain, pan });
    }
}

/// The queue never grows past its bound.
pub proof fn the_queue_is_bounded(q: Seq<Cue>, c: Cue)
    requires
        q.len() <= CUES_MAX,
    ensures
        queued(q, c).len() <= CUES_MAX,
{
}

/// Adds a voice to those being mixed; the oldest makes room.
pub fn voice_in<V>(voices: &mut Vec<V>, v: V)
    ensures
        ({
            let more = old(voices)@.push(v);
            final(voices)@ == (if more.len() > VOICES_MAX {
                more.drop_first()
            } else {
                more
            })
        }),
{
    voices.push(v);
    if voices.len() > VOICES_MAX {
        let ghost m = voices@;
        let gone = voices.remove(0);
        assert(voices@ =~= m.drop_first());
    }
}

} // verus!
