//! The MIDI rendering model: each method with any lines becomes one note —
//! pitched by its code size and its finger, lasting by its line count, and
//! struck by its complexity. A caller that writes a real MIDI file plays
//! these events into a track.

use vstd::prelude::*;

use crate::classfile::MeasureMeta;
use crate::classfile::MusicMeta;

verus! {

/// One note to play: its pitch, its length in ticks, and the velocities it
/// is struck and released with.
#[derive(Debug, Clone, Copy, PartialEq, Eq, Structural)]
pub struct NoteEvent {
    pub note: u8,
    pub duration: u32,
    pub velocity: u8,
    pub off_velocity: u8,
}

/// The pitch of a method's note: a base of forty, a quarter of the capped
/// code size, and eight per finger.
pub open spec fn midi_tone_spec(size: int, offset: int) -> int {
    40 + (if size < 128 {
        size
    } else {
        128
    }) / 4 + offset * 8
}

/// The pitch of a method's note.
pub fn get_tone(size: usize, offset: usize) -> (r: u8)
    requires
        offset <= 2,
    ensures
        r == midi_tone_spec(size as int, offset as int),
{
    let m = if size < 128 {
        size
    } else {
        128
    };
    (40 + m / 4 + offset * 8) as u8
}

/// The note a method plays: its length is thirty-two ticks per line, held
/// between an eighth and a whole note; it is struck at its complexity, but
/// never softer than sixty, and released at its code size, each read as one
/// byte as the wire format does.
pub open spec fn note_event_spec(m: MeasureMeta, finger: int) -> NoteEvent {
    NoteEvent {
        note: midi_tone_spec(m.size as int, finger) as u8,
        duration: (if m.lines * 32 > 4096 {
            4096
        } else if m.lines * 32 < 512 {
            512
        } else {
            m.lines * 32
        }) as u32,
        velocity: ((if m.complexity > 60 {
            m.complexity as int
        } else {
            60
        }) % 256) as u8,
        off_velocity: (m.size as int % 256) as u8,
    }
}

/// The notes of one class, one per method with any lines, fingered by the
/// method's position.
pub open spec fn class_events_spec(ms: Seq<MeasureMeta>) -> Seq<NoteEvent>
    decreases ms.len(),
{
    if ms.len() == 0 {
        Seq::empty()
    } else if ms.last().lines == 0 {
        class_events_spec(ms.drop_last())
    } else {
        class_events_spec(ms.drop_last()).push(
            note_event_spec(ms.last(), (ms.len() - 1) as int % 3),
        )
    }
}

/// The notes of all classes, in order.
pub open spec fn midi_events_spec(cs: Seq<MusicMeta>) -> Seq<NoteEvent>
    decreases cs.len(),
{
    if cs.len() == 0 {
        Seq::empty()
    } else {
        midi_events_spec(cs.drop_last()) + class_events_spec(cs.last().methods@)
    }
}

/// The notes the given music plays, in playing order.
pub fn midi_events(music: &Vec<MusicMeta>) -> (r: Vec<NoteEvent>)
    ensures
        r@ == midi_events_spec(music@),
{
    let mut out: Vec<NoteEvent> = Vec::new();
    let mut i: usize = 0;
    while i < music.len()
        invariant
            i <= music@.len(),
            out@ == midi_events_spec(music@.take(i as int)),
        decreases music@.len() - i,
    {
        let ms = &music[i].methods;
        let mut j: usize = 0;
        let ghost before = out@;
        while j < ms.len()
            invariant
                j <= ms@.len(),
                ms@ == music@[i as int].methods@,
                out@ == before + class_events_spec(ms@.take(j as int)),
            decreases ms@.len() - j,
        {
            let m = &ms[j];
            if m.lines != 0 {
                let note = get_tone(m.size, j % 3);
                let d32: u32 = (m.lines as u32) * 32;
                let duration: u32 = if d32 > 4096 {
                    4096
                } else if d32 < 512 {
                    512
                } else {
                    d32
                };
                let vel_base: u16 = if m.complexity > 60 {
                    m.complexity
                } else {
                    60
                };
                let velocity: u8 = (vel_base % 256) as u8;
                let off_velocity: u8 = (m.size % 256) as u8;
                out.push(NoteEvent { note, duration, velocity, off_velocity });
            }
            proof {
                assert(ms@.take(j + 1).drop_last() =~= ms@.take(j as int));
                assert(ms@.take(j + 1).last() == ms@[j as int]);
                assert(out@ =~= before + class_events_spec(ms@.take(j + 1)));
            }
            j = j + 1;
        }
        proof {
            assert(ms@.take(ms@.len() as int) =~= ms@);
            assert(music@.take(i + 1).drop_last() =~= music@.take(i as int));
            assert(music@.take(i + 1).last() == music@[i as int]);
            assert(out@ =~= midi_events_spec(music@.take(i + 1)));
        }
        i = i + 1;
    }
    proof {
        assert(music@.take(music@.len() as int) =~= music@);
    }
    out
}

} // verus!
