//! The melody rendering model: each method of each class becomes one
//! measure of tones, sized by its line count, pitched by its code size and
//! shifted by its complexity; the left hand plays one chord finger per
//! pass. The text produced here is the whole melody file.

use vstd::prelude::*;

use crate::classfile::MeasureMeta;
use crate::classfile::MusicMeta;
use vstd::string::StringExecFns;

verus! {

/// How many tones a measure gets: a quarter of the line count, eight at
/// most.
pub open spec fn tone_count_spec(c: int) -> int {
    if c / 4 <= 8 {
        c / 4
    } else {
        8
    }
}

/// How many tones a measure of `c` lines gets.
pub fn get_tone_count(c: u16) -> (r: u16)
    ensures
        r == tone_count_spec(c as int),
{
    if c / 4 <= 8 {
        c / 4
    } else {
        8
    }
}

/// The base tone of a measure, a compressed reading of the code size: small
/// sizes map straight, larger sizes in ever coarser steps.
pub open spec fn base_spec(c: int) -> int {
    if c / 2 <= 10 {
        c
    } else if c / 2 <= 20 {
        10 + (c - 10) / 2
    } else if c / 2 <= 40 {
        15 + (c - 20) / 4
    } else if c / 2 <= 80 {
        20 + (c - 40) / 8
    } else if c / 2 <= 160 {
        30 + (c - 80) / 16
    } else {
        18
    }
}

/// The base tone for a method of code size `c`.
pub fn get_base(c: usize) -> (r: usize)
    ensures
        r == base_spec(c as int),
        r <= 45,
{
    if c / 2 <= 10 {
        c
    } else if c / 2 <= 20 {
        10 + (c - 10) / 2
    } else if c / 2 <= 40 {
        15 + (c - 20) / 4
    } else if c / 2 <= 80 {
        20 + (c - 40) / 8
    } else if c / 2 <= 160 {
        30 + (c - 80) / 16
    } else {
        18
    }
}

/// How far one finger steps from the base tone, by complexity.
pub open spec fn complexity_shift_spec(c: int) -> int {
    if c <= 2 {
        2
    } else if c <= 4 {
        3
    } else {
        3 + c / 5
    }
}

/// How far one finger steps from the base tone.
pub fn get_complexity_shift(complexity: u16) -> (r: u16)
    ensures
        r == complexity_shift_spec(complexity as int),
{
    if complexity <= 2 {
        2
    } else if complexity <= 4 {
        3
    } else {
        3 + complexity / 5
    }
}

/// The tone names, from the low octave upward.
pub open spec fn tone_name_spec(i: int) -> Seq<char> {
    if i == 0 {
        "C"@
    } else if i == 1 {
        "D"@
    } else if i == 2 {
        "E"@
    } else if i == 3 {
        "F"@
    } else if i == 4 {
        "G"@
    } else if i == 5 {
        "a"@
    } else if i == 6 {
        "b"@
    } else if i == 7 {
        "c"@
    } else if i == 8 {
        "d"@
    } else if i == 9 {
        "e"@
    } else if i == 10 {
        "f"@
    } else if i == 11 {
        "g"@
    } else if i == 12 {
        "a'"@
    } else if i == 13 {
        "b'"@
    } else if i == 14 {
        "c'"@
    } else if i == 15 {
        "d'"@
    } else if i == 16 {
        "e'"@
    } else if i == 17 {
        "f'"@
    } else {
        "g'"@
    }
}

fn tone_name(i: u16) -> (r: &'static str)
    requires
        i < 19,
    ensures
        r@ == tone_name_spec(i as int),
{
    if i == 0 {
        "C"
    } else if i == 1 {
        "D"
    } else if i == 2 {
        "E"
    } else if i == 3 {
        "F"
    } else if i == 4 {
        "G"
    } else if i == 5 {
        "a"
    } else if i == 6 {
        "b"
    } else if i == 7 {
        "c"
    } else if i == 8 {
        "d"
    } else if i == 9 {
        "e"
    } else if i == 10 {
        "f"
    } else if i == 11 {
        "g"
    } else if i == 12 {
        "a'"
    } else if i == 13 {
        "b'"
    } else if i == 14 {
        "c'"
    } else if i == 15 {
        "d'"
    } else if i == 16 {
        "e'"
    } else if i == 17 {
        "f'"
    } else {
        "g'"
    }
}

/// The tone a finger plays: the base stepped by the finger's share of the
/// complexity shift, wrapped onto the tone table.
pub open spec fn tone_spec(base: int, complexity: int, offset: int) -> Seq<char> {
    tone_name_spec((base + (offset % 3) * complexity_shift_spec(complexity)) % 19)
}

/// The tone a finger plays.
pub fn get_tone(base: usize, complexity: u16, offset: u16) -> (r: &'static str)
    requires
        base + 2 * (3 + complexity / 5) <= u16::MAX,
    ensures
        r@ == tone_spec(base as int, complexity as int, offset as int),
{
    let shift = get_complexity_shift(complexity);
    proof {
        assert(shift <= 3 + complexity / 5);
        assert((offset % 3) * shift <= 2 * shift) by (nonlinear_arith)
            requires
                0 <= offset % 3 <= 2,
                shift >= 0,
        ;
    }
    let i = base as u16 + (offset % 3) * shift;
    tone_name(i % 19)
}

/// The first `k` tones of a measure, each followed by a space.
pub open spec fn measure_tones_spec(m: MeasureMeta, k: int) -> Seq<char>
    decreases k,
{
    if k <= 0 {
        Seq::empty()
    } else {
        measure_tones_spec(m, k - 1) + tone_spec(
            base_spec(m.size as int),
            m.complexity as int,
            k - 1,
        ) + " "@
    }
}

/// One measure of the right hand: its tones, closed by a bar when the
/// measure has any.
pub open spec fn measure_text_spec(m: MeasureMeta) -> Seq<char> {
    if tone_count_spec(m.lines as int) > 0 {
        measure_tones_spec(m, tone_count_spec(m.lines as int)) + "|"@
    } else {
        Seq::empty()
    }
}

/// Render one measure of the right hand.
pub fn measure_text(m: &MeasureMeta) -> (r: String)
    ensures
        r@ == measure_text_spec(*m),
{
    let tone_count = get_tone_count(m.lines);
    let base = get_base(m.size);
    let mut s = String::new();
    let mut x: u16 = 0;
    while x < tone_count
        invariant
            x <= tone_count,
            base == base_spec(m.size as int),
            base <= 45,
            tone_count == tone_count_spec(m.lines as int),
            s@ == measure_tones_spec(*m, x as int),
        decreases tone_count - x,
    {
        s.append(get_tone(base, m.complexity, x));
        s.append(" ");
        x = x + 1;
    }
    if tone_count > 0 {
        s.append("|");
    }
    s
}

/// One chord of the left hand: the given finger's tone and a bar, or
/// nothing for an empty measure.
pub open spec fn chord_text_spec(m: MeasureMeta, finger: int) -> Seq<char> {
    if tone_count_spec(m.lines as int) > 0 {
        tone_spec(base_spec(m.size as int), m.complexity as int, finger) + " |"@
    } else {
        Seq::empty()
    }
}

/// Render one chord of the left hand.
pub fn chord_text(m: &MeasureMeta, finger: u16) -> (r: String)
    ensures
        r@ == chord_text_spec(*m, finger as int),
{
    let tone_count = get_tone_count(m.lines);
    let base = get_base(m.size);
    let mut s = String::new();
    if tone_count > 0 {
        s.append(get_tone(base, m.complexity, finger));
        s.append(" |");
    }
    s
}

/// All measures of a class, in method order.
pub open spec fn class_measures_spec(ms: Seq<MeasureMeta>) -> Seq<char>
    decreases ms.len(),
{
    if ms.len() == 0 {
        Seq::empty()
    } else {
        class_measures_spec(ms.drop_last()) + measure_text_spec(ms.last())
    }
}

/// All measures of all classes, in order.
pub open spec fn all_measures_spec(cs: Seq<MusicMeta>) -> Seq<char>
    decreases cs.len(),
{
    if cs.len() == 0 {
        Seq::empty()
    } else {
        all_measures_spec(cs.drop_last()) + class_measures_spec(cs.last().methods@)
    }
}

/// All chords of one finger for a class, in method order.
pub open spec fn class_chords_spec(ms: Seq<MeasureMeta>, finger: int) -> Seq<char>
    decreases ms.len(),
{
    if ms.len() == 0 {
        Seq::empty()
    } else {
        class_chords_spec(ms.drop_last(), finger) + chord_text_spec(ms.last(), finger)
    }
}

/// All chords of one finger over all classes, in order.
pub open spec fn all_chords_spec(cs: Seq<MusicMeta>, finger: int) -> Seq<char>
    decreases cs.len(),
{
    if cs.len() == 0 {
        Seq::empty()
    } else {
        all_chords_spec(cs.drop_last(), finger) + class_chords_spec(cs.last().methods@, finger)
    }
}

/// The whole melody file: a header, the right hand playing every measure,
/// and the left hand playing three chord passes.
pub open spec fn melo_text_spec(cs: Seq<MusicMeta>) -> Seq<char> {
    "tempo: 200\n\nvoice Right { channel: 2 }\nvoice Left { channel: 1, octave: -1 }\n\n"@
        + "play Right\n{\n:|"@ + all_measures_spec(cs) + "\n}\n\n"@ + "play Left\n{\n:|"@
        + all_chords_spec(cs, 0) + "\n:|"@ + all_chords_spec(cs, 1) + "\n:|"@ + all_chords_spec(
        cs,
        2,
    ) + "\n}\n\n"@
}

fn append_all_measures(s: &mut String, music: &Vec<MusicMeta>)
    ensures
        final(s)@ == old(s)@ + all_measures_spec(music@),
{
    let ghost orig = old(s)@;
    let mut i: usize = 0;
    while i < music.len()
        invariant
            i <= music@.len(),
            s@ == orig + all_measures_spec(music@.take(i as int)),
        decreases music@.len() - i,
    {
        let ms = &music[i].methods;
        let mut j: usize = 0;
        let ghost before = s@;
        while j < ms.len()
            invariant
                j <= ms@.len(),
                ms@ == music@[i as int].methods@,
                s@ == before + class_measures_spec(ms@.take(j as int)),
            decreases ms@.len() - j,
        {
            let t = measure_text(&ms[j]);
            s.append(t.as_str());
            proof {
                assert(ms@.take(j + 1).drop_last() =~= ms@.take(j as int));
                assert(ms@.take(j + 1).last() == ms@[j as int]);
            }
            j = j + 1;
        }
        proof {
            assert(ms@.take(ms@.len() as int) =~= ms@);
            assert(music@.take(i + 1).drop_last() =~= music@.take(i as int));
            assert(music@.take(i + 1).last() == music@[i as int]);
        }
        i = i + 1;
    }
    proof {
        assert(music@.take(music@.len() as int) =~= music@);
    }
}

fn append_all_chords(s: &mut String, music: &Vec<MusicMeta>, finger: u16)
    ensures
        final(s)@ == old(s)@ + all_chords_spec(music@, finger as int),
{
    let ghost orig = old(s)@;
    let mut i: usize = 0;
    while i < music.len()
        invariant
            i <= music@.len(),
            s@ == orig + all_chords_spec(music@.take(i as int), finger as int),
        decreases music@.len() - i,
    {
        let ms = &music[i].methods;
        let mut j: usize = 0;
        let ghost before = s@;
        while j < ms.len()
            invariant
                j <= ms@.len(),
                ms@ == music@[i as int].methods@,
                s@ == before + class_chords_spec(ms@.take(j as int), finger as int),
            decreases ms@.len() - j,
        {
            let t = chord_text(&ms[j], finger);
            s.append(t.as_str());
            proof {
                assert(ms@.take(j + 1).drop_last() =~= ms@.take(j as int));
                assert(ms@.take(j + 1).last() == ms@[j as int]);
            }
            j = j + 1;
        }
        proof {
            assert(ms@.take(ms@.len() as int) =~= ms@);
            assert(music@.take(i + 1).drop_last() =~= music@.take(i as int));
            assert(music@.take(i + 1).last() == music@[i as int]);
        }
        i = i + 1;
    }
    proof {
        assert(music@.take(music@.len() as int) =~= music@);
    }
}

/// Render the whole melody file for the given music.
pub fn melo_text(music: &Vec<MusicMeta>) -> (r: String)
    ensures
        r@ == melo_text_spec(music@),
{
    let mut s = String::from_str(
        "tempo: 200\n\nvoice Right { channel: 2 }\nvoice Left { channel: 1, octave: -1 }\n\n",
    );
    s.append("play Right\n{\n:|");
    append_all_measures(&mut s, music);
    s.append("\n}\n\n");
    s.append("play Left\n{\n:|");
    append_all_chords(&mut s, music, 0);
    s.append("\n:|");
    append_all_chords(&mut s, music, 1);
    s.append("\n:|");
    append_all_chords(&mut s, music, 2);
    s.append("\n}\n\n");
    s
}

} // verus!
