//! The synthesis-script rendering model: each method with any lines becomes
//! two script lines — its class's name posted to the log, and a call of the
//! user's class synth with the method's size, line count and complexity.

use vstd::prelude::*;

use crate::classfile::MeasureMeta;
use crate::classfile::MusicMeta;
use vstd::string::StringExecFns;

verus! {

/// The decimal digit of a value below ten.
pub open spec fn dec_digit_spec(n: int) -> char {
    if n == 0 {
        '0'
    } else if n == 1 {
        '1'
    } else if n == 2 {
        '2'
    } else if n == 3 {
        '3'
    } else if n == 4 {
        '4'
    } else if n == 5 {
        '5'
    } else if n == 6 {
        '6'
    } else if n == 7 {
        '7'
    } else if n == 8 {
        '8'
    } else {
        '9'
    }
}

/// The decimal text of a non-negative number.
pub open spec fn dec_of(n: int) -> Seq<char>
    decreases n,
{
    if n < 10 {
        seq![dec_digit_spec(n)]
    } else {
        dec_of(n / 10).push(dec_digit_spec(n % 10))
    }
}

fn dec_digit(n: u64) -> (r: &'static str)
    requires
        n < 10,
    ensures
        r@ == seq![dec_digit_spec(n as int)],
{
    proof {
        reveal_strlit("0");
        reveal_strlit("1");
        reveal_strlit("2");
        reveal_strlit("3");
        reveal_strlit("4");
        reveal_strlit("5");
        reveal_strlit("6");
        reveal_strlit("7");
        reveal_strlit("8");
        reveal_strlit("9");
    }
    if n == 0 {
        "0"
    } else if n == 1 {
        "1"
    } else if n == 2 {
        "2"
    } else if n == 3 {
        "3"
    } else if n == 4 {
        "4"
    } else if n == 5 {
        "5"
    } else if n == 6 {
        "6"
    } else if n == 7 {
        "7"
    } else if n == 8 {
        "8"
    } else {
        "9"
    }
}

/// Render a number in decimal.
pub fn dec_string(n: u64) -> (r: String)
    ensures
        r@ == dec_of(n as int),
    decreases n,
{
    if n < 10 {
        String::from_str(dec_digit(n))
    } else {
        let mut s = dec_string(n / 10);
        s.append(dec_digit(n % 10));
        proof {
            assert(s@ =~= dec_of(n as int));
        }
        s
    }
}

/// The two script lines one method contributes: its class's name posted,
/// and the synth call with the method's numbers.
pub open spec fn synth_line_spec(name: Seq<char>, m: MeasureMeta) -> Seq<char> {
    "\""@ + name + "\".postln;\n"@ + "~class.("@ + dec_of(m.size as int) + ", "@ + dec_of(
        m.lines as int,
    ) + ", "@ + dec_of(m.complexity as int) + ");\n"@
}

/// The script lines of one class: one pair per method with any lines.
pub open spec fn class_script_spec(name: Seq<char>, ms: Seq<MeasureMeta>) -> Seq<char>
    decreases ms.len(),
{
    if ms.len() == 0 {
        Seq::empty()
    } else if ms.last().lines == 0 {
        class_script_spec(name, ms.drop_last())
    } else {
        class_script_spec(name, ms.drop_last()) + synth_line_spec(name, ms.last())
    }
}

/// The whole script, class by class.
pub open spec fn script_spec(cs: Seq<MusicMeta>) -> Seq<char>
    decreases cs.len(),
{
    if cs.len() == 0 {
        Seq::empty()
    } else {
        script_spec(cs.drop_last()) + class_script_spec(cs.last().name@, cs.last().methods@)
    }
}

/// Render the two script lines of one method.
fn synth_line(name: &String, m: &MeasureMeta) -> (r: String)
    ensures
        r@ == synth_line_spec(name@, *m),
{
    let mut s = String::from_str("\"");
    s.append(name.as_str());
    s.append("\".postln;\n");
    s.append("~class.(");
    let d = dec_string(m.size as u64);
    s.append(d.as_str());
    s.append(", ");
    let d = dec_string(m.lines as u64);
    s.append(d.as_str());
    s.append(", ");
    let d = dec_string(m.complexity as u64);
    s.append(d.as_str());
    s.append(");\n");
    proof {
        assert(s@ =~= synth_line_spec(name@, *m));
    }
    s
}

/// Render the whole synthesis script for the given music.
pub fn supercollider_text(music: &Vec<MusicMeta>) -> (r: String)
    ensures
        r@ == script_spec(music@),
{
    let mut s = String::new();
    let mut i: usize = 0;
    while i < music.len()
        invariant
            i <= music@.len(),
            s@ == script_spec(music@.take(i as int)),
        decreases music@.len() - i,
    {
        let name = &music[i].name;
        let ms = &music[i].methods;
        let mut j: usize = 0;
        let ghost before = s@;
        while j < ms.len()
            invariant
                j <= ms@.len(),
                ms@ == music@[i as int].methods@,
                name@ == music@[i as int].name@,
                s@ == before + class_script_spec(name@, ms@.take(j as int)),
            decreases ms@.len() - j,
        {
            let m = &ms[j];
            if m.lines != 0 {
                let line = synth_line(name, m);
                s.append(line.as_str());
            }
            proof {
                assert(ms@.take(j + 1).drop_last() =~= ms@.take(j as int));
                assert(ms@.take(j + 1).last() == ms@[j as int]);
                assert(s@ =~= before + class_script_spec(name@, ms@.take(j + 1)));
            }
            j = j + 1;
        }
        proof {
            assert(ms@.take(ms@.len() as int) =~= ms@);
            assert(music@.take(i + 1).drop_last() =~= music@.take(i as int));
            assert(music@.take(i + 1).last() == music@[i as int]);
            assert(s@ =~= script_spec(music@.take(i + 1)));
        }
        i = i + 1;
    }
    proof {
        assert(music@.take(music@.len() as int) =~= music@);
    }
    s
}

} // verus!
