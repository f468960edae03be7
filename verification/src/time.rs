//! How positions are shown.

use crate::text;
use crate::text::append_decimal;
use vstd::prelude::*;
use vstd::string::StringExecFns;

verus! {

/// In what positions are shown.
#[derive(Clone, Copy, Debug, PartialEq, Eq, Structural)]
pub enum TimeDisplay {
    BarBeat,
    Smpte24,
    Smpte25,
    Smpte30,
    Seconds,
}

/// The decimal text of a number, of at least two digits.
pub open spec fn two_digits(n: nat) -> Seq<char> {
    if n < 10 {
        "0"@ + text::decimal(n)
    } else {
        text::decimal(n)
    }
}

/// A number of frames as hours, minutes, seconds and frames.
pub open spec fn timecode(frames: nat, fps: nat) -> Seq<char> {
    let seconds = frames / fps;
    two_digits(seconds / 3600) + ":"@ + two_digits(seconds / 60 % 60) + ":"@ + two_digits(seconds % 60) + ":"@
        + two_digits(frames % fps)
}

fn append_two_digits(out: &mut String, n: u64)
    ensures
        final(out)@ == old(out)@ + two_digits(n as nat),
{
    if n < 10 {
        out.append("0");
    }
    append_decimal(out, n);
    assert(n < 10 ==> out@ =~= old(out)@ + ("0"@ + text::decimal(n as nat)));
}

impl TimeDisplay {
    /// How many frames a second has: 24 or 25 where positions are shown so, else
    /// 30.
    pub fn smpte_fps(self) -> (r: u32)
        ensures
            r == match self {
                TimeDisplay::Smpte24 => 24u32,
                TimeDisplay::Smpte25 => 25,
                _ => 30,
            },
    {
        match self {
            TimeDisplay::Smpte24 => 24,
            TimeDisplay::Smpte25 => 25,
            _ => 30,
        }
    }

    /// A number of frames as hours, minutes, seconds and frames.
    pub fn frames_to_smpte(self, total_frames: u64) -> (r: String)
        ensures
            r@ == timecode(
                total_frames as nat,
                match self {
                    TimeDisplay::Smpte24 => 24,
                    TimeDisplay::Smpte25 => 25,
                    _ => 30,
                },
            ),
    {
        let fps: u64 = self.smpte_fps() as u64;
        let ff: u64 = total_frames % fps;
        let seconds: u64 = total_frames / fps;
        let ss: u64 = seconds % 60;
        let minutes: u64 = seconds / 60;
        let mm: u64 = minutes % 60;
        let hh: u64 = minutes / 60;
        assert(hh == seconds / 3600);
        let mut out = String::new();
        append_two_digits(&mut out, hh);
        out.append(":");
        append_two_digits(&mut out, mm);
        out.append(":");
        append_two_digits(&mut out, ss);
        out.append(":");
        append_two_digits(&mut out, ff);
        assert(out@ =~= timecode(total_frames as nat, fps as nat));
        out
    }
}

/// Hours, minutes, seconds and frames make up the number of frames.
pub proof fn law_timecode_loses_nothing(frames: nat, fps: nat)
    requires
        fps > 0,
    ensures
        frames == ((frames / fps / 3600 * 60 + frames / fps / 60 % 60) * 60 + frames / fps % 60) * fps + frames % fps,
        frames / fps / 60 % 60 < 60,
        frames / fps % 60 < 60,
        frames % fps < fps,
{
    let seconds = frames / fps;
    vstd::arithmetic::div_mod::lemma_fundamental_div_mod(frames as int, fps as int);
    assert((seconds / 3600 * 60 + seconds / 60 % 60) * 60 + seconds % 60 == seconds);
    assert(frames == seconds * fps + frames % fps) by (nonlinear_arith)
        requires
            frames == fps * seconds + frames % fps,
    ;
}

} // verus!
