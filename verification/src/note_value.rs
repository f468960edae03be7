//! Note values: the `1/N` notes that grids and quantisation are set in.

use crate::text;
use crate::text::append_decimal;
use vstd::prelude::*;
use vstd::string::StringExecFns;

verus! {

/// How a note value deviates from the plain one.
#[derive(Clone, Copy, Debug, PartialEq, Eq, Structural)]
pub enum NoteKind {
    Straight,
    /// Half as long again.
    Dotted,
    /// Two thirds as long.
    Triplet,
}

impl Default for NoteKind {
    fn default() -> (r: NoteKind)
        ensures
            r == NoteKind::Straight,
    {
        NoteKind::Straight
    }
}

/// What a note value of this kind has at the end of its name.
pub open spec fn suffix_of(kind: NoteKind) -> Seq<char> {
    match kind {
        NoteKind::Straight => ""@,
        NoteKind::Dotted => "."@,
        NoteKind::Triplet => "T"@,
    }
}

impl NoteKind {
    /// What a note value of this kind has at the end of its name.
    pub fn suffix(self) -> (r: &'static str)
        ensures
            r@ == suffix_of(self),
    {
        match self {
            NoteKind::Straight => "",
            NoteKind::Dotted => ".",
            NoteKind::Triplet => "T",
        }
    }
}

/// A note value: one `div`-th of a whole note, plain, dotted or as a triplet.
#[derive(Clone, Copy, Debug, PartialEq, Eq, Structural)]
pub struct NoteValue {
    /// Zero stands for one.
    pub div: u32,
    pub kind: NoteKind,
}

impl NoteValue {
    /// How many of these make a whole note, were it plain.
    pub open spec fn parts(self) -> nat {
        if self.div == 0 {
            1
        } else {
            self.div as nat
        }
    }

    /// The note value of one `div`-th of a whole note.
    pub fn new(div: u32, kind: NoteKind) -> (r: NoteValue)
        ensures
            r == (NoteValue { div, kind }),
    {
        NoteValue { div, kind }
    }

    /// The name of the note value.
    pub fn label(self) -> (r: String)
        ensures
            r@ == "1/"@ + text::decimal(self.parts()) + suffix_of(self.kind),
    {
        let mut out = "1/".to_owned();
        let parts: u64 = if self.div == 0 {
            1
        } else {
            self.div as u64
        };
        append_decimal(&mut out, parts);
        out.append(self.kind.suffix());
        out
    }
}

} // verus!
