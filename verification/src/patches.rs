//! The vocabularies that the patch definitions choose from: oscillator
//! waves, LFO shapes, filter types and arpeggio scales.

use vstd::prelude::*;

verus! {

/// An oscillator's waveform.
#[derive(Clone, Copy, Debug, PartialEq, Eq, Structural, Default)]
pub enum Wave {
    #[default]
    Sine,
    Square,
    Saw,
}

/// An LFO's shape.
#[derive(Clone, Copy, Debug, PartialEq, Eq, Structural, Default)]
pub enum Shape {
    #[default]
    Sine,
    Square,
    Saw,
    /// sample & hold
    Sh,
}

/// A filter's response.
#[derive(Clone, Copy, Debug, PartialEq, Eq, Structural, Default)]
pub enum FType {
    #[default]
    Lowpass,
    Bandpass,
    Highpass,
    Allpass,
}

/// An arpeggio's scale.
#[derive(Clone, Copy, Debug, PartialEq, Eq, Structural)]
pub enum Scale {
    Minor,
    Whole,
    Chrom,
    Fifths,
    Dim,
    Odd,
}

/// The degrees of a scale in semitones above the root, ascending.
pub open spec fn scale_degrees(s: Scale) -> Seq<u8> {
    match s {
        Scale::Minor => seq![0u8, 3, 5, 7, 10],
        Scale::Whole => seq![0u8, 2, 4, 6, 8, 10],
        Scale::Chrom => seq![0u8, 1, 2, 3, 4, 5, 6, 7, 8, 9, 10, 11],
        Scale::Fifths => seq![0u8, 7],
        Scale::Dim => seq![0u8, 3, 6, 9],
        Scale::Odd => seq![0u8, 1, 6, 11],
    }
}

/// What each scale is: every scale starts at the root (0), climbs strictly
/// and stays below the octave (12). The chromatic scale holds every semitone
/// once (`d[i] == i`, twelve of them); the whole-tone scale climbs by two
/// (`d[i] == 2 * i`, six of them) and the diminished one by three
/// (`d[i] == 3 * i`, four of them); "fifths" is the root and the fifth (7);
/// the minor pentatonic has the minor third (3), the fourth (5), the fifth (7)
/// and the minor seventh (10); "odd" has the minor second (1), the tritone (6)
/// and the major seventh (11).
pub proof fn lemma_scale_shapes(s: Scale)
    ensures
        scale_degrees(s).len() > 1 && scale_degrees(s)[0] == 0,
        forall|i: int, j: int|
            0 <= i < j < scale_degrees(s).len() ==> scale_degrees(s)[i] < scale_degrees(s)[j],
        forall|i: int| 0 <= i < scale_degrees(s).len() ==> scale_degrees(s)[i] < 12,
        s == Scale::Chrom ==> scale_degrees(s).len() == 12 && forall|i: int|
            0 <= i < 12 ==> scale_degrees(s)[i] == i,
        s == Scale::Whole ==> scale_degrees(s).len() == 6 && forall|i: int|
            0 <= i < 6 ==> scale_degrees(s)[i] == 2 * i,
        s == Scale::Dim ==> scale_degrees(s).len() == 4 && forall|i: int|
            0 <= i < 4 ==> scale_degrees(s)[i] == 3 * i,
        s == Scale::Fifths ==> scale_degrees(s).len() == 2 && scale_degrees(s)[1] == 7,
        s == Scale::Minor ==> scale_degrees(s).len() == 5 && scale_degrees(s)[1] == 3
            && scale_degrees(s)[2] == 5 && scale_degrees(s)[3] == 7 && scale_degrees(s)[4] == 10,
        s == Scale::Odd ==> scale_degrees(s).len() == 4 && scale_degrees(s)[1] == 1
            && scale_degrees(s)[2] == 6 && scale_degrees(s)[3] == 11,
{
    let d = scale_degrees(s);
    match s {
        Scale::Minor => assert(d =~= seq![0u8, 3, 5, 7, 10]),
        Scale::Whole => assert(d =~= seq![0u8, 2, 4, 6, 8, 10]),
        Scale::Chrom => assert(d =~= seq![0u8, 1, 2, 3, 4, 5, 6, 7, 8, 9, 10, 11]),
        Scale::Fifths => assert(d =~= seq![0u8, 7]),
        Scale::Dim => assert(d =~= seq![0u8, 3, 6, 9]),
        Scale::Odd => assert(d =~= seq![0u8, 1, 6, 11]),
    }
}

impl Scale {
    /// The scale's degrees in semitones above the root.
    pub fn degrees(self) -> (d: &'static [u8])
        ensures
            d@ == scale_degrees(self),
            d@.len() > 1 && d@[0] == 0,
            forall|i: int, j: int| 0 <= i < j < d@.len() ==> d@[i] < d@[j],
            forall|i: int| 0 <= i < d@.len() ==> d@[i] < 12,
            self == Scale::Chrom ==> d@.len() == 12 && forall|i: int| 0 <= i < 12 ==> d@[i] == i,
    {
        proof {
            lemma_scale_shapes(self);
        }
        match self {
            Scale::Minor => &[0, 3, 5, 7, 10],
            Scale::Whole => &[0, 2, 4, 6, 8, 10],
            Scale::Chrom => &[0, 1, 2, 3, 4, 5, 6, 7, 8, 9, 10, 11],
            Scale::Fifths => &[0, 7],
            Scale::Dim => &[0, 3, 6, 9],
            Scale::Odd => &[0, 1, 6, 11],
        }
    }
}

} // verus!
