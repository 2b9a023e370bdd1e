//! Streaming voice analysis in fixed-point arithmetic.
//!
//! Samples are signed integers (PCM). Frequencies are held in millihertz,
//! normalized differences, confidences and refined lags in millionths, and
//! time offsets in samples, so that every result is an exact integer that a
//! contract can state.

use vstd::prelude::*;
use itertools::Itertools;
use crate::analyzer::{filter_formants, retained, slots_of};

pub mod analyzer;
pub mod resample;
pub mod util;
pub mod yin;

verus! {

/// Number of formant slots in an [`AnalyzerOutput`].
pub const FORMANT_COUNT: usize = 2;

/// One fundamental-frequency estimate.
#[derive(Clone, Copy, Debug, PartialEq, Eq, Structural)]
pub struct Pitch {
    /// Frequency in millihertz.
    pub value: u64,
    /// Confidence in millionths; an estimate of the YIN estimator has at
    /// most 1 000 000, one of a tracker has the energy that the tracker gave.
    pub confidence: u64,
    /// Offset in samples from the end of the analysed window.
    pub time: i64,
}

/// One resonance of the vocal tract.
#[derive(Clone, Copy, Debug, PartialEq, Eq, Structural)]
pub struct Formant {
    /// Centre frequency in millihertz; 0 stands for a value that is not a
    /// positive finite frequency.
    pub frequency: u64,
    /// Bandwidth in millihertz.
    pub bandwidth: u64,
}

/// One estimate as a pitch tracker gives it.
#[derive(Clone, Copy, Debug, PartialEq, Eq, Structural)]
pub struct Estimate {
    /// Frequency in millihertz.
    pub frequency: u64,
    /// Energy in millionths of the tracker's unit.
    pub energy: u64,
    /// Offset in samples from the start of the window that the tracker was
    /// given; negative for a sample that had left the window before.
    pub offset: i64,
}

/// An offset in samples held to the range of `i64`.
pub open spec fn clamped(offset: int) -> i64 {
    if offset < i64::MIN {
        i64::MIN
    } else if offset > i64::MAX {
        i64::MAX
    } else {
        offset as i64
    }
}

/// The pitch for an estimate of a tracker that was given a window of
/// `window_len` samples: its time counts from the end of that window.
pub open spec fn pitch_from(from: Estimate, window_len: usize) -> Pitch {
    Pitch {
        value: from.frequency,
        confidence: from.energy,
        time: clamped(from.offset - window_len),
    }
}

impl Pitch {
    /// The pitch for an estimate of a tracker that was given a window of
    /// `window_len` samples.
    pub fn new(from: Estimate, window_len: usize) -> (r: Self)
        ensures
            r == pitch_from(from, window_len),
    {
        let wide: i128 = from.offset as i128 - window_len as i128;
        let time: i64 = if wide < i64::MIN as i128 {
            i64::MIN
        } else if wide > i64::MAX as i128 {
            i64::MAX
        } else {
            wide as i64
        };
        Pitch { value: from.frequency, confidence: from.energy, time }
    }
}

impl Default for Pitch {
    fn default() -> (r: Self)
        ensures
            r == (Pitch { value: 0, confidence: 0, time: 0 }),
    {
        Pitch { value: 0, confidence: 0, time: 0 }
    }
}

impl Default for Formant {
    fn default() -> (r: Self)
        ensures
            r == empty_slot(),
    {
        Formant { frequency: 0, bandwidth: 0 }
    }
}

/// How the fundamental frequency is estimated.
#[derive(Clone, Copy, Debug, PartialEq, Eq, Structural)]
pub enum PitchEstimationAlgorithm {
    /// A tracker outside this library, which buffers samples and may report
    /// none, one or several estimates at a time.
    Irapt,
    /// The estimator of [`yin`], on the rolling window.
    Yin,
}

/// How formants are estimated.
#[derive(Clone, Copy, Debug, PartialEq, Eq, Structural)]
pub enum FormantEstimationAlgorithm {
    /// No formants are reported.
    NoFormants,
    /// An extractor outside this library, based on linear prediction.
    LibFormants,
}

/// The slot of an output that holds no formant.
pub open spec fn empty_slot() -> Formant {
    Formant { frequency: 0, bandwidth: 0 }
}

/// What slot `i` of an output holds for the formants handed to it.
pub open spec fn slot_of(formants: Option<Seq<Formant>>, i: int) -> Formant {
    if formants is Some && 0 <= i < formants->0.len() {
        formants->0[i]
    } else {
        empty_slot()
    }
}

/// What one chunk of samples gave: the pitches, oldest first, and the
/// formants in a fixed number of slots.
#[derive(Debug)]
pub struct AnalyzerOutput {
    pub pitches: Vec<Pitch>,
    pub formants: [Formant; FORMANT_COUNT],
}

/// `Itertools::set_from` on the slots of an output: the formants are
/// assigned to the slots in their order, from the first slot on, until the
/// slots or the formants run out; the other slots stay as they were. Returns
/// the number of slots written.
#[verifier::external_body]
fn set_slots(slots: &mut [Formant; FORMANT_COUNT], formants: &Vec<Formant>) -> (written: usize)
    ensures
        written == if formants.len() < FORMANT_COUNT {
            formants.len()
        } else {
            FORMANT_COUNT
        },
        forall|i: int|
            0 <= i < FORMANT_COUNT ==> #[trigger] final(slots)[i] == if i < formants.len() {
                formants[i]
            } else {
                old(slots)[i]
            },
{
    slots.iter_mut().set_from(formants.iter().copied())
}

/// The formants that an output holds for the pitches of a chunk and the
/// candidates of a formant extractor: those kept beside the latest pitch,
/// and none where there is no pitch or no extractor.
pub open spec fn formants_beside(pitches: Seq<Pitch>, candidates: Option<Seq<Formant>>) -> Option<
    Seq<Formant>,
> {
    if candidates is Some && pitches.len() > 0 {
        Some(retained(candidates->0, pitches.last()))
    } else {
        None
    }
}

/// The candidates of a formant extractor as a sequence, where there are any.
pub open spec fn candidates_of(formants: Option<Vec<Formant>>) -> Option<Seq<Formant>> {
    match formants {
        Some(found) => Some(found@),
        None => None,
    }
}

impl Default for AnalyzerOutput {
    /// The output of a chunk that gave nothing: no pitch, empty slots.
    fn default() -> (r: Self)
        ensures
            r.pitches@ == Seq::<Pitch>::empty(),
            r.formants@ == slots_of(None),
    {
        AnalyzerOutput::new(Vec::new(), None)
    }
}

impl AnalyzerOutput {
    /// Packs the output of a chunk from its pitches, oldest first, and the
    /// candidates of the formant extractor. The candidates that are
    /// plausible beside the latest pitch fill the slots in their order, up
    /// to the number of slots; slots that none fills hold zeros.
    pub fn new(pitches: Vec<Pitch>, formants: Option<Vec<Formant>>) -> (r: Self)
        ensures
            r.pitches@ == pitches@,
            r.formants@ == slots_of(formants_beside(pitches@, candidates_of(formants))),
    {
        let empty = Formant { frequency: 0, bandwidth: 0 };
        let mut slots: [Formant; FORMANT_COUNT] = [empty, empty];
        match &formants {
            Some(found) => {
                if pitches.len() > 0 {
                    let latest: Pitch = pitches[pitches.len() - 1];
                    let kept = filter_formants(found.as_slice(), latest);
                    set_slots(&mut slots, &kept);
                }
            },
            None => {},
        }
        proof {
            assert(slots@ =~= slots_of(formants_beside(pitches@, candidates_of(formants))));
        }
        AnalyzerOutput { pitches, formants: slots }
    }
}

} // verus!
