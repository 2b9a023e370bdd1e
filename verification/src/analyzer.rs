//! The analyzer: what is done with each chunk of samples, and in which order.
//!
//! The rate conversion, a pitch tracker and a formant extractor work outside
//! this library. The analyzer keeps the buffers, decides after each of their
//! results what comes next, and packs the output. The samples fed are of any
//! type `S` that can be copied: the analyzer only frames them for the
//! converter. The converted samples that it analyses are integers.

use vstd::prelude::*;
use std::collections::VecDeque;
use crate::resample::{BufferedResampler, Framing};
use crate::yin::{pitch, pitch_of};
use crate::{
    formants_beside, pitch_from, AnalyzerOutput, Estimate, Formant, FormantEstimationAlgorithm, Pitch,
    PitchEstimationAlgorithm, FORMANT_COUNT,
};

verus! {

/// The rate in hertz that the analysis aims at.
pub const TARGET_DOWNSAMPLED_RATE: u32 = 12_000;

/// The lowest pitch in hertz that a tracker is to look for.
pub const PITCH_RANGE_START: u32 = 50;

/// The highest pitch in hertz that a tracker is to look for.
pub const PITCH_RANGE_END: u32 = 880;

/// The threshold of the YIN estimator, in millionths.
pub const YIN_THRESHOLD: u64 = 200_000;

/// The window of the YIN estimator, in samples.
pub const YIN_LENGTH: usize = 3600;

/// The window of the formant extractor, in samples.
pub const FORMANTS_LPC_LENGTH: usize = 3600;

/// The safety margin of the formant extractor, in hertz.
pub const FORMANTS_SAFETY_MARGIN: u32 = 50;

/// The number of samples that the rate converter gives out at a time.
pub const RESAMPLER_CHUNK_SIZE: usize = 60;

/// The sample rate over the target rate, rounded to the nearest integer
/// (halves upwards) and held to at most 255.
pub open spec fn downsample_ratio_of(sample_rate: u32) -> int {
    let rounded = (sample_rate + TARGET_DOWNSAMPLED_RATE / 2) / (TARGET_DOWNSAMPLED_RATE as int);
    if rounded > 255 {
        255
    } else {
        rounded
    }
}

/// The rate after conversion, in hertz rounded down.
pub open spec fn downsampled_rate_of(sample_rate: u32) -> int {
    sample_rate as int / downsample_ratio_of(sample_rate)
}

/// The order of the linear prediction: 2.5 plus the thousandth of the rate
/// after conversion, rounded down.
pub open spec fn lpc_order_of(sample_rate: u32) -> int {
    (2_500 * downsample_ratio_of(sample_rate) + sample_rate) / (1_000 * downsample_ratio_of(
        sample_rate,
    ))
}

/// The most samples that the rolling window keeps for the YIN estimator and
/// the formant extractor.
pub open spec fn window_bound() -> int {
    if FORMANTS_LPC_LENGTH >= YIN_LENGTH {
        FORMANTS_LPC_LENGTH as int
    } else {
        YIN_LENGTH as int
    }
}

/// A window cut at the front to at most `bound` samples.
pub open spec fn trimmed(window: Seq<i32>, bound: int) -> Seq<i32> {
    if window.len() > bound {
        window.skip(window.len() - bound)
    } else {
        window
    }
}

/// Whether a formant candidate is kept beside a pitch: its frequency is a
/// positive value above one and a half times the pitch.
pub open spec fn plausible(candidate: Formant, pitch: Pitch) -> bool {
    candidate.frequency > 0 && 2 * candidate.frequency > 3 * pitch.value
}

/// The candidates kept beside a pitch: the plausible ones in the order
/// given, and no more of them than an output has slots.
pub open spec fn retained(candidates: Seq<Formant>, pitch: Pitch) -> Seq<Formant> {
    let kept = candidates.filter(|c: Formant| plausible(c, pitch));
    if kept.len() > FORMANT_COUNT {
        kept.take(FORMANT_COUNT as int)
    } else {
        kept
    }
}

/// The sample rate over the target rate, rounded.
pub fn downsample_ratio(sample_rate: u32) -> (r: u8)
    ensures
        r == downsample_ratio_of(sample_rate),
        r >= 1 <==> 2 * sample_rate >= TARGET_DOWNSAMPLED_RATE,
{
    let target: u64 = TARGET_DOWNSAMPLED_RATE as u64;
    let rounded: u64 = (sample_rate as u64 + target / 2) / target;
    if rounded > 255 {
        255
    } else {
        rounded as u8
    }
}

fn is_plausible(candidate: Formant, pitch: Pitch) -> (r: bool)
    ensures
        r == plausible(candidate, pitch),
{
    candidate.frequency > 0 && 2 * (candidate.frequency as u128) > 3 * (pitch.value as u128)
}

/// Keeps the formant candidates that are plausible beside `pitch`, in the
/// order given, up to the number of slots of an output.
pub fn filter_formants(candidates: &[Formant], pitch: Pitch) -> (r: Vec<Formant>)
    ensures
        r@ == retained(candidates@, pitch),
        r.len() <= FORMANT_COUNT,
        forall|i: int| 0 <= i < r.len() ==> plausible(#[trigger] r[i], pitch),
{
    let ghost pred = |c: Formant| plausible(c, pitch);
    let mut kept: Vec<Formant> = Vec::new();
    let mut i: usize = 0;
    while i < candidates.len() && kept.len() < FORMANT_COUNT
        invariant
            i <= candidates.len(),
            kept.len() <= FORMANT_COUNT,
            pred == |c: Formant| plausible(c, pitch),
            kept@ == candidates@.take(i as int).filter(pred),
            forall|j: int| 0 <= j < kept.len() ==> plausible(#[trigger] kept[j], pitch),
        decreases candidates.len() - i,
    {
        let candidate = candidates[i];
        proof {
            let head = candidates@.take(i as int);
            let one = seq![candidate];
            assert(candidates@.take(i + 1) =~= head + one);
            Seq::filter_distributes_over_add(head, one, pred);
            reveal_with_fuel(Seq::filter, 2);
            assert(one.drop_last() =~= Seq::<Formant>::empty());
            assert(one.filter(pred) =~= if pred(candidate) {
                one
            } else {
                Seq::<Formant>::empty()
            });
            assert(head.filter(pred) + Seq::<Formant>::empty() =~= head.filter(pred));
            assert(head.filter(pred) + one =~= head.filter(pred).push(candidate));
        }
        if is_plausible(candidate, pitch) {
            kept.push(candidate);
        }
        i = i + 1;
    }
    proof {
        let head = candidates@.take(i as int);
        let tail = candidates@.skip(i as int);
        assert(head + tail =~= candidates@);
        Seq::filter_distributes_over_add(head, tail, pred);
        if i == candidates.len() {
            assert(head =~= candidates@);
        } else {
            assert((kept@ + tail.filter(pred)).take(FORMANT_COUNT as int) =~= kept@);
        }
        assert(kept@ =~= retained(candidates@, pitch));
    }
    kept
}

/// What one run of a pitch tracker gave.
#[derive(Debug)]
pub struct TrackerOutput {
    /// Number of samples in the window when the run began.
    pub window_len: usize,
    /// Whether a further run on the samples left would give more.
    pub more_output: bool,
    /// The estimates of the run, latest first.
    pub estimates: Vec<Estimate>,
}

/// The pitches of one run of a tracker, oldest first, each with its time
/// counted from the end of the window that the run began with.
pub open spec fn pitches_of_run(output: TrackerOutput) -> Seq<Pitch> {
    Seq::new(
        output.estimates@.len(),
        |i: int| pitch_from(output.estimates@[output.estimates@.len() - 1 - i], output.window_len),
    )
}

/// The pitches that a sequence of runs of a tracker gives: those of the last
/// run after which no more output was to come, and none where there is no
/// such run.
pub open spec fn pitches_of_runs(outputs: Seq<TrackerOutput>) -> Seq<Pitch>
    decreases outputs.len(),
{
    if outputs.len() == 0 {
        Seq::empty()
    } else if !outputs.last().more_output {
        pitches_of_run(outputs.last())
    } else {
        pitches_of_runs(outputs.drop_last())
    }
}

/// The pitches of one run of a tracker, oldest first.
fn collect_run(output: &TrackerOutput) -> (r: Vec<Pitch>)
    ensures
        r@ == pitches_of_run(*output),
{
    let count: usize = output.estimates.len();
    let mut pitches: Vec<Pitch> = Vec::with_capacity(count);
    let mut i: usize = 0;
    while i < count
        invariant
            count == output.estimates.len(),
            i <= count,
            pitches.len() == i,
            forall|j: int| 0 <= j < i ==> #[trigger] pitches[j] == pitches_of_run(*output)[j],
        decreases count - i,
    {
        pitches.push(Pitch::new(output.estimates[count - 1 - i], output.window_len));
        i = i + 1;
    }
    proof {
        assert(pitches@ =~= pitches_of_run(*output));
    }
    pitches
}

/// The pitches that a sequence of runs of a tracker gives.
pub fn collect_pitches(outputs: &Vec<TrackerOutput>) -> (r: Vec<Pitch>)
    ensures
        r@ == pitches_of_runs(outputs@),
{
    let mut i: usize = outputs.len();
    proof {
        assert(outputs@.take(i as int) =~= outputs@);
    }
    while i > 0 && outputs[i - 1].more_output
        invariant
            i <= outputs.len(),
            pitches_of_runs(outputs@) == pitches_of_runs(outputs@.take(i as int)),
        decreases i,
    {
        proof {
            assert(outputs@.take(i as int).drop_last() =~= outputs@.take(i - 1));
        }
        i = i - 1;
    }
    if i == 0 {
        Vec::new()
    } else {
        collect_run(&outputs[i - 1])
    }
}

/// What an analyzer holds, as plain values.
pub struct AnalyzerView<S> {
    /// The rate of the samples fed, in hertz.
    pub sample_rate: u32,
    pub pitch_algorithm: PitchEstimationAlgorithm,
    pub formant_algorithm: FormantEstimationAlgorithm,
    /// The samples fed that no frame of the rate converter has taken yet.
    pub carry: Seq<S>,
    /// The rolling window of converted samples, oldest first.
    pub window: Seq<i32>,
}

impl<S> AnalyzerView<S> {
    /// The rate divides by a ratio of at least 1, and a window that the YIN
    /// estimator reads stays within its bound.
    pub open spec fn wf(self) -> bool {
        &&& downsample_ratio_of(self.sample_rate) >= 1
        &&& self.pitch_algorithm is Yin ==> self.window.len() <= window_bound()
    }

    /// A new analyzer: nothing carried, an empty window.
    pub open spec fn fresh(
        sample_rate: u32,
        pitch_algorithm: PitchEstimationAlgorithm,
        formant_algorithm: FormantEstimationAlgorithm,
    ) -> AnalyzerView<S> {
        AnalyzerView {
            sample_rate,
            pitch_algorithm,
            formant_algorithm,
            carry: Seq::empty(),
            window: Seq::empty(),
        }
    }

    /// The window after converted samples have arrived: they are appended,
    /// and where the YIN estimator reads the window it is cut at the front to
    /// its bound. A tracker takes from the window what it has used itself.
    pub open spec fn window_after(self, resampled: Seq<i32>) -> Seq<i32> {
        match self.pitch_algorithm {
            PitchEstimationAlgorithm::Yin => trimmed(self.window + resampled, window_bound()),
            PitchEstimationAlgorithm::Irapt => self.window + resampled,
        }
    }

    /// The analyzer after converted samples have arrived.
    pub open spec fn fed(self, resampled: Seq<i32>) -> AnalyzerView<S> {
        AnalyzerView { window: self.window_after(resampled), ..self }
    }

    /// What follows the arrival of converted samples: with a tracker, its
    /// run; with the YIN estimator, what follows its estimate on the window.
    pub open spec fn step(self, resampled: Seq<i32>) -> ActionView {
        match self.pitch_algorithm {
            PitchEstimationAlgorithm::Irapt => ActionView::Track,
            PitchEstimationAlgorithm::Yin => after_pitches(
                match pitch_of(
                    self.window_after(resampled),
                    downsampled_rate_of(self.sample_rate) as u32,
                    YIN_THRESHOLD,
                ) {
                    Some(found) => seq![found],
                    None => Seq::empty(),
                },
                self.formant_algorithm,
            ),
        }
    }
}

/// What the analyzer asks for, or gives, after a step.
#[derive(Debug)]
pub enum Action {
    /// This chunk gives no output.
    Idle,
    /// The tracker is to be run on the window.
    Track,
    /// The formant extractor is to be run on the window; these are the
    /// pitches of this chunk, oldest first.
    Extract(Vec<Pitch>),
    /// The output of this chunk.
    Emit(AnalyzerOutput),
}

/// An [`Action`] as plain values; an output is its pitches and its slots.
pub enum ActionView {
    Idle,
    Track,
    Extract(Seq<Pitch>),
    Emit(Seq<Pitch>, Seq<Formant>),
}

impl View for Action {
    type V = ActionView;

    open spec fn view(&self) -> ActionView {
        match self {
            Action::Idle => ActionView::Idle,
            Action::Track => ActionView::Track,
            Action::Extract(pitches) => ActionView::Extract(pitches@),
            Action::Emit(output) => ActionView::Emit(output.pitches@, output.formants@),
        }
    }
}

/// The slots of an output for the formants handed to it.
pub open spec fn slots_of(formants: Option<Seq<Formant>>) -> Seq<Formant> {
    Seq::new(FORMANT_COUNT as nat, |i: int| crate::slot_of(formants, i))
}

/// What follows the pitches of a chunk: without any, no output; without a
/// formant extractor, the output with empty slots; else the extraction.
pub open spec fn after_pitches(
    pitches: Seq<Pitch>,
    formant_algorithm: FormantEstimationAlgorithm,
) -> ActionView {
    if pitches.len() == 0 {
        ActionView::Idle
    } else if formant_algorithm is NoFormants {
        ActionView::Emit(pitches, slots_of(None))
    } else {
        ActionView::Extract(pitches)
    }
}

/// A sample rate in hertz that has a ratio of at least 1 to the target rate.
struct SampleRate {
    hertz: u32,
}

impl SampleRate {
    #[verifier::type_invariant]
    spec fn has_a_ratio(&self) -> bool {
        downsample_ratio_of(self.hertz) >= 1
    }
}

/// The buffers and the settings of one stream of audio.
pub struct Analyzer<S> {
    rate: SampleRate,
    downsampler: BufferedResampler<S>,
    downsampled: VecDeque<i32>,
    pitch_algorithm: PitchEstimationAlgorithm,
    formant_algorithm: FormantEstimationAlgorithm,
}

impl<S> View for Analyzer<S> {
    type V = AnalyzerView<S>;

    closed spec fn view(&self) -> AnalyzerView<S> {
        AnalyzerView {
            sample_rate: self.rate.hertz,
            pitch_algorithm: self.pitch_algorithm,
            formant_algorithm: self.formant_algorithm,
            carry: self.downsampler@,
            window: self.downsampled@,
        }
    }
}

/// `VecDeque::make_contiguous`: the items of the queue as one slice, in
/// their order from front to back; the queue holds the same items in the
/// same order afterwards.
#[verifier::external_body]
fn contiguous(window: &mut VecDeque<i32>) -> (r: &[i32])
    ensures
        r@ == old(window)@,
        final(window)@ == old(window)@,
{
    window.make_contiguous()
}

/// Appends the samples to the back of the window.
fn append(window: &mut VecDeque<i32>, samples: &[i32])
    ensures
        final(window)@ == old(window)@ + samples@,
{
    let mut i: usize = 0;
    while i < samples.len()
        invariant
            i <= samples.len(),
            window@ == old(window)@ + samples@.take(i as int),
        decreases samples.len() - i,
    {
        window.push_back(samples[i]);
        proof {
            assert(samples@.take(i + 1) =~= samples@.take(i as int).push(samples@[i as int]));
            assert(window@ =~= old(window)@ + samples@.take(i + 1));
        }
        i = i + 1;
    }
    proof {
        assert(samples@.take(samples.len() as int) =~= samples@);
    }
}

/// Takes `count` samples from the front of the window.
fn drop_front(window: &mut VecDeque<i32>, count: usize)
    requires
        count <= old(window)@.len(),
    ensures
        final(window)@ == old(window)@.skip(count as int),
{
    let mut i: usize = 0;
    proof {
        assert(window@.skip(0) =~= window@);
    }
    while i < count
        invariant
            i <= count <= old(window)@.len(),
            window@ == old(window)@.skip(i as int),
        decreases count - i,
    {
        let _ = window.pop_front();
        proof {
            assert(window@ =~= old(window)@.skip(i + 1));
        }
        i = i + 1;
    }
}

fn decide(pitches: Vec<Pitch>, formant_algorithm: FormantEstimationAlgorithm) -> (r: Action)
    ensures
        r@ == after_pitches(pitches@, formant_algorithm),
{
    if pitches.len() == 0 {
        Action::Idle
    } else {
        match formant_algorithm {
            FormantEstimationAlgorithm::NoFormants => {
                Action::Emit(AnalyzerOutput::new(pitches, None))
            },
            FormantEstimationAlgorithm::LibFormants => Action::Extract(pitches),
        }
    }
}

impl<S: Copy> Analyzer<S> {
    /// An analyzer for samples at `sample_rate` hertz, a rate of at least
    /// half the target rate: a lower one has no ratio to divide by.
    pub fn new(
        sample_rate: u32,
        pitch_estimation_algorithm: PitchEstimationAlgorithm,
        formant_estimation_algorithm: FormantEstimationAlgorithm,
    ) -> (r: Self)
        requires
            downsample_ratio_of(sample_rate) >= 1,
        ensures
            r@ == AnalyzerView::<S>::fresh(
                sample_rate,
                pitch_estimation_algorithm,
                formant_estimation_algorithm,
            ),
            r@.wf(),
    {
        let ratio: u32 = downsample_ratio(sample_rate) as u32;
        let downsampled_rate: u32 = sample_rate / ratio;
        let capacity: usize = (downsampled_rate / 2) as usize;
        Analyzer {
            rate: SampleRate { hertz: sample_rate },
            downsampler: BufferedResampler::new((ratio as usize) * RESAMPLER_CHUNK_SIZE),
            downsampled: VecDeque::with_capacity(capacity),
            pitch_algorithm: pitch_estimation_algorithm,
            formant_algorithm: formant_estimation_algorithm,
        }
    }

    /// The rate of the samples fed, in hertz.
    pub fn sample_rate(&self) -> (r: u32)
        ensures
            r == self@.sample_rate,
            downsample_ratio_of(r) >= 1,
    {
        proof {
            use_type_invariant(&self.rate);
        }
        self.rate.hertz
    }

    /// The ratio between the rate fed and the rate analysed.
    pub fn downsample_ratio(&self) -> (r: u8)
        ensures
            r == downsample_ratio_of(self@.sample_rate),
            r >= 1,
    {
        downsample_ratio(self.sample_rate())
    }

    /// The rate analysed, in hertz rounded down.
    pub fn downsampled_rate(&self) -> (r: u32)
        ensures
            r == downsampled_rate_of(self@.sample_rate),
    {
        let rate: u32 = self.sample_rate();
        rate / (downsample_ratio(rate) as u32)
    }

    /// The order of linear prediction that the formant extractor is made with.
    pub fn lpc_order(&self) -> (r: u32)
        ensures
            r == lpc_order_of(self@.sample_rate),
    {
        let rate: u32 = self.sample_rate();
        let ratio: u64 = downsample_ratio(rate) as u64;
        let total: u64 = 2_500 * ratio + rate as u64;
        proof {
            vstd::arithmetic::div_mod::lemma_div_is_ordered_by_denominator(
                total as int,
                1_000,
                1_000 * ratio as int,
            );
        }
        let order: u64 = total / (1_000 * ratio);
        order as u32
    }

    pub fn pitch_algorithm(&self) -> (r: PitchEstimationAlgorithm)
        ensures
            r == self@.pitch_algorithm,
    {
        self.pitch_algorithm
    }

    pub fn formant_algorithm(&self) -> (r: FormantEstimationAlgorithm)
        ensures
            r == self@.formant_algorithm,
    {
        self.formant_algorithm
    }

    /// The rolling window of converted samples, oldest first.
    pub fn window(&self) -> (r: &VecDeque<i32>)
        ensures
            r@ == self@.window,
    {
        &self.downsampled
    }

    /// Stages a chunk of samples for the rate converter, behind what was
    /// carried. The analyzer stays as it is until [`Analyzer::commit`].
    pub fn begin(&self, samples: &[S]) -> (r: Framing<S>)
        ensures
            r.remaining() == self@.carry + samples@,
    {
        self.downsampler.begin(samples)
    }

    /// Ends the conversion of a chunk: what no frame has taken is carried.
    pub fn commit(&mut self, framing: Framing<S>)
        ensures
            final(self)@ == (AnalyzerView { carry: framing.remaining(), ..old(self)@ }),
    {
        self.downsampler.commit(framing);
    }

    /// Takes the converted samples of a chunk into the window and says what
    /// comes next. A window that the YIN estimator reads is within its
    /// bound afterwards.
    pub fn process(&mut self, resampled: &[i32]) -> (r: Action)
        ensures
            final(self)@ == old(self)@.fed(resampled@),
            final(self)@.wf(),
            r@ == old(self)@.step(resampled@),
    {
        proof {
            use_type_invariant(&self.rate);
        }
        append(&mut self.downsampled, resampled);
        match self.pitch_algorithm {
            PitchEstimationAlgorithm::Irapt => Action::Track,
            PitchEstimationAlgorithm::Yin => {
                let max_len: usize = if FORMANTS_LPC_LENGTH >= YIN_LENGTH {
                    FORMANTS_LPC_LENGTH
                } else {
                    YIN_LENGTH
                };
                let len: usize = self.downsampled.len();
                if len > max_len {
                    drop_front(&mut self.downsampled, len - max_len);
                }
                let rate: u32 = self.rate.hertz / (downsample_ratio(self.rate.hertz) as u32);
                let mut pitches: Vec<Pitch> = Vec::new();
                match pitch(contiguous(&mut self.downsampled), rate, YIN_THRESHOLD) {
                    Some(found) => {
                        pitches.push(found);
                    },
                    None => {},
                }
                decide(pitches, self.formant_algorithm)
            },
        }
    }

    /// Takes what the runs of the tracker on the window gave, in their
    /// order, and the number of samples that they used up at the front of
    /// the window. Says what comes next.
    pub fn resume_with_estimates(&mut self, consumed: usize, outputs: Vec<TrackerOutput>) -> (r:
        Action)
        requires
            consumed <= old(self)@.window.len(),
        ensures
            final(self)@ == (AnalyzerView {
                window: old(self)@.window.skip(consumed as int),
                ..old(self)@
            }),
            r@ == after_pitches(pitches_of_runs(outputs@), old(self)@.formant_algorithm),
    {
        drop_front(&mut self.downsampled, consumed);
        decide(collect_pitches(&outputs), self.formant_algorithm)
    }

    /// Packs the output of a chunk from its pitches, oldest first, and the
    /// candidates that the formant extractor gave: those that are plausible
    /// beside the latest pitch fill the slots.
    pub fn finish_with_formants(&self, pitches: Vec<Pitch>, candidates: Vec<Formant>) -> (r:
        AnalyzerOutput)
        ensures
            r.pitches@ == pitches@,
            r.formants@ == slots_of(formants_beside(pitches@, Some(candidates@))),
    {
        AnalyzerOutput::new(pitches, Some(candidates))
    }

    /// Starts a new utterance. The window and the carried samples stay; the
    /// result says whether there is a tracker whose buffers are to be cleared.
    pub fn reset(&mut self) -> (r: bool)
        ensures
            final(self)@ == old(self)@,
            r == (old(self)@.pitch_algorithm is Irapt),
    {
        match self.pitch_algorithm {
            PitchEstimationAlgorithm::Irapt => true,
            PitchEstimationAlgorithm::Yin => false,
        }
    }
}

/// What an analyzer says after each of a run of chunks of converted samples.
pub open spec fn run<S>(analyzer: AnalyzerView<S>, chunks: Seq<Seq<i32>>) -> Seq<ActionView>
    decreases chunks.len(),
{
    if chunks.len() == 0 {
        Seq::empty()
    } else {
        seq![analyzer.step(chunks[0])] + run(analyzer.fed(chunks[0]), chunks.skip(1))
    }
}

/// An analyzer that a reset has left with the buffers of a new one answers
/// every run of chunks as the new one does. (A reset changes no buffer of
/// the analyzer, so this is so for an analyzer that was reset before it was
/// fed, and for no other in general.)
pub proof fn lemma_reset_then_run<S>(
    analyzer: AnalyzerView<S>,
    after_reset: AnalyzerView<S>,
    chunks: Seq<Seq<i32>>,
)
    requires
        after_reset == analyzer,
        analyzer == AnalyzerView::<S>::fresh(
            analyzer.sample_rate,
            analyzer.pitch_algorithm,
            analyzer.formant_algorithm,
        ),
    ensures
        run(after_reset, chunks) == run(
            AnalyzerView::<S>::fresh(
                analyzer.sample_rate,
                analyzer.pitch_algorithm,
                analyzer.formant_algorithm,
            ),
            chunks,
        ),
{
}

/// The window of an analyzer that reads it with the YIN estimator never
/// exceeds its bound, whatever arrives, and holds the latest samples.
pub proof fn lemma_window_stays_bounded<S>(analyzer: AnalyzerView<S>, resampled: Seq<i32>)
    requires
        analyzer.pitch_algorithm is Yin,
    ensures
        analyzer.fed(resampled).window.len() <= window_bound(),
        analyzer.fed(resampled).window.is_suffix_of(analyzer.window + resampled),
{
    let whole = analyzer.window + resampled;
    if whole.len() > window_bound() {
        let cut = whole.len() - window_bound();
        assert(whole.take(cut) + whole.skip(cut) =~= whole);
    } else {
        assert(Seq::<i32>::empty() + whole =~= whole);
    }
}

} // verus!
