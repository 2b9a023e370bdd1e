use voice_analyzer::analyzer::{
    collect_pitches, downsample_ratio, filter_formants, Action, Analyzer, TrackerOutput,
    FORMANTS_LPC_LENGTH, YIN_LENGTH, YIN_THRESHOLD,
};
use voice_analyzer::{
    AnalyzerOutput, Estimate, Formant, FormantEstimationAlgorithm, Pitch,
    PitchEstimationAlgorithm, FORMANT_COUNT,
};

const ZERO: Formant = Formant { frequency: 0, bandwidth: 0 };

fn tone(frequency: f64, sample_rate: f64, len: usize) -> Vec<i32> {
    let mut samples = Vec::with_capacity(len);
    for i in 0..len {
        let phase = 2.0 * std::f64::consts::PI * frequency * (i as f64) / sample_rate;
        samples.push((phase.sin() * 1_048_576.0).round() as i32);
    }
    samples
}

fn hz(frequency: u64, bandwidth: u64) -> Formant {
    Formant { frequency: frequency * 1000, bandwidth: bandwidth * 1000 }
}

fn at(value: u64) -> Pitch {
    Pitch { value: value * 1000, confidence: 900_000, time: 0 }
}

fn heard(value: u64, offset: i64) -> Estimate {
    Estimate { frequency: value * 1000, energy: 900_000, offset }
}

fn run(window_len: usize, more_output: bool, estimates: Vec<Estimate>) -> TrackerOutput {
    TrackerOutput { window_len, more_output, estimates }
}

#[test]
fn ratio_rounds_to_the_nearest_integer() {
    assert_eq!(downsample_ratio(44_100), 4);
    assert_eq!(downsample_ratio(48_000), 4);
    assert_eq!(downsample_ratio(22_050), 2);
    assert_eq!(downsample_ratio(16_000), 1);
    assert_eq!(downsample_ratio(17_999), 1);
    assert_eq!(downsample_ratio(18_000), 2);
    assert_eq!(downsample_ratio(6_000), 1);
    assert_eq!(downsample_ratio(5_999), 0);
    assert_eq!(downsample_ratio(0), 0);
    assert_eq!(downsample_ratio(u32::MAX), 255);
}

#[test]
fn rates_of_an_analyzer_at_44100_hz() {
    let analyzer = Analyzer::<i32>::new(
        44_100,
        PitchEstimationAlgorithm::Yin,
        FormantEstimationAlgorithm::NoFormants,
    );
    assert_eq!(analyzer.sample_rate(), 44_100);
    assert_eq!(analyzer.downsample_ratio(), 4);
    assert_eq!(analyzer.downsampled_rate(), 11_025);
    assert_eq!(analyzer.lpc_order(), 13);
    assert_eq!(analyzer.pitch_algorithm(), PitchEstimationAlgorithm::Yin);
    assert_eq!(analyzer.formant_algorithm(), FormantEstimationAlgorithm::NoFormants);
    assert!(analyzer.window().is_empty());
}

#[test]
fn rates_of_analyzers_at_other_rates() {
    let yin = PitchEstimationAlgorithm::Yin;
    let off = FormantEstimationAlgorithm::NoFormants;
    let analyzer = Analyzer::<i32>::new(48_000, yin, off);
    assert_eq!((analyzer.downsampled_rate(), analyzer.lpc_order()), (12_000, 14));
    let analyzer = Analyzer::<i32>::new(32_000, yin, off);
    assert_eq!(analyzer.downsample_ratio(), 3);
    assert_eq!((analyzer.downsampled_rate(), analyzer.lpc_order()), (10_666, 13));
    let analyzer = Analyzer::<i32>::new(16_000, yin, off);
    assert_eq!((analyzer.downsampled_rate(), analyzer.lpc_order()), (16_000, 18));
    let analyzer = Analyzer::<i32>::new(11_500, yin, off);
    assert_eq!((analyzer.downsampled_rate(), analyzer.lpc_order()), (11_500, 14));
    let analyzer = Analyzer::<i32>::new(u32::MAX, yin, off);
    assert_eq!(analyzer.downsample_ratio(), 255);
    assert_eq!(analyzer.downsampled_rate(), 16_843_009);
    assert_eq!(analyzer.lpc_order(), 16_845);
}

#[test]
fn formants_at_or_below_one_and_a_half_times_the_pitch_are_dropped() {
    let kept = filter_formants(&[hz(150, 10), hz(1200, 50)], at(100));
    assert_eq!(kept, vec![hz(1200, 50)]);
}

#[test]
fn formants_just_above_the_cutoff_are_kept() {
    let just_above = Formant { frequency: 150_001, bandwidth: 10_000 };
    assert_eq!(filter_formants(&[just_above], at(100)), vec![just_above]);
    let pitch = Pitch { value: 100_001, confidence: 0, time: 0 };
    assert_eq!(filter_formants(&[hz(150, 10)], pitch), Vec::<Formant>::new());
    let pitch = Pitch { value: 99_999, confidence: 0, time: 0 };
    assert_eq!(filter_formants(&[hz(150, 10)], pitch), vec![hz(150, 10)]);
}

#[test]
fn formants_without_a_positive_frequency_are_dropped() {
    let silent = Pitch { value: 0, confidence: 0, time: 0 };
    let kept = filter_formants(&[Formant { frequency: 0, bandwidth: 7 }, hz(1, 1)], silent);
    assert_eq!(kept, vec![hz(1, 1)]);
}

#[test]
fn formants_keep_their_order_and_fill_no_more_than_the_slots() {
    let candidates = [hz(900, 1), hz(100, 2), hz(700, 3), hz(0, 4), hz(2500, 5), hz(300, 6)];
    let kept = filter_formants(&candidates, at(100));
    assert_eq!(kept, vec![hz(900, 1), hz(700, 3)]);
    assert_eq!(kept.len(), FORMANT_COUNT);
    assert_eq!(filter_formants(&[], at(100)), Vec::<Formant>::new());
}

#[test]
fn formants_beside_the_largest_pitch() {
    let pitch = Pitch { value: u64::MAX, confidence: 0, time: 0 };
    let top = Formant { frequency: u64::MAX, bandwidth: 0 };
    assert_eq!(filter_formants(&[top], pitch), Vec::<Formant>::new());
}

#[test]
fn an_output_holds_zeros_in_empty_slots() {
    let output = AnalyzerOutput::new(vec![at(100)], None);
    assert_eq!(output.pitches, vec![at(100)]);
    assert_eq!(output.formants, [ZERO, ZERO]);
    let output = AnalyzerOutput::new(vec![], Some(vec![]));
    assert!(output.pitches.is_empty());
    assert_eq!(output.formants, [ZERO, ZERO]);
    let output = AnalyzerOutput::new(vec![at(100)], Some(vec![hz(500, 40)]));
    assert_eq!(output.formants, [hz(500, 40), ZERO]);
}

#[test]
fn an_output_holds_the_first_plausible_formants() {
    let formants = vec![hz(500, 40), hz(1500, 60), hz(2500, 80)];
    let output = AnalyzerOutput::new(vec![at(100), at(110)], Some(formants));
    assert_eq!(output.pitches, vec![at(100), at(110)]);
    assert_eq!(output.formants, [hz(500, 40), hz(1500, 60)]);
    let formants = vec![hz(120, 40), hz(1500, 60), hz(165, 5), hz(2500, 80)];
    let output = AnalyzerOutput::new(vec![at(100), at(110)], Some(formants));
    assert_eq!(output.formants, [hz(1500, 60), hz(2500, 80)]);
}

#[test]
fn an_output_leaves_out_a_formant_at_the_cutoff() {
    let formants = vec![hz(150, 10), hz(1200, 50)];
    let output = AnalyzerOutput::new(vec![at(100)], Some(formants));
    assert!(output.formants.iter().all(|formant| formant.frequency != 150_000));
    assert_eq!(output.formants, [hz(1200, 50), ZERO]);
}

#[test]
fn an_output_leaves_out_formants_without_a_positive_frequency() {
    let none = |bandwidth: u64| Formant { frequency: 0, bandwidth: bandwidth * 1000 };
    let formants = vec![none(10), none(1), none(1), hz(2000, 80)];
    let output = AnalyzerOutput::new(vec![at(100)], Some(formants));
    assert_eq!(output.formants, [hz(2000, 80), ZERO]);
}

#[test]
fn an_output_without_a_pitch_holds_no_formant() {
    let output = AnalyzerOutput::new(vec![], Some(vec![hz(2000, 80)]));
    assert!(output.pitches.is_empty());
    assert_eq!(output.formants, [ZERO, ZERO]);
    let analyzer = Analyzer::<i32>::new(
        44_100,
        PitchEstimationAlgorithm::Yin,
        FormantEstimationAlgorithm::LibFormants,
    );
    let output = analyzer.finish_with_formants(vec![], vec![hz(2000, 80)]);
    assert_eq!(output.formants, [ZERO, ZERO]);
}

#[test]
fn a_pitch_of_a_tracker_counts_time_from_the_end_of_the_window() {
    let estimate = Estimate { frequency: 220_000, energy: 800_000, offset: 1200 };
    let pitch = Pitch::new(estimate, 3600);
    assert_eq!(pitch, Pitch { value: 220_000, confidence: 800_000, time: -2400 });
    let pitch = Pitch::new(Estimate { offset: -50, ..estimate }, 0);
    assert_eq!(pitch.time, -50);
}

#[test]
fn a_pitch_of_a_tracker_holds_its_time_to_the_range() {
    let estimate = Estimate { frequency: 1, energy: 1, offset: i64::MIN + 5 };
    assert_eq!(Pitch::new(estimate, 10).time, i64::MIN);
    assert_eq!(Pitch::new(estimate, 5).time, i64::MIN);
    assert_eq!(Pitch::new(estimate, 4).time, i64::MIN + 1);
    let estimate = Estimate { frequency: 1, energy: 1, offset: i64::MAX };
    assert_eq!(Pitch::new(estimate, 0).time, i64::MAX);
    assert_eq!(Pitch::new(estimate, usize::MAX).time, i64::MIN);
}

#[test]
fn the_pitches_of_a_tracker_are_those_of_its_last_complete_run() {
    let outputs = vec![
        run(500, false, vec![heard(100, 30)]),
        run(400, false, vec![heard(230, 300), heard(220, 200), heard(210, 100)]),
        run(300, true, vec![heard(500, 10)]),
    ];
    let expected = vec![
        Pitch { value: 210_000, confidence: 900_000, time: -300 },
        Pitch { value: 220_000, confidence: 900_000, time: -200 },
        Pitch { value: 230_000, confidence: 900_000, time: -100 },
    ];
    assert_eq!(collect_pitches(&outputs), expected);
}

#[test]
fn a_tracker_without_a_complete_run_gives_no_pitch() {
    assert_eq!(collect_pitches(&vec![]), Vec::<Pitch>::new());
    let outputs = vec![run(500, true, vec![heard(100, 30)]), run(400, true, vec![heard(90, 3)])];
    assert_eq!(collect_pitches(&outputs), Vec::<Pitch>::new());
    let outputs = vec![run(500, true, vec![heard(100, 30)]), run(400, false, vec![])];
    assert_eq!(collect_pitches(&outputs), Vec::<Pitch>::new());
}

#[test]
fn yin_analyzer_reports_a_tone_of_220_hz() {
    let mut analyzer = Analyzer::<i32>::new(
        44_100,
        PitchEstimationAlgorithm::Yin,
        FormantEstimationAlgorithm::NoFormants,
    );
    let resampled = tone(220.0, 11_025.0, 3600);
    match analyzer.process(&resampled) {
        Action::Emit(output) => {
            assert_eq!(output.pitches.len(), 1);
            let value = output.pitches[0].value;
            assert!(value >= 215_600 && value <= 224_400);
            assert_eq!(output.pitches[0], Pitch { value: 220_042, confidence: 999_900, time: 0 });
            assert_eq!(output.formants, [ZERO, ZERO]);
        }
        other => panic!("expected an output, got {:?}", other),
    }
    assert_eq!(analyzer.window(), &resampled);
}

#[test]
fn yin_analyzer_is_idle_on_silence() {
    let mut analyzer = Analyzer::<i32>::new(
        44_100,
        PitchEstimationAlgorithm::Yin,
        FormantEstimationAlgorithm::LibFormants,
    );
    assert!(matches!(analyzer.process(&vec![0; 3600]), Action::Idle));
    assert!(matches!(analyzer.process(&[]), Action::Idle));
    assert_eq!(analyzer.window().len(), 3600);
}

#[test]
fn yin_analyzer_keeps_the_latest_samples() {
    let mut analyzer = Analyzer::<i32>::new(
        48_000,
        PitchEstimationAlgorithm::Yin,
        FormantEstimationAlgorithm::NoFormants,
    );
    let bound = YIN_LENGTH.max(FORMANTS_LPC_LENGTH);
    let first: Vec<i32> = (0..3000).collect();
    let second: Vec<i32> = (3000..5000).collect();
    analyzer.process(&first);
    assert_eq!(analyzer.window(), &first);
    analyzer.process(&second);
    let latest: Vec<i32> = (1400..5000).collect();
    assert_eq!(analyzer.window().len(), bound);
    assert_eq!(analyzer.window(), &latest);
}

#[test]
fn yin_analyzer_asks_for_formants_when_it_has_a_pitch() {
    let mut analyzer = Analyzer::<i32>::new(
        44_100,
        PitchEstimationAlgorithm::Yin,
        FormantEstimationAlgorithm::LibFormants,
    );
    let pitches = match analyzer.process(&tone(220.0, 11_025.0, 3600)) {
        Action::Extract(pitches) => pitches,
        other => panic!("expected an extraction, got {:?}", other),
    };
    assert_eq!(pitches, vec![Pitch { value: 220_042, confidence: 999_900, time: 0 }]);
    let candidates = [hz(300, 20), hz(700, 60), hz(0, 5), hz(1200, 90), hz(2600, 120)];
    let output = analyzer.finish_with_formants(pitches, candidates.to_vec());
    assert_eq!(output.pitches.len(), 1);
    assert_eq!(output.formants, [hz(700, 60), hz(1200, 90)]);
}

#[test]
fn formants_are_filtered_by_the_latest_pitch() {
    let analyzer = Analyzer::<i32>::new(
        44_100,
        PitchEstimationAlgorithm::Irapt,
        FormantEstimationAlgorithm::LibFormants,
    );
    let candidates = [hz(400, 20), hz(1000, 60)];
    let output = analyzer.finish_with_formants(vec![at(100), at(300)], candidates.to_vec());
    assert_eq!(output.pitches, vec![at(100), at(300)]);
    assert_eq!(output.formants, [hz(1000, 60), ZERO]);
    let output = analyzer.finish_with_formants(vec![at(300), at(100)], candidates.to_vec());
    assert_eq!(output.formants, [hz(400, 20), hz(1000, 60)]);
}

#[test]
fn tracker_analyzer_leaves_the_window_to_the_tracker() {
    let mut analyzer = Analyzer::<i32>::new(
        44_100,
        PitchEstimationAlgorithm::Irapt,
        FormantEstimationAlgorithm::NoFormants,
    );
    let samples: Vec<i32> = (0..4000).collect();
    assert!(matches!(analyzer.process(&samples), Action::Track));
    assert_eq!(analyzer.window().len(), 4000);
    assert!(matches!(analyzer.resume_with_estimates(1000, vec![]), Action::Idle));
    let rest: Vec<i32> = (1000..4000).collect();
    assert_eq!(analyzer.window(), &rest);
    let outputs = vec![run(3000, false, vec![heard(210, 3000), heard(200, 2900)])];
    match analyzer.resume_with_estimates(0, outputs) {
        Action::Emit(output) => {
            let mut expected = vec![at(200), at(210)];
            expected[0].time = -100;
            assert_eq!(output.pitches, expected);
            assert_eq!(output.formants, [ZERO, ZERO]);
        }
        other => panic!("expected an output, got {:?}", other),
    }
    assert_eq!(analyzer.window(), &rest);
    assert!(matches!(analyzer.resume_with_estimates(3000, vec![]), Action::Idle));
    assert!(analyzer.window().is_empty());
}

#[test]
fn tracker_analyzer_asks_for_formants_when_it_has_estimates() {
    let mut analyzer = Analyzer::<i32>::new(
        44_100,
        PitchEstimationAlgorithm::Irapt,
        FormantEstimationAlgorithm::LibFormants,
    );
    assert!(matches!(analyzer.process(&[1, 2, 3]), Action::Track));
    match analyzer.resume_with_estimates(1, vec![run(3, false, vec![heard(200, 3)])]) {
        Action::Extract(pitches) => assert_eq!(pitches, vec![at(200)]),
        other => panic!("expected an extraction, got {:?}", other),
    }
    assert!(matches!(analyzer.resume_with_estimates(0, vec![]), Action::Idle));
}

#[test]
fn the_analyzer_frames_its_input_and_carries_the_rest() {
    let mut analyzer = Analyzer::<i32>::new(
        44_100,
        PitchEstimationAlgorithm::Yin,
        FormantEstimationAlgorithm::NoFormants,
    );
    let samples: Vec<i32> = (0..500).collect();
    let mut framing = analyzer.begin(&samples);
    assert_eq!(framing.next_frame(240), Some((0..240).collect::<Vec<i32>>()));
    assert_eq!(framing.next_frame(240), Some((240..480).collect::<Vec<i32>>()));
    assert_eq!(framing.next_frame(240), None);
    analyzer.commit(framing);
    let mut framing = analyzer.begin(&samples[..220]);
    assert_eq!(framing.remaining_len(), 240);
    let mut expected: Vec<i32> = (480..500).collect();
    expected.extend(0..220);
    assert_eq!(framing.next_frame(240), Some(expected));
    analyzer.commit(framing);
    assert_eq!(analyzer.begin(&[]).remaining_len(), 0);
}

#[test]
fn a_failed_conversion_leaves_the_analyzer_as_it_was() {
    let mut analyzer = Analyzer::<i32>::new(
        44_100,
        PitchEstimationAlgorithm::Yin,
        FormantEstimationAlgorithm::NoFormants,
    );
    let mut framing = analyzer.begin(&[1, 2, 3]);
    assert_eq!(framing.next_frame(2), Some(vec![1, 2]));
    analyzer.commit(framing);
    {
        let mut framing = analyzer.begin(&[4, 5, 6]);
        assert_eq!(framing.next_frame(2), Some(vec![3, 4]));
    }
    assert_eq!(analyzer.begin(&[]).remaining_len(), 1);
    assert!(analyzer.window().is_empty());
}

#[test]
fn reset_says_whether_a_tracker_is_to_be_cleared() {
    let off = FormantEstimationAlgorithm::NoFormants;
    assert!(Analyzer::<i32>::new(44_100, PitchEstimationAlgorithm::Irapt, off).reset());
    assert!(!Analyzer::<i32>::new(44_100, PitchEstimationAlgorithm::Yin, off).reset());
}

#[test]
fn a_reset_analyzer_answers_as_a_new_one() {
    let off = FormantEstimationAlgorithm::NoFormants;
    let mut fresh = Analyzer::<i32>::new(44_100, PitchEstimationAlgorithm::Yin, off);
    let mut reset = Analyzer::<i32>::new(44_100, PitchEstimationAlgorithm::Yin, off);
    reset.reset();
    let stream = tone(330.0, 11_025.0, 5000);
    for chunk in stream.chunks(1250) {
        let a = format!("{:?}", fresh.process(chunk));
        let b = format!("{:?}", reset.process(chunk));
        assert_eq!(a, b);
        assert_eq!(fresh.window(), reset.window());
    }
    assert!(matches!(fresh.process(&[]), Action::Emit(_)));
}

#[test]
fn reset_keeps_the_window() {
    let off = FormantEstimationAlgorithm::NoFormants;
    let mut analyzer = Analyzer::<i32>::new(44_100, PitchEstimationAlgorithm::Yin, off);
    analyzer.process(&[5, 6, 7]);
    analyzer.reset();
    assert_eq!(analyzer.window(), &vec![5, 6, 7]);
}

#[test]
fn the_threshold_of_the_analyzer_is_a_fifth() {
    assert_eq!(YIN_THRESHOLD * 5, voice_analyzer::yin::SCALE);
}

#[test]
fn default_values_are_zero() {
    assert_eq!(Pitch::default(), Pitch { value: 0, confidence: 0, time: 0 });
    assert_eq!(Formant::default(), ZERO);
    let output = AnalyzerOutput::default();
    assert!(output.pitches.is_empty());
    assert_eq!(output.formants, [ZERO; FORMANT_COUNT]);
}

#[test]
fn yin_analyzer_estimates_on_the_latest_samples_of_a_stream() {
    let mut analyzer = Analyzer::<i32>::new(
        44_100,
        PitchEstimationAlgorithm::Yin,
        FormantEstimationAlgorithm::NoFormants,
    );
    let stream = tone(330.0, 11_025.0, 9000);
    let mut fed = 0;
    for chunk in stream.chunks(1700) {
        let action = analyzer.process(chunk);
        fed += chunk.len();
        let from = fed.saturating_sub(3600);
        let expected = voice_analyzer::yin::pitch(&stream[from..fed], 11_025, YIN_THRESHOLD);
        match action {
            Action::Emit(output) => assert_eq!(Some(output.pitches[0]), expected),
            Action::Idle => assert_eq!(None, expected),
            other => panic!("expected an output or none, got {:?}", other),
        }
        assert_eq!(analyzer.window(), &stream[from..fed].to_vec());
    }
}

#[test]
fn the_analyzer_frames_samples_of_any_type() {
    let mut analyzer = Analyzer::<f32>::new(
        44_100,
        PitchEstimationAlgorithm::Yin,
        FormantEstimationAlgorithm::NoFormants,
    );
    let mut framing = analyzer.begin(&[0.25, -0.5, 1.0e-9]);
    assert_eq!(framing.next_frame(2), Some(vec![0.25, -0.5]));
    analyzer.commit(framing);
    let mut framing = analyzer.begin(&[f32::MIN_POSITIVE]);
    assert_eq!(framing.next_frame(2), Some(vec![1.0e-9, f32::MIN_POSITIVE]));
    assert_eq!(framing.next_frame(1), None);
}
