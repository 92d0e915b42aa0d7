use synth::fixed::ONE;
use synth::melody::{chord_signal, generate_melody, harmonics, play_note};
use synth::signals::{Const, Signal};

#[test]
fn harmonic_table_has_the_ten_piano_volumes() {
    let h = harmonics();
    assert_eq!(
        h,
        vec![45875, 15925, 15008, 6226, 9110, 5702, 18874, 13042, 8126, 5898]
    );
}

#[test]
fn a_note_voice_opens_at_the_sum_of_its_harmonic_volumes() {
    // at phase zero every oscillator is at full scale, so the first sample
    // is exactly the sum of the ten volumes
    let h = harmonics();
    let mut voice = play_note(Const::new(440 * 65536), &h);
    assert_eq!(voice.sample(0), 143786);
}

#[test]
fn a_note_voice_with_no_harmonics_is_silence() {
    let mut voice = play_note(Const::new(440 * 65536), &Vec::new());
    for t in 0..5u64 {
        assert_eq!(voice.sample(t), 0);
    }
}

#[test]
fn a_chord_opens_at_the_sum_over_its_notes() {
    let h = harmonics();
    let mut c = chord_signal(&vec![262 * 65536, 330 * 65536], &h);
    assert_eq!(c.sample(0), 2 * 143786);
}

#[test]
fn gate_articulation_at_sixty_bpm() {
    // one note of one beat at 60 BPM holds its gate 0.98 s high, then
    // 0.02 s low (44100 ticks a second)
    let (_, mut gate) = generate_melody(&vec![(440 * 65536, 1000)], 60);
    assert_eq!(gate.sample(0), ONE);
    assert_eq!(gate.sample(43217), ONE);
    assert_eq!(gate.sample(43218), 0);
    assert_eq!(gate.sample(44099), 0);
    // and the sequence loops
    assert_eq!(gate.sample(44100), ONE);
}

#[test]
fn melody_frequency_sequence_carries_each_notes_voice() {
    let (mut freq, _) = generate_melody(&vec![(440 * 65536, 1000)], 60);
    // the voice's first sample is the harmonic-volume sum
    assert_eq!(freq.sample(0), 143786);
}

#[test]
fn melody_sequences_loop_after_the_total_duration() {
    // two half-beat notes at 120 BPM: each 661 ticks, total 1322
    let notes = vec![(440 * 65536, 500u64), (330 * 65536, 500u64)];
    let (_, mut gate) = generate_melody(&notes, 120);
    let mut first: Vec<i64> = Vec::new();
    for t in 0..1322u64 {
        first.push(gate.sample(t));
    }
    for t in 0..1322u64 {
        assert_eq!(gate.sample(t + 1322), first[t as usize]);
    }
}

#[test]
fn an_empty_melody_renders_silence() {
    let (mut freq, mut gate) = generate_melody(&Vec::new(), 120);
    for t in 0..10u64 {
        assert_eq!(freq.sample(t), 0);
        assert_eq!(gate.sample(t), 0);
    }
}

#[test]
fn a_note_shorter_than_the_silence_gap_is_all_silence() {
    // 10 millibeats at 60 BPM is 441 ticks, shorter than the 882-tick gap:
    // the high segment is clamped to zero length, never negative
    let (_, mut gate) = generate_melody(&vec![(440 * 65536, 10)], 60);
    for t in 0..441u64 {
        assert_eq!(gate.sample(t), 0);
    }
}
