use step_sequencer::mixer::mix;

fn peak(data: &[i32]) -> i64 {
    data.iter().map(|s| (*s as i64).abs()).max().unwrap_or(0)
}

fn voices_at(count: usize, level: i32, len: usize) -> Vec<Vec<i32>> {
    (0..count)
        .map(|v| (0..len).map(|i| if (v + i) % 3 == 0 { -level } else { level }).collect())
        .collect()
}

#[test]
fn no_voice_mixes_to_silence() {
    let data = mix(&Vec::new(), 8);
    assert_eq!(data, vec![0; 8]);
}

#[test]
fn one_voice_mixes_to_itself() {
    let voice = vec![5, -7, 0, i32::MAX, i32::MIN];
    let data = mix(&vec![voice.clone()], 5);
    assert_eq!(data, voice);
}

#[test]
fn mix_is_the_sum_over_the_count() {
    let data = mix(&vec![vec![10, -10, 7], vec![20, -20, 0], vec![30, 0, 0]], 3);
    assert_eq!(data, vec![20, -10, 2]);
}

#[test]
fn quotient_is_rounded_towards_silence() {
    let data = mix(&vec![vec![7, -7, 1, -1], vec![0, 0, 0, 0]], 4);
    assert_eq!(data, vec![3, -3, 0, 0]);
}

#[test]
fn short_buffer_is_silent_past_its_end() {
    let data = mix(&vec![vec![8, 8, 8, 8], vec![4]], 4);
    assert_eq!(data, vec![6, 4, 4, 4]);
}

#[test]
fn long_buffer_is_cut_and_empty_buffer_counts() {
    let data = mix(&vec![vec![9, 9, 9], vec![]], 2);
    assert_eq!(data, vec![4, 4]);
}

#[test]
fn mix_of_length_zero_is_empty() {
    assert_eq!(mix(&vec![vec![1, 2, 3]], 0), Vec::<i32>::new());
}

#[test]
fn peak_of_the_mix_is_bounded_by_the_peak_of_a_voice() {
    for &count in &[0usize, 1, 5, 50] {
        let level = 1 << 30;
        let data = mix(&voices_at(count, level, 64), 64);
        assert_eq!(data.len(), 64);
        assert!(peak(&data) <= level as i64);
        if count == 0 {
            assert_eq!(peak(&data), 0);
        }
    }
}

#[test]
fn equal_voices_mix_to_one_of_them() {
    for &count in &[1usize, 5, 50] {
        let voice: Vec<i32> = vec![1000, -2000, 3000, i32::MAX, i32::MIN];
        let voices: Vec<Vec<i32>> = (0..count).map(|_| voice.clone()).collect();
        assert_eq!(mix(&voices, 5), voice);
    }
}
