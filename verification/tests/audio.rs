use scene_graph::audio::AudioSource;

#[test]
fn source_needs_sizes() {
    assert!(AudioSource::new(480, 4, 2, 48000).is_some());
    assert!(AudioSource::new(480, 0, 2, 48000).is_none());
    assert!(AudioSource::new(480, 4, 0, 48000).is_none());
    assert_eq!(AudioSource::new(480, 4, 2, 48000).unwrap().samples_per_second(), 48000);
}

#[test]
fn frames_available_is_what_is_free() {
    let source = AudioSource::new(480, 4, 2, 48000).unwrap();
    assert_eq!(source.frames_available(80, 48000), 400);
    assert_eq!(source.frames_available(480, 48000), 0);
    assert_eq!(source.frames_available(0, 48000), 480);
}

#[test]
fn frames_available_is_capped_by_the_samples() {
    let source = AudioSource::new(480, 4, 2, 48000).unwrap();
    // 100 samples of 2 bytes fill 50 frames of 4 bytes.
    assert_eq!(source.frames_available(0, 100), 50);
    assert_eq!(source.frames_available(0, 101), 50);
    assert_eq!(source.frames_available(0, 0), 0);
    assert_eq!(source.frames_available(440, 100), 40);
}

#[test]
fn samples_in_frames() {
    let source = AudioSource::new(480, 4, 2, 48000).unwrap();
    assert_eq!(source.samples_in(50), 100);
    assert_eq!(source.samples_in(0), 0);
    let odd = AudioSource::new(480, 3, 2, 48000).unwrap();
    assert_eq!(odd.samples_in(3), 4);
    let wide = AudioSource::new(u32::MAX, u32::MAX, 1, 1).unwrap();
    assert_eq!(wide.samples_in(u32::MAX), 18446744065119617025);
}

#[test]
fn frames_written_counts_whole_frames() {
    let source = AudioSource::new(480, 4, 2, 48000).unwrap();
    assert_eq!(source.frames_written(100), 50);
    assert_eq!(source.frames_written(101), 50);
    assert_eq!(source.frames_written(1), 0);
}
