use sirtea::pcm::pcm_f32le_to_samples;

#[test]
fn pcm_roundtrip() {
    let samples = [0.0f32, 1.0, -1.0, 0.5, f32::MIN_POSITIVE];
    let bytes: Vec<u8> = samples.iter().flat_map(|s| s.to_le_bytes()).collect();
    let read: Vec<f32> = pcm_f32le_to_samples(&bytes)
        .unwrap()
        .into_iter()
        .map(f32::from_bits)
        .collect();
    assert_eq!(read, samples);
}

#[test]
fn pcm_empty() {
    let read: Vec<f32> = pcm_f32le_to_samples(&[])
        .unwrap()
        .into_iter()
        .map(f32::from_bits)
        .collect();
    assert_eq!(read, Vec::<f32>::new());
}

#[test]
fn pcm_truncated() {
    let err = pcm_f32le_to_samples(&[0, 0, 0]).unwrap_err();
    assert!(err.message().contains("not a whole number"));
    assert_eq!(
        err.message(),
        "PCM byte stream length 3 is not a whole number of f32 samples"
    );
}

#[test]
fn bytes_are_little_endian() {
    assert_eq!(
        pcm_f32le_to_samples(&[0x01, 0x02, 0x03, 0x84]).unwrap(),
        vec![0x8403_0201]
    );
}
