use lab_allocator::bitmap::Bitmap;
use lab_allocator::chunk_decoder::ChunkDecoder;

#[test]
fn test_decoder() {
    let expected = [
        (0usize, 60usize),
        (61, 1),
        (63, 61),
        (125, 1),
        (127, 61),
        (189, 1),
        (191, 1),
    ];
    let mut decoder = ChunkDecoder::new(&vec![0b1010, 0b1010, 0b1010]);
    let mut i = 0;
    while let Some(c) = decoder.next() {
        assert!(i < expected.len());
        assert_eq!(c.pos, expected[i].0);
        assert_eq!(c.len, expected[i].1);
        i += 1;
    }
    assert_eq!(i, expected.len());
}

// Decoding a bitmap and re-setting every run into a cleared bitmap yields
// the bitwise complement of the original.
#[test]
fn decoder_reconstructs_complement() {
    let original = vec![0xdead_beef_0123_4567u64, 0x8000_0000_0000_0001u64];
    let mut decoder = ChunkDecoder::new(&original);
    let mut rebuilt = Bitmap::new(vec![0, 0]);
    while let Some(run) = decoder.next() {
        rebuilt.set(run.pos, run.len);
    }
    assert_eq!(rebuilt.bits, vec![!original[0], !original[1]]);
}

// An all-ones bitmap decodes to nothing; an all-zero bitmap to one run.
#[test]
fn decoder_edge_words() {
    let mut decoder = ChunkDecoder::new(&vec![u64::MAX, u64::MAX]);
    assert!(decoder.next().is_none());

    let mut decoder = ChunkDecoder::new(&vec![0, 0]);
    let run = decoder.next().unwrap();
    assert_eq!(run.pos, 0);
    assert_eq!(run.len, 128);
    assert!(decoder.next().is_none());
}
