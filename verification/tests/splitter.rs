use shard_sink::tools::chunked_split::{rposition, ChunkedSplit, ChunkedSplitTrait};

fn all_chunks(input: &Vec<u8>, sep: u8, chunk_size: usize) -> Vec<Vec<u8>> {
    let mut split = input.chucked_split(sep, chunk_size);
    let mut out: Vec<Vec<u8>> = Vec::new();
    while let Some(chunk) = split.next() {
        out.push(chunk.to_vec());
    }
    out
}

fn sample(len: usize, seed: u64) -> Vec<u8> {
    let mut state = seed;
    let mut out = Vec::new();
    for _ in 0..len {
        state = state.wrapping_mul(6364136223846793005).wrapping_add(1442695040888963407);
        let pick = (state >> 33) % 7;
        out.push(if pick == 0 { b'\n' } else { b'a' + pick as u8 });
    }
    out
}

#[test]
fn boundary_is_the_last_separator_of_the_window() {
    let input = b"aaa\nbbb\nccccccccccc".to_vec();
    let chunks = all_chunks(&input, b'\n', 8);
    assert_eq!(chunks[0], b"aaa\nbbb".to_vec());
    assert_eq!(chunks[1], b"\nccccccc".to_vec());
    assert_eq!(chunks[2], b"cccc".to_vec());
    assert_eq!(chunks.len(), 3);
}

#[test]
fn boundary_after_one_record_when_the_window_holds_one_separator() {
    let input = b"aaa\nbbbbbbbbbbb".to_vec();
    let chunks = all_chunks(&input, b'\n', 8);
    assert_eq!(chunks[0], b"aaa".to_vec());
    assert_eq!(chunks[1], b"\nbbbbbbb".to_vec());
    assert_eq!(chunks[2], b"bbbb".to_vec());
    assert_eq!(chunks.len(), 3);
}

#[test]
fn without_separator_the_window_is_the_chunk() {
    let input = vec![b'x'; 20];
    let chunks = all_chunks(&input, b'\n', 8);
    let lengths: Vec<usize> = chunks.iter().map(|c| c.len()).collect();
    assert_eq!(lengths, vec![8, 8, 4]);
}

#[test]
fn separator_at_the_front_gives_the_whole_window() {
    let input = b"\nabcdefghij".to_vec();
    let chunks = all_chunks(&input, b'\n', 4);
    assert_eq!(chunks[0], b"\nabc".to_vec());
    assert_eq!(chunks[1], b"defg".to_vec());
    assert_eq!(chunks[2], b"hij".to_vec());
    assert_eq!(chunks.len(), 3);
}

#[test]
fn more_chunks_than_the_hint_when_records_are_short() {
    let input = b"a\nb\nc\n".to_vec();
    let split = input.chucked_split(b'\n', 4);
    assert_eq!(split.size_hint(), (2, Some(2)));
    let chunks = all_chunks(&input, b'\n', 4);
    assert_eq!(chunks, vec![b"a\nb".to_vec(), b"\nc".to_vec(), b"\n".to_vec()]);
}

#[test]
fn chunks_concatenate_to_the_input() {
    for seed in 0..40u64 {
        for chunk_size in [1usize, 2, 3, 5, 8, 13, 64, 1000] {
            let input = sample((seed as usize * 7) % 200, seed);
            let chunks = all_chunks(&input, b'\n', chunk_size);
            let rebuilt: Vec<u8> = chunks.concat();
            assert_eq!(rebuilt, input);
        }
    }
}

#[test]
fn no_chunk_is_empty_or_over_the_cap() {
    for seed in 0..40u64 {
        for chunk_size in [1usize, 2, 3, 5, 8, 13, 64] {
            let input = sample(150, seed);
            for chunk in all_chunks(&input, b'\n', chunk_size) {
                assert!(chunk.len() >= 1);
                assert!(chunk.len() <= chunk_size);
            }
        }
    }
}

#[test]
fn empty_buffer_has_no_chunk() {
    let input: Vec<u8> = Vec::new();
    let mut split = input.chucked_split(b'\n', 8);
    assert_eq!(split.len(), 0);
    assert_eq!(split.size_hint(), (0, Some(0)));
    assert!(split.next().is_none());
    assert!(split.next().is_none());
}

#[test]
fn len_counts_what_is_left() {
    let input = vec![b'x'; 20];
    let mut split = input.chucked_split(b'\n', 8);
    assert_eq!(split.len(), 20);
    split.next();
    assert_eq!(split.len(), 12);
    split.next();
    assert_eq!(split.len(), 4);
    split.next();
    assert_eq!(split.len(), 0);
}

#[test]
fn size_hint_rounds_up() {
    let input = vec![b'x'; 20];
    assert_eq!(input.chucked_split(b'\n', 8).size_hint(), (3, Some(3)));
    assert_eq!(input.chucked_split(b'\n', 10).size_hint(), (2, Some(2)));
    assert_eq!(input.chucked_split(b'\n', 20).size_hint(), (1, Some(1)));
    assert_eq!(input.chucked_split(b'\n', 21).size_hint(), (1, Some(1)));
    assert_eq!(input.chucked_split(b'\n', 1).size_hint(), (20, Some(20)));
}

#[test]
fn collect_gives_what_next_gives() {
    let input = sample(300, 99);
    let collected: Vec<Vec<u8>> =
        input.chucked_split(b'\n', 16).collect().iter().map(|c| c.to_vec()).collect();
    assert_eq!(collected, all_chunks(&input, b'\n', 16));
}

#[test]
fn chunk_as_long_as_the_buffer() {
    let input = b"abc".to_vec();
    assert_eq!(all_chunks(&input, b'\n', 3), vec![b"abc".to_vec()]);
    assert_eq!(all_chunks(&input, b'\n', 100), vec![b"abc".to_vec()]);
}

#[test]
fn splits_other_element_types() {
    let input: Vec<i32> = vec![5, 6, 0, 7, 8, 9, 0, 1];
    let mut split: ChunkedSplit<'_, i32> = input.chucked_split(0, 4);
    assert_eq!(split.next(), Some(&[5, 6][..]));
    assert_eq!(split.next(), Some(&[0, 7, 8, 9][..]));
    assert_eq!(split.next(), Some(&[0, 1][..]));
    assert_eq!(split.next(), None);
}

#[test]
fn rposition_finds_the_last_match() {
    assert_eq!(rposition(&b"a\nb\nc"[..], &b'\n'), Some(3));
    assert_eq!(rposition(&b"\nabc"[..], &b'\n'), Some(0));
    assert_eq!(rposition(&b"abc"[..], &b'\n'), None);
    assert_eq!(rposition(&b""[..], &b'\n'), None);
}
