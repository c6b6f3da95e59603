use pyvsb_to_cloud::splitter::{split, ChunkStream, Data, SplitEnd, SplitOutput, Splitter, SubStream};

const M: u64 = 1 << 20;

fn payload(bytes: &[u8]) -> Result<Data, String> {
    Ok(Data::Payload(bytes.to_vec()))
}

fn eof(checksum: &str) -> Result<Data, String> {
    Ok(Data::EofWithChecksum(checksum.to_string()))
}

fn stream_len(s: &SubStream) -> u64 {
    s.chunks.iter().map(|c| c.len() as u64).sum()
}

fn all_bytes(out: &SplitOutput) -> Vec<u8> {
    let mut v = Vec::new();
    for s in &out.streams {
        for c in &s.chunks {
            v.extend_from_slice(c);
        }
    }
    v
}

#[test]
fn empty_cleartext_gives_one_stream_and_eof() {
    // The encrypter wraps even an empty input in a non-empty envelope.
    let envelope = vec![0x8cu8; 87];
    let frames = vec![payload(&envelope), eof("e3b0c442")];
    let out = match split(&frames, M) {
        Ok(out) => out,
        Err(_) => panic!("split failed"),
    };
    assert_eq!(out.streams.len(), 1);
    let len = stream_len(&out.streams[0]);
    assert!(len > 0 && len <= M);
    assert_eq!(out.streams[0].offset, 0);
    match &out.end {
        SplitEnd::Eof(offset, checksum) => {
            assert_eq!(*offset, len);
            assert_eq!(checksum, "e3b0c442");
        }
        _ => panic!("no end-of-stream record"),
    }
    assert_eq!(all_bytes(&out), envelope);
}

#[test]
fn one_byte_over_the_cap_gives_two_streams() {
    let data = vec![b'A'; (M + 1) as usize];
    let frames = vec![payload(&data), eof("sum")];
    let out = match split(&frames, M) {
        Ok(out) => out,
        Err(_) => panic!("split failed"),
    };
    assert_eq!(out.streams.len(), 2);
    assert_eq!(stream_len(&out.streams[0]), M);
    assert_eq!(stream_len(&out.streams[1]), 1);
    assert_eq!(out.streams[0].offset, 0);
    assert_eq!(out.streams[1].offset, M);
    assert!(matches!(out.end, SplitEnd::Eof(o, _) if o == M + 1));
    assert_eq!(all_bytes(&out), data);
}

#[test]
fn exactly_the_cap_gives_one_full_stream() {
    let data = vec![7u8; M as usize];
    let frames = vec![payload(&data[..1000]), payload(&data[1000..]), eof("c")];
    let out = match split(&frames, M) {
        Ok(out) => out,
        Err(_) => panic!("split failed"),
    };
    assert_eq!(out.streams.len(), 1);
    assert_eq!(stream_len(&out.streams[0]), M);
    assert_eq!(out.streams[0].chunks.len(), 2);
    assert!(matches!(out.end, SplitEnd::Eof(o, _) if o == M));
}

#[test]
fn small_cap_concatenation_and_offsets() {
    let frames = vec![
        payload(b"abc"),
        payload(b""),
        payload(b"defgh"),
        payload(b"ij"),
        eof("k"),
        payload(b"ignored"),
    ];
    let out = match split(&frames, 4) {
        Ok(out) => out,
        Err(_) => panic!("split failed"),
    };
    assert_eq!(all_bytes(&out), b"abcdefghij".to_vec());
    let offsets: Vec<u64> = out.streams.iter().map(|s| s.offset).collect();
    assert_eq!(offsets, vec![0, 4, 8]);
    let sizes: Vec<u64> = out.streams.iter().map(stream_len).collect();
    assert_eq!(sizes, vec![4, 4, 2]);
    let chunks: Vec<Vec<u8>> = out.streams[0].chunks.clone();
    assert_eq!(chunks, vec![b"abc".to_vec(), b"d".to_vec()]);
    for s in &out.streams {
        for c in &s.chunks {
            assert!(!c.is_empty());
        }
    }
    assert!(matches!(out.end, SplitEnd::Eof(10, _)));
}

#[test]
fn error_frame_is_forwarded_after_partial_data() {
    let frames = vec![payload(b"partial"), Err("gpg error: bad passphrase".to_string())];
    let out = match split(&frames, 4) {
        Ok(out) => out,
        Err(_) => panic!("split failed"),
    };
    assert_eq!(all_bytes(&out), b"partial".to_vec());
    match &out.end {
        SplitEnd::Failed(m) => assert!(m.contains("bad passphrase")),
        _ => panic!("the error was not forwarded"),
    }
}

#[test]
fn data_after_an_error_frame_is_refused() {
    let frames = vec![payload(b"x"), Err("boom".to_string()), payload(b"y")];
    match split(&frames, 4) {
        Err(e) => assert!(!e.message().is_empty()),
        Ok(_) => panic!("data after an error was accepted"),
    }
}

#[test]
fn input_without_eof_is_unterminated() {
    let frames = vec![payload(b"xy")];
    let out = match split(&frames, 4) {
        Ok(out) => out,
        Err(_) => panic!("split failed"),
    };
    assert!(matches!(out.end, SplitEnd::Unterminated));
    assert_eq!(out.streams.len(), 1);
}

#[test]
fn next_piece_opens_only_when_full() {
    let mut s = Splitter::new(3);
    let p = s.next_piece(5);
    assert_eq!(p.opens, None);
    assert_eq!(p.len, 3);
    let p = s.next_piece(2);
    assert_eq!(p.opens, Some(3));
    assert_eq!(p.len, 2);
    assert_eq!(s.offset, 5);
    assert_eq!(s.stream_size, 2);
    match s.eof_record::<()>("sum".to_string()) {
        ChunkStream::EofWithCheckSum(o, c) => {
            assert_eq!(o, 5);
            assert_eq!(c, "sum");
        }
        ChunkStream::Receiver(_, _) => panic!("wrong record"),
    }
    match s.stream_record(42u8) {
        ChunkStream::Receiver(o, r) => {
            assert_eq!(o, 5);
            assert_eq!(r, 42);
        }
        ChunkStream::EofWithCheckSum(_, _) => panic!("wrong record"),
    }
}

#[test]
fn payload_pieces_fill_each_stream_before_opening_the_next() {
    let mut s = Splitter::new(4);
    let first = s.payload_pieces(3);
    assert_eq!(first.len(), 1);
    assert_eq!((first[0].opens, first[0].len), (None, 3));
    let second = s.payload_pieces(7);
    let shape: Vec<(Option<u64>, usize)> = second.iter().map(|p| (p.opens, p.len)).collect();
    assert_eq!(shape, vec![(None, 1), (Some(4), 4), (Some(8), 2)]);
    assert_eq!(s.offset, 10);
    assert_eq!(s.stream_size, 2);
    assert!(s.payload_pieces(0).is_empty());
}
