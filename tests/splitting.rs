use station_stats::{find_new_line_pos, ExactTable, MeanTable, SplitError, Splitter, StationResult};

fn split_all(stream: &[u8], capacity: usize) -> Result<Vec<Vec<u8>>, SplitError> {
    let mut s = Splitter::new(capacity);
    let mut chunks = Vec::new();
    let mut at = 0;
    while at < stream.len() {
        let n = s.space().min(stream.len() - at);
        if let Some(c) = s.feed(&stream[at..at + n])? {
            chunks.push(c);
        }
        at += n;
    }
    s.finish()?;
    Ok(chunks)
}

fn sorted(mut rs: Vec<StationResult>) -> Vec<StationResult> {
    rs.sort_by(|a, b| a.name.cmp(&b.name));
    rs
}

#[test]
fn last_newline_is_found() {
    assert_eq!(find_new_line_pos(b"a\nb\nc"), Some(3));
    assert_eq!(find_new_line_pos(b"abc\n"), Some(3));
    assert_eq!(find_new_line_pos(b"abc"), None);
    assert_eq!(find_new_line_pos(b""), None);
}

#[test]
fn chunks_rebuild_the_stream() {
    let stream = b"Hamburg;12.0\nBulawayo;8.9\nPalembang;38.8\nSt. John's;15.2\nCracow;12.6\n";
    for cap in [16, 17, 20, 32, 64, 1000] {
        let chunks = split_all(stream, cap).unwrap();
        assert_eq!(chunks.concat(), stream.to_vec());
        for c in &chunks {
            assert_eq!(*c.last().unwrap(), b'\n');
            assert!(!c.is_empty());
        }
    }
}

#[test]
fn missing_final_newline_is_fatal() {
    assert_eq!(split_all(b"A;1.0\nB;2.0", 8), Err(SplitError::MissingFinalNewline));
    assert_eq!(split_all(b"A;1.0\nB;2.0\n", 8).unwrap().concat(), b"A;1.0\nB;2.0\n".to_vec());
}

#[test]
fn record_longer_than_buffer_is_fatal() {
    assert_eq!(split_all(b"ABCDEFGH;1.0\n", 8), Err(SplitError::RecordTooLong));
    let mut s = Splitter::new(4);
    assert_eq!(s.feed(b"AB"), Ok(None));
    assert_eq!(s.space(), 2);
    assert_eq!(s.feed(b"CD"), Err(SplitError::RecordTooLong));
}

#[test]
fn feed_keeps_the_tail() {
    let mut s = Splitter::new(16);
    assert_eq!(s.feed(b"A;1.0\nB;"), Ok(Some(b"A;1.0\n".to_vec())));
    assert_eq!(s.space(), 14);
    assert_eq!(s.feed(b"2.0\n"), Ok(Some(b"B;2.0\n".to_vec())));
    assert_eq!(s.finish(), Ok(()));
}

#[test]
fn partitioning_does_not_change_results() {
    let mut stream = Vec::new();
    let names = ["Abha", "Zurich", "Oslo", "Lima", "Baku"];
    let mut x: i64 = 17;
    for i in 0..400 {
        x = (x * 1103 + 12345) % 1999;
        let v = x - 999;
        let line = format!(
            "{};{}{}.{}\n",
            names[i % names.len()],
            if v < 0 { "-" } else { "" },
            v.abs() / 10,
            v.abs() % 10
        );
        stream.extend_from_slice(line.as_bytes());
    }
    let mut expected_mean = MeanTable::new();
    expected_mean.process_chunk(&stream).unwrap();
    let expected_mean = sorted(expected_mean.finalize());
    let mut expected_exact = ExactTable::new();
    expected_exact.process_chunk(&stream).unwrap();
    let expected_exact = sorted(expected_exact.finalize());
    for (cap, workers) in [(16, 1), (23, 2), (64, 3), (100, 5), (4096, 4)] {
        let chunks = split_all(&stream, cap).unwrap();
        let mut means: Vec<MeanTable> = (0..workers).map(|_| MeanTable::new()).collect();
        let mut exacts: Vec<ExactTable> = (0..workers).map(|_| ExactTable::new()).collect();
        for (i, c) in chunks.iter().enumerate() {
            means[(i * 7) % workers].process_chunk(c).unwrap();
            exacts[(i * 3) % workers].process_chunk(c).unwrap();
        }
        let mut m = MeanTable::new();
        for t in means.into_iter().rev() {
            m.merge(t);
        }
        let mut e = ExactTable::new();
        for t in exacts {
            e.merge(t);
        }
        assert_eq!(m.record_count(), 400);
        assert_eq!(e.record_count(), 400);
        assert_eq!(sorted(m.finalize()), expected_mean);
        assert_eq!(sorted(e.finalize()), expected_exact);
    }
}
