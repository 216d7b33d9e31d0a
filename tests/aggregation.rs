use station_stats::{
    next_record, parse_value, round_off, ChunkError, ExactTable, MeanTable, ParseError,
    StationResult,
};

fn sorted(mut rs: Vec<StationResult>) -> Vec<(String, i64, i64, i64)> {
    rs.sort_by(|a, b| a.name.cmp(&b.name));
    rs.into_iter()
        .map(|r| (String::from_utf8(r.name).unwrap(), r.min, r.center, r.max))
        .collect()
}

fn mean_of(chunks: &[&str]) -> MeanTable {
    let mut t = MeanTable::new();
    for c in chunks {
        t.process_chunk(c.as_bytes()).unwrap();
    }
    t
}

fn exact_of(chunks: &[&str]) -> ExactTable {
    let mut t = ExactTable::new();
    for c in chunks {
        t.process_chunk(c.as_bytes()).unwrap();
    }
    t
}

fn row(n: &str, a: i64, b: i64, c: i64) -> (String, i64, i64, i64) {
    (n.to_string(), a, b, c)
}

#[test]
fn streaming_mean_scenario() {
    let t = mean_of(&["A;10.0\nA;20.0\nB;5.5\n"]);
    assert_eq!(sorted(t.finalize()), vec![row("A", 100, 150, 200), row("B", 55, 55, 55)]);
}

#[test]
fn exact_median_scenario() {
    let t = exact_of(&["A;10.0\nA;20.0\nB;5.5\n"]);
    assert_eq!(sorted(t.finalize()), vec![row("A", 100, 150, 200), row("B", 55, 55, 55)]);
}

#[test]
fn median_differs_from_mean() {
    let data = "A;1.0\nA;2.0\nA;100.0\n";
    let m = mean_of(&[data]);
    assert_eq!(sorted(m.finalize()), vec![row("A", 10, 343, 1000)]);
    let mut e = ExactTable::new();
    assert_eq!(e.process_chunk(data.as_bytes()), Err(ChunkError::OutOfDomain));
    let data = "A;1.0\nA;2.0\nA;99.0\n";
    let e = exact_of(&[data]);
    let m = mean_of(&[data]);
    assert_eq!(sorted(e.finalize()), vec![row("A", 10, 20, 990)]);
    assert_eq!(sorted(m.finalize()), vec![row("A", 10, 340, 990)]);
}

#[test]
fn value_outside_domain_is_fatal() {
    let mut t = ExactTable::new();
    assert_eq!(t.process_chunk(b"A;1.0\nA;500.0\n"), Err(ChunkError::OutOfDomain));
    let mut t = ExactTable::new();
    assert_eq!(t.observe(b"A", -1000), Err(ChunkError::OutOfDomain));
    assert_eq!(t.observe(b"A", 999), Ok(()));
    assert_eq!(t.observe(b"A", -999), Ok(()));
    assert_eq!(t.record_count(), 2);
}

#[test]
fn mean_accepts_values_beyond_the_histogram() {
    let t = mean_of(&["A;500.0\nA;-500.0\n"]);
    assert_eq!(sorted(t.finalize()), vec![row("A", -5000, 0, 5000)]);
}

#[test]
fn chunk_without_final_newline_is_fatal() {
    let mut t = MeanTable::new();
    assert_eq!(t.process_chunk(b"A;1.0\nB;2.0"), Err(ParseError::MissingNewline));
    let mut t = ExactTable::new();
    assert_eq!(
        t.process_chunk(b"A;1.0\nB;2.0"),
        Err(ChunkError::Parse(ParseError::MissingNewline))
    );
}

#[test]
fn parse_errors() {
    let mut t = MeanTable::new();
    assert_eq!(t.process_chunk(b"A;1.0\nno separator\n"), Err(ParseError::MissingSeparator));
    let mut t = MeanTable::new();
    assert_eq!(t.process_chunk(b"A;1.25\n"), Err(ParseError::InvalidValue));
    let mut t = MeanTable::new();
    assert_eq!(t.process_chunk(b"A;abc\n"), Err(ParseError::InvalidValue));
    let mut t = MeanTable::new();
    assert_eq!(t.process_chunk(b"A;1;2.0\n"), Err(ParseError::InvalidValue));
}

#[test]
fn counts_are_kept_by_merge() {
    let a = mean_of(&["A;1.0\nB;2.0\n", "A;3.0\n"]);
    let b = mean_of(&["B;4.0\nC;5.0\nC;6.0\n"]);
    assert_eq!(a.record_count(), 3);
    assert_eq!(b.record_count(), 3);
    let mut m = a;
    m.merge(b);
    assert_eq!(m.record_count(), 6);
    let ea = exact_of(&["A;1.0\nB;2.0\n", "A;3.0\n"]);
    let eb = exact_of(&["B;4.0\nC;5.0\nC;6.0\n"]);
    let mut em = eb;
    em.merge(ea);
    assert_eq!(em.record_count(), 6);
}

#[test]
fn merge_order_does_not_matter() {
    let parts = ["A;1.0\nB;-2.5\n", "A;3.0\nC;7.7\nB;0.1\n", "C;-7.7\nA;-3.3\nA;2.0\n"];
    let orders = [[0, 1, 2], [0, 2, 1], [1, 0, 2], [1, 2, 0], [2, 0, 1], [2, 1, 0]];
    let mut mean_results = Vec::new();
    let mut exact_results = Vec::new();
    for o in orders.iter() {
        let mut m = MeanTable::new();
        let mut e = ExactTable::new();
        for &i in o.iter() {
            m.merge(mean_of(&[parts[i]]));
            e.merge(exact_of(&[parts[i]]));
        }
        mean_results.push(sorted(m.finalize()));
        exact_results.push(sorted(e.finalize()));
    }
    let whole = parts.concat();
    let m1 = sorted(mean_of(&[whole.as_str()]).finalize());
    let e1 = sorted(exact_of(&[whole.as_str()]).finalize());
    for r in mean_results {
        assert_eq!(r, m1);
    }
    for r in exact_results {
        assert_eq!(r, e1);
    }
    assert_eq!(e1[0], row("A", -33, 15, 30));
    assert_eq!(m1[0], row("A", -33, 7, 30));
}

#[test]
fn center_lies_between_min_and_max() {
    let data = "X;-9.9\nX;3.3\nX;4.4\nY;0.0\nZ;99.9\nZ;-99.9\nZ;12.3\nZ;12.4\n";
    for r in mean_of(&[data]).finalize().into_iter().chain(exact_of(&[data]).finalize()) {
        assert!(r.min <= r.center && r.center <= r.max);
    }
}

#[test]
fn median_agrees_with_sorting() {
    let values: Vec<i64> = vec![37, -12, 999, -999, 0, 0, 5, 37, 37, -450, 12, 13];
    let mut text = String::new();
    for v in &values {
        text.push_str(&format!("S;{}{}.{}\n", if *v < 0 { "-" } else { "" }, v.abs() / 10, v.abs() % 10));
    }
    let mut all = values.clone();
    let mut prefix = Vec::new();
    for v in all.drain(..) {
        prefix.push(v);
        let mut s = prefix.clone();
        s.sort();
        let n = s.len();
        let expected = if n % 2 == 1 {
            s[n / 2]
        } else {
            round_off((s[n / 2 - 1] + s[n / 2]) as i128, 2) as i64
        };
        let mut chunk = String::new();
        for p in &prefix {
            chunk.push_str(&format!("S;{}{}.{}\n", if *p < 0 { "-" } else { "" }, p.abs() / 10, p.abs() % 10));
        }
        let got = exact_of(&[chunk.as_str()]).finalize();
        assert_eq!(got[0].center, expected);
    }
    let got = exact_of(&[text.as_str()]).finalize();
    assert_eq!(got[0].center, 9);
}

#[test]
fn even_median_rounds_half_away_from_zero() {
    let t = exact_of(&["A;0.1\nA;0.2\nB;-0.1\nB;-0.2\n"]);
    assert_eq!(sorted(t.finalize()), vec![row("A", 1, 2, 2), row("B", -2, -2, -1)]);
}

#[test]
fn rounding_a_tenths_value_is_a_no_op() {
    for v in [-9999999i128, -55, -1, 0, 1, 123, 9999999] {
        assert_eq!(round_off(v, 1), v);
        assert_eq!(round_off(v * 7, 7), v);
    }
    assert_eq!(round_off(5, 2), 3);
    assert_eq!(round_off(-5, 2), -3);
    assert_eq!(round_off(1030, 3), 343);
    assert_eq!(round_off(4, 3), 1);
}

#[test]
fn values_parse_to_tenths() {
    assert_eq!(parse_value(b"-12.3"), Some(-123));
    assert_eq!(parse_value(b"0.0"), Some(0));
    assert_eq!(parse_value(b"999999.9"), Some(9999999));
    assert_eq!(parse_value(b"1000000.0"), None);
    assert_eq!(parse_value(b"12"), None);
    assert_eq!(parse_value(b".5"), None);
    assert_eq!(parse_value(b"-"), None);
    assert_eq!(parse_value(b"1.2.3"), None);
    assert_eq!(parse_value(b""), None);
}

#[test]
fn first_record_is_located() {
    assert_eq!(next_record(b"AB;1.5\nC;2.0\n"), Ok(Some((2, 6, 15))));
    assert_eq!(next_record(b""), Ok(None));
    assert_eq!(next_record(b"AB;1.5"), Err(ParseError::MissingNewline));
}

#[test]
fn names_are_raw_bytes() {
    let mut t = MeanTable::new();
    t.process_chunk(b"\xff\xfe;1.0\n\xff\xfe;3.0\n").unwrap();
    let r = t.finalize();
    assert_eq!(r.len(), 1);
    assert_eq!(r[0].name, vec![0xffu8, 0xfe]);
    assert_eq!((r[0].min, r[0].center, r[0].max), (10, 20, 30));
}

#[test]
fn empty_chunk_adds_nothing() {
    let mut t = ExactTable::new();
    assert_eq!(t.process_chunk(b""), Ok(()));
    assert_eq!(t.finalize().len(), 0);
    assert_eq!(t.record_count(), 0);
}
