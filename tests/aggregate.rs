use brc::hashmap::{StackMap, MAP_SIZE};
use brc::stats::Stat;
use brc::worker::{is_well_formed, merge, partition_bounds, process, refine_start};

/// Runs the whole pipeline on `data` with `workers` parts, one after the other.
fn run(data: &[u8], workers: usize) -> Vec<(Vec<u8>, (i16, i16, i64, u32))> {
    assert!(is_well_formed(data));
    let bounds = partition_bounds(data, workers);
    let mut tables: Vec<StackMap> = Vec::new();
    for i in 0..workers {
        tables.push(process(data, bounds[i], bounds[i + 1]).unwrap());
    }
    merge(data, &bounds, &tables)
        .into_iter()
        .map(|(k, s)| (k, (s.min, s.max, s.sum, s.count)))
        .collect()
}

fn stat(min: i16, max: i16, sum: i64, count: u32) -> Stat {
    Stat { min, max, sum, count }
}

#[test]
fn four_stations_one_worker() {
    let data = b"atr;-4.5\nrrr;78.0\nasdf;0.1\ndsaf;-0.0\n";
    let out = run(data, 1);
    assert_eq!(
        out,
        vec![
            (b"asdf".to_vec(), (1, 1, 1, 1)),
            (b"atr".to_vec(), (-45, -45, -45, 1)),
            (b"dsaf".to_vec(), (0, 0, 0, 1)),
            (b"rrr".to_vec(), (780, 780, 780, 1)),
        ]
    );
}

#[test]
fn duplicate_key_folds() {
    let out = run(b"a;1.0\na;3.0\n", 1);
    assert_eq!(out, vec![(b"a".to_vec(), (10, 30, 40, 2))]);
    // mean is sum / (10 * count)
    let (_, (_, _, sum, count)) = out[0];
    assert_eq!(sum as f64 / (10.0 * count as f64), 2.0);
}

#[test]
fn worker_count_does_not_change_result() {
    let mut text = String::new();
    for i in 0..300i32 {
        let v = (i * 37) % 1999 - 999;
        let sign = if v < 0 { "-" } else { "" };
        let a = v.abs();
        text.push_str(&format!("station{};{}{}.{}\n", i % 23, sign, a / 10, a % 10));
    }
    let data = text.as_bytes();
    let one = run(data, 1);
    assert_eq!(one.len(), 23);
    for k in 2..12 {
        assert_eq!(run(data, k), one, "{k} workers");
    }
    assert_eq!(run(data, 1000), one);
}

#[test]
fn record_order_does_not_change_result() {
    let lines = ["b;1.0", "a;-2.0", "b;-3.5", "c;12.0", "a;0.5", "b;99.9"];
    let forward: String = lines.iter().map(|l| format!("{l}\n")).collect();
    let backward: String = lines.iter().rev().map(|l| format!("{l}\n")).collect();
    let shuffled: String = [2, 5, 0, 3, 1, 4].iter().map(|&i| format!("{}\n", lines[i])).collect();
    let expected = vec![
        (b"a".to_vec(), (-20, 5, -15, 2)),
        (b"b".to_vec(), (-35, 999, 974, 3)),
        (b"c".to_vec(), (120, 120, 120, 1)),
    ];
    assert_eq!(run(forward.as_bytes(), 1), expected);
    assert_eq!(run(backward.as_bytes(), 2), expected);
    assert_eq!(run(shuffled.as_bytes(), 3), expected);
}

#[test]
fn empty_buffer() {
    assert!(is_well_formed(b""));
    assert_eq!(partition_bounds(b"", 3), vec![0, 0, 0, 0]);
    assert!(run(b"", 3).is_empty());
}

#[test]
fn too_many_keys_for_one_table() {
    let mut text = String::new();
    for i in 0..(MAP_SIZE + 1) {
        text.push_str(&format!("k{i};1.0\n"));
    }
    let data = text.as_bytes();
    assert!(process(data, 0, data.len()).is_none());
    let mut exact = String::new();
    for i in 0..MAP_SIZE {
        exact.push_str(&format!("k{i};1.0\n"));
    }
    let table = process(exact.as_bytes(), 0, exact.len()).unwrap();
    assert_eq!(table.len(), MAP_SIZE);
}

#[test]
fn refine_start_moves_to_record_boundary() {
    let data = b"ab;1.0\ncd;2.0\n";
    assert_eq!(refine_start(data, 0), 0);
    assert_eq!(refine_start(data, 3), 7);
    assert_eq!(refine_start(data, 7), 7);
    assert_eq!(refine_start(data, 8), 14);
    assert_eq!(refine_start(data, 14), 14);
}

#[test]
fn bounds_are_record_aligned() {
    let data = b"ab;1.0\ncd;2.0\nef;3.0\n";
    assert_eq!(partition_bounds(data, 1), vec![0, 21]);
    // nominal cuts at 7 and 14 are already boundaries
    assert_eq!(partition_bounds(data, 3), vec![0, 7, 14, 21]);
    // nominal cut at 10 moves to 14
    assert_eq!(partition_bounds(data, 2), vec![0, 14, 21]);
}

#[test]
fn validator() {
    assert!(is_well_formed(b"a;1.0\nbb;-12.3\n"));
    assert!(!is_well_formed(b"a;1.0"));
    assert!(!is_well_formed(b"a;1.00\n"));
    assert!(!is_well_formed(b"a\nb;1.0\n"));
    assert!(!is_well_formed(b"a;x.0\n"));
}

#[test]
fn part_summary_matches_its_records() {
    let data = b"x;1.0\ny;2.0\nx;-1.0\n";
    let t = process(data, 6, data.len()).unwrap();
    assert_eq!(t.len(), 2);
    let x = t.get(b"x").unwrap();
    assert_eq!((x.min, x.max, x.sum, x.count), (-10, -10, -10, 1));
    assert!(process(data, 6, 6).unwrap().get(b"x").is_none());
}

#[test]
fn stat_fold() {
    let mut s = Stat::default();
    assert_eq!((s.min, s.max, s.sum, s.count), (i16::MAX, i16::MIN, 0, 0));
    s.record(-5);
    s.record(7);
    assert_eq!((s.min, s.max, s.sum, s.count), (-5, 7, 2, 2));
    let m = stat(-1, 3, 2, 2).merge(&stat(-7, 1, -6, 2));
    assert_eq!((m.min, m.max, m.sum, m.count), (-7, 3, -4, 4));
    assert!(Stat::reduce(&[]).is_none());
    let r = Stat::reduce(&[stat(1, 1, 1, 1), Stat::default(), stat(-2, 9, 7, 2)]).unwrap();
    assert_eq!((r.min, r.max, r.sum, r.count), (-2, 9, 8, 3));
}
