use brc::parser::{find_next, is_value_field, parse_value, search_from, Finder};

#[test]
fn parse_value_sound() {
    let values = ["-4.5", "78.0", "0.1", "-0.0", "99.9", "2.5", "-2.5", "-99.9"];

    for v in values {
        let nv = format!(";{v}");
        let pv = parse_value(nv.as_bytes(), 1, nv.as_bytes().len());
        let truev: f64 = v.parse().unwrap();
        assert_eq!(truev, (pv as f64) / 10.)
    }
}

#[test]
fn iter_sound() {
    let values = "atr;-4.5\nrrr;78.0\nasdf;0.1\ndsaf;-0.0\n".as_bytes();

    let mut finder = Finder::new(values, 0, values.len() - 1);

    let mut seen: Vec<(Vec<u8>, i16)> = Vec::new();
    while let Some((s, t)) = finder.next() {
        seen.push((s.to_vec(), t));
    }
    assert_eq!(
        seen,
        vec![
            (b"atr".to_vec(), -45),
            (b"rrr".to_vec(), 780),
            (b"asdf".to_vec(), 1),
            (b"dsaf".to_vec(), 0),
        ]
    );
}

#[test]
fn decoder_gives_exact_tenths() {
    let cases: [(&str, i16); 10] = [
        ("-99.9", -999),
        ("-0.0", 0),
        ("0.0", 0),
        ("0.1", 1),
        ("2.5", 25),
        ("-2.5", -25),
        ("78.0", 780),
        ("99.9", 999),
        ("-4.5", -45),
        ("10.0", 100),
    ];
    for (text, expected) in cases {
        let line = format!("k;{text}");
        assert_eq!(parse_value(line.as_bytes(), 2, line.len()), expected, "{text}");
    }
}

#[test]
fn finder_stops_after_end_offset() {
    let data = b"a;1.0\nb;2.0\nc;3.0\n";
    // records start at 0, 6 and 12: an end of 6 takes the first two
    let mut finder = Finder::new(data, 0, 6);
    assert_eq!(finder.next().map(|(k, t)| (k.to_vec(), t)), Some((b"a".to_vec(), 10)));
    assert_eq!(finder.next().map(|(k, t)| (k.to_vec(), t)), Some((b"b".to_vec(), 20)));
    assert!(finder.next().is_none());
}

#[test]
fn find_next_in_wide_window() {
    assert_eq!(find_next(b"ab;1.0\nxy;2.0\n", 0), Some((2, 6)));
    assert_eq!(find_next(b"ab;1.0\nxy;2.0\n", 7), Some((9, 13)));
}

#[test]
fn find_next_with_long_key() {
    let line = b"a_key_longer_than_the_window;-12.3\n";
    assert_eq!(find_next(line, 0), Some((28, 34)));
}

#[test]
fn find_next_with_terminator_outside_window() {
    let line = b"fourteen_bytes;-12.3\n";
    assert_eq!(find_next(line, 0), Some((14, 20)));
}

#[test]
fn find_next_without_record() {
    assert_eq!(find_next(b"", 0), None);
    assert_eq!(find_next(b"no separator\n", 0), None);
    assert_eq!(find_next(b"key;1.0", 0), None);
    assert_eq!(find_next(b"a;1.0\n", 6), None);
}

#[test]
fn search_from_finds_first_occurrence() {
    assert_eq!(search_from(b"abcabc", 0, b'c'), Some(2));
    assert_eq!(search_from(b"abcabc", 3, b'c'), Some(5));
    assert_eq!(search_from(b"abcabc", 3, b'z'), None);
}

#[test]
fn value_field_shapes() {
    let accepted = ["0.0", "-0.0", "12.3", "-12.3"];
    let rejected = ["", "1", "1.", ".5", "123.4", "1.23", "--1.0", "a.0", "1,0", "-.5"];
    for v in accepted {
        assert!(is_value_field(v.as_bytes(), 0, v.len()), "{v}");
    }
    for v in rejected {
        assert!(!is_value_field(v.as_bytes(), 0, v.len()), "{v}");
    }
}
