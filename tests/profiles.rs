use flamediff::average::{average_profile_texts, average_profiles, AverageError, AverageTextError};
use flamediff::differ::{compare_profiles, differential_profile, CompareError, DiffError};
use flamediff::folded::{
    find_last_space, parse_count, parse_line, parse_profile, render_profile, total_in_usize,
    write_decimal, Frame, LineError, ProfileError,
};
use flamediff::rename::{normalize_labels, replace_all};

fn texts(items: &[&str]) -> Vec<Vec<u8>> {
    items.iter().map(|t| t.as_bytes().to_vec()).collect()
}

fn frame(label: &str, count: u128) -> Frame {
    Frame { label: label.as_bytes().to_vec(), count }
}

#[test]
fn splits_label_at_last_space() {
    let f = parse_line(b"foo bar;baz 42").unwrap();
    assert_eq!(f.label, b"foo bar;baz ".to_vec());
    assert_eq!(f.count, 42);
}

#[test]
fn finds_last_space() {
    assert_eq!(find_last_space(b"a b c"), Some(3));
    assert_eq!(find_last_space(b"abc"), None);
    assert_eq!(find_last_space(b""), None);
}

#[test]
fn line_without_space_is_rejected() {
    assert_eq!(parse_line(b"a;b;c"), Err(LineError::MissingSpace));
}

#[test]
fn line_with_bad_count_is_rejected() {
    assert_eq!(parse_line(b"a;b x7"), Err(LineError::InvalidCount));
    assert_eq!(parse_line(b"a;b "), Err(LineError::InvalidCount));
    assert_eq!(parse_line(b"a;b -3"), Err(LineError::InvalidCount));
    assert_eq!(parse_line(b"a;b +3").unwrap().count, 3);
}

#[test]
fn parses_counts() {
    assert_eq!(parse_count(b"0"), Some(0));
    assert_eq!(parse_count(b"007"), Some(7));
    assert_eq!(parse_count(b"340282366920938463463374607431768211455"), Some(u128::MAX));
    assert_eq!(parse_count(b"340282366920938463463374607431768211456"), None);
    assert_eq!(parse_count(b""), None);
    assert_eq!(parse_count(b"12a"), None);
    assert_eq!(parse_count(b"+12"), Some(12));
    assert_eq!(parse_count(b"+"), None);
    assert_eq!(parse_count(b"++1"), None);
    assert_eq!(parse_count(b"1+"), None);
}

#[test]
fn writes_decimal() {
    let mut out = b"n=".to_vec();
    write_decimal(1205, &mut out);
    assert_eq!(out, b"n=1205".to_vec());
    let mut zero = Vec::new();
    write_decimal(0, &mut zero);
    assert_eq!(zero, b"0".to_vec());
}

#[test]
fn parses_profile_in_order() {
    let frames = parse_profile(b"main;a 3\nmain;b 5\nmain 1\n").unwrap();
    assert_eq!(frames, vec![frame("main;a ", 3), frame("main;b ", 5), frame("main ", 1)]);
    assert_eq!(parse_profile(b"").unwrap(), vec![]);
}

#[test]
fn reports_first_bad_line() {
    assert_eq!(
        parse_profile(b"main;a 3\nmain;b\nmain x"),
        Err(ProfileError { line: 2, kind: LineError::MissingSpace })
    );
    assert_eq!(
        parse_profile(b"main;a 3\n\nmain 1"),
        Err(ProfileError { line: 2, kind: LineError::MissingSpace })
    );
    assert_eq!(
        parse_profile(b"main;a 3\nmain;b 4\nmain x"),
        Err(ProfileError { line: 3, kind: LineError::InvalidCount })
    );
}

#[test]
fn averages_three_profiles() {
    let out = average_profile_texts(&texts(&["a;b 10", "a;b 20", "a;b 21"])).unwrap();
    assert_eq!(out, b"a;b 17".to_vec());
}

#[test]
fn averaging_keeps_first_profile_order() {
    let out = average_profile_texts(&texts(&["z 1\na 2\nm 3\n", "z 3\na 4\nm 6\n"])).unwrap();
    assert_eq!(String::from_utf8(out).unwrap(), "z 2\na 3\nm 4");
}

#[test]
fn averaging_truncates() {
    let ps = vec![vec![frame("x ", 1)], vec![frame("x ", 0)]];
    assert_eq!(average_profiles(&ps).unwrap(), vec![frame("x ", 0)]);
}

#[test]
fn averaging_nothing_fails() {
    assert_eq!(average_profiles(&vec![]), Err(AverageError::NoProfiles));
}

#[test]
fn averaging_detects_shape_mismatch() {
    let ps = vec![
        vec![frame("a ", 1), frame("b ", 1)],
        vec![frame("a ", 1), frame("b ", 1)],
        vec![frame("a ", 1)],
    ];
    assert_eq!(average_profiles(&ps), Err(AverageError::ShapeMismatch { profile: 2 }));
    let ps = vec![vec![frame("a ", 1)], vec![frame("c ", 1)]];
    assert_eq!(average_profiles(&ps), Err(AverageError::ShapeMismatch { profile: 1 }));
}

#[test]
fn averaging_detects_overflow() {
    let ps = vec![vec![frame("a ", u128::MAX)], vec![frame("a ", 1)]];
    assert_eq!(average_profiles(&ps), Err(AverageError::CountOverflow));
}

#[test]
fn averaging_reports_unparsable_profile() {
    assert_eq!(
        average_profile_texts(&texts(&["a 1", "a 2", "a"])),
        Err(AverageTextError::Parse {
            profile: 2,
            error: ProfileError { line: 1, kind: LineError::MissingSpace }
        })
    );
}

#[test]
fn average_text_round_trips() {
    let avg = average_profile_texts(&texts(&["main; 9\nmain;x y 4", "main; 3\nmain;x y 8"])).unwrap();
    let frames = parse_profile(&avg).unwrap();
    assert_eq!(frames, vec![frame("main; ", 6), frame("main;x y ", 6)]);
    assert_eq!(render_profile(&frames), avg);
}

#[test]
fn replaces_from_the_left() {
    assert_eq!(replace_all(b"aaa", b"aa", b"b"), b"ba".to_vec());
    assert_eq!(replace_all(b"xyz", b"", b"q"), b"xyz".to_vec());
}

#[test]
fn normalizes_module_and_file_tokens() {
    let s = b"one::outer;one::inner_one(src/bin/one.rs:40) 7";
    let once = normalize_labels(s, b"one", b"three");
    assert_eq!(once, b"three::outer;three::inner_one(src/bin/three.rs:40) 7".to_vec());
}

#[test]
fn averaging_copies_of_an_average_gives_it_back() {
    let avg = average_profile_texts(&texts(&["a 7\na;b 3", "a 2\na;b 8", "a 4\na;b 0"])).unwrap();
    let copies = vec![avg.clone(), avg.clone(), avg.clone()];
    assert_eq!(average_profile_texts(&copies).unwrap(), avg);
    assert_eq!(average_profile_texts(&vec![avg.clone()]).unwrap(), avg);
}

#[test]
fn normalizing_removes_old_tokens() {
    let s = b"oneone::x;one::y(one.rs:1);oone.rs 4";
    let out = String::from_utf8(normalize_labels(s, b"one", b"three")).unwrap();
    assert!(!out.contains("one::"));
    assert!(!out.contains("one.rs"));
}

#[test]
fn normalizing_twice_changes_nothing() {
    let s = b"two::outer;two::inner(src/bin/two.rs:3);twotwo::x 5\none::a 1";
    let once = normalize_labels(s, b"two", b"three");
    let twice = normalize_labels(&once, b"two", b"three");
    assert_eq!(once, twice);
    let once = normalize_labels(s, b"one", b"three");
    assert_eq!(normalize_labels(&once, b"one", b"three"), once);
}

fn sorted_lines(b: &[u8]) -> Vec<String> {
    let mut v: Vec<String> = String::from_utf8(b.to_vec())
        .unwrap()
        .lines()
        .map(|l| l.to_string())
        .collect();
    v.sort();
    v
}

#[test]
fn differences_with_normalization() {
    let out = differential_profile(b"a;b 10\na;c 10\n", b"a;b 10\na;c 30\n").unwrap();
    assert_eq!(sorted_lines(&out), vec!["a;b 20 10".to_string(), "a;c 20 30".to_string()]);
}

#[test]
fn difference_rejects_malformed_profiles() {
    assert_eq!(differential_profile(b"a;b", b"a;b 1"), Err(DiffError::Malformed));
    assert_eq!(differential_profile(b"a;b 1", b"a;b x"), Err(DiffError::Malformed));
}

#[test]
fn difference_rejects_totals_past_usize() {
    let big = format!("a {}\nb 1", usize::MAX);
    assert_eq!(differential_profile(big.as_bytes(), b"a 1"), Err(DiffError::TooManySamples));
    assert_eq!(differential_profile(b"a 1", big.as_bytes()), Err(DiffError::TooManySamples));
    let fits = format!("a {}", usize::MAX);
    assert!(differential_profile(fits.as_bytes(), b"a 1").is_ok());
}

#[test]
fn totals_counts() {
    assert_eq!(total_in_usize(&vec![frame("a ", 3), frame("b ", 4)]), Some(7));
    assert_eq!(total_in_usize(&vec![]), Some(0));
    assert_eq!(
        total_in_usize(&vec![frame("a ", usize::MAX as u128), frame("b ", 1)]),
        None
    );
}

#[test]
fn compares_two_programs() {
    let one = texts(&[
        "one::outer 100\none::outer;one::inner(one.rs:4) 400",
        "one::outer 102\none::outer;one::inner(one.rs:4) 402",
    ]);
    let two = texts(&[
        "two::outer 100\ntwo::outer;two::inner(two.rs:4) 750",
        "two::outer 100\ntwo::outer;two::inner(two.rs:4) 750",
    ]);
    let c = compare_profiles(&one, &two, b"one", b"two", b"three").unwrap();
    assert_eq!(c.before, b"three::outer 101\nthree::outer;three::inner(three.rs:4) 401".to_vec());
    assert_eq!(c.after, b"three::outer 100\nthree::outer;three::inner(three.rs:4) 750".to_vec());
    let lines = sorted_lines(&c.difference);
    assert_eq!(lines.len(), 2);
    assert!(lines[1].starts_with("three::outer;three::inner(three.rs:4) "));
    assert!(lines[1].ends_with(" 750"));
    assert!(lines[0].ends_with(" 100"));
}

#[test]
fn comparison_reports_failing_side() {
    let good = texts(&["a 1"]);
    let bad = texts(&["a 1", "b 1"]);
    assert!(matches!(
        compare_profiles(&good, &bad, b"one", b"two", b"three"),
        Err(CompareError::After(AverageTextError::Average(AverageError::ShapeMismatch {
            profile: 1
        })))
    ));
    let huge = vec![format!("a {}\nb 1", u128::MAX - 1).into_bytes()];
    assert!(matches!(
        compare_profiles(&huge, &good, b"one", b"two", b"three"),
        Err(CompareError::Difference(DiffError::TooManySamples))
    ));
    assert!(matches!(
        compare_profiles(&vec![], &good, b"one", b"two", b"three"),
        Err(CompareError::Before(AverageTextError::Average(AverageError::NoProfiles)))
    ));
}

#[test]
fn averaging_ignores_run_order() {
    let a = vec![frame("x ", 10), frame("x;y ", 1)];
    let b = vec![frame("x ", 20), frame("x;y ", 5)];
    let c = vec![frame("x ", 21), frame("x;y ", 9)];
    let one = average_profiles(&vec![a.clone(), b.clone(), c.clone()]).unwrap();
    let two = average_profiles(&vec![c, a, b]).unwrap();
    assert_eq!(one, two);
    assert_eq!(one, vec![frame("x ", 17), frame("x;y ", 5)]);
}
