use textutils::comm::comm_lines;
use textutils::cut::{cut_fields_line, extract_bytes, extract_chars, extract_fields, split_fields};
use textutils::echo::echo_text;
use textutils::grep::{find_lines, grep_render};
use textutils::head::{head_bytes, head_header, take_lines};
use textutils::lines::{cat_lines, split_lines, split_lines_stripped, strip_terminator};
use textutils::lsfmt::{format_mode, mk_triple, Owner};
use textutils::pattern::compile_pattern;
use textutils::pos::{parse_index, parse_pos, PosRange};
use textutils::uniq::uniq_lines;
use textutils::walk::{entry_type_from_flag, is_dat_path, unique_sorted, EntryType};

fn strings(v: &[&str]) -> Vec<String> {
    v.iter().map(|s| s.to_string()).collect()
}

#[test]
fn test_stdin_name() {
    assert!(textutils::is_stdin_name("-"));
    assert!(!textutils::is_stdin_name("--"));
    assert!(!textutils::is_stdin_name("file"));
    assert!(!textutils::is_stdin_name(""));
}

#[test]
fn test_echo_text() {
    assert_eq!(echo_text(&strings(&["Hello", "there"]), false), "Hello there\n");
    assert_eq!(echo_text(&strings(&["Hello"]), true), "Hello");
    assert_eq!(echo_text(&strings(&[]), false), "\n");
}

#[test]
fn test_split_lines_preserves_terminators() {
    let lines = split_lines("Lorem\nIpsum\r\nDOLOR");
    assert_eq!(lines, vec!["Lorem\n", "Ipsum\r\n", "DOLOR"]);
    let stripped = split_lines_stripped("Lorem\nIpsum\r\nDOLOR");
    assert_eq!(stripped, vec!["Lorem", "Ipsum", "DOLOR"]);
    assert_eq!(strip_terminator("abc\r\n"), "abc");
    assert_eq!(strip_terminator("abc\n"), "abc");
    assert_eq!(strip_terminator("abc"), "abc");
    assert!(split_lines("").is_empty());
}

#[test]
fn test_cat_numbering() {
    let lines = strings(&["one\n", "\n", "two"]);
    let (plain, n0) = cat_lines(&lines, false, false, 0);
    assert_eq!(plain, lines);
    assert_eq!(n0, 0);
    let (all, n1) = cat_lines(&lines, true, false, 0);
    assert_eq!(all, vec!["     1\tone\n", "     2\t\n", "     3\ttwo"]);
    assert_eq!(n1, 3);
    let (nonblank, n2) = cat_lines(&lines, false, true, 0);
    assert_eq!(nonblank, vec!["     1\tone\n", "\n", "     2\ttwo"]);
    assert_eq!(n2, 2);
}

#[test]
fn test_cat_is_byte_exact() {
    // terminators pass through verbatim, a missing final newline included
    for text in ["alpha\nbeta\r\ngamma", "a\r\r\n", "", "no newline"] {
        let once: String = cat_lines(&split_lines(text), false, false, 0).0.concat();
        assert_eq!(once, text);
        let twice: String = cat_lines(&split_lines(&once), false, false, 0).0.concat();
        assert_eq!(twice, once);
    }
}

#[test]
fn test_uniq_scenario() {
    let lines = strings(&["a\n", "b\n", "b\n", "c\n"]);
    assert_eq!(uniq_lines(&lines, false), vec!["a\n", "b\n", "c\n"]);
    assert_eq!(uniq_lines(&lines, true), vec!["   1 a\n", "   2 b\n", "   1 c\n"]);
    assert!(uniq_lines(&strings(&[]), false).is_empty());
    assert!(uniq_lines(&strings(&[]), true).is_empty());
}

#[test]
fn test_uniq_trims_before_comparing() {
    let lines = strings(&["a  \n", "a\n", "b\n"]);
    assert_eq!(uniq_lines(&lines, false), vec!["a  \n", "b\n"]);
}

#[test]
fn test_uniq_twice_is_once() {
    let lines = strings(&["x\n", "x\n", "y\n", "x\n", "x\n"]);
    let once = uniq_lines(&lines, false);
    let twice = uniq_lines(&once, false);
    assert_eq!(twice, once);
}

#[test]
fn test_head_lines_and_bytes() {
    let lines = strings(&["one\n", "two\n", "three\n", "four\n"]);
    assert_eq!(take_lines(&lines, 2), vec!["one\n", "two\n"]);
    assert_eq!(take_lines(&lines, 10), lines);
    assert_eq!(head_bytes(&b"abcdef".to_vec(), 3), "abc");
    assert_eq!(head_bytes(&b"ab".to_vec(), 10), "ab");
    assert_eq!(head_header("file.txt", true), "==> file.txt <==");
    assert_eq!(head_header("file.txt", false), "\n==> file.txt <==");
}

#[test]
fn test_parse_index_rules() {
    assert_eq!(parse_index("7"), Ok(6));
    assert_eq!(parse_index("007"), Ok(6));
    assert_eq!(parse_index("0"), Err("illegal list value: \"0\"".to_string()));
    assert_eq!(parse_index("+1"), Err("illegal list value: \"+1\"".to_string()));
    assert_eq!(parse_index(""), Err("illegal list value: \"\"".to_string()));
    assert_eq!(parse_index("a"), Err("illegal list value: \"a\"".to_string()));
}

#[test]
fn test_parse_pos_stability() {
    let ranges = parse_pos("1,3-5,7").unwrap();
    assert_eq!(ranges, vec![
        PosRange { start: 0, end: 1 },
        PosRange { start: 2, end: 5 },
        PosRange { start: 6, end: 7 },
    ]);
    assert!(parse_pos("+1").is_err());
    assert!(parse_pos("0").is_err());
    assert!(parse_pos("3-1").is_err());
    assert_eq!(
        parse_pos("3-1").unwrap_err(),
        "First number in range (3) must be lower than second number (1)"
    );
    assert_eq!(parse_pos("+1").unwrap_err(), "illegal list value: \"+1\"");
    // order and overlap are kept, never normalized
    let overlap = parse_pos("3,1,2-4").unwrap();
    assert_eq!(overlap, vec![
        PosRange { start: 2, end: 3 },
        PosRange { start: 0, end: 1 },
        PosRange { start: 1, end: 4 },
    ]);
}

#[test]
fn test_cut_scenarios() {
    let pos = parse_pos("1,3-4").unwrap();
    assert_eq!(extract_chars("abcdef", &pos), "acd");
    assert_eq!(extract_bytes("abcdef", &pos), "acd");
    let field_pos = parse_pos("2").unwrap();
    assert_eq!(cut_fields_line("a,b,c", ',', &field_pos, ","), "b");
    assert_eq!(cut_fields_line("no delimiter here", ',', &field_pos, ","), "no delimiter here");
    assert_eq!(split_fields("a,b,c", ','), vec!["a", "b", "c"]);
    let record = strings(&["a", "b", "c"]);
    assert_eq!(extract_fields(&record, &parse_pos("3,1").unwrap()), vec!["c", "a"]);
    // out-of-range positions are skipped silently
    assert_eq!(extract_chars("ab", &parse_pos("1,9").unwrap()), "a");
}

#[test]
fn test_cut_bytes_lossy() {
    // the first byte of a two-byte encoding is not valid UTF-8 alone
    let pos = parse_pos("1").unwrap();
    assert_eq!(extract_bytes("\u{e9}x", &pos), "\u{fffd}");
    let pos2 = parse_pos("3").unwrap();
    assert_eq!(extract_bytes("\u{e9}x", &pos2), "x");
}

#[test]
fn test_find_lines() {
    let text = "Lorem\nIpsum\r\nDOLOR";
    let lines = split_lines(text);

    // The pattern _or_ should match the one line, "Lorem"
    let re1 = compile_pattern("or", false).unwrap();
    let matches = find_lines(&lines, &re1, false);
    assert_eq!(matches.len(), 1);

    // When inverted, the function should match the other two lines
    let matches = find_lines(&lines, &re1, true);
    assert_eq!(matches.len(), 2);

    // This regex will be case-insensitive
    let re2 = compile_pattern("or", true).unwrap();

    // The two lines "Lorem" and "DOLOR" should match
    let matches = find_lines(&lines, &re2, false);
    assert_eq!(matches.len(), 2);

    // When inverted, the one remaining line should match
    let matches = find_lines(&lines, &re2, true);
    assert_eq!(matches.len(), 1);
}

#[test]
fn test_grep_scenario() {
    let lines = split_lines("Lorem\nIpsum\r\nDOLOR");
    let re = compile_pattern("or", true).unwrap();
    let matches = find_lines(&lines, &re, false);
    assert_eq!(grep_render("-", &matches, false, true), vec!["2"]);
    assert_eq!(grep_render("f", &matches, true, true), vec!["f:2"]);
    let inverted = find_lines(&lines, &re, true);
    assert_eq!(inverted, vec!["Ipsum\r\n"]);
    assert_eq!(grep_render("-", &inverted, false, false), vec!["Ipsum\r\n"]);
}

#[test]
fn test_grep_partitions_input() {
    let lines = split_lines("Lorem\nIpsum\r\nDOLOR");
    let re = compile_pattern("or", true).unwrap();
    let mut both = find_lines(&lines, &re, false);
    both.extend(find_lines(&lines, &re, true));
    both.sort();
    let mut all = lines.clone();
    all.sort();
    assert_eq!(both, all);
}

#[test]
fn test_grep_invalid_pattern() {
    match compile_pattern("*or", false) {
        Ok(_) => panic!("the engine accepted a bad pattern"),
        Err(err) => assert_eq!(err, "Invalid pattern: \"*or\""),
    }
}

#[test]
fn test_comm_scenario() {
    let a = strings(&["a", "b", "c"]);
    let b = strings(&["b", "c", "d"]);
    let out = comm_lines(&a, &b, true, true, true, false, "\t");
    assert_eq!(out, vec!["a", "\t\tb", "\t\tc", "\td"]);
}

#[test]
fn test_comm_suppression_and_folding() {
    let a = strings(&["A", "b"]);
    let b = strings(&["a", "C"]);
    // case-insensitive: both sides fold before comparing and printing
    let out = comm_lines(&a, &b, true, true, true, true, "\t");
    assert_eq!(out, vec!["\t\ta", "b", "\tc"]);
    // suppressing column 1 drops its lines and its separator
    let a2 = strings(&["a", "b", "c"]);
    let b2 = strings(&["b", "c", "d"]);
    let out2 = comm_lines(&a2, &b2, false, true, true, false, "\t");
    assert_eq!(out2, vec!["\tb", "\tc", "d"]);
    let out3 = comm_lines(&a2, &b2, true, false, false, false, "\t");
    assert_eq!(out3, vec!["a"]);
}

#[test]
fn test_comm_columns_cover_both_inputs() {
    let a = strings(&["a", "b", "b", "x"]);
    let b = strings(&["b", "c", "x"]);
    // with only column 1 shown, then only column 2, then only column 3
    let col1 = comm_lines(&a, &b, true, false, false, false, "\t");
    let col2 = comm_lines(&a, &b, false, true, false, false, "\t");
    let col3 = comm_lines(&a, &b, false, false, true, false, "\t");
    let mut left: Vec<String> = col1.iter().chain(col3.iter()).cloned().collect();
    left.sort();
    let mut av = a.clone();
    av.sort();
    assert_eq!(left, av);
    let mut right: Vec<String> = col2.iter().chain(col3.iter()).cloned().collect();
    right.sort();
    let mut bv = b.clone();
    bv.sort();
    assert_eq!(right, bv);
}

#[test]
fn test_comm_equal_keys() {
    // repeated keys on one side pair off one at a time
    let a = strings(&["x", "x"]);
    let b = strings(&["x"]);
    let out = comm_lines(&a, &b, true, true, true, false, "\t");
    assert_eq!(out, vec!["\t\tx", "x"]);
}

#[test]
fn test_parse_index_overflow() {
    // one past the largest machine value
    let big = "18446744073709551616";
    assert_eq!(
        parse_index(big),
        Err(format!("illegal list value: \"{}\"", big))
    );
}

#[test]
fn test_entry_type_flags() {
    assert_eq!(entry_type_from_flag("d"), Some(EntryType::Dir));
    assert_eq!(entry_type_from_flag("f"), Some(EntryType::File));
    assert_eq!(entry_type_from_flag("l"), Some(EntryType::Link));
    assert_eq!(entry_type_from_flag("x"), None);
    assert_eq!(entry_type_from_flag("df"), None);
}

#[test]
fn test_unique_sorted_paths() {
    let paths = strings(&["b/jokes", "a/quotes", "b/jokes", "a/art"]);
    assert_eq!(unique_sorted(&paths), vec!["a/art", "a/quotes", "b/jokes"]);
    assert!(is_dat_path("dir/jokes.dat"));
    assert!(!is_dat_path("dir/jokes"));
    assert!(!is_dat_path("dir/.dat"));
    assert!(!is_dat_path("dir.dat/jokes"));
}

#[test]
fn test_mode_triples() {
    assert_eq!(mk_triple(0o751, Owner::User), "rwx");
    assert_eq!(mk_triple(0o751, Owner::Group), "r-x");
    assert_eq!(mk_triple(0o751, Owner::Other), "--x");
    assert_eq!(format_mode(0o644), "rw-r--r--");
    assert_eq!(format_mode(0o000), "---------");
    assert_eq!(Owner::User.masks(), [0o400, 0o200, 0o100]);
    assert_eq!(Owner::Group.masks(), [0o040, 0o020, 0o010]);
    assert_eq!(Owner::Other.masks(), [0o004, 0o002, 0o001]);
}
