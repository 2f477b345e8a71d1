use textutils::fortune::{match_sources, matching_fortunes, pick_fortune, read_fortunes, Fortune, FortuneFile};
use textutils::pattern::compile_pattern;

fn strings(v: &[&str]) -> Vec<String> {
    v.iter().map(|s| s.to_string()).collect()
}

#[test]
fn test_pick_fortune() {
    // Create a slice of fortunes
    let fortunes = &vec![
        Fortune {
            source: "fortunes".to_string(),
            text: "You cannot achieve the impossible without \
                  attempting the absurd."
                .to_string(),
        },
        Fortune {
            source: "fortunes".to_string(),
            text: "Assumption is the mother of all screw-ups."
                .to_string(),
        },
        Fortune {
            source: "fortunes".to_string(),
            text: "Neckties strangle clear thinking.".to_string(),
        },
    ];

    // Pick a fortune with a seed
    assert_eq!(
        pick_fortune(fortunes, Some(1)).unwrap(),
        "Neckties strangle clear thinking.".to_string()
    );
}

#[test]
fn test_pick_fortune_unseeded_membership() {
    let fortunes = vec![
        Fortune { source: "f".to_string(), text: "one".to_string() },
        Fortune { source: "f".to_string(), text: "two".to_string() },
    ];
    let picked = pick_fortune(&fortunes, None).unwrap();
    assert!(picked == "one" || picked == "two");
    assert!(pick_fortune(&Vec::new(), None).is_none());
    assert!(pick_fortune(&Vec::new(), Some(1)).is_none());
}

#[test]
fn test_read_fortunes_blocks() {
    let files = vec![FortuneFile {
        name: "jokes".to_string(),
        lines: strings(&["first", "%", "second a", "second b", "%", "%", "tail without end"]),
    }];
    let fortunes = read_fortunes(&files);
    assert_eq!(fortunes.len(), 2);
    assert_eq!(fortunes[0].source, "jokes");
    assert_eq!(fortunes[0].text, "first");
    assert_eq!(fortunes[1].text, "second a\nsecond b");
}

#[test]
fn test_read_fortunes_parses_each_file_alone() {
    let files = vec![
        FortuneFile { name: "one".to_string(), lines: strings(&["alpha"]) },
        FortuneFile { name: "two".to_string(), lines: strings(&["beta", "%"]) },
    ];
    let fortunes = read_fortunes(&files);
    // the unterminated block of the first file yields nothing and does
    // not run into the second file
    assert_eq!(fortunes.len(), 1);
    assert_eq!(fortunes[0].source, "two");
    assert_eq!(fortunes[0].text, "beta");
}

#[test]
fn test_matching_fortunes_filter() {
    let fortunes = vec![
        Fortune { source: "a".to_string(), text: "red fox".to_string() },
        Fortune { source: "b".to_string(), text: "blue cow".to_string() },
        Fortune { source: "c".to_string(), text: "red dog".to_string() },
    ];
    let re = compile_pattern("red", false).unwrap();
    let kept = matching_fortunes(&fortunes, &re);
    assert_eq!(kept.len(), 2);
    assert_eq!(kept[0].source, "a");
    assert_eq!(kept[0].text, "red fox");
    assert_eq!(kept[1].source, "c");
    assert_eq!(kept[1].text, "red dog");
}

#[test]
fn test_match_sources_headers() {
    let fortunes = vec![
        Fortune { source: "a".to_string(), text: "red fox".to_string() },
        Fortune { source: "a".to_string(), text: "red hen".to_string() },
        Fortune { source: "b".to_string(), text: "red cat".to_string() },
        Fortune { source: "b".to_string(), text: "blue cow".to_string() },
        Fortune { source: "a".to_string(), text: "red dog".to_string() },
    ];
    let re = compile_pattern("red", false).unwrap();
    assert_eq!(match_sources(&fortunes, &re), vec!["a", "b", "a"]);
    let none = compile_pattern("green", false).unwrap();
    assert!(match_sources(&fortunes, &none).is_empty());
}
