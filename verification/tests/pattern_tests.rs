use originscan::dump::scan_text;
use originscan::pattern::classify_all_zero;

fn chars(s: &str) -> Vec<char> {
    s.chars().collect()
}

fn strings(caps: &Vec<Vec<char>>) -> Vec<String> {
    caps.iter().map(|c| c.iter().collect()).collect()
}

const SAMPLE: &str =
    "header line\n[ k = Origin\n4b.02, l =     8 (8) ]\n       720 00 00 00 00 00 00 00 00\ntrailer\n";

#[test]
fn finds_marker_payload() {
    let caps = scan_text(SAMPLE);
    assert_eq!(strings(&caps), vec!["00 00 00 00 00 00 00 00".to_string()]);
}

#[test]
fn all_zero_payload_classified_true() {
    let cap = chars("00 00 00 00 00 00 00 00");
    assert!(classify_all_zero(&cap));
}

#[test]
fn nonzero_payload_classified_false() {
    let cap = chars("01 00 00 00 00 00 00 00");
    assert!(!classify_all_zero(&cap));
}

#[test]
fn no_match_yields_empty_captures() {
    let caps = scan_text("nothing of interest here\nk = Origin without the bracket\n");
    assert!(caps.is_empty());
}

#[test]
fn finds_two_markers_in_order() {
    let text = format!(
        "[ k = Origin\r\n4b.02, l = 8 (8) ]\r\n  1 aa bb cc dd ee ff 00 11\n{}",
        "[ k = Origin 4b.02, l = 8 (8) ]\n  2 00 00 00 00 00 00 00 00"
    );
    let caps = scan_text(&text);
    assert_eq!(
        strings(&caps),
        vec![
            "aa bb cc dd ee ff 00 11".to_string(),
            "00 00 00 00 00 00 00 00".to_string()
        ]
    );
}

#[test]
fn seven_tokens_is_no_marker() {
    let text = "[ k = Origin\n4b.02, l = 8 (8) ]\n  720 00 00 00 00 00 00 00\n";
    assert!(scan_text(text).is_empty());
}

#[test]
fn matches_regex_reference_semantics() {
    let re = regex::Regex::new(
        r"\[ k = Origin\s+\r?\n?4b\.02, l =\s+\d+\s+\(\d+\) \]\s+\r?\n?\s+\d+\s+([0-9a-fA-F]{2}(?: [0-9a-fA-F]{2}){7})",
    )
    .unwrap();
    let texts = [
        SAMPLE,
        "[ k = Origin \r\n4b.02, l =  12  (12) ]  \r\n   96 AB cd EF 01 23 45 67 89 extra",
        "[ k = Origin\n4b.02, l = 8 (8) ]\n  00 11 22 33 44 55 66 77 88 99",
        "[ k = Origin\n4b.02, l = 8 (8) ]\n  720 00 11 22 33 44 55 66\n",
        "prefix [ k = Origin\n4b.02, l = 8 (8) ]\n 1 aa aa aa aa aa aa aa aa [ k = Origin\n4b.02, l = 8 (8) ]\n 2 bb bb bb bb bb bb bb bb",
        "[ k = Origin4b.02, l = 8 (8) ]\n  720 00 00 00 00 00 00 00 00\n",
        "[ k = Origin\n4b.02, l =8 (8) ]\n  720 00 00 00 00 00 00 00 00\n",
        "[ k = Origin\n4b.02, l = 8 (8) ] 720 00 00 00 00 00 00 00 00\n",
        "[ k = Origin\t\x0b\x0c\r\n4b.02, l = 8 (8) ]\n\t720\t00 00 00 00 00 00 00 00",
    ];
    for text in texts.iter() {
        let expected: Vec<String> = re
            .captures_iter(text)
            .map(|c| c.get(1).unwrap().as_str().to_string())
            .collect();
        let got = strings(&scan_text(text));
        assert_eq!(got, expected, "diverged on: {text}");
    }
}
