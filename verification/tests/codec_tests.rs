use duplicate_finder::codec::{encode_report, parse_report};
use duplicate_finder::report::Report;

fn report(identicals: Vec<Vec<&str>>, similars: Vec<Vec<&str>>) -> Report {
    let conv = |gs: Vec<Vec<&str>>| {
        gs.into_iter()
            .map(|g| g.into_iter().map(|s| s.to_string()).collect())
            .collect()
    };
    Report::from(conv(identicals), conv(similars))
}

#[test]
fn empty_report_encodes_to_the_expected_document() {
    let r = report(vec![], vec![]);
    let b = encode_report(&r);
    assert_eq!(b, br#"{"identicals":[],"similars":[]}"#.to_vec());
}

#[test]
fn simple_report_encodes_to_the_expected_document() {
    let r = report(vec![vec!["a.jpg", "b.jpg"]], vec![vec!["c.png", "d.png"]]);
    let b = encode_report(&r);
    assert_eq!(
        b,
        br#"{"identicals":[["a.jpg","b.jpg"]],"similars":[["c.png","d.png"]]}"#.to_vec()
    );
}

#[test]
fn round_trip_reproduces_the_groups() {
    let r = report(
        vec![vec!["a.jpg", "b.jpg"], vec!["x.png", "y.png", "z.png"]],
        vec![vec!["m.gif", "n.gif"]],
    );
    let b = encode_report(&r);
    let r2 = parse_report(&b).unwrap();
    assert_eq!(r2.identicals, r.identicals);
    assert_eq!(r2.similars, r.similars);
}

#[test]
fn round_trip_keeps_awkward_path_characters() {
    let r = report(
        vec![vec!["a\"quote.jpg", "back\\slash.jpg", "new\nline.jpg", "tab\t.jpg"]],
        vec![vec!["sp ace.png", "uni\u{e9}.png"]],
    );
    let b = encode_report(&r);
    let r2 = parse_report(&b).unwrap();
    assert_eq!(r2.identicals, r.identicals);
    assert_eq!(r2.similars, r.similars);
}

#[test]
fn round_trip_of_empty_report() {
    let r = report(vec![], vec![]);
    let b = encode_report(&r);
    let r2 = parse_report(&b).unwrap();
    assert_eq!(r2.identicals.len(), 0);
    assert_eq!(r2.similars.len(), 0);
}

#[test]
fn parser_accepts_conventional_escapes() {
    let b = br#"{"identicals":[["a\nb","c\"d"]],"similars":[]}"#.to_vec();
    let r = parse_report(&b).unwrap();
    assert_eq!(r.identicals, vec![vec!["a\nb".to_string(), "c\"d".to_string()]]);
}

#[test]
fn parser_rejects_garbage() {
    assert!(parse_report(&b"".to_vec()).is_err());
    assert!(parse_report(&b"{}".to_vec()).is_err());
    assert!(parse_report(&br#"{"identicals":[}"#.to_vec()).is_err());
    assert!(parse_report(&br#"{"identicals":[],"similars":[]"#.to_vec()).is_err());
    assert!(parse_report(&br#"{"identicals":[],"similars":[]}x"#.to_vec()).is_err());
    assert!(parse_report(&br#"{"wrong":[],"similars":[]}"#.to_vec()).is_err());
}
