use duplicate_finder::diff::{collect_files, diff_report, select_representative};
use duplicate_finder::files::{Category, File};

fn file(path: &str, md5: u128, ihash: Option<u64>) -> File {
    File {
        path: path.to_string(),
        category: if ihash.is_some() {
            Category::IMAGE
        } else {
            Category::UNKNOWN
        },
        md5,
        ihash,
    }
}

#[test]
fn three_identical_files_make_one_identicals_group_and_no_similars() {
    // identical bytes: same content digest and same perceptual digest
    let files = vec![
        file("./b.jpg", 1, Some(7)),
        file("./a.jpg", 1, Some(7)),
        file("./c.jpg", 1, Some(7)),
    ];
    let r = diff_report(&files, 0);
    assert_eq!(
        r.identicals,
        vec![vec![
            "a.jpg".to_string(),
            "b.jpg".to_string(),
            "c.jpg".to_string()
        ]]
    );
    assert_eq!(r.similars.len(), 0);
}

#[test]
fn equal_perceptual_digests_make_one_similars_group() {
    // two distinct-content images whose perceptual digests differ by 0
    // bits, threshold 0
    let files = vec![file("./x.png", 1, Some(42)), file("./y.png", 2, Some(42))];
    let r = diff_report(&files, 0);
    assert_eq!(r.identicals.len(), 0);
    assert_eq!(
        r.similars,
        vec![vec!["x.png".to_string(), "y.png".to_string()]]
    );
}

#[test]
fn chained_links_pull_all_three_into_one_similars_group() {
    // digests chained by single-bit steps: the outer pair differs by two
    // bits, above the threshold of one, yet the chain joins all three
    let files = vec![
        file("./p1.png", 1, Some(0b00)),
        file("./p2.png", 2, Some(0b01)),
        file("./p3.png", 3, Some(0b11)),
    ];
    let r = diff_report(&files, 1);
    assert_eq!(
        r.similars,
        vec![vec![
            "p1.png".to_string(),
            "p2.png".to_string(),
            "p3.png".to_string()
        ]]
    );
}

#[test]
fn far_digests_stay_apart() {
    let files = vec![file("./p1.png", 1, Some(0)), file("./p2.png", 2, Some(u64::MAX))];
    let r = diff_report(&files, 0);
    assert_eq!(r.similars.len(), 0);
    assert_eq!(r.identicals.len(), 0);
}

#[test]
fn only_representatives_enter_similarity() {
    // b.png duplicates a.png; c.png is similar to their representative:
    // the similars group holds the representative a.png, not b.png
    let files = vec![
        file("./a.png", 1, Some(5)),
        file("./b.png", 1, Some(5)),
        file("./c.png", 2, Some(5)),
    ];
    let r = diff_report(&files, 0);
    assert_eq!(
        r.identicals,
        vec![vec!["a.png".to_string(), "b.png".to_string()]]
    );
    assert_eq!(
        r.similars,
        vec![vec!["a.png".to_string(), "c.png".to_string()]]
    );
}

#[test]
fn files_without_perceptual_digest_never_join_similars() {
    let files = vec![file("./a.txt", 1, None), file("./b.txt", 2, None)];
    let r = diff_report(&files, 64);
    assert_eq!(r.identicals.len(), 0);
    assert_eq!(r.similars.len(), 0);
}

#[test]
fn singletons_appear_in_no_group() {
    let files = vec![file("./one.png", 1, Some(1)), file("./two.png", 2, Some(u64::MAX))];
    let r = diff_report(&files, 0);
    assert_eq!(r.identicals.len(), 0);
    assert_eq!(r.similars.len(), 0);
}

#[test]
fn representative_is_the_lexicographically_smallest_path() {
    let files = vec![
        file("./z.png", 1, Some(1)),
        file("./m.png", 1, Some(1)),
        file("./a.png", 1, Some(1)),
    ];
    let grp = vec![0usize, 1, 2];
    let rep = select_representative(&files, &grp);
    assert_eq!(rep, 2);
    // re-running picks the same representative
    assert_eq!(select_representative(&files, &grp), 2);
}

#[test]
fn one_unreadable_file_aborts_the_whole_run() {
    // a file with an unreadable body surfaces as the batch's error, and
    // no report is assembled
    let results = vec![
        Ok(file("./a.png", 1, Some(1))),
        Err("./bad.png: unreadable".to_string()),
        Ok(file("./c.png", 2, Some(2))),
    ];
    match collect_files(results) {
        Ok(_) => panic!("a hard error must abort the run"),
        Err(e) => assert_eq!(e, "./bad.png: unreadable"),
    }
}

#[test]
fn all_readable_files_are_collected_in_order() {
    let results = vec![Ok(file("./a.png", 1, None)), Ok(file("./b.png", 2, None))];
    let files = collect_files(results).unwrap();
    assert_eq!(files.len(), 2);
    assert_eq!(files[0].path, "./a.png");
    assert_eq!(files[1].path, "./b.png");
}

#[test]
fn groups_are_sorted_by_display_path() {
    let files = vec![
        file("./zz/a.png", 9, Some(3)),
        file("./ab.png", 9, Some(3)),
        file("./m.png", 9, Some(3)),
    ];
    let r = diff_report(&files, 0);
    assert_eq!(
        r.identicals,
        vec![vec![
            "ab.png".to_string(),
            "m.png".to_string(),
            "zz/a.png".to_string()
        ]]
    );
}
