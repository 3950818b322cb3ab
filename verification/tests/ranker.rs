use sandbox_rank::parse::extract_candidates;
use sandbox_rank::report::format_line;
use sandbox_rank::report::join_path;
use sandbox_rank::report::join_scores;
use sandbox_rank::report::sort_by_score_desc;
use sandbox_rank::report::RankedResult;
use sandbox_rank::table::build_table;
use sandbox_rank::table::Score;
use sandbox_rank::table::ScoreTable;

/// Order-preserving key for a non-NaN f64, as the shell around the library
/// computes it: flipping the sign bit (or all bits, for negatives) makes the
/// unsigned order of the keys agree with the numeric order of the floats.
fn order_key(f: f64) -> u64 {
    let b = f.to_bits();
    if b & (1u64 << 63) != 0 {
        !b
    } else {
        b | (1u64 << 63)
    }
}

fn score_of(f: f64) -> Score {
    Score {
        key: order_key(f),
        disp: format!("{:.1}", f).into_bytes(),
    }
}

fn candidates(text: &str) -> Vec<(String, String)> {
    extract_candidates(&text.as_bytes().to_vec())
        .into_iter()
        .map(|(tok, path)| {
            (
                String::from_utf8(tok).unwrap(),
                String::from_utf8(path).unwrap(),
            )
        })
        .collect()
}

fn table_from(text: &str) -> ScoreTable {
    let pairs = extract_candidates(&text.as_bytes().to_vec())
        .into_iter()
        .map(|(tok, path)| {
            let parsed = String::from_utf8_lossy(&tok).parse::<f64>().ok().map(score_of);
            (path, parsed)
        })
        .collect();
    build_table(pairs)
}

fn owned(paths: &[&str]) -> Vec<Vec<u8>> {
    paths.iter().map(|p| p.as_bytes().to_vec()).collect()
}

#[test]
fn candidates_one_per_line() {
    let got = candidates("10.5 /home/u/sandbox/a\n2.0 /home/u/c\n");
    assert_eq!(
        got,
        vec![
            ("10.5".to_string(), "/home/u/sandbox/a".to_string()),
            ("2.0".to_string(), "/home/u/c".to_string()),
        ]
    );
}

#[test]
fn candidates_skip_blank_and_spaceless_lines() {
    let got = candidates("\n   \nnospace\n 3.5 /a \n");
    assert_eq!(got, vec![("3.5".to_string(), "/a".to_string())]);
}

#[test]
fn candidates_path_may_contain_spaces() {
    let got = candidates("2.5 /my dir/x");
    assert_eq!(got, vec![("2.5".to_string(), "/my dir/x".to_string())]);
}

#[test]
fn candidates_empty_text() {
    assert_eq!(candidates(""), vec![]);
}

#[test]
fn table_keeps_well_formed_lines_only() {
    let t = table_from("1.5 /a\nnot-a-number /b\n2.5 /c\n");
    assert_eq!(t.get(&b"/a".to_vec()).unwrap().key, order_key(1.5));
    assert!(t.get(&b"/b".to_vec()).is_none());
    assert_eq!(t.get(&b"/c".to_vec()).unwrap().key, order_key(2.5));
}

#[test]
fn table_later_duplicate_wins() {
    let t = table_from("1.0 /a\n2.0 /a\n");
    let s = t.get(&b"/a".to_vec()).unwrap();
    assert_eq!(s.key, order_key(2.0));
    assert_eq!(s.disp, b"2.0".to_vec());
}

#[test]
fn table_insert_overwrites() {
    let mut t = ScoreTable::new();
    t.insert(b"/a".to_vec(), score_of(1.0));
    t.insert(b"/a".to_vec(), score_of(3.0));
    assert_eq!(t.get(&b"/a".to_vec()).unwrap().key, order_key(3.0));
}

#[test]
fn join_uses_default_for_absent_paths() {
    let t = table_from("4.0 /a\n");
    let dirs = owned(&["/a", "/b"]);
    let joined = join_scores(&dirs, &t, &score_of(0.0));
    assert_eq!(joined.len(), 2);
    assert_eq!(joined[0].path, b"/a".to_vec());
    assert_eq!(joined[0].score.key, order_key(4.0));
    assert_eq!(joined[1].path, b"/b".to_vec());
    assert_eq!(joined[1].score.key, order_key(0.0));
    assert_eq!(joined[1].score.disp, b"0.0".to_vec());
}

#[test]
fn sort_is_non_increasing() {
    let rows: Vec<RankedResult> = [1.0, 5.0, 3.0, 5.0, 0.5]
        .iter()
        .enumerate()
        .map(|(i, f)| RankedResult {
            score: score_of(*f),
            path: format!("/p{}", i).into_bytes(),
        })
        .collect();
    let sorted = sort_by_score_desc(rows);
    assert_eq!(sorted.len(), 5);
    for w in sorted.windows(2) {
        assert!(w[0].score.key >= w[1].score.key);
    }
    let mut paths: Vec<Vec<u8>> = sorted.iter().map(|r| r.path.clone()).collect();
    paths.sort();
    let mut expected = owned(&["/p0", "/p1", "/p2", "/p3", "/p4"]);
    expected.sort();
    assert_eq!(paths, expected);
}

#[test]
fn sort_orders_negative_below_positive() {
    let rows: Vec<RankedResult> = [-1.5, 2.0, 0.0]
        .iter()
        .enumerate()
        .map(|(i, f)| RankedResult {
            score: score_of(*f),
            path: format!("/p{}", i).into_bytes(),
        })
        .collect();
    let sorted = sort_by_score_desc(rows);
    assert_eq!(sorted[0].path, b"/p1".to_vec());
    assert_eq!(sorted[1].path, b"/p2".to_vec());
    assert_eq!(sorted[2].path, b"/p0".to_vec());
}

#[test]
fn format_pads_score_to_width_six() {
    let line = format_line(&score_of(3.14159), &b"/home/u/sandbox/proj".to_vec());
    assert_eq!(
        String::from_utf8(line).unwrap(),
        "   3.1 /home/u/sandbox/proj"
    );
}

#[test]
fn format_keeps_wide_scores_whole() {
    let line = format_line(&score_of(12345.678), &b"/p".to_vec());
    assert_eq!(String::from_utf8(line).unwrap(), "12345.7 /p");
}

#[test]
fn join_path_inserts_separator() {
    assert_eq!(
        join_path(&b"/home/u".to_vec(), &b"sandbox".to_vec()),
        b"/home/u/sandbox".to_vec()
    );
}

#[test]
fn join_path_keeps_existing_separator() {
    assert_eq!(
        join_path(&b"/home/u/".to_vec(), &b"sandbox".to_vec()),
        b"/home/u/sandbox".to_vec()
    );
}

#[test]
fn join_path_empty_base() {
    assert_eq!(join_path(&Vec::new(), &b"sandbox".to_vec()), b"sandbox".to_vec());
}

#[test]
fn end_to_end_scenario() {
    let t = table_from("10.5 /home/u/sandbox/a\n2.0 /home/u/c\n");
    let dirs = owned(&[
        "/home/u/sandbox/a",
        "/home/u/sandbox/b",
        "/home/u/sandbox",
        "/home/u/c",
    ]);
    let joined = join_scores(&dirs, &t, &score_of(0.0));
    let sorted = sort_by_score_desc(joined);
    let lines: Vec<String> = sorted
        .iter()
        .map(|r| String::from_utf8(format_line(&r.score, &r.path)).unwrap())
        .collect();
    assert_eq!(lines.len(), 4);
    assert_eq!(lines[0], "  10.5 /home/u/sandbox/a");
    assert_eq!(lines[1], "   2.0 /home/u/c");
    let mut tail = vec![lines[2].clone(), lines[3].clone()];
    tail.sort();
    assert_eq!(
        tail,
        vec![
            "   0.0 /home/u/sandbox".to_string(),
            "   0.0 /home/u/sandbox/b".to_string(),
        ]
    );
}
