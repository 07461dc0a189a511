use glasslight::matcher::find_bytes;
use glasslight::matcher::fuzzy_match;
use glasslight::matcher::match_score;
use glasslight::matcher::subsequence_walk;

fn chars(text: &str) -> Vec<char> {
    text.chars().collect()
}

#[test]
fn substring_at_start_scores_base() {
    assert_eq!(fuzzy_match("rep", "Report.pdf"), Some(1000));
    assert_eq!(fuzzy_match("rep", "report_final.docx"), Some(1000));
}

#[test]
fn substring_score_falls_with_offset() {
    assert_eq!(fuzzy_match("port", "Report.pdf"), Some(998));
    assert_eq!(fuzzy_match("pdf", "Report.pdf"), Some(993));
    assert_eq!(fuzzy_match("final", "report_final.docx"), Some(993));
}

#[test]
fn substring_uses_first_occurrence() {
    assert_eq!(fuzzy_match("ab", "xxabxxab"), Some(998));
    assert_eq!(fuzzy_match("a", "banana"), Some(999));
}

#[test]
fn substring_offset_counts_bytes() {
    assert_eq!(fuzzy_match("b", "\u{e9}b"), Some(998));
    assert_eq!(fuzzy_match("z", "\u{4e2d}\u{6587}z"), Some(994));
}

#[test]
fn matching_ignores_case() {
    assert_eq!(fuzzy_match("REP", "report"), Some(1000));
    assert_eq!(fuzzy_match("rep", "REPORT"), Some(1000));
    assert_eq!(fuzzy_match("RpT", "rEPORT.PDF"), Some(24));
    assert_eq!(fuzzy_match("\u{c9}", "caf\u{e9}"), Some(997));
}

#[test]
fn subsequence_match_scores_below_substring_match() {
    let loose = fuzzy_match("rpt", "Report.pdf");
    assert_eq!(loose, Some(24));
    let tight = fuzzy_match("report", "Report.pdf");
    assert_eq!(tight, Some(1000));
    assert!(loose.unwrap() < tight.unwrap());
}

#[test]
fn longer_run_scores_higher() {
    let scattered = fuzzy_match("abc", "xaybcz");
    let leading = fuzzy_match("abc", "abcxyz");
    assert_eq!(scattered, Some(35));
    assert_eq!(leading, Some(1000));
    assert!(scattered.unwrap() < leading.unwrap());
}

#[test]
fn subsequence_runs_earn_growing_bonus() {
    assert_eq!(fuzzy_match("abc", "abxc"), Some(36));
    assert_eq!(fuzzy_match("abc", "axbxc"), Some(25));
    assert_eq!(fuzzy_match("abcd", "abxcd"), Some(55));
}

#[test]
fn unplaced_character_is_no_match() {
    assert_eq!(fuzzy_match("xyz", "Report.pdf"), None);
    assert_eq!(fuzzy_match("rpx", "Report.pdf"), None);
    assert_eq!(fuzzy_match("tr", "rt"), None);
    assert_eq!(fuzzy_match("aa", "a"), None);
    assert_eq!(fuzzy_match("a", ""), None);
}

#[test]
fn empty_query_matches_at_offset_zero() {
    assert_eq!(fuzzy_match("", "anything"), Some(1000));
    assert_eq!(fuzzy_match("", ""), Some(1000));
}

#[test]
fn long_query_scores_like_a_short_one() {
    let long = "a".repeat(20001);
    assert_eq!(fuzzy_match(&long, &long), Some(1000));
    let longer = "A".repeat(50000);
    let held = format!("xyz{}", "a".repeat(50000));
    assert_eq!(fuzzy_match(&longer, &held), Some(997));
    assert_eq!(fuzzy_match(&held, &longer), None);
}

#[test]
fn long_subsequence_score_is_exact_while_it_fits() {
    let query = format!("{}b", "a".repeat(20723));
    let target = format!("{}xb", "a".repeat(20723));
    assert_eq!(fuzzy_match(&query, &target), Some(2147296545));
    let query = format!("{}b", "a".repeat(20001));
    let target = format!("{}xb", "a".repeat(20001));
    assert_eq!(fuzzy_match(&query, &target), Some(2000280017));
}

#[test]
fn score_outside_the_result_type_is_not_handed_out() {
    let query = format!("{}b", "a".repeat(20724));
    let target = format!("{}xb", "a".repeat(20724));
    assert_eq!(fuzzy_match(&query, &target), None);
    let query = format!("{}b", "a".repeat(30000));
    let target = format!("{}xb", "a".repeat(30000));
    assert_eq!(fuzzy_match(&query, &target), None);
}

#[test]
fn match_score_takes_lowered_texts_as_they_are() {
    assert_eq!(match_score("rep", "report.pdf"), Some(1000));
    assert_eq!(match_score("rpt", "report.pdf"), Some(24));
    assert_eq!(match_score("REP", "report.pdf"), None);
    assert_eq!(match_score("rep", "Report.pdf"), None);
}

#[test]
fn find_bytes_gives_least_offset() {
    assert_eq!(find_bytes(b"hello world", b"o"), Some(4));
    assert_eq!(find_bytes(b"hello world", b"world"), Some(6));
    assert_eq!(find_bytes(b"hello", b"hello"), Some(0));
    assert_eq!(find_bytes(b"hello", b""), Some(0));
    assert_eq!(find_bytes(b"", b""), Some(0));
    assert_eq!(find_bytes(b"hello", b"hello!"), None);
    assert_eq!(find_bytes(b"hello", b"lo!"), None);
    assert_eq!(find_bytes(b"aab", b"ab"), Some(1));
}

#[test]
fn subsequence_walk_exact_scores() {
    assert_eq!(subsequence_walk(&chars("abc"), &chars("abc")), Some(57));
    assert_eq!(subsequence_walk(&chars("abc"), &chars("xaybcz")), Some(35));
    assert_eq!(subsequence_walk(&chars("a"), &chars("xxxa")), Some(6));
    assert_eq!(subsequence_walk(&chars(""), &chars("abc")), Some(0));
    assert_eq!(subsequence_walk(&chars("abc"), &chars("ab")), None);
    assert_eq!(subsequence_walk(&chars("ba"), &chars("ab")), None);
}

#[test]
fn subsequence_score_can_be_negative() {
    assert_eq!(fuzzy_match("az", "a0123456789012345678z"), Some(-1));
}
