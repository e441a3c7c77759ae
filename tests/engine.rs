use logtools::lexer::{extract_timestamp, join_lines, segment, start_indices, Entry};
use logtools::matchers::{filter_texts, parse_matchers, Matcher, VerbatimMatcher};
use logtools::merge::{key_less, merge_order, select_head, total_len};
use logtools::offset::{offset_entry, OffsetError};
use logtools::pattern::{Pattern, PatternError};
use logtools::sort::{plan_runs, sort_entries, sort_order, sort_run};
use logtools::sources::{merge_sources, Source};
use logtools::time::shift_hours;

const TS: &str = r"(?P<timestamp>\d{4}-\d{2}-\d{2} \d{2}:\d{2}:\d{2},\d{3}) ";
const FMT: &str = "%Y-%m-%d %H:%M:%S,%3f";

fn lines(v: &[&str]) -> Vec<String> {
    v.iter().map(|s| s.to_string()).collect()
}

fn entry(text: &str, ts: Option<i64>) -> Entry {
    Entry { text: text.to_string(), timestamp: ts }
}

fn texts(v: &[Entry]) -> Vec<String> {
    v.iter().map(|e| e.text.clone()).collect()
}

#[test]
fn multi_line_grouping() {
    let p = Pattern::anchored(r"\d{4}-\d{2}-\d{2} \d{2}:\d{2}:\d{2},\d{3}").ok().unwrap();
    let input = lines(&["2020-01-01 00:00:00,000 A", "cont1", "2020-01-01 00:00:01,000 B"]);
    let out = segment(&input, &p, None);
    assert_eq!(texts(&out), vec!["2020-01-01 00:00:00,000 A\ncont1", "2020-01-01 00:00:01,000 B"]);
    assert_eq!(out[0].timestamp, None);
}

#[test]
fn lines_before_first_start_are_dropped() {
    let p = Pattern::anchored("START").ok().unwrap();
    let input = lines(&["banner", "more banner", "START one", "x", "y", "START two"]);
    let out = segment(&input, &p, None);
    assert_eq!(texts(&out), vec!["START one\nx\ny", "START two"]);
    let joined = texts(&out).join("\n");
    assert_eq!(joined, input[2..].join("\n"));
}

#[test]
fn no_start_gives_no_entry() {
    let p = Pattern::anchored("START").ok().unwrap();
    let out = segment(&lines(&["a", "b"]), &p, None);
    assert!(out.is_empty());
    assert!(segment(&Vec::new(), &p, None).is_empty());
}

#[test]
fn anchored_pattern_ignores_later_matches() {
    let p = Pattern::anchored("START").ok().unwrap();
    let out = segment(&lines(&["START a", "not START", "START b"]), &p, None);
    assert_eq!(texts(&out), vec!["START a\nnot START", "START b"]);
}

#[test]
fn timestamps_are_read_from_first_lines() {
    let p = Pattern::new(&format!("^{}", TS)).ok().unwrap();
    let input = lines(&["2020-01-01 00:00:00,000 A", "cont1", "2020-01-01 00:00:01,250 B"]);
    let out = segment(&input, &p, Some(FMT));
    assert_eq!(out[0].timestamp, Some(1577836800000));
    assert_eq!(out[1].timestamp, Some(1577836801250));
}

#[test]
fn unparsable_timestamp_gives_none() {
    let p = Pattern::new(r"^(?P<timestamp>\S+) ").ok().unwrap();
    assert_eq!(extract_timestamp(&p, "garbage here", FMT), None);
    let q = Pattern::new(r"^(?P<other>\S+) ").ok().unwrap();
    assert_eq!(extract_timestamp(&q, "2020-01-01 x", "%Y-%m-%d"), None);
}

#[test]
fn labelled_lines_are_segmented() {
    let p = Pattern::after_label("START").ok().unwrap();
    let out = segment(&lines(&["a.log: START 1", "a.log: more", "b.log: START 2"]), &p, None);
    assert_eq!(texts(&out), vec!["a.log: START 1\na.log: more", "b.log: START 2"]);
}

#[test]
fn invalid_regex_is_refused() {
    assert!(matches!(Pattern::new("("), Err(PatternError::InvalidRegex)));
    assert!(matches!(Pattern::anchored("[a"), Err(PatternError::InvalidRegex)));
}

#[test]
fn start_indices_and_join() {
    assert_eq!(start_indices(&vec![false, true, false, true, true]), vec![1, 3, 4]);
    let l = lines(&["a", "b", "c"]);
    assert_eq!(join_lines(&l, 0, 3), "a\nb\nc");
    assert_eq!(join_lines(&l, 1, 2), "b");
}

#[test]
fn merge_keeps_every_entry_in_order() {
    let a = vec![Some(1), Some(4), Some(9)];
    let b = vec![Some(2), Some(3)];
    let c: Vec<Option<i64>> = vec![];
    let d = vec![Some(5)];
    let order = merge_order(&vec![a, b, c, d]);
    assert_eq!(order, vec![(0, 0), (1, 0), (1, 1), (0, 1), (3, 0), (0, 2)]);
}

#[test]
fn merge_ties_go_to_earlier_source() {
    let order = merge_order(&vec![vec![Some(5), Some(5)], vec![Some(5)], vec![Some(1), Some(5)]]);
    assert_eq!(order, vec![(2, 0), (0, 0), (0, 1), (1, 0), (2, 1)]);
}

#[test]
fn missing_timestamps_sort_first() {
    assert!(key_less(None, Some(i64::MIN)));
    assert!(!key_less(Some(0), None));
    assert!(!key_less(None, None));
    let order = merge_order(&vec![vec![Some(3)], vec![None, Some(7)]]);
    assert_eq!(order, vec![(1, 0), (0, 0), (1, 1)]);
}

#[test]
fn total_len_counts_entries() {
    assert_eq!(total_len(&vec![vec![Some(1)], vec![], vec![None, None]]), Some(3));
    assert_eq!(total_len(&vec![]), Some(0));
}

#[test]
fn merge_sources_labels_entries() {
    let s1 = Source { entries: vec![entry("a1", Some(10)), entry("a2", Some(30))], label: Some("a.log".to_string()) };
    let s2 = Source { entries: vec![entry("b1", Some(20)), entry("b2", Some(30))], label: None };
    let out = merge_sources(&vec![s1, s2]).unwrap();
    let got: Vec<(String, Option<String>)> = out.iter().map(|e| (e.entry.text.clone(), e.label.clone())).collect();
    assert_eq!(
        got,
        vec![
            ("a1".to_string(), Some("a.log".to_string())),
            ("b1".to_string(), None),
            ("a2".to_string(), Some("a.log".to_string())),
            ("b2".to_string(), None),
        ]
    );
}

#[test]
fn run_plan_follows_budget() {
    assert_eq!(plan_runs(&vec![4, 4, 4, 4], 8), vec![0, 2]);
    assert_eq!(plan_runs(&vec![4, 5, 3, 10, 1], 8), vec![0, 1, 3, 4]);
    assert_eq!(plan_runs(&vec![4, 4, 4], 0), vec![0, 1, 2]);
    assert_eq!(plan_runs(&vec![4, 4, 4], u64::MAX), vec![0]);
    assert_eq!(plan_runs(&vec![], 10), Vec::<usize>::new());
    assert_eq!(plan_runs(&vec![u64::MAX, u64::MAX], u64::MAX), vec![0, 1]);
}

#[test]
fn run_sort_is_stable() {
    let keys = vec![Some(9), Some(3), Some(3), None, Some(1)];
    assert_eq!(sort_run(&keys, 0, 5), vec![3, 4, 1, 2, 0]);
    assert_eq!(sort_run(&keys, 1, 3), vec![1, 2]);
    assert_eq!(sort_run(&keys, 2, 2), Vec::<usize>::new());
}

fn sample() -> Vec<Entry> {
    vec![
        entry("e", Some(50)),
        entry("a", Some(10)),
        entry("d", Some(40)),
        entry("b", Some(20)),
        entry("c", Some(30)),
        entry("f", Some(60)),
    ]
}

#[test]
fn external_sort_with_tiny_budget() {
    let out = sort_entries(&sample(), 0);
    assert_eq!(texts(&out), vec!["a", "b", "c", "d", "e", "f"]);
}

#[test]
fn external_sort_with_huge_budget() {
    let out = sort_entries(&sample(), u64::MAX);
    assert_eq!(texts(&out), vec!["a", "b", "c", "d", "e", "f"]);
}

#[test]
fn external_sort_with_middle_budget() {
    let out = sort_entries(&sample(), 2);
    assert_eq!(texts(&out), vec!["a", "b", "c", "d", "e", "f"]);
    assert!(sort_entries(&Vec::new(), 5).is_empty());
}

#[test]
fn sort_order_is_a_permutation() {
    let keys = vec![Some(3), Some(1), Some(2), Some(1)];
    let sizes = vec![1, 1, 1, 1];
    let order = sort_order(&keys, &sizes, 1);
    assert_eq!(order, vec![1, 3, 2, 0]);
}

#[test]
fn offset_round_trip() {
    let p = Pattern::new(&format!("^{}", TS)).ok().unwrap();
    let text = "2020-01-01 23:30:00,125 hello\nsecond line";
    let fwd = offset_entry(&p, text, FMT, 2).unwrap();
    assert_eq!(fwd, "2020-01-02 01:30:00,125 hello\nsecond line");
    let back = offset_entry(&p, &fwd, FMT, -2).unwrap();
    assert_eq!(back, text);
}

#[test]
fn offset_errors() {
    let p = Pattern::new(&format!("^{}", TS)).ok().unwrap();
    assert_eq!(offset_entry(&p, "no timestamp", FMT, 1), Err(OffsetError::NoTimestamp));
    let q = Pattern::new(r"^(?P<timestamp>\S+) ").ok().unwrap();
    assert_eq!(offset_entry(&q, "nonsense text", FMT, 1), Err(OffsetError::Unparsable));
}

#[test]
fn time_wrappers() {
    let p = Pattern::new(&format!("^{}", TS)).ok().unwrap();
    assert_eq!(extract_timestamp(&p, "1970-01-01 00:00:01,500 x", FMT), Some(1500));
    assert_eq!(extract_timestamp(&p, "1970-13-01 00:00:01,500 x", FMT), None);
    assert_eq!(offset_entry(&p, "1970-01-01 00:00:01,500 x", FMT, 1), Ok("1970-01-01 01:00:01,500 x".to_string()));
    assert_eq!(offset_entry(&p, "1970-01-01 00:00:01,500 x", FMT, -24), Ok("1969-12-31 00:00:01,500 x".to_string()));
    assert_eq!(offset_entry(&p, "1970-01-01 00:00:01,500 x", "%Q", 0), Err(OffsetError::Unparsable));
    assert_eq!(shift_hours(0, 1), Some(3600000));
    assert_eq!(shift_hours(0, -2), Some(-7200000));
    assert_eq!(shift_hours(i64::MAX, 1), None);
    assert_eq!(shift_hours(i64::MIN, i64::MIN), None);
    assert_eq!(shift_hours(-9_000_000_000_000_000_000, 2_500_000_000_000), Some(-9_000_000_000_000_000_000 + 2_500_000_000_000 * 3_600_000));
}

#[test]
fn filter_scenario() {
    let ms_in = parse_matchers(&vec!["foo".to_string()], &vec![]).ok().unwrap();
    let ms_ex = parse_matchers(&vec![], &vec!["baz".to_string()]).ok().unwrap();
    let t = lines(&["foo bar", "foo baz", "qux"]);
    assert_eq!(filter_texts(&t, &ms_in, &ms_ex), vec!["foo bar".to_string()]);
}

#[test]
fn filter_without_includes_keeps_all_but_excluded() {
    let ms_ex = parse_matchers(&vec!["qux".to_string()], &vec![]).ok().unwrap();
    let t = lines(&["foo bar", "foo baz", "qux"]);
    assert_eq!(filter_texts(&t, &vec![], &ms_ex), vec!["foo bar".to_string(), "foo baz".to_string()]);
    assert_eq!(filter_texts(&t, &vec![], &vec![]), t);
}

#[test]
fn verbatim_matcher_checks_containment() {
    let m = VerbatimMatcher("o b".to_string());
    assert!(m.matches("foo bar"));
    assert!(!m.matches("foobar"));
}

#[test]
fn parse_matchers_rejects_bad_regex() {
    assert!(matches!(parse_matchers(&vec![], &vec!["(".to_string()]), Err(PatternError::InvalidRegex)));
    assert_eq!(parse_matchers(&vec!["a".to_string()], &vec!["b+".to_string()]).ok().unwrap().len(), 2);
}

#[test]
fn similar_entries_are_counted() {
    let p = Pattern::new(&format!("^{}(?P<message>.*)", TS)).ok().unwrap();
    let nums = Pattern::new(r"\d+").ok().unwrap();
    let r = logtools::uniq::reduce_entry(&p, &nums, "2020-01-01 00:00:00,000 took 15 ms for 3 items").unwrap();
    assert_eq!(r, "2020-01-01 00:00:00,000 took <num> ms for <num> items");
    assert_eq!(logtools::uniq::reduce_entry(&p, &nums, "no timestamp"), None);
    let keys = lines(&["b", "a", "b", "c", "b", "a"]);
    let counted = logtools::uniq::count_similar(&keys);
    assert_eq!(counted, vec![("c".to_string(), 1), ("a".to_string(), 2), ("b".to_string(), 3)]);
    assert!(logtools::uniq::count_similar(&Vec::new()).is_empty());
}

#[test]
fn reduce_entries_fails_on_any_bad_entry() {
    let p = Pattern::new(&format!("^{}(?P<message>.*)", TS)).ok().unwrap();
    let nums = Pattern::new(r"\d+").ok().unwrap();
    let ok = lines(&["2020-01-01 00:00:00,000 x1", "2020-01-01 00:00:00,000 x22"]);
    let got = logtools::uniq::reduce_entries(&p, &nums, &ok).unwrap();
    assert_eq!(got, lines(&["2020-01-01 00:00:00,000 x<num>", "2020-01-01 00:00:00,000 x<num>"]));
    let bad = lines(&["2020-01-01 00:00:00,000 x1", "bad"]);
    assert_eq!(logtools::uniq::reduce_entries(&p, &nums, &bad), None);
}

#[test]
fn segmenter_feeds_matched_lines() {
    let p = Pattern::anchored("S").ok().unwrap();
    let mut s = logtools::lexer::Segmenter::new();
    assert_eq!(s.push_matched(&p, "x"), None);
    assert_eq!(s.push_matched(&p, "S1"), None);
    assert_eq!(s.push_matched(&p, "y S"), None);
    assert_eq!(s.push_matched(&p, "S2"), Some("S1\ny S".to_string()));
    assert_eq!(s.finish(), Some("S2".to_string()));
}

#[test]
fn segmenter_streams_entries() {
    let mut s = logtools::lexer::Segmenter::new();
    assert_eq!(s.push_line("header", false), None);
    assert_eq!(s.push_line("A", true), None);
    assert_eq!(s.push_line("cont", false), None);
    assert_eq!(s.push_line("B", true), Some("A\ncont".to_string()));
    assert_eq!(s.finish(), Some("B".to_string()));
    assert_eq!(s.finish(), None);
}

#[test]
fn select_head_picks_smallest_earliest() {
    assert_eq!(select_head(&vec![Some(Some(5)), None, Some(Some(3)), Some(Some(3))]), Some(2));
    assert_eq!(select_head(&vec![Some(Some(5)), Some(None), Some(Some(3))]), Some(1));
    assert_eq!(select_head(&vec![None, None]), None);
    assert_eq!(select_head(&vec![]), None);
    assert_eq!(select_head(&vec![Some(Some(7)), Some(Some(7))]), Some(0));
}

#[test]
fn run_builder_cuts_runs_at_budget() {
    let mut b = logtools::sort::RunBuilder::new(5);
    assert!(b.push(entry("bb", Some(2))).is_none());
    assert!(b.push(entry("aa", Some(1))).is_none());
    let run = b.push(entry("cc", Some(0))).unwrap();
    assert_eq!(texts(&run), vec!["aa", "bb"]);
    let last = b.finish().unwrap();
    assert_eq!(texts(&last), vec!["cc"]);
    assert!(b.finish().is_none());
}

#[test]
fn run_builder_with_zero_budget_makes_single_entry_runs() {
    let mut b = logtools::sort::RunBuilder::new(0);
    assert!(b.push(entry("x", Some(2))).is_none());
    assert_eq!(texts(&b.push(entry("y", Some(1))).unwrap()), vec!["x"]);
    assert_eq!(texts(&b.finish().unwrap()), vec!["y"]);
}

#[test]
fn keeps_applies_include_and_exclude() {
    let inc = parse_matchers(&vec!["foo".to_string()], &vec![]).ok().unwrap();
    let exc = parse_matchers(&vec![], &vec!["ba[zr]".to_string()]).ok().unwrap();
    assert!(!logtools::matchers::keeps(&inc, &exc, "foo bar"));
    assert!(logtools::matchers::keeps(&inc, &exc, "foo qux"));
    assert!(!logtools::matchers::keeps(&inc, &exc, "qux"));
}

#[test]
fn counts_per_second_group_consecutive_instants() {
    let t = vec![1000, 1500, 1999, 2000, 3500, 3001, 1200];
    assert_eq!(logtools::rate::count_per_second(&t), vec![(1, 3), (2, 1), (3, 2), (1, 1)]);
    assert_eq!(logtools::rate::count_per_second(&vec![]), vec![]);
    assert_eq!(logtools::rate::second(-1), -1);
    assert_eq!(logtools::rate::second(-1000), -1);
    assert_eq!(logtools::rate::second(-1001), -2);
    assert_eq!(logtools::rate::second(999), 0);
}
