use lexmatch::config::{Config, ConfigError, Mode};
use lexmatch::lexicon::{first_field_of, Lexicon};
use lexmatch::lines::line_coverage;
use lexmatch::matching::{aggregate, lexicon_label, member_flags};
use lexmatch::substring::{exact_positions, TextIndex};
use lexmatch::text::{prepare_text, Candidate};
use lexmatch::tokens::{match_tokens, scan_tokens};
use lexmatch::window::{match_windows, scan_windows};

fn lexicon(name: &str, entries: &[&str]) -> Lexicon {
    let mut l = Lexicon::new(name.to_string());
    for e in entries {
        l.insert(e.to_string());
    }
    l
}

fn sorted(mut v: Vec<u32>) -> Vec<u32> {
    v.sort();
    v
}

const CAT_TEXT: &str = "the cat sat on the category mat.\n";

#[test]
fn exact_mode_skips_embedded_occurrence() {
    let lex = lexicon("animals", &["cat"]);
    let ix = TextIndex::new(CAT_TEXT.to_string()).unwrap();
    let r = ix.lexicon_matches(&lex, true, 1);
    assert_eq!(r.len(), 1);
    assert_eq!(r[0].entry, "cat");
    assert_eq!(r[0].begins, vec![4]);
    assert_eq!(r[0].pattern_len, 3);
}

#[test]
fn all_matches_mode_reports_embedded_occurrence() {
    let lex = lexicon("animals", &["cat"]);
    let ix = TextIndex::new(CAT_TEXT.to_string()).unwrap();
    let r = ix.lexicon_matches(&lex, false, 1);
    assert_eq!(r.len(), 1);
    assert_eq!(sorted(r[0].begins.clone()), vec![4, 19]);
}

#[test]
fn token_mode_single_match_with_offsets() {
    let lexs = vec![lexicon("verbs", &["run"])];
    let (m, cov) = match_tokens(&lexs, "I run daily.\n", 0);
    assert_eq!(m.len(), 1);
    assert_eq!(m[0].text, "run");
    assert_eq!((m[0].begin, m[0].end), (2, 5));
    assert_eq!(m[0].lexicons, vec![true]);
    assert_eq!(cov.total, 3);
    assert_eq!(cov.matched, vec![1]);
}

#[test]
fn window_mode_longest_window_wins() {
    let lexs = vec![lexicon("l", &["AB", "ABC"])];
    let (m, cov) = match_windows(&lexs, "ABCD", 3);
    assert_eq!(m.len(), 1);
    assert_eq!(m[0].text, "ABC");
    assert_eq!((m[0].begin, m[0].end), (0, 3));
    assert_eq!(cov.total, 4);
    assert_eq!(cov.matched_any, 1);
}

#[test]
fn threshold_zero_reports_unmatched_entry() {
    let lex = lexicon("animals", &["cat", "dog"]);
    let ix = TextIndex::new(CAT_TEXT.to_string()).unwrap();
    let r = ix.lexicon_matches(&lex, true, 0);
    assert_eq!(r.len(), 2);
    assert_eq!(r[1].entry, "dog");
    assert_eq!(r[1].begins.len(), 0);
    let r1 = ix.lexicon_matches(&lex, true, 1);
    assert_eq!(r1.len(), 1);
    assert_eq!(r1[0].entry, "cat");
}

#[test]
fn threshold_above_count_drops_entry() {
    let lex = lexicon("animals", &["cat"]);
    let ix = TextIndex::new(CAT_TEXT.to_string()).unwrap();
    assert_eq!(ix.lexicon_matches(&lex, false, 2).len(), 1);
    assert_eq!(ix.lexicon_matches(&lex, false, 3).len(), 0);
    assert_eq!(ix.lexicon_matches(&lex, true, 2).len(), 0);
}

#[test]
fn token_coverage_ratio() {
    let lexs = vec![lexicon("l", &["a"])];
    let (_, cov) = match_tokens(&lexs, "a a b\n", 0);
    assert_eq!(cov.matched, vec![2]);
    assert_eq!(cov.total, 3);
    let ratio = cov.matched[0] as f64 / cov.total as f64;
    assert!((ratio - 0.6666).abs() < 0.001);
}

#[test]
fn exact_positions_are_among_all_positions() {
    let lex = lexicon("l", &["cat", "at", "the"]);
    let ix = TextIndex::new(CAT_TEXT.to_string()).unwrap();
    for i in 0..lex.len() {
        let e = lex.entry(i).clone();
        let exact = ix.entry_positions(&e, true);
        let all = ix.entry_positions(&e, false);
        for p in &exact {
            assert!(all.contains(p));
        }
    }
    assert_eq!(ix.entry_positions("at", true).len(), 0);
    assert_eq!(sorted(ix.entry_positions("at", false)), vec![5, 9, 20, 29]);
}

#[test]
fn substring_mode_is_repeatable() {
    let lex = lexicon("l", &["cat", "the", "mat", "on"]);
    let ix = TextIndex::new(CAT_TEXT.to_string()).unwrap();
    let a = ix.lexicon_matches(&lex, false, 1);
    let b = ix.lexicon_matches(&lex, false, 1);
    let ix2 = TextIndex::new(CAT_TEXT.to_string()).unwrap();
    let c = ix2.lexicon_matches(&lex, false, 1);
    assert_eq!(a.len(), 4);
    for k in 0..a.len() {
        assert_eq!(a[k].entry, b[k].entry);
        assert_eq!(a[k].begins, b[k].begins);
        assert_eq!(a[k].entry, c[k].entry);
        assert_eq!(a[k].begins, c[k].begins);
    }
}

#[test]
fn tokens_and_gaps_rebuild_text() {
    let text = "Zoë, 42 naïve-ideas!\tend";
    let toks = scan_tokens(text, 0);
    let bytes = text.as_bytes();
    let mut rebuilt: Vec<u8> = Vec::new();
    let mut from = 0;
    for t in &toks {
        rebuilt.extend_from_slice(&bytes[from..t.begin]);
        assert_eq!(&text[t.begin..t.end], t.text);
        rebuilt.extend_from_slice(t.text.as_bytes());
        from = t.end;
    }
    rebuilt.extend_from_slice(&bytes[from..]);
    assert_eq!(rebuilt, bytes);
    let words: Vec<&str> = toks.iter().map(|t| t.text.as_str()).collect();
    assert_eq!(words, vec!["Zoë", "naïve", "ideas", "end"]);
}

#[test]
fn window_positions_are_distinct_and_bounded() {
    let lexs = vec![lexicon("l", &["日本", "日本語", "本語で", "語", "す"])];
    let (m, _) = match_windows(&lexs, "日本語です", 3);
    let begins: Vec<usize> = m.iter().map(|x| x.begin).collect();
    assert_eq!(begins, vec![0, 3, 12]);
    assert_eq!(m[0].text, "日本語");
    assert_eq!(m[0].end, 9);
    for x in &m {
        assert!(x.text.chars().count() <= 3);
    }
}

#[test]
fn coverage_against_all_counts_each_candidate_once() {
    let lexs = vec![lexicon("one", &["a", "b"]), lexicon("two", &["a"])];
    let (m, cov) = match_tokens(&lexs, "a b c a\n", 0);
    assert_eq!(cov.matched, vec![3, 2]);
    assert_eq!(cov.matched_any, 3);
    assert_eq!(cov.total, 4);
    assert!(cov.matched_any <= cov.matched[0] + cov.matched[1]);
    assert!(cov.matched_any <= cov.total);
    assert_eq!(m.len(), 3);
    assert_eq!(m[0].lexicons, vec![true, true]);
    assert_eq!(m[1].lexicons, vec![true, false]);
}

#[test]
fn digit_tokens_and_short_tokens_are_skipped() {
    let toks = scan_tokens("12 ab abc 3d\n", 3);
    let words: Vec<&str> = toks.iter().map(|t| t.text.as_str()).collect();
    assert_eq!(words, vec!["abc"]);
    let toks = scan_tokens("12 ab abc 3d\n", 0);
    let words: Vec<&str> = toks.iter().map(|t| t.text.as_str()).collect();
    assert_eq!(words, vec!["ab", "abc", "3d"]);
}

#[test]
fn multibyte_offsets_are_in_bytes() {
    let toks = scan_tokens("é café", 0);
    assert_eq!(toks.len(), 2);
    assert_eq!((toks[0].begin, toks[0].end), (0, 2));
    assert_eq!(toks[1].text, "café");
    assert_eq!((toks[1].begin, toks[1].end), (3, 8));
}

#[test]
fn empty_text_has_no_candidates() {
    assert_eq!(scan_tokens("", 0).len(), 0);
    assert_eq!(scan_windows("", 2).len(), 0);
    let lexs = vec![lexicon("l", &["a"])];
    let (m, cov) = match_tokens(&lexs, "", 0);
    assert_eq!(m.len(), 0);
    assert_eq!(cov.total, 0);
    assert_eq!(cov.matched, vec![0]);
}

#[test]
fn window_scan_lists_every_position() {
    let w: Vec<Candidate> = scan_windows("abc\n", 2);
    let spans: Vec<(&str, usize, usize)> = w.iter().map(|c| (c.text.as_str(), c.begin, c.end)).collect();
    assert_eq!(spans, vec![("ab", 0, 2), ("bc", 1, 3), ("c\n", 2, 4), ("\n", 3, 4)]);
    assert_eq!(scan_windows("abc", 0).len(), 0);
}

#[test]
fn boundary_filter_checks_neighbouring_bytes() {
    let text = b"xcat cat catx";
    let r = exact_positions(text, &vec![1, 5, 9], 3);
    assert_eq!(r, vec![5]);
    let r = exact_positions(b"cat", &vec![0], 3);
    assert_eq!(r, vec![0]);
}

#[test]
fn lexicon_lines_take_first_field() {
    assert_eq!(first_field_of("word\tNOUN\t3"), "word");
    assert_eq!(first_field_of("\tx"), "");
    let mut l = Lexicon::new("l".to_string());
    l.add_line("Word\tNOUN", true);
    l.add_line("", true);
    l.add_line("\tignored", false);
    l.add_line("Other", false);
    assert_eq!(l.len(), 2);
    assert!(l.contains("word"));
    assert!(!l.contains("Word"));
    assert!(l.contains("Other"));
    assert_eq!(l.name(), "l");
}

#[test]
fn lexicon_keeps_first_insertion_order() {
    let mut l = Lexicon::new("l".to_string());
    assert!(l.insert("b".to_string()));
    assert!(l.insert("a".to_string()));
    assert!(!l.insert("b".to_string()));
    assert_eq!(l.len(), 2);
    assert_eq!(l.entry(0), "b");
    assert_eq!(l.entry(1), "a");
}

#[test]
fn prepared_text_is_folded_and_closed() {
    assert_eq!(prepare_text("The CAT", true), "the cat\n");
    assert_eq!(prepare_text("The CAT", false), "The CAT\n");
    assert_eq!(prepare_text("", false), "\n");
}

#[test]
fn prepared_text_keeps_existing_newline() {
    assert_eq!(prepare_text("a b\n", false), "a b\n");
    assert_eq!(prepare_text("A B\n", true), "a b\n");
    let once = prepare_text("x\ny", false);
    assert_eq!(once, "x\ny\n");
    assert_eq!(prepare_text(&once, false), once);
}

#[test]
fn overlapping_positions_come_once_each() {
    let ix = TextIndex::new("aaaa\n".to_string()).unwrap();
    let all = ix.entry_positions("aa", false);
    assert_eq!(sorted(all), vec![0, 1, 2]);
    let exact = ix.entry_positions("aaaa", true);
    assert_eq!(exact, vec![0]);
}

#[test]
fn label_joins_matched_names() {
    let names = vec!["a".to_string(), "b".to_string(), "c".to_string()];
    assert_eq!(lexicon_label(&vec![true, false, true], &names), "a;c");
    assert_eq!(lexicon_label(&vec![false, true, false], &names), "b");
    assert_eq!(lexicon_label(&vec![false, false, false], &names), "");
}

#[test]
fn membership_flags_follow_lexicon_order() {
    let lexs = vec![lexicon("x", &["a"]), lexicon("y", &["b"]), lexicon("z", &["a"])];
    assert_eq!(member_flags(&lexs, "a"), vec![true, false, true]);
    assert_eq!(member_flags(&lexs, "q"), vec![false, false, false]);
}

#[test]
fn aggregate_skips_unmatched_candidates() {
    let lexs = vec![lexicon("x", &["b"])];
    let cands = vec![
        Candidate { text: "a".to_string(), begin: 0, end: 1 },
        Candidate { text: "b".to_string(), begin: 2, end: 3 },
    ];
    let (m, cov) = aggregate(&lexs, &cands);
    assert_eq!(m.len(), 1);
    assert_eq!((m[0].begin, m[0].end), (2, 3));
    assert_eq!(cov.total, 2);
    assert_eq!(cov.matched_any, 1);
}

#[test]
fn line_coverage_per_non_empty_line() {
    let lexs = vec![lexicon("l", &["a"])];
    let rows = line_coverage(&lexs, "a b\r\n\n123\nb a a\n", 0);
    assert_eq!(rows.len(), 3);
    assert_eq!(rows[0].line, "a b");
    assert_eq!((rows[0].coverage.matched[0], rows[0].coverage.total), (1, 2));
    assert_eq!(rows[1].line, "123");
    assert_eq!(rows[1].coverage.total, 0);
    assert_eq!((rows[2].coverage.matched[0], rows[2].coverage.total), (2, 3));
}

fn base_config() -> Config {
    Config {
        has_lexicon: true,
        has_query: false,
        all_matches: false,
        verbose: false,
        count_only: false,
        tokens: false,
        window: None,
        coverage: false,
        coverage_matrix: false,
        freq_threshold: 1,
        min_token_length: 0,
        case_insensitive: false,
    }
}

#[test]
fn config_conflicts_are_reported() {
    assert_eq!(base_config().validate(), Ok(()));
    let mut c = base_config();
    c.has_lexicon = false;
    assert_eq!(c.validate(), Err(ConfigError::NoLexicon));
    c.has_query = true;
    assert_eq!(c.validate(), Ok(()));
    let mut c = base_config();
    c.count_only = true;
    c.verbose = true;
    assert_eq!(c.validate(), Err(ConfigError::CountOnlyWithVerbose));
    let mut c = base_config();
    c.tokens = true;
    c.freq_threshold = 2;
    assert_eq!(c.validate(), Err(ConfigError::ThresholdWithScan));
    let mut c = base_config();
    c.coverage = true;
    assert_eq!(c.validate(), Err(ConfigError::CoverageWithoutScan));
    c.window = Some(3);
    assert_eq!(c.validate(), Ok(()));
}

#[test]
fn config_selects_mode() {
    let mut c = base_config();
    assert_eq!(c.mode(), Mode::Substring);
    assert!(c.exact());
    assert!(!c.row_per_match());
    c.window = Some(2);
    assert_eq!(c.mode(), Mode::Window(2));
    assert!(c.row_per_match());
    c.tokens = true;
    assert_eq!(c.mode(), Mode::Tokens);
    c.coverage_matrix = true;
    assert_eq!(c.mode(), Mode::Matrix);
}
