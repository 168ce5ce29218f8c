use plugin_js::output::{
    bundle_failure_detail, head_and_tail_lines, last_n_lines, lint_failure_detail,
    tsc_failure_detail,
};
use plugin_js::text::{
    after_last_str, decimal, is_white, join, rsplit_once, split, split_once, split_words, trim,
};

fn samples() -> Vec<&'static str> {
    vec![
        "", " ", "a", " a ", "\t a\u{a0}b \n", "a-b-c", "-", "a/b//c/", "\u{2003}x\u{3000}",
        "sha512-a sha1-b", "\u{feff}y",
    ]
}

#[test]
fn texts_are_cut_like_std_texts() {
    for s in samples() {
        assert_eq!(trim(s), s.trim(), "{s:?}");
        assert_eq!(split_words(s), s.split_whitespace().collect::<Vec<_>>(), "{s:?}");
        assert_eq!(split(s, '/'), s.split('/').collect::<Vec<_>>(), "{s:?}");
        let pair = s.split_once('-').map(|(a, b)| (a.to_string(), b.to_string()));
        assert_eq!(split_once(s, '-'), pair, "{s:?}");
        let pair = s.rsplit_once('-').map(|(a, b)| (a.to_string(), b.to_string()));
        assert_eq!(rsplit_once(s, '-'), pair, "{s:?}");
    }
}

#[test]
fn white_space_is_that_of_unicode() {
    for n in 0..0x1_0000u32 {
        if let Some(c) = char::from_u32(n) {
            assert_eq!(is_white(c), c.is_whitespace(), "{n:x}");
        }
    }
}

#[test]
fn numbers_are_spelled_in_decimal() {
    for n in [0, 7, 10, 99, 100, 12345, usize::MAX] {
        assert_eq!(decimal(n), n.to_string());
    }
}

#[test]
fn what_follows_the_last_occurrence_is_taken() {
    assert_eq!(after_last_str("a/node_modules/b", "node_modules/").as_deref(), Some("b"));
    assert_eq!(after_last_str("x/x/y", "x/").as_deref(), Some("y"));
    assert_eq!(after_last_str("abc", "z"), None);
    assert_eq!(join(&vec!["a".to_string(), "b".to_string()], ", "), "a, b");
}

#[test]
fn the_middle_of_a_long_text_is_left_out() {
    assert_eq!(head_and_tail_lines("1\n2\n3", 3), "1\n2\n3");
    assert_eq!(head_and_tail_lines("1\n2\n3\n4\n5", 3), "1\n... 2 lines omitted ...\n4\n5");
    assert_eq!(last_n_lines("1\n2\n3", 2), "2\n3");
    assert_eq!(last_n_lines("1\n2\n3", 3), "1\n2\n3");
}

#[test]
fn a_failure_tells_both_streams() {
    assert_eq!(tsc_failure_detail(" a \n", "b"), "stdout:\na\nstderr:\nb");
    assert_eq!(lint_failure_detail("", "b"), "stderr:\nb");
    assert_eq!(bundle_failure_detail("a", " "), "stdout:\na");
    assert_eq!(tsc_failure_detail("", "\n"), "<no output on stdout or stderr>");
    let long: Vec<String> = (1..=70).map(|n| n.to_string()).collect();
    assert!(lint_failure_detail(&long.join("\n"), "").starts_with("stdout:\n11\n"));
    assert!(lint_failure_detail("", &long.join("\n")).starts_with("stderr:\n31\n"));
    assert!(bundle_failure_detail("", &long.join("\n")).starts_with("stderr:\n11\n"));
    assert!(tsc_failure_detail(&long.join("\n"), "").contains("20\n... 30 lines omitted ...\n51\n"));
}
