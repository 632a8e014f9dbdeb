use forestools::launcher::AppInfo;
use forestools::search::{index_apps, index_name, join_parts, score_name, search, split_parts};

fn mk(name: &str, path: &str, aliases: &[&str]) -> AppInfo {
    AppInfo {
        name: name.to_string(),
        path: path.to_string(),
        aliases: aliases.iter().map(|s| s.to_string()).collect(),
    }
}

#[test]
fn search_pinyin_full_and_initials() {
    let n = index_name("微信");
    assert_eq!(n.pinyin_full, "weixin");
    assert_eq!(n.initials, "wx");
}

#[test]
fn search_mixed_cn_ascii_keeps_block() {
    let n = index_name("WeChat微信");
    assert_eq!(n.pinyin_full, "wechatweixin");
    assert_eq!(n.initials, "wwx");
}

#[test]
fn search_exact_match_beats_prefix() {
    let apps = index_apps(vec![mk("控制中心", "p1", &[])]);
    let r = search(&apps, "控制中心");
    assert_eq!(r.len(), 1);
    assert_eq!(r[0].score, 1000);
}

#[test]
fn search_initials_substring_match() {
    let apps = index_apps(vec![mk("控制中心", "p1", &[])]);
    let r = search(&apps, "kz");
    assert!(r.iter().any(|m| m.app.info.name == "控制中心"));
}

#[test]
fn search_pinyin_prefix_match() {
    let apps = index_apps(vec![mk("远程桌面", "p1", &[])]);
    let r = search(&apps, "yuanch");
    assert_eq!(r.len(), 1);
    assert!(r[0].score >= 600);
}

#[test]
fn search_single_char_no_fuzzy() {
    let apps = index_apps(vec![mk("计算器", "p1", &[])]);
    let r = search(&apps, "计");
    assert_eq!(r.len(), 1);
}

#[test]
fn search_empty_query_returns_empty() {
    let apps = index_apps(vec![mk("计算器", "p1", &[])]);
    assert!(search(&apps, "").is_empty());
    assert!(search(&apps, "   ").is_empty());
}

#[test]
fn search_alias_participates() {
    let apps = index_apps(vec![mk("控制中心", "p1", &["Control Center"])]);
    let r = search(&apps, "control");
    assert_eq!(r.len(), 1);
}

#[test]
fn index_pinyin_full_and_initials() {
    let n = index_name("微信");
    assert_eq!(n.pinyin_full, "weixin");
    assert_eq!(n.initials, "wx");
}

#[test]
fn index_mixed_cn_ascii_keeps_block() {
    let n = index_name("WeChat微信");
    assert_eq!(n.pinyin_full, "wechatweixin");
    assert_eq!(n.initials, "wwx");
}

#[test]
fn query_exact_match_beats_prefix() {
    let apps = index_apps(vec![mk("控制中心", "p1", &[])]);
    let r = search(&apps, "控制中心");
    assert_eq!(r.len(), 1);
    assert_eq!(r[0].score, 1000);
}

#[test]
fn query_initials_substring_match() {
    let apps = index_apps(vec![mk("控制中心", "p1", &[])]);
    let r = search(&apps, "kz");
    assert!(r.iter().any(|m| m.app.info.name == "控制中心"));
}

#[test]
fn query_pinyin_prefix_match() {
    let apps = index_apps(vec![mk("远程桌面", "p1", &[])]);
    let r = search(&apps, "yuanch");
    assert_eq!(r.len(), 1);
    assert!(r[0].score >= 600);
}

#[test]
fn query_single_char_no_fuzzy() {
    let apps = index_apps(vec![mk("计算器", "p1", &[])]);
    let r = search(&apps, "计");
    assert_eq!(r.len(), 1);
}

#[test]
fn query_empty_query_returns_empty() {
    let apps = index_apps(vec![mk("计算器", "p1", &[])]);
    assert!(search(&apps, "").is_empty());
    assert!(search(&apps, "   ").is_empty());
}

#[test]
fn query_alias_participates() {
    let apps = index_apps(vec![mk("控制中心", "p1", &["Control Center"])]);
    let r = search(&apps, "control");
    assert_eq!(r.len(), 1);
}

// ---- further cases ----

#[test]
fn index_keeps_lowercase_and_alias_order() {
    let apps = index_apps(vec![mk("Foo Bar", "p", &["Baz", "Qux"])]);
    assert_eq!(apps.len(), 1);
    assert_eq!(apps[0].names.len(), 3);
    assert_eq!(apps[0].names[0].lower, "foo bar");
    assert_eq!(apps[0].names[1].lower, "baz");
    assert_eq!(apps[0].names[2].lower, "qux");
    assert_eq!(apps[0].info.path, "p");
}

#[test]
fn index_latin_name_is_one_block() {
    let n = index_name("Notepad");
    assert_eq!(n.lower, "notepad");
    assert_eq!(n.pinyin_full, "notepad");
    assert_eq!(n.initials, "n");
}

#[test]
fn index_empty_name() {
    let n = index_name("");
    assert_eq!(n.lower, "");
    assert_eq!(n.pinyin_full, "");
    assert_eq!(n.initials, "");
}

#[test]
fn score_levels() {
    let n = index_name("控制中心");
    let q = |s: &str| s.chars().collect::<Vec<char>>();
    assert_eq!(score_name(&n, &q("控制中心"), false), 1000);
    assert_eq!(score_name(&n, &q("控制"), false), 900);
    assert_eq!(score_name(&n, &q("kzzx"), false), 880);
    assert_eq!(score_name(&n, &q("kzz"), false), 760);
    assert_eq!(score_name(&n, &q("中心"), false), 700);
    assert_eq!(score_name(&n, &q("kongzhizhongxin"), false), 680);
    assert_eq!(score_name(&n, &q("kongzhi"), false), 600);
    assert_eq!(score_name(&n, &q("zx"), false), 560);
    assert_eq!(score_name(&n, &q("zhongxin"), false), 500);
    assert_eq!(score_name(&n, &q("abc"), false), -1);
    // a one-character query never matches inside a key
    assert_eq!(score_name(&n, &q("心"), true), -1);
    assert_eq!(score_name(&n, &q("z"), true), -1);
}

#[test]
fn results_sorted_and_capped() {
    let names = [
        "a10", "a1", "a123", "a12", "a1234", "a12345", "a123456", "a1234567", "a12345678", "b",
    ];
    let apps = index_apps(names.iter().map(|n| mk(n, n, &[])).collect());
    let r = search(&apps, "a");
    assert_eq!(r.len(), 8);
    // all are prefix hits (900): shorter main names first
    let got: Vec<&str> = r.iter().map(|m| m.app.info.name.as_str()).collect();
    assert_eq!(got, vec!["a1", "a10", "a12", "a123", "a1234", "a12345", "a123456", "a1234567"]);
    assert!(r.iter().all(|m| m.score == 900));
}

#[test]
fn results_higher_score_first_and_ties_keep_order() {
    let apps = index_apps(vec![
        mk("xab", "1", &[]),
        mk("ab", "2", &[]),
        mk("abc", "3", &[]),
        mk("zab", "4", &[]),
    ]);
    let r = search(&apps, "AB ");
    let got: Vec<(&str, i64)> = r.iter().map(|m| (m.app.info.path.as_str(), m.score)).collect();
    assert_eq!(got, vec![("2", 1000), ("3", 900), ("1", 700), ("4", 700)]);
}

#[test]
fn weak_matches_are_dropped() {
    let apps = index_apps(vec![mk("Calculator", "c", &[])]);
    assert!(search(&apps, "xyz").is_empty());
}

#[test]
fn initials_find_chinese_names() {
    let apps = index_apps(vec![mk("微信", "w", &[]), mk("控制中心", "k", &[]), mk("计算器", "c", &[])]);
    let r = search(&apps, "wx");
    assert_eq!(r.len(), 1);
    assert_eq!(r[0].app.info.name, "微信");
    assert_eq!(r[0].score, 880);
    let r = search(&apps, "kz");
    assert_eq!(r[0].app.info.name, "控制中心");
    assert_eq!(r[0].score, 760);
}

#[test]
fn parts_from_given_readings() {
    let chars: Vec<char> = "Ab微c信".chars().collect();
    let r = |s: &str| Some(s.chars().collect::<Vec<char>>());
    let readings = vec![None, None, r("wei"), None, r("xin")];
    let parts = split_parts(&chars, &readings);
    let as_strings: Vec<String> = parts.iter().map(|p| p.iter().collect()).collect();
    assert_eq!(as_strings, vec!["Ab", "wei", "c", "xin"]);
    let (full, firsts) = join_parts(&parts);
    assert_eq!(full.iter().collect::<String>(), "Abweicxin");
    assert_eq!(firsts.iter().collect::<String>(), "Awcx");
}

#[test]
fn parts_skip_empty_initials() {
    let parts = vec![vec![], vec!['x', 'y']];
    let (full, firsts) = join_parts(&parts);
    assert_eq!(full, vec!['x', 'y']);
    assert_eq!(firsts, vec!['x']);
}

#[test]
fn query_is_trimmed_and_lowercased() {
    let apps = index_apps(vec![mk("Control Panel", "p1", &[]), mk("Calculator", "p2", &[])]);
    let a = search(&apps, "  CONTROL ");
    let b = search(&apps, "control");
    assert_eq!(a.len(), b.len());
    assert!(!a.is_empty());
    for (x, y) in a.iter().zip(b.iter()) {
        assert_eq!(x.app.info.path, y.app.info.path);
        assert_eq!(x.score, y.score);
    }
    assert_eq!(a[0].app.info.name, "Control Panel");
    assert_eq!(a[0].score, 900);
}

#[test]
fn blank_query_finds_nothing() {
    let apps = index_apps(vec![mk("Calculator", "p1", &[])]);
    assert!(search(&apps, " \t\u{3000}\n").is_empty());
}
