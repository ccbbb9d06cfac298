use markforge::settings::{
    bump_usage, parse_hex_color, push_recent, theme_pref_from_name, toggled_theme, top_usage,
    ThemePref, MAX_RECENT, USAGE_KEEP, USAGE_LIMIT,
};

#[test]
fn light_is_the_default_theme() {
    assert_eq!(ThemePref::default(), ThemePref::Light);
}

#[test]
fn theme_names() {
    assert_eq!(theme_pref_from_name("dark"), ThemePref::Dark);
    assert_eq!(theme_pref_from_name("system"), ThemePref::System);
    assert_eq!(theme_pref_from_name("light"), ThemePref::Light);
    assert_eq!(theme_pref_from_name("Dark"), ThemePref::Light);
    assert_eq!(toggled_theme(true), ThemePref::Light);
    assert_eq!(toggled_theme(false), ThemePref::Dark);
}

#[test]
fn recent_list_moves_to_front_without_duplicates() {
    let mut recent: Vec<String> = vec!["a".into(), "b".into(), "c".into()];
    push_recent(&mut recent, "b".into());
    assert_eq!(recent, vec!["b", "a", "c"]);
    push_recent(&mut recent, "d".into());
    assert_eq!(recent, vec!["d", "b", "a", "c"]);
    let again = recent.clone();
    push_recent(&mut recent, "d".into());
    assert_eq!(recent, again);
}

#[test]
fn recent_list_is_capped() {
    let mut recent: Vec<String> = Vec::new();
    for i in 0..25 {
        push_recent(&mut recent, format!("f{i}"));
    }
    assert_eq!(recent.len(), MAX_RECENT);
    assert_eq!(recent[0], "f24");
    assert_eq!(recent[9], "f15");
}

#[test]
fn recent_list_compares_paths_not_spellings() {
    let mut recent: Vec<String> = vec!["/x//a.md".into(), "/x/b.md".into()];
    push_recent(&mut recent, "/x/a.md".into());
    assert_eq!(recent, vec!["/x/a.md", "/x/b.md"]);
    push_recent(&mut recent, "/x/./b.md".into());
    assert_eq!(recent, vec!["/x/./b.md", "/x/a.md"]);
}

#[test]
fn usage_counts_another_spelling_for_the_same_file() {
    let mut usage: Vec<(String, u32)> = vec![("/x//a.md".to_string(), 4)];
    bump_usage(&mut usage, "/x/a.md");
    assert_eq!(usage, vec![("/x//a.md".to_string(), 5)]);
    bump_usage(&mut usage, "/x/b.md");
    assert_eq!(usage.len(), 2);
    assert!(usage.contains(&("/x/b.md".to_string(), 1)));
}

#[test]
fn usage_counts_opens() {
    let mut usage: Vec<(String, u32)> = Vec::new();
    bump_usage(&mut usage, "/a");
    bump_usage(&mut usage, "/b");
    bump_usage(&mut usage, "/a");
    assert_eq!(usage.len(), 2);
    assert!(usage.contains(&("/a".to_string(), 2)));
    assert!(usage.contains(&("/b".to_string(), 1)));
}

#[test]
fn usage_table_is_cut_to_the_busiest() {
    let mut usage: Vec<(String, u32)> = (0..USAGE_LIMIT).map(|i| (format!("/p{i}"), i as u32 + 1)).collect();
    bump_usage(&mut usage, "/p0");
    assert_eq!(usage.len(), USAGE_LIMIT);
    bump_usage(&mut usage, "/new");
    assert_eq!(usage.len(), USAGE_KEEP);
    // the kept ones are the 100 busiest: counts 101..=200
    assert!(usage.iter().all(|(_, c)| *c >= 101));
    assert!(!usage.iter().any(|(p, _)| p == "/new"));
}

#[test]
fn top_usage_orders_busiest_first_and_filters() {
    let usage: Vec<(String, u32)> =
        vec![("/a".into(), 3), ("/b".into(), 9), ("/c".into(), 5), ("/d".into(), 7)];
    let shown = vec![true, true, true, false];
    assert_eq!(top_usage(&usage, &shown, 2), vec!["/b", "/c"]);
    assert_eq!(top_usage(&usage, &shown, 10), vec!["/b", "/c", "/a"]);
    assert!(top_usage(&usage, &shown, 0).is_empty());
}

#[test]
fn hex_colors() {
    assert_eq!(parse_hex_color("#262B3C"), Some(0x262B3C));
    assert_eq!(parse_hex_color("  #ffffff "), Some(0xFFFFFF));
    assert_eq!(parse_hex_color("#+12345"), None);
    assert_eq!(parse_hex_color("#-12345"), None);
    assert_eq!(parse_hex_color("#0a0B0c"), Some(0x0A0B0C));
    assert_eq!(parse_hex_color("262B3C"), None);
    assert_eq!(parse_hex_color("#262B3"), None);
    assert_eq!(parse_hex_color("#262B3G"), None);
    assert_eq!(parse_hex_color("#+"), None);
    assert_eq!(parse_hex_color("#FFFFFFF"), None);
    assert_eq!(parse_hex_color("#fff"), None);
    assert_eq!(parse_hex_color(""), None);
}
