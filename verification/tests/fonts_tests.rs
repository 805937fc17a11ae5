use editpad::fonts::{normalize_family, pick_cjk_mono_family, CJK_MONO_CANDIDATES};

#[test]
fn cjk_mono_candidates_pick_by_priority_with_loose_family_matching() {
    // Priority follows the candidate table, not the installed order.
    let installed = ["Noto Sans Mono CJK SC".to_owned(), "Sarasa Mono SC".to_owned()];
    assert_eq!(pick_cjk_mono_family(&installed), Some("Sarasa Mono SC"));

    // Case and white space are matched loosely.
    let odd = ["  SARASA   MONO  sc ".to_owned(), "Consolas".to_owned()];
    assert_eq!(pick_cjk_mono_family(&odd), Some("Sarasa Mono SC"));

    // Built-in Windows chain: falls back to NSimSun.
    let builtin = ["Microsoft YaHei UI".to_owned(), "nsimsun".to_owned()];
    assert_eq!(pick_cjk_mono_family(&builtin), Some("NSimSun"));

    // Nothing matches: None.
    let none = ["Consolas".to_owned(), "Arial".to_owned()];
    assert_eq!(pick_cjk_mono_family(&none), None);
}

#[test]
fn cjk_candidate_table_entries_are_unique_and_exclude_simsun() {
    let mut seen: Vec<String> = Vec::new();
    for cand in CJK_MONO_CANDIDATES {
        let key = normalize_family(cand);
        assert!(!seen.contains(&key), "duplicate candidate after normalizing: {cand}");
        seen.push(key);
    }
    assert!(CJK_MONO_CANDIDATES.iter().all(|c| *c != "SimSun"));
}

#[test]
fn normalize_family_collapses_space_and_case() {
    assert_eq!(normalize_family("  Noto\t Sans  MONO "), "noto sans mono");
    assert_eq!(normalize_family(""), "");
    assert_eq!(normalize_family("   "), "");
}

#[test]
fn empty_installed_list_picks_nothing() {
    let installed: [String; 0] = [];
    assert_eq!(pick_cjk_mono_family(&installed), None);
}
