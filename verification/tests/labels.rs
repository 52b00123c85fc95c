use tutabridge::labels::{sanitize_keyword, LabelInfo, LabelRegistry, DEFAULT_LABEL_COLOR};

fn label(id: &str, name: &str) -> LabelInfo {
    LabelInfo {
        id: id.to_string(),
        list_id: "labels".to_string(),
        name: name.to_string(),
        color: None,
    }
}

#[test]
fn sanitize_replaces_spaces_and_specials() {
    assert_eq!(sanitize_keyword("Package Tracking"), "Package_Tracking");
    assert_eq!(sanitize_keyword("a/b\\c\"d(e)f*g%h]i"), "a_b_c_d_e_f_g_h_i");
    // Allowed punctuation passes through.
    assert_eq!(sanitize_keyword("to-do.v2_x"), "to-do.v2_x");
}

#[test]
fn sanitize_folds_diacritics() {
    assert_eq!(sanitize_keyword("Ważne"), "Wazne");
    assert_eq!(sanitize_keyword("Śmieci łączone"), "Smieci_laczone");
    assert_eq!(sanitize_keyword("Größe"), "Groesse");
    assert_eq!(sanitize_keyword("Übersicht"), "Uebersicht");
}

#[test]
fn sanitize_collapses_runs_and_trims_edges() {
    assert_eq!(sanitize_keyword("  Hello   World!!!"), "Hello_World");
    assert_eq!(sanitize_keyword("(((x)))"), "x");
}

#[test]
fn sanitize_unrepresentable_falls_back() {
    assert_eq!(sanitize_keyword("📦"), "Label");
    assert_eq!(sanitize_keyword(""), "Label");
}

#[test]
fn sanitize_keeps_thunderbird_stock_tag_keywords() {
    // TB's built-in tags STORE `$label1`…`$label5`; a lossy mapping here
    // would break create-on-new-keyword for them.
    assert_eq!(sanitize_keyword("$label1"), "$label1");
    assert_eq!(sanitize_keyword("$Forwarded"), "$Forwarded");
}

#[test]
fn registry_maps_ids_and_skips_unknown() {
    let reg = LabelRegistry::new(vec![label("l1", "Ephemeral"), label("l2", "Ważne")]);
    assert_eq!(reg.keyword_for_label("l1"), Some("Ephemeral"));
    assert_eq!(reg.keyword_for_label("l2"), Some("Wazne"));
    // A folder id from Mail.sets is simply not a label.
    assert_eq!(reg.keyword_for_label("inbox"), None);
    assert_eq!(reg.keywords(), vec!["Ephemeral", "Wazne"]);
}

#[test]
fn registry_suffixes_collisions_case_insensitively() {
    // "Zażalenia" and "Żażalenia" both sanitize to the same atom modulo
    // case; "zazalenia" collides case-insensitively.
    let reg = LabelRegistry::new(vec![
        label("a1", "Zażalenia"),
        label("a2", "zażalenia"),
        label("a3", "Zazalenia"),
    ]);
    assert_eq!(reg.keyword_for_label("a1"), Some("Zazalenia"));
    assert_eq!(reg.keyword_for_label("a2"), Some("zazalenia_2"));
    assert_eq!(reg.keyword_for_label("a3"), Some("Zazalenia_3"));
}

#[test]
fn keyword_lookup_is_case_insensitive() {
    let reg = LabelRegistry::new(vec![label("l1", "Package Tracking")]);
    // Thunderbird lowercases keywords; the exact advertised form and any
    // other casing must resolve to the same label.
    for kw in ["Package_Tracking", "package_tracking", "PACKAGE_TRACKING"] {
        let info = reg.label_for_keyword(kw).expect(kw);
        assert_eq!(info.id, "l1");
    }
    assert!(reg.label_for_keyword("unknown").is_none());
    // The IdTuple is what ApplyLabelService consumes.
    let tuple = reg
        .label_for_keyword("package_tracking")
        .unwrap()
        .id_tuple();
    assert_eq!(tuple.list_id.to_string(), "labels");
    assert_eq!(tuple.element_id.to_string(), "l1");
}

#[test]
fn registry_order_is_deterministic_regardless_of_input_order() {
    let forward = LabelRegistry::new(vec![label("a1", "Same"), label("a2", "Same")]);
    let reversed = LabelRegistry::new(vec![label("a2", "Same"), label("a1", "Same")]);
    // The older label (smaller time-ordered id) keeps the bare atom in
    // both cases.
    assert_eq!(forward.keyword_for_label("a1"), Some("Same"));
    assert_eq!(reversed.keyword_for_label("a1"), Some("Same"));
    assert_eq!(forward.keyword_for_label("a2"), Some("Same_2"));
    assert_eq!(reversed.keyword_for_label("a2"), Some("Same_2"));
}

#[test]
fn sanitize_trims_unrepresentable_edges_and_collapses_runs() {
    assert_eq!(sanitize_keyword("«x»"), "x");
    assert_eq!(sanitize_keyword("a ~~~ b"), sanitize_keyword("a b"));
    assert_eq!(sanitize_keyword("日本 x 日本"), "x");
    assert_eq!(sanitize_keyword("(a)(b)"), "a_b");
}

#[test]
fn sanitize_keeps_leading_underscore_of_the_name_itself() {
    // The filler never starts an atom, but a `_` of the name does.
    assert_eq!(sanitize_keyword("_x"), "_x");
    assert_eq!(sanitize_keyword(" _x"), "_x");
}

#[test]
fn sanitize_folds_every_listed_letter_group() {
    assert_eq!(sanitize_keyword("ąáàâãå"), "aaaaaa");
    assert_eq!(sanitize_keyword("ÄÆæ"), "AeAeae");
    assert_eq!(sanitize_keyword("ČçĆ"), "CcC");
    assert_eq!(sanitize_keyword("ěÉ"), "eE");
    assert_eq!(sanitize_keyword("ïÎ"), "iI");
    assert_eq!(sanitize_keyword("łŁ"), "lL");
    assert_eq!(sanitize_keyword("ñŇ"), "nN");
    assert_eq!(sanitize_keyword("øÕ"), "oO");
    assert_eq!(sanitize_keyword("œÖ"), "oeOe");
    assert_eq!(sanitize_keyword("šŚß"), "sSss");
    assert_eq!(sanitize_keyword("ûÙüÜ"), "uUueUe");
    assert_eq!(sanitize_keyword("ÿÝ"), "yY");
    assert_eq!(sanitize_keyword("žŹ"), "zZ");
}

#[test]
fn registry_suffixes_beyond_nine() {
    let labels: Vec<LabelInfo> = (0..12).map(|i| label(&format!("id{i:02}"), "Dup")).collect();
    let reg = LabelRegistry::new(labels);
    assert_eq!(reg.keyword_for_label("id00"), Some("Dup"));
    assert_eq!(reg.keyword_for_label("id09"), Some("Dup_10"));
    assert_eq!(reg.keyword_for_label("id11"), Some("Dup_12"));
    assert_eq!(reg.label_for_keyword("dup_12").map(|l| l.id.as_str()), Some("id11"));
}

#[test]
fn registry_suffix_skips_a_taken_suffixed_name() {
    // An older label already called `x_2` takes that atom, so the second
    // plain `x` goes on to `x_3`.
    let reg = LabelRegistry::new(vec![label("1", "x_2"), label("2", "x"), label("3", "X")]);
    assert_eq!(reg.keyword_for_label("1"), Some("x_2"));
    assert_eq!(reg.keyword_for_label("2"), Some("x"));
    assert_eq!(reg.keyword_for_label("3"), Some("X_3"));
}

#[test]
fn registry_entries_are_sorted_by_id() {
    let reg = LabelRegistry::new(vec![label("b", "Beta"), label("a", "Alpha"), label("c", "Gamma")]);
    let ids: Vec<&str> = reg.entries().iter().map(|e| e.info.id.as_str()).collect();
    assert_eq!(ids, vec!["a", "b", "c"]);
    assert_eq!(reg.keywords(), vec!["Alpha", "Beta", "Gamma"]);
    assert!(!reg.is_empty());
}

#[test]
fn ids_sort_by_code_point() {
    // Upper case sorts before lower case, and a prefix before its extensions.
    let reg = LabelRegistry::new(vec![label("ab", "N"), label("a", "N"), label("B", "N")]);
    assert_eq!(reg.keyword_for_label("B"), Some("N"));
    assert_eq!(reg.keyword_for_label("a"), Some("N_2"));
    assert_eq!(reg.keyword_for_label("ab"), Some("N_3"));
}

#[test]
fn empty_registry_has_no_entries() {
    let reg = LabelRegistry::new(vec![]);
    assert!(reg.is_empty());
    assert!(reg.keywords().is_empty());
    assert_eq!(reg.keyword_for_label("l1"), None);
    assert!(reg.label_for_keyword("Label").is_none());
    let default = LabelRegistry::default();
    assert!(default.is_empty());
}

#[test]
fn default_label_color_is_empty() {
    assert_eq!(DEFAULT_LABEL_COLOR, "");
}

#[test]
fn lookup_by_keyword_finds_every_entry_in_any_case() {
    let reg = LabelRegistry::new(vec![label("1", "Work"), label("2", "WORK"), label("3", "Privé")]);
    assert_eq!(reg.keywords(), vec!["Work", "WORK_2", "Prive"]);
    assert_eq!(reg.label_for_keyword("work").map(|l| l.id.as_str()), Some("1"));
    assert_eq!(reg.label_for_keyword("work_2").map(|l| l.id.as_str()), Some("2"));
    assert_eq!(reg.label_for_keyword("PRIVE").map(|l| l.id.as_str()), Some("3"));
}
