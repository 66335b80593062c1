use mark_hulk::style::{
    css_for, is_light, saved_theme, scheme_candidates, scheme_id, EMERALD, EMERALD_CSS, FOREST,
    FOREST_CSS, LIGHT, LIGHT_CSS,
};

#[test]
fn light_theme_is_light() {
    assert!(is_light("light"));
    assert!(!is_light("forest"));
    assert!(!is_light("Light"));
}

#[test]
fn css_per_theme() {
    assert_eq!(css_for("emerald"), EMERALD_CSS);
    assert_eq!(css_for("light"), LIGHT_CSS);
    assert_eq!(css_for("forest"), FOREST_CSS);
    assert_eq!(css_for("anything"), FOREST_CSS);
    assert!(LIGHT_CSS.contains("#1B7A45"));
}

#[test]
fn saved_theme_round_trip() {
    for t in [FOREST, EMERALD, LIGHT] {
        assert_eq!(saved_theme(Some(t)), t);
    }
    assert_eq!(saved_theme(Some("  emerald\n")), EMERALD);
    assert_eq!(saved_theme(Some("purple")), FOREST);
    assert_eq!(saved_theme(None), FOREST);
}

#[test]
fn editor_schemes() {
    assert_eq!(scheme_id("emerald"), "mark-hulk-emerald");
    assert_eq!(scheme_id("light"), "mark-hulk-light");
    assert_eq!(scheme_id("other"), "mark-hulk-forest");
    assert_eq!(scheme_candidates("light"), vec!["mark-hulk-light", "Adwaita"]);
    assert_eq!(scheme_candidates("forest"), vec!["mark-hulk-forest", "Adwaita-dark"]);
    assert_eq!(
        scheme_candidates("emerald"),
        vec!["mark-hulk-emerald", "mark-hulk-forest", "Adwaita-dark"]
    );
    assert_eq!(scheme_candidates("other"), vec!["mark-hulk-forest", "Adwaita-dark"]);
}
