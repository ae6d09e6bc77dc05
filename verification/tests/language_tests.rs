use code_explorer::language::{
    LanguageDefinition, LanguageRegistry, FALLBACK_LANGUAGE_COLOR, OTHER_LANGUAGE_COLOR,
};
use indexmap::IndexMap;

fn definition(color: Option<&str>, extensions: &[&str], filenames: &[&str]) -> LanguageDefinition {
    LanguageDefinition {
        language_type: Some("programming".to_string()),
        color: color.map(|c| c.to_string()),
        extensions: extensions.iter().map(|e| e.to_string()).collect(),
        filenames: filenames.iter().map(|f| f.to_string()).collect(),
        aliases: Vec::new(),
        group: None,
    }
}

fn registry() -> LanguageRegistry {
    let mut defs = IndexMap::new();
    defs.insert("Rust".to_string(), definition(Some("#dea584"), &[".rs", ".rs.in"], &[]));
    defs.insert("Makefile".to_string(), definition(Some("#427819"), &[".mk"], &["Makefile"]));
    defs.insert("C Header".to_string(), definition(None, &[".h"], &[]));
    defs.insert("C".to_string(), definition(Some("#555555"), &[".c", ".H"], &[]));
    defs.insert("Objective-C".to_string(), definition(Some("#438eff"), &[".h"], &[]));
    LanguageRegistry::from_definitions(defs)
}

#[test]
fn registry_gives_rust_its_color_and_paths() {
    let r = registry();
    assert_eq!(r.color_for("Rust"), Some("#dea584"));
    assert_eq!(r.language_for_path("src/main.rs"), Some("Rust".to_string()));
    assert_eq!(r.language_for_path("/repo/SRC/LIB.RS"), Some("Rust".to_string()));
}

#[test]
fn file_names_win_over_extensions() {
    let r = registry();
    assert_eq!(r.language_for_path("/repo/Makefile"), Some("Makefile".to_string()));
    assert_eq!(r.language_for_path("/repo/makefile"), Some("Makefile".to_string()));
    assert_eq!(r.language_for_path("/repo/rules.mk"), Some("Makefile".to_string()));
}

#[test]
fn shared_extensions_prefer_the_first_colored_language() {
    let r = registry();
    // ".h" is listed by an uncolored language first, then by two colored ones.
    assert_eq!(r.language_for_path("include/a.h"), Some("C".to_string()));
}

#[test]
fn unknown_paths_have_no_language() {
    let r = registry();
    assert_eq!(r.language_for_path("/repo/blob.bin"), None);
    assert_eq!(r.language_for_path("/repo/.bashrc"), None);
    assert_eq!(r.language_for_path("/repo/.."), None);
    assert_eq!(r.language_for_path(""), None);
}

#[test]
fn colors_fall_back_for_unknown_or_uncolored_languages() {
    let r = registry();
    assert_eq!(r.color_for("C Header"), None);
    assert_eq!(r.color_or_fallback("C Header"), FALLBACK_LANGUAGE_COLOR);
    assert_eq!(r.color_or_fallback("Klingon"), "#8b949e");
    assert_eq!(r.color_or_fallback("C"), "#555555");
    assert_eq!(OTHER_LANGUAGE_COLOR, "#d0d7de");
}
