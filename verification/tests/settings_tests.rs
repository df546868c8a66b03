use csvit::export::export_rows_json;
use csvit::settings::{
    default_font, default_max_recent, push_recent_file, CustomTheme, KeybindingMode, Theme,
};

#[test]
fn theme_names_and_builtins() {
    assert_eq!(Theme::System.name(), "System");
    assert_eq!(Theme::Dracula.name(), "Dracula");
    assert_eq!(Theme::Custom(3).name(), "Custom");
    let all = Theme::builtin_all();
    assert_eq!(all.len(), 8);
    assert_eq!(all[0], Theme::System);
    assert_eq!(all[7], Theme::Catppuccin);
}

#[test]
fn keybinding_modes() {
    assert_eq!(KeybindingMode::Standard.name(), "Standard");
    assert_eq!(KeybindingMode::Vim.name(), "Vim");
    assert_eq!(KeybindingMode::default(), KeybindingMode::Standard);
}

#[test]
fn defaults() {
    assert_eq!(default_max_recent(), 10);
    assert_eq!(default_font(), "JetBrains Mono");
    let t = CustomTheme::default();
    assert_eq!(t.name, "Custom");
    assert_eq!(t.bg_primary, [30, 30, 46]);
    assert!(t.stripe.is_none());
}

#[test]
fn recent_files_dedup_front_and_bound() {
    let mut recent: Vec<String> = vec!["a".into(), "b".into(), "c".into()];
    push_recent_file(&mut recent, "b", 10);
    assert_eq!(recent, vec!["b", "a", "c"]);
    push_recent_file(&mut recent, "d", 3);
    assert_eq!(recent, vec!["d", "b", "a"]);
    push_recent_file(&mut recent, "d", 3);
    assert_eq!(recent, vec!["d", "b", "a"]);
}

fn esc(s: &str) -> String {
    let mut out = String::new();
    for c in s.chars() {
        if (c as u32) <= 0xFFFF {
            out.push_str(&format!("\\u{:04x}", c as u32));
        } else {
            out.push(c);
        }
    }
    out
}

#[test]
fn export_builds_one_object_per_row() {
    let headers = vec!["a".to_string()];
    let rows = vec![
        vec!["x".to_string(), "y".to_string()],
        vec!["z".to_string()],
    ];
    let got = export_rows_json(&headers, &rows);
    let expected = format!(
        "[{{\"{}\":\"{}\",\"{}\":\"{}\"}},{{\"{}\":\"{}\"}}]",
        esc("a"),
        esc("x"),
        esc("Col 1"),
        esc("y"),
        esc("a"),
        esc("z"),
    );
    assert_eq!(got, expected);
}

#[test]
fn export_of_empty_table() {
    assert_eq!(
        export_rows_json(&Vec::new(), &Vec::new()),
        "[]".to_string()
    );
}
