use achievement_panel::vdf::{extract_library_paths, parse_flat_vdf_values, quoted_parts};

#[test]
fn quoted_parts_of_a_key_value_line() {
    assert_eq!(quoted_parts("\"appid\"\t\t\"480\""), vec!["appid", "480"]);
    assert_eq!(quoted_parts("no quotes here"), Vec::<String>::new());
    assert_eq!(quoted_parts("\"unterminated"), Vec::<String>::new());
    assert_eq!(quoted_parts("\"\" \"x\""), vec!["", "x"]);
}

#[test]
fn quoted_parts_resolve_escapes() {
    assert_eq!(quoted_parts("\"a\\\"b\" \"c\\\\d\""), vec!["a\"b", "c\\d"]);
    // An escaped character outside quotes joins the next quoted string.
    assert_eq!(quoted_parts("\\x\"y\""), vec!["xy"]);
}

#[test]
fn quoting_round_trip_on_examples() {
    let parts = vec!["path".to_string(), "C:\\Program Files (x86)\\Steam".to_string(), "say \"hi\"".to_string(), String::new()];
    let mut line = String::new();
    for p in &parts {
        line.push('\t');
        line.push('"');
        for c in p.chars() {
            if c == '\\' || c == '"' {
                line.push('\\');
            }
            line.push(c);
        }
        line.push('"');
    }
    assert_eq!(quoted_parts(&line), parts);
}

#[test]
fn flat_values_of_an_app_manifest() {
    let manifest = "\"AppState\"\n{\n\t\"appid\"\t\t\"480\"\n\t\"Universe\"\t\t\"1\"\n\t\"name\"\t\t\"Spacewar\"\n\t\"installdir\"\t\t\"Spacewar\"\n}\n";
    let values = parse_flat_vdf_values(manifest);
    assert_eq!(values.get("appid").map(|s| s.as_str()), Some("480"));
    assert_eq!(values.get("universe").map(|s| s.as_str()), Some("1"));
    assert_eq!(values.get("Universe"), None);
    assert_eq!(values.get("name").map(|s| s.as_str()), Some("Spacewar"));
    assert_eq!(values.get("installdir").map(|s| s.as_str()), Some("Spacewar"));
    assert_eq!(values.get("appstate"), None);
}

#[test]
fn later_lines_override_earlier_keys() {
    let values = parse_flat_vdf_values("\"Name\" \"first\"\n\"NAME\" \"second\"\n\"other\" \"x\" \"y\"");
    assert_eq!(values.get("name").map(|s| s.as_str()), Some("second"));
    assert_eq!(values.get("other").map(|s| s.as_str()), Some("x"));
}

#[test]
fn library_paths_on_their_line_and_on_the_next() {
    let text = "\"libraryfolders\"\n{\n\t\"0\"\n\t{\n\t\t\"path\"\t\t\"C:\\\\Program Files (x86)\\\\Steam\"\n\t\t\"label\"\t\t\"\"\n\t}\n\t\"1\"\n\t{\n\t\t\"path\"\n\t\t\"/home/user/games\"\n\t}\n}\n";
    assert_eq!(
        extract_library_paths(text),
        vec!["C:\\Program Files (x86)\\Steam".to_string(), "/home/user/games".to_string()]
    );
}

#[test]
fn a_pending_path_without_value_is_dropped() {
    assert_eq!(extract_library_paths("\"path\"\n{\n\"next\" \"x\""), Vec::<String>::new());
    assert_eq!(extract_library_paths(""), Vec::<String>::new());
}

#[test]
fn flat_values_insert_replaces_a_key() {
    use_flat_values();
}

fn use_flat_values() {
    let mut values = achievement_panel::vdf::FlatValues::new();
    assert_eq!(values.get("a"), None);
    values.insert("a".to_string(), "1".to_string());
    values.insert("b".to_string(), "2".to_string());
    values.insert("a".to_string(), "3".to_string());
    assert_eq!(values.get("a").map(|s| s.as_str()), Some("3"));
    assert_eq!(values.get("b").map(|s| s.as_str()), Some("2"));
    assert_eq!(values.get("c"), None);
}

#[test]
fn quoting_round_trip_with_other_separators() {
    let parts = ["a\\b", "say \"x\"", ""];
    let seps = ["", " ", "{ }", "\t//"];
    let mut line = String::new();
    for (i, p) in parts.iter().enumerate() {
        line.push_str(seps[i]);
        line.push('"');
        for c in p.chars() {
            if c == '\\' || c == '"' {
                line.push('\\');
            }
            line.push(c);
        }
        line.push('"');
    }
    line.push_str(seps[3]);
    assert_eq!(quoted_parts(&line), parts.to_vec());
}
