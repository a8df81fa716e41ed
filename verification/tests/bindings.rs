use wmux::bindings::{default_bindings, KeyTable, DEFAULT_LINES};
use wmux::keys::Key;
use wmux::words::{join_words, split_words};

fn words(line: &str) -> Vec<String> {
    split_words(line).unwrap_or_else(|| panic!("{line}: a quote is not closed"))
}

/// The entries of a menu: name, key, command; an empty name alone is a
/// separator.
fn entries(words: &[String]) -> Vec<(String, Option<String>, Option<String>)> {
    let mut out = Vec::new();
    let mut i = 0;
    while i < words.len() {
        if words[i].is_empty() {
            out.push((String::new(), None, None));
            i += 1;
        } else {
            out.push((words[i].clone(), Some(words[i + 1].clone()), Some(words[i + 2].clone())));
            i += 3;
        }
    }
    out
}

#[test]
fn default_bindings_round_trip() {
    let table = default_bindings();
    assert_eq!(table.list.len(), 95);
    let mut back = KeyTable::new();
    for b in &table.list {
        let words = words(&b.line);
        assert!(!words.is_empty(), "{:?}: {}", b.key, b.line);
        assert_eq!(join_words(&words), b.line, "{:?} does not round-trip", b.key);
        back.bind(b.key, b.line.clone(), b.repeat);
    }
    for b in &table.list {
        assert_eq!(back.get(b.key), Some(b), "{:?} does not round-trip", b.key);
    }
    for (name, line) in DEFAULT_LINES {
        let key = Key::parse(name).unwrap();
        assert_eq!(table.get(key).map(|b| b.line.as_str()), Some(line), "{name}");
    }
}

#[test]
fn the_menus_are_opened_by_lines_like_any_other() {
    let table = default_bindings();
    let line = |c: char| table.get(Key::ch(c)).unwrap().line.as_str();
    assert_eq!(
        line('>'),
        "display-menu -T \"pane #P\" \"Split horizontally\" h \"split-window -h\" \
         \"Split vertically\" v \"split-window -v\" \"\" \
         \"Swap up\" u \"swap-pane -U\" \"Swap down\" d \"swap-pane -D\" \
         \"Break out\" b break-pane \"\" \
         Zoom z \"resize-pane -Z\" Respawn r \"respawn-pane -k\" \
         Kill x kill-pane"
    );
    assert_eq!(
        line('<'),
        "display-menu -T \"window #W\" \"New window\" c new-window Rename r \
         \"command-prompt -p (rename-window) -I \\\"#W\\\" \\\"rename-window -- %%\\\"\" \
         \"\" Previous p previous-window Next n next-window \"\" \
         Kill x kill-window"
    );
}

#[test]
fn words_are_quoted_and_read_back() {
    let all: Vec<String> = ["a", "", "b c", "say \"hi\"", "C:\\x", "#W"].map(String::from).to_vec();
    let line = join_words(&all);
    assert_eq!(line, "a \"\" \"b c\" \"say \\\"hi\\\"\" \"C:\\\\x\" \"#W\"");
    assert_eq!(split_words(&line), Some(all));
    assert_eq!(split_words("  one\"two three\"  "), Some(vec!["onetwo three".to_string()]));
    assert_eq!(split_words("\"open"), None);
    assert_eq!(split_words("\"open\\"), None);
    assert_eq!(split_words(""), Some(vec![]));
}

#[test]
fn default_menus_have_unique_keys() {
    let mut menus = 0;
    for b in &default_bindings().list {
        let line = words(&b.line);
        if line[0] != "display-menu" {
            continue;
        }
        menus += 1;
        assert_eq!(line[1], "-T");
        let items = entries(&line[3..]);
        let keys: Vec<&str> = items.iter().filter_map(|i| i.2.as_ref().and(i.1.as_deref())).collect();
        let mut seen = std::collections::HashSet::new();
        for k in &keys {
            assert!(Key::parse(k).is_some(), "{:?}: menu key {k} is not a key", b.key);
            assert!(seen.insert(*k), "{:?}: menu key {k} is used twice", b.key);
        }
        assert!(keys.len() >= 3, "{:?}: a menu worth opening", b.key);
        assert!(items.iter().any(|i| i.2.is_none()), "{:?}: menus are grouped by separators", b.key);
    }
    assert_eq!(menus, 2, "the pane menu and the window menu");
}

#[test]
fn digits_select_windows_and_some_keys_repeat() {
    let table = default_bindings();
    for d in 0..10 {
        let key = Key::parse(&d.to_string()).unwrap();
        assert_eq!(table.get(key).unwrap().line, format!("select-window -t :{d}"));
    }
    assert!(table.get(Key::ch('h')).unwrap().repeat, "moving goes on without the prefix");
    assert!(!table.get(Key::ch('c')).unwrap().repeat);
}

#[test]
fn a_later_binding_counts_and_an_unbound_key_runs_nothing() {
    let mut t = KeyTable::new();
    t.bind(Key::ch('a'), "one".into(), false);
    t.bind(Key::ch('a'), "two".into(), true);
    assert_eq!(t.get(Key::ch('a')).map(|b| (b.line.as_str(), b.repeat)), Some(("two", true)));
    t.unbind(Key::ch('a'));
    assert_eq!(t.get(Key::ch('a')), None);
}
