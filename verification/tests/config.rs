use wmux::config::{expand_home, is_mouse_key, logical_lines};

/// The reading with every `%if` false: blocks left out whole.
fn lines_skipping(text: &str) -> (Vec<(usize, String)>, Option<usize>) {
    logical_lines(text, &|_: &str| false)
}

#[test]
fn if_blocks_pick_their_branch() {
    let text = "a\n%if yes\nb\n%elif yes\nc\n%else\nd\n%endif\n\
                %if no\ne\n%elif no\nf\n%elif yes\ng\n%else\nh\n%endif\n\
                %if no\ni\n%else\nj\n%endif\n\
                %if yes\n%if no\nk\n%else\nl\n%endif\nm\n%endif\n\
                %if no\n%if yes\nn\n%endif\no\n%endif\np\n";
    let (got, open) = logical_lines(text, &|c: &str| c == "yes");
    let names: Vec<&str> = got.iter().map(|(_, l)| l.as_str()).collect();
    assert_eq!(names, vec!["a", "b", "g", "j", "l", "m", "p"]);
    assert_eq!(open, None);
    // The condition is handed over as written, spaces trimmed.
    let seen = std::cell::RefCell::new(Vec::new());
    let _ = logical_lines("%if  #{==:#{host},box} \nx\n%endif\n", &|c: &str| {
        seen.borrow_mut().push(c.to_string());
        true
    });
    assert_eq!(seen.into_inner(), vec!["#{==:#{host},box}"]);
    // %elif/%else with no %if open are ignored, not a crash.
    assert_eq!(logical_lines("%else\nx\n%elif y\nz\n%endif\n", &|_: &str| true).0.len(), 2);
}

#[test]
fn logical_lines_follow_tmux_rules() {
    let text = "set -g a 1\n\
                bind x \\\n  send-keys \\\n  hi\n\
                %if #{==:#{host},box}\n\
                set -g never 1\n\
                %else\n\
                set -g on-other-hosts 1\n\
                %endif\n\
                %hidden foo=1\n\
                set -g b 2\n\
                last \\";
    // Every condition false here: the %else branch is the one read.
    let (got, open) = lines_skipping(text);
    assert_eq!(
        got,
        vec![
            (1, "set -g a 1".to_string()),
            (2, "bind x   send-keys   hi".to_string()),
            (8, "set -g on-other-hosts 1".to_string()),
            (11, "set -g b 2".to_string()),
            (12, "last ".to_string()),
        ]
    );
    assert_eq!(open, None);
    // Nested blocks with no branch taken come out whole.
    let nested = "%if a\n%if b\nx\n%endif\ny\n%endif\nz";
    assert_eq!(lines_skipping(nested).0, vec![(7, "z".to_string())]);
    assert!(lines_skipping("").0.is_empty());
    // Notepad's BOM and CRLF endings, as a file written on Windows has.
    let notepad = "\u{feff}set -g a 1\r\nset -g b \\\r\n 2\r\n";
    assert_eq!(lines_skipping(notepad).0, vec![(1, "set -g a 1".to_string()), (2, "set -g b  2".to_string())]);
    // A %if that never closes swallows the rest, and says where it began.
    let (lines, open) = lines_skipping("set -g a 1\n%if x\nset -g b 2\nset -g c 3\n");
    assert_eq!(lines, vec![(1, "set -g a 1".to_string())]);
    assert_eq!(open, Some(2));
}

#[test]
fn expand_home_forms() {
    let home = "C:\\Users\\me".to_string();
    assert_eq!(expand_home("~", Some(&home)), home);
    assert_eq!(expand_home("~/.wmux.conf", Some(&home)), format!("{home}/.wmux.conf"));
    assert_eq!(expand_home("~\\x", Some(&home)), format!("{home}\\x"));
    assert_eq!(expand_home("~user/x", Some(&home)), "~user/x");
    assert_eq!(expand_home("C:\\x", Some(&home)), "C:\\x");
    assert_eq!(expand_home("~/x", None), "~/x", "nowhere to go");
}

#[test]
fn mouse_keys_are_told_by_their_names() {
    assert!(is_mouse_key("MouseDown1Pane"));
    assert!(is_mouse_key("C-M-WheelUpPane"));
    assert!(is_mouse_key("S-DoubleClick1Pane") && is_mouse_key("TripleClick1Pane"));
    assert!(!is_mouse_key("M-C-WheelUpPane"), "control comes first");
    assert!(!is_mouse_key("Enter") && !is_mouse_key(""));
}

#[test]
fn a_continued_line_keeps_its_number_and_takes_what_follows() {
    let yes = |_: &str| true;
    assert_eq!(logical_lines("\\\nfoo", &yes), (vec![(1, "foo".to_string())], None));
    assert_eq!(
        logical_lines("set -g status-right \\\n%H:%M\n", &yes),
        (vec![(1, "set -g status-right %H:%M".to_string())], None)
    );
}
