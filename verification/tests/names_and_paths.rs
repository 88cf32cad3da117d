use rbxlx_to_rojo::component::{is_component_sound, sanitize_component};
use rbxlx_to_rojo::path::{is_path_sound, join, path_of, sanitize_path, PathComponent};

fn name(s: &str) -> String {
    assert!(is_component_sound(s));
    sanitize_component(s)
}

fn normal(s: &str) -> PathComponent {
    PathComponent::Normal(s.to_string())
}

fn prefix(s: &str, verbatim: bool) -> PathComponent {
    PathComponent::Prefix { text: s.to_string(), verbatim }
}

#[test]
fn invalid_characters_become_underscores() {
    assert_eq!(name("a<b>c:d\"e/f\\g|h?i*j"), "a_b_c_d_e_f_g_h_i_j");
}

#[test]
fn control_characters_are_dropped() {
    assert_eq!(name("a\u{0}b\u{1f}c\td\n"), "abcd");
    assert_eq!(name("a\u{7f}"), "a\u{7f}");
}

#[test]
fn spaces_and_dots_leave_the_end() {
    assert_eq!(name("name. . ."), "name");
    assert_eq!(name(" .name"), " .name");
    assert_eq!(name("a\u{a0}"), "a\u{a0}");
}

#[test]
fn empty_names_become_an_underscore() {
    assert_eq!(name(""), "_");
    assert_eq!(name("..."), "_");
    assert_eq!(name("\u{1}"), "_");
}

#[test]
fn device_names_are_avoided() {
    for device in ["CON", "con", "PRN", "Aux", "nul", "COM1", "com9", "LPT1", "lPt9"] {
        assert_eq!(name(device), format!("{}_", device));
    }
    assert_eq!(name("con."), "con_");
}

#[test]
fn names_that_only_start_like_devices_stay() {
    for kept in ["Common", "Command", "COM", "LPT", "COM0", "COM10", "LPT\u{661}", "CONSOLE"] {
        assert_eq!(name(kept), kept);
    }
}

#[test]
fn accepted_names_stay() {
    for kept in ["init.lua", "Part", "日本語", "a b", "CON_", ".hidden"] {
        assert_eq!(name(kept), kept);
    }
}

#[test]
fn sanitizing_a_name_twice_changes_nothing() {
    for s in ["a?b", "con", "x. ", "", "nul.", "ok", "COM1", "lpt9", "Common"] {
        assert_eq!(name(&name(s)), name(s));
    }
}

#[test]
fn names_split_inside_a_character_are_told() {
    assert!(!is_component_sound("abé"));
    assert!(!is_component_sound("é日"));
    assert!(is_component_sound("aé"));
    assert!(is_component_sound("日本"));
    assert!(is_component_sound("abé."[..2].as_ref()));
    assert!(!is_component_sound("ab\u{1}é..."));
}

#[test]
fn ascii_names_can_be_sanitized() {
    for n in 0u8..128 {
        let c = char::from(n);
        assert!(is_component_sound(&format!("{}", c)));
        assert!(is_component_sound(&format!("ab{}d", c)));
    }
    assert!(is_component_sound("comé"));
    assert!(is_component_sound(&name("comé")));
    assert_eq!(name("comé"), "comé");
}

#[test]
fn paths_keep_all_but_their_names() {
    let p = vec![
        prefix("C:", false),
        PathComponent::RootDir,
        PathComponent::CurDir,
        PathComponent::ParentDir,
        normal("a?"),
        normal("con"),
    ];
    assert!(is_path_sound(&p));
    assert_eq!(
        sanitize_path(&p),
        vec![
            prefix("C:", false),
            PathComponent::RootDir,
            PathComponent::CurDir,
            PathComponent::ParentDir,
            normal("a_"),
            normal("con_"),
        ]
    );
    assert!(!is_path_sound(&vec![normal("ok"), normal("abé")]));
}

#[test]
fn relative_paths_are_added() {
    let a = vec![PathComponent::RootDir, normal("a")];
    assert_eq!(
        join(&a, &vec![normal("b"), normal("c")]),
        vec![PathComponent::RootDir, normal("a"), normal("b"), normal("c")]
    );
    assert_eq!(
        join(&a, &vec![PathComponent::CurDir, normal("b")]),
        vec![PathComponent::RootDir, normal("a"), normal("b")]
    );
    assert_eq!(
        join(&a, &vec![PathComponent::ParentDir, normal("b")]),
        vec![PathComponent::RootDir, normal("a"), PathComponent::ParentDir, normal("b")]
    );
    assert_eq!(join(&a, &vec![]), a);
}

#[test]
fn a_leading_dot_stays_where_nothing_is_before_it() {
    let dot = vec![PathComponent::CurDir, normal("b")];
    assert_eq!(join(&vec![], &dot), dot);
    assert_eq!(
        join(&vec![prefix("C:", false)], &dot),
        vec![prefix("C:", false), PathComponent::CurDir, normal("b")]
    );
}

#[test]
fn rooted_paths_keep_the_prefix_only() {
    let rooted = vec![PathComponent::RootDir, normal("b")];
    assert_eq!(join(&vec![normal("a")], &rooted), rooted);
    assert_eq!(
        join(&vec![prefix("C:", false), PathComponent::RootDir, normal("a")], &rooted),
        vec![prefix("C:", false), PathComponent::RootDir, normal("b")]
    );
}

#[test]
fn paths_with_a_prefix_replace_all() {
    let other = vec![prefix("D:", false), normal("b")];
    assert_eq!(join(&vec![prefix("C:", false), PathComponent::RootDir, normal("a")], &other), other);
}

#[test]
fn dots_are_worked_out_below_a_verbatim_prefix() {
    let a = vec![prefix("\\\\?\\C:", true), PathComponent::RootDir, normal("a"), normal("b")];
    assert_eq!(
        join(&a, &vec![PathComponent::CurDir, PathComponent::ParentDir, normal("c")]),
        vec![prefix("\\\\?\\C:", true), PathComponent::RootDir, normal("a"), normal("c")]
    );
    assert_eq!(
        join(&a, &vec![PathComponent::RootDir, PathComponent::ParentDir, normal("c")]),
        vec![prefix("\\\\?\\C:", true), PathComponent::RootDir, normal("c")]
    );
}

#[test]
fn joining_does_what_the_standard_library_does() {
    let parts = |p: &std::path::Path| -> Vec<PathComponent> {
        p.components()
            .map(|c| match c {
                std::path::Component::Normal(s) => normal(s.to_str().unwrap()),
                std::path::Component::RootDir => PathComponent::RootDir,
                std::path::Component::CurDir => PathComponent::CurDir,
                std::path::Component::ParentDir => PathComponent::ParentDir,
                std::path::Component::Prefix(_) => unreachable!(),
            })
            .collect()
    };
    let all = ["", ".", "..", "/", "a", "a/b", "./a", "../a", "/a", "/..", "a/..", "./../b"];
    for a in all {
        for b in all {
            let (a, b) = (std::path::Path::new(a), std::path::Path::new(b));
            assert_eq!(join(&parts(a), &parts(b)), parts(&a.join(b)), "{:?} {:?}", a, b);
        }
    }
}

#[test]
fn names_of_dots_have_their_meaning() {
    assert_eq!(path_of("."), vec![PathComponent::CurDir]);
    assert_eq!(path_of(".."), vec![PathComponent::ParentDir]);
    assert_eq!(path_of("..."), vec![normal("...")]);
    assert_eq!(path_of("a"), vec![normal("a")]);
}

#[test]
fn sanitizing_works_dots_out_below_a_verbatim_prefix() {
    let verbatim = || vec![prefix("\\\\?\\C:", true), PathComponent::RootDir];
    let mut p = verbatim();
    p.extend([normal("tmp?"), PathComponent::ParentDir, PathComponent::CurDir, normal("a:")]);
    let mut expected = verbatim();
    expected.push(normal("a_"));
    assert_eq!(sanitize_path(&p), expected);
    assert_eq!(sanitize_path(&expected), expected);
    let mut up = verbatim();
    up.push(PathComponent::ParentDir);
    assert_eq!(sanitize_path(&up), verbatim());
    assert_eq!(sanitize_path(&vec![]), vec![]);
}

#[test]
fn a_loose_end_makes_no_difference() {
    for s in ["a", "con", "", "x?"] {
        for c in [' ', '.', '\t', '\u{1f}'] {
            assert_eq!(name(&format!("{}{}", s, c)), name(s));
        }
    }
}

#[test]
fn sanitizing_and_joining_commute() {
    let a = vec![PathComponent::RootDir, normal("a?")];
    let b = vec![PathComponent::CurDir, normal("con"), PathComponent::ParentDir];
    assert_eq!(
        sanitize_path(&join(&a, &b)),
        join(&sanitize_path(&a), &sanitize_path(&b))
    );
}

#[test]
fn a_longer_place_only_puts_more_in_front() {
    let root = vec![PathComponent::RootDir, normal("r")];
    let p = vec![normal("x"), PathComponent::ParentDir];
    let mut expected = root.clone();
    expected.extend(join(&path_of("src"), &p));
    assert_eq!(join(&join(&root, &path_of("src")), &p), expected);
}
