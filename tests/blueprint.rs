use ctkbiru::generate::{may_generate, Generator};
use ctkbiru::line::{char_to_bytes, Blueprint, BlueprintType};
use ctkbiru::store::{is_blueprint_extension, stored_file_name};
use ctkbiru::tree::{join_segments, Entry, PathStack, TreeError};

fn parse(s: &str) -> Blueprint {
    Blueprint::new(s).expect("line should parse")
}

fn run(lines: &[&str]) -> Result<Vec<(String, BlueprintType)>, TreeError> {
    let mut g = Generator::new(false);
    let mut out = Vec::new();
    for l in lines {
        if let Some(e) = g.next_entry(l)? {
            out.push((join_segments(&e.segments), e.kind));
            g.mark_created(e);
        }
    }
    Ok(out)
}

fn paths(v: &[Entry]) -> Vec<String> {
    v.iter().map(|e| join_segments(&e.segments)).collect()
}

#[test]
fn char_to_bytes_encodes_utf8() {
    assert_eq!(char_to_bytes('a'), vec![0x61]);
    assert_eq!(char_to_bytes(' '), vec![0x20]);
    assert_eq!(char_to_bytes('é'), vec![0xC3, 0xA9]);
    assert_eq!(char_to_bytes('€'), vec![0xE2, 0x82, 0xAC]);
    assert_eq!(char_to_bytes('😀'), vec![0xF0, 0x9F, 0x98, 0x80]);
    for c in ['x', 'ß', '中', '🦀'] {
        let mut buf = [0u8; 4];
        assert_eq!(char_to_bytes(c), c.encode_utf8(&mut buf).as_bytes().to_vec());
    }
}

#[test]
fn empty_and_separator_lines_are_skipped() {
    assert!(Blueprint::new("").is_none());
    assert!(Blueprint::new("/").is_none());
    let mut g = Generator::new(false);
    assert!(matches!(g.next_entry(""), Ok(None)));
    assert!(matches!(g.next_entry("/"), Ok(None)));
    assert_eq!(g.created.len(), 0);
    assert_eq!(g.stack.segments.len(), 0);
}

#[test]
fn parses_depth_name_and_kind() {
    let b = parse("    docs/");
    assert_eq!(b.depth_level, 4);
    assert_eq!(b.name, "docs");
    assert_eq!(b.pattern_type, BlueprintType::Dir);

    let b = parse("main.rs");
    assert_eq!(b.depth_level, 0);
    assert_eq!(b.name, "main.rs");
    assert_eq!(b.pattern_type, BlueprintType::File);
}

#[test]
fn directory_iff_last_char_is_separator() {
    for (line, dir) in [("a/", true), ("a", false), ("  a/b", false), ("  a/b/", true), ("//", true), (" /", true), ("a/ ", false)] {
        let b = parse(line);
        assert_eq!(b.pattern_type == BlueprintType::Dir, line.ends_with('/'), "{line}");
        assert_eq!(b.pattern_type == BlueprintType::Dir, dir, "{line}");
    }
}

#[test]
fn internal_separator_stays_in_name() {
    let b = parse("  a/b");
    assert_eq!(b.name, "a/b");
    assert_eq!(b.pattern_type, BlueprintType::File);
    let b = parse("//");
    assert_eq!(b.name, "/");
    assert_eq!(b.pattern_type, BlueprintType::Dir);
}

#[test]
fn non_ascii_name_is_kept() {
    let b = parse("  ñandú €/");
    assert_eq!(b.depth_level, 2);
    assert_eq!(b.name, "ñandú €");
    assert_eq!(b.pattern_type, BlueprintType::Dir);
}

#[test]
fn spaces_only_line_has_empty_name_and_is_rejected() {
    let b = parse("   ");
    assert_eq!(b.depth_level, 3);
    assert_eq!(b.name, "");
    assert_eq!(b.pattern_type, BlueprintType::File);
    let b = parse("  /");
    assert_eq!(b.name, "");
    assert_eq!(b.pattern_type, BlueprintType::Dir);
    assert_eq!(run(&["a/", "  /"]), Err(TreeError::EmptyName));
}

#[test]
fn scenario_a_builds_nested_tree() {
    let got = run(&["a/", "  b", "  c/", "    d"]).unwrap();
    assert_eq!(
        got,
        vec![
            ("a".to_string(), BlueprintType::Dir),
            ("a/b".to_string(), BlueprintType::File),
            ("a/c".to_string(), BlueprintType::Dir),
            ("a/c/d".to_string(), BlueprintType::File),
        ]
    );
}

#[test]
fn scenario_a_text_with_blank_lines() {
    let text = "a/\n  b\n\n  c/\n/\n    d\n";
    let lines: Vec<&str> = text.lines().collect();
    let got = run(&lines).unwrap();
    let names: Vec<String> = got.into_iter().map(|(p, _)| p).collect();
    assert_eq!(names, vec!["a", "a/b", "a/c", "a/c/d"]);
}

#[test]
fn shallower_line_returns_to_its_level() {
    let got = run(&["a/", " b/", "  c", " d", "e"]).unwrap();
    let names: Vec<String> = got.into_iter().map(|(p, _)| p).collect();
    assert_eq!(names, vec!["a", "a/b", "a/b/c", "a/d", "e"]);
}

#[test]
fn four_space_indent_works() {
    let got = run(&["src/", "    lib.rs", "    bin/", "        main.rs", "README"]).unwrap();
    let names: Vec<String> = got.into_iter().map(|(p, _)| p).collect();
    assert_eq!(names, vec!["src", "src/lib.rs", "src/bin", "src/bin/main.rs", "README"]);
}

#[test]
fn skipped_level_is_rejected() {
    assert_eq!(run(&["a/", "  b/", "      c"]), Err(TreeError::SkippedLevel));
    assert_eq!(run(&["  a"]), Err(TreeError::SkippedLevel));
}

#[test]
fn uneven_indent_is_rejected() {
    assert_eq!(run(&["a/", "  b", "   c"]), Err(TreeError::UnevenIndent));
}

#[test]
fn error_leaves_stack_unchanged() {
    let mut st = PathStack::new();
    st.step(&parse("a/")).unwrap();
    st.step(&parse("  b/")).unwrap();
    assert!(st.step(&parse("       x")).is_err());
    assert_eq!(st.segments, vec!["a".to_string(), "b".to_string()]);
    assert_eq!(st.current_depth, 1);
    assert_eq!(st.unit, 2);
}

#[test]
fn stack_length_tracks_depth() {
    let mut st = PathStack::new();
    for (line, depth, path) in [("a/", 0, "a"), ("  b/", 1, "a/b"), ("    c", 2, "a/b/c"), ("  d", 1, "a/d"), ("e/", 0, "e")] {
        let e = st.step(&parse(line)).unwrap();
        assert_eq!(st.current_depth, depth);
        assert_eq!(st.segments.len(), depth + 1);
        assert_eq!(join_segments(&e.segments), path);
        assert_eq!(join_segments(&st.segments), path);
    }
}

#[test]
fn round_trip_from_listing() {
    let lines = ["a/", "  b", "  c/", "    d", "e"];
    let got = run(&lines).unwrap();
    let rebuilt: Vec<String> = got
        .iter()
        .map(|(p, k)| {
            let segs: Vec<&str> = p.split('/').collect();
            let mut s = " ".repeat(2 * (segs.len() - 1));
            s.push_str(segs[segs.len() - 1]);
            if *k == BlueprintType::Dir {
                s.push('/');
            }
            s
        })
        .collect();
    assert_eq!(rebuilt, lines.to_vec());
}

#[test]
fn rollback_removes_created_last_first() {
    let mut g = Generator::new(false);
    for l in ["a/", "  b", "  c/"] {
        let e = g.next_entry(l).unwrap().unwrap();
        g.mark_created(e);
    }
    assert!(g.next_entry("       bad").is_err());
    let undo = g.rollback();
    assert_eq!(paths(&undo), vec!["a/c", "a/b", "a"]);
    assert_eq!(undo[0].kind, BlueprintType::Dir);
    assert_eq!(undo[1].kind, BlueprintType::File);
}

#[test]
fn rollback_with_new_root_removes_root_last() {
    let mut g = Generator::new(true);
    for l in ["a/", "  b"] {
        let e = g.next_entry(l).unwrap().unwrap();
        g.mark_created(e);
    }
    let undo = g.rollback();
    assert_eq!(paths(&undo), vec!["a/b", "a", ""]);
    assert_eq!(undo[2].segments.len(), 0);
}

#[test]
fn failure_on_last_line_rolls_back_everything() {
    let lines = ["a/", "  b/", "    c", "        d"];
    let mut g = Generator::new(false);
    let mut failed = false;
    for l in lines {
        match g.next_entry(l) {
            Ok(Some(e)) => g.mark_created(e),
            Ok(None) => {}
            Err(_) => {
                failed = true;
                break;
            }
        }
    }
    assert!(failed);
    assert_eq!(paths(&g.rollback()), vec!["a/b/c", "a/b", "a"]);
}

#[test]
fn rollback_of_nothing_is_empty() {
    let g = Generator::new(false);
    assert!(g.rollback().is_empty());
}

#[test]
fn non_empty_destination_needs_wrapper() {
    assert!(!may_generate(false, false));
    assert!(may_generate(false, true));
    assert!(may_generate(true, false));
    assert!(may_generate(true, true));
}

#[test]
fn only_txt_is_a_blueprint() {
    assert!(is_blueprint_extension("txt"));
    assert!(!is_blueprint_extension("md"));
    assert!(!is_blueprint_extension("TXT"));
    assert!(!is_blueprint_extension(""));
    assert!(!is_blueprint_extension("txt "));
}

#[test]
fn stored_name_uses_custom_or_source() {
    assert_eq!(stored_file_name(Some("web"), "tree.txt"), "web.txt");
    assert_eq!(stored_file_name(None, "tree.txt"), "tree.txt");
}

#[test]
fn join_segments_uses_separator() {
    let v = vec!["a".to_string(), "c".to_string(), "d".to_string()];
    assert_eq!(join_segments(&v), "a/c/d");
    assert_eq!(join_segments(&Vec::new()), "");
}
