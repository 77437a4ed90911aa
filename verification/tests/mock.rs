use analysis_server::fixture::{extract_offset, parse_fixture, try_extract_offset, CURSOR_MARKER};
use analysis_server::ids::FileId;
use analysis_server::mock::FileMap;
use analysis_server::mock_analysis::{
    analysis_and_position, single_file, single_file_with_position, FilePosition, MockAnalysis,
};
use analysis_server::subscriptions::Subscriptions;
use analysis_server::text::TextUnit;

#[test]
fn file_map_issues_ids_from_one() {
    let mut m = FileMap::new();
    assert_eq!(m.add("main.rs".to_string()), FileId(1));
    assert_eq!(m.add("foo/mod.rs".to_string()), FileId(2));
    assert_eq!(m.add("foo/bar.rs".to_string()), FileId(3));
    let mut ids: Vec<u32> = m.files().into_iter().collect();
    ids.sort();
    assert_eq!(ids, vec![1, 2, 3]);
    assert_eq!(m.file_id("/foo/mod.rs"), FileId(2));
    assert_eq!(m.path(FileId(3)), "foo/bar.rs");
    assert_eq!(m.lookup("foo/bar.rs"), Some(FileId(3)));
    assert_eq!(m.lookup("/foo/bar.rs"), None);
    assert_eq!(m.len(), 3);
}

#[test]
fn file_map_resolves_relative_paths() {
    let mut m = FileMap::new();
    let main = m.add("src/main.rs".to_string());
    let foo = m.add("src/foo.rs".to_string());
    let bar = m.add("src/foo/bar.rs".to_string());
    assert_eq!(m.resolve(main, "../foo.rs"), Some(foo));
    assert_eq!(m.resolve(foo, "../foo/bar.rs"), Some(bar));
    assert_eq!(m.resolve(foo, "../foo/./bar.rs"), Some(bar));
    assert_eq!(m.resolve(main, "../baz.rs"), None);
    assert_eq!(m.resolve(bar, "../../main.rs"), Some(main));
    // joining does not go through the name of the file itself
    assert_eq!(m.resolve(main, "foo.rs"), None);
}

#[test]
fn file_map_finds_file_stems() {
    let mut m = FileMap::new();
    let a = m.add("src/foo.rs".to_string());
    let b = m.add("src/foo/mod.tar.gz".to_string());
    let c = m.add("..".to_string());
    let d = m.add("src/.hidden".to_string());
    assert_eq!(m.file_stem(a), "foo");
    assert_eq!(m.try_file_stem(a), Some("foo".to_string()));
    assert_eq!(m.try_file_stem(b), Some("mod.tar".to_string()));
    assert_eq!(m.try_file_stem(c), None);
    assert_eq!(m.try_file_stem(d), Some(".hidden".to_string()));
}

#[test]
fn mock_files_get_ids_in_order() {
    let mut mock = MockAnalysis::new();
    assert_eq!(mock.add_file("/main.rs", "fn main() {}"), FileId(1));
    assert_eq!(mock.add_file("/foo.rs", "struct S;"), FileId(2));
    assert_eq!(mock.add_file("/main.rs", "shadowed"), FileId(3));
    assert_eq!(mock.id_of("/foo.rs"), FileId(2));
    assert_eq!(mock.id_of("/main.rs"), FileId(1));
    assert_eq!(mock.len(), 3);
    let analysis = mock.analysis();
    assert_eq!(analysis.version(), 1);
    assert_eq!(analysis.file_text(FileId(1)).unwrap(), "fn main() {}");
    assert_eq!(analysis.file_text(FileId(2)).unwrap(), "struct S;");
    assert_eq!(analysis.file_text(FileId(3)).unwrap(), "shadowed");
    assert_eq!(analysis.file_path(FileId(2)).unwrap(), "foo.rs");
    assert!(analysis.file_text(FileId(4)).is_none());
}

#[test]
fn mock_host_can_be_changed_further() {
    let mut mock = MockAnalysis::new();
    mock.add_file("/main.rs", "fn main() {}");
    let host = mock.analysis_host();
    assert_eq!(host.version(), 1);
    assert_eq!(host.analysis().file_text(FileId(1)).unwrap(), "fn main() {}");
}

#[test]
fn single_file_is_main_rs() {
    let (analysis, file_id) = single_file("struct S;");
    assert_eq!(file_id, FileId(1));
    assert_eq!(analysis.file_text(file_id).unwrap(), "struct S;");
    assert_eq!(analysis.file_path(file_id).unwrap(), "main.rs");
}

#[test]
fn single_file_with_position_takes_the_marker_out() {
    let (analysis, pos) = single_file_with_position("fn main() {<|>}");
    assert_eq!(pos, FilePosition { file_id: FileId(1), offset: TextUnit(11) });
    assert_eq!(analysis.file_text(pos.file_id).unwrap(), "fn main() {}");
}

#[test]
fn marker_offset_is_counted_in_bytes() {
    assert_eq!(CURSOR_MARKER, "<|>");
    assert_eq!(extract_offset("<|>abc"), (TextUnit(0), "abc".to_string()));
    assert_eq!(extract_offset("abc<|>"), (TextUnit(3), "abc".to_string()));
    assert_eq!(extract_offset("é<|>x"), (TextUnit(2), "éx".to_string()));
    assert_eq!(extract_offset("日本<|>語"), (TextUnit(6), "日本語".to_string()));
    assert_eq!(extract_offset("a<|>b<|>c"), (TextUnit(1), "ab<|>c".to_string()));
    assert_eq!(extract_offset("a<<|>"), (TextUnit(2), "a<".to_string()));
    assert_eq!(try_extract_offset("no marker"), None);
    assert_eq!(try_extract_offset("<|"), None);
    assert_eq!(try_extract_offset(""), None);
}

#[test]
fn fixture_is_split_at_heading_lines() {
    let entries = parse_fixture("//- /main.rs\nmod foo;\nfn main() {}\n\n//- /foo.rs\nstruct Baz;\n");
    assert_eq!(entries.len(), 2);
    assert_eq!(entries[0].meta, "/main.rs");
    assert_eq!(entries[0].text, "mod foo;\nfn main() {}\n\n");
    assert_eq!(entries[1].meta, "/foo.rs");
    assert_eq!(entries[1].text, "struct Baz;\n");
}

#[test]
fn fixture_edge_cases() {
    assert!(parse_fixture("").is_empty());
    assert!(parse_fixture("no heading\nat all\n").is_empty());
    // lines before the first heading are dropped; the last line needs no line feed
    let entries = parse_fixture("dropped\n//-   /a.rs  \t\nx\n//- /b.rs\ny");
    assert_eq!(entries.len(), 2);
    assert_eq!((entries[0].meta.as_str(), entries[0].text.as_str()), ("/a.rs", "x\n"));
    assert_eq!((entries[1].meta.as_str(), entries[1].text.as_str()), ("/b.rs", "y\n"));
    // a heading without text
    let entries = parse_fixture("//- /empty.rs");
    assert_eq!(entries.len(), 1);
    assert_eq!((entries[0].meta.as_str(), entries[0].text.as_str()), ("/empty.rs", ""));
    // a heading must start the line
    let entries = parse_fixture("//- /a.rs\n //- /b.rs\n");
    assert_eq!(entries.len(), 1);
    assert_eq!(entries[0].text, " //- /b.rs\n");
}

#[test]
fn mock_from_fixture() {
    let mock = MockAnalysis::with_files("//- /main.rs\nmod foo;\n//- /foo.rs\nstruct Baz;\n");
    assert_eq!(mock.id_of("/foo.rs"), FileId(2));
    let analysis = mock.analysis();
    assert_eq!(analysis.file_text(FileId(1)).unwrap(), "mod foo;\n");
    assert_eq!(analysis.file_text(FileId(2)).unwrap(), "struct Baz;\n");
}

#[test]
fn mock_from_fixture_with_position() {
    let fixture = "//- /main.rs\nmod foo;\n//- /foo.rs\nstruct <|>Baz;\n//- /bar.rs\nfn f() {}\n";
    let (mock, pos) = MockAnalysis::with_files_and_position(fixture);
    assert_eq!(pos, FilePosition { file_id: FileId(2), offset: TextUnit(7) });
    assert_eq!(mock.id_of("/bar.rs"), FileId(3));
    let (analysis, pos) = analysis_and_position(fixture);
    assert_eq!(pos, FilePosition { file_id: FileId(2), offset: TextUnit(7) });
    assert_eq!(analysis.file_text(FileId(1)).unwrap(), "mod foo;\n");
    assert_eq!(analysis.file_text(FileId(2)).unwrap(), "struct Baz;\n");
    assert_eq!(analysis.file_text(FileId(3)).unwrap(), "fn f() {}\n");
}

#[test]
fn subscriptions_hold_each_file_once() {
    let mut subs = Subscriptions::new();
    assert!(subs.subscriptions().is_empty());
    subs.add_sub(FileId(3));
    subs.add_sub(FileId(1));
    subs.add_sub(FileId(3));
    let mut files = subs.subscriptions();
    files.sort_by_key(|f| f.0);
    assert_eq!(files, vec![FileId(1), FileId(3)]);
    subs.remove_sub(FileId(3));
    subs.remove_sub(FileId(7));
    assert_eq!(subs.subscriptions(), vec![FileId(1)]);
}

#[test]
fn file_map_has_default_and_clone() {
    let mut m = FileMap::default();
    assert_eq!(m.len(), 0);
    m.add("a.rs".to_string());
    let copy = m.clone();
    m.add("b.rs".to_string());
    assert_eq!(copy.len(), 1);
    assert_eq!(copy.lookup("a.rs"), Some(FileId(1)));
    assert_eq!(copy.lookup("b.rs"), None);
    assert!(copy.holds(FileId(1)) && !copy.holds(FileId(2)) && !copy.holds(FileId(0)));
    assert_eq!(m.lookup("b.rs"), Some(FileId(2)));
    assert!(format!("{:?}", copy).contains("a.rs"));
}

#[test]
fn the_world_of_a_mock_has_a_file_resolver_over_its_files() {
    let mut mock = MockAnalysis::new();
    let main = mock.add_file("/src/main.rs", "mod foo;");
    let foo = mock.add_file("/src/foo.rs", "struct S;");
    let analysis = mock.analysis();
    let resolver = analysis.file_resolver().unwrap();
    assert!(resolver.knows(main) && resolver.knows(foo) && !resolver.knows(FileId(3)));
    assert_eq!(resolver.resolve(main, "../foo.rs"), Some(foo));
    assert_eq!(resolver.resolve(foo, "../main.rs"), Some(main));
    assert_eq!(resolver.resolve(main, "../bar.rs"), None);
    let copy = resolver.share();
    assert_eq!(copy.resolve(main, "../foo.rs"), Some(foo));
}
