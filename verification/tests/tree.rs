use analysis_server::file_builder::{build, FileBuilder, TreeEvent};
use analysis_server::text::{TextRange, TextUnit};
use analysis_server::tree::{File, Node, Token};
use analysis_server::tree_model::SyntaxKind;

const FILE: SyntaxKind = SyntaxKind(1);
const FN_DEF: SyntaxKind = SyntaxKind(2);
const FN_KW: SyntaxKind = SyntaxKind(3);
const WS: SyntaxKind = SyntaxKind(4);
const NAME: SyntaxKind = SyntaxKind(5);
const IDENT: SyntaxKind = SyntaxKind(6);
const PARAMS: SyntaxKind = SyntaxKind(7);
const L_PAREN: SyntaxKind = SyntaxKind(8);
const R_PAREN: SyntaxKind = SyntaxKind(9);
const BLOCK: SyntaxKind = SyntaxKind(10);
const L_CURLY: SyntaxKind = SyntaxKind(11);
const R_CURLY: SyntaxKind = SyntaxKind(12);

fn start(kind: SyntaxKind) -> TreeEvent {
    TreeEvent::Start { kind }
}

fn token(kind: SyntaxKind, len: u32) -> TreeEvent {
    TreeEvent::Token { kind, len: TextUnit(len) }
}

fn fn_main_log() -> Vec<TreeEvent> {
    vec![
        start(FILE),
        start(FN_DEF),
        token(FN_KW, 2),
        token(WS, 1),
        start(NAME),
        token(IDENT, 4),
        TreeEvent::Finish,
        start(PARAMS),
        token(L_PAREN, 1),
        token(R_PAREN, 1),
        TreeEvent::Finish,
        token(WS, 1),
        start(BLOCK),
        token(L_CURLY, 1),
        token(R_CURLY, 1),
        TreeEvent::Finish,
        TreeEvent::Finish,
        TreeEvent::Finish,
    ]
}

fn fn_main() -> File {
    build("fn main() {}".to_string(), fn_main_log()).unwrap()
}

fn children<'f>(node: Node<'f>) -> Vec<Node<'f>> {
    let mut walk = node.children();
    let mut res = Vec::new();
    while let Some(child) = walk.next() {
        res.push(child);
    }
    res
}

fn errors_of(node: Node) -> Vec<String> {
    let mut walk = node.SyntaxErrors();
    let mut res = Vec::new();
    while let Some(e) = walk.next() {
        res.push(e.message().to_string());
    }
    res
}

fn range(from: u32, to: u32) -> TextRange {
    TextRange::from_to(TextUnit(from), TextUnit(to))
}

#[test]
fn root_covers_the_whole_text() {
    let file = fn_main();
    let root = file.root();
    assert_eq!(root.kind(), FILE);
    assert_eq!(root.range(), range(0, 12));
    assert_eq!(root.text(), "fn main() {}");
    assert!(root.parent().is_none());
    assert_eq!(file.len(), 13);
}

#[test]
fn children_come_in_order_each_once() {
    let file = fn_main();
    let root = file.root();
    let top = children(root);
    assert_eq!(top.len(), 1);
    let fn_def = top[0];
    assert_eq!(fn_def.kind(), FN_DEF);
    let kinds: Vec<SyntaxKind> = children(fn_def).iter().map(|n| n.kind()).collect();
    assert_eq!(kinds, vec![FN_KW, WS, NAME, PARAMS, WS, BLOCK]);
    let texts: Vec<&str> = children(fn_def).iter().map(|n| n.text()).collect();
    assert_eq!(texts, vec!["fn", " ", "main", "()", " ", "{}"]);
}

#[test]
fn ranges_nest_and_siblings_do_not_overlap() {
    let file = fn_main();
    let fn_def = children(file.root())[0];
    let kids = children(fn_def);
    let ranges: Vec<TextRange> = kids.iter().map(|n| n.range()).collect();
    assert_eq!(
        ranges,
        vec![range(0, 2), range(2, 3), range(3, 7), range(7, 9), range(9, 10), range(10, 12)]
    );
    for pair in kids.windows(2) {
        assert!(pair[0].range().end().0 <= pair[1].range().start().0);
    }
    for kid in kids.iter() {
        let parent = kid.parent().unwrap();
        assert_eq!(parent.kind(), FN_DEF);
        assert!(parent.range().start().0 <= kid.range().start().0);
        assert!(kid.range().end().0 <= parent.range().end().0);
    }
    let params = kids[3];
    let inner: Vec<TextRange> = children(params).iter().map(|n| n.range()).collect();
    assert_eq!(inner, vec![range(7, 8), range(8, 9)]);
    assert_eq!(range(3, 7).len(), TextUnit(4));
}

#[test]
fn leaves_have_no_children() {
    let file = fn_main();
    let fn_def = children(file.root())[0];
    let fn_kw = children(fn_def)[0];
    assert_eq!(fn_kw.kind(), FN_KW);
    assert!(children(fn_kw).is_empty());
    assert!(errors_of(fn_kw).is_empty());
}

#[test]
fn builder_calls_build_the_same_tree_as_the_log() {
    let mut b = FileBuilder::new("fn main() {}".to_string());
    b.start_internal(FILE);
    b.start_internal(FN_DEF);
    b.leaf(FN_KW, TextUnit(2));
    b.leaf(WS, TextUnit(1));
    b.start_internal(NAME);
    b.leaf(IDENT, TextUnit(4));
    b.finish_internal();
    b.start_internal(PARAMS);
    b.leaf(L_PAREN, TextUnit(1));
    b.leaf(R_PAREN, TextUnit(1));
    b.finish_internal();
    b.leaf(WS, TextUnit(1));
    b.start_internal(BLOCK);
    b.leaf(L_CURLY, TextUnit(1));
    b.leaf(R_CURLY, TextUnit(1));
    b.finish_internal();
    b.finish_internal();
    b.finish_internal();
    assert!(b.is_complete());
    let by_calls = b.finish();
    let by_log = fn_main();
    fn dump(node: Node, out: &mut Vec<(SyntaxKind, TextRange, usize)>, depth: usize) {
        out.push((node.kind(), node.range(), depth));
        for child in children(node) {
            dump(child, out, depth + 1);
        }
    }
    let mut a = Vec::new();
    let mut c = Vec::new();
    dump(by_calls.root(), &mut a, 0);
    dump(by_log.root(), &mut c, 0);
    assert_eq!(a, c);
    assert_eq!(a.len(), 13);
    assert_eq!(a[4], (NAME, range(3, 7), 2));
}

#[test]
fn replaying_a_log_twice_gives_equal_trees() {
    let one = fn_main();
    let two = fn_main();
    assert_eq!(one.len(), two.len());
    let a: Vec<&str> = children(children(one.root())[0]).iter().map(|n| n.text()).collect();
    let b: Vec<&str> = children(children(two.root())[0]).iter().map(|n| n.text()).collect();
    assert_eq!(a, b);
}

#[test]
fn errors_of_a_node_stay_together() {
    let log = vec![
        start(FILE),
        TreeEvent::Error { message: "first of root".to_string() },
        start(FN_DEF),
        TreeEvent::Error { message: "first of fn".to_string() },
        token(FN_KW, 2),
        TreeEvent::Error { message: "second of fn".to_string() },
        TreeEvent::Finish,
        TreeEvent::Error { message: "second of root".to_string() },
        start(BLOCK),
        TreeEvent::Error { message: "of block".to_string() },
        TreeEvent::Finish,
        TreeEvent::Error { message: "third of root".to_string() },
        TreeEvent::Finish,
    ];
    let file = build("fn".to_string(), log).unwrap();
    let root = file.root();
    assert_eq!(errors_of(root), vec!["first of root", "second of root", "third of root"]);
    let kids = children(root);
    assert_eq!(kids.len(), 2);
    assert_eq!(errors_of(kids[0]), vec!["first of fn", "second of fn"]);
    assert_eq!(errors_of(kids[1]), vec!["of block"]);
    assert_eq!(kids[1].range(), range(2, 2));
    assert_eq!(kids[1].text(), "");
}

#[test]
fn unbalanced_logs_build_nothing() {
    // a node is left open
    assert!(build("fn".to_string(), vec![start(FILE), token(FN_KW, 2)]).is_none());
    // a finish without a node
    assert!(build("".to_string(), vec![TreeEvent::Finish]).is_none());
    // a token outside any node
    assert!(build("fn".to_string(), vec![token(FN_KW, 2)]).is_none());
    // a second root
    assert!(build(
        "".to_string(),
        vec![start(FILE), TreeEvent::Finish, start(FILE), TreeEvent::Finish]
    )
    .is_none());
    // an error outside any node
    assert!(build("".to_string(), vec![TreeEvent::Error { message: "e".to_string() }]).is_none());
    // no root at all
    assert!(build("".to_string(), vec![]).is_none());
}

#[test]
fn tokens_must_cover_the_text_exactly() {
    let short = vec![start(FILE), token(FN_KW, 1), TreeEvent::Finish];
    assert!(build("fn".to_string(), short).is_none());
    let long = vec![start(FILE), token(FN_KW, 3), TreeEvent::Finish];
    assert!(build("fn".to_string(), long).is_none());
    let exact = vec![start(FILE), token(FN_KW, 2), TreeEvent::Finish];
    assert!(build("fn".to_string(), exact).is_some());
}

#[test]
fn tokens_must_end_on_character_boundaries() {
    // the text is one character of two bytes
    let split = vec![start(FILE), token(IDENT, 1), token(IDENT, 1), TreeEvent::Finish];
    assert!(build("é".to_string(), split).is_none());
    let whole = vec![start(FILE), token(IDENT, 2), TreeEvent::Finish];
    let file = build("é".to_string(), whole).unwrap();
    assert_eq!(children(file.root())[0].text(), "é");
    assert_eq!(file.text(), "é");
}

#[test]
fn builder_tells_which_calls_are_in_order() {
    let mut b = FileBuilder::new("ab".to_string());
    assert!(b.admits(&start(FILE)));
    assert!(!b.admits(&TreeEvent::Finish));
    assert!(!b.admits(&token(IDENT, 1)));
    assert!(!b.is_complete());
    b.start_internal(FILE);
    assert!(b.admits(&token(IDENT, 2)));
    assert!(!b.admits(&token(IDENT, 3)));
    assert!(b.admits(&TreeEvent::Error { message: "x".to_string() }));
    b.leaf(IDENT, TextUnit(2));
    b.finish_internal();
    assert!(!b.admits(&start(FILE)));
    assert!(b.is_complete());
}

#[test]
fn token_holds_kind_and_length() {
    let t = Token { kind: IDENT, len: TextUnit(4) };
    assert_eq!(t, Token { kind: SyntaxKind(6), len: TextUnit(4) });
    assert_eq!(TextRange::from_len(TextUnit(3), t.len), range(3, 7));
}

fn dump_tree(file: &File) -> Vec<(SyntaxKind, TextRange, usize, Vec<String>)> {
    fn go(node: Node, out: &mut Vec<(SyntaxKind, TextRange, usize, Vec<String>)>, depth: usize) {
        out.push((node.kind(), node.range(), depth, errors_of(node)));
        for child in children(node) {
            go(child, out, depth + 1);
        }
    }
    let mut out = Vec::new();
    go(file.root(), &mut out, 0);
    out
}

fn same_event(a: &TreeEvent, b: &TreeEvent) -> bool {
    match (a, b) {
        (TreeEvent::Start { kind: x }, TreeEvent::Start { kind: y }) => x == y,
        (TreeEvent::Finish, TreeEvent::Finish) => true,
        (TreeEvent::Token { kind: x, len: l }, TreeEvent::Token { kind: y, len: k }) => {
            x == y && l == k
        }
        (TreeEvent::Error { message: x }, TreeEvent::Error { message: y }) => x == y,
        _ => false,
    }
}

#[test]
fn reading_a_tree_back_gives_the_log_that_built_it() {
    let file = fn_main();
    let read = file.events();
    let log = fn_main_log();
    assert_eq!(read.len(), log.len());
    for (a, b) in read.iter().zip(log.iter()) {
        assert!(same_event(a, b));
    }
}

#[test]
fn replaying_the_log_read_back_builds_the_tree_again() {
    let file = fn_main();
    let again = build(file.text().to_string(), file.events()).unwrap();
    assert_eq!(dump_tree(&file), dump_tree(&again));
    assert_eq!(again.len(), 13);
}

#[test]
fn round_trip_keeps_errors_and_empty_nodes() {
    let log = vec![
        start(FILE),
        start(FN_DEF),
        token(FN_KW, 2),
        TreeEvent::Error { message: "late error of fn".to_string() },
        TreeEvent::Finish,
        start(BLOCK),
        TreeEvent::Finish,
        token(WS, 0),
        TreeEvent::Error { message: "error of root".to_string() },
        start(NAME),
        TreeEvent::Error { message: "error of name".to_string() },
        token(IDENT, 1),
        TreeEvent::Finish,
        TreeEvent::Finish,
    ];
    let file = build("fnx".to_string(), log).unwrap();
    let read = file.events();
    // errors are read back right behind the start of their node, and an empty
    // token is read back as an empty node
    let expected = vec![
        start(FILE),
        TreeEvent::Error { message: "error of root".to_string() },
        start(FN_DEF),
        TreeEvent::Error { message: "late error of fn".to_string() },
        token(FN_KW, 2),
        TreeEvent::Finish,
        start(BLOCK),
        TreeEvent::Finish,
        start(WS),
        TreeEvent::Finish,
        start(NAME),
        TreeEvent::Error { message: "error of name".to_string() },
        token(IDENT, 1),
        TreeEvent::Finish,
        TreeEvent::Finish,
    ];
    assert_eq!(read.len(), expected.len());
    for (a, b) in read.iter().zip(expected.iter()) {
        assert!(same_event(a, b));
    }
    let again = build("fnx".to_string(), read).unwrap();
    assert_eq!(dump_tree(&file), dump_tree(&again));
    let dump = dump_tree(&again);
    assert_eq!(dump[0], (FILE, range(0, 3), 0, vec!["error of root".to_string()]));
    assert_eq!(dump[3], (BLOCK, range(2, 2), 1, vec![]));
    assert_eq!(dump[4], (WS, range(2, 2), 1, vec![]));
    assert_eq!(dump[5], (NAME, range(2, 3), 1, vec!["error of name".to_string()]));
}

#[test]
fn round_trip_of_the_smallest_tree() {
    let file = build("".to_string(), vec![start(FILE), TreeEvent::Finish]).unwrap();
    let read = file.events();
    assert_eq!(read.len(), 2);
    assert!(same_event(&read[0], &start(FILE)));
    assert!(same_event(&read[1], &TreeEvent::Finish));
    let again = build("".to_string(), read).unwrap();
    assert_eq!(dump_tree(&file), dump_tree(&again));
}
