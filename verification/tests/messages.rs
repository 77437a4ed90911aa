use analysis_server::decimal::{int_string, nat_string};
use analysis_server::messages::{
    file_notification, handler_response, is_canceled, FileStep, HandlerError, LspError,
    RawNotification, RawResponse, Task, INTERNAL_ERROR, REQUEST_CANCELLED,
};
use analysis_server::req::{
    accepts, is_shutdown, notification_kind, request_kind, ExtendSelection,
    ExtendSelectionParams, ExtendSelectionResult, NotificationKind, Position, Range, RequestKind,
    SyntaxTree, SyntaxTreeParams, TextDocumentIdentifier, KIND_COUNT,
};

#[test]
fn lsp_error_holds_code_and_message() {
    let e = LspError::new(-32602, "bad params".to_string());
    assert_eq!(e.code, -32602);
    assert_eq!(e.message, "bad params");
    assert_eq!(e.describe(), "Language Server request failed with -32602. (bad params)");
    assert_eq!(LspError::new(0, "".to_string()).describe(), "Language Server request failed with 0. ()");
    assert_eq!(
        LspError::new(i32::MIN, "m".to_string()).describe(),
        "Language Server request failed with -2147483648. (m)"
    );
    assert_eq!(
        LspError::new(i32::MAX, "m".to_string()).describe(),
        "Language Server request failed with 2147483647. (m)"
    );
}

#[test]
fn handler_outcomes_become_responses() {
    let ok = handler_response(1, Ok("[1,2]".to_string()));
    assert_eq!(ok.id, 1);
    assert_eq!(ok.result.as_deref(), Some("[1,2]"));
    assert!(ok.error.is_none());

    let lsp = handler_response(2, Err(HandlerError::Lsp(LspError::new(-32602, "no".to_string()))));
    assert!(lsp.result.is_none());
    let e = lsp.error.unwrap();
    assert_eq!((lsp.id, e.code, e.message.as_str()), (2, -32602, "no"));

    let canceled = handler_response(3, Err(HandlerError::Canceled { message: "canceled".to_string() }));
    let e = canceled.error.unwrap();
    assert_eq!((canceled.id, e.code, e.message.as_str()), (3, REQUEST_CANCELLED, "canceled"));

    let other = handler_response(4, Err(HandlerError::Other { message: "boom\ntrace".to_string() }));
    let e = other.error.unwrap();
    assert_eq!((other.id, e.code, e.message.as_str()), (4, INTERNAL_ERROR, "boom\ntrace"));
    assert_eq!(INTERNAL_ERROR, -32603);
}

#[test]
fn only_cancellation_counts_as_canceled() {
    assert!(is_canceled(&HandlerError::Canceled { message: "c".to_string() }));
    assert!(!is_canceled(&HandlerError::Other { message: "c".to_string() }));
    assert!(!is_canceled(&HandlerError::Lsp(LspError::new(1, "c".to_string()))));
}

#[test]
fn outcomes_of_file_handlers_are_published_logged_or_skipped() {
    let note = RawNotification { method: "textDocument/publishDiagnostics".to_string(), params: "{}".to_string() };
    match file_notification(Ok(note)) {
        FileStep::Notify(Task::Notify(n)) => assert_eq!(n.method, "textDocument/publishDiagnostics"),
        _ => panic!("expected a notification"),
    }
    assert!(matches!(
        file_notification(Err(HandlerError::Canceled { message: "c".to_string() })),
        FileStep::Skip
    ));
    assert!(matches!(
        file_notification(Err(HandlerError::Other { message: "why".to_string() })),
        FileStep::Log(m) if m == "why"
    ));
    assert!(matches!(
        file_notification(Err(HandlerError::Lsp(LspError::new(1, "lsp".to_string())))),
        FileStep::Log(m) if m == "lsp"
    ));
}

#[test]
fn responses_carry_a_result_or_an_error() {
    let ok = RawResponse::ok(5, "true".to_string());
    assert!(ok.error.is_none() && ok.result.as_deref() == Some("true") && ok.id == 5);
    let err = RawResponse::err(6, -1, "m".to_string());
    assert!(err.result.is_none() && err.id == 6);
    let e = err.error.unwrap();
    assert_eq!((e.code, e.message.as_str()), (-1, "m"));
}

#[test]
fn every_kind_is_found_under_its_method_name() {
    let names = [
        "m/syntaxTree",
        "m/extendSelection",
        "m/findMatchingBrace",
        "m/joinLines",
        "m/onEnter",
        "textDocument/onTypeFormatting",
        "textDocument/documentSymbol",
        "workspace/symbol",
        "textDocument/definition",
        "m/parentModule",
        "m/runnables",
        "m/decorationsRequest",
        "textDocument/completion",
        "textDocument/codeAction",
        "textDocument/foldingRange",
        "textDocument/signatureHelp",
        "textDocument/hover",
        "textDocument/prepareRename",
        "textDocument/rename",
        "textDocument/references",
    ];
    assert_eq!(names.len(), KIND_COUNT);
    for (i, name) in names.iter().enumerate() {
        let kind = RequestKind::at(i);
        assert_eq!(kind.method(), *name);
        assert_eq!(request_kind(name), Some(kind));
        assert!(accepts(kind, name));
    }
    assert_eq!(request_kind("m/syntaxTree"), Some(RequestKind::SyntaxTree));
    assert_eq!(request_kind("textDocument/rename"), Some(RequestKind::Rename));
    assert_eq!(request_kind("m/syntaxtree"), None);
    assert_eq!(request_kind(""), None);
    assert_eq!(request_kind("shutdown"), None);
    assert!(!accepts(RequestKind::Hover, "textDocument/rename"));
    assert_eq!(SyntaxTree::kind(), RequestKind::SyntaxTree);
    assert_eq!(ExtendSelection::kind(), RequestKind::ExtendSelection);
}

#[test]
fn notifications_are_told_apart_by_method() {
    assert_eq!(notification_kind("$/cancelRequest"), NotificationKind::Cancel);
    assert_eq!(notification_kind("textDocument/didOpen"), NotificationKind::DidOpenTextDocument);
    assert_eq!(notification_kind("textDocument/didChange"), NotificationKind::DidChangeTextDocument);
    assert_eq!(notification_kind("textDocument/didClose"), NotificationKind::DidCloseTextDocument);
    assert_eq!(notification_kind("textDocument/didSave"), NotificationKind::Unhandled);
    assert!(is_shutdown("shutdown"));
    assert!(!is_shutdown("exit"));
}

#[test]
fn request_parameters_are_plain_values() {
    let doc = TextDocumentIdentifier { uri: "file:///main.rs".to_string() };
    let params = SyntaxTreeParams { text_document: doc };
    assert_eq!(params.text_document.uri, "file:///main.rs");
    let r = Range {
        start: Position { line: 0, character: 3 },
        end: Position { line: 0, character: 7 },
    };
    let params = ExtendSelectionParams {
        text_document: TextDocumentIdentifier { uri: "file:///main.rs".to_string() },
        selections: vec![r],
    };
    let result = ExtendSelectionResult { selections: params.selections.clone() };
    assert_eq!(result.selections, vec![r]);
}

#[test]
fn integers_are_written_in_decimal() {
    assert_eq!(nat_string(0), "0");
    assert_eq!(nat_string(9), "9");
    assert_eq!(nat_string(10), "10");
    assert_eq!(nat_string(1234567890), "1234567890");
    assert_eq!(nat_string(u64::MAX), "18446744073709551615");
    assert_eq!(int_string(0), "0");
    assert_eq!(int_string(-1), "-1");
    assert_eq!(int_string(-32800), "-32800");
    assert_eq!(int_string(i32::MIN), "-2147483648");
}
