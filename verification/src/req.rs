//! The requests that the server answers, and the notifications that it takes:
//! their kinds and the method names by which the client asks for them.

use vstd::prelude::*;
use vstd::string::*;

verus! {

/// A position in a document: a line and a column, both from 0.
#[derive(Debug, Clone, Copy, PartialEq, Eq, Structural)]
pub struct Position {
    pub line: u64,
    pub character: u64,
}

/// A range in a document, from `start` up to `end`.
#[derive(Debug, Clone, Copy, PartialEq, Eq, Structural)]
pub struct Range {
    pub start: Position,
    pub end: Position,
}

/// The document that a request is about.
pub struct TextDocumentIdentifier {
    pub uri: String,
}

/// The request for the syntax tree of a document, as text.
pub struct SyntaxTree;

impl SyntaxTree {
    /// The kind of this request.
    pub fn kind() -> (kind: RequestKind)
        ensures
            kind == RequestKind::SyntaxTree,
    {
        RequestKind::SyntaxTree
    }
}

/// The parameters of `SyntaxTree`.
pub struct SyntaxTreeParams {
    pub text_document: TextDocumentIdentifier,
}

/// The request to widen each selection to the syntax node around it.
pub struct ExtendSelection;

impl ExtendSelection {
    /// The kind of this request.
    pub fn kind() -> (kind: RequestKind)
        ensures
            kind == RequestKind::ExtendSelection,
    {
        RequestKind::ExtendSelection
    }
}

/// The parameters of `ExtendSelection`.
pub struct ExtendSelectionParams {
    pub text_document: TextDocumentIdentifier,
    pub selections: Vec<Range>,
}

/// The result of `ExtendSelection`: one range for each selection given.
pub struct ExtendSelectionResult {
    pub selections: Vec<Range>,
}

/// The kinds of request that the server answers, in the order in which a
/// request is held against them.
#[derive(Debug, Clone, Copy, PartialEq, Eq, Structural)]
pub enum RequestKind {
    SyntaxTree,
    ExtendSelection,
    FindMatchingBrace,
    JoinLines,
    OnEnter,
    OnTypeFormatting,
    DocumentSymbol,
    WorkspaceSymbol,
    GotoDefinition,
    ParentModule,
    Runnables,
    Decorations,
    Completion,
    CodeAction,
    FoldingRange,
    SignatureHelp,
    Hover,
    PrepareRename,
    Rename,
    References,
}

/// The name of the request that ends the session.
pub open spec fn shutdown_method() -> Seq<char> {
    "shutdown"@
}

impl RequestKind {
    /// The method name by which the client asks for this kind of request.
    pub open spec fn method_spec(self) -> Seq<char> {
        match self {
            RequestKind::SyntaxTree => "m/syntaxTree"@,
            RequestKind::ExtendSelection => "m/extendSelection"@,
            RequestKind::FindMatchingBrace => "m/findMatchingBrace"@,
            RequestKind::JoinLines => "m/joinLines"@,
            RequestKind::OnEnter => "m/onEnter"@,
            RequestKind::OnTypeFormatting => "textDocument/onTypeFormatting"@,
            RequestKind::DocumentSymbol => "textDocument/documentSymbol"@,
            RequestKind::WorkspaceSymbol => "workspace/symbol"@,
            RequestKind::GotoDefinition => "textDocument/definition"@,
            RequestKind::ParentModule => "m/parentModule"@,
            RequestKind::Runnables => "m/runnables"@,
            RequestKind::Decorations => "m/decorationsRequest"@,
            RequestKind::Completion => "textDocument/completion"@,
            RequestKind::CodeAction => "textDocument/codeAction"@,
            RequestKind::FoldingRange => "textDocument/foldingRange"@,
            RequestKind::SignatureHelp => "textDocument/signatureHelp"@,
            RequestKind::Hover => "textDocument/hover"@,
            RequestKind::PrepareRename => "textDocument/prepareRename"@,
            RequestKind::Rename => "textDocument/rename"@,
            RequestKind::References => "textDocument/references"@,
        }
    }

    /// The place of the kind in the order in which requests are held against
    /// the kinds.
    pub open spec fn index_spec(self) -> int {
        match self {
            RequestKind::SyntaxTree => 0,
            RequestKind::ExtendSelection => 1,
            RequestKind::FindMatchingBrace => 2,
            RequestKind::JoinLines => 3,
            RequestKind::OnEnter => 4,
            RequestKind::OnTypeFormatting => 5,
            RequestKind::DocumentSymbol => 6,
            RequestKind::WorkspaceSymbol => 7,
            RequestKind::GotoDefinition => 8,
            RequestKind::ParentModule => 9,
            RequestKind::Runnables => 10,
            RequestKind::Decorations => 11,
            RequestKind::Completion => 12,
            RequestKind::CodeAction => 13,
            RequestKind::FoldingRange => 14,
            RequestKind::SignatureHelp => 15,
            RequestKind::Hover => 16,
            RequestKind::PrepareRename => 17,
            RequestKind::Rename => 18,
            RequestKind::References => 19,
        }
    }

    /// The method name by which the client asks for this kind of request.
    pub fn method(self) -> (name: &'static str)
        ensures
            name@ == self.method_spec(),
    {
        match self {
            RequestKind::SyntaxTree => "m/syntaxTree",
            RequestKind::ExtendSelection => "m/extendSelection",
            RequestKind::FindMatchingBrace => "m/findMatchingBrace",
            RequestKind::JoinLines => "m/joinLines",
            RequestKind::OnEnter => "m/onEnter",
            RequestKind::OnTypeFormatting => "textDocument/onTypeFormatting",
            RequestKind::DocumentSymbol => "textDocument/documentSymbol",
            RequestKind::WorkspaceSymbol => "workspace/symbol",
            RequestKind::GotoDefinition => "textDocument/definition",
            RequestKind::ParentModule => "m/parentModule",
            RequestKind::Runnables => "m/runnables",
            RequestKind::Decorations => "m/decorationsRequest",
            RequestKind::Completion => "textDocument/completion",
            RequestKind::CodeAction => "textDocument/codeAction",
            RequestKind::FoldingRange => "textDocument/foldingRange",
            RequestKind::SignatureHelp => "textDocument/signatureHelp",
            RequestKind::Hover => "textDocument/hover",
            RequestKind::PrepareRename => "textDocument/prepareRename",
            RequestKind::Rename => "textDocument/rename",
            RequestKind::References => "textDocument/references",
        }
    }

    /// The kind at a place of the order.
    pub fn at(index: usize) -> (kind: RequestKind)
        requires
            index < KIND_COUNT,
        ensures
            kind.index_spec() == index,
    {
        if index == 0 {
            return RequestKind::SyntaxTree;
        }
        if index == 1 {
            return RequestKind::ExtendSelection;
        }
        if index == 2 {
            return RequestKind::FindMatchingBrace;
        }
        if index == 3 {
            return RequestKind::JoinLines;
        }
        if index == 4 {
            return RequestKind::OnEnter;
        }
        if index == 5 {
            return RequestKind::OnTypeFormatting;
        }
        if index == 6 {
            return RequestKind::DocumentSymbol;
        }
        if index == 7 {
            return RequestKind::WorkspaceSymbol;
        }
        if index == 8 {
            return RequestKind::GotoDefinition;
        }
        if index == 9 {
            return RequestKind::ParentModule;
        }
        if index == 10 {
            return RequestKind::Runnables;
        }
        if index == 11 {
            return RequestKind::Decorations;
        }
        if index == 12 {
            return RequestKind::Completion;
        }
        if index == 13 {
            return RequestKind::CodeAction;
        }
        if index == 14 {
            return RequestKind::FoldingRange;
        }
        if index == 15 {
            return RequestKind::SignatureHelp;
        }
        if index == 16 {
            return RequestKind::Hover;
        }
        if index == 17 {
            return RequestKind::PrepareRename;
        }
        if index == 18 {
            return RequestKind::Rename;
        }
        RequestKind::References
    }
}

/// The number of kinds of request.
pub const KIND_COUNT: usize = 20;

/// The first kind, in the order of the kinds from `from` on, whose method name
/// is `method`.
pub open spec fn kind_from(method: Seq<char>, from: int) -> Option<RequestKind>
    decreases KIND_COUNT - from,
{
    if from < 0 || from >= KIND_COUNT {
        None
    } else if kind_at(from).method_spec() == method {
        Some(kind_at(from))
    } else {
        kind_from(method, from + 1)
    }
}

/// The kind at a place of the order.
pub open spec fn kind_at(index: int) -> RequestKind {
    if index == 0 {
        RequestKind::SyntaxTree
    } else if index == 1 {
        RequestKind::ExtendSelection
    } else if index == 2 {
        RequestKind::FindMatchingBrace
    } else if index == 3 {
        RequestKind::JoinLines
    } else if index == 4 {
        RequestKind::OnEnter
    } else if index == 5 {
        RequestKind::OnTypeFormatting
    } else if index == 6 {
        RequestKind::DocumentSymbol
    } else if index == 7 {
        RequestKind::WorkspaceSymbol
    } else if index == 8 {
        RequestKind::GotoDefinition
    } else if index == 9 {
        RequestKind::ParentModule
    } else if index == 10 {
        RequestKind::Runnables
    } else if index == 11 {
        RequestKind::Decorations
    } else if index == 12 {
        RequestKind::Completion
    } else if index == 13 {
        RequestKind::CodeAction
    } else if index == 14 {
        RequestKind::FoldingRange
    } else if index == 15 {
        RequestKind::SignatureHelp
    } else if index == 16 {
        RequestKind::Hover
    } else if index == 17 {
        RequestKind::PrepareRename
    } else if index == 18 {
        RequestKind::Rename
    } else {
        RequestKind::References
    }
}

/// The kind of request that a method name asks for, if any.
pub open spec fn kind_of(method: Seq<char>) -> Option<RequestKind> {
    kind_from(method, 0)
}

/// What is known of the method names: their lengths, and the characters by
/// which names of one length differ.
pub proof fn lemma_method_names()
    ensures
        RequestKind::SyntaxTree.method_spec().len() == 12,
        RequestKind::ExtendSelection.method_spec().len() == 17,
        RequestKind::FindMatchingBrace.method_spec().len() == 19,
        RequestKind::JoinLines.method_spec().len() == 11,
        RequestKind::OnEnter.method_spec().len() == 9,
        RequestKind::OnTypeFormatting.method_spec().len() == 29,
        RequestKind::DocumentSymbol.method_spec().len() == 27,
        RequestKind::WorkspaceSymbol.method_spec().len() == 16,
        RequestKind::GotoDefinition.method_spec().len() == 23,
        RequestKind::ParentModule.method_spec().len() == 14,
        RequestKind::Runnables.method_spec().len() == 11,
        RequestKind::Decorations.method_spec().len() == 20,
        RequestKind::Completion.method_spec().len() == 23,
        RequestKind::CodeAction.method_spec().len() == 23,
        RequestKind::FoldingRange.method_spec().len() == 25,
        RequestKind::SignatureHelp.method_spec().len() == 26,
        RequestKind::Hover.method_spec().len() == 18,
        RequestKind::PrepareRename.method_spec().len() == 26,
        RequestKind::Rename.method_spec().len() == 19,
        RequestKind::References.method_spec().len() == 23,
        RequestKind::CodeAction.method_spec()[13] == 'c',
        RequestKind::CodeAction.method_spec()[15] == 'd',
        RequestKind::Completion.method_spec()[13] == 'c',
        RequestKind::Completion.method_spec()[15] == 'm',
        RequestKind::FindMatchingBrace.method_spec()[0] == 'm',
        RequestKind::GotoDefinition.method_spec()[13] == 'd',
        RequestKind::JoinLines.method_spec()[2] == 'j',
        RequestKind::PrepareRename.method_spec()[13] == 'p',
        RequestKind::References.method_spec()[13] == 'r',
        RequestKind::Rename.method_spec()[0] == 't',
        RequestKind::Runnables.method_spec()[2] == 'r',
        RequestKind::SignatureHelp.method_spec()[13] == 's',
{
    reveal_strlit("m/syntaxTree");
    reveal_strlit("m/extendSelection");
    reveal_strlit("m/findMatchingBrace");
    reveal_strlit("m/joinLines");
    reveal_strlit("m/onEnter");
    reveal_strlit("textDocument/onTypeFormatting");
    reveal_strlit("textDocument/documentSymbol");
    reveal_strlit("workspace/symbol");
    reveal_strlit("textDocument/definition");
    reveal_strlit("m/parentModule");
    reveal_strlit("m/runnables");
    reveal_strlit("m/decorationsRequest");
    reveal_strlit("textDocument/completion");
    reveal_strlit("textDocument/codeAction");
    reveal_strlit("textDocument/foldingRange");
    reveal_strlit("textDocument/signatureHelp");
    reveal_strlit("textDocument/hover");
    reveal_strlit("textDocument/prepareRename");
    reveal_strlit("textDocument/rename");
    reveal_strlit("textDocument/references");
}

/// Every kind is found under its own method name: exactly one kind accepts a
/// request.
pub proof fn lemma_kind_of_method(kind: RequestKind)
    ensures
        kind_of(kind.method_spec()) == Some(kind),
{
    lemma_method_names();
    reveal_with_fuel(kind_from, 21);
}

/// A kind is found only under its own method name.
pub proof fn lemma_kind_of_sound(method: Seq<char>)
    ensures
        kind_of(method) matches Some(kind) ==> kind.method_spec() == method,
        kind_of(method) is None ==> forall|kind: RequestKind| kind.method_spec() != method,
{
    reveal_with_fuel(kind_from, 21);
    assert forall|kind: RequestKind| kind_of(method) is None implies kind.method_spec()
        != method by {
        assert(kind_at(kind.index_spec()) == kind);
    }
}

/// The kind of notification that a method name stands for.
#[derive(Debug, Clone, Copy, PartialEq, Eq, Structural)]
pub enum NotificationKind {
    Cancel,
    DidOpenTextDocument,
    DidChangeTextDocument,
    DidCloseTextDocument,
    Unhandled,
}

/// The kind of notification that a method name stands for.
pub open spec fn notification_kind_spec(method: Seq<char>) -> NotificationKind {
    if method == "$/cancelRequest"@ {
        NotificationKind::Cancel
    } else if method == "textDocument/didOpen"@ {
        NotificationKind::DidOpenTextDocument
    } else if method == "textDocument/didChange"@ {
        NotificationKind::DidChangeTextDocument
    } else if method == "textDocument/didClose"@ {
        NotificationKind::DidCloseTextDocument
    } else {
        NotificationKind::Unhandled
    }
}

fn same(a: &str, b: &str) -> (res: bool)
    ensures
        res == (a@ == b@),
{
    let x = a.to_owned();
    let y = b.to_owned();
    x == y
}

/// Tells which notification a method name stands for.
pub fn notification_kind(method: &str) -> (kind: NotificationKind)
    ensures
        kind == notification_kind_spec(method@),
{
    if same(method, "$/cancelRequest") {
        NotificationKind::Cancel
    } else if same(method, "textDocument/didOpen") {
        NotificationKind::DidOpenTextDocument
    } else if same(method, "textDocument/didChange") {
        NotificationKind::DidChangeTextDocument
    } else if same(method, "textDocument/didClose") {
        NotificationKind::DidCloseTextDocument
    } else {
        NotificationKind::Unhandled
    }
}

/// Whether a method name is that of the request that ends the session.
pub fn is_shutdown(method: &str) -> (res: bool)
    ensures
        res == (method@ == shutdown_method()),
{
    same(method, "shutdown")
}

/// Whether a request of the given method name is one of the given kind.
pub fn accepts(kind: RequestKind, method: &str) -> (res: bool)
    ensures
        res == (kind.method_spec() == method@),
{
    same(kind.method(), method)
}

/// Finds the kind of request that a method name asks for: the kinds are tried
/// in order, and the first that accepts the name is the kind.
pub fn request_kind(method: &str) -> (kind: Option<RequestKind>)
    ensures
        kind == kind_of(method@),
{
    let mut index: usize = 0;
    while index < KIND_COUNT
        invariant
            index <= KIND_COUNT,
            kind_of(method@) == kind_from(method@, index as int),
        decreases KIND_COUNT - index,
    {
        let kind = RequestKind::at(index);
        proof {
            assert(kind_at(index as int) == kind);
        }
        if accepts(kind, method) {
            return Some(kind);
        }
        index = index + 1;
    }
    None
}

} // verus!
