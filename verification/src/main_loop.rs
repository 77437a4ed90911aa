//! The decisions of the main loop. The loop owns the world, the table of
//! pending requests and the subscriptions. It is handed one event at a time and
//! answers with the actions to perform: messages for the client, requests for
//! the pool to work on, libraries to index, diagnostics to publish.

use crate::ids::FileId;
use crate::messages::{
    ClientMessage, ClientMessageView, Notification, RawMessage, RawRequest, RawResponse,
    RawResponseView, Task, TaskView, METHOD_NOT_FOUND, REQUEST_CANCELLED,
};
use crate::pending::{pending_step, PendingOp, PendingRequests, PendingTrace};
use crate::req::{accepts, is_shutdown, kind_at, kind_from, kind_of, shutdown_method, RequestKind, KIND_COUNT};
use crate::server_world::{collect, LibraryRoot, ServerWorldState, ServerWorldView};
use crate::subscriptions::Subscriptions;
use crate::vfs::VfsTask;
use crate::world::{Analysis, LibraryData, LibraryView, WorldView};
use vstd::prelude::*;
use vstd::string::*;

verus! {

/// A request that was accepted, for a task of the pool to work on.
pub struct Dispatch {
    pub id: u64,
    pub kind: RequestKind,
    pub params: String,
    pub snapshot: Analysis,
}

/// What the main loop asks to be done.
pub enum Action {
    /// Send a message to the client.
    Send(ClientMessage),
    /// Run the handler of a request on the pool, on the snapshot given.
    Dispatch(Dispatch),
    /// Index a library on the pool.
    IndexLibrary(LibraryRoot),
    /// Compute and publish the diagnostics of the subscribed files on the pool.
    UpdateNotifications { snapshot: Analysis, publish_decorations: bool, subscriptions: Vec<FileId> },
    /// The world has moved on: set the cancel token of every snapshot whose
    /// version is below `before`.
    CancelSnapshots { before: u64 },
}

/// An action, with its strings as sequences and its snapshot as the world it
/// shows.
pub enum ActionView {
    Send(ClientMessageView),
    Dispatch { id: u64, kind: RequestKind, params: Seq<char>, snapshot: WorldView },
    IndexLibrary(LibraryView),
    UpdateNotifications { snapshot: WorldView, publish_decorations: bool, subscriptions: Set<u32> },
    CancelSnapshots { before: nat },
}

impl View for Dispatch {
    type V = ActionView;

    open spec fn view(&self) -> ActionView {
        ActionView::Dispatch {
            id: self.id,
            kind: self.kind,
            params: self.params@,
            snapshot: self.snapshot@,
        }
    }
}

impl View for Action {
    type V = ActionView;

    open spec fn view(&self) -> ActionView {
        match *self {
            Action::Send(m) => ActionView::Send(m@),
            Action::Dispatch(d) => d@,
            Action::IndexLibrary(l) => ActionView::IndexLibrary(l@),
            Action::UpdateNotifications {
                snapshot,
                publish_decorations,
                subscriptions,
            } => ActionView::UpdateNotifications {
                snapshot: snapshot@,
                publish_decorations,
                subscriptions: subscriptions@.map_values(|f: FileId| f.0).to_set(),
            },
            Action::CancelSnapshots { before } => ActionView::CancelSnapshots {
                before: before as nat,
            },
        }
    }
}

/// The actions of a list, each as its view.
pub open spec fn action_views(actions: Seq<Action>) -> Seq<ActionView> {
    actions.map_values(|a: Action| a@)
}

/// Why the loop ends without a shutdown.
#[derive(Debug, Clone, Copy, PartialEq, Eq, Structural)]
pub enum LoopError {
    /// The client closed its channel without asking for shutdown.
    ClientExited,
    /// The file watcher closed its channel.
    VfsDied,
}

impl LoopError {
    /// The text that describes the error.
    pub fn message(&self) -> (text: &'static str)
        ensures
            text@ == match *self {
                LoopError::ClientExited => "client exited without shutdown"@,
                LoopError::VfsDied => "vfs died"@,
            },
    {
        match self {
            LoopError::ClientExited => "client exited without shutdown",
            LoopError::VfsDied => "vfs died",
        }
    }
}

/// A notification that could not be acted on. It is logged, and the loop goes on.
pub enum Warning {
    /// The uri names no file.
    InvalidUri { uri: String },
    /// A change notification without a change.
    EmptyChanges,
}

/// A warning, with its string as a sequence.
pub enum WarningView {
    InvalidUri { uri: Seq<char> },
    EmptyChanges,
}

impl View for Warning {
    type V = WarningView;

    open spec fn view(&self) -> WarningView {
        match *self {
            Warning::InvalidUri { uri } => WarningView::InvalidUri { uri: uri@ },
            Warning::EmptyChanges => WarningView::EmptyChanges,
        }
    }
}

impl Warning {
    /// The text that describes the warning.
    pub fn message(&self) -> (text: String)
        ensures
            text@ == match *self {
                Warning::InvalidUri { uri } => "invalid uri: "@ + uri@,
                Warning::EmptyChanges => "empty changes"@,
            },
    {
        match self {
            Warning::InvalidUri { uri } => {
                let mut text = String::from_str("invalid uri: ");
                text.append(uri.as_str());
                text
            },
            Warning::EmptyChanges => String::from_str("empty changes"),
        }
    }
}

/// What reaches the main loop.
pub enum Event {
    /// A message of the client.
    Msg(RawMessage),
    /// Something a task of the pool handed back.
    Task(Task),
    /// A root was scanned.
    Vfs(VfsTask),
    /// A library was indexed.
    Lib(LibraryData),
    /// The client closed its channel.
    ClientClosed,
    /// The file watcher closed its channel.
    VfsClosed,
}

/// What the main loop holds.
pub struct MainLoopView {
    /// Whether milestones are reported to the client.
    pub internal_mode: bool,
    /// Whether decorations are published along with diagnostics.
    pub publish_decorations: bool,
    /// The world and the overlay tracker.
    pub world: ServerWorldView,
    /// The ids of the requests that await a response.
    pub pending: Set<u64>,
    /// The subscribed files.
    pub subs: Set<u32>,
    /// Whether the client has asked for shutdown.
    pub shutdown: bool,
}

/// What one event leads to.
pub struct StepView {
    /// The state after the event.
    pub next: MainLoopView,
    /// The actions to perform, in order.
    pub actions: Seq<ActionView>,
    /// A notification that could not be acted on.
    pub warning: Option<WarningView>,
    /// The error that ends the loop.
    pub fatal: Option<LoopError>,
}

/// The response that tells the client that it canceled a request.
pub open spec fn canceled_response(id: u64) -> ActionView {
    ActionView::Send(
        ClientMessageView::Response(
            RawResponseView::err(id, REQUEST_CANCELLED, "canceled by client"@),
        ),
    )
}

/// The response to a request of an unknown method.
pub open spec fn unknown_response(id: u64) -> ActionView {
    ActionView::Send(
        ClientMessageView::Response(RawResponseView::err(id, METHOD_NOT_FOUND, "unknown request"@)),
    )
}

/// The response to the shutdown request.
pub open spec fn shutdown_response(id: u64) -> ActionView {
    ActionView::Send(ClientMessageView::Response(RawResponseView::ok(id, "null"@)))
}

/// The report of a milestone.
pub open spec fn feedback_action(message: Seq<char>) -> ActionView {
    ActionView::Send(ClientMessageView::InternalFeedback { message })
}

/// The report of a milestone, where milestones are reported at all.
pub open spec fn feedback_spec(internal_mode: bool, message: Seq<char>) -> Seq<ActionView> {
    if internal_mode {
        seq![feedback_action(message)]
    } else {
        Seq::empty()
    }
}

/// What a task's message leads to: a response goes to the client only if its
/// id is pending, and then the id is pending no longer; a notification goes to
/// the client as it is.
pub open spec fn task_spec(pending: Set<u64>, task: TaskView) -> (Set<u64>, Seq<ActionView>) {
    match task {
        TaskView::Respond(r) => (
            pending.remove(r.id),
            if pending.contains(r.id) {
                seq![ActionView::Send(ClientMessageView::Response(r))]
            } else {
                Seq::empty()
            },
        ),
        TaskView::Notify(n) => (
            pending,
            seq![ActionView::Send(ClientMessageView::Notification(n))],
        ),
    }
}

impl MainLoopView {
    /// The state at start: an empty world, no request pending, no file
    /// subscribed.
    pub open spec fn start(internal_mode: bool, publish_decorations: bool, roots_to_scan: nat) -> MainLoopView {
        MainLoopView {
            internal_mode,
            publish_decorations,
            world: ServerWorldView {
                roots_to_scan,
                world: WorldView::empty(),
                vfs: crate::vfs::VfsView::empty(),
            },
            pending: Set::empty(),
            subs: Set::empty(),
            shutdown: false,
        }
    }

    /// The state with nothing changed, and nothing to do.
    pub open spec fn idle(self) -> StepView {
        StepView { next: self, actions: Seq::empty(), warning: None, fatal: None }
    }

    /// What follows every change of state: the recorded changes go to the
    /// world; each library root found is handed out for indexing; where no
    /// root is outstanding the milestone is reported; and the diagnostics of
    /// the subscribed files are computed on a snapshot of the new world.
    pub open spec fn settle(self, before: Seq<ActionView>) -> StepView {
        let world = self.world.processed();
        let libs = if self.world.vfs.pending.len() == 0 {
            Seq::<LibraryView>::empty()
        } else {
            collect(self.world.vfs.pending).libs
        };
        StepView {
            next: MainLoopView { world, ..self },
            actions: before + libs.map_values(|l: LibraryView| ActionView::IndexLibrary(l))
                + (if world.roots_to_scan == 0 {
                feedback_spec(self.internal_mode, "workspace loaded"@)
            } else {
                Seq::empty()
            }) + seq![
                ActionView::UpdateNotifications {
                    snapshot: world.world,
                    publish_decorations: self.publish_decorations,
                    subscriptions: self.subs,
                },
            ],
            warning: None,
            fatal: None,
        }
    }

    /// What a request leads to: the shutdown request is answered and ends the
    /// session; a request of a known method is entered as pending and handed
    /// out with a snapshot of the world; any other is answered with *method
    /// not found*.
    pub open spec fn on_request(self, req: RawRequest) -> StepView {
        if req.method@ == shutdown_method() {
            StepView {
                next: MainLoopView { shutdown: true, ..self },
                actions: seq![shutdown_response(req.id)],
                warning: None,
                fatal: None,
            }
        } else {
            match kind_of(req.method@) {
                Some(kind) => StepView {
                    next: MainLoopView { pending: self.pending.insert(req.id), ..self },
                    actions: seq![
                        ActionView::Dispatch {
                            id: req.id,
                            kind,
                            params: req.params@,
                            snapshot: self.world.world,
                        },
                    ],
                    warning: None,
                    fatal: None,
                },
                None => StepView { actions: seq![unknown_response(req.id)], ..self.idle() },
            }
        }
    }

    /// A warning, with nothing changed.
    pub open spec fn warn(self, warning: WarningView) -> StepView {
        StepView { warning: Some(warning), ..self.idle() }
    }

    /// What a notification leads to.
    pub open spec fn on_notification(self, not: Notification) -> StepView {
        match not {
            Notification::Cancel { id } => if self.pending.contains(id) {
                StepView {
                    next: MainLoopView { pending: self.pending.remove(id), ..self },
                    actions: seq![canceled_response(id)],
                    warning: None,
                    fatal: None,
                }
            } else {
                self.idle()
            },
            Notification::DidOpenTextDocument { uri, path, text } => match path {
                None => self.warn(WarningView::InvalidUri { uri: uri@ }),
                Some(p) => {
                    let (vfs, opened) = self.world.vfs.opened(p@, text@);
                    MainLoopView {
                        world: ServerWorldView { vfs, ..self.world },
                        subs: match opened {
                            Some(file_id) => self.subs.insert(file_id.0),
                            None => self.subs,
                        },
                        ..self
                    }.settle(Seq::empty())
                },
            },
            Notification::DidChangeTextDocument { uri, path, content_changes } => match path {
                None => self.warn(WarningView::InvalidUri { uri: uri@ }),
                Some(p) => if content_changes@.len() == 0 {
                    self.warn(WarningView::EmptyChanges)
                } else {
                    MainLoopView {
                        world: ServerWorldView {
                            vfs: self.world.vfs.changed(p@, content_changes@.last()@),
                            ..self.world
                        },
                        ..self
                    }.settle(Seq::empty())
                },
            },
            Notification::DidCloseTextDocument { uri, path } => match path {
                None => self.warn(WarningView::InvalidUri { uri: uri@ }),
                Some(p) => MainLoopView {
                    world: ServerWorldView { vfs: self.world.vfs.closed(p@), ..self.world },
                    subs: match self.world.vfs.open_file(p@) {
                        Some(file_id) => self.subs.remove(file_id.0),
                        None => self.subs,
                    },
                    ..self
                }.settle(
                    seq![ActionView::Send(ClientMessageView::PublishDiagnostics { uri: uri@ })],
                ),
            },
            Notification::Unhandled { method } => self.idle(),
        }
    }

    /// What an event leads to: the reaction to the event, and, where the world
    /// has moved on, ahead of everything else the cancellation of the
    /// snapshots taken before.
    pub open spec fn step(self, event: Event) -> StepView {
        let r = self.react(event);
        if r.next.world.world.version != self.world.world.version {
            StepView {
                actions: seq![
                    ActionView::CancelSnapshots { before: r.next.world.world.version },
                ] + r.actions,
                ..r
            }
        } else {
            r
        }
    }

    /// The reaction to an event. Once the client has asked for shutdown, only
    /// what the tasks hand back is still taken in.
    pub open spec fn react(self, event: Event) -> StepView {
        if self.shutdown {
            match event {
                Event::Task(task) => StepView {
                    next: MainLoopView { pending: task_spec(self.pending, task@).0, ..self },
                    actions: task_spec(self.pending, task@).1,
                    warning: None,
                    fatal: None,
                },
                _ => self.idle(),
            }
        } else {
            match event {
                Event::ClientClosed => StepView {
                    fatal: Some(LoopError::ClientExited),
                    ..self.idle()
                },
                Event::VfsClosed => StepView { fatal: Some(LoopError::VfsDied), ..self.idle() },
                Event::Task(task) => StepView {
                    next: MainLoopView { pending: task_spec(self.pending, task@).0, ..self },
                    actions: task_spec(self.pending, task@).1,
                    warning: None,
                    fatal: None,
                },
                Event::Vfs(task) => MainLoopView {
                    world: ServerWorldView { vfs: self.world.vfs.handled(task), ..self.world },
                    ..self
                }.settle(Seq::empty()),
                Event::Lib(data) => MainLoopView {
                    world: self.world.with_lib(data@),
                    ..self
                }.settle(feedback_spec(self.internal_mode, "library loaded"@)),
                Event::Msg(RawMessage::Request(req)) => self.on_request(req),
                Event::Msg(RawMessage::Notification(not)) => self.on_notification(not),
                Event::Msg(RawMessage::Response(resp)) => self.idle(),
            }
        }
    }

    /// Whether the loop can take the event: the version of the world and the
    /// file ids have room for what the event brings, and an accepted request
    /// has a new id.
    pub open spec fn admits(self, event: Event) -> bool {
        self.shutdown || match event {
            Event::Vfs(task) => self.world.world.version < u64::MAX
                && self.world.vfs.registry.next_id + task.files@.len() < u32::MAX,
            Event::Lib(data) => self.world.world.version + 1 < u64::MAX,
            Event::Msg(RawMessage::Request(req)) => req.method@ == shutdown_method() || kind_of(
                req.method@,
            ) is None || !self.pending.contains(req.id),
            Event::Msg(RawMessage::Notification(not)) => match not {
                Notification::DidOpenTextDocument { uri, path, text } => match path {
                    Some(p) => self.world.world.version < u64::MAX
                        && self.world.vfs.registry.has_room_for(p@),
                    None => true,
                },
                Notification::DidChangeTextDocument { .. } => self.world.world.version < u64::MAX,
                Notification::DidCloseTextDocument { .. } => self.world.world.version < u64::MAX,
                _ => true,
            },
            _ => true,
        }
    }
}

/// The chain of attempts that finds the kind of a request: the request is held
/// against one kind after the other until one accepts it.
pub struct PoolDispatcher {
    req: Option<RawRequest>,
    res: Option<Dispatch>,
}

impl PoolDispatcher {
    /// Exactly one of the two is there: the request, not accepted yet, or the
    /// work that it was accepted as.
    pub closed spec fn wf(&self) -> bool {
        self.req is Some <==> self.res is None
    }

    /// The request, while no kind has accepted it.
    pub closed spec fn waiting(&self) -> Option<RawRequest> {
        self.req
    }

    /// The work that the request was accepted as.
    pub closed spec fn accepted(&self) -> Option<Dispatch> {
        self.res
    }

    /// Starts the chain for a request.
    pub fn new(req: RawRequest) -> (d: PoolDispatcher)
        ensures
            d.wf(),
            d.waiting() == Some(req),
            d.accepted() is None,
    {
        PoolDispatcher { req: Some(req), res: None }
    }

    /// Holds the request against one kind. If no kind has accepted it yet and
    /// its method is that of `kind`, it is accepted: a snapshot of the world is
    /// taken for the handler. Otherwise nothing changes.
    pub fn on(&mut self, kind: RequestKind, world: &ServerWorldState)
        requires
            old(self).wf(),
        ensures
            final(self).wf(),
            match old(self).waiting() {
                Some(req) => if req.method@ == kind.method_spec() {
                    &&& final(self).waiting() is None
                    &&& final(self).accepted() matches Some(d) && d@ == (ActionView::Dispatch {
                        id: req.id,
                        kind,
                        params: req.params@,
                        snapshot: world@.world,
                    })
                } else {
                    &&& final(self).waiting() == Some(req)
                    &&& final(self).accepted() is None
                },
                None => *final(self) == *old(self),
            },
    {
        let req = match self.req.take() {
            None => {
                return ;
            },
            Some(req) => req,
        };
        if accepts(kind, req.method.as_str()) {
            let snapshot = world.snapshot();
            self.res = Some(Dispatch { id: req.id, kind, params: req.params, snapshot });
        } else {
            self.req = Some(req);
        }
    }

    /// Ends the chain: the work that the request was accepted as, or the
    /// request itself where no kind accepted it.
    pub fn finish(self) -> (res: Result<Dispatch, RawRequest>)
        requires
            self.wf(),
        ensures
            match res {
                Ok(d) => self.accepted() == Some(d),
                Err(req) => self.waiting() == Some(req),
            },
    {
        match self.res {
            Some(d) => Ok(d),
            None => Err(self.req.unwrap()),
        }
    }
}

/// Takes in what a task handed back. A response is passed on to the client
/// only if its id is still pending, and the id is pending no longer; a response
/// for any other id is dropped. A notification is passed on as it is.
pub fn on_task(task: Task, pending_requests: &mut PendingRequests) -> (out: Option<ClientMessage>)
    ensures
        final(pending_requests)@ == task_spec(old(pending_requests)@, task@).0,
        match out {
            Some(m) => task_spec(old(pending_requests)@, task@).1 == seq![ActionView::Send(m@)],
            None => task_spec(old(pending_requests)@, task@).1 == Seq::<ActionView>::empty(),
        },
{
    match task {
        Task::Respond(response) => {
            if pending_requests.remove(response.id) {
                Some(ClientMessage::Response(response))
            } else {
                None
            }
        },
        Task::Notify(n) => {
            Some(ClientMessage::Notification(n))
        },
    }
}

/// Finds the kind of a request and accepts it: its id is entered as pending,
/// so that a later cancellation can suppress the response. A request of an
/// unknown method is handed back.
#[verifier::rlimit(60)]
pub fn on_request(
    world: &ServerWorldState,
    pending_requests: &mut PendingRequests,
    req: RawRequest,
) -> (res: Result<Dispatch, RawRequest>)
    requires
        kind_of(req.method@) is Some ==> !old(pending_requests)@.contains(req.id),
    ensures
        match kind_of(req.method@) {
            Some(kind) => {
                &&& res matches Ok(d) && d@ == (ActionView::Dispatch {
                    id: req.id,
                    kind,
                    params: req.params@,
                    snapshot: world@.world,
                })
                &&& final(pending_requests)@ == old(pending_requests)@.insert(req.id)
            },
            None => {
                &&& res == Err::<Dispatch, RawRequest>(req)
                &&& final(pending_requests)@ == old(pending_requests)@
            },
        },
{
    let mut pool_dispatcher = PoolDispatcher::new(req);
    let mut index: usize = 0;
    while index < KIND_COUNT
        invariant
            index <= KIND_COUNT,
            pool_dispatcher.wf(),
            match pool_dispatcher.waiting() {
                Some(r) => r == req && kind_of(req.method@) == kind_from(req.method@, index as int),
                None => pool_dispatcher.accepted() matches Some(d) && kind_of(req.method@)
                    matches Some(kind) && d@ == (ActionView::Dispatch {
                    id: req.id,
                    kind,
                    params: req.params@,
                    snapshot: world@.world,
                }),
            },
        decreases KIND_COUNT - index,
    {
        let kind = RequestKind::at(index);
        proof {
            assert(kind_at(index as int) == kind);
        }
        pool_dispatcher.on(kind, world);
        index = index + 1;
    }
    match pool_dispatcher.finish() {
        Ok(d) => {
            pending_requests.insert(d.id);
            Ok(d)
        },
        Err(req) => Err(req),
    }
}

/// The milestone message for the client, where milestones are reported.
pub fn feedback(internal_mode: bool, msg: &str) -> (out: Option<ClientMessage>)
    ensures
        match out {
            Some(m) => feedback_spec(internal_mode, msg@) == seq![ActionView::Send(m@)],
            None => feedback_spec(internal_mode, msg@) == Seq::<ActionView>::empty(),
        },
{
    if !internal_mode {
        return None;
    }
    Some(ClientMessage::InternalFeedback { message: msg.to_owned() })
}

fn push_action(actions: &mut Vec<Action>, action: Action)
    ensures
        action_views(final(actions)@) == action_views(old(actions)@).push(action@),
        final(actions)@ == old(actions)@.push(action),
{
    actions.push(action);
    assert(action_views(actions@) =~= action_views(old(actions)@).push(action@));
}

fn push_message(actions: &mut Vec<Action>, message: Option<ClientMessage>)
    ensures
        action_views(final(actions)@) == action_views(old(actions)@) + match message {
            Some(m) => seq![ActionView::Send(m@)],
            None => Seq::<ActionView>::empty(),
        },
        subscriptions_distinct(old(actions)@) ==> subscriptions_distinct(final(actions)@),
{
    match message {
        Some(m) => {
            push_action(actions, Action::Send(m));
            assert(action_views(old(actions)@).push(ActionView::Send(m@)) =~= action_views(
                old(actions)@,
            ) + seq![ActionView::Send(m@)]);
        },
        None => {
            assert(action_views(old(actions)@) + Seq::<ActionView>::empty() =~= action_views(
                old(actions)@,
            ));
        },
    }
}

/// No list of subscribed files among the actions names a file twice.
pub open spec fn subscriptions_distinct(actions: Seq<Action>) -> bool {
    forall|i: int|
        0 <= i < actions.len() ==> (#[trigger] actions[i] matches Action::UpdateNotifications {
            subscriptions,
            ..
        } ==> subscriptions@.no_duplicates())
}

/// What one event led to.
pub struct Turn {
    /// Whether the client has asked for shutdown.
    pub done: bool,
    /// The actions to perform, in order.
    pub actions: Vec<Action>,
    /// A notification that could not be acted on.
    pub warning: Option<Warning>,
}

/// The main loop's state.
pub struct MainLoop {
    internal_mode: bool,
    publish_decorations: bool,
    state: ServerWorldState,
    pending_requests: PendingRequests,
    subs: Subscriptions,
    shutdown: bool,
}

impl View for MainLoop {
    type V = MainLoopView;

    closed spec fn view(&self) -> MainLoopView {
        MainLoopView {
            internal_mode: self.internal_mode,
            publish_decorations: self.publish_decorations,
            world: self.state@,
            pending: self.pending_requests@,
            subs: self.subs@,
            shutdown: self.shutdown,
        }
    }
}

impl MainLoop {
    /// The invariant of the loop's state: that of the overlay tracker.
    pub open spec fn wf(&self) -> bool {
        self@.world.vfs.wf()
    }

    /// The state at start: an empty world, `roots_to_scan` roots handed to the
    /// scanner, no request pending, no file subscribed.
    pub fn new(internal_mode: bool, publish_decorations: bool, roots_to_scan: usize) -> (m:
        MainLoop)
        ensures
            m.wf(),
            m@ == MainLoopView::start(internal_mode, publish_decorations, roots_to_scan as nat),
            m@.in_step(),
    {
        MainLoop {
            internal_mode,
            publish_decorations,
            state: ServerWorldState::new(roots_to_scan),
            pending_requests: PendingRequests::new(),
            subs: Subscriptions::new(),
            shutdown: false,
        }
    }

    /// Whether the client has asked for shutdown.
    pub fn is_shutdown(&self) -> (res: bool)
        ensures
            res == self@.shutdown,
    {
        self.shutdown
    }

    /// Whether a response is still expected for the id.
    pub fn is_pending(&self, id: u64) -> (res: bool)
        ensures
            res == self@.pending.contains(id),
    {
        self.pending_requests.contains(id)
    }

    /// Tells whether a library holds no file that the tracker holds as a
    /// file of the workspace.
    pub fn is_apart(&self, data: &LibraryData) -> (res: bool)
        requires
            self.wf(),
        ensures
            res == crate::sync::apart(self@.world.vfs, data@.files),
    {
        let mut i: usize = 0;
        while i < data.files.len()
            invariant
                i <= data.files.len(),
                self.wf(),
                forall|k: int|
                    0 <= k < i ==> !(self@.world.vfs.registry.roots.contains_key(
                        (#[trigger] data@.files[k]).file_id.0,
                    ) && self@.world.vfs.registry.roots[data@.files[k].file_id.0]
                        == crate::path_map::Root::Workspace),
            decreases data.files.len() - i,
        {
            let file_id = data.files[i].file_id;
            proof {
                assert(data@.files[i as int].file_id == file_id);
            }
            match self.state.vfs.root_of(file_id) {
                Some(crate::path_map::Root::Workspace) => {
                    return false;
                },
                _ => {},
            }
            i = i + 1;
        }
        true
    }

    /// A snapshot of the world as it is now.
    pub fn snapshot(&self) -> (snapshot: Analysis)
        ensures
            snapshot@ == self@.world.world,
    {
        self.state.snapshot()
    }

    /// Tells whether the loop can take the event.
    pub fn can_take(&self, event: &Event) -> (res: bool)
        requires
            self.wf(),
        ensures
            res == self@.admits(*event),
    {
        if self.shutdown {
            return true;
        }
        let version = self.state.analysis_host.version();
        match event {
            Event::Vfs(task) => version < u64::MAX && task.files.len() < self.state.vfs.room() as usize,
            Event::Lib(_) => version < u64::MAX - 1,
            Event::Msg(RawMessage::Request(req)) => {
                if is_shutdown(req.method.as_str()) {
                    true
                } else {
                    match crate::req::request_kind(req.method.as_str()) {
                        None => true,
                        Some(_) => !self.pending_requests.contains(req.id),
                    }
                }
            },
            Event::Msg(RawMessage::Notification(not)) => match not {
                Notification::DidOpenTextDocument { uri, path, text } => match path {
                    Some(p) => version < u64::MAX && (self.state.vfs.file_id(p.as_str()).is_some()
                        || self.state.vfs.room() > 0),
                    None => true,
                },
                Notification::DidChangeTextDocument { .. } => version < u64::MAX,
                Notification::DidCloseTextDocument { .. } => version < u64::MAX,
                _ => true,
            },
            _ => true,
        }
    }

    /// What follows every change of state.
    #[verifier::rlimit(60)]
    fn settle(&mut self, actions: &mut Vec<Action>)
        requires
            old(self).wf(),
            !old(self)@.shutdown,
            old(self)@.world.world.version < u64::MAX,
            subscriptions_distinct(old(actions)@),
        ensures
            final(self).wf(),
            final(self)@ == old(self)@.settle(action_views(old(actions)@)).next,
            action_views(final(actions)@) == old(self)@.settle(action_views(old(actions)@)).actions,
            subscriptions_distinct(final(actions)@),
    {
        let ghost start = action_views(actions@);
        let libs = self.state.process_changes();
        let ghost lib_views = libs@.map_values(|l: LibraryRoot| l@);
        let ghost lib_actions = lib_views.map_values(|l: LibraryView| ActionView::IndexLibrary(l));
        let mut libs = libs;
        let mut taken: usize = 0;
        let count = libs.len();
        assert(start + lib_actions.take(0) =~= start);
        while taken < count
            invariant
                taken <= count,
                count == lib_views.len(),
                libs@.len() == count - taken,
                forall|k: int|
                    0 <= k < libs@.len() ==> (#[trigger] libs@[k])@ == lib_views[taken + k],
                lib_actions == lib_views.map_values(|l: LibraryView| ActionView::IndexLibrary(l)),
                action_views(actions@) == start + lib_actions.take(taken as int),
                subscriptions_distinct(actions@),
            decreases count - taken,
        {
            let ghost rest = libs@;
            let lib = libs.remove(0);
            let ghost before = actions@;
            push_action(actions, Action::IndexLibrary(lib));
            proof {
                assert(lib == rest[0]);
                assert(lib@ == lib_views[taken as int]);
                assert forall|k: int| 0 <= k < libs@.len() implies (#[trigger] libs@[k])@
                    == lib_views[taken + 1 + k] by {
                    assert(libs@[k] == rest[k + 1]);
                }
                assert(start + lib_actions.take(taken + 1) =~= (start + lib_actions.take(
                    taken as int,
                )).push(lib_actions[taken as int]));
                assert forall|i: int| 0 <= i < actions@.len() implies (
                #[trigger] actions@[i] matches Action::UpdateNotifications { subscriptions, .. }
                    ==> subscriptions@.no_duplicates()) by {
                    if i < before.len() {
                        assert(actions@[i] == before[i]);
                    }
                }
            }
            taken = taken + 1;
        }
        proof {
            assert(lib_actions.take(count as int) =~= lib_actions);
        }
        if self.state.roots_to_scan == 0 {
            push_message(actions, feedback(self.internal_mode, "workspace loaded"));
        } else {
            assert(action_views(actions@) + Seq::<ActionView>::empty() =~= action_views(actions@));
        }
        let snapshot = self.state.snapshot();
        let subscriptions = self.subs.subscriptions();
        proof {
            let ids = subscriptions@.map_values(|f: FileId| f.0);
            assert forall|x: u32| ids.to_set().contains(x) <==> self.subs@.contains(x) by {
                if ids.to_set().contains(x) {
                    let k = choose|k: int| 0 <= k < ids.len() && ids[k] == x;
                    assert(subscriptions@.contains(subscriptions@[k]));
                }
                if self.subs@.contains(x) {
                    assert(subscriptions@.contains(FileId(x)));
                    let k = choose|k: int|
                        0 <= k < subscriptions@.len() && subscriptions@[k] == FileId(x);
                    assert(ids[k] == x);
                }
            }
            assert(ids.to_set() =~= self.subs@);
        }
        let ghost before = actions@;
        let ghost before_views = action_views(actions@);
        push_action(
            actions,
            Action::UpdateNotifications {
                snapshot,
                publish_decorations: self.publish_decorations,
                subscriptions,
            },
        );
        proof {
            assert(action_views(actions@) =~= before_views + seq![actions@.last()@]);
            assert forall|i: int| 0 <= i < actions@.len() implies (
            #[trigger] actions@[i] matches Action::UpdateNotifications { subscriptions, .. }
                ==> subscriptions@.no_duplicates()) by {
                if i < before.len() {
                    assert(actions@[i] == before[i]);
                }
            }
        }
    }

    /// Acts on a notification of the client.
    #[verifier::rlimit(60)]
    fn on_notification(&mut self, not: Notification, actions: &mut Vec<Action>) -> (warning: Option<
        Warning,
    >)
        requires
            old(self).wf(),
            !old(self)@.shutdown,
            old(self)@.admits(Event::Msg(RawMessage::Notification(not))),
            old(actions)@.len() == 0,
        ensures
            final(self).wf(),
            final(self)@ == old(self)@.on_notification(not).next,
            action_views(final(actions)@) == old(self)@.on_notification(not).actions,
            subscriptions_distinct(final(actions)@),
            match warning {
                Some(w) => old(self)@.on_notification(not).warning == Some(w@),
                None => old(self)@.on_notification(not).warning is None,
            },
    {
        assert(action_views(actions@) =~= Seq::<ActionView>::empty());
        match not {
            Notification::Cancel { id } => {
                if self.pending_requests.remove(id) {
                    let response = RawResponse::err(
                        id,
                        REQUEST_CANCELLED,
                        String::from_str("canceled by client"),
                    );
                    push_action(actions, Action::Send(ClientMessage::Response(response)));
                    assert(action_views(actions@) =~= seq![canceled_response(id)]);
                } else {
                    assert(self.pending_requests@ =~= old(self).pending_requests@);
                }
                None
            },
            Notification::DidOpenTextDocument { uri, path, text } => {
                let path = match path {
                    Some(path) => path,
                    None => {
                        return Some(Warning::InvalidUri { uri });
                    },
                };
                if let Some(file_id) = self.state.vfs.add_file_overlay(path.as_str(), text) {
                    self.subs.add_sub(file_id);
                }
                self.settle(actions);
                None
            },
            Notification::DidChangeTextDocument { uri, path, content_changes } => {
                let path = match path {
                    Some(path) => path,
                    None => {
                        return Some(Warning::InvalidUri { uri });
                    },
                };
                let mut content_changes = content_changes;
                let text = match content_changes.pop() {
                    Some(text) => text,
                    None => {
                        return Some(Warning::EmptyChanges);
                    },
                };
                self.state.vfs.change_file_overlay(path.as_str(), text);
                self.settle(actions);
                None
            },
            Notification::DidCloseTextDocument { uri, path } => {
                let path = match path {
                    Some(path) => path,
                    None => {
                        return Some(Warning::InvalidUri { uri });
                    },
                };
                if let Some(file_id) = self.state.vfs.remove_file_overlay(path.as_str()) {
                    self.subs.remove_sub(file_id);
                }
                push_action(actions, Action::Send(ClientMessage::PublishDiagnostics { uri }));
                assert(action_views(actions@) =~= seq![
                    ActionView::Send(ClientMessageView::PublishDiagnostics { uri: uri@ }),
                ]);
                self.settle(actions);
                None
            },
            Notification::Unhandled { method } => None,
        }
    }

    /// Takes in one event and says what is to be done. A closed channel of the
    /// client or of the file watcher ends the loop with an error; everything
    /// else leaves it running, or, after the shutdown request, draining.
    pub fn on_event(&mut self, event: Event) -> (res: Result<Turn, LoopError>)
        requires
            old(self).wf(),
            old(self)@.admits(event),
        ensures
            final(self).wf(),
            final(self)@ == old(self)@.step(event).next,
            match res {
                Ok(turn) => {
                    &&& old(self)@.step(event).fatal is None
                    &&& action_views(turn.actions@) == old(self)@.step(event).actions
                    &&& subscriptions_distinct(turn.actions@)
                    &&& turn.done == final(self)@.shutdown
                    &&& match turn.warning {
                        Some(w) => old(self)@.step(event).warning == Some(w@),
                        None => old(self)@.step(event).warning is None,
                    }
                },
                Err(e) => old(self)@.step(event).fatal == Some(e),
            },
            old(self)@.in_step() && old(self)@.keeps_apart(event) ==> final(self)@.in_step(),
    {
        proof {
            if self@.in_step() && self@.keeps_apart(event) {
                crate::sync::lemma_step_in_step(self@, event);
            }
        }
        let before = self.state.analysis_host.version();
        match self.react(event) {
            Ok(turn) => {
                let now = self.state.analysis_host.version();
                if now != before {
                    let Turn { done, actions, warning } = turn;
                    let mut actions = actions;
                    let ghost reaction = actions@;
                    actions.insert(0, Action::CancelSnapshots { before: now });
                    proof {
                        assert(action_views(actions@) =~= seq![
                            ActionView::CancelSnapshots { before: now as nat },
                        ] + action_views(reaction));
                        assert forall|i: int| 0 <= i < actions@.len() implies (
                        #[trigger] actions@[i] matches Action::UpdateNotifications {
                            subscriptions,
                            ..
                        } ==> subscriptions@.no_duplicates()) by {
                            if i > 0 {
                                assert(actions@[i] == reaction[i - 1]);
                            }
                        }
                    }
                    Ok(Turn { done, actions, warning })
                } else {
                    Ok(turn)
                }
            },
            Err(e) => Err(e),
        }
    }

    /// Reacts to one event.
    #[verifier::rlimit(60)]
    fn react(&mut self, event: Event) -> (res: Result<Turn, LoopError>)
        requires
            old(self).wf(),
            old(self)@.admits(event),
        ensures
            final(self).wf(),
            final(self)@ == old(self)@.react(event).next,
            match res {
                Ok(turn) => {
                    &&& old(self)@.react(event).fatal is None
                    &&& action_views(turn.actions@) == old(self)@.react(event).actions
                    &&& subscriptions_distinct(turn.actions@)
                    &&& turn.done == final(self)@.shutdown
                    &&& match turn.warning {
                        Some(w) => old(self)@.react(event).warning == Some(w@),
                        None => old(self)@.react(event).warning is None,
                    }
                },
                Err(e) => old(self)@.react(event).fatal == Some(e) && *final(self) == *old(self),
            },
    {
        let mut actions: Vec<Action> = Vec::new();
        let mut warning: Option<Warning> = None;
        assert(action_views(actions@) =~= Seq::<ActionView>::empty());
        if self.shutdown {
            match event {
                Event::Task(task) => {
                    push_message(&mut actions, on_task(task, &mut self.pending_requests));
                },
                _ => {},
            }
            return Ok(Turn { done: true, actions, warning });
        }
        match event {
            Event::ClientClosed => {
                return Err(LoopError::ClientExited);
            },
            Event::VfsClosed => {
                return Err(LoopError::VfsDied);
            },
            Event::Task(task) => {
                push_message(&mut actions, on_task(task, &mut self.pending_requests));
            },
            Event::Vfs(task) => {
                self.state.vfs.handle_task(task);
                self.settle(&mut actions);
            },
            Event::Lib(lib) => {
                push_message(&mut actions, feedback(self.internal_mode, "library loaded"));
                self.state.add_lib(lib);
                self.settle(&mut actions);
            },
            Event::Msg(msg) => match msg {
                RawMessage::Request(req) => {
                    if is_shutdown(req.method.as_str()) {
                        let response = RawResponse::ok(req.id, String::from_str("null"));
                        push_action(&mut actions, Action::Send(ClientMessage::Response(response)));
                        assert(action_views(actions@) =~= seq![shutdown_response(req.id)]);
                        self.shutdown = true;
                    } else {
                        match on_request(&self.state, &mut self.pending_requests, req) {
                            Ok(dispatch) => {
                                push_action(&mut actions, Action::Dispatch(dispatch));
                                assert(action_views(actions@) =~= seq![dispatch@]);
                            },
                            Err(req) => {
                                let response = RawResponse::err(
                                    req.id,
                                    METHOD_NOT_FOUND,
                                    String::from_str("unknown request"),
                                );
                                push_action(
                                    &mut actions,
                                    Action::Send(ClientMessage::Response(response)),
                                );
                                assert(action_views(actions@) =~= seq![unknown_response(req.id)]);
                            },
                        }
                    }
                },
                RawMessage::Notification(not) => {
                    warning = self.on_notification(not, &mut actions);
                },
                RawMessage::Response(resp) => {},
            },
        }
        Ok(Turn { done: self.shutdown, actions, warning })
    }
}

/// Once the client has asked for shutdown, a further request, the shutdown
/// request among them, changes nothing and is not answered again.
pub proof fn lemma_shutdown_idempotent(s: MainLoopView, req: RawRequest)
    requires
        s.shutdown,
    ensures
        s.step(Event::Msg(RawMessage::Request(req))).next == s,
        s.step(Event::Msg(RawMessage::Request(req))).actions.len() == 0,
{
}

/// Canceling a request that is not pending changes nothing and sends nothing.
pub proof fn lemma_cancel_unknown(s: MainLoopView, id: u64)
    requires
        !s.pending.contains(id),
    ensures
        s.step(Event::Msg(RawMessage::Notification(Notification::Cancel { id }))) == s.idle(),
{
}

/// Closing a file withdraws its diagnostics, whether or not the file was open,
/// and raises no warning and no error.
pub proof fn lemma_close_publishes(s: MainLoopView, uri: String, path: String)
    requires
        !s.shutdown,
    ensures
        ({
            let step = s.step(
                Event::Msg(
                    RawMessage::Notification(
                        Notification::DidCloseTextDocument { uri, path: Some(path) },
                    ),
                ),
            );
            &&& step.actions.contains(
                ActionView::Send(ClientMessageView::PublishDiagnostics { uri: uri@ }),
            )
            &&& step.warning is None
            &&& step.fatal is None
            &&& s.world.vfs.open_file(path@) is None ==> step.next.subs == s.subs
                && step.next.world.vfs.overlay == s.world.vfs.overlay
                && step.next.world.vfs.disk == s.world.vfs.disk
                && step.next.world.vfs.registry == s.world.vfs.registry
        }),
{
    let event = Event::Msg(
        RawMessage::Notification(Notification::DidCloseTextDocument { uri, path: Some(path) }),
    );
    let reaction = s.react(event);
    let step = s.step(event);
    let published = ActionView::Send(ClientMessageView::PublishDiagnostics { uri: uri@ });
    assert(reaction.actions[0] == published);
    if step.actions.len() == reaction.actions.len() {
        assert(step.actions[0] == published);
    } else {
        assert(step.actions[1] == reaction.actions[0]);
    }
}

/// Handing recorded changes to the world moves its version on by one.
pub proof fn lemma_settle_version(s: MainLoopView, before: Seq<ActionView>)
    ensures
        s.settle(before).next.world.world.version == if s.world.vfs.pending.len() > 0 {
            s.world.world.version + 1
        } else {
            s.world.world.version
        },
{
    crate::world::lemma_apply_version(s.world.world, s.world.world_change());
}

/// The version of the world never goes back. Whenever an event changes the
/// world, its version moves on, and the first thing the loop asks for is the
/// cancellation of every snapshot taken before: each of them has a version
/// below the new one.
#[verifier::rlimit(60)]
pub proof fn lemma_change_cancels(s: MainLoopView, event: Event)
    ensures
        s.step(event).next.world.world.version >= s.world.world.version,
        s.step(event).next.world.world != s.world.world ==> {
            &&& s.step(event).next.world.world.version > s.world.world.version
            &&& s.step(event).actions.len() > 0
            &&& s.step(event).actions[0] == ActionView::CancelSnapshots {
                before: s.step(event).next.world.world.version,
            }
        },
{
    if !s.shutdown {
        match event {
            Event::Vfs(task) => {
                let mid = MainLoopView {
                    world: ServerWorldView { vfs: s.world.vfs.handled(task), ..s.world },
                    ..s
                };
                lemma_settle_version(mid, Seq::empty());
            },
            Event::Lib(data) => {
                let mid = MainLoopView { world: s.world.with_lib(data@), ..s };
                crate::world::lemma_apply_version(
                    s.world.world,
                    crate::world::ChangeView {
                        libraries: seq![data@],
                        ..crate::world::ChangeView::empty()
                    },
                );
                lemma_settle_version(mid, feedback_spec(s.internal_mode, "library loaded"@));
            },
            Event::Msg(RawMessage::Notification(not)) => {
                match not {
                    Notification::DidOpenTextDocument { uri, path, text } => {
                        match path {
                            Some(p) => {
                                let (vfs, opened) = s.world.vfs.opened(p@, text@);
                                let mid = MainLoopView {
                                    world: ServerWorldView { vfs, ..s.world },
                                    subs: match opened {
                                        Some(file_id) => s.subs.insert(file_id.0),
                                        None => s.subs,
                                    },
                                    ..s
                                };
                                lemma_settle_version(mid, Seq::empty());
                            },
                            None => {},
                        }
                    },
                    Notification::DidChangeTextDocument { uri, path, content_changes } => {
                        match path {
                            Some(p) => {
                                if content_changes@.len() > 0 {
                                    let mid = MainLoopView {
                                        world: ServerWorldView {
                                            vfs: s.world.vfs.changed(p@, content_changes@.last()@),
                                            ..s.world
                                        },
                                        ..s
                                    };
                                    lemma_settle_version(mid, Seq::empty());
                                }
                            },
                            None => {},
                        }
                    },
                    Notification::DidCloseTextDocument { uri, path } => {
                        match path {
                            Some(p) => {
                                let mid = MainLoopView {
                                    world: ServerWorldView {
                                        vfs: s.world.vfs.closed(p@),
                                        ..s.world
                                    },
                                    subs: match s.world.vfs.open_file(p@) {
                                        Some(file_id) => s.subs.remove(file_id.0),
                                        None => s.subs,
                                    },
                                    ..s
                                };
                                lemma_settle_version(
                                    mid,
                                    seq![
                                        ActionView::Send(
                                            ClientMessageView::PublishDiagnostics { uri: uri@ },
                                        ),
                                    ],
                                );
                            },
                            None => {},
                        }
                    },
                    _ => {},
                }
            },
            _ => {},
        }
    }
}

/// What an event means for the table of pending requests, if anything.
pub open spec fn pending_op(s: MainLoopView, event: Event) -> Option<PendingOp> {
    match event {
        Event::Task(Task::Respond(r)) => Some(PendingOp::Respond(r.id)),
        Event::Msg(RawMessage::Notification(Notification::Cancel { id })) => if s.shutdown {
            None
        } else {
            Some(PendingOp::Cancel(id))
        },
        Event::Msg(RawMessage::Request(req)) => if !s.shutdown && req.method@ != shutdown_method()
            && kind_of(req.method@) is Some {
            Some(PendingOp::Accept(req.id))
        } else {
            None
        },
        _ => None,
    }
}

/// The responses among the actions that answer a pending request: those that
/// pass on what a task handed back, and those that tell of a cancellation.
pub open spec fn answers(s: MainLoopView, event: Event) -> Seq<u64> {
    match pending_op(s, event) {
        Some(PendingOp::Respond(id)) | Some(PendingOp::Cancel(id)) => if s.pending.contains(id) {
            seq![id]
        } else {
            Seq::empty()
        },
        _ => Seq::empty(),
    }
}

/// The main loop changes the table of pending requests only as the table's own
/// steps allow, and every step of the table that sends a response shows as
/// exactly one response among the actions of the loop. So what holds of every
/// run of the table holds of every run of the loop: no id is answered twice.
pub proof fn lemma_step_pending(s: MainLoopView, event: Event, sent: Seq<u64>)
    ensures
        match pending_op(s, event) {
            Some(op) => {
                &&& s.step(event).next.pending == pending_step(
                    PendingTrace { pending: s.pending, sent },
                    op,
                ).pending
                &&& sent + answers(s, event) == pending_step(
                    PendingTrace { pending: s.pending, sent },
                    op,
                ).sent
            },
            None => s.step(event).next.pending == s.pending,
        },
        forall|id: u64| #[trigger]
            answers(s, event).contains(id) ==> s.step(event).actions.len() == 1 && (s.step(
                event,
            ).actions[0] matches ActionView::Send(ClientMessageView::Response(r)) && r.id == id),
{
    match pending_op(s, event) {
        Some(PendingOp::Respond(id)) => {
            if s.pending.contains(id) {
                assert(sent + seq![id] =~= sent.push(id));
            } else {
                assert(sent + Seq::<u64>::empty() =~= sent);
                assert(s.pending.remove(id) =~= s.pending);
            }
        },
        Some(PendingOp::Cancel(id)) => {
            if s.pending.contains(id) {
                assert(sent + seq![id] =~= sent.push(id));
            } else {
                assert(sent + Seq::<u64>::empty() =~= sent);
            }
        },
        Some(PendingOp::Accept(id)) => {
            assert(sent + Seq::<u64>::empty() =~= sent);
        },
        None => {
            match event {
                Event::Task(Task::Notify(n)) => {},
                _ => {},
            }
        },
    }
}

} // verus!
