//! Sessions of games and tools.
use vstd::prelude::*;

use crate::config::{find_game, game_with_id, AppConfig, AppConfigView, ToolConfig};
use crate::games::{
    display_name_of, instance_app_id, local_data_dir, or_current, primary_app_id,
    redirect_candidates, umu_problem, user_config_dir, Game, GameKind, GameLauncherSource, GameView,
};
use crate::launch::{shell_quote_value, shell_quoted};
use crate::number::{
    decimal, decimal_string, parse_u32, parsed, signed_decimal, signed_decimal_string,
};
use crate::paths::{join, joined, path_same, same_path};
use crate::text::{concat2, concat3, is_listed, owned, same, trim, trimmed};

verus! {

// ── Sessions ────────────────────────────────────────────────────────────────

/// What a session runs.
#[derive(Clone, Copy, Debug, PartialEq, Eq, Structural)]
pub enum SessionKind {
    Game,
    Tool,
}

/// How a session stands.
#[derive(Clone, Copy, Debug, PartialEq, Eq, Structural)]
pub enum SessionStatus {
    Starting,
    Running,
    Exited,
    Failed,
    Killed,
}

/// Where a line of a session's log comes from.
#[derive(Clone, Copy, Debug, PartialEq, Eq, Structural)]
pub enum SessionStream {
    Stdout,
    Stderr,
}

/// How far a session is managed.
#[derive(Clone, Copy, Debug, PartialEq, Eq, Structural)]
pub enum SessionRunMode {
    FullyManaged,
}

/// A line of a session's log, with its time in milliseconds.
#[derive(Debug)]
pub struct SessionLogLine {
    pub stream: SessionStream,
    pub at: u64,
    pub message: String,
}

/// A [`SessionLogLine`] as a mathematical value.
#[verifier::ext_equal]
pub ghost struct SessionLogLineView {
    pub stream: SessionStream,
    pub at: u64,
    pub message: Seq<char>,
}

impl DeepView for SessionLogLine {
    type V = SessionLogLineView;

    open spec fn deep_view(&self) -> SessionLogLineView {
        SessionLogLineView { stream: self.stream, at: self.at, message: self.message@ }
    }
}

impl Clone for SessionLogLine {
    fn clone(&self) -> (r: Self)
        ensures
            r.deep_view() == self.deep_view(),
    {
        SessionLogLine {
            stream: self.stream,
            at: self.at,
            message: owned(self.message.as_str()),
        }
    }
}

/// A session of a game or a tool.
#[derive(Debug)]
pub struct ManagedSession {
    pub id: u64,
    pub kind: SessionKind,
    pub game_id: String,
    pub tool_id: Option<String>,
    pub launcher_source: GameLauncherSource,
    pub pid: Option<u32>,
    /// When the session was started, in milliseconds.
    pub started_at: u64,
    pub status: SessionStatus,
    pub exit_code: Option<i32>,
    pub run_mode: SessionRunMode,
    /// Where a tool's output is collected.
    pub scratch_dir: Option<String>,
}

/// A [`ManagedSession`] as a mathematical value.
#[verifier::ext_equal]
pub ghost struct ManagedSessionView {
    pub id: u64,
    pub kind: SessionKind,
    pub game_id: Seq<char>,
    pub tool_id: Option<Seq<char>>,
    pub launcher_source: GameLauncherSource,
    pub pid: Option<u32>,
    pub started_at: u64,
    pub status: SessionStatus,
    pub exit_code: Option<i32>,
    pub run_mode: SessionRunMode,
    pub scratch_dir: Option<Seq<char>>,
}

impl DeepView for ManagedSession {
    type V = ManagedSessionView;

    open spec fn deep_view(&self) -> ManagedSessionView {
        ManagedSessionView {
            id: self.id,
            kind: self.kind,
            game_id: self.game_id@,
            tool_id: self.tool_id.deep_view(),
            launcher_source: self.launcher_source,
            pid: self.pid,
            started_at: self.started_at,
            status: self.status,
            exit_code: self.exit_code,
            run_mode: self.run_mode,
            scratch_dir: self.scratch_dir.deep_view(),
        }
    }
}

fn copy_optional(s: &Option<String>) -> (r: Option<String>)
    ensures
        r.deep_view() == s.deep_view(),
{
    match s {
        Some(s) => Some(owned(s.as_str())),
        None => None,
    }
}

impl Clone for ManagedSession {
    fn clone(&self) -> (r: Self)
        ensures
            r.deep_view() == self.deep_view(),
    {
        ManagedSession {
            id: self.id,
            kind: self.kind,
            game_id: owned(self.game_id.as_str()),
            tool_id: copy_optional(&self.tool_id),
            launcher_source: self.launcher_source,
            pid: self.pid,
            started_at: self.started_at,
            status: self.status,
            exit_code: self.exit_code,
            run_mode: self.run_mode,
            scratch_dir: copy_optional(&self.scratch_dir),
        }
    }
}

/// The session has not ended.
pub open spec fn is_active(s: ManagedSessionView) -> bool {
    s.status == SessionStatus::Starting || s.status == SessionStatus::Running
}

fn has_not_ended(s: &ManagedSession) -> (r: bool)
    ensures
        r == is_active(s.deep_view()),
{
    matches!(s.status, SessionStatus::Starting | SessionStatus::Running)
}

/// How many lines of a session's log are kept.
pub const MAX_LOG_LINES: usize = 600;

/// The last lines of a log, as many as are kept.
pub open spec fn kept_lines(lines: Seq<SessionLogLineView>) -> Seq<SessionLogLineView> {
    if lines.len() > MAX_LOG_LINES {
        lines.skip(lines.len() - MAX_LOG_LINES)
    } else {
        lines
    }
}

struct SessionRecord {
    session: ManagedSession,
    logs: Vec<SessionLogLine>,
    stop_requested: bool,
}

/// What is known of a session.
#[verifier::ext_equal]
pub ghost struct SessionRecordView {
    pub session: ManagedSessionView,
    pub logs: Seq<SessionLogLineView>,
    pub stop_requested: bool,
}

impl DeepView for SessionRecord {
    type V = SessionRecordView;

    closed spec fn deep_view(&self) -> SessionRecordView {
        SessionRecordView {
            session: self.session.deep_view(),
            logs: self.logs.deep_view(),
            stop_requested: self.stop_requested,
        }
    }
}

/// What a session is started with.
pub struct SessionStart {
    pub kind: SessionKind,
    pub game_id: String,
    pub tool_id: Option<String>,
    pub launcher_source: GameLauncherSource,
    pub pid: Option<u32>,
    pub started_at: u64,
    pub scratch_dir: Option<String>,
}

/// A session that has just been started.
pub open spec fn started_session(id: u64, start: SessionStart) -> ManagedSessionView {
    ManagedSessionView {
        id,
        kind: start.kind,
        game_id: start.game_id@,
        tool_id: start.tool_id.deep_view(),
        launcher_source: start.launcher_source,
        pid: start.pid,
        started_at: start.started_at,
        status: SessionStatus::Running,
        exit_code: None,
        run_mode: SessionRunMode::FullyManaged,
        scratch_dir: start.scratch_dir.deep_view(),
    }
}

/// How the process of a session ended: its exit code, if it has one, and
/// whether that is success.
#[derive(Clone, Copy, Debug)]
pub struct ProcessEnd {
    pub code: Option<i32>,
    pub success: bool,
}

/// How a session stands after its process has ended, given whether what
/// followed it failed and whether it was to be stopped.
pub open spec fn end_status(end: ProcessEnd, follow_up_failed: bool, stopped: bool) ->
    SessionStatus {
    if follow_up_failed {
        SessionStatus::Failed
    } else if stopped {
        SessionStatus::Killed
    } else if end.success {
        SessionStatus::Exited
    } else {
        SessionStatus::Failed
    }
}

/// The index of the record of a session, or their number.
pub open spec fn record_index(records: Seq<SessionRecordView>, id: u64) -> int
    decreases records.len(),
{
    if records.len() == 0 || records[0].session.id == id {
        0
    } else {
        1 + record_index(records.skip(1), id)
    }
}

/// The first session that `f` holds of.
pub open spec fn first_session(
    records: Seq<SessionRecordView>,
    f: spec_fn(ManagedSessionView) -> bool,
) -> Option<ManagedSessionView>
    decreases records.len(),
{
    if records.len() == 0 {
        None
    } else if f(records[0].session) {
        Some(records[0].session)
    } else {
        first_session(records.skip(1), f)
    }
}

/// The session is the running one of a game.
pub open spec fn is_game_session(s: ManagedSessionView, game_id: Seq<char>) -> bool {
    s.kind == SessionKind::Game && s.game_id == game_id && is_active(s)
}

/// The session is the running one of a tool on a game.
pub open spec fn is_tool_session(
    s: ManagedSessionView,
    game_id: Seq<char>,
    tool_id: Seq<char>,
) -> bool {
    s.kind == SessionKind::Tool && s.game_id == game_id && s.tool_id == Some(tool_id) && is_active(
        s,
    )
}

/// The records with a line added to the log of a session.
pub open spec fn with_log(
    records: Seq<SessionRecordView>,
    id: u64,
    line: SessionLogLineView,
) -> Seq<SessionRecordView> {
    let i = record_index(records, id);
    if i < records.len() {
        records.update(
            i,
            SessionRecordView { logs: kept_lines(records[i].logs.push(line)), ..records[i] },
        )
    } else {
        records
    }
}

/// The records with a session's end.
pub open spec fn with_end(
    records: Seq<SessionRecordView>,
    id: u64,
    status: SessionStatus,
    code: Option<i32>,
) -> Seq<SessionRecordView> {
    let i = record_index(records, id);
    if i < records.len() {
        records.update(
            i,
            SessionRecordView {
                session: ManagedSessionView { status, exit_code: code, ..records[i].session },
                ..records[i]
            },
        )
    } else {
        records
    }
}

fn find_record(records: &Vec<SessionRecord>, id: u64) -> (r: usize)
    ensures
        r == record_index(records.deep_view(), id),
        r <= records@.len(),
{
    let ghost all = records.deep_view();
    let mut i: usize = 0;
    assert(all.skip(0) =~= all);
    while i < records.len()
        invariant
            all == records.deep_view(),
            i <= records@.len(),
            record_index(all, id) == i + record_index(all.skip(i as int), id),
        decreases records@.len() - i,
    {
        assert(all[i as int] == records@[i as int].deep_view());
        assert(all.skip(i as int).skip(1) =~= all.skip(i + 1));
        if records[i].session.id == id {
            return i;
        }
        i += 1;
    }
    i
}

/// The sessions have different numbers in ascending order, below `next`.
pub open spec fn numbered(records: Seq<SessionRecordView>, next: u64) -> bool {
    &&& forall|i: int|
        0 <= i < records.len() ==> (#[trigger] records[i]).session.id < next
    &&& forall|i: int, j: int|
        0 <= i < j < records.len() ==> (#[trigger] records[i]).session.id < (
        #[trigger] records[j]).session.id
}

/// No log is longer than is kept.
pub open spec fn logs_bounded(records: Seq<SessionRecordView>) -> bool {
    forall|i: int|
        0 <= i < records.len() ==> (#[trigger] records[i]).logs.len() <= MAX_LOG_LINES
}

/// The sessions of games and tools, by their numbers.
pub struct RuntimeSessionManager {
    next_id: u64,
    records: Vec<SessionRecord>,
}

impl RuntimeSessionManager {
    /// The number of the next session.
    pub closed spec fn next(&self) -> u64 {
        self.next_id
    }

    /// What is known of the sessions, by their numbers.
    pub closed spec fn known(&self) -> Seq<SessionRecordView> {
        self.records.deep_view()
    }

    #[verifier::type_invariant]
    spec fn valid(self) -> bool {
        &&& self.next_id >= 1
        &&& numbered(self.records.deep_view(), self.next_id)
        &&& logs_bounded(self.records.deep_view())
    }

    /// No session has been started.
    pub fn new() -> (r: Self)
        ensures
            r.next() == 1,
            r.known() == Seq::<SessionRecordView>::empty(),
    {
        let records: Vec<SessionRecord> = Vec::new();
        assert(records.deep_view() =~= Seq::empty());
        RuntimeSessionManager { next_id: 1, records }
    }

    /// The number of the next session.
    pub fn next_session_id(&self) -> (r: u64)
        ensures
            r == self.next(),
    {
        self.next_id
    }

    /// Adds a session whose process has been started, and gives its number.
    pub fn spawn_managed_session(&mut self, start: SessionStart) -> (r: u64)
        requires
            old(self).next() < u64::MAX,
        ensures
            r == old(self).next(),
            final(self).next() == r + 1,
            final(self).known() == old(self).known().push(
                SessionRecordView {
                    session: started_session(r, start),
                    logs: Seq::empty(),
                    stop_requested: false,
                },
            ),
    {
        proof {
            use_type_invariant(&*self);
        }
        let id = self.next_id;
        let ghost before = self.known();
        let ghost added = SessionRecordView {
            session: started_session(id, start),
            logs: Seq::empty(),
            stop_requested: false,
        };
        let session = ManagedSession {
            id,
            kind: start.kind,
            game_id: start.game_id,
            tool_id: start.tool_id,
            launcher_source: start.launcher_source,
            pid: start.pid,
            started_at: start.started_at,
            status: SessionStatus::Running,
            exit_code: None,
            run_mode: SessionRunMode::FullyManaged,
            scratch_dir: start.scratch_dir,
        };
        let logs: Vec<SessionLogLine> = Vec::new();
        assert(logs.deep_view() =~= Seq::empty());
        let mut records: Vec<SessionRecord> = Vec::new();
        std::mem::swap(&mut records, &mut self.records);
        records.push(SessionRecord { session, logs, stop_requested: false });
        assert(records.deep_view() =~= before.push(added));
        self.next_id = id + 1;
        self.records = records;
        id
    }

    /// The sessions, by their numbers.
    pub fn sessions(&self) -> (r: Vec<ManagedSession>)
        ensures
            r.deep_view() == self.known().map_values(|s: SessionRecordView| s.session),
            numbered(self.known(), self.next()),
    {
        proof {
            use_type_invariant(self);
        }
        let ghost all = self.known();
        let mut r: Vec<ManagedSession> = Vec::new();
        for i in 0..self.records.len()
            invariant
                all == self.known(),
                r@.len() == i,
                forall|j: int| 0 <= j < i ==> #[trigger] r@[j].deep_view() == all[j].session,
        {
            assert(all[i as int] == self.records@[i as int].deep_view());
            r.push(self.records[i].session.clone());
        }
        assert(r.deep_view() =~= all.map_values(|s: SessionRecordView| s.session));
        r
    }

    /// The sessions that have not ended, as they are saved.
    pub fn active_sessions(&self) -> (r: Vec<ManagedSession>)
        ensures
            r.deep_view() == self.known().map_values(|s: SessionRecordView| s.session).filter(
                |s: ManagedSessionView| is_active(s),
            ),
    {
        let all = self.sessions();
        let ghost ss = all.deep_view();
        let ghost keep = |s: ManagedSessionView| is_active(s);
        let mut r: Vec<ManagedSession> = Vec::new();
        assert(r.deep_view() =~= ss.take(0).filter(keep)) by {
            reveal(Seq::filter);
        }
        for i in 0..all.len()
            invariant
                ss == all.deep_view(),
                keep == (|s: ManagedSessionView| is_active(s)),
                r.deep_view() == ss.take(i as int).filter(keep),
        {
            let ghost before = r.deep_view();
            assert(ss[i as int] == all@[i as int].deep_view());
            assert(ss.take(i + 1).drop_last() =~= ss.take(i as int));
            if has_not_ended(&all[i]) {
                r.push(all[i].clone());
                assert(r.deep_view() =~= before.push(ss[i as int]));
            }
            assert(r.deep_view() == ss.take(i + 1).filter(keep)) by {
                reveal(Seq::filter);
            }
        }
        assert(ss.take(ss.len() as int) =~= ss);
        r
    }

    /// Whether any session has not ended.
    pub fn any_active(&self) -> (r: bool)
        ensures
            r == exists|i: int|
                0 <= i < self.known().len() && is_active((#[trigger] self.known()[i]).session),
    {
        let ghost all = self.known();
        for i in 0..self.records.len()
            invariant
                all == self.known(),
                forall|j: int| 0 <= j < i ==> !is_active((#[trigger] all[j]).session),
        {
            assert(all[i as int] == self.records@[i as int].deep_view());
            if has_not_ended(&self.records[i].session) {
                return true;
            }
        }
        false
    }

    /// The lines that are kept of a session's log; none if there is no such
    /// session.
    pub fn session_logs(&self, id: u64) -> (r: Vec<SessionLogLine>)
        ensures
            r.deep_view() == ({
                let i = record_index(self.known(), id);
                if i < self.known().len() {
                    self.known()[i].logs
                } else {
                    Seq::empty()
                }
            }),
            r@.len() <= MAX_LOG_LINES,
    {
        proof {
            use_type_invariant(self);
        }
        let i = find_record(&self.records, id);
        let mut r: Vec<SessionLogLine> = Vec::new();
        if i < self.records.len() {
            let logs = &self.records[i].logs;
            let ghost all = logs.deep_view();
            assert(self.known()[i as int] == self.records@[i as int].deep_view());
            for k in 0..logs.len()
                invariant
                    all == logs.deep_view(),
                    r@.len() == k,
                    forall|j: int| 0 <= j < k ==> #[trigger] r@[j].deep_view() == all[j],
            {
                assert(all[k as int] == logs@[k as int].deep_view());
                r.push(logs[k].clone());
            }
            assert(r.deep_view() =~= all);
        } else {
            assert(r.deep_view() =~= Seq::empty());
        }
        r
    }

    /// The running session of a game.
    pub fn current_game_session(&self, game_id: &str) -> (r: Option<ManagedSession>)
        ensures
            r.deep_view() == first_session(
                self.known(),
                |s: ManagedSessionView| is_game_session(s, game_id@),
            ),
    {
        let ghost all = self.known();
        let ghost f = |s: ManagedSessionView| is_game_session(s, game_id@);
        let mut i: usize = 0;
        assert(all.skip(0) =~= all);
        while i < self.records.len()
            invariant
                all == self.known(),
                f == (|s: ManagedSessionView| is_game_session(s, game_id@)),
                i <= self.records@.len(),
                first_session(all, f) == first_session(all.skip(i as int), f),
            decreases self.records@.len() - i,
        {
            assert(all[i as int] == self.records@[i as int].deep_view());
            assert(all.skip(i as int).skip(1) =~= all.skip(i + 1));
            let s = &self.records[i].session;
            if s.kind == SessionKind::Game && same(s.game_id.as_str(), game_id) && has_not_ended(
                s,
            ) {
                return Some(s.clone());
            }
            i += 1;
        }
        None
    }

    /// The running session of a tool on a game.
    pub fn current_tool_session(&self, game_id: &str, tool_id: &str) -> (r: Option<ManagedSession>)
        ensures
            r.deep_view() == first_session(
                self.known(),
                |s: ManagedSessionView| is_tool_session(s, game_id@, tool_id@),
            ),
    {
        let ghost all = self.known();
        let ghost f = |s: ManagedSessionView| is_tool_session(s, game_id@, tool_id@);
        let mut i: usize = 0;
        assert(all.skip(0) =~= all);
        while i < self.records.len()
            invariant
                all == self.known(),
                f == (|s: ManagedSessionView| is_tool_session(s, game_id@, tool_id@)),
                i <= self.records@.len(),
                first_session(all, f) == first_session(all.skip(i as int), f),
            decreases self.records@.len() - i,
        {
            assert(all[i as int] == self.records@[i as int].deep_view());
            assert(all.skip(i as int).skip(1) =~= all.skip(i + 1));
            let s = &self.records[i].session;
            let of_tool = match &s.tool_id {
                Some(t) => same(t.as_str(), tool_id),
                None => false,
            };
            if s.kind == SessionKind::Tool && same(s.game_id.as_str(), game_id) && of_tool
                && has_not_ended(s) {
                return Some(s.clone());
            }
            i += 1;
        }
        None
    }

    /// Has a session stopped, and gives the process to stop: none, if the
    /// session has ended.
    pub fn stop_session(&mut self, id: u64) -> (r: Result<Option<u32>, String>)
        ensures
            final(self).next() == old(self).next(),
            ({
                let i = record_index(old(self).known(), id);
                if i < old(self).known().len() {
                    &&& r == Ok::<Option<u32>, String>(
                        if is_active(old(self).known()[i].session) {
                            old(self).known()[i].session.pid
                        } else {
                            None
                        },
                    )
                    &&& final(self).known() == old(self).known().update(
                        i,
                        SessionRecordView { stop_requested: true, ..old(self).known()[i] },
                    )
                } else {
                    &&& r is Err
                    &&& r->Err_0@ == "Session "@ + decimal(id as nat) + " was not found"@
                    &&& final(self).known() == old(self).known()
                }
            }),
    {
        proof {
            use_type_invariant(&*self);
        }
        let ghost before = self.known();
        let i = find_record(&self.records, id);
        if i >= self.records.len() {
            return Err(concat3("Session ", decimal_string(id as u128).as_str(), " was not found"));
        }
        let mut records: Vec<SessionRecord> = Vec::new();
        std::mem::swap(&mut records, &mut self.records);
        assert(before[i as int] == records@[i as int].deep_view());
        let pid = if has_not_ended(&records[i].session) {
            records[i].session.pid
        } else {
            None
        };
        records[i].stop_requested = true;
        assert(records.deep_view() =~= before.update(
            i as int,
            SessionRecordView { stop_requested: true, ..before[i as int] },
        ));
        self.records = records;
        Ok(pid)
    }

    /// Whether a session is to be stopped.
    pub fn stop_requested(&self, id: u64) -> (r: bool)
        ensures
            r == ({
                let i = record_index(self.known(), id);
                i < self.known().len() && self.known()[i].stop_requested
            }),
    {
        let i = find_record(&self.records, id);
        if i < self.records.len() {
            assert(self.known()[i as int] == self.records@[i as int].deep_view());
            self.records[i].stop_requested
        } else {
            false
        }
    }

    /// Adds a line to the log of a session; the oldest line makes room.
    pub fn push_log(&mut self, id: u64, stream: SessionStream, message: String, at: u64)
        ensures
            final(self).next() == old(self).next(),
            final(self).known() == with_log(
                old(self).known(),
                id,
                SessionLogLineView { stream, at, message: message@ },
            ),
    {
        proof {
            use_type_invariant(&*self);
        }
        let ghost before = self.known();
        let ghost line = SessionLogLineView { stream, at, message: message@ };
        let i = find_record(&self.records, id);
        if i < self.records.len() {
            let mut records: Vec<SessionRecord> = Vec::new();
            std::mem::swap(&mut records, &mut self.records);
            assert(before[i as int] == records@[i as int].deep_view());
            let ghost logs = before[i as int].logs;
            records[i].logs.push(SessionLogLine { stream, at, message });
            assert(records@[i as int].logs.deep_view() =~= logs.push(line));
            if records[i].logs.len() > MAX_LOG_LINES {
                let oldest = records[i].logs.remove(0);
                assert(records@[i as int].logs.deep_view() =~= logs.push(line).skip(1));
            }
            assert(records.deep_view() =~= with_log(before, id, line));
            assert forall|k: int| 0 <= k < records.deep_view().len() implies (
            #[trigger] records.deep_view()[k]).logs.len() <= MAX_LOG_LINES by {
                assert(k == i || records.deep_view()[k] == before[k]);
            }
            self.records = records;
        }
    }

    /// Notes the end of a session's process: `Ok` with how it ended, or `Err`
    /// with why that is not known.
    pub fn finish_session(
        &mut self,
        id: u64,
        outcome: Result<ProcessEnd, String>,
        follow_up_failed: bool,
        stop_requested: bool,
        at: u64,
    )
        ensures
            final(self).next() == old(self).next(),
            match outcome {
                Ok(end) => final(self).known() == with_end(
                    old(self).known(),
                    id,
                    end_status(end, follow_up_failed, stop_requested),
                    end.code,
                ),
                Err(e) => final(self).known() == with_end(
                    with_log(
                        old(self).known(),
                        id,
                        SessionLogLineView { stream: SessionStream::Stderr, at, message: e@ },
                    ),
                    id,
                    SessionStatus::Failed,
                    None,
                ),
            },
    {
        let mut status = SessionStatus::Failed;
        let mut code: Option<i32> = None;
        match outcome {
            Ok(end) => {
                code = end.code;
                status = if follow_up_failed {
                    SessionStatus::Failed
                } else if stop_requested {
                    SessionStatus::Killed
                } else if end.success {
                    SessionStatus::Exited
                } else {
                    SessionStatus::Failed
                };
            },
            Err(e) => {
                self.push_log(id, SessionStream::Stderr, e, at);
            },
        }
        proof {
            use_type_invariant(&*self);
        }
        let ghost before = self.known();
        let mut records: Vec<SessionRecord> = Vec::new();
        std::mem::swap(&mut records, &mut self.records);
        let i = find_record(&records, id);
        if i < records.len() {
            assert(before[i as int] == records@[i as int].deep_view());
            records[i].session.status = status;
            records[i].session.exit_code = code;
        }
        assert(records.deep_view() =~= with_end(before, id, status, code));
        self.records = records;
    }
}

impl Default for RuntimeSessionManager {
    fn default() -> (r: Self)
        ensures
            r.next() == 1,
            r.known() == Seq::<SessionRecordView>::empty(),
    {
        RuntimeSessionManager::new()
    }
}

// ── Starting sessions ───────────────────────────────────────────────────────

/// What umu is to run.
#[derive(Debug)]
pub struct UmuLaunch {
    pub exe_path: String,
    pub arguments: String,
    pub app_id: u32,
    pub prefix_path: Option<String>,
    pub proton_path: Option<String>,
    pub store: String,
    pub steam_root: Option<String>,
}

/// An [`UmuLaunch`] as a mathematical value.
#[verifier::ext_equal]
pub ghost struct UmuLaunchView {
    pub exe_path: Seq<char>,
    pub arguments: Seq<char>,
    pub app_id: u32,
    pub prefix_path: Option<Seq<char>>,
    pub proton_path: Option<Seq<char>>,
    pub store: Seq<char>,
    pub steam_root: Option<Seq<char>>,
}

impl DeepView for UmuLaunch {
    type V = UmuLaunchView;

    open spec fn deep_view(&self) -> UmuLaunchView {
        UmuLaunchView {
            exe_path: self.exe_path@,
            arguments: self.arguments@,
            app_id: self.app_id,
            prefix_path: self.prefix_path.deep_view(),
            proton_path: self.proton_path.deep_view(),
            store: self.store@,
            steam_root: self.steam_root.deep_view(),
        }
    }
}

/// How a game is launched: by umu, or the executable through Steam's Proton.
#[derive(Debug)]
pub enum GameLaunch {
    Umu(UmuLaunch),
    Steam(String, u32),
}

/// A [`GameLaunch`] as a mathematical value.
pub ghost enum GameLaunchView {
    Umu(UmuLaunchView),
    Steam(Seq<char>, u32),
}

impl DeepView for GameLaunch {
    type V = GameLaunchView;

    open spec fn deep_view(&self) -> GameLaunchView {
        match self {
            GameLaunch::Umu(l) => GameLaunchView::Umu(l.deep_view()),
            GameLaunch::Steam(exe, app_id) => GameLaunchView::Steam(exe@, *app_id),
        }
    }
}

/// What is on the machine: which files and directories exist, and whether umu
/// is installed.
pub struct MachineFacts<'a> {
    pub files: &'a Vec<String>,
    pub directories: &'a Vec<String>,
    pub umu_available: bool,
}

/// The first of the executables that exists in a game's directory.
pub open spec fn first_existing(
    root: Seq<char>,
    names: Seq<Seq<char>>,
    existing: Seq<Seq<char>>,
) -> Option<Seq<char>>
    decreases names.len(),
{
    if names.len() == 0 {
        None
    } else if existing.contains(joined(root, names[0])) {
        Some(joined(root, names[0]))
    } else {
        first_existing(root, names.skip(1), existing)
    }
}

/// The executable of a Steam game: the preferred one if it exists, or else the
/// first of its candidates that does.
pub open spec fn steam_exe(
    game: GameView,
    preferred: Option<Seq<char>>,
    existing: Seq<Seq<char>>,
) -> Option<Seq<char>> {
    if preferred is Some && existing.contains(joined(game.root_path, preferred->0)) {
        Some(joined(game.root_path, preferred->0))
    } else {
        first_existing(game.root_path, redirect_candidates(game.kind), existing)
    }
}

/// Finds the executable of a Steam game, given which paths exist.
pub fn resolve_phase1_steam_exe_path(
    game: &Game,
    preferred_exe: Option<&str>,
    existing: &Vec<String>,
) -> (r: Result<String, String>)
    ensures
        match r {
            Ok(p) => steam_exe(game.deep_view(), preferred_exe.deep_view(), existing.deep_view())
                == Some(p@),
            Err(e) => steam_exe(game.deep_view(), preferred_exe.deep_view(), existing.deep_view())
                is None && e@ == "Could not find game executable in root path"@,
        },
{
    let ghost found = existing.deep_view();
    if let Some(preferred) = preferred_exe {
        let path = join(game.root_path.as_str(), preferred);
        if is_listed(existing, path.as_str()) {
            return Ok(path);
        }
    }
    let names = game.kind.phase1_steam_launch_candidates();
    let ghost all = names.deep_view();
    let ghost root = game.root_path@;
    let mut i: usize = 0;
    assert(all.skip(0) =~= all);
    while i < names.len()
        invariant
            all == names.deep_view(),
            found == existing.deep_view(),
            root == game.root_path@,
            i <= names@.len(),
            first_existing(root, all, found) == first_existing(root, all.skip(i as int), found),
            steam_exe(game.deep_view(), preferred_exe.deep_view(), found) == first_existing(
                root,
                all,
                found,
            ),
        decreases names@.len() - i,
    {
        assert(all[i as int] == names@[i as int]@);
        assert(all.skip(i as int).skip(1) =~= all.skip(i + 1));
        let path = join(game.root_path.as_str(), names[i]);
        if is_listed(existing, path.as_str()) {
            return Ok(path);
        }
        i += 1;
    }
    Err(owned("Could not find game executable in root path"))
}

/// Why no session of a game may be started, if none may.
pub open spec fn game_refusal(records: Seq<SessionRecordView>, game: GameView) -> Option<
    Seq<char>,
> {
    if first_session(records, |s: ManagedSessionView| is_game_session(s, game.id)) is Some {
        Some("A game session is already active for this game instance"@)
    } else if game.launcher_source == GameLauncherSource::Steam && game.kind
        != GameKind::SkyrimSE {
        Some(
            "Phase 1 Steam session support is currently limited to Skyrim SE/AE. "@
                + display_name_of(game.kind) + " is not enabled yet."@,
        )
    } else {
        None
    }
}

/// How a game that may be started is launched, or why it cannot be.
pub open spec fn game_launch(
    game: GameView,
    preferred: Option<Seq<char>>,
    files: Seq<Seq<char>>,
    directories: Seq<Seq<char>>,
    umu_available: bool,
) -> Result<GameLaunchView, Seq<char>> {
    match game.launcher_source {
        GameLauncherSource::NonSteamUmu => if !umu_available {
            Err("umu-launcher is not installed. Please try again or check settings."@)
        } else {
            match umu_problem(game, files, directories, umu_available) {
                Some(e) => Err(e),
                None => Ok(
                    GameLaunchView::Umu(
                        UmuLaunchView {
                            exe_path: game.umu_config->0.exe_path,
                            arguments: ""@,
                            app_id: primary_app_id(game.kind),
                            prefix_path: game.umu_config->0.prefix_path,
                            proton_path: game.umu_config->0.proton_path,
                            store: "none"@,
                            steam_root: None,
                        },
                    ),
                ),
            }
        },
        GameLauncherSource::Steam => match steam_exe(game, preferred, files) {
            Some(exe) => Ok(GameLaunchView::Steam(exe, instance_app_id(game)->0)),
            None => Err("Could not find game executable in root path"@),
        },
    }
}

/// How a tool is launched on a game, or why it cannot be, given the Proton and
/// the compatibility data of the game.
pub open spec fn tool_launch(
    game: GameView,
    tool: ToolConfig,
    files: Seq<Seq<char>>,
    directories: Seq<Seq<char>>,
    umu_available: bool,
    proton: Result<(Seq<char>, Seq<char>), Seq<char>>,
    steam_root: Option<Seq<char>>,
) -> Result<UmuLaunchView, Seq<char>> {
    match game.launcher_source {
        GameLauncherSource::NonSteamUmu => match umu_problem(
            game,
            files,
            directories,
            umu_available,
        ) {
            Some(e) => Err(e),
            None => Ok(
                UmuLaunchView {
                    exe_path: tool.exe_path@,
                    arguments: tool.arguments@,
                    app_id: primary_app_id(game.kind),
                    prefix_path: game.umu_config->0.prefix_path,
                    proton_path: game.umu_config->0.proton_path,
                    store: "none"@,
                    steam_root: None,
                },
            ),
        },
        GameLauncherSource::Steam => match proton {
            Ok((path, compatdata)) => Ok(
                UmuLaunchView {
                    exe_path: tool.exe_path@,
                    arguments: tool.arguments@,
                    app_id: instance_app_id(game)->0,
                    prefix_path: Some(joined(compatdata, "pfx"@)),
                    proton_path: Some(path),
                    store: "steam"@,
                    steam_root,
                },
            ),
            Err(e) => Err(e),
        },
    }
}

/// A pair of texts, or the text of an error, as a mathematical value.
pub open spec fn pair_view(r: Result<(String, String), String>) -> Result<
    (Seq<char>, Seq<char>),
    Seq<char>,
> {
    match r {
        Ok((a, b)) => Ok((a@, b@)),
        Err(e) => Err(e@),
    }
}

impl RuntimeSessionManager {
    /// Whether a session of a game may be started.
    pub fn may_start_game(&self, game: &Game) -> (r: Result<(), String>)
        ensures
            match r {
                Ok(_) => game_refusal(self.known(), game.deep_view()) is None,
                Err(e) => game_refusal(self.known(), game.deep_view()) == Some(e@),
            },
    {
        if self.current_game_session(game.id.as_str()).is_some() {
            return Err(owned("A game session is already active for this game instance"));
        }
        if game.launcher_source == GameLauncherSource::Steam
            && !game.kind.is_phase1_steam_redirector_target() {
            return Err(
                concat3(
                    "Phase 1 Steam session support is currently limited to Skyrim SE/AE. ",
                    game.kind.display_name(),
                    " is not enabled yet.",
                ),
            );
        }
        Ok(())
    }

    /// How a game is launched in a session of its own, given why its mods
    /// could not be mounted, if they could not, and the executable that is
    /// preferred for it.
    pub fn start_game_session(
        &self,
        game: &Game,
        mount_error: Option<&str>,
        preferred_exe: Option<&str>,
        facts: &MachineFacts<'_>,
    ) -> (r: Result<GameLaunch, String>)
        ensures
            match game_refusal(self.known(), game.deep_view()) {
                Some(e) => r is Err && r->Err_0@ == e,
                None => match mount_error {
                    Some(e) => r is Err && r->Err_0@ == "Failed to mount mod VFS: "@ + e@,
                    None => match game_launch(
                        game.deep_view(),
                        preferred_exe.deep_view(),
                        facts.files.deep_view(),
                        facts.directories.deep_view(),
                        facts.umu_available,
                    ) {
                        Ok(l) => r is Ok && r->Ok_0.deep_view() == l,
                        Err(e) => r is Err && r->Err_0@ == e,
                    },
                },
            },
    {
        match self.may_start_game(game) {
            Ok(_) => {},
            Err(e) => {
                return Err(e);
            },
        }
        if let Some(e) = mount_error {
            return Err(concat2("Failed to mount mod VFS: ", e));
        }
        match game.launcher_source {
            GameLauncherSource::NonSteamUmu => {
                if !facts.umu_available {
                    return Err(
                        owned("umu-launcher is not installed. Please try again or check settings."),
                    );
                }
                match game.validate_umu_setup(
                    facts.files,
                    facts.directories,
                    facts.umu_available,
                ) {
                    Ok(umu) => {
                        let app_id: u32 = match game.kind.primary_steam_app_id() {
                            Some(id) => id,
                            None => 0,
                        };
                        Ok(
                            GameLaunch::Umu(
                                UmuLaunch {
                                    exe_path: owned(umu.exe_path.as_str()),
                                    arguments: owned(""),
                                    app_id,
                                    prefix_path: copy_optional(&umu.prefix_path),
                                    proton_path: copy_optional(&umu.proton_path),
                                    store: owned("none"),
                                    steam_root: None,
                                },
                            ),
                        )
                    },
                    Err(e) => Err(e),
                }
            },
            GameLauncherSource::Steam => {
                let app_id: u32 = match game.steam_instance_app_id() {
                    Some(id) => id,
                    None => 0,
                };
                match resolve_phase1_steam_exe_path(game, preferred_exe, facts.files) {
                    Ok(exe) => Ok(GameLaunch::Steam(exe, app_id)),
                    Err(e) => Err(e),
                }
            },
        }
    }

    /// How a tool is launched on a game in a session of its own, given the
    /// Proton and the compatibility data of the game, or why they were not
    /// found, and the directory of Steam.
    pub fn start_tool_session(
        &self,
        game: &Game,
        tool: &ToolConfig,
        facts: &MachineFacts<'_>,
        proton: Result<(String, String), String>,
        steam_root: Option<String>,
    ) -> (r: Result<UmuLaunch, String>)
        ensures
            if first_session(
                self.known(),
                |s: ManagedSessionView| is_tool_session(s, game.id@, tool.id@),
            ) is Some {
                r is Err && r->Err_0@ == "Tool "@ + tool.name@ + " is already running"@
            } else {
                match tool_launch(
                    game.deep_view(),
                    *tool,
                    facts.files.deep_view(),
                    facts.directories.deep_view(),
                    facts.umu_available,
                    pair_view(proton),
                    steam_root.deep_view(),
                ) {
                    Ok(l) => r is Ok && r->Ok_0.deep_view() == l,
                    Err(e) => r is Err && r->Err_0@ == e,
                }
            },
    {
        if self.current_tool_session(game.id.as_str(), tool.id.as_str()).is_some() {
            return Err(concat3("Tool ", tool.name.as_str(), " is already running"));
        }
        match game.launcher_source {
            GameLauncherSource::NonSteamUmu => match game.validate_umu_setup(
                facts.files,
                facts.directories,
                facts.umu_available,
            ) {
                Ok(umu) => {
                    let app_id: u32 = match game.kind.primary_steam_app_id() {
                        Some(id) => id,
                        None => tool.app_id,
                    };
                    Ok(
                        UmuLaunch {
                            exe_path: owned(tool.exe_path.as_str()),
                            arguments: owned(tool.arguments.as_str()),
                            app_id,
                            prefix_path: copy_optional(&umu.prefix_path),
                            proton_path: copy_optional(&umu.proton_path),
                            store: owned("none"),
                            steam_root: None,
                        },
                    )
                },
                Err(e) => Err(e),
            },
            GameLauncherSource::Steam => {
                let app_id: u32 = match game.steam_instance_app_id() {
                    Some(id) => id,
                    None => tool.app_id,
                };
                match proton {
                    Ok((path, compatdata)) => Ok(
                        UmuLaunch {
                            exe_path: owned(tool.exe_path.as_str()),
                            arguments: owned(tool.arguments.as_str()),
                            app_id,
                            prefix_path: Some(join(compatdata.as_str(), "pfx")),
                            proton_path: Some(path),
                            store: owned("steam"),
                            steam_root,
                        },
                    ),
                    Err(e) => Err(e),
                }
            },
        }
    }
}

/// What is answered when a tool has ended, given how it did and the text of
/// its status.
pub fn tool_result(success: bool, status: &str) -> (r: Result<(), String>)
    ensures
        success ==> r is Ok,
        !success ==> r is Err && r->Err_0@ == "Tool exited with non-zero status: "@ + status@,
{
    if success {
        Ok(())
    } else {
        Err(concat2("Tool exited with non-zero status: ", status))
    }
}

/// Whether the processes of a session that is waited for are killed now: it is
/// to be stopped, they have not been killed, and five seconds have gone by.
pub fn kill_is_due(stop_requested: bool, kill_sent: bool, elapsed_millis: u64) -> (r: bool)
    ensures
        r == (stop_requested && !kill_sent && elapsed_millis >= 5000),
{
    stop_requested && !kill_sent && elapsed_millis >= 5000
}

// ── Sessions that Steam starts ──────────────────────────────────────────────

/// The game is one that Steam starts under an application number.
pub open spec fn is_steam_target(game: GameView, app_id: u32) -> bool {
    &&& game.launcher_source == GameLauncherSource::Steam
    &&& instance_app_id(game) == Some(app_id)
    &&& game.kind == GameKind::SkyrimSE
}

/// The games that Steam starts under an application number.
pub open spec fn steam_targets(games: Seq<GameView>, app_id: u32) -> Seq<GameView> {
    games.filter(|g: GameView| is_steam_target(g, app_id))
}

/// The first game in a directory.
pub open spec fn game_in_dir(games: Seq<GameView>, dir: Seq<char>) -> Option<GameView>
    decreases games.len(),
{
    if games.len() == 0 {
        None
    } else if path_same(games[0].root_path, dir) {
        Some(games[0])
    } else {
        game_in_dir(games.skip(1), dir)
    }
}

/// The game that Steam means when it starts an application.
pub open spec fn steam_game_for(
    config: AppConfigView,
    app_id: u32,
    requested: Option<Seq<char>>,
    current_dir: Option<Seq<char>>,
) -> Result<GameView, Seq<char>> {
    let targets = steam_targets(config.games, app_id);
    let current = match config.current_game_id {
        Some(id) => game_with_id(targets, id),
        None => None,
    };
    let here = match current_dir {
        Some(dir) => game_in_dir(targets, dir),
        None => None,
    };
    if targets.len() == 0 {
        Err(
            "No configured phase-1 Steam game instance found for app id "@ + decimal(app_id as nat)
                + "."@,
        )
    } else if requested is Some {
        match game_with_id(targets, requested->0) {
            Some(g) => Ok(g),
            None => Err(
                "Configured game id "@ + requested->0
                    + " does not match any phase-1 Steam game instance for app id "@ + decimal(
                    app_id as nat,
                ) + "."@,
            ),
        }
    } else if current is Some {
        Ok(current->0)
    } else if here is Some {
        Ok(here->0)
    } else if targets.len() == 1 {
        Ok(targets[0])
    } else {
        Err(
            "Multiple configured phase-1 Steam game instances match app id "@ + decimal(
                app_id as nat,
            ) + ". Use a launch option generated for one exact configured game instance."@,
        )
    }
}

fn find_steam_targets(games: &Vec<Game>, app_id: u32) -> (r: Vec<Game>)
    ensures
        r.deep_view() == steam_targets(games.deep_view(), app_id),
{
    let ghost gs = games.deep_view();
    let ghost keep = |g: GameView| is_steam_target(g, app_id);
    let mut r: Vec<Game> = Vec::new();
    assert(r.deep_view() =~= gs.take(0).filter(keep)) by {
        reveal(Seq::filter);
    }
    for i in 0..games.len()
        invariant
            gs == games.deep_view(),
            keep == (|g: GameView| is_steam_target(g, app_id)),
            r.deep_view() == gs.take(i as int).filter(keep),
    {
        let ghost before = r.deep_view();
        assert(gs[i as int] == games@[i as int].deep_view());
        assert(gs.take(i + 1).drop_last() =~= gs.take(i as int));
        let matching = match games[i].steam_instance_app_id() {
            Some(id) => id == app_id,
            None => false,
        };
        if games[i].launcher_source == GameLauncherSource::Steam && matching
            && games[i].kind.is_phase1_steam_redirector_target() {
            r.push(games[i].clone());
            assert(r.deep_view() =~= before.push(gs[i as int]));
        }
        assert(r.deep_view() == gs.take(i + 1).filter(keep)) by {
            reveal(Seq::filter);
        }
    }
    assert(gs.take(gs.len() as int) =~= gs);
    r
}

fn find_game_in_dir<'a>(games: &'a Vec<Game>, dir: &str) -> (r: Option<&'a Game>)
    ensures
        match r {
            Some(g) => game_in_dir(games.deep_view(), dir@) == Some(g.deep_view()),
            None => game_in_dir(games.deep_view(), dir@) is None,
        },
{
    let ghost all = games.deep_view();
    let mut i: usize = 0;
    assert(all.skip(0) =~= all);
    while i < games.len()
        invariant
            all == games.deep_view(),
            i <= games@.len(),
            game_in_dir(all, dir@) == game_in_dir(all.skip(i as int), dir@),
        decreases games@.len() - i,
    {
        assert(all[i as int] == games@[i as int].deep_view());
        assert(all.skip(i as int).skip(1) =~= all.skip(i + 1));
        if same_path(games[i].root_path.as_str(), dir) {
            return Some(&games[i]);
        }
        i += 1;
    }
    None
}

/// Finds the game that Steam means when it starts an application: the one that
/// was asked for; else the current one; else the one in the current
/// directory; else the only one.
pub fn resolve_phase1_steam_game(
    config: &AppConfig,
    app_id: u32,
    requested_game_id: Option<&str>,
    current_dir: Option<&str>,
) -> (r: Result<Game, String>)
    ensures
        match steam_game_for(
            config.deep_view(),
            app_id,
            requested_game_id.deep_view(),
            current_dir.deep_view(),
        ) {
            Ok(g) => r is Ok && r->Ok_0.deep_view() == g,
            Err(e) => r is Err && r->Err_0@ == e,
        },
{
    let targets = find_steam_targets(&config.games, app_id);
    let number = decimal_string(app_id as u128);
    if targets.len() == 0 {
        return Err(
            concat3(
                "No configured phase-1 Steam game instance found for app id ",
                number.as_str(),
                ".",
            ),
        );
    }
    if let Some(id) = requested_game_id {
        return match find_game(&targets, id) {
            Some(g) => Ok(g.clone()),
            None => {
                let start = concat3(
                    "Configured game id ",
                    id,
                    " does not match any phase-1 Steam game instance for app id ",
                );
                Err(concat3(start.as_str(), number.as_str(), "."))
            },
        };
    }
    if let Some(id) = &config.current_game_id {
        if let Some(g) = find_game(&targets, id.as_str()) {
            return Ok(g.clone());
        }
    }
    if let Some(dir) = current_dir {
        if let Some(g) = find_game_in_dir(&targets, dir) {
            return Ok(g.clone());
        }
    }
    if targets.len() == 1 {
        assert(targets.deep_view()[0] == targets@[0].deep_view());
        return Ok(targets[0].clone());
    }
    Err(
        concat3(
            "Multiple configured phase-1 Steam game instances match app id ",
            number.as_str(),
            ". Use a launch option generated for one exact configured game instance.",
        ),
    )
}

/// The name of the file that marks a running session of an application.
pub fn steam_session_lock_name(app_id: u32) -> (r: String)
    ensures
        r@ == "steam-session-"@ + decimal(app_id as nat) + ".pid"@,
{
    concat3("steam-session-", decimal_string(app_id as u128).as_str(), ".pid")
}

/// The runtime directory of the user, by `dirs::runtime_dir`; where it lies
/// depends on the environment.  Bytes of its name that are not UTF-8 are given
/// as replacement characters.
#[verifier::external_body]
fn user_runtime_dir() -> (r: Option<String>) {
    dirs::runtime_dir().map(|p| p.to_string_lossy().into_owned())
}

/// The lock file of an application below a directory of the program.
pub open spec fn lock_file(base: Seq<char>, app_id: u32) -> Seq<char> {
    joined(
        joined(base, "linkmm"@),
        "steam-session-"@ + decimal(app_id as nat) + ".pid"@,
    )
}

/// Where the lock file of an application lies: below the user's runtime
/// directory, or else below the local data directory.
pub fn steam_session_lock_path_in(
    runtime_dir: Option<String>,
    data_dir: Option<String>,
    app_id: u32,
) -> (r: Result<String, String>)
    ensures
        match r {
            Ok(p) => match runtime_dir {
                Some(d) => p@ == lock_file(d@, app_id),
                None => data_dir is Some && p@ == lock_file(data_dir->0@, app_id),
            },
            Err(e) => runtime_dir is None && data_dir is None && e@
                == "Could not determine runtime directory for session lock"@,
        },
{
    let base = match runtime_dir {
        Some(d) => d,
        None => match data_dir {
            Some(d) => d,
            None => {
                return Err(owned("Could not determine runtime directory for session lock"));
            },
        },
    };
    let dir = join(base.as_str(), "linkmm");
    Ok(join(dir.as_str(), steam_session_lock_name(app_id).as_str()))
}

/// Where the lock file of an application lies on this machine.
pub fn acquire_steam_session_lock(app_id: u32) -> (r: Result<String, String>)
    ensures
        match r {
            Ok(p) => exists|base: Seq<char>| p@ == #[trigger] lock_file(base, app_id),
            Err(e) => e@ == "Could not determine runtime directory for session lock"@,
        },
{
    steam_session_lock_path_in(user_runtime_dir(), local_data_dir(), app_id)
}

/// The process that a lock file names, if it names one.
pub fn lock_holder(contents: &str) -> (r: Option<u32>)
    ensures
        match r {
            Some(pid) => parsed(trimmed(contents@), u32::MAX as nat) == Some(pid as nat),
            None => parsed(trimmed(contents@), u32::MAX as nat) is None,
        },
{
    parse_u32(trim(contents).as_str())
}

/// Whether a lock file is left over from a process that is gone, given whether
/// the process that it names is alive.
pub fn lock_is_stale(contents: &str, alive: bool) -> (r: bool)
    ensures
        r == (parsed(trimmed(contents@), u32::MAX as nat) is None || !alive),
{
    match lock_holder(contents) {
        Some(_) => !alive,
        None => true,
    }
}

/// What is answered when a session of the application is running already.
pub fn session_lock_held(app_id: u32) -> (r: String)
    ensures
        r@ == "Steam session for app "@ + decimal(app_id as nat)
            + " is already running. Stop the existing session before launching again."@,
{
    concat3(
        "Steam session for app ",
        decimal_string(app_id as u128).as_str(),
        " is already running. Stop the existing session before launching again.",
    )
}

/// How a session that Steam started has come out, if it has.
pub open spec fn session_outcome(id: u64, session: Option<ManagedSessionView>) -> Option<
    Result<i32, Seq<char>>,
> {
    match session {
        None => Some(
            Err("Managed session "@ + decimal(id as nat) + " disappeared unexpectedly"@),
        ),
        Some(s) => match s.status {
            SessionStatus::Starting => None,
            SessionStatus::Running => None,
            SessionStatus::Exited => Some(
                Ok(
                    if s.exit_code is Some {
                        s.exit_code->0
                    } else {
                        0
                    },
                ),
            ),
            SessionStatus::Killed => Some(
                Ok(
                    if s.exit_code is Some {
                        s.exit_code->0
                    } else {
                        130
                    },
                ),
            ),
            SessionStatus::Failed => Some(
                Err(
                    if s.exit_code is Some {
                        "Steam session failed"@ + " with exit code "@ + signed_decimal(
                            s.exit_code->0 as int,
                        )
                    } else {
                        "Steam session failed"@
                    },
                ),
            ),
        },
    }
}

/// The session with a number, if there is one.
pub open spec fn session_with(records: Seq<SessionRecordView>, id: u64) -> Option<
    ManagedSessionView,
> {
    let i = record_index(records, id);
    if i < records.len() {
        Some(records[i].session)
    } else {
        None
    }
}

/// How a session that Steam started has come out, if it has: the exit code
/// to pass on, or why there is none.
pub fn run_phase1_steam_session(manager: &RuntimeSessionManager, id: u64) -> (r: Option<
    Result<i32, String>,
>)
    ensures
        match session_outcome(id, session_with(manager.known(), id)) {
            None => r is None,
            Some(Ok(code)) => r == Some(Ok::<i32, String>(code)),
            Some(Err(e)) => r is Some && r->0 is Err && r->0->Err_0@ == e,
        },
{
    let i = find_record(&manager.records, id);
    if i >= manager.records.len() {
        return Some(
            Err(
                concat3(
                    "Managed session ",
                    decimal_string(id as u128).as_str(),
                    " disappeared unexpectedly",
                ),
            ),
        );
    }
    assert(manager.known()[i as int] == manager.records@[i as int].deep_view());
    let session = &manager.records[i].session;
    match session.status {
        SessionStatus::Starting => None,
        SessionStatus::Running => None,
        SessionStatus::Exited => match session.exit_code {
            Some(code) => Some(Ok(code)),
            None => Some(Ok(0)),
        },
        SessionStatus::Killed => match session.exit_code {
            Some(code) => Some(Ok(code)),
            None => Some(Ok(130)),
        },
        SessionStatus::Failed => match session.exit_code {
            Some(code) => Some(
                Err(
                    concat3(
                        "Steam session failed",
                        " with exit code ",
                        signed_decimal_string(code).as_str(),
                    ),
                ),
            ),
            None => Some(Err(owned("Steam session failed"))),
        },
    }
}

/// The launch option that has Steam start a game through this program, given
/// where this program is.
pub fn build_phase1_steam_launch_option(exe: &str, app_id: u32, game_id: &str) -> (r: String)
    ensures
        r@ == shell_quoted(exe@) + " --steam-session "@ + decimal(app_id as nat) + " --game-id "@
            + shell_quoted(game_id@),
{
    let start = concat3(
        shell_quote_value(exe).as_str(),
        " --steam-session ",
        decimal_string(app_id as u128).as_str(),
    );
    concat3(start.as_str(), " --game-id ", shell_quote_value(game_id).as_str())
}

/// The file in which the running sessions are saved, below the user's
/// configuration directory.
pub fn session_registry_path_in(config_dir: Option<String>) -> (r: String)
    ensures
        r@ == joined(joined(or_current(config_dir.deep_view()), "linkmm"@), "sessions.toml"@),
{
    let base = match config_dir {
        Some(d) => d,
        None => owned("."),
    };
    join(join(base.as_str(), "linkmm").as_str(), "sessions.toml")
}

/// The file in which the running sessions are saved.
pub fn session_registry_path() -> (r: String)
    ensures
        exists|dir: Option<Seq<char>>|
            r@ == joined(#[trigger] joined(or_current(dir), "linkmm"@), "sessions.toml"@),
{
    let dir = user_config_dir();
    let ghost d = dir.deep_view();
    let r = session_registry_path_in(dir);
    assert(r@ == joined(joined(or_current(d), "linkmm"@), "sessions.toml"@));
    r
}

// ── Laws ────────────────────────────────────────────────────────────────────

/// At most one session of each game is running.
pub open spec fn one_session_per_game(records: Seq<SessionRecordView>) -> bool {
    forall|i: int, j: int|
        0 <= i < j < records.len() && is_active((#[trigger] records[i]).session) && is_active(
            (#[trigger] records[j]).session,
        ) && records[i].session.kind == SessionKind::Game && records[j].session.kind
            == SessionKind::Game ==> records[i].session.game_id != records[j].session.game_id
}

proof fn lemma_no_first_session(
    records: Seq<SessionRecordView>,
    f: spec_fn(ManagedSessionView) -> bool,
    i: int,
)
    requires
        first_session(records, f) is None,
        0 <= i < records.len(),
    ensures
        !f(records[i].session),
    decreases records.len(),
{
    if i > 0 {
        lemma_no_first_session(records.skip(1), f, i - 1);
        assert(records.skip(1)[i - 1] == records[i]);
    }
}

/// Where a game may be started, its session leaves at most one session of each
/// game running.
pub proof fn starting_keeps_one_session_per_game(
    records: Seq<SessionRecordView>,
    game: GameView,
    added: SessionRecordView,
)
    requires
        one_session_per_game(records),
        game_refusal(records, game) is None,
        added.session.game_id == game.id,
    ensures
        one_session_per_game(records.push(added)),
{
    let f = |s: ManagedSessionView| is_game_session(s, game.id);
    let all = records.push(added);
    assert forall|i: int, j: int|
        0 <= i < j < all.len() && is_active((#[trigger] all[i]).session) && is_active(
            (#[trigger] all[j]).session,
        ) && all[i].session.kind == SessionKind::Game && all[j].session.kind
            == SessionKind::Game implies all[i].session.game_id != all[j].session.game_id by {
        assert(all[i] == records[i]);
        if j < records.len() {
            assert(all[j] == records[j]);
        } else {
            lemma_no_first_session(records, f, i);
        }
    }
}

proof fn lemma_record_index(records: Seq<SessionRecordView>, id: u64)
    ensures
        0 <= record_index(records, id) <= records.len(),
        record_index(records, id) < records.len() ==> records[record_index(
            records,
            id,
        )].session.id == id,
        forall|i: int|
            0 <= i < record_index(records, id) ==> (#[trigger] records[i]).session.id != id,
    decreases records.len(),
{
    if records.len() > 0 && records[0].session.id != id {
        lemma_record_index(records.skip(1), id);
        assert forall|i: int| 0 <= i < record_index(records, id) implies (
        #[trigger] records[i]).session.id != id by {
            if i > 0 {
                assert(records.skip(1)[i - 1] == records[i]);
            }
        }
    }
}

/// The end of a session and its log lines leave at most one session of each
/// game running.
pub proof fn ending_keeps_one_session_per_game(
    records: Seq<SessionRecordView>,
    id: u64,
    line: SessionLogLineView,
    end: ProcessEnd,
    follow_up_failed: bool,
    stopped: bool,
)
    requires
        one_session_per_game(records),
    ensures
        one_session_per_game(with_log(records, id, line)),
        one_session_per_game(
            with_end(records, id, end_status(end, follow_up_failed, stopped), end.code),
        ),
{
    lemma_record_index(records, id);
    let a = with_log(records, id, line);
    let b = with_end(records, id, end_status(end, follow_up_failed, stopped), end.code);
    assert forall|i: int| 0 <= i < records.len() implies (#[trigger] a[i]).session
        == records[i].session && (is_active((#[trigger] b[i]).session) ==> b[i].session
        == records[i].session) by {}
}

/// A session whose process has ended runs no more, and a session that was to
/// be stopped counts as killed unless what followed it failed.
pub proof fn ended_session_is_not_active(
    records: Seq<SessionRecordView>,
    id: u64,
    end: ProcessEnd,
    follow_up_failed: bool,
    stopped: bool,
)
    requires
        session_with(records, id) is Some,
    ensures
        ({
            let after = with_end(
                records,
                id,
                end_status(end, follow_up_failed, stopped),
                end.code,
            );
            &&& session_with(after, id) is Some
            &&& !is_active(session_with(after, id)->0)
            &&& session_with(after, id)->0.exit_code == end.code
            &&& stopped && !follow_up_failed ==> session_with(after, id)->0.status
                == SessionStatus::Killed
        }),
{
    lemma_record_index(records, id);
    let after = with_end(records, id, end_status(end, follow_up_failed, stopped), end.code);
    lemma_record_index(after, id);
    let i = record_index(records, id);
    let j = record_index(after, id);
    assert(after[i].session.id == id);
    assert forall|k: int| 0 <= k < i implies after[k] == records[k] by {}
    if j < i {
        assert(after[j] == records[j]);
    }
    if i < j {
        assert(after[i].session.id != id);
    }
}

/// Each line of a session's log reads back in the order in which it came, but
/// for the oldest, which make room: what is kept is always the last lines of
/// all that came.
pub proof fn log_keeps_the_last_lines(
    all: Seq<SessionLogLineView>,
    line: SessionLogLineView,
)
    ensures
        kept_lines(kept_lines(all).push(line)) == kept_lines(all.push(line)),
{
    assert(kept_lines(kept_lines(all).push(line)) =~= kept_lines(all.push(line)));
}

/// Of the names of executables the first that exists in the game's directory is
/// taken.
pub proof fn first_existing_executable_is_taken(
    root: Seq<char>,
    names: Seq<Seq<char>>,
    existing: Seq<Seq<char>>,
    i: int,
)
    ensures
        0 <= i < names.len() && existing.contains(joined(root, names[i])) && (forall|j: int|
            0 <= j < i ==> !existing.contains(joined(root, #[trigger] names[j])))
            ==> first_existing(root, names, existing) == Some(joined(root, names[i])),
        (forall|j: int|
            0 <= j < names.len() ==> !existing.contains(joined(root, #[trigger] names[j])))
            ==> first_existing(root, names, existing) is None,
    decreases names.len(),
{
    if names.len() > 0 && !existing.contains(joined(root, names[0])) {
        let rest = names.skip(1);
        first_existing_executable_is_taken(root, rest, existing, i - 1);
        assert(forall|j: int| 0 <= j < rest.len() ==> #[trigger] rest[j] == names[j + 1]);
    }
}

/// The executable that the user prefers is taken where it exists.
pub proof fn preferred_executable_is_taken(
    game: GameView,
    preferred: Seq<char>,
    existing: Seq<Seq<char>>,
)
    ensures
        existing.contains(joined(game.root_path, preferred)) ==> steam_exe(
            game,
            Some(preferred),
            existing,
        ) == Some(joined(game.root_path, preferred)),
        !existing.contains(joined(game.root_path, preferred)) ==> steam_exe(
            game,
            Some(preferred),
            existing,
        ) == steam_exe(game, None, existing),
        steam_exe(game, None, existing) is Some ==> existing.contains(
            steam_exe(game, None, existing)->0,
        ),
{
    lemma_existing_exists(game.root_path, redirect_candidates(game.kind), existing);
}

proof fn lemma_existing_exists(
    root: Seq<char>,
    names: Seq<Seq<char>>,
    existing: Seq<Seq<char>>,
)
    ensures
        first_existing(root, names, existing) is Some ==> existing.contains(
            first_existing(root, names, existing)->0,
        ),
    decreases names.len(),
{
    if names.len() > 0 {
        lemma_existing_exists(root, names.skip(1), existing);
    }
}

/// A session ends as failed if what follows it failed, else as killed if it was
/// to be stopped, else as its process ended.
pub proof fn sessions_end_as_they_went(end: ProcessEnd, follow_up_failed: bool, stopped: bool)
    ensures
        ({
            let status = end_status(end, follow_up_failed, stopped);
            &&& status == SessionStatus::Killed <==> stopped && !follow_up_failed
            &&& status == SessionStatus::Exited <==> !stopped && !follow_up_failed && end.success
            &&& status == SessionStatus::Failed <==> follow_up_failed || (!stopped && !end.success)
        }),
{
}

/// Logging to a session and ending it change that session and no other.
pub proof fn other_sessions_are_kept(
    records: Seq<SessionRecordView>,
    id: u64,
    line: SessionLogLineView,
    status: SessionStatus,
    code: Option<i32>,
    i: int,
)
    requires
        0 <= i < records.len(),
    ensures
        with_log(records, id, line).len() == records.len(),
        with_end(records, id, status, code).len() == records.len(),
        records[i].session.id != id ==> with_log(records, id, line)[i] == records[i],
        records[i].session.id != id ==> with_end(records, id, status, code)[i] == records[i],
        records[i].session.id == id && (forall|j: int|
            0 <= j < i ==> (#[trigger] records[j]).session.id != id) ==> {
            let logged = with_log(records, id, line)[i];
            let ended = with_end(records, id, status, code)[i];
            &&& logged.session == records[i].session
            &&& logged.logs.len() > 0 && logged.logs.last() == line
            &&& logged.logs.len() <= MAX_LOG_LINES
            &&& logged.logs.drop_last().is_suffix_of(records[i].logs)
            &&& records[i].logs.len() < MAX_LOG_LINES ==> logged.logs == records[i].logs.push(line)
            &&& ended.logs == records[i].logs
            &&& ended.session.status == status
            &&& ended.session.exit_code == code
            &&& ended.session.game_id == records[i].session.game_id
            &&& ended.session.id == id
        },
{
    lemma_record_index(records, id);
    let k = record_index(records, id);
    if records[i].session.id == id && (forall|j: int|
        0 <= j < i ==> (#[trigger] records[j]).session.id != id) {
        assert(k == i) by {
            if k < i {
                assert(records[k].session.id != id);
            }
        }
        let old_logs = records[i].logs;
        let new_logs = with_log(records, id, line)[i].logs;
        let all = old_logs.push(line);
        let n = if all.len() > MAX_LOG_LINES {
            all.len() - MAX_LOG_LINES
        } else {
            0
        };
        assert(new_logs =~= all.skip(n));
        let before = new_logs.drop_last();
        assert(before =~= old_logs.skip(n));
        assert(old_logs.subrange(old_logs.len() - before.len(), old_logs.len() as int) =~= before);
    }
}

/// A game is started as it is configured: a Steam game by the executable that
/// was found and its application, another by its own executable in its own
/// prefix.
pub proof fn games_start_as_configured(
    game: GameView,
    preferred: Option<Seq<char>>,
    files: Seq<Seq<char>>,
    directories: Seq<Seq<char>>,
    umu_available: bool,
)
    ensures
        ({
            let launch = game_launch(game, preferred, files, directories, umu_available);
            let steam = game.launcher_source == GameLauncherSource::Steam;
            let exe = steam_exe(game, preferred, files);
            &&& steam ==> (launch is Ok <==> exe is Some)
            &&& steam && exe is Some ==> launch->Ok_0 is Steam && launch->Ok_0->Steam_0 == exe->0
                && Some(launch->Ok_0->Steam_1) == instance_app_id(game)
            &&& !steam ==> (launch is Ok <==> umu_problem(game, files, directories, umu_available)
                is None)
            &&& !steam && launch is Ok ==> launch->Ok_0 is Umu && {
                let u = launch->Ok_0->Umu_0;
                let c = game.umu_config->0;
                &&& u.exe_path == c.exe_path
                &&& u.prefix_path == c.prefix_path
                &&& u.proton_path == c.proton_path
                &&& u.arguments.len() == 0
                &&& u.app_id == primary_app_id(game.kind)
                &&& u.store == "none"@
                &&& u.steam_root is None
            }
        }),
{
    reveal_strlit("");
    crate::games::umu_is_ready_if_everything_is_there(game, files, directories, umu_available);
}

/// A tool is started with its own executable and arguments in the prefix of the
/// game: that of the Steam application below `pfx`, with the Proton that was
/// found, or that of the game's configuration.
pub proof fn tools_start_in_the_games_prefix(
    game: GameView,
    tool: ToolConfig,
    files: Seq<Seq<char>>,
    directories: Seq<Seq<char>>,
    umu_available: bool,
    proton: Result<(Seq<char>, Seq<char>), Seq<char>>,
    steam_root: Option<Seq<char>>,
)
    ensures
        ({
            let launch = tool_launch(
                game,
                tool,
                files,
                directories,
                umu_available,
                proton,
                steam_root,
            );
            let steam = game.launcher_source == GameLauncherSource::Steam;
            &&& launch is Ok ==> launch->Ok_0.exe_path == tool.exe_path@ && launch->Ok_0.arguments
                == tool.arguments@
            &&& steam ==> (launch is Ok <==> proton is Ok)
            &&& steam && proton is Err ==> launch->Err_0 == proton->Err_0
            &&& steam && proton is Ok ==> {
                let u = launch->Ok_0;
                &&& u.proton_path == Some(proton->Ok_0.0)
                &&& u.prefix_path == Some(joined(proton->Ok_0.1, "pfx"@))
                &&& Some(u.app_id) == instance_app_id(game)
                &&& u.steam_root == steam_root
                &&& u.store == "steam"@
            }
            &&& !steam ==> (launch is Ok <==> umu_problem(game, files, directories, umu_available)
                is None)
            &&& !steam && launch is Ok ==> {
                let u = launch->Ok_0;
                &&& u.proton_path == game.umu_config->0.proton_path
                &&& u.prefix_path == game.umu_config->0.prefix_path
                &&& u.app_id == primary_app_id(game.kind)
                &&& u.steam_root is None
                &&& u.store == "none"@
            }
        }),
{
}

/// The game that Steam asks to start is one of the configured ones for its
/// application: the one that was asked for, else the current one, else the one
/// in the directory at hand, else the only one.
pub proof fn steam_starts_a_configured_game(
    config: AppConfigView,
    app_id: u32,
    requested: Option<Seq<char>>,
    current_dir: Option<Seq<char>>,
)
    ensures
        ({
            let found = steam_game_for(config, app_id, requested, current_dir);
            let fits = |g: GameView|
                config.games.contains(g) && g.launcher_source == GameLauncherSource::Steam
                    && instance_app_id(g) == Some(app_id) && g.kind == GameKind::SkyrimSE;
            &&& found is Ok ==> fits(found->Ok_0)
            &&& found is Ok && requested is Some ==> found->Ok_0.id == requested->0
            &&& (forall|g: GameView| !#[trigger] fits(g)) ==> found is Err
            &&& requested is Some && (exists|g: GameView| #[trigger] fits(g) && g.id
                == requested->0) ==> found is Ok
            &&& requested is None && config.current_game_id is Some && (exists|g: GameView|
                #[trigger] fits(g) && g.id == config.current_game_id->0) ==> found is Ok
                && found->Ok_0.id == config.current_game_id->0
            &&& requested is None && config.current_game_id is None && current_dir is Some && (
            exists|g: GameView| #[trigger] fits(g) && path_same(g.root_path, current_dir->0))
                ==> found is Ok && path_same(found->Ok_0.root_path, current_dir->0)
        }),
{
    let targets = steam_targets(config.games, app_id);
    let keep = |g: GameView| is_steam_target(g, app_id);
    let fits = |g: GameView|
        config.games.contains(g) && g.launcher_source == GameLauncherSource::Steam
            && instance_app_id(g) == Some(app_id) && g.kind == GameKind::SkyrimSE;
    assert forall|g: GameView| #[trigger] fits(g) <==> targets.contains(g) by {
        if targets.contains(g) {
            let i = choose|i: int| 0 <= i < targets.len() && targets[i] == g;
            config.games.lemma_filter_contains_rev(keep, g);
            config.games.lemma_filter_pred(keep, i);
        }
        if fits(g) {
            let i = choose|i: int| 0 <= i < config.games.len() && config.games[i] == g;
            config.games.lemma_filter_contains(keep, i);
        }
    }
    if targets.len() > 0 {
        assert(targets.contains(targets[0]));
        assert(fits(targets[0]));
    }
    if requested is Some {
        lemma_game_with_id(targets, requested->0);
    }
    if config.current_game_id is Some {
        lemma_game_with_id(targets, config.current_game_id->0);
    }
    if current_dir is Some {
        lemma_game_in_dir(targets, current_dir->0);
    }
}

proof fn lemma_game_with_id(games: Seq<GameView>, id: Seq<char>)
    ensures
        game_with_id(games, id) is Some ==> games.contains(game_with_id(games, id)->0)
            && game_with_id(games, id)->0.id == id,
        game_with_id(games, id) is None ==> forall|g: GameView| #[trigger]
            games.contains(g) ==> g.id != id,
    decreases games.len(),
{
    if games.len() > 0 {
        let rest = games.skip(1);
        lemma_game_with_id(rest, id);
        lemma_behind_first(games);
    }
}

proof fn lemma_behind_first(games: Seq<GameView>)
    requires
        games.len() > 0,
    ensures
        forall|g: GameView| #[trigger]
            games.contains(g) <==> g == games[0] || games.skip(1).contains(g),
{
    let rest = games.skip(1);
    assert forall|g: GameView| #[trigger] games.contains(g) <==> g == games[0] || rest.contains(
        g,
    ) by {
        if rest.contains(g) {
            let i = choose|i: int| 0 <= i < rest.len() && rest[i] == g;
            assert(games[i + 1] == g);
        }
        if games.contains(g) && g != games[0] {
            let i = choose|i: int| 0 <= i < games.len() && games[i] == g;
            assert(rest[i - 1] == g);
        }
    }
}

proof fn lemma_game_in_dir(games: Seq<GameView>, dir: Seq<char>)
    ensures
        game_in_dir(games, dir) is Some ==> games.contains(game_in_dir(games, dir)->0) && path_same(
            game_in_dir(games, dir)->0.root_path,
            dir,
        ),
        game_in_dir(games, dir) is None ==> forall|g: GameView| #[trigger]
            games.contains(g) ==> !path_same(g.root_path, dir),
    decreases games.len(),
{
    if games.len() > 0 {
        let rest = games.skip(1);
        lemma_game_in_dir(rest, dir);
        lemma_behind_first(games);
    }
}

/// The locks of two applications are two files.
pub proof fn locks_of_applications_differ(base: Seq<char>, a: u32, b: u32)
    requires
        lock_file(base, a) == lock_file(base, b),
    ensures
        a == b,
{
    reveal_strlit("linkmm");
    reveal_strlit("steam-session-");
    reveal_strlit(".pid");
    let dir = joined(base, "linkmm"@);
    let (x, y) = (decimal(a as nat), decimal(b as nat));
    let (p, q) = ("steam-session-"@ + x + ".pid"@, "steam-session-"@ + y + ".pid"@);
    let (s, t) = (joined(dir, p), joined(dir, q));
    let n = s.len() - p.len();
    assert(dir.len() > 0);
    assert(s.skip(n) =~= p);
    assert(t.skip(n) =~= q);
    assert(p == q);
    assert(x =~= p.subrange(14, p.len() - 4));
    assert(y =~= q.subrange(14, q.len() - 4));
    crate::number::decimal_is_injective(a as nat, b as nat);
}

/// A session that runs has no outcome yet; one that is gone or failed is an
/// error; else the outcome is its exit code, or the usual code for how it ended.
pub proof fn outcomes_follow_from_how_sessions_end(id: u64, s: ManagedSessionView)
    ensures
        session_outcome(id, None) is Some && session_outcome(id, None)->0 is Err,
        session_outcome(id, Some(s)) is None <==> is_active(s),
        s.status == SessionStatus::Failed <==> session_outcome(id, Some(s)) is Some
            && session_outcome(id, Some(s))->0 is Err,
        !is_active(s) && s.status != SessionStatus::Failed ==> session_outcome(id, Some(s))->0
            == Ok::<i32, Seq<char>>(
            if s.exit_code is Some {
                s.exit_code->0
            } else if s.status == SessionStatus::Killed {
                130
            } else {
                0
            },
        ),
{
}

/// A session that is started runs, has no exit code yet, and is what was asked
/// for.
pub proof fn started_sessions_run(id: u64, start: SessionStart)
    ensures
        ({
            let s = started_session(id, start);
            &&& s.id == id
            &&& s.status == SessionStatus::Running
            &&& is_active(s)
            &&& s.exit_code is None
            &&& s.kind == start.kind
            &&& s.game_id == start.game_id@
            &&& s.tool_id == start.tool_id.deep_view()
            &&& s.pid == start.pid
            &&& s.started_at == start.started_at
            &&& s.launcher_source == start.launcher_source
            &&& s.scratch_dir == start.scratch_dir.deep_view()
        }),
{
}

/// The sessions of a game and those of its tools are told apart by their kind,
/// and ended ones are neither.
pub proof fn sessions_are_told_apart(
    s: ManagedSessionView,
    game_id: Seq<char>,
    tool_id: Seq<char>,
)
    ensures
        !(is_game_session(s, game_id) && is_tool_session(s, game_id, tool_id)),
        is_game_session(s, game_id) || is_tool_session(s, game_id, tool_id) ==> s.game_id == game_id
            && (s.status == SessionStatus::Starting || s.status == SessionStatus::Running),
        is_tool_session(s, game_id, tool_id) ==> s.tool_id == Some(tool_id) && s.kind
            == SessionKind::Tool,
        s.kind == SessionKind::Game && s.game_id == game_id && s.status == SessionStatus::Running
            ==> is_game_session(s, game_id),
        s.kind == SessionKind::Tool && s.game_id == game_id && s.tool_id == Some(tool_id)
            && s.status == SessionStatus::Running ==> is_tool_session(s, game_id, tool_id),
{
}

/// A second session of a game is refused while one is active, and so is a Steam
/// game other than Skyrim Special Edition; no other is.
pub proof fn games_are_refused_while_they_run(
    records: Seq<SessionRecordView>,
    game: GameView,
    i: int,
)
    ensures
        0 <= i < records.len() && records[i].session.kind == SessionKind::Game
            && records[i].session.game_id == game.id && is_active(records[i].session)
            ==> game_refusal(records, game) is Some,
        game.launcher_source == GameLauncherSource::Steam && game.kind != GameKind::SkyrimSE
            ==> game_refusal(records, game) is Some,
        (forall|j: int|
            0 <= j < records.len() ==> !is_game_session((#[trigger] records[j]).session, game.id))
            && (game.launcher_source != GameLauncherSource::Steam || game.kind
            == GameKind::SkyrimSE) ==> game_refusal(records, game) is None,
{
    let f = |s: ManagedSessionView| is_game_session(s, game.id);
    if first_session(records, f) is None && 0 <= i < records.len() {
        lemma_no_first_session(records, f, i);
    }
    if forall|j: int|
        0 <= j < records.len() ==> !is_game_session((#[trigger] records[j]).session, game.id) {
        lemma_none_first(records, f);
    }
}

proof fn lemma_none_first(
    records: Seq<SessionRecordView>,
    f: spec_fn(ManagedSessionView) -> bool,
)
    requires
        forall|j: int| 0 <= j < records.len() ==> !f((#[trigger] records[j]).session),
    ensures
        first_session(records, f) is None,
    decreases records.len(),
{
    if records.len() > 0 {
        assert(!f(records[0].session));
        let rest = records.skip(1);
        assert forall|j: int| 0 <= j < rest.len() implies !f((#[trigger] rest[j]).session) by {
            assert(rest[j] == records[j + 1]);
        }
        lemma_none_first(rest, f);
    }
}

} // verus!
