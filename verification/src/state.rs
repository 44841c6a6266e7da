//! The persisted application state: configuration, pending operations,
//! notifications and terminal-session records, and their abstract views.

use vstd::prelude::*;

verus! {

/// The application configuration.
#[derive(Debug)]
pub struct SidecarConfig {
    pub theme: String,
    pub auto_approve_read_ops: bool,
    pub show_notifications: bool,
    pub terminal_shell: String,
    pub encryption_enabled: bool,
}

/// The abstract content of a configuration.
#[verifier::ext_equal]
pub struct ConfigV {
    pub theme: Seq<char>,
    pub auto_approve_read_ops: bool,
    pub show_notifications: bool,
    pub terminal_shell: Seq<char>,
    pub encryption_enabled: bool,
}

impl View for SidecarConfig {
    type V = ConfigV;

    open spec fn view(&self) -> ConfigV {
        ConfigV {
            theme: self.theme@,
            auto_approve_read_ops: self.auto_approve_read_ops,
            show_notifications: self.show_notifications,
            terminal_shell: self.terminal_shell@,
            encryption_enabled: self.encryption_enabled,
        }
    }
}

impl Clone for SidecarConfig {
    fn clone(&self) -> (r: Self)
        ensures
            r@ == self@,
    {
        SidecarConfig {
            theme: self.theme.clone(),
            auto_approve_read_ops: self.auto_approve_read_ops,
            show_notifications: self.show_notifications,
            terminal_shell: self.terminal_shell.clone(),
            encryption_enabled: self.encryption_enabled,
        }
    }
}

impl Default for SidecarConfig {
    /// The default configuration: theme "dark", read operations
    /// auto-approved, notifications shown, shell `/bin/bash`,
    /// encryption disabled.
    fn default() -> (r: Self)
        ensures
            r@ == default_config(),
    {
        proof {
            reveal_strlit("dark");
            reveal_strlit("/bin/bash");
        }
        SidecarConfig {
            theme: "dark".to_owned(),
            auto_approve_read_ops: true,
            show_notifications: true,
            terminal_shell: "/bin/bash".to_owned(),
            encryption_enabled: false,
        }
    }
}

/// What the default configuration holds.
pub open spec fn default_config() -> ConfigV {
    ConfigV {
        theme: "dark"@,
        auto_approve_read_ops: true,
        show_notifications: true,
        terminal_shell: "/bin/bash"@,
        encryption_enabled: false,
    }
}

/// An operation waiting for approval.  The payload is a flat map of
/// text keys to text values.
#[derive(Debug)]
pub struct PendingOperation {
    pub id: String,
    pub operation_type: String,
    pub payload: Vec<(String, String)>,
    pub status: String,
    pub timestamp: String,
    pub source: String,
}

/// The abstract content of a pending operation.
#[verifier::ext_equal]
pub struct OpV {
    pub id: Seq<char>,
    pub operation_type: Seq<char>,
    pub payload: Seq<(Seq<char>, Seq<char>)>,
    pub status: Seq<char>,
    pub timestamp: Seq<char>,
    pub source: Seq<char>,
}

/// The abstract content of a payload map.
pub open spec fn payload_view(p: Seq<(String, String)>) -> Seq<(Seq<char>, Seq<char>)> {
    p.map_values(|e: (String, String)| (e.0@, e.1@))
}

impl View for PendingOperation {
    type V = OpV;

    open spec fn view(&self) -> OpV {
        OpV {
            id: self.id@,
            operation_type: self.operation_type@,
            payload: payload_view(self.payload@),
            status: self.status@,
            timestamp: self.timestamp@,
            source: self.source@,
        }
    }
}

/// Copy a payload map.
pub fn clone_payload(p: &Vec<(String, String)>) -> (r: Vec<(String, String)>)
    ensures
        payload_view(r@) == payload_view(p@),
{
    let mut r: Vec<(String, String)> = Vec::new();
    let n = p.len();
    let mut i: usize = 0;
    while i < n
        invariant
            n == p@.len(),
            i <= n,
            r@.len() == i,
            forall|j: int| 0 <= j < i ==> r@[j].0@ == p@[j].0@ && r@[j].1@ == p@[j].1@,
        decreases n - i,
    {
        let entry = &p[i];
        r.push((entry.0.clone(), entry.1.clone()));
        i += 1;
    }
    proof {
        assert(payload_view(r@) =~= payload_view(p@));
    }
    r
}

impl Clone for PendingOperation {
    fn clone(&self) -> (r: Self)
        ensures
            r@ == self@,
    {
        PendingOperation {
            id: self.id.clone(),
            operation_type: self.operation_type.clone(),
            payload: clone_payload(&self.payload),
            status: self.status.clone(),
            timestamp: self.timestamp.clone(),
            source: self.source.clone(),
        }
    }
}

/// A notification shown to the operator.
#[derive(Debug)]
pub struct NotificationEvent {
    pub id: String,
    pub message: String,
    pub level: String,
    pub timestamp: String,
    pub dismissed: bool,
}

/// The abstract content of a notification.
#[verifier::ext_equal]
pub struct NoteV {
    pub id: Seq<char>,
    pub message: Seq<char>,
    pub level: Seq<char>,
    pub timestamp: Seq<char>,
    pub dismissed: bool,
}

impl View for NotificationEvent {
    type V = NoteV;

    open spec fn view(&self) -> NoteV {
        NoteV {
            id: self.id@,
            message: self.message@,
            level: self.level@,
            timestamp: self.timestamp@,
            dismissed: self.dismissed,
        }
    }
}

impl Clone for NotificationEvent {
    fn clone(&self) -> (r: Self)
        ensures
            r@ == self@,
    {
        NotificationEvent {
            id: self.id.clone(),
            message: self.message.clone(),
            level: self.level.clone(),
            timestamp: self.timestamp.clone(),
            dismissed: self.dismissed,
        }
    }
}

/// A terminal-session record: bookkeeping only, no real process.
#[derive(Debug)]
pub struct TerminalSession {
    pub id: String,
    pub shell: String,
    pub rows: u16,
    pub cols: u16,
    pub active: bool,
    pub created_at: String,
}

/// The abstract content of a terminal-session record.
#[verifier::ext_equal]
pub struct SessV {
    pub id: Seq<char>,
    pub shell: Seq<char>,
    pub rows: u16,
    pub cols: u16,
    pub active: bool,
    pub created_at: Seq<char>,
}

impl View for TerminalSession {
    type V = SessV;

    open spec fn view(&self) -> SessV {
        SessV {
            id: self.id@,
            shell: self.shell@,
            rows: self.rows,
            cols: self.cols,
            active: self.active,
            created_at: self.created_at@,
        }
    }
}

impl Clone for TerminalSession {
    fn clone(&self) -> (r: Self)
        ensures
            r@ == self@,
    {
        TerminalSession {
            id: self.id.clone(),
            shell: self.shell.clone(),
            rows: self.rows,
            cols: self.cols,
            active: self.active,
            created_at: self.created_at.clone(),
        }
    }
}

/// The plaintext structure that exists before encryption and after
/// decryption: the single source of truth for durable data.
#[derive(Debug)]
pub struct PersistedState {
    pub config: SidecarConfig,
    pub pending_operations: Vec<PendingOperation>,
    pub notifications: Vec<NotificationEvent>,
    pub terminal_sessions: Vec<TerminalSession>,
}

/// The abstract content of the persisted state.
#[verifier::ext_equal]
pub struct StateV {
    pub config: ConfigV,
    pub pending_operations: Seq<OpV>,
    pub notifications: Seq<NoteV>,
    pub terminal_sessions: Seq<SessV>,
}

impl View for PersistedState {
    type V = StateV;

    open spec fn view(&self) -> StateV {
        StateV {
            config: self.config@,
            pending_operations: self.pending_operations@.map_values(|o: PendingOperation| o@),
            notifications: self.notifications@.map_values(|n: NotificationEvent| n@),
            terminal_sessions: self.terminal_sessions@.map_values(|s: TerminalSession| s@),
        }
    }
}

/// What the default state holds: the default configuration and empty
/// collections.
pub open spec fn default_state() -> StateV {
    StateV {
        config: default_config(),
        pending_operations: Seq::empty(),
        notifications: Seq::empty(),
        terminal_sessions: Seq::empty(),
    }
}

impl Default for PersistedState {
    /// The default state: default configuration, no operations, no
    /// notifications, no sessions.
    fn default() -> (r: Self)
        ensures
            r@ == default_state(),
    {
        let r = PersistedState {
            config: SidecarConfig::default(),
            pending_operations: Vec::new(),
            notifications: Vec::new(),
            terminal_sessions: Vec::new(),
        };
        proof {
            assert(r@ =~= default_state());
        }
        r
    }
}

} // verus!
