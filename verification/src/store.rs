//! The persisted state store: one in-memory state, loaded from and
//! saved to a single file's content, through the codec when encryption
//! is enabled.
//!
//! Every mutator applies its change in memory and immediately produces
//! the new file content to persist (the autosave discipline).  A save
//! failure is reported to the caller, but the in-memory change stands:
//! memory and disk may diverge until the next successful save.

use vstd::prelude::*;

use crate::codec::{
    lemma_penv_full_render, lemma_pstate_full_render, parse_env_file, parse_state_file, penv_full,
    pstate_full, render_env, render_env_vec, render_state, render_state_vec, EnvV,
};
use crate::crypto::{envelope_for, sealed_for, CryptoError, CryptoManager, EncryptedData, SEAL_MAX};
use crate::state::{
    payload_view, NoteV, NotificationEvent, OpV, PendingOperation, PersistedState, SessV,
    SidecarConfig, StateV, TerminalSession,
};

verus! {

/// Relies on uuid's `Uuid::new_v4` and its hyphenated `to_string`: a
/// fresh random identifier always prints as 36 characters.
#[verifier::external_body]
fn new_id() -> (r: String)
    ensures
        r@.len() == 36,
{
    uuid::Uuid::new_v4().to_string()
}

/// Relies on chrono's `Utc::now` and `to_rfc3339`: the current time as
/// text; nothing is assumed of the value.
#[verifier::external_body]
fn now_rfc3339() -> (r: String) {
    chrono::Utc::now().to_rfc3339()
}

/// The content is an envelope whose ciphertext seals the rendered
/// state under the passphrase: what an encrypted save writes.
pub open spec fn saved_encrypted(content: Seq<u8>, pass: Seq<u8>, m: StateV) -> bool {
    render_state(m).len() <= SEAL_MAX && exists|env: EnvV|
        content == render_env(env) && envelope_for(
            env.salt,
            env.nonce,
            env.ciphertext,
            pass,
            render_state(m),
        )
}

/// The content can be loaded back as `m` under the passphrase: the
/// envelope parses whole and seals the rendering of `m`.
pub open spec fn loadable_encrypted(content: Seq<u8>, pass: Seq<u8>, m: StateV) -> bool {
    render_state(m).len() <= SEAL_MAX && exists|env: EnvV|
        penv_full(content) == Some(env) && envelope_for(
            env.salt,
            env.nonce,
            env.ciphertext,
            pass,
            render_state(m),
        )
}

/// What an encrypted save writes, an encrypted load with the same
/// passphrase accepts, and it yields the same state: the save/load
/// round trip loses nothing.
pub proof fn lemma_saved_loadable(content: Seq<u8>, pass: Seq<u8>, m: StateV)
    requires
        saved_encrypted(content, pass, m),
    ensures
        loadable_encrypted(content, pass, m),
{
    let env = choose|env: EnvV|
        content == render_env(env) && envelope_for(
            env.salt,
            env.nonce,
            env.ciphertext,
            pass,
            render_state(m),
        );
    lemma_penv_full_render(env);
}

/// What a plaintext save writes, a plaintext load accepts, and it
/// yields the same state.
pub proof fn lemma_plain_save_load(m: StateV)
    ensures
        pstate_full(render_state(m)) == Some(m),
{
    lemma_pstate_full_render(m);
}

/// The errors of the store's mutators.
#[derive(Debug)]
pub enum StoreError {
    /// No pending operation has the given id.
    OperationNotFound,
    /// No terminal session has the given id.
    SessionNotFound,
    /// The terminal session is no longer active.
    SessionInactive,
    /// The in-memory change was applied, but producing the file
    /// content failed.
    SaveFailed(CryptoError),
}

impl CryptoManager {
    /// Encrypt the canonical rendering of a state structure.
    pub fn encrypt_json(&mut self, state: &PersistedState) -> (r: Result<
        EncryptedData,
        CryptoError,
    >)
        requires
            old(self).wf(),
        ensures
            final(self).wf(),
            final(self).has_passphrase() == old(self).has_passphrase(),
            final(self).pass_bytes() == old(self).pass_bytes(),
            (r is Err && r->Err_0 is InvalidPassphrase) <==> !old(self).has_passphrase(),
            old(self).has_passphrase() ==> (r is Ok <==> render_state(state@).len() <= SEAL_MAX),
            r is Ok ==> sealed_for(r->Ok_0, final(self).pass_bytes(), render_state(state@)),
            r is Err && old(self).has_passphrase() ==> r->Err_0 is EncryptionFailed,
            forall|s: Seq<char>| old(self).salt_cached(s) ==> final(self).salt_cached(s),
    {
        let bytes = render_state_vec(state);
        self.encrypt(bytes.as_slice())
    }

    /// Decrypt an envelope and parse the plaintext as a state
    /// structure; a plaintext that is no canonical state rendering is
    /// a `SerializationError`, distinct from any cryptographic failure.
    ///
    /// An envelope that seals the rendering of a state under the
    /// configured passphrase always comes back as exactly that state.
    pub fn decrypt_json(&mut self, encrypted_data: &EncryptedData) -> (r: Result<
        PersistedState,
        CryptoError,
    >)
        requires
            old(self).wf(),
        ensures
            final(self).wf(),
            final(self).has_passphrase() == old(self).has_passphrase(),
            final(self).pass_bytes() == old(self).pass_bytes(),
            (r is Err && r->Err_0 is InvalidPassphrase) <==> !old(self).has_passphrase(),
            r is Ok ==> exists|pt: Seq<u8>|
                sealed_for(*encrypted_data, final(self).pass_bytes(), pt) && pstate_full(pt)
                    == Some(r->Ok_0@),
            forall|m: StateV|
                sealed_for(*encrypted_data, old(self).pass_bytes(), render_state(m))
                    && render_state(m).len() <= SEAL_MAX && old(self).has_passphrase() ==> r
                    is Ok && r->Ok_0@ == m,
            (r is Err && r->Err_0 is SerializationError) <==> (old(self).has_passphrase()
                && exists|pt: Seq<u8>|
                sealed_for(*encrypted_data, old(self).pass_bytes(), pt) && pt.len() <= SEAL_MAX
                    + 16 && pstate_full(pt) is None),
            forall|s: Seq<char>| old(self).salt_cached(s) ==> final(self).salt_cached(s),
    {
        let plaintext = match self.decrypt(encrypted_data) {
            Ok(p) => p,
            Err(e) => {
                proof {
                    assert forall|m: StateV|
                        sealed_for(*encrypted_data, old(self).pass_bytes(), render_state(m))
                            && render_state(m).len() <= SEAL_MAX && old(
                            self,
                        ).has_passphrase() implies false by {}
                    assert forall|pt: Seq<u8>|
                        sealed_for(*encrypted_data, old(self).pass_bytes(), pt) && pt.len()
                            <= SEAL_MAX + 16 && old(self).has_passphrase() implies false by {}
                }
                return Err(e);
            },
        };
        match parse_state_file(plaintext.as_slice()) {
            Some(state) => {
                proof {
                    assert forall|m: StateV|
                        sealed_for(*encrypted_data, old(self).pass_bytes(), render_state(m))
                            && render_state(m).len() <= SEAL_MAX && old(
                            self,
                        ).has_passphrase() implies state@ == m by {
                        assert(plaintext@ == render_state(m));
                        lemma_pstate_full_render(m);
                    }
                    assert forall|pt: Seq<u8>|
                        sealed_for(*encrypted_data, old(self).pass_bytes(), pt) && pt.len()
                            <= SEAL_MAX + 16 implies !(pstate_full(pt) is None) by {
                        assert(pt == plaintext@);
                    }
                }
                Ok(state)
            },
            None => {
                proof {
                    assert forall|m: StateV|
                        sealed_for(*encrypted_data, old(self).pass_bytes(), render_state(m))
                            && render_state(m).len() <= SEAL_MAX && old(
                            self,
                        ).has_passphrase() implies false by {
                        assert(plaintext@ == render_state(m));
                        lemma_pstate_full_render(m);
                    }
                    assert(old(self).has_passphrase());
                    assert(sealed_for(*encrypted_data, old(self).pass_bytes(), plaintext@)
                        && plaintext@.len() <= SEAL_MAX + 16 && pstate_full(plaintext@)
                        is None);
                }
                Err(CryptoError::SerializationError(
                    "the plaintext is not a canonical state rendering".to_owned(),
                ))
            },
        }
    }
}

/// The application state and its persistence: the single source of
/// truth for durable data, routed through the codec on every save and
/// load.
pub struct AppState {
    pub state: PersistedState,
    crypto: CryptoManager,
}

impl AppState {
    /// The abstract content of the in-memory state.
    pub closed spec fn state_view(&self) -> StateV {
        self.state@
    }

    /// Whether saves and loads run through encryption.
    pub closed spec fn encryption_on(&self) -> bool {
        self.crypto.has_passphrase()
    }

    /// The configured passphrase bytes.
    pub closed spec fn pass(&self) -> Seq<u8> {
        self.crypto.pass_bytes()
    }

    pub closed spec fn wf(&self) -> bool {
        self.crypto.wf()
    }

    /// The content is what a save of the current state may write: the
    /// plain rendering, or an envelope sealing it.
    pub open spec fn save_content_ok(&self, content: Seq<u8>) -> bool {
        if self.encryption_on() {
            saved_encrypted(content, self.pass(), self.state_view())
        } else {
            content == render_state(self.state_view())
        }
    }

    /// A fresh store: default state, and encryption exactly when a
    /// passphrase is supplied.
    pub fn new(passphrase: Option<String>) -> (r: Self)
        requires
            passphrase is Some ==> vstd::utf8::encode_utf8(passphrase->0@).len() < 0x100000000,
        ensures
            r.wf(),
            r.state_view() == crate::state::default_state(),
            r.encryption_on() == (passphrase is Some),
            passphrase is Some ==> r.pass() == vstd::utf8::encode_utf8(passphrase->0@),
    {
        AppState { state: PersistedState::default(), crypto: CryptoManager::new(passphrase) }
    }

    /// Whether encryption is enabled for this store.
    pub fn is_encryption_enabled(&self) -> (r: bool)
        ensures
            r == self.encryption_on(),
    {
        self.crypto.is_encryption_enabled()
    }

    /// Serialize the current state to its file content: the canonical
    /// rendering, passed through encryption when enabled.  The whole
    /// content is produced anew on every call; the caller overwrites
    /// the file with it.
    pub fn save_state(&mut self) -> (r: Result<Vec<u8>, CryptoError>)
        requires
            old(self).wf(),
        ensures
            final(self).wf(),
            final(self).state_view() == old(self).state_view(),
            final(self).encryption_on() == old(self).encryption_on(),
            final(self).pass() == old(self).pass(),
            r is Ok ==> final(self).save_content_ok(r->Ok_0@),
            !old(self).encryption_on() ==> r is Ok,
            old(self).encryption_on() ==> (r is Ok <==> render_state(
                old(self).state_view(),
            ).len() <= SEAL_MAX),
            r is Err ==> old(self).encryption_on() && r->Err_0 is EncryptionFailed,
    {
        if self.crypto.is_encryption_enabled() {
            let env = match self.crypto.encrypt_json(&self.state) {
                Ok(e) => e,
                Err(e) => { return Err(e) },
            };
            let content = render_env_vec(&env);
            proof {
                assert(env@.salt == env.salt@ && env@.nonce == env.nonce@ && env@.ciphertext
                    == env.ciphertext@);
                assert(saved_encrypted(content@, self.pass(), self.state_view()));
            }
            Ok(content)
        } else {
            Ok(render_state_vec(&self.state))
        }
    }

    /// Replace the in-memory state with what the file content holds.
    ///
    /// A missing file (`None`) is not an error: the state stands as it
    /// is.  With encryption enabled the content must parse as an
    /// envelope whose plaintext is a canonical state rendering; with
    /// encryption disabled it must be a canonical state rendering
    /// itself, so a file saved in the other mode fails cleanly.  On any
    /// failure the in-memory state is left unchanged for the caller's
    /// fallback.
    pub fn load_state(&mut self, content: Option<&[u8]>) -> (r: Result<(), CryptoError>)
        requires
            old(self).wf(),
        ensures
            final(self).wf(),
            final(self).encryption_on() == old(self).encryption_on(),
            final(self).pass() == old(self).pass(),
            content is None ==> r is Ok && final(self).state_view() == old(self).state_view(),
            r is Err ==> final(self).state_view() == old(self).state_view(),
            content is Some && !old(self).encryption_on() ==> {
                &&& (r is Ok <==> pstate_full(content->0@) is Some)
                &&& (r is Ok ==> pstate_full(content->0@) == Some(final(self).state_view()))
                &&& (r is Err ==> r->Err_0 is SerializationError)
            },
            content is Some && old(self).encryption_on() ==> {
                &&& (r is Ok ==> exists|env: EnvV, pt: Seq<u8>|
                    #![auto]
                    penv_full(content->0@) == Some(env) && envelope_for(
                        env.salt,
                        env.nonce,
                        env.ciphertext,
                        old(self).pass(),
                        pt,
                    ) && pstate_full(pt) == Some(final(self).state_view()))
                &&& (penv_full(content->0@) is None ==> r is Err && r->Err_0
                    is SerializationError)
                &&& (forall|m: StateV|
                    loadable_encrypted(content->0@, old(self).pass(), m) ==> r is Ok && final(self).state_view() == m)
            },
    {
        let bytes = match content {
            None => { return Ok(()) },
            Some(b) => b,
        };
        proof {
            assert(bytes@ == content->0@);
            assert(forall|m: StateV|
                loadable_encrypted(content->0@, old(self).pass(), m)
                    == loadable_encrypted(bytes@, old(self).pass(), m));
        }
        if self.crypto.is_encryption_enabled() {
            let env = match parse_env_file(bytes) {
                Some(e) => e,
                None => {
                    return Err(CryptoError::SerializationError(
                        "the file is not an envelope".to_owned(),
                    ));
                },
            };
            match self.crypto.decrypt_json(&env) {
                Ok(state) => {
                    self.state = state;
                    proof {
                        assert(env@.salt == env.salt@ && env@.nonce == env.nonce@
                            && env@.ciphertext == env.ciphertext@);
                        assert forall|m: StateV|
                            loadable_encrypted(
                                bytes@,
                                old(self).pass(),
                                m,
                            ) implies self.state_view() == m by {
                            let env2 = choose|env2: EnvV|
                                penv_full(bytes@) == Some(env2) && envelope_for(
                                    env2.salt,
                                    env2.nonce,
                                    env2.ciphertext,
                                    old(self).pass(),
                                    render_state(m),
                                );
                            assert(env2 == env@);
                            assert(sealed_for(env, old(self).pass(), render_state(m)));
                        }
                    }
                    Ok(())
                },
                Err(e) => {
                    proof {
                        assert forall|m: StateV|
                            loadable_encrypted(bytes@, old(self).pass(), m) implies false by {
                            let env2 = choose|env2: EnvV|
                                penv_full(bytes@) == Some(env2) && envelope_for(
                                    env2.salt,
                                    env2.nonce,
                                    env2.ciphertext,
                                    old(self).pass(),
                                    render_state(m),
                                );
                            assert(env2 == env@);
                            assert(sealed_for(env, old(self).pass(), render_state(m)));
                        }
                    }
                    Err(e)
                },
            }
        } else {
            match parse_state_file(bytes) {
                Some(state) => {
                    self.state = state;
                    proof {
                        assert(!old(self).encryption_on());
                        assert forall|m: StateV|
                            loadable_encrypted(
                                bytes@,
                                old(self).pass(),
                                m,
                            ) && old(self).encryption_on() implies false by {}
                    }
                    Ok(())
                },
                None => {
                    proof {
                        assert(!old(self).encryption_on());
                    }
                    Err(CryptoError::SerializationError(
                        "the file is not a state rendering".to_owned(),
                    ))
                },
            }
        }
    }

    /// Read access to the configuration.
    pub fn get_app_config(&self) -> (r: SidecarConfig)
        ensures
            r@ == self.state_view().config,
    {
        self.state.config.clone()
    }

    /// Replace the configuration, then save.
    pub fn update_app_config(&mut self, config: SidecarConfig) -> (r: Result<Vec<u8>, CryptoError>)
        requires
            old(self).wf(),
        ensures
            final(self).wf(),
            final(self).encryption_on() == old(self).encryption_on(),
            final(self).pass() == old(self).pass(),
            final(self).state_view() == (StateV { config: config@, ..old(self).state_view() }),
            r is Ok ==> final(self).save_content_ok(r->Ok_0@),
            !old(self).encryption_on() ==> r is Ok,
            old(self).encryption_on() && render_state(final(self).state_view()).len() <= SEAL_MAX
                ==> r is Ok,
    {
        self.state.config = config;
        proof {
            assert(self.state_view() =~= StateV { config: config@, ..old(self).state_view() });
        }
        self.save_state()
    }

    /// Queue a new pending operation, then save; yields the fresh id
    /// and the save outcome.  The change stands even when the save
    /// fails.
    pub fn add_operation(
        &mut self,
        operation_type: String,
        payload: Vec<(String, String)>,
        source: String,
    ) -> (r: (String, Result<Vec<u8>, CryptoError>))
        requires
            old(self).wf(),
        ensures
            final(self).wf(),
            final(self).encryption_on() == old(self).encryption_on(),
            final(self).pass() == old(self).pass(),
            final(self).state_view().config == old(self).state_view().config,
            final(self).state_view().notifications == old(self).state_view().notifications,
            final(self).state_view().terminal_sessions == old(
                self,
            ).state_view().terminal_sessions,
            final(self).state_view().pending_operations.len() == old(
                self,
            ).state_view().pending_operations.len() + 1,
            final(self).state_view().pending_operations.drop_last() == old(
                self,
            ).state_view().pending_operations,
            ({
                let op = final(self).state_view().pending_operations.last();
                &&& op.id == r.0@
                &&& op.operation_type == operation_type@
                &&& op.payload == payload_view(payload@)
                &&& op.status == "pending"@
                &&& op.source == source@
            }),
            r.1 is Ok ==> final(self).save_content_ok(r.1->Ok_0@),
            !old(self).encryption_on() ==> r.1 is Ok,
            old(self).encryption_on() && render_state(final(self).state_view()).len() <= SEAL_MAX
                ==> r.1 is Ok,
    {
        let id = new_id();
        let operation = PendingOperation {
            id: id.clone(),
            operation_type,
            payload,
            status: {
                proof {
                    reveal_strlit("pending");
                }
                "pending".to_owned()
            },
            timestamp: now_rfc3339(),
            source,
        };
        self.state.pending_operations.push(operation);
        proof {
            assert(self.state_view().pending_operations.drop_last() =~= old(
                self,
            ).state_view().pending_operations);
        }
        let save = self.save_state();
        (id, save)
    }

    /// Set the status of the operation with this id (the first match),
    /// then save.  `OperationNotFound` comes exactly when no operation
    /// has the id; nothing is changed then.
    pub fn update_operation_status(&mut self, id: &str, status: String) -> (r: Result<
        Vec<u8>,
        StoreError,
    >)
        requires
            old(self).wf(),
        ensures
            final(self).wf(),
            final(self).encryption_on() == old(self).encryption_on(),
            final(self).pass() == old(self).pass(),
            (r is Err && r->Err_0 is OperationNotFound) <==> !(exists|j: int|
                0 <= j < old(self).state_view().pending_operations.len() && old(
                    self,
                ).state_view().pending_operations[j].id == id@),
            r is Err && r->Err_0 is OperationNotFound ==> final(self).state_view() == old(
                self,
            ).state_view(),
            !(r is Err && r->Err_0 is OperationNotFound) ==> exists|k: int|
                #![auto]
                {
                    &&& 0 <= k < old(self).state_view().pending_operations.len()
                    &&& old(self).state_view().pending_operations[k].id == id@
                    &&& (forall|j: int| 0 <= j < k ==> old(
                        self,
                    ).state_view().pending_operations[j].id != id@)
                    &&& final(self).state_view() == (StateV {
                        pending_operations: old(self).state_view().pending_operations.update(
                            k,
                            (OpV {
                                status: status@,
                                ..old(self).state_view().pending_operations[k]
                            }),
                        ),
                        ..old(self).state_view()
                    })
                },
            r is Ok ==> final(self).save_content_ok(r->Ok_0@),
            !old(self).encryption_on() && !(r is Err && r->Err_0 is OperationNotFound) ==> r
                is Ok,
            old(self).encryption_on() && !(r is Err && r->Err_0 is OperationNotFound)
                && render_state(final(self).state_view()).len() <= SEAL_MAX ==> r is Ok,
            r is Err && r->Err_0 is SaveFailed ==> old(self).encryption_on(),
    {
        let id_owned: String = id.to_owned();
        let n = self.state.pending_operations.len();
        let mut i: usize = 0;
        while i < n
            invariant
                n == self.state.pending_operations@.len(),
                i <= n,
                *self == *old(self),
                old(self).wf(),
                id_owned@ == id@,
                forall|j: int| 0 <= j < i ==> self.state_view().pending_operations[j].id != id@,
            decreases n - i,
        {
            if self.state.pending_operations[i].id == id_owned {
                self.state.pending_operations[i].status = status;
                proof {
                    assert(self.state_view() =~= StateV {
                        pending_operations: old(self).state_view().pending_operations.update(
                            i as int,
                            OpV {
                                status: status@,
                                ..old(self).state_view().pending_operations[i as int]
                            },
                        ),
                        ..old(self).state_view()
                    });
                }
                let save = self.save_state();
                return match save {
                    Ok(c) => Ok(c),
                    Err(e) => Err(StoreError::SaveFailed(e)),
                };
            }
            i += 1;
        }
        Err(StoreError::OperationNotFound)
    }

    /// Append a notification, then save.
    pub fn add_notification(&mut self, message: &str, level: &str) -> (r: Result<
        Vec<u8>,
        CryptoError,
    >)
        requires
            old(self).wf(),
        ensures
            final(self).wf(),
            final(self).encryption_on() == old(self).encryption_on(),
            final(self).pass() == old(self).pass(),
            final(self).state_view().config == old(self).state_view().config,
            final(self).state_view().pending_operations == old(
                self,
            ).state_view().pending_operations,
            final(self).state_view().terminal_sessions == old(
                self,
            ).state_view().terminal_sessions,
            final(self).state_view().notifications.len() == old(
                self,
            ).state_view().notifications.len() + 1,
            final(self).state_view().notifications.drop_last() == old(
                self,
            ).state_view().notifications,
            ({
                let note = final(self).state_view().notifications.last();
                &&& note.message == message@
                &&& note.level == level@
                &&& !note.dismissed
            }),
            r is Ok ==> final(self).save_content_ok(r->Ok_0@),
            !old(self).encryption_on() ==> r is Ok,
            old(self).encryption_on() && render_state(final(self).state_view()).len() <= SEAL_MAX
                ==> r is Ok,
    {
        let note = NotificationEvent {
            id: new_id(),
            message: message.to_owned(),
            level: level.to_owned(),
            timestamp: now_rfc3339(),
            dismissed: false,
        };
        self.state.notifications.push(note);
        proof {
            assert(self.state_view().notifications.drop_last() =~= old(
                self,
            ).state_view().notifications);
        }
        self.save_state()
    }

    /// Mark every notification dismissed, then save.
    pub fn dismiss_all_notifications(&mut self) -> (r: Result<Vec<u8>, CryptoError>)
        requires
            old(self).wf(),
        ensures
            final(self).wf(),
            final(self).encryption_on() == old(self).encryption_on(),
            final(self).pass() == old(self).pass(),
            final(self).state_view() == (StateV {
                notifications: old(self).state_view().notifications.map_values(
                    |n: NoteV| NoteV { dismissed: true, ..n },
                ),
                ..old(self).state_view()
            }),
            r is Ok ==> final(self).save_content_ok(r->Ok_0@),
            !old(self).encryption_on() ==> r is Ok,
            old(self).encryption_on() && render_state(final(self).state_view()).len() <= SEAL_MAX
                ==> r is Ok,
    {
        let ghost notes0 = self.state_view().notifications;
        let n = self.state.notifications.len();
        let mut updated: Vec<NotificationEvent> = Vec::new();
        let mut i: usize = 0;
        while i < n
            invariant
                n == self.state.notifications@.len(),
                i <= n,
                *self == *old(self),
                notes0 == self.state_view().notifications,
                updated@.len() == i,
                forall|j: int|
                    0 <= j < i ==> updated@[j]@ == (NoteV {
                        dismissed: true,
                        ..notes0[j]
                    }),
            decreases n - i,
        {
            let src = &self.state.notifications[i];
            let replaced = NotificationEvent {
                id: src.id.clone(),
                message: src.message.clone(),
                level: src.level.clone(),
                timestamp: src.timestamp.clone(),
                dismissed: true,
            };
            updated.push(replaced);
            proof {
                assert(replaced@ =~= (NoteV { dismissed: true, ..notes0[i as int] }));
            }
            i += 1;
        }
        self.state.notifications = updated;
        proof {
            assert(notes0.take(n as int) =~= notes0);
            assert(self.state_view() =~= (StateV {
                notifications: old(self).state_view().notifications.map_values(
                    (|n2: NoteV| NoteV { dismissed: true, ..n2 }),
                ),
                ..old(self).state_view()
            }));
        }
        self.save_state()
    }
}

/// The notifications that remain after clearing: the undismissed ones,
/// in order.
pub open spec fn undismissed(notes: Seq<NoteV>) -> Seq<NoteV>
    decreases notes.len(),
{
    if notes.len() == 0 {
        Seq::empty()
    } else if notes.last().dismissed {
        undismissed(notes.drop_last())
    } else {
        undismissed(notes.drop_last()).push(notes.last())
    }
}

/// The operations that remain after cleaning: the still-pending ones,
/// in order.
pub open spec fn pending_only(ops: Seq<OpV>) -> Seq<OpV>
    decreases ops.len(),
{
    if ops.len() == 0 {
        Seq::empty()
    } else if ops.last().status == "pending"@ {
        pending_only(ops.drop_last()).push(ops.last())
    } else {
        pending_only(ops.drop_last())
    }
}

impl AppState {
    /// Drop every operation that is no longer pending; saves only when
    /// something was removed (`None` means nothing changed).
    pub fn clean_completed_operations(&mut self) -> (r: Option<Result<Vec<u8>, CryptoError>>)
        requires
            old(self).wf(),
        ensures
            final(self).wf(),
            final(self).encryption_on() == old(self).encryption_on(),
            final(self).pass() == old(self).pass(),
            final(self).state_view() == (StateV {
                pending_operations: pending_only(old(self).state_view().pending_operations),
                ..old(self).state_view()
            }),
            r is None <==> pending_only(old(self).state_view().pending_operations).len() == old(
                self,
            ).state_view().pending_operations.len(),
            r is Some && (r->0 is Ok) ==> final(self).save_content_ok(r->0->Ok_0@),
            !old(self).encryption_on() && r is Some ==> (r->0 is Ok),
            old(self).encryption_on() && r is Some && render_state(
                final(self).state_view(),
            ).len() <= SEAL_MAX ==> (r->0 is Ok),
    {
        let ghost ops0 = self.state_view().pending_operations;
        let pending_label: String = "pending".to_owned();
        let n = self.state.pending_operations.len();
        let mut kept: Vec<PendingOperation> = Vec::new();
        let mut i: usize = 0;
        proof {
            reveal_strlit("pending");
        }
        while i < n
            invariant
                n == self.state.pending_operations@.len(),
                i <= n,
                *self == *old(self),
                pending_label@ == "pending"@,
                ops0 == self.state_view().pending_operations,
                (kept@.map_values(|o: PendingOperation| o@)) == pending_only(
                    ops0.take(i as int),
                ),
                kept@.len() <= i,
            decreases n - i,
        {
            proof {
                reveal_strlit("pending");
                assert(ops0.take(i + 1).drop_last() =~= ops0.take(i as int));
                assert(ops0.take(i + 1).last() == ops0[i as int]);
            }
            let op = &self.state.pending_operations[i];
            if op.status == pending_label {
                let copy = op.clone();
                kept.push(copy);
                proof {
                    assert(kept@.map_values(|o: PendingOperation| o@) =~= pending_only(
                        ops0.take(i as int),
                    ).push(ops0[i as int]));
                }
            }
            i += 1;
        }
        proof {
            assert(ops0.take(n as int) =~= ops0);
        }
        let changed = kept.len() != n;
        proof {
            lemma_pending_only_len(ops0);
        }
        if !changed {
            proof {
                assert(self.state_view() =~= StateV {
                    pending_operations: pending_only(ops0),
                    ..old(self).state_view()
                }) by {
                    lemma_pending_only_full(ops0);
                    assert(kept@.map_values(|o: PendingOperation| o@) == ops0);
                }
            }
            return None;
        }
        self.state.pending_operations = kept;
        proof {
            assert(self.state_view() =~= StateV {
                pending_operations: pending_only(ops0),
                ..old(self).state_view()
            });
        }
        Some(self.save_state())
    }

    /// Drop every dismissed notification; saves only when something
    /// was removed (`None` means nothing changed).
    pub fn clear_notifications(&mut self) -> (r: Option<Result<Vec<u8>, CryptoError>>)
        requires
            old(self).wf(),
        ensures
            final(self).wf(),
            final(self).encryption_on() == old(self).encryption_on(),
            final(self).pass() == old(self).pass(),
            final(self).state_view() == (StateV {
                notifications: undismissed(old(self).state_view().notifications),
                ..old(self).state_view()
            }),
            r is None <==> undismissed(old(self).state_view().notifications).len() == old(
                self,
            ).state_view().notifications.len(),
            r is Some && (r->0 is Ok) ==> final(self).save_content_ok(r->0->Ok_0@),
            !old(self).encryption_on() && r is Some ==> (r->0 is Ok),
            old(self).encryption_on() && r is Some && render_state(
                final(self).state_view(),
            ).len() <= SEAL_MAX ==> (r->0 is Ok),
    {
        let ghost notes0 = self.state_view().notifications;
        let n = self.state.notifications.len();
        let mut kept: Vec<NotificationEvent> = Vec::new();
        let mut i: usize = 0;
        while i < n
            invariant
                n == self.state.notifications@.len(),
                i <= n,
                *self == *old(self),
                notes0 == self.state_view().notifications,
                (kept@.map_values(|o: NotificationEvent| o@)) == undismissed(
                    notes0.take(i as int),
                ),
                kept@.len() <= i,
            decreases n - i,
        {
            proof {
                assert(notes0.take(i + 1).drop_last() =~= notes0.take(i as int));
                assert(notes0.take(i + 1).last() == notes0[i as int]);
            }
            let note = &self.state.notifications[i];
            if !note.dismissed {
                let copy = note.clone();
                kept.push(copy);
                proof {
                    assert(kept@.map_values(|o: NotificationEvent| o@) =~= undismissed(
                        notes0.take(i as int),
                    ).push(notes0[i as int]));
                }
            }
            i += 1;
        }
        proof {
            assert(notes0.take(n as int) =~= notes0);
        }
        let changed = kept.len() != n;
        proof {
            lemma_undismissed_len(notes0);
        }
        if !changed {
            proof {
                assert(self.state_view() =~= StateV {
                    notifications: undismissed(notes0),
                    ..old(self).state_view()
                }) by {
                    lemma_undismissed_full(notes0);
                    assert(kept@.map_values(|o: NotificationEvent| o@) == notes0);
                }
            }
            return None;
        }
        self.state.notifications = kept;
        proof {
            assert(self.state_view() =~= StateV {
                notifications: undismissed(notes0),
                ..old(self).state_view()
            });
        }
        Some(self.save_state())
    }

    /// Create a terminal-session record (bookkeeping only), then save;
    /// yields the fresh session id and the save outcome.  The shell
    /// defaults to the configured one, the size to 24 by 80.
    pub fn create_terminal(
        &mut self,
        shell: Option<String>,
        rows: Option<u16>,
        cols: Option<u16>,
    ) -> (r: (String, Result<Vec<u8>, CryptoError>))
        requires
            old(self).wf(),
        ensures
            final(self).wf(),
            final(self).encryption_on() == old(self).encryption_on(),
            final(self).pass() == old(self).pass(),
            final(self).state_view().config == old(self).state_view().config,
            final(self).state_view().pending_operations == old(
                self,
            ).state_view().pending_operations,
            final(self).state_view().notifications == old(self).state_view().notifications,
            final(self).state_view().terminal_sessions.len() == old(
                self,
            ).state_view().terminal_sessions.len() + 1,
            final(self).state_view().terminal_sessions.drop_last() == old(
                self,
            ).state_view().terminal_sessions,
            ({
                let sess = final(self).state_view().terminal_sessions.last();
                &&& sess.id == r.0@
                &&& sess.shell == (if shell is Some {
                    shell->0@
                } else {
                    old(self).state_view().config.terminal_shell
                })
                &&& sess.rows == (if rows is Some {
                    rows->0
                } else {
                    24u16
                })
                &&& sess.cols == (if cols is Some {
                    cols->0
                } else {
                    80u16
                })
                &&& sess.active
            }),
            r.1 is Ok ==> final(self).save_content_ok(r.1->Ok_0@),
            !old(self).encryption_on() ==> r.1 is Ok,
            old(self).encryption_on() && render_state(final(self).state_view()).len() <= SEAL_MAX
                ==> r.1 is Ok,
    {
        let id = new_id();
        let shell_value = match shell {
            Some(sh) => sh,
            None => self.state.config.terminal_shell.clone(),
        };
        let session = TerminalSession {
            id: id.clone(),
            shell: shell_value,
            rows: match rows {
                Some(v) => v,
                None => 24,
            },
            cols: match cols {
                Some(v) => v,
                None => 80,
            },
            active: true,
            created_at: now_rfc3339(),
        };
        self.state.terminal_sessions.push(session);
        proof {
            assert(self.state_view().terminal_sessions.drop_last() =~= old(
                self,
            ).state_view().terminal_sessions);
        }
        let save = self.save_state();
        (id, save)
    }

    /// Resize the session with this id (the first match), then save.
    /// `SessionNotFound` comes exactly when no record has the id.  A
    /// session already marked inactive is refused with
    /// `SessionInactive` and left unchanged — a deliberate restriction:
    /// a dead session's size is meaningless, and accepting the resize
    /// would silently revive stale bookkeeping.
    pub fn resize_terminal(&mut self, session_id: &str, rows: u16, cols: u16) -> (r: Result<
        Vec<u8>,
        StoreError,
    >)
        requires
            old(self).wf(),
        ensures
            final(self).wf(),
            final(self).encryption_on() == old(self).encryption_on(),
            final(self).pass() == old(self).pass(),
            (r is Err && r->Err_0 is SessionNotFound) <==> !(exists|j: int|
                0 <= j < old(self).state_view().terminal_sessions.len() && old(
                    self,
                ).state_view().terminal_sessions[j].id == session_id@),
            r is Err && (r->Err_0 is SessionNotFound || r->Err_0 is SessionInactive) ==> final(self).state_view() == old(self).state_view(),
            !(r is Err && r->Err_0 is SessionNotFound) ==> exists|k: int|
                #![auto]
                {
                    &&& 0 <= k < old(self).state_view().terminal_sessions.len()
                    &&& old(self).state_view().terminal_sessions[k].id == session_id@
                    &&& (forall|j: int| 0 <= j < k ==> old(
                        self,
                    ).state_view().terminal_sessions[j].id != session_id@)
                    &&& (!old(self).state_view().terminal_sessions[k].active ==> r is Err
                        && r->Err_0 is SessionInactive)
                    &&& (old(self).state_view().terminal_sessions[k].active ==> final(self).state_view() == (StateV {
                        terminal_sessions: old(self).state_view().terminal_sessions.update(
                            k,
                            (SessV {
                                rows: rows,
                                cols: cols,
                                ..old(self).state_view().terminal_sessions[k]
                            }),
                        ),
                        ..old(self).state_view()
                    }) && (!old(self).encryption_on() ==> r is Ok) && (old(
                        self,
                    ).encryption_on() && render_state(final(self).state_view()).len() <= SEAL_MAX
                        ==> r is Ok))
                },
            r is Ok ==> final(self).save_content_ok(r->Ok_0@),
            r is Err && r->Err_0 is SaveFailed ==> old(self).encryption_on(),
    {
        let id_owned: String = session_id.to_owned();
        let n = self.state.terminal_sessions.len();
        let mut i: usize = 0;
        while i < n
            invariant
                n == self.state.terminal_sessions@.len(),
                i <= n,
                *self == *old(self),
                old(self).wf(),
                id_owned@ == session_id@,
                forall|j: int|
                    0 <= j < i ==> self.state_view().terminal_sessions[j].id != session_id@,
            decreases n - i,
        {
            if self.state.terminal_sessions[i].id == id_owned {
                proof {
                    assert(old(self).state_view().terminal_sessions[i as int].id == session_id@);
                }
                if !self.state.terminal_sessions[i].active {
                    proof {
                        assert(!old(self).state_view().terminal_sessions[i as int].active);
                    }
                    return Err(StoreError::SessionInactive);
                }
                self.state.terminal_sessions[i].rows = rows;
                self.state.terminal_sessions[i].cols = cols;
                proof {
                    assert(self.state_view() =~= (StateV {
                        terminal_sessions: old(self).state_view().terminal_sessions.update(
                            i as int,
                            (SessV {
                                rows: rows,
                                cols: cols,
                                ..old(self).state_view().terminal_sessions[i as int]
                            }),
                        ),
                        ..old(self).state_view()
                    }));
                }
                let save = self.save_state();
                return match save {
                    Ok(c) => Ok(c),
                    Err(e) => Err(StoreError::SaveFailed(e)),
                };
            }
            i += 1;
        }
        Err(StoreError::SessionNotFound)
    }

    /// Mark the session with this id (the first match) inactive, then
    /// save.  `SessionNotFound` comes exactly when no record has the
    /// id; nothing is changed then.
    pub fn kill_terminal(&mut self, session_id: &str) -> (r: Result<Vec<u8>, StoreError>)
        requires
            old(self).wf(),
        ensures
            final(self).wf(),
            final(self).encryption_on() == old(self).encryption_on(),
            final(self).pass() == old(self).pass(),
            (r is Err && r->Err_0 is SessionNotFound) <==> !(exists|j: int|
                0 <= j < old(self).state_view().terminal_sessions.len() && old(
                    self,
                ).state_view().terminal_sessions[j].id == session_id@),
            r is Err && r->Err_0 is SessionNotFound ==> final(self).state_view() == old(
                self,
            ).state_view(),
            !(r is Err && r->Err_0 is SessionNotFound) ==> exists|k: int|
                #![auto]
                {
                    &&& 0 <= k < old(self).state_view().terminal_sessions.len()
                    &&& old(self).state_view().terminal_sessions[k].id == session_id@
                    &&& (forall|j: int| 0 <= j < k ==> old(
                        self,
                    ).state_view().terminal_sessions[j].id != session_id@)
                    &&& final(self).state_view() == (StateV {
                        terminal_sessions: old(self).state_view().terminal_sessions.update(
                            k,
                            (SessV {
                                active: false,
                                ..old(self).state_view().terminal_sessions[k]
                            }),
                        ),
                        ..old(self).state_view()
                    })
                },
            r is Ok ==> final(self).save_content_ok(r->Ok_0@),
            !old(self).encryption_on() && !(r is Err && r->Err_0 is SessionNotFound) ==> r is Ok,
            old(self).encryption_on() && !(r is Err && r->Err_0 is SessionNotFound)
                && render_state(final(self).state_view()).len() <= SEAL_MAX ==> r is Ok,
            r is Err && r->Err_0 is SaveFailed ==> old(self).encryption_on(),
    {
        let id_owned: String = session_id.to_owned();
        let n = self.state.terminal_sessions.len();
        let mut i: usize = 0;
        while i < n
            invariant
                n == self.state.terminal_sessions@.len(),
                i <= n,
                *self == *old(self),
                old(self).wf(),
                id_owned@ == session_id@,
                forall|j: int|
                    0 <= j < i ==> self.state_view().terminal_sessions[j].id != session_id@,
            decreases n - i,
        {
            if self.state.terminal_sessions[i].id == id_owned {
                proof {
                    assert(old(self).state_view().terminal_sessions[i as int].id == session_id@);
                }
                self.state.terminal_sessions[i].active = false;
                proof {
                    assert(self.state_view() =~= (StateV {
                        terminal_sessions: old(self).state_view().terminal_sessions.update(
                            i as int,
                            (SessV {
                                active: false,
                                ..old(self).state_view().terminal_sessions[i as int]
                            }),
                        ),
                        ..old(self).state_view()
                    }));
                }
                let save = self.save_state();
                return match save {
                    Ok(c) => Ok(c),
                    Err(e) => Err(StoreError::SaveFailed(e)),
                };
            }
            i += 1;
        }
        Err(StoreError::SessionNotFound)
    }
}

proof fn lemma_pending_only_len(ops: Seq<OpV>)
    ensures
        pending_only(ops).len() <= ops.len(),
    decreases ops.len(),
{
    if ops.len() > 0 {
        lemma_pending_only_len(ops.drop_last());
    }
}

proof fn lemma_pending_only_full(ops: Seq<OpV>)
    requires
        pending_only(ops).len() == ops.len(),
    ensures
        pending_only(ops) == ops,
    decreases ops.len(),
{
    if ops.len() > 0 {
        lemma_pending_only_len(ops.drop_last());
        if ops.last().status == "pending"@ {
            lemma_pending_only_full(ops.drop_last());
            assert(pending_only(ops) =~= ops);
        }
    } else {
        assert(pending_only(ops) =~= ops);
    }
}

proof fn lemma_undismissed_len(notes: Seq<NoteV>)
    ensures
        undismissed(notes).len() <= notes.len(),
    decreases notes.len(),
{
    if notes.len() > 0 {
        lemma_undismissed_len(notes.drop_last());
    }
}

proof fn lemma_undismissed_full(notes: Seq<NoteV>)
    requires
        undismissed(notes).len() == notes.len(),
    ensures
        undismissed(notes) == notes,
    decreases notes.len(),
{
    if notes.len() > 0 {
        lemma_undismissed_len(notes.drop_last());
        if !notes.last().dismissed {
            lemma_undismissed_full(notes.drop_last());
            assert(undismissed(notes) =~= notes);
        }
    } else {
        assert(undismissed(notes) =~= notes);
    }
}

} // verus!
