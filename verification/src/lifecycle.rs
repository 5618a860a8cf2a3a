//! Lifecycle controller: the decision and bookkeeping half of every
//! create/start/stop/remove/status/logs operation. The runtime commands
//! themselves run outside the library; the functions here build the command
//! arguments, gate on the ownership check, and turn a command's outcome into
//! the result handed back to the caller, updating the credential store in
//! lockstep with successful runtime mutations.

use vstd::prelude::*;
use vstd::string::*;

use crate::creds::{CredEntry, CredStore, StoredCredentials, lookup_seq};
use crate::gateway::{ServerInfo, line_fields, server_info_matches, server_rows};
use crate::listing::FileEntry;
use crate::network::{NetworkConfig, NetworkInterface, resolved_binding};
use crate::text::{contains_sub, dec_rep, slashes_forward, trim_spec};

verus! {

/// Outcome of a mutating lifecycle operation.
#[derive(Debug)]
pub struct CommandResult {
    pub success: bool,
    pub error: Option<String>,
}

/// What a create operation asks of the caller: its inputs.
#[derive(Debug)]
pub struct ServerConfig {
    pub name: String,
    pub port: u16,
    pub host_path: String,
    pub container_path: String,
    pub username: String,
    pub password: String,
}

/// Outcome of a create operation: the new record on success, the runtime's
/// error text on failure.
#[derive(Debug)]
pub struct CreateResult {
    pub success: bool,
    pub server: Option<ServerInfo>,
    pub error: Option<String>,
}

/// The three argument strings a create operation hands to the runtime.
#[derive(Debug)]
pub struct CreateCommand {
    pub name: String,
    pub port_mapping: String,
    pub volume_mapping: String,
    pub user_config: String,
}

/// The fixed denial for a mutating operation on a name that fails the
/// ownership gate.
pub open spec fn denied_message() -> Seq<char> {
    "Not an SFTP container (atmoz/sftp)"@
}

/// The denial handed back by the read-only file and log operations.
pub open spec fn denied_message_short() -> Seq<char> {
    "Not an SFTP container"@
}

/// A mutating operation reports success exactly when the ownership check
/// passed and the runtime returned success.
pub open spec fn mutating_success(owned: bool, outcome: Result<String, String>) -> bool {
    owned && outcome is Ok
}

/// The error a gated mutating operation reports: the fixed denial when the
/// gate failed, else the runtime's error text verbatim, else none.
pub open spec fn mutating_error(owned: bool, outcome: Result<String, String>) -> Option<
    Seq<char>,
> {
    if !owned {
        Some(denied_message())
    } else {
        match outcome {
            Ok(_) => None,
            Err(e) => Some(e@),
        }
    }
}

/// The gated mutating operations.
#[derive(Debug, PartialEq, Eq, Structural, Clone, Copy)]
pub enum LifecycleOp {
    Start,
    Stop,
    Remove,
}

/// How the credential store looks after a successful operation: a
/// successful remove erases the name's record, everything else keeps every
/// record.
pub open spec fn store_effect(
    op: LifecycleOp,
    name: Seq<char>,
    before: Seq<CredEntry>,
    after: Seq<CredEntry>,
) -> bool {
    forall|n: Seq<char>| #[trigger]
        lookup_seq(after, n) == if op is Remove && n == name {
            None::<StoredCredentials>
        } else {
            lookup_seq(before, n)
        }
}

/// Applies the bookkeeping of one mutating operation. The ownership
/// check's answer and the runtime command's outcome decide the result
/// handed back, and the credential store is updated in lockstep: only a
/// successful remove deletes the stored record; a failed remove keeps it
/// on purpose; a denied operation leaves the store untouched.
pub fn apply_mutating_op(
    op: LifecycleOp,
    name: &str,
    owned: bool,
    outcome: Result<String, String>,
    store: &mut CredStore,
) -> (r: CommandResult)
    requires
        old(store).wf(),
    ensures
        final(store).wf(),
        r.success == mutating_success(owned, outcome),
        (match r.error {
            Some(e) => mutating_error(owned, outcome) == Some(e@),
            None => mutating_error(owned, outcome) is None,
        }),
        owned && outcome is Ok ==> store_effect(
            op,
            name@,
            old(store).entries@,
            final(store).entries@,
        ),
        !(owned && outcome is Ok) ==> *final(store) == *old(store),
{
    if !owned {
        return CommandResult {
            success: false,
            error: Some(String::from_str("Not an SFTP container (atmoz/sftp)")),
        };
    }
    match outcome {
        Ok(_) => {
            if matches!(op, LifecycleOp::Remove) {
                crate::creds::remove_server_credentials(store, name);
            }
            CommandResult { success: true, error: None }
        },
        Err(e) => CommandResult { success: false, error: Some(e) },
    }
}

/// A name that fails the ownership gate is always denied, with the fixed
/// message, never with the runtime's own error, whatever the runtime would
/// have answered.
pub proof fn lemma_gate_denies(outcome: Result<String, String>)
    ensures
        !mutating_success(false, outcome),
        mutating_error(false, outcome) == Some(denied_message()),
{
}

/// Stopping an already stopped managed server is idempotent: the runtime's
/// stop command succeeds again, so two successive gated stops with
/// successful outcomes both report success and neither erases any stored
/// record.
pub proof fn lemma_stop_twice_succeeds(
    o1: Result<String, String>,
    o2: Result<String, String>,
    name: Seq<char>,
    s0: Seq<CredEntry>,
    s1: Seq<CredEntry>,
    s2: Seq<CredEntry>,
)
    requires
        o1 is Ok,
        o2 is Ok,
        store_effect(LifecycleOp::Stop, name, s0, s1),
        store_effect(LifecycleOp::Stop, name, s1, s2),
    ensures
        mutating_success(true, o1),
        mutating_success(true, o2),
        mutating_error(true, o1) is None,
        mutating_error(true, o2) is None,
        forall|n: Seq<char>| #[trigger] lookup_seq(s2, n) == lookup_seq(s0, n),
{
    assert forall|n: Seq<char>| #[trigger] lookup_seq(s2, n) == lookup_seq(s0, n) by {
        assert(lookup_seq(s1, n) == lookup_seq(s0, n));
    }
}

/// The port-mapping argument of a create: bind address, host port, the
/// fixed in-container port.
pub open spec fn port_mapping_spec(bind_ip: Seq<char>, port: u16) -> Seq<char> {
    bind_ip + ":"@ + dec_rep(port as int) + ":22"@
}

/// The volume-mapping argument: normalized host path, container path.
pub open spec fn volume_mapping_spec(host_path: Seq<char>, container_path: Seq<char>) -> Seq<
    char,
> {
    slashes_forward(host_path) + ":"@ + container_path
}

/// The user-provisioning argument: name, password, the fixed uid.
pub open spec fn user_config_spec(username: Seq<char>, password: Seq<char>) -> Seq<char> {
    username + ":"@ + password + ":1001"@
}

/// Builds the argument strings of a create operation: the port mapping on
/// the currently resolved bind address, the volume mapping with host path
/// separators normalized, and the user-provisioning string.
pub fn create_server_command(
    config: &ServerConfig,
    interfaces: &Vec<NetworkInterface>,
    net: &NetworkConfig,
) -> (r: CreateCommand)
    ensures
        r.name@ == config.name@,
        r.port_mapping@ == port_mapping_spec(
            resolved_binding(interfaces@, *net).0,
            config.port,
        ),
        r.volume_mapping@ == volume_mapping_spec(config.host_path@, config.container_path@),
        r.user_config@ == user_config_spec(config.username@, config.password@),
{
    let (bind_ip, _, _) = crate::network::get_current_ip_internal(interfaces, net);
    let port_str = crate::text::u16_to_string(config.port);
    let port_mapping = bind_ip.concat(":").concat(port_str.as_str()).concat(":22");
    let host_path = crate::text::backslashes_to_forward(config.host_path.as_str());
    let volume_mapping = host_path.concat(":").concat(config.container_path.as_str());
    let user_config = config.username.clone().concat(":").concat(
        config.password.as_str(),
    ).concat(":1001");
    proof {
        assert(port_mapping@ =~= port_mapping_spec(
            resolved_binding(interfaces@, *net).0,
            config.port,
        ));
        assert(volume_mapping@ =~= volume_mapping_spec(
            config.host_path@,
            config.container_path@,
        ));
        assert(user_config@ =~= user_config_spec(config.username@, config.password@));
    }
    CreateCommand { name: config.name.clone(), port_mapping, volume_mapping, user_config }
}

/// Concludes a create operation. On runtime success the credentials are
/// persisted under the new name and the new record is reported as running;
/// on failure nothing is persisted and the runtime's error text is handed
/// back verbatim.
pub fn create_server_conclude(
    config: ServerConfig,
    outcome: Result<String, String>,
    store: &mut CredStore,
) -> (r: CreateResult)
    requires
        old(store).wf(),
    ensures
        final(store).wf(),
        r.success == (outcome is Ok),
        outcome is Ok ==> ({
            &&& r.error is None
            &&& r.server is Some
            &&& r.server->0.name@ == config.name@
            &&& r.server->0.port == config.port
            &&& r.server->0.host_path@ == config.host_path@
            &&& r.server->0.container_path@ == config.container_path@
            &&& r.server->0.username@ == config.username@
            &&& r.server->0.password@ == config.password@
            &&& r.server->0.status@ == "running"@
            &&& r.server->0.created_at is None
            &&& (forall|n: Seq<char>| #[trigger]
                lookup_seq(final(store).entries@, n) == if n == config.name@ {
                    lookup_seq(final(store).entries@, config.name@)
                } else {
                    lookup_seq(old(store).entries@, n)
                })
            &&& ({
                let stored = lookup_seq(final(store).entries@, config.name@);
                &&& stored is Some
                &&& stored->0.username@ == config.username@
                &&& stored->0.password@ == config.password@
                &&& stored->0.host_path@ == config.host_path@
                &&& stored->0.container_path@ == config.container_path@
            })
        }),
        outcome is Err ==> r.server is None && r.error == Some(outcome->Err_0)
            && *final(store) == *old(store),
{
    match outcome {
        Ok(_) => {
            let creds = StoredCredentials {
                username: config.username.clone(),
                password: config.password.clone(),
                host_path: config.host_path.clone(),
                container_path: config.container_path.clone(),
            };
            crate::creds::store_server_credentials(store, config.name.as_str(), creds);
            CreateResult {
                success: true,
                server: Some(
                    ServerInfo {
                        name: config.name,
                        port: config.port,
                        host_path: config.host_path,
                        container_path: config.container_path,
                        username: config.username,
                        password: config.password,
                        status: String::from_str("running"),
                        created_at: None,
                    },
                ),
                error: None,
            }
        },
        Err(e) => CreateResult { success: false, server: None, error: Some(e) },
    }
}

/// The status reported for a name: a fixed sentinel for one that fails the
/// gate, the runtime's trimmed status text verbatim, or a sentinel when
/// inspection fails (the container was never created).
pub fn container_status_result(owned: bool, status_output: &Option<String>) -> (r: String)
    ensures
        !owned ==> r@ == "not sftp"@,
        owned && status_output is Some ==> r@ == trim_spec(status_output->0@),
        owned && status_output is None ==> r@ == "not created"@,
{
    if !owned {
        return String::from_str("not sftp");
    }
    match status_output {
        Some(out) => {
            let trimmed = crate::text::trim_str(out.as_str());
            String::from_str(trimmed)
        },
        None => String::from_str("not created"),
    }
}

/// The log text reported for a name: a fixed denial for one that fails the
/// gate, else whatever the runtime answered, its error text included.
pub fn container_logs_result(owned: bool, logs_output: Result<String, String>) -> (r: String)
    ensures
        !owned ==> r@ == denied_message_short(),
        owned ==> r@ == (match logs_output {
            Ok(l) => l@,
            Err(e) => e@,
        }),
{
    if !owned {
        return String::from_str("Not an SFTP container");
    }
    match logs_output {
        Ok(l) => l,
        Err(e) => e,
    }
}

/// The denial a directory-listing request gets on a name that fails the
/// gate.
pub fn list_files_denied() -> (r: Result<Vec<FileEntry>, String>)
    ensures
        r is Err,
        r->Err_0@ == denied_message_short(),
{
    Err(String::from_str("Not an SFTP container"))
}

/// A server whose create just succeeded appears in the very next listing:
/// a listed row carrying its name and an `Up` status, joined with the store
/// holding its credentials, yields a record with running status and exactly
/// the credentials supplied to create.
pub proof fn lemma_created_server_listed(
    out: Seq<char>,
    entries: Seq<CredEntry>,
    name: Seq<char>,
    i: int,
    si: ServerInfo,
)
    requires
        0 <= i < server_rows(out).len(),
        line_fields(server_rows(out)[i])[0] == name,
        contains_sub(line_fields(server_rows(out)[i])[1], "Up"@),
        lookup_seq(entries, name) is Some,
        server_info_matches(si, server_rows(out)[i], entries),
    ensures
        si.name@ == name,
        si.status@ == "running"@,
        si.username@ == lookup_seq(entries, name)->0.username@,
        si.password@ == lookup_seq(entries, name)->0.password@,
        si.host_path@ == lookup_seq(entries, name)->0.host_path@,
        si.container_path@ == lookup_seq(entries, name)->0.container_path@,
{
}

/// A removed server appears in no later listing: once the runtime lists no
/// row under its name, no joined record carries the name either, whatever
/// the store still holds.
pub proof fn lemma_removed_server_absent(
    out: Seq<char>,
    entries: Seq<CredEntry>,
    name: Seq<char>,
    i: int,
    si: ServerInfo,
)
    requires
        0 <= i < server_rows(out).len(),
        forall|j: int|
            0 <= j < server_rows(out).len() ==> line_fields(server_rows(out)[j])[0] != name,
        server_info_matches(si, server_rows(out)[i], entries),
    ensures
        si.name@ != name,
{
}

} // verus!
