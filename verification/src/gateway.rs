//! Runtime gateway: the parsers for the container runtime's textual output
//! and the ownership check that gates every operation on a named container.
//! The runtime commands themselves run outside the library; each function
//! here takes the command's raw output.

use vstd::prelude::*;
use vstd::string::*;

use crate::creds::{CredStore, CredEntry, lookup_seq};
use crate::text::{
    contains_sub, digits_val, first_char_idx, first_sub_idx, is_digits, match_at, split_spec,
    starts_with, trim_spec,
};

verus! {

/// A server record as reported to the caller: the runtime's live state
/// joined with the stored credentials, rebuilt on every query.
#[derive(Debug)]
pub struct ServerInfo {
    pub name: String,
    pub port: u16,
    pub host_path: String,
    pub container_path: String,
    pub username: String,
    pub password: String,
    pub status: String,
    pub created_at: Option<String>,
}

/// An image reference denotes the fixed managed image: exactly, or
/// qualified with a tag suffix.
pub open spec fn is_managed_image(image: Seq<char>) -> bool {
    image == "atmoz/sftp"@ || starts_with(image, "atmoz/sftp:"@)
}

/// The ownership gate. `inspect_output` is what inspecting the container's
/// image reference returned, `None` when the inspection failed (a container
/// of that name need not exist). True exactly when the trimmed reported
/// image is the managed image.
pub fn is_sftp_container(inspect_output: &Option<String>) -> (r: bool)
    ensures
        r == (inspect_output is Some && is_managed_image(trim_spec(inspect_output->0@))),
{
    match inspect_output {
        Some(out) => {
            let image = crate::text::trim_str(out.as_str());
            crate::text::str_eq(image, "atmoz/sftp") || crate::text::str_starts_with(
                image,
                "atmoz/sftp:",
            )
        },
        None => false,
    }
}

/// The host port in a forwarding description of the form
/// `<bind>:<host_port>-><container_port>/<proto>`: the digits between the
/// first colon and the first arrow, when they form a port number; `0` for
/// anything malformed or absent.
pub open spec fn port_spec(s: Seq<char>) -> int {
    match (first_char_idx(s, ':'), first_sub_idx(s, "->"@)) {
        (Some(i), Some(j)) => {
            if i + 1 <= j {
                let seg = s.subrange(i + 1, j);
                if is_digits(seg) && digits_val(seg) <= u16::MAX {
                    digits_val(seg)
                } else {
                    0
                }
            } else {
                0
            }
        },
        _ => 0,
    }
}

/// Extracts the host port from a runtime port-forwarding description; a
/// lossy, best-effort parse in which anything malformed yields `0`.
pub fn extract_port(ports_str: &str) -> (r: u16)
    ensures
        r == port_spec(ports_str@),
{
    proof {
        reveal_strlit("->");
    }
    let colon = crate::text::find_first_char(ports_str, ':');
    let arrow = crate::text::find_first_sub(ports_str, "->");
    match (colon, arrow) {
        (Some(i), Some(j)) => {
            proof {
                crate::text::lemma_first_sub_idx(ports_str@, "->"@);
                assert(match_at(ports_str@, "->"@, j as int));
            }
            if i < j {
                let seg = ports_str.substring_char(i + 1, j);
                match crate::text::parse_dec_u16(seg) {
                    Some(v) => v,
                    None => 0,
                }
            } else {
                0
            }
        },
        _ => 0,
    }
}

/// The status text the runtime reports, folded to the two states the
/// caller sees: anything containing `Up` is running, all else stopped.
pub open spec fn row_status(status_text: Seq<char>) -> Seq<char> {
    if contains_sub(status_text, "Up"@) {
        "running"@
    } else {
        "stopped"@
    }
}

/// The `|`-separated fields of one listing line.
pub open spec fn line_fields(l: Seq<char>) -> Seq<Seq<char>> {
    split_spec(l, '|')
}

/// A listing line that denotes a server: it carries at least the three
/// fields name, status and ports.
pub open spec fn is_server_row(l: Seq<char>) -> bool {
    line_fields(l).len() >= 3
}

/// The lines of the runtime's batch listing that denote servers.
pub open spec fn server_rows(out: Seq<char>) -> Seq<Seq<char>> {
    split_spec(trim_spec(out), '\n').filter(|l: Seq<char>| is_server_row(l))
}

/// The record derived from one listing line `l`, joined with the stored
/// credentials: live name, folded status and parsed port from the runtime;
/// secrets and paths from the store, empty when the store has no entry.
pub open spec fn server_info_matches(si: ServerInfo, l: Seq<char>, entries: Seq<CredEntry>) -> bool {
    let fs = line_fields(l);
    &&& si.name@ == fs[0]
    &&& si.status@ == row_status(fs[1])
    &&& si.port == port_spec(fs[2])
    &&& (match lookup_seq(entries, fs[0]) {
        Some(c) => si.username@ == c.username@ && si.password@ == c.password@ && si.host_path@
            == c.host_path@ && si.container_path@ == c.container_path@,
        None => si.username@ =~= Seq::<char>::empty() && si.password@ =~= Seq::<char>::empty()
            && si.host_path@ =~= Seq::<char>::empty() && si.container_path@ =~= Seq::<
            char,
        >::empty(),
    })
    &&& si.created_at is None
}

/// Builds the server list from the runtime's batch listing output (`None`
/// when the listing command failed) and the credential store: one record
/// per listing line with all three fields, in listing order.
#[verifier::loop_isolation(false)]
pub fn list_servers(ps_output: &Option<String>, creds: &CredStore) -> (r: Vec<ServerInfo>)
    ensures
        ps_output is None ==> r@.len() == 0,
        ps_output is Some ==> ({
            let rows = server_rows(ps_output->0@);
            &&& r@.len() == rows.len()
            &&& forall|i: int|
                0 <= i < rows.len() ==> server_info_matches(r@[i], rows[i], creds.entries@)
        }),
{
    let mut out: Vec<ServerInfo> = Vec::new();
    let output = match ps_output {
        Some(o) => o,
        None => {
            return out;
        },
    };
    let trimmed = crate::text::trim_str(output.as_str());
    let lines = crate::text::split_char(trimmed, '\n');
    let ghost lseq = lines.deep_view();
    let ghost rowp = |l: Seq<char>| is_server_row(l);
    let mut i: usize = 0;
    proof {
        reveal(Seq::filter);
        assert(lseq.subrange(0, 0) =~= Seq::<Seq<char>>::empty());
        assert(Seq::<Seq<char>>::empty().filter(rowp) =~= Seq::<Seq<char>>::empty());
    }
    while i < lines.len()
        invariant
            i <= lines.len(),
            out@.len() == lseq.subrange(0, i as int).filter(rowp).len(),
            forall|k: int|
                0 <= k < out@.len() ==> server_info_matches(
                    out@[k],
                    lseq.subrange(0, i as int).filter(rowp)[k],
                    creds.entries@,
                ),
        decreases lines.len() - i,
    {
        let ghost pre = lseq.subrange(0, i as int);
        let fields = crate::text::split_char(lines[i].as_str(), '|');
        proof {
            assert(fields.deep_view() == line_fields(lseq[i as int]));
            assert(fields.deep_view().len() == fields@.len());
        }
        if fields.len() >= 3 {
            let name = fields[0].clone();
            proof {
                reveal_strlit("Up");
            }
            let status = if crate::text::str_contains(fields[1].as_str(), "Up") {
                String::from_str("running")
            } else {
                String::from_str("stopped")
            };
            let port = extract_port(fields[2].as_str());
            let si = match creds.lookup(name.as_str()) {
                Some(c) => ServerInfo {
                    name,
                    port,
                    host_path: c.host_path.clone(),
                    container_path: c.container_path.clone(),
                    username: c.username.clone(),
                    password: c.password.clone(),
                    status,
                    created_at: None,
                },
                None => ServerInfo {
                    name,
                    port,
                    host_path: String::new(),
                    container_path: String::new(),
                    username: String::new(),
                    password: String::new(),
                    status,
                    created_at: None,
                },
            };
            proof {
                assert(si.name@ == line_fields(lseq[i as int])[0]);
                assert(si.status@ == row_status(line_fields(lseq[i as int])[1]));
                assert(si.port == port_spec(line_fields(lseq[i as int])[2]));
                assert(server_info_matches(si, lseq[i as int], creds.entries@));
            }
            out.push(si);
        }
        proof {
            reveal(Seq::filter);
            let post = lseq.subrange(0, i + 1);
            assert(post.drop_last() =~= pre);
            assert(post.last() == lseq[i as int]);
            if rowp(lseq[i as int]) {
                assert(post.filter(rowp) =~= pre.filter(rowp).push(lseq[i as int]));
            } else {
                assert(post.filter(rowp) =~= pre.filter(rowp));
            }
        }
        i += 1;
    }
    proof {
        assert(lseq.subrange(0, lines@.len() as int) =~= lseq);
        assert(server_rows(ps_output->0@) == lseq.filter(rowp));
    }
    out
}

} // verus!
