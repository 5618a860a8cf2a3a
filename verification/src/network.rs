//! Network identity: the user's stored binding preference, the
//! classification of interface names as tunnel/VPN software, and the
//! resolver that turns preference plus enumerated interfaces into the one
//! address a new server binds to.

use vstd::prelude::*;
use vstd::string::*;

use crate::lifecycle::CommandResult;
use crate::text::{
    contains_ci, first_sub_idx, is_digit, split_spec, starts_with, tokens_spec, trim_spec,
};

verus! {

/// One usable local network interface, as the enumerator reports it.
#[derive(Debug)]
pub struct NetworkInterface {
    pub name: String,
    pub address: String,
    pub is_vpn: bool,
}

impl Clone for NetworkInterface {
    fn clone(&self) -> (r: Self)
        ensures
            r == *self,
    {
        NetworkInterface {
            name: self.name.clone(),
            address: self.address.clone(),
            is_vpn: self.is_vpn,
        }
    }
}

/// The persisted binding preference: at most one of an interface name or a
/// literal address is ever set.
#[derive(Debug)]
pub struct NetworkConfig {
    pub preferred_interface: Option<String>,
    pub preferred_ip: Option<String>,
}

impl NetworkConfig {
    /// At most one preference is set at a time.
    pub open spec fn wf(self) -> bool {
        !(self.preferred_interface is Some && self.preferred_ip is Some)
    }
}

impl Clone for NetworkConfig {
    fn clone(&self) -> (r: Self)
        ensures
            r == *self,
    {
        NetworkConfig {
            preferred_interface: clone_opt_string(&self.preferred_interface),
            preferred_ip: clone_opt_string(&self.preferred_ip),
        }
    }
}

impl Default for NetworkConfig {
    /// No preference at all, the value a missing document denotes.
    fn default() -> (r: Self)
        ensures
            r.preferred_interface is None,
            r.preferred_ip is None,
    {
        NetworkConfig { preferred_interface: None, preferred_ip: None }
    }
}

/// The current network identity as reported to the caller: the resolved
/// binding, the stored preference, and everything enumerated.
#[derive(Debug)]
pub struct NetworkInfo {
    pub current_ip: String,
    pub current_interface: Option<String>,
    pub is_vpn: bool,
    pub preferred_ip: Option<String>,
    pub preferred_interface: Option<String>,
    pub interfaces: Vec<NetworkInterface>,
}

fn clone_opt_string(o: &Option<String>) -> (r: Option<String>)
    ensures
        r == *o,
{
    match o {
        Some(s) => Some(s.clone()),
        None => None,
    }
}

/// An interface name denotes tunnel/VPN software: it holds one of the fixed
/// identifiers, compared case-insensitively.
pub open spec fn is_vpn_name(name: Seq<char>) -> bool {
    ||| contains_ci(name, "zerotier"@)
    ||| contains_ci(name, "tailscale"@)
    ||| contains_ci(name, "wireguard"@)
    ||| contains_ci(name, "wg0"@)
    ||| contains_ci(name, "wg1"@)
    ||| contains_ci(name, "tun"@)
    ||| contains_ci(name, "tap"@)
    ||| contains_ci(name, "vpn"@)
    ||| contains_ci(name, "hamachi"@)
    ||| contains_ci(name, "radmin"@)
}

/// Classifies an interface name as tunnel/VPN software by case-insensitive
/// substring match against the fixed identifier list.
pub fn is_vpn_interface(name: &str) -> (r: bool)
    ensures
        r == is_vpn_name(name@),
{
    crate::text::str_contains_ci(name, "zerotier") || crate::text::str_contains_ci(
        name,
        "tailscale",
    ) || crate::text::str_contains_ci(name, "wireguard") || crate::text::str_contains_ci(
        name,
        "wg0",
    ) || crate::text::str_contains_ci(name, "wg1") || crate::text::str_contains_ci(name, "tun")
        || crate::text::str_contains_ci(name, "tap") || crate::text::str_contains_ci(name, "vpn")
        || crate::text::str_contains_ci(name, "hamachi") || crate::text::str_contains_ci(
        name,
        "radmin",
    )
}

/// Stores a binding preference. Setting an address clears any stored
/// interface name and vice versa; passing neither changes nothing.
pub fn set_network_preference(
    config: &mut NetworkConfig,
    ip: Option<String>,
    interface: Option<String>,
) -> (r: CommandResult)
    ensures
        r.success,
        r.error is None,
        ip is Some ==> final(config).preferred_ip == ip && final(config).preferred_interface
            is None,
        ip is None && interface is Some ==> final(config).preferred_interface == interface
            && final(config).preferred_ip is None,
        ip is None && interface is None ==> *final(config) == *old(config),
        ip is Some || interface is Some || old(config).wf() ==> final(config).wf(),
{
    match ip {
        Some(ip_val) => {
            config.preferred_ip = Some(ip_val);
            config.preferred_interface = None;
        },
        None => {
            match interface {
                Some(iface_val) => {
                    config.preferred_interface = Some(iface_val);
                    config.preferred_ip = None;
                },
                None => {},
            }
        },
    }
    CommandResult { success: true, error: None }
}

/// Clears the binding preference: the state afterwards is the one in which
/// no preference was ever stored.
pub fn clear_network_preference(config: &mut NetworkConfig) -> (r: CommandResult)
    ensures
        r.success,
        r.error is None,
        final(config).preferred_ip is None,
        final(config).preferred_interface is None,
        final(config).wf(),
{
    *config = NetworkConfig::default();
    CommandResult { success: true, error: None }
}

/// Position of the first interface satisfying `p`, if any.
pub open spec fn first_where(
    ifs: Seq<NetworkInterface>,
    p: spec_fn(NetworkInterface) -> bool,
) -> Option<int>
    decreases ifs.len(),
{
    if ifs.len() == 0 {
        None
    } else if p(ifs[0]) {
        Some(0)
    } else {
        match first_where(ifs.drop_first(), p) {
            Some(i) => Some(i + 1),
            None => None,
        }
    }
}

pub proof fn lemma_first_where(ifs: Seq<NetworkInterface>, p: spec_fn(NetworkInterface) -> bool)
    ensures
        match first_where(ifs, p) {
            Some(i) => 0 <= i < ifs.len() && p(ifs[i]) && forall|j: int| 0 <= j < i ==> !p(ifs[j]),
            None => forall|j: int| 0 <= j < ifs.len() ==> !p(ifs[j]),
        },
    decreases ifs.len(),
{
    if ifs.len() > 0 && !p(ifs[0]) {
        let t = ifs.drop_first();
        lemma_first_where(t, p);
        assert(forall|k: int| 0 <= k < t.len() ==> t[k] == ifs[k + 1]);
        match first_where(t, p) {
            Some(i) => {
                assert(first_where(ifs, p) == Some(i + 1));
                assert(ifs[i + 1] == t[i]);
                assert forall|j: int| 0 <= j < i + 1 implies !p(ifs[j]) by {
                    if j > 0 {
                        assert(ifs[j] == t[j - 1]);
                        assert(!p(t[j - 1]));
                    }
                }
            },
            None => {
                assert forall|j: int| 0 <= j < ifs.len() implies !p(ifs[j]) by {
                    if j > 0 {
                        assert(ifs[j] == t[j - 1]);
                        assert(!p(t[j - 1]));
                    }
                }
            },
        }
    }
}

/// The binding the resolver must choose: the first interface carrying the
/// preferred address; else the first carrying the preferred name; else the
/// first non-VPN interface; else the first interface; else loopback with no
/// interface name.
pub open spec fn resolved_binding(ifs: Seq<NetworkInterface>, config: NetworkConfig) -> (
    Seq<char>,
    Option<Seq<char>>,
    bool,
) {
    let by_addr = match config.preferred_ip {
        Some(p) => first_where(ifs, |i: NetworkInterface| i.address@ == p@),
        None => None,
    };
    let by_name = match config.preferred_interface {
        Some(f) => first_where(ifs, |i: NetworkInterface| i.name@ == f@),
        None => None,
    };
    let non_vpn = first_where(ifs, |i: NetworkInterface| !i.is_vpn);
    if by_addr is Some {
        let i = by_addr->0;
        (ifs[i].address@, Some(ifs[i].name@), ifs[i].is_vpn)
    } else if by_name is Some {
        let i = by_name->0;
        (ifs[i].address@, Some(ifs[i].name@), ifs[i].is_vpn)
    } else if non_vpn is Some {
        let i = non_vpn->0;
        (ifs[i].address@, Some(ifs[i].name@), false)
    } else if ifs.len() > 0 {
        (ifs[0].address@, Some(ifs[0].name@), ifs[0].is_vpn)
    } else {
        ("127.0.0.1"@, None, false)
    }
}

/// Explicit user choice always wins: a preferred address that is present
/// among the enumerated interfaces is the one resolved, whatever else the
/// list holds — in particular it beats any non-VPN default.
pub proof fn lemma_preferred_address_wins(
    ifs: Seq<NetworkInterface>,
    config: NetworkConfig,
    i: int,
)
    requires
        config.preferred_ip is Some,
        0 <= i < ifs.len(),
        ifs[i].address@ == config.preferred_ip->0@,
    ensures
        resolved_binding(ifs, config).0 == config.preferred_ip->0@,
{
    let p = |x: NetworkInterface| x.address@ == config.preferred_ip->0@;
    lemma_first_where(ifs, p);
    assert(p(ifs[i]));
    if first_where(ifs, p) is None {
        assert(!p(ifs[i]));
    }
    let w = first_where(ifs, p)->0;
    assert(p(ifs[w]));
}

/// Absent any stored preference, a reachable choice is made: as long as
/// some non-VPN interface is enumerated, the resolved binding is not a VPN
/// one.
pub proof fn lemma_non_vpn_default(ifs: Seq<NetworkInterface>, config: NetworkConfig, i: int)
    requires
        config.preferred_ip is None,
        config.preferred_interface is None,
        0 <= i < ifs.len(),
        !ifs[i].is_vpn,
    ensures
        !resolved_binding(ifs, config).2,
{
    let p = |x: NetworkInterface| !x.is_vpn;
    lemma_first_where(ifs, p);
    assert(p(ifs[i]));
    if first_where(ifs, p) is None {
        assert(!p(ifs[i]));
    }
}

/// Whether an executable triple denotes the resolved binding.
pub open spec fn is_resolved(
    r: (String, Option<String>, bool),
    ifs: Seq<NetworkInterface>,
    config: NetworkConfig,
) -> bool {
    let want = resolved_binding(ifs, config);
    &&& r.0@ == want.0
    &&& (match r.1 {
        Some(s) => want.1 == Some(s@),
        None => want.1 is None,
    })
    &&& r.2 == want.2
}

#[verifier::loop_isolation(false)]
fn find_by_address<'a>(ifs: &'a Vec<NetworkInterface>, addr: &str) -> (r: Option<
    &'a NetworkInterface,
>)
    ensures
        ({
            let w = first_where(ifs@, |i: NetworkInterface| i.address@ == addr@);
            match r {
                Some(found) => w == Some(first_where(ifs@, |i: NetworkInterface| i.address@
                    == addr@)->0) && *found == ifs@[w->0],
                None => w is None,
            }
        }),
{
    let ghost p = |i: NetworkInterface| i.address@ == addr@;
    proof {
        lemma_first_where(ifs@, p);
    }
    let n = ifs.len();
    let mut k: usize = 0;
    while k < n
        invariant
            k <= n,
            forall|j: int| 0 <= j < k ==> !p(ifs@[j]),
        decreases n - k,
    {
        if crate::text::str_eq(ifs[k].address.as_str(), addr) {
            proof {
                assert(p(ifs@[k as int]));
                let w = first_where(ifs@, p);
                if w is None {
                    assert(!p(ifs@[k as int]));
                }
                let i = w->0;
                if i < k as int {
                    assert(!p(ifs@[i]));
                }
                if i > k as int {
                    assert(!p(ifs@[k as int]));
                }
                assert(w == Some(k as int));
            }
            return Some(&ifs[k]);
        }
        proof {
            assert(!p(ifs@[k as int]));
        }
        k += 1;
    }
    proof {
        let w = first_where(ifs@, p);
        if w is Some {
            assert(!p(ifs@[w->0]));
        }
    }
    None
}

#[verifier::loop_isolation(false)]
fn find_by_name<'a>(ifs: &'a Vec<NetworkInterface>, name: &str) -> (r: Option<
    &'a NetworkInterface,
>)
    ensures
        ({
            let w = first_where(ifs@, |i: NetworkInterface| i.name@ == name@);
            match r {
                Some(found) => w == Some(first_where(ifs@, |i: NetworkInterface| i.name@
                    == name@)->0) && *found == ifs@[w->0],
                None => w is None,
            }
        }),
{
    let ghost p = |i: NetworkInterface| i.name@ == name@;
    proof {
        lemma_first_where(ifs@, p);
    }
    let n = ifs.len();
    let mut k: usize = 0;
    while k < n
        invariant
            k <= n,
            forall|j: int| 0 <= j < k ==> !p(ifs@[j]),
        decreases n - k,
    {
        if crate::text::str_eq(ifs[k].name.as_str(), name) {
            proof {
                assert(p(ifs@[k as int]));
                let w = first_where(ifs@, p);
                if w is None {
                    assert(!p(ifs@[k as int]));
                }
                let i = w->0;
                if i < k as int {
                    assert(!p(ifs@[i]));
                }
                if i > k as int {
                    assert(!p(ifs@[k as int]));
                }
                assert(w == Some(k as int));
            }
            return Some(&ifs[k]);
        }
        proof {
            assert(!p(ifs@[k as int]));
        }
        k += 1;
    }
    proof {
        let w = first_where(ifs@, p);
        if w is Some {
            assert(!p(ifs@[w->0]));
        }
    }
    None
}

#[verifier::loop_isolation(false)]
fn find_non_vpn<'a>(ifs: &'a Vec<NetworkInterface>) -> (r: Option<&'a NetworkInterface>)
    ensures
        ({
            let w = first_where(ifs@, |i: NetworkInterface| !i.is_vpn);
            match r {
                Some(found) => w == Some(first_where(ifs@, |i: NetworkInterface| !i.is_vpn)->0)
                    && *found == ifs@[w->0],
                None => w is None,
            }
        }),
{
    let ghost p = |i: NetworkInterface| !i.is_vpn;
    proof {
        lemma_first_where(ifs@, p);
    }
    let n = ifs.len();
    let mut k: usize = 0;
    while k < n
        invariant
            k <= n,
            forall|j: int| 0 <= j < k ==> !p(ifs@[j]),
        decreases n - k,
    {
        if !ifs[k].is_vpn {
            proof {
                assert(p(ifs@[k as int]));
                let w = first_where(ifs@, p);
                if w is None {
                    assert(!p(ifs@[k as int]));
                }
                let i = w->0;
                if i < k as int {
                    assert(!p(ifs@[i]));
                }
                if i > k as int {
                    assert(!p(ifs@[k as int]));
                }
                assert(w == Some(k as int));
            }
            return Some(&ifs[k]);
        }
        proof {
            assert(!p(ifs@[k as int]));
        }
        k += 1;
    }
    proof {
        let w = first_where(ifs@, p);
        if w is Some {
            assert(!p(ifs@[w->0]));
        }
    }
    None
}

/// Resolves the binding for the given interfaces and preference, in the
/// priority order of `resolved_binding`: explicit address, explicit name,
/// first non-VPN interface, first interface, loopback.
pub fn get_current_ip_internal(interfaces: &Vec<NetworkInterface>, config: &NetworkConfig) -> (r: (
    String,
    Option<String>,
    bool,
))
    ensures
        is_resolved(r, interfaces@, *config),
{
    if let Some(preferred_ip) = &config.preferred_ip {
        if let Some(iface) = find_by_address(interfaces, preferred_ip.as_str()) {
            return (iface.address.clone(), Some(iface.name.clone()), iface.is_vpn);
        }
    }
    if let Some(preferred_iface) = &config.preferred_interface {
        if let Some(iface) = find_by_name(interfaces, preferred_iface.as_str()) {
            return (iface.address.clone(), Some(iface.name.clone()), iface.is_vpn);
        }
    }
    if let Some(iface) = find_non_vpn(interfaces) {
        return (iface.address.clone(), Some(iface.name.clone()), false);
    }
    if interfaces.len() > 0 {
        let iface = &interfaces[0];
        return (iface.address.clone(), Some(iface.name.clone()), iface.is_vpn);
    }
    proof {
        reveal_strlit("127.0.0.1");
    }
    (String::from_str("127.0.0.1"), None, false)
}

/// The interface name an address-listing header line declares: the trimmed
/// text between the first and second colon.
pub open spec fn iface_line_name(l: Seq<char>) -> Option<Seq<char>> {
    let fs = split_spec(l, ':');
    if fs.len() >= 2 {
        Some(trim_spec(fs[1]))
    } else {
        None
    }
}

/// The run of address characters at the front of `s`: everything before
/// the first `/` (the prefix length) or space, or all of `s` when neither
/// occurs.
pub open spec fn addr_prefix(s: Seq<char>) -> Seq<char>
    decreases s.len(),
{
    if s.len() == 0 {
        s
    } else if s[0] == '/' || s[0] == ' ' {
        Seq::empty()
    } else {
        seq![s[0]] + addr_prefix(s.drop_first())
    }
}

/// The address an address line carries: the run after the first `inet `
/// marker, up to its prefix length.
pub open spec fn iface_line_addr(l: Seq<char>) -> Option<Seq<char>> {
    match first_sub_idx(l, "inet "@) {
        Some(i) => Some(addr_prefix(l.subrange(i + 5, l.len() as int))),
        None => None,
    }
}

/// The `(name, address)` pairs an address listing declares, walked line by
/// line: a header line (starting with a digit) switches the current
/// interface name; an address line under it yields a pair, unless the
/// address is loopback or empty or no name is current yet.
pub open spec fn ifaces_from(lines: Seq<Seq<char>>, cur: Seq<char>) -> Seq<(Seq<char>, Seq<char>)>
    decreases lines.len(),
{
    if lines.len() == 0 {
        Seq::empty()
    } else {
        let l = lines[0];
        let rest = lines.drop_first();
        if l.len() > 0 && is_digit(l[0]) {
            match iface_line_name(l) {
                Some(nm) => ifaces_from(rest, nm),
                None => ifaces_from(rest, cur),
            }
        } else {
            match iface_line_addr(l) {
                Some(addr) => if !starts_with(addr, "127."@) && addr.len() > 0 && cur.len() > 0 {
                    seq![(cur, addr)] + ifaces_from(rest, cur)
                } else {
                    ifaces_from(rest, cur)
                },
                None => ifaces_from(rest, cur),
            }
        }
    }
}

proof fn lemma_addr_prefix_idx(s: Seq<char>, e: int)
    requires
        0 <= e <= s.len(),
        forall|j: int| 0 <= j < e ==> s[j] != '/' && s[j] != ' ',
        e < s.len() ==> s[e] == '/' || s[e] == ' ',
    ensures
        addr_prefix(s) == s.subrange(0, e),
    decreases e,
{
    if e == 0 {
        if s.len() == 0 {
            assert(s.subrange(0, 0) =~= s);
        } else {
            assert(s.subrange(0, 0) =~= Seq::<char>::empty());
        }
    } else {
        let t = s.drop_first();
        assert(t =~= s.subrange(1, s.len() as int));
        lemma_addr_prefix_idx(t, e - 1);
        assert(seq![s[0]] + t.subrange(0, e - 1) =~= s.subrange(0, e));
    }
}

/// Parses one header line's interface name.
fn parse_iface_name(line: &str) -> (r: Option<String>)
    ensures
        match r {
            Some(nm) => iface_line_name(line@) == Some(nm@),
            None => iface_line_name(line@) is None,
        },
{
    let fields = crate::text::split_char(line, ':');
    proof {
        assert(fields.deep_view().len() == fields@.len());
    }
    if fields.len() >= 2 {
        proof {
            assert(fields.deep_view()[1] == fields@[1]@);
        }
        let trimmed = crate::text::trim_str(fields[1].as_str());
        Some(String::from_str(trimmed))
    } else {
        None
    }
}

/// Parses one address line's address.
#[verifier::loop_isolation(false)]
fn parse_iface_addr(line: &str) -> (r: Option<String>)
    ensures
        match r {
            Some(addr) => iface_line_addr(line@) == Some(addr@),
            None => iface_line_addr(line@) is None,
        },
{
    proof {
        reveal_strlit("inet ");
    }
    match crate::text::find_first_sub(line, "inet ") {
        Some(i) => {
            proof {
                crate::text::lemma_first_sub_idx(line@, "inet "@);
            }
            let n = line.unicode_len();
            let start = i + 5;
            let mut e: usize = start;
            while e < n && line.get_char(e) != '/' && line.get_char(e) != ' '
                invariant
                    start <= e <= n,
                    forall|j: int| start <= j < e ==> line@[j] != '/' && line@[j] != ' ',
                decreases n - e,
            {
                e += 1;
            }
            let addr = line.substring_char(start, e);
            proof {
                let rest = line@.subrange(start as int, n as int);
                lemma_addr_prefix_idx(rest, e - start);
                assert(rest.subrange(0, e - start) =~= line@.subrange(start as int, e as int));
            }
            Some(String::from_str(addr))
        },
        None => None,
    }
}

/// The synthetic first entry of every enumeration: bind to all interfaces.
pub open spec fn all_interfaces_entry(e: NetworkInterface) -> bool {
    e.name@ == "All Interfaces"@ && e.address@ == "0.0.0.0"@ && !e.is_vpn
}

/// Enumerates the usable local interfaces from the platform utility's raw
/// output (`None` when the utility failed): the synthetic bind-to-all entry
/// first, then one entry per discovered `(name, address)` pair, each
/// classified by its name. Unparseable output leaves only the synthetic
/// entry.
#[verifier::loop_isolation(false)]
pub fn list_network_interfaces_internal(platform_output: &Option<String>) -> (r: Vec<
    NetworkInterface,
>)
    ensures
        r@.len() >= 1,
        all_interfaces_entry(r@[0]),
        ({
            let ds = match platform_output {
                Some(out) => ifaces_from(split_spec(out@, '\n'), Seq::<char>::empty()),
                None => Seq::<(Seq<char>, Seq<char>)>::empty(),
            };
            &&& r@.len() == 1 + ds.len()
            &&& forall|i: int|
                0 <= i < ds.len() ==> r@[i + 1].name@ == ds[i].0 && r@[i + 1].address@ == ds[i].1
                    && r@[i + 1].is_vpn == is_vpn_name(ds[i].0)
        }),
{
    let mut r: Vec<NetworkInterface> = Vec::new();
    r.push(
        NetworkInterface {
            name: String::from_str("All Interfaces"),
            address: String::from_str("0.0.0.0"),
            is_vpn: false,
        },
    );
    let output = match platform_output {
        Some(o) => o,
        None => {
            return r;
        },
    };
    let lines = crate::text::split_char(output.as_str(), '\n');
    let ghost lseq = lines.deep_view();
    let ghost ds = ifaces_from(lseq, Seq::<char>::empty());
    let mut cur = String::new();
    let mut i: usize = 0;
    proof {
        assert(lseq.subrange(0, lseq.len() as int) =~= lseq);
    }
    while i < lines.len()
        invariant
            i <= lines.len(),
            lseq.len() == lines@.len(),
            r@.len() >= 1,
            all_interfaces_entry(r@[0]),
            forall|k: int|
                0 <= k < r@.len() - 1 ==> r@[k + 1].name@ == ds[k].0 && r@[k + 1].address@
                    == ds[k].1 && r@[k + 1].is_vpn == is_vpn_name(ds[k].0),
            r@.len() - 1 + ifaces_from(lseq.subrange(i as int, lseq.len() as int), cur@).len()
                == ds.len(),
            ds.subrange(r@.len() - 1, ds.len() as int) == ifaces_from(
                lseq.subrange(i as int, lseq.len() as int),
                cur@,
            ),
        decreases lines.len() - i,
    {
        let ghost rest_before = lseq.subrange(i as int, lseq.len() as int);
        let ghost tail_before = lseq.subrange(i + 1, lseq.len() as int);
        proof {
            assert(rest_before[0] == lseq[i as int]);
            assert(rest_before.drop_first() =~= tail_before);
        }
        let line = &lines[i];
        let first_is_digit = if line.as_str().unicode_len() > 0 {
            let c = line.as_str().get_char(0) as u32;
            48 <= c && c <= 57
        } else {
            false
        };
        if first_is_digit {
            match parse_iface_name(line.as_str()) {
                Some(nm) => {
                    cur = nm;
                },
                None => {},
            }
        } else {
            match parse_iface_addr(line.as_str()) {
                Some(addr) => {
                    proof {
                        reveal_strlit("127.");
                    }
                    if !crate::text::str_starts_with(addr.as_str(), "127.")
                        && addr.as_str().unicode_len() > 0 && cur.as_str().unicode_len() > 0 {
                        let ghost before_len = r@.len();
                        let entry_is_vpn = is_vpn_interface(cur.as_str());
                        r.push(
                            NetworkInterface {
                                name: cur.clone(),
                                address: addr,
                                is_vpn: entry_is_vpn,
                            },
                        );
                        proof {
                            assert(ifaces_from(rest_before, cur@) =~= seq![(cur@, addr@)]
                                + ifaces_from(tail_before, cur@));
                            assert(ds.subrange(before_len - 1, ds.len() as int)[0] == (
                                cur@,
                                addr@,
                            ));
                            assert(ds[before_len - 1] == (cur@, addr@));
                            assert(ds.subrange(before_len - 1, ds.len() as int).drop_first()
                                =~= ds.subrange(before_len as int, ds.len() as int));
                        }
                    }
                },
                None => {},
            }
        }
        i += 1;
    }
    proof {
        assert(lseq.subrange(lseq.len() as int, lseq.len() as int) =~= Seq::<Seq<char>>::empty());
        assert(ds.subrange(r@.len() - 1, ds.len() as int) =~= Seq::<(Seq<char>, Seq<char>)>::empty());
    }
    r
}

/// The local address reported for display: the first whitespace-separated
/// token of the hostname utility's output, unless it is missing or
/// loopback, in which case loopback is reported.
pub open spec fn first_token_ip(out: Seq<char>) -> Option<Seq<char>> {
    let toks = tokens_spec(trim_spec(out));
    if toks.len() > 0 && toks[0] != "127.0.0.1"@ {
        Some(toks[0])
    } else {
        None
    }
}

/// Picks the display address from the hostname utility's output (`None`
/// when the utility failed), falling back to loopback.
pub fn get_local_ip(hostname_output: &Option<String>) -> (r: String)
    ensures
        match hostname_output {
            Some(out) => match first_token_ip(out@) {
                Some(tok) => r@ == tok,
                None => r@ == "127.0.0.1"@,
            },
            None => r@ == "127.0.0.1"@,
        },
{
    match hostname_output {
        Some(out) => {
            let trimmed = crate::text::trim_str(out.as_str());
            let toks = crate::text::split_tokens(trimmed);
            proof {
                assert(toks.deep_view().len() == toks@.len());
            }
            if toks.len() > 0 {
                proof {
                    assert(toks.deep_view()[0] == toks@[0]@);
                }
                if !crate::text::str_eq(toks[0].as_str(), "127.0.0.1") {
                    let mut toks = toks;
                    let tok = toks.remove(0);
                    return tok;
                }
            }
            String::from_str("127.0.0.1")
        },
        None => String::from_str("127.0.0.1"),
    }
}

/// Assembles the network identity report: the resolved binding beside the
/// stored preference and the full interface list.
pub fn get_network_info(config: &NetworkConfig, interfaces: Vec<NetworkInterface>) -> (r:
    NetworkInfo)
    ensures
        is_resolved((r.current_ip, r.current_interface, r.is_vpn), interfaces@, *config),
        r.preferred_ip == config.preferred_ip,
        r.preferred_interface == config.preferred_interface,
        r.interfaces@ == interfaces@,
{
    let (current_ip, current_interface, is_vpn) = get_current_ip_internal(&interfaces, config);
    NetworkInfo {
        current_ip,
        current_interface,
        is_vpn,
        preferred_ip: clone_opt_string(&config.preferred_ip),
        preferred_interface: clone_opt_string(&config.preferred_interface),
        interfaces,
    }
}

} // verus!
