//! The credential store: per-server connection secrets that cannot be read
//! back from the container runtime. The store is a list of entries with
//! pairwise distinct names; persistence of the document lives outside the
//! library, which only ever sees and mutates the in-memory value.

use vstd::prelude::*;
use vstd::string::*;

verus! {

/// Connection secrets for one server, keyed by the server name; written on
/// create, deleted on remove, otherwise immutable.
#[derive(Debug)]
pub struct StoredCredentials {
    pub username: String,
    pub password: String,
    pub host_path: String,
    pub container_path: String,
}

impl Clone for StoredCredentials {
    fn clone(&self) -> (r: Self)
        ensures
            r == *self,
    {
        StoredCredentials {
            username: self.username.clone(),
            password: self.password.clone(),
            host_path: self.host_path.clone(),
            container_path: self.container_path.clone(),
        }
    }
}

/// One stored record: a server name and its secrets.
#[derive(Debug)]
pub struct CredEntry {
    pub name: String,
    pub creds: StoredCredentials,
}

/// The in-memory credential document: entries with pairwise distinct names.
#[derive(Debug)]
pub struct CredStore {
    pub entries: Vec<CredEntry>,
}

/// The record stored under name `n`, scanning from the front.
pub open spec fn lookup_seq(s: Seq<CredEntry>, n: Seq<char>) -> Option<StoredCredentials>
    decreases s.len(),
{
    if s.len() == 0 {
        None
    } else if s[0].name@ == n {
        Some(s[0].creds)
    } else {
        lookup_seq(s.drop_first(), n)
    }
}

impl CredStore {
    /// No two entries carry the same name.
    pub open spec fn wf(self) -> bool {
        forall|i: int, j: int|
            0 <= i < j < self.entries@.len() ==> self.entries@[i].name@ != self.entries@[j].name@
    }

    /// An empty store, the value a missing or unreadable document denotes.
    pub fn new() -> (r: CredStore)
        ensures
            r.wf(),
            r.entries@.len() == 0,
            forall|n: Seq<char>| lookup_seq(r.entries@, n) is None,
    {
        CredStore { entries: Vec::new() }
    }

    /// The stored record for `name`, if one exists.
    pub fn lookup<'a>(&'a self, name: &str) -> (r: Option<&'a StoredCredentials>)
        ensures
            match r {
                Some(c) => lookup_seq(self.entries@, name@) == Some(*c),
                None => lookup_seq(self.entries@, name@) is None,
            },
    {
        let n = self.entries.len();
        let mut i: usize = 0;
        while i < n
            invariant
                i <= n,
                n == self.entries@.len(),
                forall|j: int| 0 <= j < i ==> self.entries@[j].name@ != name@,
            decreases n - i,
        {
            if crate::text::str_eq(self.entries[i].name.as_str(), name) {
                proof {
                    lemma_lookup_skip(self.entries@, name@, i as int);
                    assert(self.entries@.subrange(i as int, n as int)[0] == self.entries@[
                        i as int
                    ]);
                }
                return Some(&self.entries[i].creds);
            }
            i += 1;
        }
        proof {
            lemma_lookup_absent(self.entries@, name@);
        }
        None
    }
}

/// Scanning may skip a prefix in which the name does not occur.
proof fn lemma_lookup_skip(s: Seq<CredEntry>, n: Seq<char>, i: int)
    requires
        0 <= i <= s.len(),
        forall|j: int| 0 <= j < i ==> s[j].name@ != n,
    ensures
        lookup_seq(s, n) == lookup_seq(s.subrange(i, s.len() as int), n),
    decreases i,
{
    if i == 0 {
        assert(s.subrange(0, s.len() as int) =~= s);
    } else {
        let t = s.drop_first();
        assert(t =~= s.subrange(1, s.len() as int));
        lemma_lookup_skip(t, n, i - 1);
        assert(t.subrange(i - 1, t.len() as int) =~= s.subrange(i, s.len() as int));
    }
}

/// A name is found if and only if some entry carries it.
proof fn lemma_lookup_absent(s: Seq<CredEntry>, n: Seq<char>)
    ensures
        (lookup_seq(s, n) is None) <==> (forall|k: int| 0 <= k < s.len() ==> s[k].name@ != n),
    decreases s.len(),
{
    if s.len() > 0 {
        let t = s.drop_first();
        lemma_lookup_absent(t, n);
        assert(forall|k: int| 0 <= k < t.len() ==> t[k] == s[k + 1]);
        if s[0].name@ == n {
            assert(!(forall|k: int| 0 <= k < s.len() ==> s[k].name@ != n));
        } else {
            assert(lookup_seq(s, n) == lookup_seq(t, n));
            if lookup_seq(t, n) is None {
                assert forall|k: int| 0 <= k < s.len() implies s[k].name@ != n by {
                    if k > 0 {
                        assert(t[k - 1] == s[k]);
                    }
                }
            } else {
                assert(exists|k: int| 0 <= k < t.len() && t[k].name@ == n);
                let k = choose|k: int| 0 <= k < t.len() && t[k].name@ == n;
                assert(s[k + 1].name@ == n);
            }
        }
    }
}

/// Removing the one entry that carries a name erases that name and no other.
proof fn lemma_lookup_remove(s: Seq<CredEntry>, i: int)
    requires
        0 <= i < s.len(),
        forall|a: int, b: int| 0 <= a < b < s.len() ==> s[a].name@ != s[b].name@,
    ensures
        forall|n: Seq<char>| #[trigger]
            lookup_seq(s.remove(i), n) == if n == s[i].name@ {
                None
            } else {
                lookup_seq(s, n)
            },
    decreases s.len(),
{
    let m = s[i].name@;
    if i == 0 {
        assert(s.remove(0) =~= s.drop_first());
        assert forall|n: Seq<char>|
            #[trigger] lookup_seq(s.remove(0), n) == if n == m {
                None
            } else {
                lookup_seq(s, n)
            } by {
            if n == m {
                assert(forall|k: int|
                    0 <= k < s.drop_first().len() ==> s.drop_first()[k].name@ != m);
                lemma_lookup_absent(s.drop_first(), n);
            }
        }
    } else {
        let t = s.drop_first();
        assert(forall|a: int, b: int| 0 <= a < b < t.len() ==> t[a].name@ != t[b].name@);
        lemma_lookup_remove(t, i - 1);
        assert(s.remove(i).drop_first() =~= t.remove(i - 1));
        assert(s.remove(i)[0] == s[0]);
        assert forall|n: Seq<char>|
            #[trigger] lookup_seq(s.remove(i), n) == if n == m {
                None
            } else {
                lookup_seq(s, n)
            } by {
            if s[0].name@ == n {
                assert(n != m);
            } else {
                assert(lookup_seq(s.remove(i), n) == lookup_seq(t.remove(i - 1), n));
            }
        }
    }
}

/// Appending an entry adds its name and leaves every other name as it was.
proof fn lemma_lookup_push(s: Seq<CredEntry>, e: CredEntry)
    ensures
        forall|n: Seq<char>| #[trigger]
            lookup_seq(s.push(e), n) == if lookup_seq(s, n) is Some {
                lookup_seq(s, n)
            } else if n == e.name@ {
                Some(e.creds)
            } else {
                None
            },
    decreases s.len(),
{
    if s.len() == 0 {
        assert forall|n: Seq<char>|
            #[trigger] lookup_seq(s.push(e), n) == if lookup_seq(s, n) is Some {
                lookup_seq(s, n)
            } else if n == e.name@ {
                Some(e.creds)
            } else {
                None
            } by {
            assert(s.push(e)[0] == e);
            let t = s.push(e).drop_first();
            assert(t =~= Seq::<CredEntry>::empty());
            assert(lookup_seq(t, n) is None);
            assert(lookup_seq(s, n) is None);
        }
    } else {
        lemma_lookup_push(s.drop_first(), e);
        assert forall|n: Seq<char>|
            #[trigger] lookup_seq(s.push(e), n) == if lookup_seq(s, n) is Some {
                lookup_seq(s, n)
            } else if n == e.name@ {
                Some(e.creds)
            } else {
                None
            } by {
            assert(s.push(e)[0] == s[0]);
            assert(s.push(e).drop_first() =~= s.drop_first().push(e));
            if s[0].name@ != n {
                assert(lookup_seq(s.push(e), n) == lookup_seq(s.drop_first().push(e), n));
                assert(lookup_seq(s, n) == lookup_seq(s.drop_first(), n));
            }
        }
    }
}

/// Deletes the record stored under `name`, if any; every other record stays.
pub fn remove_server_credentials(store: &mut CredStore, name: &str)
    requires
        old(store).wf(),
    ensures
        final(store).wf(),
        forall|n: Seq<char>| #[trigger]
            lookup_seq(final(store).entries@, n) == if n == name@ {
                None::<StoredCredentials>
            } else {
                lookup_seq(old(store).entries@, n)
            },
{
    let n = store.entries.len();
    let mut i: usize = 0;
    while i < n
        invariant
            i <= n,
            n == store.entries@.len(),
            *store == *old(store),
            old(store).wf(),
            forall|j: int| 0 <= j < i ==> store.entries@[j].name@ != name@,
        decreases n - i,
    {
        if crate::text::str_eq(store.entries[i].name.as_str(), name) {
            proof {
                lemma_lookup_remove(store.entries@, i as int);
            }
            store.entries.remove(i);
            proof {
                let olds = old(store).entries@;
                assert forall|a: int, b: int|
                    0 <= a < b < store.entries@.len() implies store.entries@[a].name@
                    != store.entries@[b].name@ by {
                    assert(store.entries@[a] == if a < i { olds[a] } else { olds[a + 1] });
                    assert(store.entries@[b] == if b < i { olds[b] } else { olds[b + 1] });
                }
            }
            return ;
        }
        i += 1;
    }
    proof {
        lemma_lookup_absent(store.entries@, name@);
    }
}

/// Stores `creds` under `name`, replacing any record that name already had
/// and leaving every other record as it was.
pub fn store_server_credentials(store: &mut CredStore, name: &str, creds: StoredCredentials)
    requires
        old(store).wf(),
    ensures
        final(store).wf(),
        forall|n: Seq<char>| #[trigger]
            lookup_seq(final(store).entries@, n) == if n == name@ {
                Some(creds)
            } else {
                lookup_seq(old(store).entries@, n)
            },
{
    remove_server_credentials(store, name);
    let ghost mid = store.entries@;
    let entry = CredEntry { name: String::from_str(name), creds };
    proof {
        lemma_lookup_push(mid, entry);
        lemma_lookup_absent(mid, name@);
    }
    store.entries.push(entry);
    proof {
        assert forall|a: int, b: int|
            0 <= a < b < store.entries@.len() implies store.entries@[a].name@
            != store.entries@[b].name@ by {
            if b == store.entries@.len() - 1 {
                assert(store.entries@[a] == mid[a]);
            }
        }
        assert forall|n: Seq<char>|
            #[trigger] lookup_seq(store.entries@, n) == if n == name@ {
                Some(entry.creds)
            } else {
                lookup_seq(old(store).entries@, n)
            } by {
            assert(lookup_seq(mid, n) == if n == name@ {
                None::<StoredCredentials>
            } else {
                lookup_seq(old(store).entries@, n)
            });
        }
    }
}

} // verus!
