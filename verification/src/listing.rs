//! Directory listings: the parser for a long-format listing produced inside
//! a container, and the ordering in which entries are reported — directories
//! first, then case-insensitive name order.

use vstd::prelude::*;
use vstd::string::*;
use vstd::seq_lib::group_filter_ensures;
use vstd::seq_lib::group_to_multiset_ensures;
use vstd::multiset::group_multiset_axioms;

use crate::text::{
    digits_val, is_digits, join_sp, lex_le_ci, split_spec, tokens_spec, lemma_lex_le_ci_total,
    lemma_lex_le_ci_trans,
};

verus! {

/// One entry of a directory listing.
#[derive(Debug)]
pub struct FileEntry {
    pub name: String,
    pub path: String,
    pub is_dir: bool,
    pub size: u64,
}

impl Clone for FileEntry {
    fn clone(&self) -> (r: Self)
        ensures
            r == *self,
    {
        FileEntry {
            name: self.name.clone(),
            path: self.path.clone(),
            is_dir: self.is_dir,
            size: self.size,
        }
    }
}

/// The mathematical content of an entry: name, path, directory flag, size.
pub open spec fn entry_view(e: FileEntry) -> (Seq<char>, Seq<char>, bool, int) {
    (e.name@, e.path@, e.is_dir, e.size as int)
}

/// The contents of a whole entry list.
pub open spec fn views_of(s: Seq<FileEntry>) -> Seq<(Seq<char>, Seq<char>, bool, int)> {
    s.map_values(|e: FileEntry| entry_view(e))
}

/// `s` with every trailing `/` removed.
pub open spec fn trim_trailing_slashes(s: Seq<char>) -> Seq<char>
    decreases s.len(),
{
    if s.len() > 0 && s.last() == '/' {
        trim_trailing_slashes(s.drop_last())
    } else {
        s
    }
}

/// The absolute path of an entry named `name` under the queried directory
/// `dir`: the two joined with one separator, the root directory joining
/// without a duplicate one.
pub open spec fn path_join(dir: Seq<char>, name: Seq<char>) -> Seq<char> {
    if dir == "/"@ {
        seq!['/'] + name
    } else {
        trim_trailing_slashes(dir) + seq!['/'] + name
    }
}

proof fn lemma_trim_slash_idx(s: Seq<char>, b: int)
    requires
        0 <= b <= s.len(),
        forall|j: int| b <= j < s.len() ==> s[j] == '/',
        b > 0 ==> s[b - 1] != '/',
    ensures
        trim_trailing_slashes(s) == s.subrange(0, b),
    decreases s.len() - b,
{
    if b == s.len() {
        assert(s.subrange(0, b) =~= s);
    } else {
        let t = s.drop_last();
        assert(t =~= s.subrange(0, s.len() - 1));
        lemma_trim_slash_idx(t, b);
        assert(t.subrange(0, b) =~= s.subrange(0, b));
    }
}

/// Joins the queried directory and an entry name into the entry's path.
pub fn path_join_exec(dir: &str, name: &str) -> (r: String)
    ensures
        r@ == path_join(dir@, name@),
{
    proof {
        reveal_strlit("/");
        assert("/"@ =~= seq!['/']);
    }
    if crate::text::str_eq(dir, "/") {
        let r = String::from_str("/").concat(name);
        proof {
            assert(r@ =~= path_join(dir@, name@));
        }
        r
    } else {
        let n = dir.unicode_len();
        let mut b: usize = n;
        while b > 0 && dir.get_char(b - 1) == '/'
            invariant
                b <= n,
                n == dir@.len(),
                forall|j: int| b <= j < n ==> dir@[j] == '/',
            decreases b,
        {
            b -= 1;
        }
        proof {
            lemma_trim_slash_idx(dir@, b as int);
        }
        let base = dir.substring_char(0, b);
        let r = String::from_str(base).concat("/").concat(name);
        proof {
            assert(r@ =~= path_join(dir@, name@));
        }
        r
    }
}

/// What one listing line denotes under the queried directory `dir`: `None`
/// for the lines a listing parse skips (fewer than nine fields, or the `.`
/// and `..` entries), else the entry's name (fields nine onward, joined to
/// tolerate embedded spaces), path, directory flag (first permission
/// character) and size (fifth field, zero when unparseable).
pub open spec fn parsed_entry(l: Seq<char>, dir: Seq<char>) -> Option<
    (Seq<char>, Seq<char>, bool, int),
> {
    let toks = tokens_spec(l);
    if toks.len() < 9 {
        None
    } else {
        let name = join_sp(toks.subrange(8, toks.len() as int));
        if name == "."@ || name == ".."@ {
            None
        } else {
            let is_dir = toks[0][0] == 'd';
            let size: int = if is_digits(toks[4]) && digits_val(toks[4]) <= u64::MAX {
                digits_val(toks[4])
            } else {
                0
            };
            Some((name, path_join(dir, name), is_dir, size))
        }
    }
}

/// The entries a listing output denotes, in listing order: every line after
/// the first (the summary line), parsed, with skipped lines left out.
pub open spec fn listing_entries(out: Seq<char>, dir: Seq<char>) -> Seq<
    (Seq<char>, Seq<char>, bool, int),
> {
    let ls = split_spec(out, '\n').drop_first();
    ls.filter(|l: Seq<char>| parsed_entry(l, dir) is Some).map_values(
        |l: Seq<char>| parsed_entry(l, dir)->0,
    )
}

/// Neither `.` nor `..` ever appears among the parsed entries.
pub proof fn lemma_no_dot_entries(out: Seq<char>, dir: Seq<char>, i: int)
    requires
        0 <= i < listing_entries(out, dir).len(),
    ensures
        listing_entries(out, dir)[i].0 != "."@,
        listing_entries(out, dir)[i].0 != ".."@,
{
    broadcast use group_filter_ensures;

    let ls = split_spec(out, '\n').drop_first();
    let p = |l: Seq<char>| parsed_entry(l, dir) is Some;
    let kept = ls.filter(p);
    assert(p(kept[i]));
    assert(listing_entries(out, dir)[i] == parsed_entry(kept[i], dir)->0);
}

/// Parses one listing line into an entry, exactly as `parsed_entry` says.
#[verifier::loop_isolation(false)]
fn parse_listing_line(line: &str, dir: &str) -> (r: Option<FileEntry>)
    ensures
        (r is Some) == (parsed_entry(line@, dir@) is Some),
        r is Some ==> entry_view(r->0) == parsed_entry(line@, dir@)->0,
{
    broadcast use group_filter_ensures;

    let toks = crate::text::split_tokens(line);
    proof {
        assert(toks.deep_view() == tokens_spec(line@));
        assert(toks.deep_view().len() == toks@.len());
    }
    if toks.len() < 9 {
        return None;
    }
    let name = crate::text::join_tokens_from(&toks, 8);
    proof {
        assert(toks.deep_view().subrange(8, toks@.len() as int) == tokens_spec(
            line@,
        ).subrange(8, tokens_spec(line@).len() as int));
    }
    if crate::text::str_eq(name.as_str(), ".") || crate::text::str_eq(name.as_str(), "..") {
        return None;
    }
    proof {
        assert(tokens_spec(line@)[0].len() > 0);
        assert(toks.deep_view()[0] == toks@[0]@);
    }
    let is_dir = toks[0].as_str().get_char(0) == 'd';
    let size = match crate::text::parse_dec_u64(toks[4].as_str()) {
        Some(v) => v,
        None => 0,
    };
    proof {
        assert(toks.deep_view()[4] == toks@[4]@);
    }
    let path = path_join_exec(dir, name.as_str());
    Some(FileEntry { name, path, is_dir, size })
}

/// Parses a whole listing output: every line after the summary line, in
/// order, with skipped lines left out.
#[verifier::loop_isolation(false)]
pub fn parse_listing(output: &str, dir: &str) -> (r: Vec<FileEntry>)
    ensures
        views_of(r@) == listing_entries(output@, dir@),
{
    let lines = crate::text::split_char(output, '\n');
    let ghost lseq = lines.deep_view().drop_first();
    let ghost p = |l: Seq<char>| parsed_entry(l, dir@) is Some;
    let ghost f = |l: Seq<char>| parsed_entry(l, dir@)->0;
    let mut out: Vec<FileEntry> = Vec::new();
    let mut i: usize = 1;
    proof {
        reveal(Seq::filter);
        assert(lseq.subrange(0, 0) =~= Seq::<Seq<char>>::empty());
        assert(views_of(out@) =~= lseq.subrange(0, 0).filter(p).map_values(f));
    }
    while i < lines.len()
        invariant
            1 <= i <= lines.len() || (lines.len() < 1 && i == 1),
            lseq.len() == lines@.len() - 1,
            views_of(out@) == lseq.subrange(0, i - 1).filter(p).map_values(f),
        decreases lines.len() - i,
    {
        let ghost pre = lseq.subrange(0, i - 1);
        proof {
            assert(lseq[i - 1] == lines.deep_view()[i as int]);
        }
        let parsed = parse_listing_line(lines[i].as_str(), dir);
        let ghost old_out = out@;
        let ghost pushed = parsed;
        match parsed {
            Some(e) => {
                out.push(e);
                proof {
                    assert(views_of(out@) =~= views_of(old_out).push(entry_view(e)));
                }
            },
            None => {},
        }
        proof {
            reveal(Seq::filter);
            let post = lseq.subrange(0, i as int);
            assert(post.drop_last() =~= pre);
            assert(post.last() == lseq[i - 1]);
            if p(lseq[i - 1]) {
                assert(post.filter(p) =~= pre.filter(p).push(lseq[i - 1]));
                assert(pre.filter(p).push(lseq[i - 1]).map_values(f) =~= pre.filter(
                    p,
                ).map_values(f).push(f(lseq[i - 1])));
                assert(pushed is Some);
                assert(f(lseq[i - 1]) == entry_view(pushed->0));
                assert(views_of(out@) =~= post.filter(p).map_values(f));
            } else {
                assert(post.filter(p) =~= pre.filter(p));
            }
        }
        i += 1;
    }
    proof {
        if lines.len() >= 1 {
            assert(lseq.subrange(0, lines@.len() - 1) =~= lseq);
        } else {
            crate::text::lemma_split_nonempty(output@, '\n');
        }
        assert(listing_entries(output@, dir@) == lseq.filter(p).map_values(f));
    }
    out
}

/// The reporting order: directories before files, and otherwise
/// case-insensitive name order.
pub open spec fn entry_le(a: FileEntry, b: FileEntry) -> bool {
    if a.is_dir != b.is_dir {
        a.is_dir
    } else {
        lex_le_ci(a.name@, b.name@)
    }
}

/// The whole list is in reporting order.
pub open spec fn entries_sorted(s: Seq<FileEntry>) -> bool {
    forall|i: int, j: int| 0 <= i < j < s.len() ==> entry_le(s[i], s[j])
}

pub proof fn lemma_entry_le_total(a: FileEntry, b: FileEntry)
    ensures
        entry_le(a, b) || entry_le(b, a),
{
    lemma_lex_le_ci_total(a.name@, b.name@);
}

pub proof fn lemma_entry_le_trans(a: FileEntry, b: FileEntry, c: FileEntry)
    requires
        entry_le(a, b),
        entry_le(b, c),
    ensures
        entry_le(a, c),
{
    if a.is_dir == b.is_dir && b.is_dir == c.is_dir {
        lemma_lex_le_ci_trans(a.name@, b.name@, c.name@);
    }
}

fn entry_le_exec(a: &FileEntry, b: &FileEntry) -> (r: bool)
    ensures
        r == entry_le(*a, *b),
{
    if a.is_dir != b.is_dir {
        a.is_dir
    } else {
        crate::text::str_le_ci(a.name.as_str(), b.name.as_str())
    }
}

#[verifier::loop_isolation(false)]
fn min_entry_index(v: &Vec<FileEntry>) -> (m: usize)
    requires
        v@.len() > 0,
    ensures
        m < v@.len(),
        forall|k: int| 0 <= k < v@.len() ==> entry_le(v@[m as int], v@[k]),
{
    let mut m: usize = 0;
    let mut k: usize = 1;
    proof {
        lemma_entry_le_total(v@[0], v@[0]);
    }
    while k < v.len()
        invariant
            m < k <= v@.len(),
            forall|t: int| 0 <= t < k ==> entry_le(v@[m as int], v@[t]),
        decreases v@.len() - k,
    {
        if !entry_le_exec(&v[m], &v[k]) {
            proof {
                lemma_entry_le_total(v@[m as int], v@[k as int]);
                assert forall|t: int| 0 <= t <= k implies entry_le(v@[k as int], v@[t]) by {
                    if t < k {
                        lemma_entry_le_trans(v@[k as int], v@[m as int], v@[t]);
                    } else {
                        lemma_entry_le_total(v@[k as int], v@[k as int]);
                    }
                }
            }
            m = k;
        }
        k += 1;
    }
    m
}

/// Sorts entries into reporting order: the result is sorted and holds
/// exactly the same entries.
#[verifier::loop_isolation(false)]
pub fn sort_entries(v: Vec<FileEntry>) -> (r: Vec<FileEntry>)
    ensures
        entries_sorted(r@),
        views_of(r@).to_multiset() == views_of(v@).to_multiset(),
        r@.len() == v@.len(),
{
    broadcast use group_to_multiset_ensures;
    broadcast use group_multiset_axioms;

    let mut rest = v;
    let mut out: Vec<FileEntry> = Vec::new();
    proof {
        assert(views_of(out@) =~= Seq::<(Seq<char>, Seq<char>, bool, int)>::empty());
        assert(views_of(out@).to_multiset().add(views_of(rest@).to_multiset()) =~= views_of(
            v@,
        ).to_multiset());
    }
    while rest.len() > 0
        invariant
            entries_sorted(out@),
            forall|i: int, k: int|
                0 <= i < out@.len() && 0 <= k < rest@.len() ==> entry_le(out@[i], rest@[k]),
            views_of(out@).to_multiset().add(views_of(rest@).to_multiset()) == views_of(
                v@,
            ).to_multiset(),
            out@.len() + rest@.len() == v@.len(),
        decreases rest@.len(),
    {
        let ghost old_out = out@;
        let ghost old_rest = rest@;
        let m = min_entry_index(&rest);
        let x = rest.remove(m);
        out.push(x);
        proof {
            // sortedness: the pushed entry is at least every earlier one
            assert forall|i: int, j: int|
                0 <= i < j < out@.len() implies entry_le(out@[i], out@[j]) by {
                if j == out@.len() - 1 {
                    assert(entry_le(old_out[i], old_rest[m as int]));
                }
            }
            // every element of the result so far is at most every remaining one
            assert forall|i: int, k: int|
                0 <= i < out@.len() && 0 <= k < rest@.len() implies entry_le(
                out@[i],
                rest@[k],
            ) by {
                assert(rest@[k] == if k < m as int {
                    old_rest[k]
                } else {
                    old_rest[k + 1]
                });
                if i < out@.len() - 1 {
                    assert(entry_le(old_out[i], rest@[k]));
                } else {
                    assert(entry_le(old_rest[m as int], rest@[k]));
                }
            }
            // the contents are preserved
            let vw = |e: FileEntry| entry_view(e);
            assert(views_of(out@) =~= views_of(old_out).push(entry_view(x)));
            assert(views_of(rest@) =~= views_of(old_rest).remove(m as int));
            assert(views_of(old_rest)[m as int] == entry_view(x));
            assert(views_of(old_rest).to_multiset().contains(entry_view(x)));
            assert(views_of(out@).to_multiset() =~= views_of(old_out).to_multiset().insert(
                entry_view(x),
            ));
            assert(views_of(rest@).to_multiset() =~= views_of(old_rest).to_multiset().remove(
                entry_view(x),
            ));
            assert(views_of(out@).to_multiset().add(views_of(rest@).to_multiset()) =~= views_of(
                old_out,
            ).to_multiset().add(views_of(old_rest).to_multiset()));
        }
    }
    proof {
        assert(views_of(rest@) =~= Seq::<(Seq<char>, Seq<char>, bool, int)>::empty());
        assert(views_of(out@).to_multiset().add(views_of(rest@).to_multiset()) =~= views_of(
            out@,
        ).to_multiset());
    }
    out
}

/// Turns the raw output of a listing command run inside a container into
/// the reported entry list: parsed entries, sorted into reporting order; a
/// failed command's error text is passed through.
pub fn list_files_from_listing(exec_output: Result<String, String>, path: &str) -> (r: Result<
    Vec<FileEntry>,
    String,
>)
    ensures
        match r {
            Ok(entries) => exec_output is Ok && entries_sorted(entries@) && views_of(
                entries@,
            ).to_multiset() == listing_entries(exec_output->Ok_0@, path@).to_multiset(),
            Err(e) => exec_output is Err && e == exec_output->Err_0,
        },
{
    match exec_output {
        Ok(output) => {
            let parsed = parse_listing(output.as_str(), path);
            let sorted = sort_entries(parsed);
            Ok(sorted)
        },
        Err(e) => Err(e),
    }
}

} // verus!
