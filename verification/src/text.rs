//! Character-level helpers shared by all the parsers: classification,
//! case-insensitive matching, substring search, trimming, splitting and
//! decimal conversion, each verified against a direct specification over
//! `Seq<char>`.

use vstd::prelude::*;
use vstd::string::*;

verus! {

/// ASCII whitespace as the parsers treat it.
pub open spec fn is_space(c: char) -> bool {
    c == ' ' || c == '\t' || c == '\n' || c == '\r'
}

/// ASCII decimal digit.
pub open spec fn is_digit(c: char) -> bool {
    48 <= c as u32 && c as u32 <= 57
}

/// Code point of `c` with an ASCII upper-case letter folded to lower case.
pub open spec fn lower_code(c: char) -> u32 {
    if 65 <= c as u32 && c as u32 <= 90 {
        (c as u32 + 32) as u32
    } else {
        c as u32
    }
}

/// Character equality up to ASCII case.
pub open spec fn eq_ci(a: char, b: char) -> bool {
    lower_code(a) == lower_code(b)
}

fn is_space_char(c: char) -> (r: bool)
    ensures
        r == is_space(c),
{
    c == ' ' || c == '\t' || c == '\n' || c == '\r'
}

fn is_digit_char(c: char) -> (r: bool)
    ensures
        r == is_digit(c),
{
    let u = c as u32;
    48 <= u && u <= 57
}

fn eq_ci_char(a: char, b: char) -> (r: bool)
    ensures
        r == eq_ci(a, b),
{
    let ua = a as u32;
    let ub = b as u32;
    let la = if 65 <= ua && ua <= 90 { ua + 32 } else { ua };
    let lb = if 65 <= ub && ub <= 90 { ub + 32 } else { ub };
    la == lb
}

/// `nee` occurs character for character at position `i` of `hay`.
pub open spec fn match_at(hay: Seq<char>, nee: Seq<char>, i: int) -> bool {
    &&& 0 <= i
    &&& i + nee.len() <= hay.len()
    &&& forall|k: int| 0 <= k < nee.len() ==> hay[i + k] == nee[k]
}

/// `nee` occurs at position `i` of `hay`, up to ASCII case.
pub open spec fn match_ci_at(hay: Seq<char>, nee: Seq<char>, i: int) -> bool {
    &&& 0 <= i
    &&& i + nee.len() <= hay.len()
    &&& forall|k: int| 0 <= k < nee.len() ==> eq_ci(hay[i + k], nee[k])
}

/// `hay` holds `nee` somewhere as a contiguous run.
pub open spec fn contains_sub(hay: Seq<char>, nee: Seq<char>) -> bool {
    exists|i: int| match_at(hay, nee, i)
}

/// `hay` holds `nee` somewhere, compared up to ASCII case.
pub open spec fn contains_ci(hay: Seq<char>, nee: Seq<char>) -> bool {
    exists|i: int| match_ci_at(hay, nee, i)
}

/// `nee` is a prefix of `hay`.
pub open spec fn starts_with(hay: Seq<char>, nee: Seq<char>) -> bool {
    match_at(hay, nee, 0)
}

/// Whether `p` is a character-for-character prefix of `s`.
pub fn str_starts_with(s: &str, p: &str) -> (r: bool)
    ensures
        r == starts_with(s@, p@),
{
    let n = p.unicode_len();
    if n > s.unicode_len() {
        return false;
    }
    let mut i: usize = 0;
    while i < n
        invariant
            i <= n,
            n == p@.len(),
            n <= s@.len(),
            forall|j: int| 0 <= j < i ==> s@[j] == p@[j],
        decreases n - i,
    {
        if s.get_char(i) != p.get_char(i) {
            return false;
        }
        i += 1;
    }
    true
}

/// First position `>= from` where character `c` stands in `s`, if any.
pub fn find_char_from(s: &str, c: char, from: usize) -> (r: Option<usize>)
    requires
        from <= s@.len(),
    ensures
        match r {
            Some(i) => from <= i < s@.len() && s@[i as int] == c && forall|j: int|
                from <= j < i ==> s@[j] != c,
            None => forall|j: int| from <= j < s@.len() ==> s@[j] != c,
        },
{
    let n = s.unicode_len();
    let mut i: usize = from;
    while i < n
        invariant
            from <= i <= n,
            n == s@.len(),
            forall|j: int| from <= j < i ==> s@[j] != c,
        decreases n - i,
    {
        if s.get_char(i) == c {
            return Some(i);
        }
        i += 1;
    }
    None
}

/// First position `>= from` where `pat` occurs in `s`, if any.
pub fn find_sub_from(s: &str, pat: &str, from: usize) -> (r: Option<usize>)
    requires
        from <= s@.len(),
        pat@.len() > 0,
    ensures
        match r {
            Some(i) => from <= i && match_at(s@, pat@, i as int) && forall|j: int|
                from <= j < i ==> !match_at(s@, pat@, j),
            None => forall|j: int| from <= j ==> !match_at(s@, pat@, j),
        },
{
    let n = s.unicode_len();
    let m = pat.unicode_len();
    if m > n || from > n - m {
        assert(forall|j: int| from <= j ==> !match_at(s@, pat@, j));
        return None;
    }
    let mut i: usize = from;
    while i <= n - m
        invariant
            from <= i <= n - m + 1,
            n == s@.len(),
            m == pat@.len(),
            1 <= m <= n,
            forall|j: int| from <= j < i ==> !match_at(s@, pat@, j),
        decreases n - i,
    {
        let mut k: usize = 0;
        let mut hit = true;
        while k < m
            invariant
                k <= m,
                i + m <= n,
                n == s@.len(),
                m == pat@.len(),
                hit ==> forall|t: int| 0 <= t < k ==> s@[i + t] == pat@[t],
                !hit ==> !match_at(s@, pat@, i as int),
            decreases m - k,
        {
            if s.get_char(i + k) != pat.get_char(k) {
                hit = false;
                proof {
                    assert(!match_at(s@, pat@, i as int));
                }
                k = m;
            } else {
                k += 1;
            }
        }
        if hit {
            assert(match_at(s@, pat@, i as int));
            return Some(i);
        }
        i += 1;
    }
    assert(forall|j: int| from <= j && match_at(s@, pat@, j) ==> j + m <= n && j < i);
    None
}

/// Whether `s` holds `pat` somewhere, compared up to ASCII case.
pub fn str_contains_ci(s: &str, pat: &str) -> (r: bool)
    ensures
        r == contains_ci(s@, pat@),
{
    let n = s.unicode_len();
    let m = pat.unicode_len();
    if m == 0 {
        assert(match_ci_at(s@, pat@, 0));
        return true;
    }
    if m > n {
        assert(forall|j: int| !match_ci_at(s@, pat@, j));
        return false;
    }
    let mut i: usize = 0;
    while i <= n - m
        invariant
            i <= n - m + 1,
            n == s@.len(),
            m == pat@.len(),
            1 <= m <= n,
            forall|j: int| 0 <= j < i ==> !match_ci_at(s@, pat@, j),
        decreases n - i,
    {
        let mut k: usize = 0;
        let mut hit = true;
        while k < m
            invariant
                k <= m,
                i + m <= n,
                n == s@.len(),
                m == pat@.len(),
                hit ==> forall|t: int| 0 <= t < k ==> eq_ci(s@[i + t], pat@[t]),
                !hit ==> !match_ci_at(s@, pat@, i as int),
            decreases m - k,
        {
            if !eq_ci_char(s.get_char(i + k), pat.get_char(k)) {
                hit = false;
                proof {
                    assert(!match_ci_at(s@, pat@, i as int));
                }
                k = m;
            } else {
                k += 1;
            }
        }
        if hit {
            assert(match_ci_at(s@, pat@, i as int));
            return true;
        }
        i += 1;
    }
    assert(forall|j: int| match_ci_at(s@, pat@, j) ==> j + m <= n && j < i);
    false
}

/// Whether `s` holds `pat` somewhere as an exact contiguous run.
pub fn str_contains(s: &str, pat: &str) -> (r: bool)
    requires
        pat@.len() > 0,
    ensures
        r == contains_sub(s@, pat@),
{
    let r = find_sub_from(s, pat, 0);
    match r {
        Some(i) => {
            assert(match_at(s@, pat@, i as int));
            true
        },
        None => false,
    }
}

/// `s` with its leading whitespace removed.
pub open spec fn trim_front(s: Seq<char>) -> Seq<char>
    decreases s.len(),
{
    if s.len() > 0 && is_space(s[0]) {
        trim_front(s.drop_first())
    } else {
        s
    }
}

/// `s` with its trailing whitespace removed.
pub open spec fn trim_back(s: Seq<char>) -> Seq<char>
    decreases s.len(),
{
    if s.len() > 0 && is_space(s.last()) {
        trim_back(s.drop_last())
    } else {
        s
    }
}

/// `s` with whitespace removed from both ends.
pub open spec fn trim_spec(s: Seq<char>) -> Seq<char> {
    trim_back(trim_front(s))
}

proof fn lemma_trim_front_idx(s: Seq<char>, a: int)
    requires
        0 <= a <= s.len(),
        forall|j: int| 0 <= j < a ==> is_space(s[j]),
        a < s.len() ==> !is_space(s[a]),
    ensures
        trim_front(s) == s.subrange(a, s.len() as int),
    decreases a,
{
    if a == 0 {
        assert(s.subrange(0, s.len() as int) =~= s);
    } else {
        let t = s.drop_first();
        assert(t =~= s.subrange(1, s.len() as int));
        lemma_trim_front_idx(t, a - 1);
        assert(t.subrange(a - 1, t.len() as int) =~= s.subrange(a, s.len() as int));
    }
}

proof fn lemma_trim_back_idx(s: Seq<char>, b: int)
    requires
        0 <= b <= s.len(),
        forall|j: int| b <= j < s.len() ==> is_space(s[j]),
        b > 0 ==> !is_space(s[b - 1]),
    ensures
        trim_back(s) == s.subrange(0, b),
    decreases s.len() - b,
{
    if b == s.len() {
        assert(s.subrange(0, b) =~= s);
    } else {
        let t = s.drop_last();
        assert(t =~= s.subrange(0, s.len() - 1));
        lemma_trim_back_idx(t, b);
        assert(t.subrange(0, b) =~= s.subrange(0, b));
    }
}

/// `s` without whitespace at either end, as `str::trim` gives it.
pub fn trim_str<'a>(s: &'a str) -> (r: &'a str)
    ensures
        r@ == trim_spec(s@),
{
    let n = s.unicode_len();
    let mut a: usize = 0;
    while a < n && is_space_char(s.get_char(a))
        invariant
            a <= n,
            n == s@.len(),
            forall|j: int| 0 <= j < a ==> is_space(s@[j]),
        decreases n - a,
    {
        a += 1;
    }
    let mut b: usize = n;
    while b > a && is_space_char(s.get_char(b - 1))
        invariant
            a <= b <= n,
            n == s@.len(),
            forall|j: int| b <= j < n ==> is_space(s@[j]),
        decreases b,
    {
        b -= 1;
    }
    proof {
        lemma_trim_front_idx(s@, a as int);
        let t = s@.subrange(a as int, n as int);
        lemma_trim_back_idx(t, b - a);
        assert(t.subrange(0, b - a) =~= s@.subrange(a as int, b as int));
    }
    s.substring_char(a, b)
}

/// The pieces of `s` between occurrences of the separator `sep`, as
/// `str::split` yields them: always at least one piece, and an empty piece
/// between adjacent separators.
pub open spec fn split_spec(s: Seq<char>, sep: char) -> Seq<Seq<char>>
    decreases s.len(),
{
    if s.len() == 0 {
        seq![Seq::<char>::empty()]
    } else if s[0] == sep {
        seq![Seq::<char>::empty()] + split_spec(s.drop_first(), sep)
    } else {
        let r = split_spec(s.drop_first(), sep);
        seq![seq![s[0]] + r[0]] + r.drop_first()
    }
}

pub proof fn lemma_split_nonempty(s: Seq<char>, sep: char)
    ensures
        split_spec(s, sep).len() >= 1,
    decreases s.len(),
{
    if s.len() > 0 {
        lemma_split_nonempty(s.drop_first(), sep);
    }
}

proof fn lemma_split_at_first_sep(s: Seq<char>, sep: char, i: int)
    requires
        0 <= i <= s.len(),
        forall|j: int| 0 <= j < i ==> s[j] != sep,
        i < s.len() ==> s[i] == sep,
    ensures
        i < s.len() ==> split_spec(s, sep) == seq![s.subrange(0, i)] + split_spec(
            s.subrange(i + 1, s.len() as int),
            sep,
        ),
        i == s.len() ==> split_spec(s, sep) == seq![s],
    decreases i,
{
    lemma_split_nonempty(s, sep);
    if i == 0 {
        if s.len() == 0 {
            assert(s =~= Seq::<char>::empty());
            assert(seq![Seq::<char>::empty()] =~= seq![s]);
        } else if s[0] == sep {
            assert(s.drop_first() =~= s.subrange(1, s.len() as int));
            assert(s.subrange(0, 0) =~= Seq::<char>::empty());
        }
    } else {
        let t = s.drop_first();
        assert(t =~= s.subrange(1, s.len() as int));
        lemma_split_at_first_sep(t, sep, i - 1);
        lemma_split_nonempty(t, sep);
        let r = split_spec(t, sep);
        if i < s.len() {
            assert(r == seq![t.subrange(0, i - 1)] + split_spec(
                t.subrange(i, t.len() as int),
                sep,
            ));
            assert(r[0] == t.subrange(0, i - 1));
            assert(seq![s[0]] + t.subrange(0, i - 1) =~= s.subrange(0, i));
            assert(r.drop_first() =~= split_spec(t.subrange(i, t.len() as int), sep));
            assert(t.subrange(i, t.len() as int) =~= s.subrange(i + 1, s.len() as int));
            assert(split_spec(s, sep) =~= seq![s.subrange(0, i)] + split_spec(
                s.subrange(i + 1, s.len() as int),
                sep,
            ));
        } else {
            assert(r == seq![t]);
            assert(r[0] == t);
            assert(seq![s[0]] + t =~= s);
            assert(r.drop_first() =~= Seq::<Seq<char>>::empty());
            assert(split_spec(s, sep) =~= seq![s]);
        }
    }
}

/// The pieces of `s` between occurrences of `sep`, in order.
pub fn split_char(s: &str, sep: char) -> (r: Vec<String>)
    ensures
        r.deep_view() == split_spec(s@, sep),
{
    let n = s.unicode_len();
    let mut out: Vec<String> = Vec::new();
    let mut pos: usize = 0;
    proof {
        assert(out.deep_view() =~= Seq::<Seq<char>>::empty());
        assert(s@.subrange(0, n as int) =~= s@);
        assert(Seq::<Seq<char>>::empty() + split_spec(s@, sep) =~= split_spec(s@, sep));
    }
    loop
        invariant
            pos <= n,
            n == s@.len(),
            split_spec(s@, sep) == out.deep_view() + split_spec(
                s@.subrange(pos as int, n as int),
                sep,
            ),
        decreases n - pos,
    {
        match find_char_from(s, sep, pos) {
            Some(i) => {
                let piece = s.substring_char(pos, i);
                out.push(String::from_str(piece));
                proof {
                    let rest = s@.subrange(pos as int, n as int);
                    lemma_split_at_first_sep(rest, sep, i - pos);
                    assert(rest.subrange(0, i - pos) =~= s@.subrange(pos as int, i as int));
                    assert(rest.subrange(i - pos + 1, rest.len() as int) =~= s@.subrange(
                        i + 1,
                        n as int,
                    ));
                    assert(out.deep_view() + split_spec(s@.subrange(i + 1, n as int), sep)
                        =~= split_spec(s@, sep));
                }
                pos = i + 1;
            },
            None => {
                let piece = s.substring_char(pos, n);
                out.push(String::from_str(piece));
                proof {
                    let rest = s@.subrange(pos as int, n as int);
                    lemma_split_at_first_sep(rest, sep, rest.len() as int);
                    assert(out.deep_view() =~= split_spec(s@, sep));
                }
                return out;
            },
        }
    }
}

/// The whitespace-separated fields of `s`: the nonempty pieces between
/// space characters.
pub open spec fn tokens_spec(s: Seq<char>) -> Seq<Seq<char>> {
    split_spec(s, ' ').filter(|p: Seq<char>| p.len() > 0)
}

/// The whitespace-separated fields of `s`, in order.
pub fn split_tokens(s: &str) -> (r: Vec<String>)
    ensures
        r.deep_view() == tokens_spec(s@),
{
    let pieces = split_char(s, ' ');
    let mut out: Vec<String> = Vec::new();
    let mut i: usize = 0;
    proof {
        reveal(Seq::filter);
        assert(pieces.deep_view().subrange(0, 0) =~= Seq::<Seq<char>>::empty());
    }
    while i < pieces.len()
        invariant
            i <= pieces.len(),
            pieces.deep_view() == split_spec(s@, ' '),
            pieces.deep_view().len() == pieces.len(),
            out.deep_view() == pieces.deep_view().subrange(0, i as int).filter(
                |p: Seq<char>| p.len() > 0,
            ),
        decreases pieces.len() - i,
    {
        let ghost pre = pieces.deep_view().subrange(0, i as int);
        let piece = &pieces[i];
        if piece.as_str().unicode_len() > 0 {
            out.push(piece.clone());
        }
        proof {
            reveal(Seq::filter);
            let post = pieces.deep_view().subrange(0, i + 1);
            assert(post.drop_last() =~= pre);
            assert(post.last() == pieces.deep_view()[i as int]);
            assert(out.deep_view() =~= post.filter(|p: Seq<char>| p.len() > 0));
        }
        i += 1;
    }
    proof {
        assert(pieces.deep_view().subrange(0, pieces.len() as int) =~= pieces.deep_view());
    }
    out
}

/// The fields joined with a single space between adjacent ones.
pub open spec fn join_sp(ps: Seq<Seq<char>>) -> Seq<char>
    decreases ps.len(),
{
    if ps.len() == 0 {
        Seq::empty()
    } else if ps.len() == 1 {
        ps[0]
    } else {
        ps[0] + seq![' '] + join_sp(ps.drop_first())
    }
}

proof fn lemma_join_push(ps: Seq<Seq<char>>, x: Seq<char>)
    ensures
        ps.len() == 0 ==> join_sp(ps.push(x)) == x,
        ps.len() > 0 ==> join_sp(ps.push(x)) == join_sp(ps) + seq![' '] + x,
    decreases ps.len(),
{
    if ps.len() == 0 {
        assert(ps.push(x)[0] == x);
    } else if ps.len() == 1 {
        assert(ps.push(x).drop_first() =~= seq![x]);
        assert(join_sp(seq![x]) == x);
        assert(ps.push(x)[0] == ps[0]);
    } else {
        lemma_join_push(ps.drop_first(), x);
        assert(ps.push(x).drop_first() =~= ps.drop_first().push(x));
        assert(ps.push(x)[0] == ps[0]);
    }
}

/// The fields of `parts` from position `start` on, joined with single spaces.
pub fn join_tokens_from(parts: &Vec<String>, start: usize) -> (r: String)
    requires
        start <= parts@.len(),
    ensures
        r@ == join_sp(parts.deep_view().subrange(start as int, parts@.len() as int)),
{
    let mut acc = String::new();
    let mut i: usize = start;
    proof {
        assert(parts.deep_view().subrange(start as int, start as int)
            =~= Seq::<Seq<char>>::empty());
    }
    while i < parts.len()
        invariant
            start <= i <= parts@.len(),
            parts.deep_view().len() == parts@.len(),
            acc@ == join_sp(parts.deep_view().subrange(start as int, i as int)),
        decreases parts@.len() - i,
    {
        let ghost pre = parts.deep_view().subrange(start as int, i as int);
        if i > start {
            acc.append(" ");
            proof {
                reveal_strlit(" ");
                assert(" "@ =~= seq![' ']);
            }
        }
        acc.append(parts[i].as_str());
        proof {
            let post = parts.deep_view().subrange(start as int, i + 1);
            assert(post =~= pre.push(parts.deep_view()[i as int]));
            lemma_join_push(pre, parts.deep_view()[i as int]);
        }
        i += 1;
    }
    acc
}

/// Character-for-character equality of two string slices.
pub fn str_eq(a: &str, b: &str) -> (r: bool)
    ensures
        r == (a@ == b@),
{
    let n = a.unicode_len();
    if n != b.unicode_len() {
        return false;
    }
    let mut i: usize = 0;
    while i < n
        invariant
            i <= n,
            n == a@.len(),
            n == b@.len(),
            forall|j: int| 0 <= j < i ==> a@[j] == b@[j],
        decreases n - i,
    {
        if a.get_char(i) != b.get_char(i) {
            return false;
        }
        i += 1;
    }
    proof {
        assert(a@ =~= b@);
    }
    true
}

/// Position of the first occurrence of character `c` in `s`, if any.
pub open spec fn first_char_idx(s: Seq<char>, c: char) -> Option<int>
    decreases s.len(),
{
    if s.len() == 0 {
        None
    } else if s[0] == c {
        Some(0)
    } else {
        match first_char_idx(s.drop_first(), c) {
            Some(i) => Some(i + 1),
            None => None,
        }
    }
}

pub proof fn lemma_first_char_idx(s: Seq<char>, c: char)
    ensures
        match first_char_idx(s, c) {
            Some(i) => 0 <= i < s.len() && s[i] == c && forall|j: int| 0 <= j < i ==> s[j] != c,
            None => forall|j: int| 0 <= j < s.len() ==> s[j] != c,
        },
    decreases s.len(),
{
    if s.len() > 0 && s[0] != c {
        let t = s.drop_first();
        lemma_first_char_idx(t, c);
        assert(forall|k: int| 0 <= k < t.len() ==> t[k] == s[k + 1]);
        match first_char_idx(t, c) {
            Some(i) => {
                assert(s[i + 1] == t[i]);
                assert forall|j: int| 0 <= j < i + 1 implies s[j] != c by {
                    if j > 0 {
                        assert(s[j] == t[j - 1]);
                    }
                }
            },
            None => {
                assert forall|j: int| 0 <= j < s.len() implies s[j] != c by {
                    if j > 0 {
                        assert(s[j] == t[j - 1]);
                    }
                }
            },
        }
    }
}

/// Position of the first occurrence of `pat` in `s`, if any.
pub open spec fn first_sub_idx(s: Seq<char>, pat: Seq<char>) -> Option<int>
    decreases s.len(),
{
    if match_at(s, pat, 0) {
        Some(0)
    } else if s.len() == 0 {
        None
    } else {
        match first_sub_idx(s.drop_first(), pat) {
            Some(i) => Some(i + 1),
            None => None,
        }
    }
}

pub proof fn lemma_first_sub_idx(s: Seq<char>, pat: Seq<char>)
    ensures
        match first_sub_idx(s, pat) {
            Some(i) => match_at(s, pat, i) && forall|j: int| 0 <= j < i ==> !match_at(s, pat, j),
            None => forall|j: int| !match_at(s, pat, j),
        },
    decreases s.len(),
{
    if !match_at(s, pat, 0) && s.len() > 0 {
        let t = s.drop_first();
        lemma_first_sub_idx(t, pat);
        assert(forall|k: int| 0 <= k < t.len() ==> t[k] == s[k + 1]);
        assert forall|j: int| match_at(s, pat, j) implies j >= 1 && match_at(t, pat, j - 1) by {
            assert forall|k: int| 0 <= k < pat.len() implies t[j - 1 + k] == pat[k] by {
                assert(t[j - 1 + k] == s[j + k]);
            }
        }
        assert forall|j: int| j >= 1 && match_at(t, pat, j - 1) implies match_at(s, pat, j) by {
            assert forall|k: int| 0 <= k < pat.len() implies s[j + k] == pat[k] by {
                assert(s[j + k] == t[j - 1 + k]);
            }
        }
        match first_sub_idx(t, pat) {
            Some(i) => {
                assert(match_at(t, pat, i));
                assert(match_at(s, pat, i + 1));
            },
            None => {},
        }
    }
}

/// The position of the first occurrence of `c` in `s`, tied to its
/// specification.
#[verifier::loop_isolation(false)]
pub fn find_first_char(s: &str, c: char) -> (r: Option<usize>)
    ensures
        match r {
            Some(u) => first_char_idx(s@, c) == Some(u as int),
            None => first_char_idx(s@, c) is None,
        },
{
    proof {
        lemma_first_char_idx(s@, c);
    }
    match find_char_from(s, c, 0) {
        Some(u) => {
            proof {
                let w = first_char_idx(s@, c);
                if w is None {
                    assert(s@[u as int] != c);
                }
                let i = w->0;
                if i < u as int {
                    assert(s@[i] != c);
                }
                if i > u as int {
                    assert(s@[u as int] != c);
                }
            }
            Some(u)
        },
        None => {
            proof {
                let w = first_char_idx(s@, c);
                if w is Some {
                    assert(s@[w->0] != c);
                }
            }
            None
        },
    }
}

/// The position of the first occurrence of `pat` in `s`, tied to its
/// specification.
#[verifier::loop_isolation(false)]
pub fn find_first_sub(s: &str, pat: &str) -> (r: Option<usize>)
    requires
        pat@.len() > 0,
    ensures
        match r {
            Some(u) => first_sub_idx(s@, pat@) == Some(u as int),
            None => first_sub_idx(s@, pat@) is None,
        },
{
    proof {
        lemma_first_sub_idx(s@, pat@);
    }
    match find_sub_from(s, pat, 0) {
        Some(u) => {
            proof {
                let w = first_sub_idx(s@, pat@);
                if w is None {
                    assert(!match_at(s@, pat@, u as int));
                }
                let i = w->0;
                if i < u as int {
                    assert(!match_at(s@, pat@, i));
                }
                if i > u as int {
                    assert(!match_at(s@, pat@, u as int));
                }
            }
            Some(u)
        },
        None => {
            proof {
                let w = first_sub_idx(s@, pat@);
                if w is Some {
                    assert(!match_at(s@, pat@, w->0));
                }
            }
            None
        },
    }
}

/// Numeric value of a digit character.
pub open spec fn digit_val(c: char) -> int {
    c as u32 - 48
}

/// A nonempty run of ASCII decimal digits.
pub open spec fn is_digits(s: Seq<char>) -> bool {
    s.len() > 0 && forall|i: int| 0 <= i < s.len() ==> is_digit(s[i])
}

/// The number that a run of decimal digits denotes.
pub open spec fn digits_val(s: Seq<char>) -> int
    decreases s.len(),
{
    if s.len() == 0 {
        0
    } else {
        digits_val(s.drop_last()) * 10 + digit_val(s.last())
    }
}

proof fn lemma_digits_val_nonneg(s: Seq<char>)
    requires
        forall|i: int| 0 <= i < s.len() ==> is_digit(s[i]),
    ensures
        digits_val(s) >= 0,
    decreases s.len(),
{
    if s.len() > 0 {
        lemma_digits_val_nonneg(s.drop_last());
    }
}

proof fn lemma_digits_prefix_le(s: Seq<char>, i: int)
    requires
        0 <= i <= s.len(),
        forall|j: int| 0 <= j < s.len() ==> is_digit(s[j]),
    ensures
        digits_val(s.subrange(0, i)) <= digits_val(s),
    decreases s.len() - i,
{
    if i == s.len() {
        assert(s.subrange(0, i) =~= s);
    } else {
        let p = s.subrange(0, i);
        let q = s.subrange(0, i + 1);
        assert(q.drop_last() =~= p);
        lemma_digits_val_nonneg(p);
        assert(digits_val(q) == digits_val(p) * 10 + digit_val(q.last()));
        lemma_digits_prefix_le(s, i + 1);
    }
}

/// The value of a string of decimal digits, if it is one and fits in `u64`.
pub fn parse_dec_u64(s: &str) -> (r: Option<u64>)
    ensures
        match r {
            Some(v) => is_digits(s@) && digits_val(s@) == v,
            None => !is_digits(s@) || digits_val(s@) > u64::MAX,
        },
{
    let n = s.unicode_len();
    if n == 0 {
        return None;
    }
    let mut acc: u64 = 0;
    let mut i: usize = 0;
    proof {
        assert(s@.subrange(0, 0) =~= Seq::<char>::empty());
    }
    while i < n
        invariant
            i <= n,
            n == s@.len(),
            forall|j: int| 0 <= j < i ==> is_digit(s@[j]),
            acc == digits_val(s@.subrange(0, i as int)),
        decreases n - i,
    {
        let c = s.get_char(i);
        if !is_digit_char(c) {
            return None;
        }
        let d = (c as u32 - 48) as u64;
        let next: u128 = acc as u128 * 10 + d as u128;
        proof {
            assert(s@.subrange(0, i + 1).drop_last() =~= s@.subrange(0, i as int));
            assert(digits_val(s@.subrange(0, i + 1)) == acc * 10 + d);
        }
        if next > u64::MAX as u128 {
            proof {
                if is_digits(s@) {
                    lemma_digits_prefix_le(s@, i + 1);
                }
            }
            return None;
        }
        acc = next as u64;
        i += 1;
    }
    proof {
        assert(s@.subrange(0, n as int) =~= s@);
    }
    Some(acc)
}

/// The value of a string of decimal digits, if it is one and fits in `u16`.
pub fn parse_dec_u16(s: &str) -> (r: Option<u16>)
    ensures
        match r {
            Some(v) => is_digits(s@) && digits_val(s@) == v,
            None => !is_digits(s@) || digits_val(s@) > u16::MAX,
        },
{
    match parse_dec_u64(s) {
        Some(v) => if v <= u16::MAX as u64 {
            Some(v as u16)
        } else {
            None
        },
        None => None,
    }
}

/// The digit character for a value below ten.
pub open spec fn digit_char(d: int) -> char {
    if d == 0 {
        '0'
    } else if d == 1 {
        '1'
    } else if d == 2 {
        '2'
    } else if d == 3 {
        '3'
    } else if d == 4 {
        '4'
    } else if d == 5 {
        '5'
    } else if d == 6 {
        '6'
    } else if d == 7 {
        '7'
    } else if d == 8 {
        '8'
    } else {
        '9'
    }
}

/// The decimal representation of a nonnegative number, most significant
/// digit first, without leading zeros (a single zero for zero itself).
pub open spec fn dec_rep(n: int) -> Seq<char>
    decreases n,
{
    if n < 0 {
        Seq::empty()
    } else if n < 10 {
        seq![digit_char(n)]
    } else {
        dec_rep(n / 10).push(digit_char(n % 10))
    }
}

fn digit_str(d: u16) -> (r: &'static str)
    requires
        d < 10,
    ensures
        r@ == seq![digit_char(d as int)],
{
    proof {
        reveal_strlit("0");
        reveal_strlit("1");
        reveal_strlit("2");
        reveal_strlit("3");
        reveal_strlit("4");
        reveal_strlit("5");
        reveal_strlit("6");
        reveal_strlit("7");
        reveal_strlit("8");
        reveal_strlit("9");
    }
    let r = match d {
        0 => "0",
        1 => "1",
        2 => "2",
        3 => "3",
        4 => "4",
        5 => "5",
        6 => "6",
        7 => "7",
        8 => "8",
        _ => "9",
    };
    proof {
        assert(r@ =~= seq![digit_char(d as int)]);
    }
    r
}

/// The decimal text of a port number.
pub fn u16_to_string(v: u16) -> (r: String)
    ensures
        r@ == dec_rep(v as int),
    decreases v,
{
    if v < 10 {
        String::from_str(digit_str(v))
    } else {
        let mut s = u16_to_string(v / 10);
        s.append(digit_str(v % 10));
        proof {
            assert(dec_rep(v as int) =~= dec_rep(v as int / 10) + seq![
                digit_char(v as int % 10),
            ]);
        }
        s
    }
}

/// `s` with every backslash turned into a forward slash.
pub open spec fn slashes_forward(s: Seq<char>) -> Seq<char> {
    Seq::new(s.len(), |i: int| if s[i] == '\\' { '/' } else { s[i] })
}

/// Normalizes path separators to the forward-slash form.
pub fn backslashes_to_forward(s: &str) -> (r: String)
    ensures
        r@ == slashes_forward(s@),
{
    let n = s.unicode_len();
    let mut acc = String::new();
    let mut i: usize = 0;
    proof {
        assert(acc@ =~= slashes_forward(s@).subrange(0, 0));
    }
    while i < n
        invariant
            i <= n,
            n == s@.len(),
            acc@ == slashes_forward(s@).subrange(0, i as int),
        decreases n - i,
    {
        let c = s.get_char(i);
        if c == '\\' {
            acc.append("/");
            proof {
                reveal_strlit("/");
            }
        } else {
            acc.append(s.substring_char(i, i + 1));
        }
        proof {
            assert(acc@ =~= slashes_forward(s@).subrange(0, i + 1));
        }
        i += 1;
    }
    proof {
        assert(slashes_forward(s@).subrange(0, n as int) =~= slashes_forward(s@));
    }
    acc
}

/// Lexicographic order over code points folded to ASCII lower case; the
/// shorter string comes first when one is a prefix of the other.
pub open spec fn lex_le_ci(a: Seq<char>, b: Seq<char>) -> bool
    decreases a.len(),
{
    if a.len() == 0 {
        true
    } else if b.len() == 0 {
        false
    } else if lower_code(a[0]) < lower_code(b[0]) {
        true
    } else if lower_code(a[0]) > lower_code(b[0]) {
        false
    } else {
        lex_le_ci(a.drop_first(), b.drop_first())
    }
}

pub proof fn lemma_lex_le_ci_total(a: Seq<char>, b: Seq<char>)
    ensures
        lex_le_ci(a, b) || lex_le_ci(b, a),
    decreases a.len(),
{
    if a.len() > 0 && b.len() > 0 && lower_code(a[0]) == lower_code(b[0]) {
        lemma_lex_le_ci_total(a.drop_first(), b.drop_first());
    }
}

pub proof fn lemma_lex_le_ci_trans(a: Seq<char>, b: Seq<char>, c: Seq<char>)
    requires
        lex_le_ci(a, b),
        lex_le_ci(b, c),
    ensures
        lex_le_ci(a, c),
    decreases a.len(),
{
    if a.len() > 0 && b.len() > 0 && c.len() > 0 && lower_code(a[0]) == lower_code(b[0])
        && lower_code(b[0]) == lower_code(c[0]) {
        lemma_lex_le_ci_trans(a.drop_first(), b.drop_first(), c.drop_first());
    }
}

/// Compares two names case-insensitively, as the listing sort orders them.
pub fn str_le_ci(a: &str, b: &str) -> (r: bool)
    ensures
        r == lex_le_ci(a@, b@),
    decreases a@.len(),
{
    let na = a.unicode_len();
    let nb = b.unicode_len();
    if na == 0 {
        true
    } else if nb == 0 {
        false
    } else {
        let ua = a.get_char(0) as u32;
        let ub = b.get_char(0) as u32;
        let la = if 65 <= ua && ua <= 90 { ua + 32 } else { ua };
        let lb = if 65 <= ub && ub <= 90 { ub + 32 } else { ub };
        if la < lb {
            true
        } else if la > lb {
            false
        } else {
            let ta = a.substring_char(1, na);
            let tb = b.substring_char(1, nb);
            proof {
                assert(ta@ =~= a@.drop_first());
                assert(tb@ =~= b@.drop_first());
            }
            str_le_ci(ta, tb)
        }
    }
}

} // verus!
