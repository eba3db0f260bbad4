//! Subject filters.

use vstd::prelude::*;

verus! {

/// The first dot at or after `from`, or the end.
pub open spec fn token_end(s: Seq<u8>, from: int) -> int
    decreases s.len() - from,
{
    if from >= s.len() {
        s.len() as int
    } else if s[from] == 0x2E {
        from
    } else {
        token_end(s, from + 1)
    }
}

proof fn token_end_bounds(s: Seq<u8>, from: int)
    requires
        0 <= from <= s.len(),
    ensures
        from <= token_end(s, from) <= s.len(),
    decreases s.len() - from,
{
    if from < s.len() && s[from] != 0x2E {
        token_end_bounds(s, from + 1);
    }
}

/// The dot-separated tokens from `from` on: one more than there are dots.
pub open spec fn tokens_from(s: Seq<u8>, from: int) -> Seq<Seq<u8>>
    decreases s.len() - from,
{
    let end = token_end(s, from);
    if from < 0 || from > s.len() || end < from || end >= s.len() {
        seq![s.subrange(from, end)]
    } else {
        seq![s.subrange(from, end)] + tokens_from(s, end + 1)
    }
}

/// The dot-separated tokens of a subject or pattern.
pub open spec fn tokens(s: Seq<u8>) -> Seq<Seq<u8>> {
    tokens_from(s, 0)
}

/// `*` stands for any one token, `>` for one or more tokens to the end.
pub open spec fn tokens_match(p: Seq<Seq<u8>>, s: Seq<Seq<u8>>) -> bool
    decreases p.len(),
{
    if p.len() == 0 || s.len() == 0 {
        p.len() == 0 && s.len() == 0
    } else if p[0] == seq![0x3Eu8] {
        true
    } else if p[0] == seq![0x2Au8] || p[0] == s[0] {
        tokens_match(p.skip(1), s.skip(1))
    } else {
        false
    }
}

/// Whether a subject matches a pattern.
pub open spec fn pattern_matches(pattern: Seq<u8>, subject: Seq<u8>) -> bool {
    tokens_match(tokens(pattern), tokens(subject))
}

fn find_token_end(s: &[u8], from: usize) -> (r: usize)
    requires
        from <= s@.len(),
    ensures
        r == token_end(s@, from as int),
        from <= r <= s@.len(),
{
    let mut i: usize = from;
    while i < s.len()
        invariant
            from <= i <= s@.len(),
            token_end(s@, from as int) == token_end(s@, i as int),
        decreases s@.len() - i,
    {
        if s[i] == 0x2E {
            return i;
        }
        i = i + 1;
    }
    i
}

/// Byte-wise equality of two slices.
pub fn same_bytes(a: &[u8], b: &[u8]) -> (r: bool)
    ensures
        r == (a@ == b@),
{
    if a.len() != b.len() {
        return false;
    }
    let mut i: usize = 0;
    while i < a.len()
        invariant
            i <= a@.len() == b@.len(),
            forall|j: int| 0 <= j < i ==> a@[j] == b@[j],
        decreases a@.len() - i,
    {
        if a[i] != b[i] {
            return false;
        }
        i = i + 1;
    }
    assert(a@ =~= b@);
    true
}

/// What is left of a token list: nothing, or everything from a position on.
pub open spec fn rest(s: Seq<u8>, at: Option<usize>) -> Seq<Seq<u8>> {
    match at {
        Some(i) => tokens_from(s, i as int),
        None => Seq::empty(),
    }
}

proof fn rest_unfolds(s: Seq<u8>, i: usize)
    requires
        i <= s.len(),
        s.len() <= usize::MAX,
    ensures
        ({
            let end = token_end(s, i as int);
            let next = if end < s.len() {
                Some((end + 1) as usize)
            } else {
                None::<usize>
            };
            let all = rest(s, Some(i));
            &&& i <= end <= s.len()
            &&& all.len() > 0
            &&& all[0] == s.subrange(i as int, end)
            &&& all.skip(1) == rest(s, next)
        }),
{
    token_end_bounds(s, i as int);
    let end = token_end(s, i as int);
    let all = tokens_from(s, i as int);
    if end < s.len() {
        assert(all.skip(1) =~= tokens_from(s, end + 1));
    } else {
        assert(all.skip(1) =~= Seq::empty());
    }
}

/// Token-wise match: `*` is one token, `>` is one or more tokens.
pub fn subject_matches(pattern: &[u8], subject: &[u8]) -> (r: bool)
    ensures
        r == pattern_matches(pattern@, subject@),
{
    assert(pattern@.len() == pattern.len());
    assert(subject@.len() == subject.len());
    let mut p: Option<usize> = Some(0);
    let mut s: Option<usize> = Some(0);
    loop
        invariant
            pattern@.len() <= usize::MAX,
            subject@.len() <= usize::MAX,
            p matches Some(i) ==> i <= pattern@.len(),
            s matches Some(j) ==> j <= subject@.len(),
            pattern_matches(pattern@, subject@) == tokens_match(
                rest(pattern@, p),
                rest(subject@, s),
            ),
        decreases rest(pattern@, p).len(),
    {
        match (p, s) {
            (Some(i), Some(j)) => {
                proof {
                    rest_unfolds(pattern@, i);
                    rest_unfolds(subject@, j);
                }
                let pe: usize = find_token_end(pattern, i);
                let se: usize = find_token_end(subject, j);
                let pt = vstd::slice::slice_subrange(pattern, i, pe);
                let st = vstd::slice::slice_subrange(subject, j, se);
                if pt.len() == 1 && pt[0] == 0x3E {
                    assert(pt@ =~= seq![0x3Eu8]);
                    return true;
                }
                assert(pt@ != seq![0x3Eu8]) by {
                    if pt@ == seq![0x3Eu8] {
                        assert(pt@[0] == 0x3E);
                    }
                }
                let star: bool = pt.len() == 1 && pt[0] == 0x2A;
                assert(star == (pt@ == seq![0x2Au8])) by {
                    if star {
                        assert(pt@ =~= seq![0x2Au8]);
                    }
                }
                if star || same_bytes(pt, st) {
                    p = if pe < pattern.len() {
                        Some(pe + 1)
                    } else {
                        None
                    };
                    s = if se < subject.len() {
                        Some(se + 1)
                    } else {
                        None
                    };
                } else {
                    return false;
                }
            },
            (None, None) => {
                return true;
            },
            (Some(i), None) => {
                proof {
                    rest_unfolds(pattern@, i);
                }
                return false;
            },
            (None, Some(j)) => {
                proof {
                    rest_unfolds(subject@, j);
                }
                return false;
            },
        }
    }
}

/// A subject filter, classified once so that delivery never parses a pattern.
#[derive(Debug)]
pub enum Matcher {
    /// No filter, or `>`: every subject.
    All,
    /// No wildcard in it.
    Exact(Vec<u8>),
    /// Contains `*` or `>`: the only case that walks tokens.
    Pattern(Vec<u8>),
}

/// Contains `*` or `>`.
pub open spec fn has_wildcard(s: Seq<u8>) -> bool {
    exists|i: int| 0 <= i < s.len() && (#[trigger] s[i] == 0x2A || s[i] == 0x3E)
}

/// What a filter lets through: everything where it is empty or `>`, the
/// literal subject where it has no wildcard, else what matches the pattern.
pub open spec fn filter_accepts(filter: Seq<u8>, subject: Seq<u8>) -> bool {
    if filter.len() == 0 || filter == seq![0x3Eu8] {
        true
    } else if has_wildcard(filter) {
        pattern_matches(filter, subject)
    } else {
        subject == filter
    }
}

impl Matcher {
    /// What the matcher lets through.
    pub open spec fn lets(&self, subject: Seq<u8>) -> bool {
        match self {
            Matcher::All => true,
            Matcher::Exact(lit) => subject == lit@,
            Matcher::Pattern(p) => pattern_matches(p@, subject),
        }
    }

    pub fn new(filter: &[u8]) -> (r: Matcher)
        ensures
            forall|subject: Seq<u8>| #[trigger]
                r.lets(subject) == filter_accepts(filter@, subject),
            r is All == (filter@.len() == 0 || filter@ == seq![0x3Eu8]),
            r is Pattern == (!(r is All) && has_wildcard(filter@)),
    {
        if filter.len() == 0 || (filter.len() == 1 && filter[0] == 0x3E) {
            assert(filter@.len() == 1 ==> filter@ =~= seq![0x3Eu8]);
            return Matcher::All;
        }
        assert(filter@ != seq![0x3Eu8]) by {
            if filter@ == seq![0x3Eu8] {
                assert(filter@[0] == 0x3E);
            }
        }
        let copy: Vec<u8> = crate::ackstore::format::sub_vec(filter, 0, filter.len());
        assert(copy@ =~= filter@);
        let mut i: usize = 0;
        while i < filter.len()
            invariant
                i <= filter@.len(),
                forall|j: int| 0 <= j < i ==> filter@[j] != 0x2A && filter@[j] != 0x3E,
                filter@.len() != 0,
                filter@ != seq![0x3Eu8],
                copy@ == filter@,
            decreases filter@.len() - i,
        {
            if filter[i] == 0x2A || filter[i] == 0x3E {
                assert(has_wildcard(filter@));
                return Matcher::Pattern(copy);
            }
            i = i + 1;
        }
        Matcher::Exact(copy)
    }

    /// Whether a subject passes.
    pub fn accepts(&self, subject: &[u8]) -> (r: bool)
        ensures
            r == self.lets(subject@),
    {
        match self {
            Matcher::All => true,
            Matcher::Exact(lit) => same_bytes(subject, lit.as_slice()),
            Matcher::Pattern(p) => subject_matches(p.as_slice(), subject),
        }
    }
}

// ── laws ───────────────────────────────────────────────────────────────────
/// A pattern without wildcards matches exactly itself, token by token.
pub proof fn literal_tokens_match(p: Seq<Seq<u8>>, s: Seq<Seq<u8>>)
    requires
        forall|i: int|
            0 <= i < p.len() ==> #[trigger] p[i] != seq![0x2Au8] && p[i] != seq![0x3Eu8],
    ensures
        tokens_match(p, s) == (p == s),
    decreases p.len(),
{
    if p.len() == 0 || s.len() == 0 {
        assert(p.len() == 0 && s.len() == 0 ==> p =~= s);
    } else {
        literal_tokens_match(p.skip(1), s.skip(1));
        if p[0] == s[0] && p.skip(1) == s.skip(1) {
            assert(p =~= seq![p[0]] + p.skip(1));
            assert(s =~= seq![s[0]] + s.skip(1));
        }
    }
}

/// A pattern of tokens without `>` only matches subjects with as many tokens.
pub proof fn match_keeps_token_count(p: Seq<Seq<u8>>, s: Seq<Seq<u8>>)
    requires
        forall|i: int| 0 <= i < p.len() ==> #[trigger] p[i] != seq![0x3Eu8],
        tokens_match(p, s),
    ensures
        p.len() == s.len(),
    decreases p.len(),
{
    if p.len() > 0 && s.len() > 0 {
        assert forall|i: int| 0 <= i < p.skip(1).len() implies #[trigger] p.skip(1)[i]
            != seq![0x3Eu8] by {
            assert(p.skip(1)[i] == p[i + 1]);
        }
        match_keeps_token_count(p.skip(1), s.skip(1));
    }
}

/// A final `>` matches one or more remaining tokens, never none.
pub proof fn tail_wildcard_matches(prefix: Seq<Seq<u8>>, s: Seq<Seq<u8>>)
    requires
        forall|i: int|
            0 <= i < prefix.len() ==> #[trigger] prefix[i] != seq![0x2Au8] && prefix[i]
                != seq![0x3Eu8],
    ensures
        tokens_match(prefix.push(seq![0x3Eu8]), s) == (s.len() > prefix.len() && s.take(
            prefix.len() as int,
        ) == prefix),
    decreases prefix.len(),
{
    let p = prefix.push(seq![0x3Eu8]);
    if prefix.len() == 0 {
        assert(s.take(0) =~= prefix);
    } else if s.len() == 0 {
    } else {
        assert(p.skip(1) =~= prefix.skip(1).push(seq![0x3Eu8]));
        tail_wildcard_matches(prefix.skip(1), s.skip(1));
        let n = prefix.len() as int;
        if s.len() > prefix.len() {
            assert(s.take(n).skip(1) =~= s.skip(1).take(n - 1));
            if s.take(n) == prefix {
                assert(s.take(n)[0] == prefix[0]);
                assert(s.skip(1).take(n - 1) =~= prefix.skip(1));
            }
            if s[0] == prefix[0] && s.skip(1).take(n - 1) == prefix.skip(1) {
                assert(s.take(n) =~= seq![s[0]] + s.take(n).skip(1));
                assert(prefix =~= seq![prefix[0]] + prefix.skip(1));
            }
        }
    }
}

/// The tokens of a list with a dot between each two.
pub open spec fn dotted(parts: Seq<Seq<u8>>) -> Seq<u8>
    decreases parts.len(),
{
    if parts.len() == 0 {
        Seq::empty()
    } else if parts.len() == 1 {
        parts[0]
    } else {
        parts[0] + seq![0x2Eu8] + dotted(parts.skip(1))
    }
}

proof fn token_end_is_first_dot(s: Seq<u8>, from: int)
    requires
        0 <= from <= s.len(),
    ensures
        from <= token_end(s, from) <= s.len(),
        token_end(s, from) < s.len() ==> s[token_end(s, from)] == 0x2E,
        forall|i: int| from <= i < token_end(s, from) ==> s[i] != 0x2E,
    decreases s.len() - from,
{
    if from < s.len() && s[from] != 0x2E {
        token_end_is_first_dot(s, from + 1);
    }
}

proof fn tokens_from_rejoin(s: Seq<u8>, from: int)
    requires
        0 <= from <= s.len(),
    ensures
        tokens_from(s, from).len() > 0,
        dotted(tokens_from(s, from)) == s.skip(from),
        forall|i: int|
            0 <= i < tokens_from(s, from).len() ==> !(#[trigger] tokens_from(s, from)[i]).contains(
                0x2E,
            ),
    decreases s.len() - from,
{
    token_end_is_first_dot(s, from);
    let end = token_end(s, from);
    let all = tokens_from(s, from);
    let first = s.subrange(from, end);
    assert(!first.contains(0x2E)) by {
        if first.contains(0x2E) {
            let i = choose|i: int| 0 <= i < first.len() && first[i] == 0x2E;
            assert(s[from + i] == 0x2E);
        }
    }
    if end < s.len() {
        tokens_from_rejoin(s, end + 1);
        assert(all.skip(1) =~= tokens_from(s, end + 1));
        assert(dotted(all) =~= s.skip(from));
        assert forall|i: int| 0 <= i < all.len() implies !(#[trigger] all[i]).contains(0x2E) by {
            if i > 0 {
                assert(all[i] == tokens_from(s, end + 1)[i - 1]);
            }
        }
    } else {
        assert(first =~= s.skip(from));
    }
}

/// A subject is cut at its dots and nowhere else: no token holds a dot, and
/// the tokens with dots between them are the subject again.
pub proof fn tokens_are_cut_at_dots(s: Seq<u8>)
    ensures
        tokens(s).len() > 0,
        dotted(tokens(s)) == s,
        forall|i: int| 0 <= i < tokens(s).len() ==> !(#[trigger] tokens(s)[i]).contains(0x2E),
{
    tokens_from_rejoin(s, 0);
    assert(s.skip(0) =~= s);
}

proof fn matches_up_to(p: Seq<Seq<u8>>, s: Seq<Seq<u8>>, n: int)
    requires
        0 <= n <= p.len(),
        n < p.len() ==> p[n] == seq![0x3Eu8],
        forall|i: int| 0 <= i < n ==> #[trigger] p[i] != seq![0x3Eu8],
    ensures
        tokens_match(p, s) <==> {
            &&& if n < p.len() {
                s.len() > n
            } else {
                s.len() == n
            }
            &&& forall|i: int| 0 <= i < n ==> #[trigger] p[i] == seq![0x2Au8] || p[i] == s[i]
        },
    decreases p.len(),
{
    if n > 0 && s.len() > 0 {
        let p1 = p.skip(1);
        let s1 = s.skip(1);
        assert(p[0] != seq![0x3Eu8]);
        assert forall|i: int| 0 <= i < n - 1 implies #[trigger] p1[i] != seq![0x3Eu8] by {
            assert(p1[i] == p[i + 1]);
        }
        matches_up_to(p1, s1, n - 1);
        if tokens_match(p, s) {
            assert forall|i: int| 0 <= i < n implies #[trigger] p[i] == seq![0x2Au8] || p[i]
                == s[i] by {
                if i > 0 {
                    assert(p1[i - 1] == p[i] && s1[i - 1] == s[i]);
                }
            }
        }
        if s.len() >= n && forall|i: int|
            0 <= i < n ==> #[trigger] p[i] == seq![0x2Au8] || p[i] == s[i] {
            assert(p[0] == seq![0x2Au8] || p[0] == s[0]);
            assert forall|i: int| 0 <= i < n - 1 implies #[trigger] p1[i] == seq![0x2Au8] || p1[i]
                == s1[i] by {
                assert(p1[i] == p[i + 1] && s1[i] == s[i + 1]);
            }
        }
    }
}

/// Without a `>` among its tokens, a pattern matches exactly the subjects with
/// as many tokens, where each token of the pattern is `*` or equals the token
/// of the subject in the same place.
pub proof fn closed_pattern_matches(pattern: Seq<u8>, subject: Seq<u8>)
    requires
        forall|i: int| 0 <= i < tokens(pattern).len() ==> #[trigger] tokens(pattern)[i] != seq![0x3Eu8],
    ensures
        pattern_matches(pattern, subject) <==> {
            &&& tokens(subject).len() == tokens(pattern).len()
            &&& forall|i: int|
                0 <= i < tokens(pattern).len() ==> #[trigger] tokens(pattern)[i] == seq![0x2Au8]
                    || tokens(pattern)[i] == tokens(subject)[i]
        },
{
    matches_up_to(tokens(pattern), tokens(subject), tokens(pattern).len() as int);
}

/// With its first `>` in place `n`, a pattern matches exactly the subjects
/// with more than `n` tokens, where each of the first `n` tokens of the pattern
/// is `*` or equals the token of the subject in the same place.
pub proof fn open_pattern_matches(pattern: Seq<u8>, subject: Seq<u8>, n: int)
    requires
        0 <= n < tokens(pattern).len(),
        tokens(pattern)[n] == seq![0x3Eu8],
        forall|i: int| 0 <= i < n ==> #[trigger] tokens(pattern)[i] != seq![0x3Eu8],
    ensures
        pattern_matches(pattern, subject) <==> {
            &&& tokens(subject).len() > n
            &&& forall|i: int|
                0 <= i < n ==> #[trigger] tokens(pattern)[i] == seq![0x2Au8] || tokens(pattern)[i]
                    == tokens(subject)[i]
        },
{
    matches_up_to(tokens(pattern), tokens(subject), n);
}

proof fn no_wildcard_token(filter: Seq<u8>)
    requires
        !has_wildcard(filter),
    ensures
        forall|i: int|
            0 <= i < tokens(filter).len() ==> #[trigger] tokens(filter)[i] != seq![0x2Au8]
                && tokens(filter)[i] != seq![0x3Eu8],
{
    tokens_within(filter, 0);
    assert forall|i: int| 0 <= i < tokens(filter).len() implies #[trigger] tokens(filter)[i]
        != seq![0x2Au8] && tokens(filter)[i] != seq![0x3Eu8] by {
        let t = tokens(filter)[i];
        if t.len() == 1 {
            assert(filter.contains(t[0]));
            let k = choose|k: int| 0 <= k < filter.len() && filter[k] == t[0];
            assert(t == seq![0x2Au8] ==> t[0] == 0x2A);
            assert(t == seq![0x3Eu8] ==> t[0] == 0x3E);
        }
    }
}

proof fn tokens_within(s: Seq<u8>, from: int)
    requires
        0 <= from <= s.len(),
    ensures
        forall|i: int, j: int|
            #![trigger tokens_from(s, from)[i][j]]
            0 <= i < tokens_from(s, from).len() && 0 <= j < tokens_from(s, from)[i].len()
                ==> s.contains(tokens_from(s, from)[i][j]),
    decreases s.len() - from,
{
    token_end_bounds(s, from);
    let end = token_end(s, from);
    let all = tokens_from(s, from);
    if end < s.len() {
        tokens_within(s, end + 1);
    }
    assert forall|i: int, j: int|
        #![trigger all[i][j]]
        0 <= i < all.len() && 0 <= j < all[i].len() implies s.contains(all[i][j]) by {
        if i == 0 {
            assert(all[0][j] == s[from + j]);
        } else {
            assert(all[i] == tokens_from(s, end + 1)[i - 1]);
            assert(s.contains(tokens_from(s, end + 1)[i - 1][j]));
        }
    }
}

/// A filter lets a subject through token by token, however it is classified.
/// The empty filter lets everything through. Any other lets through the
/// subjects with the same tokens, where `*` stands for any one token and a
/// `>` for whatever follows, as long as something does.
pub proof fn filters_go_by_tokens(filter: Seq<u8>, subject: Seq<u8>)
    ensures
        filter.len() == 0 ==> filter_accepts(filter, subject),
        filter.len() > 0 && (forall|i: int|
            0 <= i < tokens(filter).len() ==> #[trigger] tokens(filter)[i] != seq![0x3Eu8]) ==> (
        filter_accepts(filter, subject) <==> {
            &&& tokens(subject).len() == tokens(filter).len()
            &&& forall|i: int|
                0 <= i < tokens(filter).len() ==> #[trigger] tokens(filter)[i] == seq![0x2Au8]
                    || tokens(filter)[i] == tokens(subject)[i]
        }),
        forall|n: int|
            0 <= n < tokens(filter).len() && #[trigger] tokens(filter)[n] == seq![0x3Eu8] && (
            forall|i: int| 0 <= i < n ==> #[trigger] tokens(filter)[i] != seq![0x3Eu8]) ==> (
            filter_accepts(filter, subject) <==> {
                &&& tokens(subject).len() > n
                &&& forall|i: int|
                    0 <= i < n ==> #[trigger] tokens(filter)[i] == seq![0x2Au8] || tokens(filter)[i]
                        == tokens(subject)[i]
            }),
{
    let p = tokens(filter);
    let s = tokens(subject);
    tokens_are_cut_at_dots(filter);
    tokens_are_cut_at_dots(subject);
    if filter.len() == 0 {
        assert(p[0].len() == 0) by {
            reveal_with_fuel(tokens_from, 2);
        }
        assert(p.len() == 1) by {
            reveal_with_fuel(tokens_from, 2);
        }
    } else if filter == seq![0x3Eu8] {
        assert(p.len() == 1 && p[0] =~= seq![0x3Eu8]) by {
            reveal_with_fuel(token_end, 3);
            reveal_with_fuel(tokens_from, 3);
        }
    } else {
        if !has_wildcard(filter) {
            no_wildcard_token(filter);
            literal_tokens_match(p, s);
            assert((p == s) == (filter == subject));
            matches_up_to(p, s, p.len() as int);
        } else if forall|i: int| 0 <= i < p.len() ==> #[trigger] p[i] != seq![0x3Eu8] {
            closed_pattern_matches(filter, subject);
        }
        assert forall|n: int|
            0 <= n < p.len() && #[trigger] p[n] == seq![0x3Eu8] && (forall|i: int|
                0 <= i < n ==> #[trigger] p[i] != seq![0x3Eu8]) implies (filter_accepts(
            filter,
            subject,
        ) <==> {
            &&& s.len() > n
            &&& forall|i: int| 0 <= i < n ==> #[trigger] p[i] == seq![0x2Au8] || p[i] == s[i]
        }) by {
            open_pattern_matches(filter, subject, n);
        }
    }
}

} // verus!
