//! Wildcard pattern matching with optional HTTP method prefixes.
//!
//! A pattern is a glob where `*` matches any (possibly empty) substring,
//! optionally preceded by an HTTP method token and whitespace:
//! `"/api/*"`, `"POST /api/*"`, `"GET *"`.

use vstd::prelude::*;
use vstd::string::StrSliceExecFns;

verus! {

/// A path matches a glob pattern: `*` matches any (possibly empty)
/// substring, every other character matches only itself.
pub open spec fn glob_match(s: Seq<char>, p: Seq<char>) -> bool
    decreases p.len(), s.len(),
{
    if p.len() == 0 {
        s.len() == 0
    } else if p[0] == '*' {
        glob_match(s, p.drop_first()) || (s.len() > 0 && glob_match(s.drop_first(), p))
    } else {
        s.len() > 0 && s[0] == p[0] && glob_match(s.drop_first(), p.drop_first())
    }
}

/// Some suffix of `s` matches `p`: what remains of a glob match after a
/// `*` has consumed an arbitrary prefix of `s`.
pub open spec fn suffix_match(s: Seq<char>, p: Seq<char>) -> bool {
    exists|i: int| 0 <= i <= s.len() && glob_match(s.skip(i), p)
}

/// The pattern contains no wildcard.
pub open spec fn star_free(p: Seq<char>) -> bool {
    forall|i: int| 0 <= i < p.len() ==> p[i] != '*'
}

/// `seg` occurs in `t` starting at index `i`.
pub open spec fn occurs_at(t: Seq<char>, i: int, seg: Seq<char>) -> bool {
    0 <= i && i + seg.len() <= t.len() && t.subrange(i, i + seg.len()) == seg
}

proof fn lemma_skip_skip(s: Seq<char>, a: int, b: int)
    requires
        0 <= a,
        0 <= b,
        a + b <= s.len(),
    ensures
        s.skip(a).skip(b) == s.skip(a + b),
{
    assert(s.skip(a).skip(b) =~= s.skip(a + b));
}

/// A pattern headed by `*` matches `s` exactly when its remainder matches
/// some suffix of `s`.
proof fn lemma_star_head(s: Seq<char>, p: Seq<char>)
    requires
        p.len() > 0,
        p[0] == '*',
    ensures
        glob_match(s, p) <==> suffix_match(s, p.drop_first()),
    decreases s.len(),
{
    let pd = p.drop_first();
    assert(s.skip(0) =~= s);
    if s.len() == 0 {
        if suffix_match(s, pd) {
            let i = choose|i: int| 0 <= i <= s.len() && glob_match(s.skip(i), pd);
            assert(i == 0);
        }
    } else {
        lemma_star_head(s.drop_first(), p);
        if glob_match(s, p) {
            if glob_match(s, pd) {
                assert(glob_match(s.skip(0), pd));
            } else {
                assert(glob_match(s.drop_first(), p));
                let i = choose|i: int|
                    0 <= i <= s.drop_first().len() && glob_match(s.drop_first().skip(i), pd);
                assert(s.drop_first().skip(i) =~= s.skip(1 + i));
                assert(glob_match(s.skip(1 + i), pd));
            }
            assert(suffix_match(s, pd));
        }
        if suffix_match(s, pd) {
            let i = choose|i: int| 0 <= i <= s.len() && glob_match(s.skip(i), pd);
            if i == 0 {
                assert(glob_match(s, pd));
            } else {
                assert(s.drop_first().skip(i - 1) =~= s.skip(i));
                assert(glob_match(s.drop_first().skip(i - 1), pd));
                assert(suffix_match(s.drop_first(), pd));
            }
        }
    }
}

/// A pattern without a wildcard matches exactly the path equal to it.
pub proof fn lemma_star_free_exact(s: Seq<char>, p: Seq<char>)
    requires
        star_free(p),
    ensures
        glob_match(s, p) <==> s == p,
    decreases p.len(),
{
    if p.len() == 0 {
        if s.len() == 0 {
            assert(s =~= p);
        }
    } else {
        if s.len() > 0 {
            assert(star_free(p.drop_first()));
            lemma_star_free_exact(s.drop_first(), p.drop_first());
            if s[0] == p[0] && s.drop_first() == p.drop_first() {
                assert forall|i: int| 0 <= i < s.len() implies s[i] == p[i] by {
                    if i >= 1 {
                        assert(s.drop_first()[i - 1] == s[i]);
                        assert(p.drop_first()[i - 1] == p[i]);
                    }
                }
                assert(s =~= p);
            }
            if s == p {
                assert(s.drop_first() =~= p.drop_first());
            }
        }
    }
}

/// Every path matches the sole-wildcard pattern `*`.
pub proof fn lemma_star_matches_all(s: Seq<char>)
    ensures
        glob_match(s, seq!['*']),
    decreases s.len(),
{
    let p = seq!['*'];
    assert(p.drop_first() =~= Seq::<char>::empty());
    if s.len() == 0 {
        assert(glob_match(s, p.drop_first()));
    } else {
        lemma_star_matches_all(s.drop_first());
    }
}

/// Matching against a star-free segment followed by more pattern peels the
/// segment off the front of the path.
proof fn lemma_seg_prefix(s: Seq<char>, seg: Seq<char>, p: Seq<char>)
    requires
        star_free(seg),
    ensures
        glob_match(s, seg + p) <==> (s.len() >= seg.len() && s.take(seg.len() as int)
            == seg && glob_match(s.skip(seg.len() as int), p)),
    decreases seg.len(),
{
    let c = seg + p;
    if seg.len() == 0 {
        assert(c =~= p);
        assert(s.skip(0) =~= s);
        assert(s.take(0) =~= seg);
    } else {
        assert(c[0] == seg[0]);
        assert(c[0] != '*');
        if s.len() > 0 {
            let sd = s.drop_first();
            let segd = seg.drop_first();
            let lx = seg.len() as int;
            assert(star_free(segd));
            assert(c.drop_first() =~= segd + p);
            lemma_seg_prefix(sd, segd, p);
            if glob_match(s, c) {
                assert(sd.len() >= segd.len() && sd.take(lx - 1) == segd && glob_match(
                    sd.skip(lx - 1),
                    p,
                ));
                assert(sd.skip(lx - 1) =~= s.skip(lx));
                assert forall|i: int| 0 <= i < lx implies s.take(lx)[i] == seg[i] by {
                    if i >= 1 {
                        assert(sd.take(lx - 1)[i - 1] == s[i]);
                        assert(segd[i - 1] == seg[i]);
                    }
                }
                assert(s.take(lx) =~= seg);
            }
            if s.len() >= seg.len() && s.take(lx) == seg && glob_match(s.skip(lx), p) {
                assert(s.take(lx)[0] == s[0]);
                assert(seg[0] == s[0]);
                assert forall|i: int| 0 <= i < lx - 1 implies sd.take(lx - 1)[i] == segd[i] by {
                    assert(sd.take(lx - 1)[i] == s[i + 1]);
                    assert(s.take(lx)[i + 1] == s[i + 1]);
                    assert(segd[i] == seg[i + 1]);
                }
                assert(sd.take(lx - 1) =~= segd);
                assert(sd.skip(lx - 1) =~= s.skip(lx));
                assert(glob_match(sd, segd + p));
                assert(glob_match(s, c));
            }
        }
    }
}

/// A suffix match of a suffix is a suffix match of the whole.
proof fn lemma_suffix_mono(s: Seq<char>, d: int, p: Seq<char>)
    requires
        0 <= d <= s.len(),
        suffix_match(s.skip(d), p),
    ensures
        suffix_match(s, p),
{
    let i = choose|i: int| 0 <= i <= s.skip(d).len() && glob_match(s.skip(d).skip(i), p);
    lemma_skip_skip(s, d, i);
    assert(glob_match(s.skip(d + i), p));
}

/// A leading `*` in the remaining pattern imposes no constraint on a
/// suffix match.
proof fn lemma_suffix_star(s: Seq<char>, p: Seq<char>)
    requires
        p.len() > 0,
        p[0] == '*',
    ensures
        suffix_match(s, p) <==> suffix_match(s, p.drop_first()),
{
    let pd = p.drop_first();
    if suffix_match(s, p) {
        let i = choose|i: int| 0 <= i <= s.len() && glob_match(s.skip(i), p);
        lemma_star_head(s.skip(i), p);
        lemma_suffix_mono(s, i, pd);
    }
    if suffix_match(s, pd) {
        lemma_star_head(s, p);
        assert(s.skip(0) =~= s);
        assert(glob_match(s.skip(0), p));
    }
}

/// A star-free segment followed by `*` and more pattern: the suffix match
/// holds exactly when the segment occurs somewhere and the rest matches a
/// suffix of what follows the occurrence.
proof fn lemma_suffix_seg_star(t: Seq<char>, seg: Seq<char>, rest: Seq<char>)
    requires
        star_free(seg),
    ensures
        suffix_match(t, seg + (seq!['*'] + rest)) <==> (exists|i: int|
            occurs_at(t, i, seg) && suffix_match(#[trigger] t.skip(i + seg.len()), rest)),
{
    let sp = seq!['*'] + rest;
    let whole = seg + sp;
    assert(sp[0] == '*');
    assert(sp.drop_first() =~= rest);
    let lx = seg.len() as int;
    if suffix_match(t, whole) {
        let i = choose|i: int| 0 <= i <= t.len() && glob_match(t.skip(i), whole);
        lemma_seg_prefix(t.skip(i), seg, sp);
        lemma_skip_skip(t, i, lx);
        lemma_star_head(t.skip(i + lx), sp);
        assert(occurs_at(t, i, seg)) by {
            assert(t.subrange(i, i + lx) =~= t.skip(i).take(lx));
        }
        assert(suffix_match(t.skip(i + lx), rest));
    }
    if exists|i: int| occurs_at(t, i, seg) && suffix_match(#[trigger] t.skip(i + seg.len()), rest) {
        let i = choose|i: int|
            occurs_at(t, i, seg) && suffix_match(#[trigger] t.skip(i + seg.len()), rest);
        lemma_star_head(t.skip(i + lx), sp);
        assert(glob_match(t.skip(i + lx), sp));
        lemma_seg_prefix(t.skip(i), seg, sp);
        lemma_skip_skip(t, i, lx);
        assert(t.skip(i).take(lx) =~= t.subrange(i, i + lx));
        assert(glob_match(t.skip(i), whole));
        assert(suffix_match(t, whole));
    }
}

/// Greedy step: if `seg` first occurs at `j`, the suffix match may commit
/// to that occurrence.
proof fn lemma_suffix_seg_star_greedy(t: Seq<char>, seg: Seq<char>, rest: Seq<char>, j: int)
    requires
        star_free(seg),
        occurs_at(t, j, seg),
        forall|k: int| 0 <= k < j ==> !occurs_at(t, k, seg),
    ensures
        suffix_match(t, seg + (seq!['*'] + rest)) <==> suffix_match(
            t.skip(j + seg.len()),
            rest,
        ),
{
    lemma_suffix_seg_star(t, seg, rest);
    let lx = seg.len() as int;
    if suffix_match(t, seg + (seq!['*'] + rest)) {
        let i = choose|i: int|
            occurs_at(t, i, seg) && suffix_match(#[trigger] t.skip(i + seg.len()), rest);
        assert(i >= j);
        assert(t.skip(j + lx).skip(i - j) =~= t.skip(i + lx));
        lemma_suffix_mono(t.skip(j + lx), i - j, rest);
    }
    if suffix_match(t.skip(j + lx), rest) {
        assert(occurs_at(t, j, seg) && suffix_match(t.skip(j + seg.len()), rest));
    }
}

/// If `seg` occurs nowhere in `t`, no suffix match through it is possible.
proof fn lemma_suffix_seg_star_none(t: Seq<char>, seg: Seq<char>, rest: Seq<char>)
    requires
        star_free(seg),
        forall|k: int| !occurs_at(t, k, seg),
    ensures
        !suffix_match(t, seg + (seq!['*'] + rest)),
{
    lemma_suffix_seg_star(t, seg, rest);
}

/// A star-free final segment matches a suffix of `t` exactly when `t` ends
/// with it.
proof fn lemma_suffix_tail(t: Seq<char>, seg: Seq<char>)
    requires
        star_free(seg),
    ensures
        suffix_match(t, seg) <==> (t.len() >= seg.len() && t.skip(t.len() - seg.len())
            == seg),
{
    let lx = seg.len() as int;
    if suffix_match(t, seg) {
        let i = choose|i: int| 0 <= i <= t.len() && glob_match(t.skip(i), seg);
        lemma_star_free_exact(t.skip(i), seg);
        assert(t.skip(i).len() == t.len() - i);
        assert(i == t.len() - lx);
    }
    if t.len() >= lx && t.skip(t.len() - lx) == seg {
        lemma_star_free_exact(t.skip(t.len() - lx), seg);
        assert(glob_match(t.skip(t.len() - lx), seg));
        assert(suffix_match(t, seg));
    }
}

/// Splitting a glob match at the first `*` of the pattern.
proof fn lemma_glob_entry(s: Seq<char>, p: Seq<char>, j: int)
    requires
        0 <= j < p.len(),
        p[j] == '*',
        forall|k: int| 0 <= k < j ==> p[k] != '*',
    ensures
        glob_match(s, p) <==> (s.len() >= j && s.take(j) == p.take(j) && suffix_match(
            s.skip(j),
            p.skip(j + 1),
        )),
{
    let seg = p.take(j);
    assert(star_free(seg));
    assert(p =~= seg + p.skip(j));
    lemma_seg_prefix(s, seg, p.skip(j));
    assert(p.skip(j)[0] == '*');
    lemma_star_head(s.skip(j), p.skip(j));
    assert(p.skip(j).drop_first() =~= p.skip(j + 1));
}

/// First index at or after `from` where `c` occurs in `v`.
pub(crate) fn find_char(v: &Vec<char>, from: usize, c: char) -> (r: Option<usize>)
    requires
        from <= v.len(),
    ensures
        match r {
            Option::Some(i) => from <= i < v.len() && v@[i as int] == c && (forall|k: int|
                from <= k < i ==> v@[k] != c),
            Option::None => forall|k: int| from <= k < v@.len() ==> v@[k] != c,
        },
{
    let mut i: usize = from;
    while i < v.len()
        invariant
            from <= i <= v.len(),
            forall|k: int| from <= k < i ==> v@[k] != c,
        decreases v.len() - i,
    {
        if v[i] == c {
            return Some(i);
        }
        i = i + 1;
    }
    None
}

/// Does `p[a..b]` occur in `t` at position `at`?
pub(crate) fn seg_matches_at(t: &Vec<char>, at: usize, p: &Vec<char>, a: usize, b: usize) -> (r: bool)
    requires
        a <= b && b <= p.len(),
        at <= t.len(),
    ensures
        r == occurs_at(t@, at as int, p@.subrange(a as int, b as int)),
{
    let ghost seg = p@.subrange(a as int, b as int);
    let seglen = b - a;
    if t.len() - at < seglen {
        return false;
    }
    let mut i: usize = 0;
    while i < seglen
        invariant
            i <= seglen,
            seglen == b - a,
            a <= b && b <= p.len(),
            at + seglen <= t.len(),
            seg == p@.subrange(a as int, b as int),
            forall|k: int| 0 <= k < i ==> #[trigger] t@[at + k] == p@[a + k],
        decreases seglen - i,
    {
        if t[at + i] != p[a + i] {
            proof {
                assert(t@.subrange(at as int, at + seglen as int)[i as int] == t@[at + i]);
                assert(seg[i as int] == p@[a + i]);
            }
            return false;
        }
        i = i + 1;
    }
    proof {
        assert forall|k: int| 0 <= k < seglen implies t@.subrange(at as int, at + seglen as int)[k]
            == seg[k] by {
            assert(t@[at + k] == p@[a + k]);
        }
        assert(t@.subrange(at as int, at + seglen as int) =~= seg);
    }
    true
}

/// First index at or after `from` where `p[a..b]` occurs in `t`.
pub(crate) fn find_seg(t: &Vec<char>, from: usize, p: &Vec<char>, a: usize, b: usize) -> (r: Option<usize>)
    requires
        from <= t.len(),
        a < b && b <= p.len(),
    ensures
        ({
            let seg = p@.subrange(a as int, b as int);
            match r {
                Option::Some(i) => from <= i && occurs_at(t@, i as int, seg) && (forall|k: int|
                    from <= k < i ==> !occurs_at(t@, k, seg)),
                Option::None => forall|k: int| from <= k ==> !occurs_at(t@, k, seg),
            }
        }),
{
    let ghost seg = p@.subrange(a as int, b as int);
    let seglen = b - a;
    let mut i: usize = from;
    while t.len() - i >= seglen
        invariant
            from <= i <= t.len(),
            seglen == b - a,
            a < b && b <= p.len(),
            seg == p@.subrange(a as int, b as int),
            forall|k: int| from <= k < i ==> !occurs_at(t@, k, seg),
        decreases t.len() - i,
    {
        if seg_matches_at(t, i, p, a, b) {
            return Some(i);
        }
        i = i + 1;
    }
    proof {
        assert(forall|k: int| i <= k ==> !occurs_at(t@, k, seg));
    }
    None
}

/// Are the two character vectors equal?
pub(crate) fn chars_eq(a: &Vec<char>, b: &Vec<char>) -> (r: bool)
    ensures
        r == (a@ == b@),
{
    if a.len() != b.len() {
        return false;
    }
    let mut i: usize = 0;
    while i < a.len()
        invariant
            i <= a.len(),
            a.len() == b.len(),
            forall|k: int| 0 <= k < i ==> a@[k] == b@[k],
        decreases a.len() - i,
    {
        if a[i] != b[i] {
            return false;
        }
        i = i + 1;
    }
    proof {
        assert(a@ =~= b@);
    }
    true
}

/// The characters of `s`, as a vector.
pub(crate) fn chars_vec(s: &str) -> (r: Vec<char>)
    ensures
        r@ == s@,
{
    let n = s.unicode_len();
    let mut v: Vec<char> = Vec::new();
    let mut i: usize = 0;
    while i < n
        invariant
            i <= n,
            n == s@.len(),
            v@ == s@.take(i as int),
        decreases n - i,
    {
        let c = s.get_char(i);
        v.push(c);
        proof {
            assert(v@ =~= s@.take(i + 1 as int));
        }
        i = i + 1;
    }
    proof {
        assert(s@.take(n as int) =~= s@);
    }
    v
}

/// Glob matching on character vectors, by greedy segment search.
fn glob_match_vec(path: &Vec<char>, pattern: &Vec<char>) -> (r: bool)
    ensures
        r == glob_match(path@, pattern@),
{
    match find_char(pattern, 0, '*') {
        Option::None => {
            proof {
                lemma_star_free_exact(path@, pattern@);
            }
            chars_eq(path, pattern)
        },
        Option::Some(j) => {
            proof {
                lemma_glob_entry(path@, pattern@, j as int);
                assert(pattern@.subrange(0, j as int) =~= pattern@.take(j as int));
            }
            if !seg_matches_at(path, 0, pattern, 0, j) {
                return false;
            }
            proof {
                assert(path@.subrange(0, j as int) =~= path@.take(j as int));
            }
            let mut pos: usize = j;
            let mut pstart: usize = j + 1;
            loop
                invariant
                    pos <= path.len(),
                    pstart <= pattern.len(),
                    glob_match(path@, pattern@) == suffix_match(
                        path@.skip(pos as int),
                        pattern@.skip(pstart as int),
                    ),
                decreases pattern@.len() - pstart,
            {
                let ghost t = path@.skip(pos as int);
                match find_char(pattern, pstart, '*') {
                    Option::None => {
                        let seglen = pattern.len() - pstart;
                        let ghost seg = pattern@.subrange(pstart as int, pattern@.len() as int);
                        proof {
                            assert(star_free(seg));
                            assert(seg =~= pattern@.skip(pstart as int));
                            lemma_suffix_tail(t, seg);
                        }
                        if path.len() - pos >= seglen {
                            let at = path.len() - seglen;
                            let r = seg_matches_at(path, at, pattern, pstart, pattern.len());
                            proof {
                                assert(t.skip(t.len() - seg.len()) =~= path@.subrange(
                                    at as int,
                                    at + seglen as int,
                                ));
                            }
                            return r;
                        } else {
                            return false;
                        }
                    },
                    Option::Some(k) => {
                        if k == pstart {
                            proof {
                                assert(pattern@.skip(pstart as int)[0] == pattern@[pstart as int]);
                                lemma_suffix_star(t, pattern@.skip(pstart as int));
                                assert(pattern@.skip(pstart as int).drop_first() =~= pattern@.skip(
                                    pstart + 1 as int,
                                ));
                            }
                            pstart = k + 1;
                        } else {
                            let ghost seg = pattern@.subrange(pstart as int, k as int);
                            let ghost rest = pattern@.skip(k + 1 as int);
                            proof {
                                assert(star_free(seg));
                                assert(pattern@.skip(pstart as int) =~= seg + (seq!['*'] + rest));
                            }
                            match find_seg(path, pos, pattern, pstart, k) {
                                Option::None => {
                                    proof {
                                        assert forall|l: int| !occurs_at(t, l, seg) by {
                                            if 0 <= l && l + seg.len() <= t.len() {
                                                assert(t.subrange(l, l + seg.len())
                                                    =~= path@.subrange(
                                                    pos + l,
                                                    pos + l + seg.len(),
                                                ));
                                                assert(!occurs_at(path@, pos + l, seg));
                                            }
                                        }
                                        lemma_suffix_seg_star_none(t, seg, rest);
                                    }
                                    return false;
                                },
                                Option::Some(g) => {
                                    let seglen = k - pstart;
                                    proof {
                                        let lj = g - pos;
                                        assert(t.subrange(lj, lj + seg.len()) =~= path@.subrange(
                                            g as int,
                                            g + seg.len(),
                                        ));
                                        assert(occurs_at(t, lj, seg));
                                        assert forall|l: int| 0 <= l < lj implies !occurs_at(
                                            t,
                                            l,
                                            seg,
                                        ) by {
                                            if l + seg.len() <= t.len() {
                                                assert(t.subrange(l, l + seg.len())
                                                    =~= path@.subrange(
                                                    pos + l,
                                                    pos + l + seg.len(),
                                                ));
                                                assert(!occurs_at(path@, pos + l, seg));
                                            }
                                        }
                                        lemma_suffix_seg_star_greedy(t, seg, rest, lj);
                                        lemma_skip_skip(path@, pos as int, lj + seg.len());
                                        assert(t.skip(lj + seg.len()) == path@.skip(
                                            g + seglen as int,
                                        ));
                                    }
                                    pos = g + seglen;
                                    pstart = k + 1;
                                },
                            }
                        }
                    },
                }
            }
        },
    }
}

/// Check whether a path matches a wildcard glob pattern; `*` matches any
/// sequence of characters. No method prefix is recognized here: the
/// pattern is taken to be a path glob as a whole.
pub fn matches_path_pattern(path: &str, pattern: &str) -> (r: bool)
    ensures
        r == glob_match(path@, pattern@),
{
    let pv = chars_vec(path);
    let tv = chars_vec(pattern);
    glob_match_vec(&pv, &tv)
}

/// Are the two strings equal?
pub(crate) fn str_eq(a: &str, b: &str) -> (r: bool)
    ensures
        r == (a@ == b@),
{
    let av = chars_vec(a);
    let bv = chars_vec(b);
    chars_eq(&av, &bv)
}

/// The whitespace accepted around a pattern's method prefix.
pub open spec fn is_pattern_space(c: char) -> bool {
    c == ' ' || c == '\t'
}

/// The pattern with its leading whitespace removed.
pub open spec fn trim_leading(s: Seq<char>) -> Seq<char>
    decreases s.len(),
{
    if s.len() > 0 && is_pattern_space(s[0]) {
        trim_leading(s.drop_first())
    } else {
        s
    }
}

/// The trimmed pattern begins with the method token `m` followed by a
/// whitespace character.
pub open spec fn has_method_prefix(t: Seq<char>, m: Seq<char>) -> bool {
    t.len() > m.len() && t.take(m.len() as int) == m && is_pattern_space(t[m.len() as int])
}

/// The parse of a pattern: an optional HTTP method constraint, and the
/// path glob that remains after the method token and surrounding
/// whitespace are removed.
pub open spec fn spec_parse_pattern(raw: Seq<char>) -> (Option<Seq<char>>, Seq<char>) {
    let t = trim_leading(raw);
    if has_method_prefix(t, seq!['G', 'E', 'T']) {
        (Some(seq!['G', 'E', 'T']), trim_leading(t.skip(3)))
    } else if has_method_prefix(t, seq!['P', 'O', 'S', 'T']) {
        (Some(seq!['P', 'O', 'S', 'T']), trim_leading(t.skip(4)))
    } else if has_method_prefix(t, seq!['P', 'U', 'T']) {
        (Some(seq!['P', 'U', 'T']), trim_leading(t.skip(3)))
    } else if has_method_prefix(t, seq!['D', 'E', 'L', 'E', 'T', 'E']) {
        (Some(seq!['D', 'E', 'L', 'E', 'T', 'E']), trim_leading(t.skip(6)))
    } else if has_method_prefix(t, seq!['P', 'A', 'T', 'C', 'H']) {
        (Some(seq!['P', 'A', 'T', 'C', 'H']), trim_leading(t.skip(5)))
    } else if has_method_prefix(t, seq!['H', 'E', 'A', 'D']) {
        (Some(seq!['H', 'E', 'A', 'D']), trim_leading(t.skip(4)))
    } else if has_method_prefix(t, seq!['O', 'P', 'T', 'I', 'O', 'N', 'S']) {
        (Some(seq!['O', 'P', 'T', 'I', 'O', 'N', 'S']), trim_leading(t.skip(7)))
    } else if has_method_prefix(t, seq!['C', 'O', 'N', 'N', 'E', 'C', 'T']) {
        (Some(seq!['C', 'O', 'N', 'N', 'E', 'C', 'T']), trim_leading(t.skip(7)))
    } else if has_method_prefix(t, seq!['T', 'R', 'A', 'C', 'E']) {
        (Some(seq!['T', 'R', 'A', 'C', 'E']), trim_leading(t.skip(5)))
    } else {
        (None, t)
    }
}

proof fn lemma_trim_leading_skip(s: Seq<char>, i: int)
    requires
        0 <= i <= s.len(),
        forall|k: int| 0 <= k < i ==> is_pattern_space(#[trigger] s[k]),
        i == s.len() || !is_pattern_space(s[i]),
    ensures
        trim_leading(s) == s.skip(i),
    decreases i,
{
    if i == 0 {
        assert(s.skip(0) =~= s);
    } else {
        assert(is_pattern_space(s[0]));
        lemma_trim_leading_skip(s.drop_first(), i - 1);
        assert(s.drop_first().skip(i - 1) =~= s.skip(i));
    }
}

/// Does the trimmed pattern `v@.skip(start)` begin with method token `m`
/// followed by whitespace?
fn try_method(v: &Vec<char>, start: usize, m: &Vec<char>) -> (r: bool)
    requires
        start <= v.len(),
    ensures
        r == has_method_prefix(v@.skip(start as int), m@),
{
    let ghost t = v@.skip(start as int);
    let ml = m.len();
    if v.len() - start <= ml {
        return false;
    }
    let mut i: usize = 0;
    while i < ml
        invariant
            i <= ml,
            ml == m.len(),
            start + ml < v.len(),
            t == v@.skip(start as int),
            forall|k: int| 0 <= k < i ==> #[trigger] t[k] == m@[k],
        decreases ml - i,
    {
        if v[start + i] != m[i] {
            proof {
                assert(t[i as int] == v@[start + i]);
                if t.take(ml as int) == m@ {
                    assert(t.take(ml as int)[i as int] == t[i as int]);
                }
            }
            return false;
        }
        proof {
            assert(t[i as int] == v@[start + i]);
        }
        i = i + 1;
    }
    let c = v[start + ml];
    proof {
        assert(t[ml as int] == v@[start + ml]);
        assert(t.take(ml as int) =~= m@);
    }
    c == ' ' || c == '\t'
}

/// Parse a pattern into its optional method constraint and its path glob.
///
/// `"POST /api/*"` parses to `(Some("POST"), "/api/*")`; `"/api/*"`
/// parses to `(None, "/api/*")`.
pub fn parse_pattern(pattern: &str) -> (r: (Option<&str>, &str))
    ensures
        ({
            let (m, pp) = spec_parse_pattern(pattern@);
            &&& r.1@ == pp
            &&& (r.0 is Some <==> m is Some)
            &&& (r.0 is Some ==> r.0.unwrap()@ == m.unwrap())
        }),
{
    let v = chars_vec(pattern);
    let n = v.len();
    let mut i: usize = 0;
    while i < n && (v[i] == ' ' || v[i] == '\t')
        invariant
            i <= n,
            n == v.len(),
            v@ == pattern@,
            forall|k: int| 0 <= k < i ==> is_pattern_space(#[trigger] v@[k]),
        decreases n - i,
    {
        i = i + 1;
    }
    proof {
        lemma_trim_leading_skip(pattern@, i as int);
    }
    let ghost t = pattern@.skip(i as int);
    let methods: [(&str, usize); 9] = [
        ("GET", 3),
        ("POST", 4),
        ("PUT", 3),
        ("DELETE", 6),
        ("PATCH", 5),
        ("HEAD", 4),
        ("OPTIONS", 7),
        ("CONNECT", 7),
        ("TRACE", 5),
    ];
    proof {
        reveal_strlit("GET");
        reveal_strlit("POST");
        reveal_strlit("PUT");
        reveal_strlit("DELETE");
        reveal_strlit("PATCH");
        reveal_strlit("HEAD");
        reveal_strlit("OPTIONS");
        reveal_strlit("CONNECT");
        reveal_strlit("TRACE");
    }
    let mut mi: usize = 0;
    while mi < 9
        invariant
            mi <= 9,
            i <= n,
            n == v.len(),
            v@ == pattern@,
            t == pattern@.skip(i as int),
            trim_leading(pattern@) == t,
            methods[0].0@ == seq!['G', 'E', 'T'] && methods[0].1 == 3,
            methods[1].0@ == seq!['P', 'O', 'S', 'T'] && methods[1].1 == 4,
            methods[2].0@ == seq!['P', 'U', 'T'] && methods[2].1 == 3,
            methods[3].0@ == seq!['D', 'E', 'L', 'E', 'T', 'E'] && methods[3].1 == 6,
            methods[4].0@ == seq!['P', 'A', 'T', 'C', 'H'] && methods[4].1 == 5,
            methods[5].0@ == seq!['H', 'E', 'A', 'D'] && methods[5].1 == 4,
            methods[6].0@ == seq!['O', 'P', 'T', 'I', 'O', 'N', 'S'] && methods[6].1 == 7,
            methods[7].0@ == seq!['C', 'O', 'N', 'N', 'E', 'C', 'T'] && methods[7].1 == 7,
            methods[8].0@ == seq!['T', 'R', 'A', 'C', 'E'] && methods[8].1 == 5,
            forall|k: int| 0 <= k < mi ==> !has_method_prefix(t, #[trigger] methods[k].0@),
        decreases 9 - mi,
    {
        let (mname, mlen) = methods[mi];
        let mv = chars_vec(mname);
        if try_method(&v, i, &mv) {
            let mut j: usize = i + mlen;
            proof {
                assert(t.len() > mlen as int);
                assert(i + mlen < n);
            }
            while j < n && (v[j] == ' ' || v[j] == '\t')
                invariant
                    i + mlen <= j <= n,
                    n == v.len(),
                    v@ == pattern@,
                    forall|k: int| i + mlen <= k < j ==> is_pattern_space(#[trigger] v@[k]),
                decreases n - j,
            {
                j = j + 1;
            }
            proof {
                let rest = t.skip(mlen as int);
                assert(rest =~= pattern@.skip(i + mlen as int));
                assert forall|k: int| 0 <= k < j - (i + mlen) implies is_pattern_space(
                    #[trigger] rest[k],
                ) by {
                    assert(rest[k] == pattern@[i + mlen + k]);
                }
                lemma_trim_leading_skip(rest, j - (i + mlen));
                assert(rest.skip(j - (i + mlen)) =~= pattern@.skip(j as int));
                assert(pattern@.skip(j as int) =~= pattern@.subrange(
                    j as int,
                    pattern@.len() as int,
                ));
            }
            let rest_str = pattern.substring_char(j, n);
            return (Some(mname), rest_str);
        }
        mi = mi + 1;
    }
    proof {
        assert(t =~= pattern@.subrange(i as int, pattern@.len() as int));
    }
    let rest_str = pattern.substring_char(i, n);
    (None, rest_str)
}

/// The view of an optional string argument.
pub open spec fn view_opt_str(m: Option<&str>) -> Option<Seq<char>> {
    match m {
        Some(s) => Some(s@),
        None => None,
    }
}

/// A request matches a pattern: if the pattern carries a method, the
/// request's method must equal it; the request path must match the
/// pattern's path glob.
pub open spec fn spec_matches_with_method(
    method: Option<Seq<char>>,
    path: Seq<char>,
    pattern: Seq<char>,
) -> bool {
    let (pm, pp) = spec_parse_pattern(pattern);
    match pm {
        Some(req) => method is Some && method.unwrap() == req && glob_match(path, pp),
        None => glob_match(path, pp),
    }
}

/// Check whether a request (method and path) matches a pattern.
///
/// `matches_pattern_with_method(Some("POST"), "/api/users", "POST /api/*")`
/// holds; with method `Some("GET")` it does not; a pattern without a
/// method prefix matches any method.
pub fn matches_pattern_with_method(method: Option<&str>, path: &str, pattern: &str) -> (r: bool)
    ensures
        r == spec_matches_with_method(view_opt_str(method), path@, pattern@),
{
    let (pm, pp) = parse_pattern(pattern);
    match pm {
        Some(req) => {
            match method {
                Some(m) => {
                    if str_eq(m, req) {
                        matches_path_pattern(path, pp)
                    } else {
                        false
                    }
                },
                None => false,
            }
        },
        None => matches_path_pattern(path, pp),
    }
}

/// Check whether a path matches a wildcard pattern, with no request
/// method supplied; a pattern that requires a method therefore never
/// matches here.
pub fn matches_pattern(path: &str, pattern: &str) -> (r: bool)
    ensures
        r == spec_matches_with_method(None, path@, pattern@),
{
    matches_pattern_with_method(None, path, pattern)
}

/// The caching policy: a request is cached unless an exclude pattern
/// matches it; when the include list is nonempty, some include pattern
/// must match it as well.
pub open spec fn spec_should_cache(
    method: Seq<char>,
    path: Seq<char>,
    includes: Seq<String>,
    excludes: Seq<String>,
) -> bool {
    if exists|i: int|
        0 <= i < excludes.len() && spec_matches_with_method(Some(method), path, excludes[i]@) {
        false
    } else if includes.len() == 0 {
        true
    } else {
        exists|i: int|
            0 <= i < includes.len() && spec_matches_with_method(Some(method), path, includes[i]@)
    }
}

/// Decide whether a request should be cached, from the include and
/// exclude pattern lists. Excludes are checked first and override
/// includes; an empty include list includes every path.
pub fn should_cache_path(
    method: &str,
    path: &str,
    include_paths: &[String],
    exclude_paths: &[String],
) -> (r: bool)
    ensures
        r == spec_should_cache(method@, path@, include_paths@, exclude_paths@),
{
    let mut i: usize = 0;
    while i < exclude_paths.len()
        invariant
            i <= exclude_paths.len(),
            forall|k: int|
                0 <= k < i ==> !spec_matches_with_method(
                    Some(method@),
                    path@,
                    #[trigger] exclude_paths@[k]@,
                ),
        decreases exclude_paths.len() - i,
    {
        if matches_pattern_with_method(Some(method), path, exclude_paths[i].as_str()) {
            return false;
        }
        i = i + 1;
    }
    if include_paths.len() == 0 {
        return true;
    }
    let mut i: usize = 0;
    while i < include_paths.len()
        invariant
            include_paths.len() > 0,
            i <= include_paths.len(),
            forall|k: int|
                0 <= k < exclude_paths@.len() ==> !spec_matches_with_method(
                    Some(method@),
                    path@,
                    #[trigger] exclude_paths@[k]@,
                ),
            forall|k: int|
                0 <= k < i ==> !spec_matches_with_method(
                    Some(method@),
                    path@,
                    #[trigger] include_paths@[k]@,
                ),
        decreases include_paths.len() - i,
    {
        if matches_pattern_with_method(Some(method), path, include_paths[i].as_str()) {
            return true;
        }
        i = i + 1;
    }
    false
}

/// A method-bearing pattern matches a request exactly when the request's
/// method equals the pattern's method and the request path matches the
/// pattern's path glob.
pub proof fn lemma_method_pattern(method: Seq<char>, path: Seq<char>, pattern: Seq<char>)
    requires
        spec_parse_pattern(pattern).0 is Some,
    ensures
        spec_matches_with_method(Some(method), path, pattern) <==> (method == spec_parse_pattern(
            pattern,
        ).0.unwrap() && glob_match(path, spec_parse_pattern(pattern).1)),
{
}


/// A pattern without a wildcard, a method prefix, or leading whitespace
/// matches exactly the path equal to it, whatever the request method.
pub proof fn lemma_exact_pattern_matches_only_itself(
    method: Option<Seq<char>>,
    path: Seq<char>,
    pattern: Seq<char>,
)
    requires
        star_free(pattern),
        trim_leading(pattern) == pattern,
        spec_parse_pattern(pattern).0 is None,
    ensures
        spec_matches_with_method(method, path, pattern) <==> path == pattern,
{
    lemma_star_free_exact(path, spec_parse_pattern(pattern).1);
}

/// The pattern `*` matches every request, whatever its method.
pub proof fn lemma_wildcard_matches_every_path(method: Option<Seq<char>>, path: Seq<char>)
    ensures
        spec_matches_with_method(method, path, seq!['*']),
{
    let p = seq!['*'];
    assert(!is_pattern_space(p[0]));
    assert(trim_leading(p) == p);
    lemma_star_matches_all(path);
}

/// Whenever some exclude pattern matches a request, the request is not
/// cached, whatever the include patterns say.
pub proof fn lemma_exclude_overrides_include(
    method: Seq<char>,
    path: Seq<char>,
    includes: Seq<String>,
    excludes: Seq<String>,
    i: int,
)
    requires
        0 <= i < excludes.len(),
        spec_matches_with_method(Some(method), path, excludes[i]@),
    ensures
        !spec_should_cache(method, path, includes, excludes),
{
    assert(exists|k: int|
        0 <= k < excludes.len() && spec_matches_with_method(Some(method), path, excludes[k]@));
}

} // verus!
