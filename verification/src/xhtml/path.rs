//! Pure href and path syntax: normalize paths, resolve relative references,
//! and recognize external references.

use vstd::prelude::*;
use vstd::string::StrSliceExecFns;

verus! {

/// A path separator: `/`, or `\` which is read as `/`.
pub open spec fn is_sep(c: char) -> bool {
    c == '/' || c == '\\'
}

/// The components of `p[start..]` as split at separators from `i` on.
pub open spec fn split_from(p: Seq<char>, i: int, start: int) -> Seq<Seq<char>>
    decreases p.len() - i,
{
    if i < 0 || i >= p.len() {
        seq![p.subrange(start, p.len() as int)]
    } else if is_sep(p[i]) {
        seq![p.subrange(start, i)] + split_from(p, i + 1, i + 1)
    } else {
        split_from(p, i + 1, start)
    }
}

/// Apply one component to a stack of kept components: an empty or `.`
/// component is dropped and `..` drops the last kept component.
pub open spec fn apply_one(c: Seq<char>, stack: Seq<Seq<char>>) -> Seq<Seq<char>> {
    if c.len() == 0 || c == seq!['.'] {
        stack
    } else if c == seq!['.', '.'] {
        if stack.len() > 0 {
            stack.drop_last()
        } else {
            stack
        }
    } else {
        stack.push(c)
    }
}

/// Apply components in order to a stack of kept components.
pub open spec fn apply_components(comps: Seq<Seq<char>>, stack: Seq<Seq<char>>) -> Seq<Seq<char>>
    decreases comps.len(),
{
    if comps.len() == 0 {
        stack
    } else {
        apply_components(comps.drop_first(), apply_one(comps[0], stack))
    }
}

/// The parts joined with `/`.
pub open spec fn join_slash(parts: Seq<Seq<char>>) -> Seq<char>
    decreases parts.len(),
{
    if parts.len() == 0 {
        Seq::empty()
    } else if parts.len() == 1 {
        parts[0]
    } else {
        join_slash(parts.drop_last()) + seq!['/'] + parts.last()
    }
}

/// The normalized form of a path.
pub open spec fn normalize_spec(p: Seq<char>) -> Seq<char> {
    join_slash(apply_components(split_from(p, 0, 0), Seq::empty()))
}

proof fn lemma_apply_step(comps: Seq<Seq<char>>, k: int, stack: Seq<Seq<char>>)
    requires
        0 <= k < comps.len(),
    ensures
        apply_components(comps.subrange(k, comps.len() as int), stack) == apply_components(
            comps.subrange(k + 1, comps.len() as int),
            apply_one(comps[k], stack),
        ),
{
    assert(comps.subrange(k, comps.len() as int).drop_first() =~= comps.subrange(k + 1, comps.len() as int));
}

/// The components of `p` between separators: `(start, end)` character ranges.
fn components(path: &str) -> (r: Vec<(usize, usize)>)
    ensures
        r@.len() == split_from(path@, 0, 0).len(),
        forall|k: int|
            #![trigger r@[k]]
            0 <= k < r@.len() ==> r@[k].0 <= r@[k].1 <= path@.len() && path@.subrange(
                r@[k].0 as int,
                r@[k].1 as int,
            ) == split_from(path@, 0, 0)[k],
{
    let n = path.unicode_len();
    let mut r: Vec<(usize, usize)> = Vec::new();
    let mut start: usize = 0;
    let mut i: usize = 0;
    while i < n
        invariant
            n == path@.len(),
            start <= i <= n,
            r@.len() + split_from(path@, i as int, start as int).len() == split_from(path@, 0, 0).len(),
            forall|k: int|
                #![trigger r@[k]]
                0 <= k < r@.len() ==> r@[k].0 <= r@[k].1 <= path@.len() && path@.subrange(
                    r@[k].0 as int,
                    r@[k].1 as int,
                ) == split_from(path@, 0, 0)[k],
            forall|k: int|
                0 <= k < split_from(path@, i as int, start as int).len() ==> #[trigger] split_from(
                    path@,
                    i as int,
                    start as int,
                )[k] == split_from(path@, 0, 0)[r@.len() + k],
        decreases n - i,
    {
        let c = path.get_char(i);
        if c == '/' || c == '\\' {
            let ghost rest = split_from(path@, i + 1, i + 1);
            assert(split_from(path@, i as int, start as int) == seq![path@.subrange(start as int, i as int)]
                + rest);
            assert(split_from(path@, i as int, start as int)[0] == path@.subrange(start as int, i as int));
            assert forall|k: int| 0 <= k < rest.len() implies #[trigger] rest[k] == split_from(
                path@,
                0,
                0,
            )[r@.len() + 1 + k] by {
                assert(rest[k] == split_from(path@, i as int, start as int)[k + 1]);
            }
            r.push((start, i));
            start = i + 1;
        }
        i = i + 1;
    }
    assert(split_from(path@, i as int, start as int) == seq![path@.subrange(start as int, n as int)]);
    assert(split_from(path@, i as int, start as int)[0] == path@.subrange(start as int, n as int));
    r.push((start, n));
    r
}

/// The normalized form of a path: separators unified to `/`, empty and `.`
/// components dropped, `..` resolved against the components before it.
pub fn normalize_path_lossy(path: &str) -> (r: String)
    ensures
        r@ == normalize_spec(path@),
{
    let comps = components(path);
    let ghost cs = split_from(path@, 0, 0);
    let mut kept: Vec<(usize, usize)> = Vec::new();
    let mut k: usize = 0;
    assert(cs.subrange(0, cs.len() as int) =~= cs);
    assert(kept@.map_values(|p: (usize, usize)| path@.subrange(p.0 as int, p.1 as int)) =~= Seq::<Seq<char>>::empty());
    while k < comps.len()
        invariant
            comps@.len() == cs.len(),
            cs == split_from(path@, 0, 0),
            k <= comps@.len(),
            forall|j: int|
                #![trigger comps@[j]]
                0 <= j < comps@.len() ==> comps@[j].0 <= comps@[j].1 <= path@.len() && path@.subrange(
                    comps@[j].0 as int,
                    comps@[j].1 as int,
                ) == cs[j],
            forall|j: int| 0 <= j < kept@.len() ==> (#[trigger] kept@[j]).0 <= kept@[j].1 <= path@.len(),
            apply_components(
                cs.subrange(k as int, cs.len() as int),
                kept@.map_values(|p: (usize, usize)| path@.subrange(p.0 as int, p.1 as int)),
            ) == apply_components(cs, Seq::empty()),
        decreases comps@.len() - k,
    {
        let (s, e) = comps[k];
        let ghost stack = kept@.map_values(|p: (usize, usize)| path@.subrange(p.0 as int, p.1 as int));
        let ghost c = cs[k as int];
        assert(c == path@.subrange(s as int, e as int));
        proof {
            lemma_apply_step(cs, k as int, stack);
        }
        let is_dot = e - s == 1 && path.get_char(s) == '.';
        let is_dot_dot = e - s == 2 && path.get_char(s) == '.' && path.get_char(s + 1) == '.';
        proof {
            if e - s == 1 {
                assert(c.len() == 1 && c[0] == path@[s as int]);
                assert(is_dot == (c =~= seq!['.']));
            }
            if e - s == 2 {
                assert(c.len() == 2 && c[0] == path@[s as int] && c[1] == path@[s + 1]);
                assert(is_dot_dot == (c =~= seq!['.', '.']));
            }
            assert(is_dot == (c == seq!['.']));
            assert(is_dot_dot == (c == seq!['.', '.']));
        }
        if e == s || is_dot {
        } else if is_dot_dot {
            if kept.len() > 0 {
                kept.pop();
                assert(kept@.map_values(|p: (usize, usize)| path@.subrange(p.0 as int, p.1 as int))
                    =~= stack.drop_last());
            }
        } else {
            kept.push((s, e));
            assert(kept@.map_values(|p: (usize, usize)| path@.subrange(p.0 as int, p.1 as int))
                =~= stack.push(c));
        }
        k = k + 1;
    }
    let ghost parts = kept@.map_values(|p: (usize, usize)| path@.subrange(p.0 as int, p.1 as int));
    assert(cs.subrange(k as int, cs.len() as int) =~= Seq::<Seq<char>>::empty());
    assert(parts == apply_components(cs, Seq::empty()));
    let mut out = String::new();
    let mut j: usize = 0;
    proof {
        reveal_strlit("/");
    }
    assert(parts.take(0) =~= Seq::<Seq<char>>::empty());
    while j < kept.len()
        invariant
            j <= kept@.len(),
            parts == kept@.map_values(|p: (usize, usize)| path@.subrange(p.0 as int, p.1 as int)),
            forall|i: int| 0 <= i < kept@.len() ==> (#[trigger] kept@[i]).0 <= kept@[i].1 <= path@.len(),
            out@ == join_slash(parts.take(j as int)),
            "/"@ == seq!['/'],
        decreases kept@.len() - j,
    {
        let (s, e) = kept[j];
        if j > 0 {
            out.append("/");
        }
        out.append(path.substring_char(s, e));
        assert(parts.take(j + 1).drop_last() =~= parts.take(j as int));
        assert(parts[j as int] == path@.subrange(s as int, e as int));
        j = j + 1;
    }
    assert(parts.take(j as int) =~= parts);
    out
}

/// The normalized form of a path, `None` when nothing remains.
pub fn normalize_path(path: &str) -> (r: Option<String>)
    ensures
        match r {
            Some(n) => n@ == normalize_spec(path@) && n@.len() > 0,
            None => normalize_spec(path@).len() == 0,
        },
{
    let normalized = normalize_path_lossy(path);
    if normalized.as_str().unicode_len() == 0 {
        None
    } else {
        Some(normalized)
    }
}

/// `s[i..]` starts with `lit`.
pub open spec fn has_at(s: Seq<char>, i: int, lit: Seq<char>) -> bool {
    0 <= i && i + lit.len() <= s.len() && s.subrange(i, i + lit.len()) == lit
}

/// Whether `s[i..]` starts with `lit`.
fn starts_at(s: &str, i: usize, lit: &str) -> (r: bool)
    ensures
        r == has_at(s@, i as int, lit@),
{
    let n = s.unicode_len();
    let m = lit.unicode_len();
    if i > n || m > n - i {
        return false;
    }
    let mut j: usize = 0;
    while j < m
        invariant
            n == s@.len(),
            m == lit@.len(),
            i + m <= n,
            j <= m,
            forall|k: int| 0 <= k < j ==> s@[i + k] == lit@[k],
        decreases m - j,
    {
        if s.get_char(i + j) != lit.get_char(j) {
            assert(s@.subrange(i as int, i + m)[j as int] != lit@[j as int]);
            return false;
        }
        j = j + 1;
    }
    assert(s@.subrange(i as int, i + m) =~= lit@);
    true
}

/// `://`.
pub open spec fn scheme_sep() -> Seq<char> {
    seq![':', '/', '/']
}

/// A reference that does not name a package resource: a data URL, a
/// scheme-relative or absolute URL, or a Kindle reference.
pub open spec fn external_spec(t: Seq<char>) -> bool {
    has_at(t, 0, seq!['d', 'a', 't', 'a', ':']) || has_at(t, 0, seq!['/', '/']) || (exists|i: int|
        #[trigger] has_at(t, i, scheme_sep())) || has_at(
        t,
        0,
        seq!['k', 'i', 'n', 'd', 'l', 'e', ':'],
    )
}

/// Whether a reference points outside the package.
pub fn is_external_reference(target: &str) -> (r: bool)
    ensures
        r == external_spec(target@),
{
    proof {
        reveal_strlit("data:");
        reveal_strlit("//");
        reveal_strlit("://");
        reveal_strlit("kindle:");
        assert("data:"@ =~= seq!['d', 'a', 't', 'a', ':']);
        assert("//"@ =~= seq!['/', '/']);
        assert("://"@ =~= scheme_sep());
        assert("kindle:"@ =~= seq!['k', 'i', 'n', 'd', 'l', 'e', ':']);
    }
    if starts_at(target, 0, "data:") || starts_at(target, 0, "//") || starts_at(target, 0, "kindle:") {
        return true;
    }
    let n = target.unicode_len();
    let mut i: usize = 0;
    while i < n
        invariant
            n == target@.len(),
            i <= n,
            "://"@ == scheme_sep(),
            forall|k: int| 0 <= k < i ==> !#[trigger] has_at(target@, k, scheme_sep()),
        decreases n - i,
    {
        if starts_at(target, i, "://") {
            return true;
        }
        i = i + 1;
    }
    assert forall|k: int| !#[trigger] has_at(target@, k, scheme_sep()) by {
        if k >= n {
        }
    }
    false
}

/// Position of the first `#` or `?` at or after `i`, or the length.
pub open spec fn fragment_start(s: Seq<char>, i: int) -> int
    decreases s.len() - i,
{
    if i < 0 || i >= s.len() {
        s.len() as int
    } else if s[i] == '#' || s[i] == '?' {
        i
    } else {
        fragment_start(s, i + 1)
    }
}

/// Position of the last `/` below `i`.
pub open spec fn last_slash(s: Seq<char>, i: int) -> Option<int>
    decreases i,
{
    if i <= 0 || i > s.len() {
        None
    } else if s[i - 1] == '/' {
        Some(i - 1)
    } else {
        last_slash(s, i - 1)
    }
}

/// `target`, without fragment and query, resolved against the directory of
/// `base` and normalized; `None` for empty and external references and for
/// a path that normalizes to nothing.
pub open spec fn resolve_spec(base: Seq<char>, target: Seq<char>) -> Option<Seq<char>> {
    let t = target.subrange(0, fragment_start(target, 0));
    if t.len() == 0 || external_spec(t) {
        None
    } else {
        let joined = if t[0] == '/' {
            t
        } else {
            match last_slash(base, base.len() as int) {
                Some(k) => base.subrange(0, k) + seq!['/'] + t,
                None => t,
            }
        };
        let n = normalize_spec(joined);
        if n.len() == 0 {
            None
        } else {
            Some(n)
        }
    }
}

proof fn lemma_fragment_start(s: Seq<char>, i: int)
    requires
        0 <= i <= s.len(),
    ensures
        i <= fragment_start(s, i) <= s.len(),
    decreases s.len() - i,
{
    if i < s.len() && !(s[i] == '#' || s[i] == '?') {
        lemma_fragment_start(s, i + 1);
    }
}

proof fn lemma_last_slash(s: Seq<char>, i: int)
    requires
        0 <= i <= s.len(),
    ensures
        last_slash(s, i) matches Some(k) ==> 0 <= k < i,
    decreases i,
{
    if i > 0 && s[i - 1] != '/' {
        lemma_last_slash(s, i - 1);
    }
}

/// Resolve `target` against the document `base_href` into a normalized
/// package path.
pub fn resolve_path(base_href: &str, target: &str) -> (r: Option<String>)
    ensures
        match resolve_spec(base_href@, target@) {
            Some(p) => r matches Some(v) && v@ == p,
            None => r is None,
        },
{
    let n = target.unicode_len();
    let mut end: usize = 0;
    proof {
        lemma_fragment_start(target@, 0);
    }
    while end < n && target.get_char(end) != '#' && target.get_char(end) != '?'
        invariant
            n == target@.len(),
            end <= n,
            fragment_start(target@, end as int) == fragment_start(target@, 0),
        decreases n - end,
    {
        end = end + 1;
    }
    let t = target.substring_char(0, end);
    if end == 0 || is_external_reference(t) {
        return None;
    }
    let base_len = base_href.unicode_len();
    let mut joined = String::new();
    proof {
        reveal_strlit("/");
        assert("/"@ =~= seq!['/']);
        lemma_last_slash(base_href@, base_len as int);
    }
    if t.get_char(0) == '/' {
        joined.append(t);
    } else {
        let mut k = base_len;
        while k > 0 && base_href.get_char(k - 1) != '/'
            invariant
                base_len == base_href@.len(),
                k <= base_len,
                last_slash(base_href@, k as int) == last_slash(base_href@, base_len as int),
            decreases k,
        {
            k = k - 1;
        }
        if k > 0 {
            joined.append(base_href.substring_char(0, k - 1));
            joined.append("/");
            joined.append(t);
        } else {
            joined.append(t);
        }
    }
    normalize_path(joined.as_str())
}

} // verus!
