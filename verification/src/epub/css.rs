//! A small CSS reader: comment removal and the rules of a stylesheet.

use vstd::prelude::*;
use crate::book::style::{CssDeclaration, CssRule, StyleSheet};
use crate::strings::{
    char_range, find_char, find_char_from, lemma_find_char, lower_chars, lower_vec, push_chars,
    str_chars, string_from_chars, trim_chars, trim_spec,
};

verus! {

/// Position of the first `a` followed by `b` in `s`, at or after `i`.
pub open spec fn find_pair(s: Seq<char>, a: char, b: char, i: int) -> Option<int>
    decreases s.len() - i,
{
    if i < 0 || i + 1 >= s.len() {
        None
    } else if s[i] == a && s[i + 1] == b {
        Some(i)
    } else {
        find_pair(s, a, b, i + 1)
    }
}

pub proof fn lemma_find_pair(s: Seq<char>, a: char, b: char, i: int)
    requires
        0 <= i,
    ensures
        find_pair(s, a, b, i) matches Some(k) ==> i <= k && k + 1 < s.len() && s[k] == a && s[k
            + 1] == b,
    decreases s.len() - i,
{
    if i + 1 < s.len() && !(s[i] == a && s[i + 1] == b) {
        lemma_find_pair(s, a, b, i + 1);
    }
}

/// Position of the first `a` followed by `b` in `v`, at or after `i`.
pub fn find_pair_from(v: &[char], a: char, b: char, i: usize) -> (r: Option<usize>)
    ensures
        r == (match find_pair(v@, a, b, i as int) {
            Some(k) => Some(k as usize),
            None => None::<usize>,
        }),
        r matches Some(k) ==> i <= k && k + 1 < v@.len() && find_pair(v@, a, b, i as int) == Some(
            k as int,
        ),
{
    proof {
        lemma_find_pair(v@, a, b, i as int);
    }
    let n = v.len();
    let mut k = i;
    while k < n && n - k > 1
        invariant
            n == v@.len(),
            i <= k,
            find_pair(v@, a, b, k as int) == find_pair(v@, a, b, i as int),
        decreases n - k,
    {
        if v[k] == a && v[k + 1] == b {
            return Some(k);
        }
        k = k + 1;
    }
    None
}

/// `s` from `pos` on with its `/* ... */` comments removed. When a comment
/// is not closed, the text before it is kept twice: once before the rest of
/// the source, which is then kept whole.
pub open spec fn strip_from(s: Seq<char>, pos: int) -> Seq<char>
    decreases s.len() - pos,
{
    if pos < 0 || pos > s.len() {
        Seq::empty()
    } else {
        match find_pair(s, '/', '*', pos) {
            None => s.subrange(pos, s.len() as int),
            Some(st) => match find_pair(s, '*', '/', st + 2) {
                None => s.subrange(pos, st) + s.subrange(pos, s.len() as int),
                Some(e) => {
                    proof {
                        lemma_find_pair(s, '/', '*', pos);
                        lemma_find_pair(s, '*', '/', st + 2);
                    }
                    s.subrange(pos, st) + strip_from(s, e + 2)
                },
            },
        }
    }
}

/// `s` with its `/* ... */` comments removed.
pub open spec fn strip_comments(s: Seq<char>) -> Seq<char> {
    strip_from(s, 0)
}

/// Remove `/* ... */` comments. An unclosed comment keeps the text before it
/// and then the whole rest of the source.
pub fn remove_comments(source: &[char]) -> (r: Vec<char>)
    ensures
        r@ == strip_comments(source@),
{
    let n = source.len();
    let mut out: Vec<char> = Vec::new();
    let mut pos: usize = 0;
    loop
        invariant
            n == source@.len(),
            pos <= n,
            out@ + strip_from(source@, pos as int) == strip_comments(source@),
        decreases n - pos,
    {
        let ghost before = out@;
        match find_pair_from(source, '/', '*', pos) {
            None => {
                push_chars(&mut out, source, pos, n);
                return out;
            },
            Some(st) => {
                proof {
                    lemma_find_pair(source@, '/', '*', pos as int);
                }
                match find_pair_from(source, '*', '/', st + 2) {
                    None => {
                        push_chars(&mut out, source, pos, st);
                        push_chars(&mut out, source, pos, n);
                        assert(out@ =~= before + strip_from(source@, pos as int));
                        return out;
                    },
                    Some(e) => {
                        proof {
                            lemma_find_pair(source@, '*', '/', (st + 2) as int);
                        }
                        push_chars(&mut out, source, pos, st);
                        assert(out@ + strip_from(source@, (e + 2) as int) =~= before + strip_from(
                            source@,
                            pos as int,
                        ));
                        pos = e + 2;
                    },
                }
            },
        }
    }
}

/// The declaration `property: value` of a `;`-separated piece: the property
/// trimmed and lowercased, the value trimmed, both non-empty.
pub open spec fn declaration_of(p: Seq<char>) -> Option<(Seq<char>, Seq<char>)> {
    match find_char(p, ':', 0) {
        None => None,
        Some(k) => {
            let property = lower_chars(trim_spec(p.subrange(0, k)));
            let value = trim_spec(p.subrange(k + 1, p.len() as int));
            if property.len() > 0 && value.len() > 0 {
                Some((property, value))
            } else {
                None
            }
        },
    }
}

/// The declarations of the `;`-separated pieces of `d` from `pos` on.
pub open spec fn declarations_from(d: Seq<char>, pos: int) -> Seq<(Seq<char>, Seq<char>)>
    decreases d.len() - pos,
{
    if pos < 0 || pos > d.len() {
        Seq::empty()
    } else {
        match find_char(d, ';', pos) {
            None => match declaration_of(d.subrange(pos, d.len() as int)) {
                Some(x) => seq![x],
                None => Seq::empty(),
            },
            Some(k) => {
                proof {
                    lemma_find_char(d, ';', pos);
                }
                (match declaration_of(d.subrange(pos, k)) {
                    Some(x) => seq![x],
                    None => Seq::empty(),
                }) + declarations_from(d, k + 1)
            },
        }
    }
}

/// The rule of a `}`-separated piece: the trimmed text before its first `{`
/// as the selector, when non-empty, and the declarations after it.
pub open spec fn rule_of(part: Seq<char>) -> Option<(Seq<char>, Seq<(Seq<char>, Seq<char>)>)> {
    match find_char(part, '{', 0) {
        None => None,
        Some(k) => {
            let selector = trim_spec(part.subrange(0, k));
            if selector.len() == 0 {
                None
            } else {
                Some((selector, declarations_from(part.subrange(k + 1, part.len() as int), 0)))
            }
        },
    }
}

/// The rules of the `}`-separated pieces of `t` from `pos` on.
pub open spec fn rules_from(t: Seq<char>, pos: int) -> Seq<(Seq<char>, Seq<(Seq<char>, Seq<char>)>)>
    decreases t.len() - pos,
{
    if pos < 0 || pos > t.len() {
        Seq::empty()
    } else {
        match find_char(t, '}', pos) {
            None => match rule_of(t.subrange(pos, t.len() as int)) {
                Some(x) => seq![x],
                None => Seq::empty(),
            },
            Some(k) => {
                proof {
                    lemma_find_char(t, '}', pos);
                }
                (match rule_of(t.subrange(pos, k)) {
                    Some(x) => seq![x],
                    None => Seq::empty(),
                }) + rules_from(t, k + 1)
            },
        }
    }
}

/// The rules of a stylesheet source: comments removed, then split at `}`.
pub open spec fn css_rules(source: Seq<char>) -> Seq<(Seq<char>, Seq<(Seq<char>, Seq<char>)>)> {
    rules_from(strip_comments(source), 0)
}

/// The property and value of a declaration.
pub open spec fn declaration_view(d: CssDeclaration) -> (Seq<char>, Seq<char>) {
    (d.property@, d.value@)
}

/// The selector and declarations of a rule.
pub open spec fn rule_view(r: CssRule) -> (Seq<char>, Seq<(Seq<char>, Seq<char>)>) {
    (r.selector@, r.declarations@.map_values(|d: CssDeclaration| declaration_view(d)))
}

/// The declaration of one piece, if it has one.
fn parse_declaration(piece: &[char]) -> (r: Option<CssDeclaration>)
    ensures
        match declaration_of(piece@) {
            Some(x) => r matches Some(d) && declaration_view(d) == x,
            None => r is None,
        },
{
    let n = piece.len();
    let colon = match find_char_from(piece, ':', 0) {
        Some(k) => k,
        None => {
            return None;
        },
    };
    proof {
        lemma_find_char(piece@, ':', 0);
    }
    let name = char_range(piece, 0, colon);
    let property = lower_vec(trim_chars(name.as_slice()).as_slice());
    let rest = char_range(piece, colon + 1, n);
    let value = trim_chars(rest.as_slice());
    if property.len() > 0 && value.len() > 0 {
        Some(
            CssDeclaration {
                property: string_from_chars(property.as_slice()),
                value: string_from_chars(value.as_slice()),
            },
        )
    } else {
        None
    }
}

/// The declarations of a rule body.
fn parse_declarations(body: &[char]) -> (r: Vec<CssDeclaration>)
    ensures
        r@.map_values(|d: CssDeclaration| declaration_view(d)) == declarations_from(body@, 0),
{
    let n = body.len();
    let mut out: Vec<CssDeclaration> = Vec::new();
    let mut pos: usize = 0;
    loop
        invariant
            n == body@.len(),
            pos <= n,
            out@.map_values(|d: CssDeclaration| declaration_view(d)) + declarations_from(
                body@,
                pos as int,
            ) == declarations_from(body@, 0),
        decreases n - pos,
    {
        let ghost before = out@.map_values(|d: CssDeclaration| declaration_view(d));
        let end = match find_char_from(body, ';', pos) {
            Some(k) => k,
            None => n,
        };
        proof {
            lemma_find_char(body@, ';', pos as int);
        }
        let piece = char_range(body, pos, end);
        match parse_declaration(piece.as_slice()) {
            Some(d) => {
                out.push(d);
            },
            None => {},
        }
        assert(out@.map_values(|d: CssDeclaration| declaration_view(d)) =~= before + (match declaration_of(
            piece@,
        ) {
            Some(x) => seq![x],
            None => Seq::empty(),
        }));
        if end == n {
            assert(declarations_from(body@, n as int + 1) =~= Seq::empty());
            assert(out@.map_values(|d: CssDeclaration| declaration_view(d)) =~= declarations_from(
                body@,
                0,
            ));
            return out;
        }
        pos = end + 1;
    }
}

/// The rule of one `}`-separated piece, if it has one.
fn parse_rule(part: &[char]) -> (r: Option<CssRule>)
    ensures
        match rule_of(part@) {
            Some(x) => r matches Some(rule) && rule_view(rule) == x,
            None => r is None,
        },
{
    let n = part.len();
    let open = match find_char_from(part, '{', 0) {
        Some(k) => k,
        None => {
            return None;
        },
    };
    proof {
        lemma_find_char(part@, '{', 0);
    }
    let head = char_range(part, 0, open);
    let selector = trim_chars(head.as_slice());
    if selector.len() == 0 {
        return None;
    }
    let body = char_range(part, open + 1, n);
    let declarations = parse_declarations(body.as_slice());
    Some(CssRule { selector: string_from_chars(selector.as_slice()), declarations })
}

/// Parse a stylesheet: comments are removed, the text is split at `}`, and
/// each piece with a non-empty selector before `{` becomes a rule whose
/// `;`-separated `property: value` pieces become its declarations.
pub fn parse_css(href: String, source: String) -> (r: StyleSheet)
    ensures
        r.href == href,
        r.source == source,
        r.rules@.map_values(|x: CssRule| rule_view(x)) == css_rules(source@),
{
    let chars = str_chars(source.as_str());
    let t = remove_comments(chars.as_slice());
    let n = t.len();
    let mut rules: Vec<CssRule> = Vec::new();
    let mut pos: usize = 0;
    loop
        invariant
            n == t@.len(),
            t@ == strip_comments(source@),
            pos <= n,
            rules@.map_values(|x: CssRule| rule_view(x)) + rules_from(t@, pos as int) == rules_from(
                t@,
                0,
            ),
        decreases n - pos,
    {
        let ghost before = rules@.map_values(|x: CssRule| rule_view(x));
        let end = match find_char_from(t.as_slice(), '}', pos) {
            Some(k) => k,
            None => n,
        };
        proof {
            lemma_find_char(t@, '}', pos as int);
        }
        let part = char_range(t.as_slice(), pos, end);
        match parse_rule(part.as_slice()) {
            Some(rule) => {
                rules.push(rule);
            },
            None => {},
        }
        assert(rules@.map_values(|x: CssRule| rule_view(x)) =~= before + (match rule_of(part@) {
            Some(x) => seq![x],
            None => Seq::empty(),
        }));
        if end == n {
            assert(rules@.map_values(|x: CssRule| rule_view(x)) =~= rules_from(t@, 0));
            return StyleSheet { href, source, rules };
        }
        pos = end + 1;
    }
}

} // verus!
