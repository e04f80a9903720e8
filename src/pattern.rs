//! Signature patterns: a case-insensitive regular expression, optionally
//! followed by metadata directives that are introduced by the two characters
//! `\;` (for instance `\;version:\1` or `\;confidence:50`).
use vstd::prelude::*;
use vstd::string::*;

verus! {

#[verifier::external_type_specification]
#[verifier::external_body]
pub struct ExRegexError(regex::Error);

/// The characters of an optional string.
pub open spec fn opt_chars(o: Option<String>) -> Option<Seq<char>> {
    match o {
        Some(s) => Some(s@),
        None => None,
    }
}

/// Whether `regex::Regex::new` accepts an expression.
pub uninterp spec fn regex_compiles(expr: Seq<char>) -> bool;

/// Whether the regex compiled from `expr` matches anywhere in `text`.
pub uninterp spec fn regex_finds(expr: Seq<char>, text: Seq<char>) -> bool;

/// The capture groups (group 0 first) of the leftmost match of `expr` in `text`.
pub uninterp spec fn regex_groups(expr: Seq<char>, text: Seq<char>) -> Seq<Option<Seq<char>>>;

/// Relies on `regex::Regex::new`, which fails exactly on the expressions it
/// refuses, and on `regex::Regex::is_match`, which is true if and only if the
/// regex matches somewhere in the text.
#[verifier::external_body]
fn find_in(expr: &str, text: &str) -> (r: Result<bool, regex::Error>)
    ensures
        r.is_ok() == regex_compiles(expr@),
        r matches Ok(b) ==> b == regex_finds(expr@, text@),
{
    regex::Regex::new(expr).map(|re| re.is_match(text))
}

/// Relies on `regex::Regex::new` as `find_in` does, and on
/// `regex::Regex::captures`, which gives `None` when there is no match and
/// otherwise every group of the leftmost match, group 0 first, each `None`
/// where the group took no part in it.
#[verifier::external_body]
fn captures_in(expr: &str, text: &str) -> (r: Result<Option<Vec<Option<String>>>, regex::Error>)
    ensures
        r.is_ok() == regex_compiles(expr@),
        r matches Ok(o) ==> o.is_some() == regex_finds(expr@, text@),
        r matches Ok(Some(g)) ==> g@.len() == regex_groups(expr@, text@).len() && forall|i: int|
            0 <= i < g@.len() ==> opt_chars(#[trigger] g@[i]) == regex_groups(expr@, text@)[i],
{
    regex::Regex::new(expr).map(
        |re| re.captures(text).map(|c| c.iter().map(|m| m.map(|m| m.as_str().to_string())).collect())
    )
}

/// Whether the directive delimiter `\;` starts at index `i` of `p`.
pub open spec fn delim_at(p: Seq<char>, i: int) -> bool {
    0 <= i && i + 1 < p.len() && p[i] == '\\' && p[i + 1] == ';'
}

/// The index of the first delimiter at or after `i`, or `p.len()` if there is none.
pub open spec fn first_delim_from(p: Seq<char>, i: int) -> int
    decreases p.len() - i,
{
    if i < 0 || i + 1 >= p.len() {
        p.len() as int
    } else if delim_at(p, i) {
        i
    } else {
        first_delim_from(p, i + 1)
    }
}

/// The matchable part of a pattern: the text before its first delimiter.
pub open spec fn expression_text(p: Seq<char>) -> Seq<char> {
    p.take(first_delim_from(p, 0))
}

/// The regular expression that a pattern stands for: its matchable part,
/// made case-insensitive.
pub open spec fn matchable(p: Seq<char>) -> Seq<char> {
    seq!['(', '?', 'i', ')'] + expression_text(p)
}

/// Whether a pattern matches a text; a pattern whose expression does not
/// compile matches nothing.
pub open spec fn text_matches(p: Seq<char>, t: Seq<char>) -> bool {
    regex_compiles(matchable(p)) && regex_finds(matchable(p), t)
}

pub proof fn lemma_first_delim_bounds(p: Seq<char>, i: int)
    requires
        0 <= i <= p.len(),
    ensures
        i <= first_delim_from(p, i) <= p.len(),
        first_delim_from(p, i) < p.len() ==> delim_at(p, first_delim_from(p, i)),
        forall|j: int| i <= j < first_delim_from(p, i) ==> !delim_at(p, j),
    decreases p.len() - i,
{
    if i + 1 < p.len() && !delim_at(p, i) {
        lemma_first_delim_bounds(p, i + 1);
    }
}

/// The index of the first delimiter of `p` at or after `from`.
pub fn first_delim(p: &str, from: usize) -> (r: usize)
    requires
        from <= p@.len(),
    ensures
        r == first_delim_from(p@, from as int),
{
    let n = p.unicode_len();
    let mut i = from;
    while n > 0 && i < n - 1
        invariant
            from <= i <= n,
            n == p@.len(),
            first_delim_from(p@, i as int) == first_delim_from(p@, from as int),
        decreases n - i,
    {
        if p.get_char(i) == '\\' && p.get_char(i + 1) == ';' {
            return i;
        }
        i = i + 1;
    }
    n
}

/// The case-insensitive regular expression of a pattern, without its directives.
pub fn matchable_expression(p: &str) -> (r: String)
    ensures
        r@ == matchable(p@),
{
    let end = first_delim(p, 0);
    proof {
        lemma_first_delim_bounds(p@, 0);
    }
    let mut e = String::from_str("(?i)");
    e.append(p.substring_char(0, end));
    proof {
        reveal_strlit("(?i)");
        assert(e@ =~= matchable(p@));
    }
    e
}

/// Whether a signature pattern matches a text, ignoring the pattern's
/// directives and the case of letters. An invalid expression never matches.
pub fn check_text(maybe_regex: &str, text: &str) -> (r: bool)
    ensures
        r == text_matches(maybe_regex@, text@),
{
    let expr = matchable_expression(maybe_regex);
    match find_in(expr.as_str(), text) {
        Ok(found) => found,
        Err(_) => false,
    }
}

/// The word that opens a version directive.
pub open spec fn version_word() -> Seq<char> {
    seq!['v', 'e', 'r', 's', 'i', 'o', 'n', ':']
}

/// The template of the first version directive among the directives that
/// start at index `s` of `p`.
pub open spec fn template_from(p: Seq<char>, s: int) -> Option<Seq<char>>
    decreases p.len() - s,
    via template_from_decreases
{
    if s < 0 || s > p.len() {
        None
    } else {
        let e = first_delim_from(p, s);
        if s + 8 <= e && p.subrange(s, s + 8) == version_word() {
            Some(p.subrange(s + 8, e))
        } else if e < p.len() {
            template_from(p, e + 2)
        } else {
            None
        }
    }
}

#[via_fn]
proof fn template_from_decreases(p: Seq<char>, s: int) {
    if 0 <= s <= p.len() {
        lemma_first_delim_bounds(p, s);
    }
}

/// The version template of a pattern: what follows `version:` in the first
/// directive that starts so, if any.
pub open spec fn version_template(p: Seq<char>) -> Option<Seq<char>> {
    let e = first_delim_from(p, 0);
    if e < p.len() {
        template_from(p, e + 2)
    } else {
        None
    }
}

/// The text of capture group `n`, empty where the group did not take part.
pub open spec fn group_text(groups: Seq<Option<Seq<char>>>, n: int) -> Seq<char> {
    if 0 <= n < groups.len() && groups[n] is Some {
        groups[n]->0
    } else {
        seq![]
    }
}

/// Whether `c` names a capture group after a backslash in a template.
pub open spec fn is_group_digit(c: char) -> bool {
    '1' <= c && c <= '9'
}

pub open spec fn digit_value(c: char) -> int {
    c as int - '0' as int
}

/// The template from index `i` on, with each `\N` replaced by group `N`.
pub open spec fn fill_from(tpl: Seq<char>, i: int, groups: Seq<Option<Seq<char>>>) -> Seq<char>
    decreases tpl.len() - i,
{
    if i < 0 || i >= tpl.len() {
        seq![]
    } else if i + 1 < tpl.len() && tpl[i] == '\\' && is_group_digit(tpl[i + 1]) {
        group_text(groups, digit_value(tpl[i + 1])) + fill_from(tpl, i + 2, groups)
    } else {
        seq![tpl[i]] + fill_from(tpl, i + 1, groups)
    }
}

/// A version template with each `\N` replaced by the text of group `N`.
pub open spec fn fill(tpl: Seq<char>, groups: Seq<Option<Seq<char>>>) -> Seq<char> {
    fill_from(tpl, 0, groups)
}

/// The capture groups as character sequences.
pub open spec fn groups_view(g: Seq<Option<String>>) -> Seq<Option<Seq<char>>> {
    g.map_values(|o: Option<String>| opt_chars(o))
}

/// The version that a pattern reads off a text: its template filled with the
/// groups of the match; absent without a template, without a match, or where
/// the filled template is empty.
pub open spec fn pattern_version(p: Seq<char>, t: Seq<char>) -> Option<Seq<char>> {
    match version_template(p) {
        Some(tpl) => if text_matches(p, t) {
            let v = fill(tpl, regex_groups(matchable(p), t));
            if v.len() > 0 {
                Some(v)
            } else {
                None
            }
        } else {
            None
        },
        None => None,
    }
}

fn str_equal(a: &str, b: &str) -> (r: bool)
    ensures
        r == (a@ == b@),
{
    String::from_str(a) == String::from_str(b)
}

/// The version template of a pattern, if one of its directives gives one.
pub fn version_template_of(p: &str) -> (r: Option<String>)
    ensures
        opt_chars(r) == version_template(p@),
{
    let n = p.unicode_len();
    let e0 = first_delim(p, 0);
    proof {
        lemma_first_delim_bounds(p@, 0);
    }
    if e0 >= n {
        return None;
    }
    let mut s = e0 + 2;
    loop
        invariant
            n == p@.len(),
            s <= n,
            template_from(p@, s as int) == version_template(p@),
        decreases n - s,
    {
        let e = first_delim(p, s);
        proof {
            lemma_first_delim_bounds(p@, s as int);
            reveal_strlit("version:");
        }
        if e >= 8 && s <= e - 8 && str_equal(p.substring_char(s, s + 8), "version:") {
            proof {
                assert("version:"@ =~= version_word());
            }
            return Some(String::from_str(p.substring_char(s + 8, e)));
        }
        proof {
            assert(s + 8 <= e ==> "version:"@ =~= version_word());
        }
        if e < n {
            s = e + 2;
        } else {
            return None;
        }
    }
}

/// A version template with each `\N` (`N` from 1 to 9) replaced by the text
/// of capture group `N`, or by nothing where that group did not take part.
pub fn fill_template(tpl: &str, groups: &Vec<Option<String>>) -> (r: String)
    ensures
        r@ == fill(tpl@, groups_view(groups@)),
{
    let n = tpl.unicode_len();
    let ghost gv = groups_view(groups@);
    let mut out = String::new();
    let mut i: usize = 0;
    while i < n
        invariant
            n == tpl@.len(),
            i <= n,
            gv == groups_view(groups@),
            out@ + fill_from(tpl@, i as int, gv) == fill(tpl@, gv),
        decreases n - i,
    {
        let c = tpl.get_char(i);
        if i + 1 < n && c == '\\' && '1' <= tpl.get_char(i + 1) && tpl.get_char(i + 1) <= '9' {
            let d = tpl.get_char(i + 1);
            let k = (d as u32 - '0' as u32) as usize;
            let ghost before = out@;
            if k < groups.len() {
                match &groups[k] {
                    Some(g) => out.append(g.as_str()),
                    None => {},
                }
            }
            proof {
                assert(out@ == before + group_text(gv, digit_value(d)));
                assert(before + fill_from(tpl@, i as int, gv) == out@ + fill_from(tpl@, i + 2, gv));
            }
            i = i + 2;
        } else {
            let ghost before = out@;
            out.append(tpl.substring_char(i, i + 1));
            proof {
                assert(tpl@.subrange(i as int, i + 1) =~= seq![c]);
                assert(before + fill_from(tpl@, i as int, gv) =~= out@ + fill_from(tpl@, i + 1, gv));
            }
            i = i + 1;
        }
    }
    proof {
        assert(out@ =~= fill(tpl@, gv));
    }
    out
}

/// The version that a pattern reads off a text (see `pattern_version`).
pub fn version_in(p: &str, text: &str) -> (r: Option<String>)
    ensures
        opt_chars(r) == pattern_version(p@, text@),
{
    match version_template_of(p) {
        None => None,
        Some(tpl) => {
            let expr = matchable_expression(p);
            match captures_in(expr.as_str(), text) {
                Ok(Some(groups)) => {
                    proof {
                        assert(groups_view(groups@) =~= regex_groups(expr@, text@));
                    }
                    let v = fill_template(tpl.as_str(), &groups);
                    if v.unicode_len() > 0 {
                        Some(v)
                    } else {
                        None
                    }
                },
                _ => None,
            }
        },
    }
}

proof fn lemma_delim_after(p: Seq<char>, rest: Seq<char>, i: int)
    requires
        0 <= i <= p.len(),
        forall|j: int| !delim_at(p, j),
    ensures
        first_delim_from(p + seq!['\\', ';'] + rest, i) == p.len(),
    decreases p.len() - i,
{
    let q = p + seq!['\\', ';'] + rest;
    if i < p.len() {
        assert(!delim_at(p, i));
        assert(!delim_at(q, i));
        lemma_delim_after(p, rest, i + 1);
    }
}

/// Whatever follows the first `\;` of a pattern takes no part in matching:
/// a pattern matches a text exactly as its expression alone does, whatever
/// the directives after it hold.
pub proof fn lemma_directives_not_matched(expr: Seq<char>, directives: Seq<char>, t: Seq<char>)
    requires
        forall|j: int| !delim_at(expr, j),
    ensures
        expression_text(expr + seq!['\\', ';'] + directives) == expr,
        text_matches(expr + seq!['\\', ';'] + directives, t) == text_matches(expr, t),
{
    let q = expr + seq!['\\', ';'] + directives;
    lemma_delim_after(expr, directives, 0);
    lemma_first_delim_bounds(expr, 0);
    assert(expression_text(q) =~= expr);
    assert(expression_text(expr) =~= expr);
}

} // verus!
