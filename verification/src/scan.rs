use vstd::prelude::*;
use crate::chars::{is_space_char, is_space};

verus! {

/// First position at or after `i` that holds a non-white-space character;
/// the length when there is none.
pub open spec fn skip_ws(s: Seq<char>, i: int) -> int
    decreases s.len() - i,
{
    if i < 0 || i >= s.len() {
        s.len() as int
    } else if is_space_char(s[i]) {
        skip_ws(s, i + 1)
    } else {
        i
    }
}

pub proof fn lemma_skip_ws_at(s: Seq<char>, i: int, p: int)
    requires
        0 <= i <= p <= s.len(),
        p < s.len() ==> !is_space_char(s[p]),
        forall|j: int| i <= j < p ==> is_space_char(s[j]),
    ensures
        skip_ws(s, i) == p,
    decreases s.len() - i,
{
    if i < s.len() && is_space_char(s[i]) {
        lemma_skip_ws_at(s, i + 1, p);
    }
}

/// The word `w` stands in `s` at position `i`.
pub open spec fn has_prefix(s: Seq<char>, i: int, w: Seq<char>) -> bool {
    0 <= i && i + w.len() <= s.len() && s.subrange(i, i + w.len()) == w
}

pub proof fn lemma_prefix_index(s: Seq<char>, i: int, w: Seq<char>, k: int)
    requires
        has_prefix(s, i, w),
        0 <= k < w.len(),
    ensures
        s[i + k] == w[k],
{
    assert(s.subrange(i, i + w.len())[k] == s[i + k]);
}

pub open spec fn kw_pragma() -> Seq<char> {
    seq!['#', 'p', 'r', 'a', 'g', 'm', 'a']
}

pub open spec fn kw_once() -> Seq<char> {
    seq!['o', 'n', 'c', 'e']
}

pub open spec fn kw_ifdef() -> Seq<char> {
    seq!['#', 'i', 'f', 'd', 'e', 'f']
}

pub open spec fn kw_ifndef() -> Seq<char> {
    seq!['#', 'i', 'f', 'n', 'd', 'e', 'f']
}

pub open spec fn kw_if() -> Seq<char> {
    seq!['#', 'i', 'f']
}

pub open spec fn kw_else() -> Seq<char> {
    seq!['#', 'e', 'l', 's', 'e']
}

pub open spec fn kw_endif() -> Seq<char> {
    seq!['#', 'e', 'n', 'd', 'i', 'f']
}

/// The inclusion keyword, `#` followed by the word the C preprocessor uses.
pub open spec fn kw_inc() -> Seq<char> {
    seq!['#', 'i', 'n', 'c', 'l', 'u', 'd', 'e']
}

/// `#pragma`, at least one white-space character, `once`, and then
/// anything at all: a trailing comment or any other text is ignored.
pub open spec fn is_pragma_line(s: Seq<char>) -> bool {
    let i = skip_ws(s, 0);
    has_prefix(s, i, kw_pragma()) && {
        let k = skip_ws(s, i + 7);
        k > i + 7 && has_prefix(s, k, kw_once())
    }
}

/// `#ifdef` or `#ifndef`, at least one white-space character, and then the
/// flag name, which runs to the end of the line.
pub open spec fn is_ifdef_line(s: Seq<char>) -> bool {
    let i = skip_ws(s, 0);
    (has_prefix(s, i, kw_ifdef()) && skip_ws(s, i + 6) > i + 6) || (has_prefix(s, i, kw_ifndef())
        && skip_ws(s, i + 7) > i + 7)
}

/// Whether the condition is negated, that is, written `#ifndef`.
pub open spec fn ifdef_neg(s: Seq<char>) -> bool {
    has_prefix(s, skip_ws(s, 0), kw_ifndef())
}

/// The flag name of an `#ifdef`/`#ifndef` line: everything after the
/// white-space run that follows the keyword, trailing text included.
pub open spec fn ifdef_name(s: Seq<char>) -> Seq<char> {
    let i = skip_ws(s, 0);
    let j = if ifdef_neg(s) {
        i + 7
    } else {
        i + 6
    };
    s.subrange(skip_ws(s, j), s.len() as int)
}

/// A bare `#if` followed by one white-space character: its condition is
/// never evaluated.
pub open spec fn is_ifraw_line(s: Seq<char>) -> bool {
    let i = skip_ws(s, 0);
    has_prefix(s, i, kw_if()) && i + 3 < s.len() && is_space_char(s[i + 3])
}

/// `#else` and then anything at all.
pub open spec fn is_else_line(s: Seq<char>) -> bool {
    has_prefix(s, skip_ws(s, 0), kw_else())
}

/// `#endif` and then anything at all.
pub open spec fn is_endif_line(s: Seq<char>) -> bool {
    has_prefix(s, skip_ws(s, 0), kw_endif())
}

/// One scanned line, classified by the directive it carries.
pub enum Directive {
    PragmaOnce,
    IfDef { negated: bool, name: String },
    IfRaw,
    Else,
    Endif,
    Plain,
}

fn skip_ws_exec(line: &str, i: usize) -> (r: usize)
    requires
        i <= line@.len(),
    ensures
        r == skip_ws(line@, i as int),
        i <= r <= line@.len(),
{
    let n = line.unicode_len();
    let mut j = i;
    while j < n && is_space(line.get_char(j))
        invariant
            i <= j <= n,
            n == line@.len(),
            forall|k: int| i <= k < j ==> is_space_char(line@[k]),
        decreases n - j,
    {
        j += 1;
    }
    proof {
        lemma_skip_ws_at(line@, i as int, j as int);
    }
    j
}

fn check_prefix(line: &str, i: usize, w: &str) -> (r: bool)
    requires
        i <= line@.len(),
    ensures
        r == has_prefix(line@, i as int, w@),
{
    let n = line.unicode_len();
    let wn = w.unicode_len();
    if n - i < wn {
        return false;
    }
    let mut j: usize = 0;
    while j < wn
        invariant
            0 <= j <= wn,
            wn == w@.len(),
            n == line@.len(),
            i + wn <= n,
            forall|k: int| 0 <= k < j ==> line@[i + k] == w@[k],
        decreases wn - j,
    {
        if line.get_char(i + j) != w.get_char(j) {
            proof {
                assert(line@.subrange(i as int, i + wn) != w@) by {
                    if line@.subrange(i as int, i + wn) == w@ {
                        assert(line@.subrange(i as int, i + wn)[j as int] == line@[i + j]);
                    }
                }
            }
            return false;
        }
        j += 1;
    }
    proof {
        assert(line@.subrange(i as int, i + wn) =~= w@);
    }
    true
}

/// Classifies one physical line against the directive grammar. Only one of
/// the directive forms can match a given line; the priority the resolver
/// applies between them is therefore immaterial here.
pub fn classify(line: &str) -> (d: Directive)
    ensures
        (d is PragmaOnce) == is_pragma_line(line@),
        (d is IfDef) == is_ifdef_line(line@),
        d matches Directive::IfDef { negated, name } ==> negated == ifdef_neg(line@) && name@
            == ifdef_name(line@),
        (d is IfRaw) == is_ifraw_line(line@),
        (d is Else) == is_else_line(line@),
        (d is Endif) == is_endif_line(line@),
{
    proof {
        reveal_strlit("#pragma");
        reveal_strlit("once");
        reveal_strlit("#ifdef");
        reveal_strlit("#ifndef");
        reveal_strlit("#if");
        reveal_strlit("#else");
        reveal_strlit("#endif");
        assert(("#pragma")@ =~= kw_pragma());
        assert(("once")@ =~= kw_once());
        assert(("#ifdef")@ =~= kw_ifdef());
        assert(("#ifndef")@ =~= kw_ifndef());
        assert(("#if")@ =~= kw_if());
        assert(("#else")@ =~= kw_else());
        assert(("#endif")@ =~= kw_endif());
    }
    let ghost s = line@;
    let n = line.unicode_len();
    let i = skip_ws_exec(line, 0);
    if i >= n || line.get_char(i) != '#' {
        proof {
            if i < s.len() {
                lemma_not_directive_head(s, i as int);
            }
        }
        return Directive::Plain;
    }
    if check_prefix(line, i, "#pragma") {
        proof {
            lemma_prefix_index(s, i as int, kw_pragma(), 1);
            lemma_kw_disambiguate(s, i as int);
        }
        let k = skip_ws_exec(line, i + 7);
        if k > i + 7 && check_prefix(line, k, "once") {
            return Directive::PragmaOnce;
        }
        return Directive::Plain;
    }
    if check_prefix(line, i, "#ifndef") {
        proof {
            lemma_prefix_index(s, i as int, kw_ifndef(), 1);
            lemma_prefix_index(s, i as int, kw_ifndef(), 3);
            lemma_kw_disambiguate(s, i as int);
        }
        let k = skip_ws_exec(line, i + 7);
        if k > i + 7 {
            let name = line.substring_char(k, n).to_owned();
            return Directive::IfDef { negated: true, name };
        }
        proof {
            lemma_ifdef_not_both(s, i as int);
        }
        return Directive::Plain;
    }
    if check_prefix(line, i, "#ifdef") {
        proof {
            lemma_prefix_index(s, i as int, kw_ifdef(), 1);
            lemma_prefix_index(s, i as int, kw_ifdef(), 3);
            lemma_kw_disambiguate(s, i as int);
            lemma_ifdef_not_both(s, i as int);
        }
        let k = skip_ws_exec(line, i + 6);
        if k > i + 6 {
            let name = line.substring_char(k, n).to_owned();
            return Directive::IfDef { negated: false, name };
        }
        return Directive::Plain;
    }
    if check_prefix(line, i, "#if") {
        proof {
            lemma_prefix_index(s, i as int, kw_if(), 1);
            lemma_kw_disambiguate(s, i as int);
        }
        if i + 3 < n && is_space(line.get_char(i + 3)) {
            proof {
                lemma_ifraw_not_ifdef(s, i as int);
            }
            return Directive::IfRaw;
        }
        return Directive::Plain;
    }
    if check_prefix(line, i, "#else") {
        proof {
            lemma_prefix_index(s, i as int, kw_else(), 1);
            lemma_prefix_index(s, i as int, kw_else(), 2);
            lemma_kw_disambiguate(s, i as int);
        }
        return Directive::Else;
    }
    if check_prefix(line, i, "#endif") {
        proof {
            lemma_prefix_index(s, i as int, kw_endif(), 1);
            lemma_prefix_index(s, i as int, kw_endif(), 2);
            lemma_kw_disambiguate(s, i as int);
        }
        return Directive::Endif;
    }
    Directive::Plain
}

/// A line whose first non-white-space character is not `#` carries no
/// directive.
proof fn lemma_not_directive_head(s: Seq<char>, i: int)
    requires
        i == skip_ws(s, 0),
        0 <= i < s.len(),
        s[i] != '#',
    ensures
        !is_pragma_line(s),
        !is_ifdef_line(s),
        !is_ifraw_line(s),
        !is_else_line(s),
        !is_endif_line(s),
{
    if has_prefix(s, i, kw_pragma()) {
        lemma_prefix_index(s, i, kw_pragma(), 0);
    }
    if has_prefix(s, i, kw_ifdef()) {
        lemma_prefix_index(s, i, kw_ifdef(), 0);
    }
    if has_prefix(s, i, kw_ifndef()) {
        lemma_prefix_index(s, i, kw_ifndef(), 0);
    }
    if has_prefix(s, i, kw_if()) {
        lemma_prefix_index(s, i, kw_if(), 0);
    }
    if has_prefix(s, i, kw_else()) {
        lemma_prefix_index(s, i, kw_else(), 0);
    }
    if has_prefix(s, i, kw_endif()) {
        lemma_prefix_index(s, i, kw_endif(), 0);
    }
}

/// The keyword families begin with distinct characters after `#`, so at
/// most one family can stand at the head of a line.
proof fn lemma_kw_disambiguate(s: Seq<char>, i: int)
    requires
        i == skip_ws(s, 0),
        0 <= i <= s.len(),
    ensures
        has_prefix(s, i, kw_pragma()) ==> !has_prefix(s, i, kw_ifdef()) && !has_prefix(
            s,
            i,
            kw_ifndef(),
        ) && !has_prefix(s, i, kw_if()) && !has_prefix(s, i, kw_else()) && !has_prefix(
            s,
            i,
            kw_endif(),
        ),
        has_prefix(s, i, kw_if()) ==> !has_prefix(s, i, kw_pragma()) && !has_prefix(
            s,
            i,
            kw_else(),
        ) && !has_prefix(s, i, kw_endif()),
        has_prefix(s, i, kw_else()) ==> !has_prefix(s, i, kw_endif()),
{
    if has_prefix(s, i, kw_pragma()) {
        lemma_prefix_index(s, i, kw_pragma(), 1);
    }
    if has_prefix(s, i, kw_ifdef()) {
        lemma_prefix_index(s, i, kw_ifdef(), 1);
    }
    if has_prefix(s, i, kw_ifndef()) {
        lemma_prefix_index(s, i, kw_ifndef(), 1);
    }
    if has_prefix(s, i, kw_if()) {
        lemma_prefix_index(s, i, kw_if(), 1);
    }
    if has_prefix(s, i, kw_else()) {
        lemma_prefix_index(s, i, kw_else(), 1);
        lemma_prefix_index(s, i, kw_else(), 2);
    }
    if has_prefix(s, i, kw_endif()) {
        lemma_prefix_index(s, i, kw_endif(), 1);
        lemma_prefix_index(s, i, kw_endif(), 2);
    }
}

/// `#ifdef` and `#ifndef` cannot both stand at the same position.
proof fn lemma_ifdef_not_both(s: Seq<char>, i: int)
    requires
        0 <= i <= s.len(),
    ensures
        !(has_prefix(s, i, kw_ifdef()) && has_prefix(s, i, kw_ifndef())),
{
    if has_prefix(s, i, kw_ifdef()) && has_prefix(s, i, kw_ifndef()) {
        lemma_prefix_index(s, i, kw_ifdef(), 3);
        lemma_prefix_index(s, i, kw_ifndef(), 3);
    }
}

/// A raw `#if` line, one with white space right after `#if`, matches
/// neither conditional keyword form.
proof fn lemma_ifraw_not_ifdef(s: Seq<char>, i: int)
    requires
        i == skip_ws(s, 0),
        0 <= i,
        i + 3 < s.len(),
        is_space_char(s[i + 3]),
    ensures
        !is_ifdef_line(s),
{
    if has_prefix(s, i, kw_ifdef()) {
        lemma_prefix_index(s, i, kw_ifdef(), 3);
    }
    if has_prefix(s, i, kw_ifndef()) {
        lemma_prefix_index(s, i, kw_ifndef(), 3);
    }
}

/// Largest position before `j` that holds a closing delimiter, `>` or
/// `"`; `-1` when there is none.
pub open spec fn rfind_delim(s: Seq<char>, j: int) -> int
    decreases j,
{
    if j <= 0 {
        -1
    } else if s[j - 1] == '>' || s[j - 1] == '"' {
        j - 1
    } else {
        rfind_delim(s, j - 1)
    }
}

pub proof fn lemma_rfind_delim_at(s: Seq<char>, j: int, p: int)
    requires
        0 <= j <= s.len(),
        -1 <= p < j,
        p >= 0 ==> s[p] == '>' || s[p] == '"',
        forall|k: int| p < k < j ==> s[k] != '>' && s[k] != '"',
    ensures
        rfind_delim(s, j) == p,
    decreases j,
{
    if j > 0 && !(s[j - 1] == '>' || s[j - 1] == '"') {
        lemma_rfind_delim_at(s, j - 1, p);
    }
}

/// Position of the opening delimiter of an inclusion line: the first
/// non-white-space character after the keyword.
pub open spec fn inc_open(s: Seq<char>) -> int {
    skip_ws(s, skip_ws(s, 0) + 8)
}

/// The line begins, after optional white space, with the inclusion
/// keyword, then optional white space, then `<` or `"`.
pub open spec fn is_inc_head(s: Seq<char>) -> bool {
    let i = skip_ws(s, 0);
    has_prefix(s, i, kw_inc()) && inc_open(s) < s.len() && (s[inc_open(s)] == '<' || s[inc_open(
        s,
    )] == '"')
}

/// A full inclusion line: a head and, somewhere after the opening
/// delimiter, a last closing delimiter. Anything after that closing
/// delimiter is ignored.
pub open spec fn is_inc_line(s: Seq<char>) -> bool {
    is_inc_head(s) && rfind_delim(s, s.len() as int) > inc_open(s)
}

pub open spec fn inc_lb(s: Seq<char>) -> char {
    s[inc_open(s)]
}

pub open spec fn inc_rb(s: Seq<char>) -> char {
    s[rfind_delim(s, s.len() as int)]
}

/// The named file: the characters between the two delimiters.
pub open spec fn inc_target(s: Seq<char>) -> Seq<char> {
    s.subrange(inc_open(s) + 1, rfind_delim(s, s.len() as int))
}

/// The two delimiters pair up: `<...>` or `"..."`.
pub open spec fn inc_matched(s: Seq<char>) -> bool {
    (inc_lb(s) == '<' && inc_rb(s) == '>') || (inc_lb(s) == '"' && inc_rb(s) == '"')
}

/// One line read as an inclusion directive.
pub enum IncParse {
    NotInc,
    Angle(String),
    Quoted(String),
    Mismatched,
}

proof fn lemma_inc_kw_parts(s: Seq<char>, i: int, a: Seq<char>, b: Seq<char>)
    requires
        0 <= i,
        a == seq!['#', 'i', 'n'],
        b == seq!['c', 'l', 'u', 'd', 'e'],
    ensures
        has_prefix(s, i, kw_inc()) == (has_prefix(s, i, a) && has_prefix(s, i + 3, b)),
{
    if has_prefix(s, i, kw_inc()) {
        assert(forall|k: int| 0 <= k < 8 ==> s.subrange(i, i + 8)[k] == kw_inc()[k]);
        assert(s.subrange(i, i + 3) =~= a);
        assert(s.subrange(i + 3, i + 8) =~= b);
    }
    if has_prefix(s, i, a) && has_prefix(s, i + 3, b) {
        assert(forall|k: int| 0 <= k < 3 ==> s.subrange(i, i + 3)[k] == a[k]);
        assert(forall|k: int| 0 <= k < 5 ==> s.subrange(i + 3, i + 8)[k] == b[k]);
        assert(s.subrange(i, i + 8) =~= kw_inc());
    }
}

/// Reads one line as an inclusion directive: the keyword, an opening `<`
/// or `"`, and the last closing `>` or `"` of the line. Mismatched
/// delimiters are reported as such; any other shape is not an inclusion
/// line at all.
pub fn parse_inc(line: &str) -> (r: IncParse)
    ensures
        (r is NotInc) == !is_inc_line(line@),
        r matches IncParse::Angle(p) ==> is_inc_line(line@) && inc_lb(line@) == '<' && inc_rb(
            line@,
        ) == '>' && p@ == inc_target(line@),
        r matches IncParse::Quoted(p) ==> is_inc_line(line@) && inc_lb(line@) == '"' && inc_rb(
            line@,
        ) == '"' && p@ == inc_target(line@),
        (r is Mismatched) == (is_inc_line(line@) && !inc_matched(line@)),
        is_inc_line(line@) && inc_lb(line@) == '<' && inc_rb(line@) == '>' ==> r is Angle,
        is_inc_line(line@) && inc_lb(line@) == '"' && inc_rb(line@) == '"' ==> r is Quoted,
{
    proof {
        reveal_strlit("#in");
        reveal_strlit("clude");
        assert(("#in")@ =~= seq!['#', 'i', 'n']);
        assert(("clude")@ =~= seq!['c', 'l', 'u', 'd', 'e']);
    }
    let ghost s = line@;
    let n = line.unicode_len();
    let i = skip_ws_exec(line, 0);
    let head = check_prefix(line, i, "#in") && {
        check_prefix(line, i + 3, "clude")
    };
    proof {
        lemma_inc_kw_parts(s, i as int, ("#in")@, ("clude")@);
    }
    if !head {
        return IncParse::NotInc;
    }
    let d = skip_ws_exec(line, i + 8);
    if d >= n {
        return IncParse::NotInc;
    }
    let lb = line.get_char(d);
    if lb != '<' && lb != '"' {
        return IncParse::NotInc;
    }
    let mut j = n;
    loop
        invariant
            s == line@,
            0 <= j <= n,
            n == s.len(),
            forall|k: int| j <= k < n ==> s[k] != '>' && s[k] != '"',
        ensures
            0 <= j <= n,
            j > 0 ==> s[j - 1] == '>' || s[j - 1] == '"',
            forall|k: int| j <= k < n ==> s[k] != '>' && s[k] != '"',
        decreases j,
    {
        if j == 0 {
            break;
        }
        let c = line.get_char(j - 1);
        if c == '>' || c == '"' {
            break;
        }
        j -= 1;
    }
    proof {
        lemma_rfind_delim_at(s, n as int, j - 1);
    }
    if j == 0 || j - 1 <= d {
        return IncParse::NotInc;
    }
    let e = j - 1;
    let rb = line.get_char(e);
    let p = line.substring_char(d + 1, e).to_owned();
    if lb == '<' && rb == '>' {
        IncParse::Angle(p)
    } else if lb == '"' && rb == '"' {
        IncParse::Quoted(p)
    } else {
        IncParse::Mismatched
    }
}

/// An inclusion line matches no other directive form: the characters
/// after `#` decide the family.
pub proof fn lemma_inc_line_only(l: Seq<char>)
    requires
        is_inc_line(l),
    ensures
        !is_pragma_line(l),
        !is_ifdef_line(l),
        !is_ifraw_line(l),
        !is_else_line(l),
        !is_endif_line(l),
{
    let i = skip_ws(l, 0);
    lemma_prefix_index(l, i, kw_inc(), 1);
    lemma_prefix_index(l, i, kw_inc(), 2);
    if has_prefix(l, i, kw_pragma()) {
        lemma_prefix_index(l, i, kw_pragma(), 1);
    }
    if has_prefix(l, i, kw_ifdef()) {
        lemma_prefix_index(l, i, kw_ifdef(), 2);
    }
    if has_prefix(l, i, kw_ifndef()) {
        lemma_prefix_index(l, i, kw_ifndef(), 2);
    }
    if has_prefix(l, i, kw_if()) {
        lemma_prefix_index(l, i, kw_if(), 2);
    }
    if has_prefix(l, i, kw_else()) {
        lemma_prefix_index(l, i, kw_else(), 1);
    }
    if has_prefix(l, i, kw_endif()) {
        lemma_prefix_index(l, i, kw_endif(), 1);
    }
}

} // verus!
