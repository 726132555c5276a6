use vstd::prelude::*;

verus! {

/// The white-space characters of the directive grammar and of the line
/// trimmer: the Unicode `White_Space` set, compared by scalar value.
pub open spec fn is_space_char(c: char) -> bool {
    let u = c as u32;
    u == 0x20 || (0x9 <= u && u <= 0xD) || u == 0x85 || u == 0xA0 || u == 0x1680 || (0x2000 <= u
        && u <= 0x200A) || u == 0x2028 || u == 0x2029 || u == 0x202F || u == 0x205F || u == 0x3000
}

pub fn is_space(c: char) -> (r: bool)
    ensures
        r == is_space_char(c),
{
    let u = c as u32;
    u == 0x20 || (0x9 <= u && u <= 0xD) || u == 0x85 || u == 0xA0 || u == 0x1680 || (0x2000 <= u
        && u <= 0x200A) || u == 0x2028 || u == 0x2029 || u == 0x202F || u == 0x205F || u == 0x3000
}

/// Character-by-character string equality.
pub fn str_eq(a: &str, b: &str) -> (r: bool)
    ensures
        r == (a@ == b@),
{
    let na = a.unicode_len();
    let nb = b.unicode_len();
    if na != nb {
        proof {
            assert(a@ != b@) by {
                if a@ == b@ {
                    assert(a@.len() == b@.len());
                }
            }
        }
        return false;
    }
    let mut i: usize = 0;
    while i < na
        invariant
            0 <= i <= na,
            na == a@.len(),
            na == b@.len(),
            forall|j: int| 0 <= j < i ==> a@[j] == b@[j],
        decreases na - i,
    {
        if a.get_char(i) != b.get_char(i) {
            return false;
        }
        i += 1;
    }
    proof {
        assert(a@ =~= b@);
    }
    true
}

/// Number of characters that remain when trailing white space is removed.
pub open spec fn trimmed_len(s: Seq<char>) -> int
    decreases s.len(),
{
    if s.len() <= 0 {
        0
    } else if is_space_char(s[s.len() - 1]) {
        trimmed_len(s.drop_last())
    } else {
        s.len() as int
    }
}

pub proof fn lemma_trimmed_len_bounds(s: Seq<char>)
    ensures
        0 <= trimmed_len(s) <= s.len(),
    decreases s.len(),
{
    if s.len() > 0 && is_space_char(s[s.len() - 1]) {
        lemma_trimmed_len_bounds(s.drop_last());
    }
}

/// A line as it is stored: with its trailing white space removed.
pub open spec fn trim_end_spec(s: Seq<char>) -> Seq<char> {
    s.take(trimmed_len(s))
}

pub fn trim_end(s: &str) -> (r: String)
    ensures
        r@ == trim_end_spec(s@),
{
    let n = s.unicode_len();
    proof {
        lemma_trimmed_len_bounds(s@);
        assert(s@.take(n as int) =~= s@);
    }
    let mut k = n;
    while k > 0 && is_space(s.get_char(k - 1))
        invariant
            0 <= k <= n,
            n == s@.len(),
            trimmed_len(s@) == trimmed_len(s@.take(k as int)),
        decreases k,
    {
        proof {
            assert(s@.take(k as int).drop_last() =~= s@.take(k - 1));
        }
        k -= 1;
    }
    proof {
        if k == 0 {
            assert(trimmed_len(s@.take(0)) == 0);
        } else {
            assert(!is_space_char(s@.take(k as int)[k - 1]));
            assert(trimmed_len(s@.take(k as int)) == k);
        }
        assert(s@.subrange(0, k as int) =~= s@.take(trimmed_len(s@)));
    }
    let piece = s.substring_char(0, k);
    piece.to_owned()
}

/// First position at or after `i` that holds a line feed; the length when
/// there is none.
pub open spec fn find_nl(s: Seq<char>, i: int) -> int
    decreases s.len() - i,
{
    if i < 0 || i >= s.len() {
        s.len() as int
    } else if s[i] == '\n' {
        i
    } else {
        find_nl(s, i + 1)
    }
}

pub proof fn lemma_find_nl(s: Seq<char>, i: int)
    requires
        0 <= i <= s.len(),
    ensures
        i <= find_nl(s, i) <= s.len(),
        find_nl(s, i) < s.len() ==> s[find_nl(s, i)] == '\n',
        forall|j: int| i <= j < find_nl(s, i) ==> s[j] != '\n',
    decreases s.len() - i,
{
    if i < s.len() && s[i] != '\n' {
        lemma_find_nl(s, i + 1);
    }
}

pub proof fn lemma_find_nl_at(s: Seq<char>, i: int, p: int)
    requires
        0 <= i <= p <= s.len(),
        p < s.len() ==> s[p] == '\n',
        p == s.len() || s[p] == '\n',
        forall|j: int| i <= j < p ==> s[j] != '\n',
    ensures
        find_nl(s, i) == if p < s.len() {
            p
        } else {
            s.len() as int
        },
    decreases s.len() - i,
{
    if i < s.len() && s[i] != '\n' {
        lemma_find_nl_at(s, i + 1, p);
    }
}

/// A carriage return just before the line feed belongs to the line break.
pub open spec fn strip_cr(p: Seq<char>) -> Seq<char> {
    if p.len() > 0 && p[p.len() - 1] == '\r' {
        p.drop_last()
    } else {
        p
    }
}

/// The physical lines of a text: split at each line feed, a carriage
/// return before the line feed dropped, and no empty line after a final
/// line feed.
pub open spec fn split_lines_spec(s: Seq<char>) -> Seq<Seq<char>>
    decreases s.len(),
{
    if s.len() == 0 {
        Seq::empty()
    } else {
        let j = find_nl(s, 0);
        proof {
            lemma_find_nl(s, 0);
        }
        if j >= s.len() {
            seq![s]
        } else {
            seq![strip_cr(s.take(j))] + split_lines_spec(s.skip(j + 1))
        }
    }
}

pub fn split_lines(s: &str) -> (r: Vec<String>)
    ensures
        r.deep_view() == split_lines_spec(s@),
{
    let n = s.unicode_len();
    let mut out: Vec<String> = Vec::new();
    let mut start: usize = 0;
    let mut i: usize = 0;
    proof {
        assert(s@.skip(0) =~= s@);
        assert(out.deep_view() =~= Seq::<Seq<char>>::empty());
    }
    while i < n
        invariant
            0 <= start <= i <= n,
            n == s@.len(),
            forall|j: int| start <= j < i ==> s@[j] != '\n',
            split_lines_spec(s@) == out.deep_view() + split_lines_spec(s@.skip(start as int)),
        decreases n - i,
    {
        let c = s.get_char(i);
        if c == '\n' {
            let end = if i > start && s.get_char(i - 1) == '\r' {
                i - 1
            } else {
                i
            };
            let piece = s.substring_char(start, end).to_owned();
            proof {
                let rest = s@.skip(start as int);
                assert(forall|j: int|
                    0 <= j < rest.len() ==> rest[j] == s@[start + j]);
                lemma_find_nl_at(rest, 0, i - start);
                assert(find_nl(rest, 0) == i - start);
                assert(rest.take(i - start) =~= s@.subrange(start as int, i as int));
                assert(strip_cr(rest.take(i - start)) =~= s@.subrange(start as int, end as int));
                assert(rest.skip(i - start + 1) =~= s@.skip(i + 1));
            }
            out.push(piece);
            proof {
                let rest = s@.skip(start as int);
                assert(out.deep_view() =~= out.deep_view().take(out.deep_view().len() - 1)
                    + seq![s@.subrange(start as int, end as int)]);
                assert(split_lines_spec(rest) == seq![strip_cr(rest.take(i - start))]
                    + split_lines_spec(s@.skip(i + 1)));
                assert(out.deep_view() + split_lines_spec(s@.skip(i + 1)) =~= split_lines_spec(
                    s@,
                ));
            }
            start = i + 1;
        }
        i += 1;
    }
    if start < n {
        let piece = s.substring_char(start, n).to_owned();
        proof {
            let rest = s@.skip(start as int);
            assert(forall|j: int| 0 <= j < rest.len() ==> rest[j] == s@[start + j]);
            lemma_find_nl_at(rest, 0, rest.len() as int);
            assert(rest =~= s@.subrange(start as int, n as int));
        }
        out.push(piece);
        proof {
            let rest = s@.skip(start as int);
            assert(split_lines_spec(rest) == seq![rest]);
            assert(out.deep_view() =~= out.deep_view().take(out.deep_view().len() - 1)
                + seq![rest]);
            assert(out.deep_view() =~= split_lines_spec(s@));
        }
    } else {
        proof {
            assert(s@.skip(start as int).len() == 0);
            assert(split_lines_spec(s@.skip(start as int)) =~= Seq::<Seq<char>>::empty());
            assert(out.deep_view() =~= split_lines_spec(s@));
        }
    }
    out
}

/// Largest position before `j` that holds a slash; `-1` when there is none.
pub open spec fn rfind_slash(s: Seq<char>, j: int) -> int
    decreases j,
{
    if j <= 0 {
        -1
    } else if s[j - 1] == '/' {
        j - 1
    } else {
        rfind_slash(s, j - 1)
    }
}

pub proof fn lemma_rfind_slash(s: Seq<char>, j: int)
    requires
        0 <= j <= s.len(),
    ensures
        -1 <= rfind_slash(s, j) < j,
        rfind_slash(s, j) >= 0 ==> s[rfind_slash(s, j)] == '/',
        forall|k: int| rfind_slash(s, j) < k < j ==> s[k] != '/',
    decreases j,
{
    if j > 0 && s[j - 1] != '/' {
        lemma_rfind_slash(s, j - 1);
    }
}

/// The directory part of a path, in this library's own convention: paths
/// are plain strings whose components are joined by `/`. The empty path
/// and the root `/` have no directory; a name without a slash lies in the
/// empty directory.
pub open spec fn parent_dir_spec(s: Seq<char>) -> Option<Seq<char>> {
    if s.len() == 0 {
        None
    } else {
        let k = rfind_slash(s, s.len() as int);
        if k == -1 {
            Some(Seq::empty())
        } else if k == 0 {
            if s.len() == 1 {
                None
            } else {
                Some(seq!['/'])
            }
        } else {
            Some(s.take(k))
        }
    }
}

pub fn parent_dir(s: &str) -> (r: Option<String>)
    ensures
        r matches Some(p) ==> parent_dir_spec(s@) == Some(p@),
        r is None ==> parent_dir_spec(s@) is None,
{
    let n = s.unicode_len();
    if n == 0 {
        return None;
    }
    let mut j = n;
    while j > 0 && s.get_char(j - 1) != '/'
        invariant
            0 <= j <= n,
            n == s@.len(),
            forall|k: int| j <= k < n ==> s@[k] != '/',
        decreases j,
    {
        j -= 1;
    }
    proof {
        lemma_rfind_slash(s@, n as int);
        if j == 0 {
            assert(rfind_slash(s@, n as int) == -1) by {
                if rfind_slash(s@, n as int) >= 0 {
                    assert(s@[rfind_slash(s@, n as int)] == '/');
                }
            }
        } else {
            assert(s@[j - 1] == '/');
            assert(rfind_slash(s@, n as int) == j - 1) by {
                lemma_rfind_slash_at(s@, n as int, j - 1);
            }
        }
    }
    if j == 0 {
        let e = s.substring_char(0, 0);
        proof {
            assert(e@ =~= Seq::<char>::empty());
        }
        Some(e.to_owned())
    } else if j == 1 {
        if n == 1 {
            None
        } else {
            let p = s.substring_char(0, 1);
            proof {
                assert(p@ =~= seq!['/']);
            }
            Some(p.to_owned())
        }
    } else {
        let p = s.substring_char(0, j - 1);
        proof {
            assert(p@ =~= s@.take(j - 1));
        }
        Some(p.to_owned())
    }
}

pub proof fn lemma_rfind_slash_at(s: Seq<char>, j: int, p: int)
    requires
        0 <= p < j <= s.len(),
        s[p] == '/',
        forall|k: int| p < k < j ==> s[k] != '/',
    ensures
        rfind_slash(s, j) == p,
    decreases j,
{
    if j - 1 > p {
        lemma_rfind_slash_at(s, j - 1, p);
    }
}

/// Joining a directory and a name, in this library's own convention: an
/// absolute name stands alone; otherwise the two are glued with a single
/// slash.
pub open spec fn join_spec(dir: Seq<char>, name: Seq<char>) -> Seq<char> {
    if name.len() > 0 && name[0] == '/' {
        name
    } else if dir.len() == 0 {
        name
    } else if dir[dir.len() - 1] == '/' {
        dir + name
    } else {
        dir + seq!['/'] + name
    }
}

pub fn join_path(dir: &str, name: &str) -> (r: String)
    ensures
        r@ == join_spec(dir@, name@),
{
    let nn = name.unicode_len();
    if nn > 0 && name.get_char(0) == '/' {
        return name.to_owned();
    }
    let nd = dir.unicode_len();
    if nd == 0 {
        return name.to_owned();
    }
    let mut r = dir.to_owned();
    if dir.get_char(nd - 1) == '/' {
        r.append(name);
        proof {
            assert(r@ =~= join_spec(dir@, name@));
        }
        r
    } else {
        r.append("/");
        r.append(name);
        proof {
            reveal_strlit("/");
            assert(("/")@ =~= seq!['/']);
            assert(r@ =~= join_spec(dir@, name@));
        }
        r
    }
}

} // verus!
