//! Plain operations on text: ordering, and the file name of a path.
use vstd::prelude::*;
use vstd::string::*;

verus! {

/// Lexicographic order on character sequences (the order of `str`).
pub open spec fn lex_lt(a: Seq<char>, b: Seq<char>) -> bool
    decreases a.len(),
{
    if a.len() == 0 {
        b.len() > 0
    } else if b.len() == 0 {
        false
    } else if a[0] != b[0] {
        a[0] < b[0]
    } else {
        lex_lt(a.drop_first(), b.drop_first())
    }
}

pub proof fn lemma_lex_irreflexive(a: Seq<char>)
    ensures
        !lex_lt(a, a),
    decreases a.len(),
{
    if a.len() > 0 {
        lemma_lex_irreflexive(a.drop_first());
    }
}

pub proof fn lemma_lex_transitive(a: Seq<char>, b: Seq<char>, c: Seq<char>)
    requires
        lex_lt(a, b),
        lex_lt(b, c),
    ensures
        lex_lt(a, c),
    decreases a.len(),
{
    if a.len() > 0 && b.len() > 0 && c.len() > 0 && a[0] == b[0] && b[0] == c[0] {
        lemma_lex_transitive(a.drop_first(), b.drop_first(), c.drop_first());
    }
}

pub proof fn lemma_lex_total(a: Seq<char>, b: Seq<char>)
    ensures
        a == b || lex_lt(a, b) || lex_lt(b, a),
    decreases a.len(),
{
    if a.len() > 0 && b.len() > 0 && a[0] == b[0] {
        lemma_lex_total(a.drop_first(), b.drop_first());
        if a.drop_first() == b.drop_first() {
            assert(a =~= seq![a[0]] + a.drop_first());
            assert(b =~= seq![b[0]] + b.drop_first());
        }
    } else if a.len() == 0 && b.len() == 0 {
        assert(a =~= b);
    }
}

/// Past a common prefix, the order is decided by what follows it.
proof fn lemma_lex_skip_common(a: Seq<char>, b: Seq<char>, i: int)
    requires
        0 <= i <= a.len(),
        i <= b.len(),
        a.take(i) == b.take(i),
    ensures
        lex_lt(a, b) == lex_lt(a.skip(i), b.skip(i)),
    decreases i,
{
    if i > 0 {
        assert(a[0] == a.take(i)[0]);
        assert(b[0] == b.take(i)[0]);
        assert(a.drop_first().take(i - 1) =~= a.take(i).drop_first());
        assert(b.drop_first().take(i - 1) =~= b.take(i).drop_first());
        lemma_lex_skip_common(a.drop_first(), b.drop_first(), i - 1);
        assert(a.drop_first().skip(i - 1) =~= a.skip(i));
        assert(b.drop_first().skip(i - 1) =~= b.skip(i));
    } else {
        assert(a.skip(0) =~= a);
        assert(b.skip(0) =~= b);
    }
}

/// The characters of `s`.
pub fn chars_of(s: &str) -> (r: Vec<char>)
    ensures
        r@ == s@,
{
    let mut out: Vec<char> = Vec::new();
    for ch in it: s.chars()
        invariant
            it.seq() == s@,
            out@ == s@.take(it.index() as int),
    {
        proof {
            assert(s@.take(it.index() + 1) =~= out@.push(ch));
        }
        out.push(ch);
    }
    proof {
        assert(s@.take(s@.len() as int) =~= s@);
    }
    out
}

/// Orders two strings lexicographically.
pub fn compare_text(a: &str, b: &str) -> (r: core::cmp::Ordering)
    ensures
        (r == core::cmp::Ordering::Less) == lex_lt(a@, b@),
        (r == core::cmp::Ordering::Equal) == (a@ == b@),
        (r == core::cmp::Ordering::Greater) == lex_lt(b@, a@),
{
    let ca = chars_of(a);
    let cb = chars_of(b);
    let n = if ca.len() < cb.len() {
        ca.len()
    } else {
        cb.len()
    };
    let mut i: usize = 0;
    while i < n
        invariant
            ca@ == a@,
            cb@ == b@,
            n <= ca.len(),
            n <= cb.len(),
            n == ca.len() || n == cb.len(),
            i <= n,
            a@.take(i as int) == b@.take(i as int),
        decreases n - i,
    {
        if ca[i] != cb[i] {
            proof {
                lemma_lex_skip_common(a@, b@, i as int);
                lemma_lex_skip_common(b@, a@, i as int);
                assert(a@.skip(i as int)[0] == ca@[i as int]);
                assert(b@.skip(i as int)[0] == cb@[i as int]);
            }
            if ca[i] < cb[i] {
                return core::cmp::Ordering::Less;
            } else {
                return core::cmp::Ordering::Greater;
            }
        }
        proof {
            assert(a@.take(i + 1) =~= a@.take(i as int).push(ca@[i as int]));
            assert(b@.take(i + 1) =~= b@.take(i as int).push(cb@[i as int]));
        }
        i = i + 1;
    }
    proof {
        lemma_lex_skip_common(a@, b@, i as int);
        lemma_lex_skip_common(b@, a@, i as int);
        assert(a@.take(a@.len() as int) =~= a@);
        assert(b@.take(b@.len() as int) =~= b@);
    }
    if ca.len() < cb.len() {
        core::cmp::Ordering::Less
    } else if ca.len() > cb.len() {
        core::cmp::Ordering::Greater
    } else {
        proof {
            lemma_lex_irreflexive(a@);
        }
        core::cmp::Ordering::Equal
    }
}

/// Where the last component of `p` starts: just after its last `/`, or 0.
pub open spec fn component_start(p: Seq<char>) -> int
    decreases p.len(),
{
    if p.len() == 0 {
        0
    } else if p.last() == '/' {
        p.len() as int
    } else {
        component_start(p.drop_last())
    }
}

/// The file name of a `/`-separated path: its last component, ignoring
/// trailing separators and `.` components; none when the path ends in `..`
/// or has no component.
pub open spec fn file_name_of(p: Seq<char>) -> Option<Seq<char>>
    decreases p.len() via file_name_of_decreases
{
    if p.len() == 0 {
        None
    } else if p.last() == '/' {
        file_name_of(p.drop_last())
    } else {
        let start = component_start(p);
        let name = p.subrange(start, p.len() as int);
        if name == seq!['.'] {
            file_name_of(p.take(start))
        } else if name == seq!['.', '.'] {
            None
        } else {
            Some(name)
        }
    }
}

#[via_fn]
proof fn file_name_of_decreases(p: Seq<char>) {
    lemma_component_start_bounds(p);
}

proof fn lemma_component_start_bounds(p: Seq<char>)
    ensures
        0 <= component_start(p) <= p.len(),
        p.len() > 0 && p.last() != '/' ==> component_start(p) < p.len(),
    decreases p.len(),
{
    if p.len() > 0 && p.last() != '/' {
        lemma_component_start_bounds(p.drop_last());
    }
}

/// The file name of the path `path`, as `file_name_of` defines it.
pub fn file_name(path: &str) -> (r: Option<&str>)
    ensures
        r matches Some(name) ==> file_name_of(path@) == Some(name@),
        r is None ==> file_name_of(path@) is None,
{
    let cs = chars_of(path);
    let mut end: usize = cs.len();
    proof {
        assert(path@.take(end as int) =~= path@);
    }
    loop
        invariant
            cs@ == path@,
            end <= cs.len(),
            file_name_of(path@) == file_name_of(path@.take(end as int)),
        decreases end,
    {
        if end == 0 {
            return None;
        }
        let ghost p = path@.take(end as int);
        if cs[end - 1] == '/' {
            proof {
                assert(p.drop_last() =~= path@.take(end - 1));
            }
            end = end - 1;
        } else {
            let mut start: usize = end;
            while start > 0 && cs[start - 1] != '/'
                invariant
                    cs@ == path@,
                    start <= end <= cs.len(),
                    p == path@.take(end as int),
                    component_start(p) == component_start(path@.take(start as int)),
                    start < end ==> path@[start as int] != '/',
                decreases start,
            {
                proof {
                    assert(path@.take(start as int).drop_last() =~= path@.take(start - 1));
                }
                start = start - 1;
            }
            proof {
                lemma_component_start_bounds(p);
                if start > 0 {
                    assert(path@.take(start as int).last() == '/');
                } else {
                    assert(path@.take(0) =~= seq![]);
                }
                assert(p.take(start as int) =~= path@.take(start as int));
            }
            let len = end - start;
            if len == 1 && cs[start] == '.' {
                proof {
                    assert(p.subrange(start as int, p.len() as int) =~= seq!['.']);
                }
                end = start;
            } else if len == 2 && cs[start] == '.' && cs[start + 1] == '.' {
                proof {
                    assert(p.subrange(start as int, p.len() as int) =~= seq!['.', '.']);
                }
                return None;
            } else {
                let name = path.substring_char(start, end);
                proof {
                    let sub = p.subrange(start as int, p.len() as int);
                    assert(name@ =~= sub);
                    if len == 1 {
                        assert(sub[0] == cs@[start as int]);
                    }
                    if len == 2 {
                        assert(sub[0] == cs@[start as int]);
                        assert(sub[1] == cs@[start + 1]);
                    }
                }
                return Some(name);
            }
        }
    }
}

} // verus!
