//! Line normalization: replacing line-break markup tags by a space and
//! trimming surrounding whitespace.

use vstd::prelude::*;

verus! {

/// A whitespace character (the Unicode `White_Space` set, which is what
/// both `str::trim` and a pattern engine's whitespace class recognize).
pub open spec fn is_space(c: char) -> bool {
    ||| c == ' '
    ||| c == '\t'
    ||| c == '\n'
    ||| c == '\u{b}'
    ||| c == '\u{c}'
    ||| c == '\r'
    ||| c == '\u{85}'
    ||| c == '\u{a0}'
    ||| c == '\u{1680}'
    ||| c == '\u{2000}'
    ||| c == '\u{2001}'
    ||| c == '\u{2002}'
    ||| c == '\u{2003}'
    ||| c == '\u{2004}'
    ||| c == '\u{2005}'
    ||| c == '\u{2006}'
    ||| c == '\u{2007}'
    ||| c == '\u{2008}'
    ||| c == '\u{2009}'
    ||| c == '\u{200a}'
    ||| c == '\u{2028}'
    ||| c == '\u{2029}'
    ||| c == '\u{202f}'
    ||| c == '\u{205f}'
    ||| c == '\u{3000}'
}

fn is_space_char(c: char) -> (r: bool)
    ensures
        r == is_space(c),
{
    c == ' ' || c == '\t' || c == '\n' || c == '\u{b}' || c == '\u{c}' || c == '\r'
        || c == '\u{85}' || c == '\u{a0}' || c == '\u{1680}' || c == '\u{2000}' || c == '\u{2001}'
        || c == '\u{2002}' || c == '\u{2003}' || c == '\u{2004}' || c == '\u{2005}'
        || c == '\u{2006}' || c == '\u{2007}' || c == '\u{2008}' || c == '\u{2009}'
        || c == '\u{200a}' || c == '\u{2028}' || c == '\u{2029}' || c == '\u{202f}'
        || c == '\u{205f}' || c == '\u{3000}'
}

/// First index at or after `i` holding a non-whitespace character
/// (or the length of `s` if whitespace runs to the end).
pub open spec fn space_run_end(s: Seq<char>, i: int) -> int
    decreases s.len() - i,
{
    if i < s.len() && is_space(s[i]) {
        space_run_end(s, i + 1)
    } else {
        i
    }
}

pub proof fn lemma_space_run_end(s: Seq<char>, i: int)
    requires
        0 <= i <= s.len(),
    ensures
        i <= space_run_end(s, i) <= s.len(),
        space_run_end(s, i) < s.len() ==> !is_space(s[space_run_end(s, i)]),
        forall|j: int| i <= j < space_run_end(s, i) ==> is_space(#[trigger] s[j]),
    decreases s.len() - i,
{
    if i < s.len() && is_space(s[i]) {
        lemma_space_run_end(s, i + 1);
    }
}

/// Start of the maximal whitespace run ending just before index `j`
/// (so `s[result .. j]` is all whitespace and either `result == 0` or
/// `s[result - 1]` is not whitespace).
pub open spec fn end_run_start(s: Seq<char>, j: int) -> int
    decreases j,
{
    if 0 < j <= s.len() && is_space(s[j - 1]) {
        end_run_start(s, j - 1)
    } else {
        j
    }
}

pub proof fn lemma_end_run_start(s: Seq<char>, j: int)
    requires
        0 <= j <= s.len(),
    ensures
        0 <= end_run_start(s, j) <= j,
        end_run_start(s, j) > 0 ==> !is_space(s[end_run_start(s, j) - 1]),
        forall|i: int| end_run_start(s, j) <= i < j ==> is_space(#[trigger] s[i]),
    decreases j,
{
    if 0 < j && is_space(s[j - 1]) {
        lemma_end_run_start(s, j - 1);
    }
}

/// End (exclusive) of a line-break markup tag starting at index `i`:
/// `<br`, then any run of whitespace, then an optional `/`, then `>`.
/// Returns `-1` when no such tag starts at `i`.
pub open spec fn tag_end(s: Seq<char>, i: int) -> int {
    if 0 <= i && i + 3 <= s.len() && s[i] == '<' && s[i + 1] == 'b' && s[i + 2] == 'r' {
        let j = space_run_end(s, i + 3);
        if j < s.len() && s[j] == '>' {
            j + 1
        } else if j + 1 < s.len() && s[j] == '/' && s[j + 1] == '>' {
            j + 2
        } else {
            -1
        }
    } else {
        -1
    }
}

pub proof fn lemma_tag_end_bounds(s: Seq<char>, i: int)
    ensures
        tag_end(s, i) >= 0 ==> i + 4 <= tag_end(s, i) <= s.len(),
{
    if 0 <= i && i + 3 <= s.len() && s[i] == '<' && s[i + 1] == 'b' && s[i + 2] == 'r' {
        lemma_space_run_end(s, i + 3);
    }
}

/// The line with every line-break tag at or after index `i` replaced by
/// a single space, scanning left to right past each replaced tag.
pub open spec fn replace_breaks(s: Seq<char>, i: int) -> Seq<char>
    decreases s.len() - i,
    via replace_breaks_decreases
{
    if i < 0 || i >= s.len() {
        Seq::empty()
    } else if tag_end(s, i) >= 0 {
        seq![' '] + replace_breaks(s, tag_end(s, i))
    } else {
        seq![s[i]] + replace_breaks(s, i + 1)
    }
}

#[via_fn]
proof fn replace_breaks_decreases(s: Seq<char>, i: int) {
    lemma_tag_end_bounds(s, i);
}

/// The line with leading and trailing whitespace removed.
pub open spec fn trim_spaces(s: Seq<char>) -> Seq<char> {
    let a = space_run_end(s, 0);
    let b = end_run_start(s, s.len() as int);
    if a < b {
        s.subrange(a, b)
    } else {
        Seq::empty()
    }
}

/// A fully normalized line: every line-break tag replaced by a space,
/// then trimmed.
pub open spec fn normalize(s: Seq<char>) -> Seq<char> {
    trim_spaces(replace_breaks(s, 0))
}

/// No line-break tag occurs anywhere in `s`.
pub open spec fn break_free(s: Seq<char>) -> bool {
    forall|i: int| 0 <= i < s.len() ==> tag_end(s, i) < 0
}

pub proof fn lemma_replace_break_free(s: Seq<char>, i: int)
    requires
        break_free(s),
        0 <= i <= s.len(),
    ensures
        replace_breaks(s, i) == s.subrange(i, s.len() as int),
    decreases s.len() - i,
{
    if i < s.len() {
        lemma_replace_break_free(s, i + 1);
        assert(replace_breaks(s, i) =~= s.subrange(i, s.len() as int));
    } else {
        assert(replace_breaks(s, i) =~= s.subrange(i, s.len() as int));
    }
}

/// Trimming a line that already has no surrounding whitespace keeps it
/// unchanged.
pub proof fn lemma_trim_of_trimmed(s: Seq<char>)
    requires
        s.len() == 0 || (!is_space(s[0]) && !is_space(s[s.len() - 1])),
    ensures
        trim_spaces(s) == s,
{
    if s.len() == 0 {
        assert(trim_spaces(s) =~= s);
    } else {
        assert(space_run_end(s, 0) == 0);
        assert(end_run_start(s, s.len() as int) == s.len() as int);
        assert(trim_spaces(s) =~= s);
    }
}

/// The result of trimming has no surrounding whitespace.
pub proof fn lemma_trim_spaces_trimmed(s: Seq<char>)
    ensures
        trim_spaces(s).len() == 0 || (!is_space(trim_spaces(s)[0]) && !is_space(
            trim_spaces(s)[trim_spaces(s).len() - 1],
        )),
{
    lemma_space_run_end(s, 0);
    lemma_end_run_start(s, s.len() as int);
}

/// Law: normalization is idempotent. Replacing a tag can splice the
/// line's remaining characters into a fresh tag, so the law holds of
/// every line whose normalized form is free of break tags; the
/// hypothesis excludes exactly the lines where a fresh tag appears.
pub proof fn lemma_normalize_idempotent(s: Seq<char>)
    requires
        break_free(normalize(s)),
    ensures
        normalize(normalize(s)) == normalize(s),
{
    let t = normalize(s);
    lemma_replace_break_free(t, 0);
    assert(replace_breaks(t, 0) =~= t);
    lemma_trim_spaces_trimmed(replace_breaks(s, 0));
    lemma_trim_of_trimmed(t);
}

/// Finds the end of a line-break tag starting at character `i`, if one
/// starts there.
fn tag_end_at(s: &str, i: usize, n: usize) -> (r: Option<usize>)
    requires
        n == s@.len(),
        i < n,
    ensures
        match r {
            Some(e) => tag_end(s@, i as int) == e as int,
            None => tag_end(s@, i as int) < 0,
        },
{
    if n - i < 3 {
        return None;
    }
    if s.get_char(i) != '<' || s.get_char(i + 1) != 'b' || s.get_char(i + 2) != 'r' {
        return None;
    }
    let mut j = i + 3;
    while j < n && is_space_char(s.get_char(j))
        invariant
            n == s@.len(),
            i + 3 <= j <= n,
            space_run_end(s@, i + 3) == space_run_end(s@, j as int),
        decreases n - j,
    {
        proof {
            assert(space_run_end(s@, j as int) == space_run_end(s@, j + 1));
        }
        j += 1;
    }
    proof {
        assert(space_run_end(s@, j as int) == j as int);
    }
    if j < n && s.get_char(j) == '>' {
        Some(j + 1)
    } else if n - j >= 2 && s.get_char(j) == '/' && s.get_char(j + 1) == '>' {
        Some(j + 2)
    } else {
        None
    }
}

/// Replaces every line-break tag in `s` by a single space.
fn replace_breaks_str(s: &str) -> (r: String)
    ensures
        r@ == replace_breaks(s@, 0),
{
    let n = s.unicode_len();
    let mut out = String::new();
    let mut i: usize = 0;
    while i < n
        invariant
            n == s@.len(),
            i <= n,
            out@ + replace_breaks(s@, i as int) == replace_breaks(s@, 0),
        decreases n - i,
    {
        match tag_end_at(s, i, n) {
            Some(e) => {
                proof {
                    lemma_tag_end_bounds(s@, i as int);
                    reveal_strlit(" ");
                    assert(replace_breaks(s@, i as int) == seq![' '] + replace_breaks(
                        s@,
                        e as int,
                    ));
                }
                let ghost prev = out@;
                out.append(" ");
                proof {
                    assert(out@ + replace_breaks(s@, e as int) =~= prev + replace_breaks(
                        s@,
                        i as int,
                    ));
                }
                i = e;
            },
            None => {
                let part = s.substring_char(i, i + 1);
                let ghost prev = out@;
                out.append(part);
                proof {
                    assert(part@ =~= seq![s@[i as int]]);
                    assert(out@ + replace_breaks(s@, i + 1) =~= prev + replace_breaks(
                        s@,
                        i as int,
                    ));
                }
                i += 1;
            },
        }
    }
    proof {
        assert(replace_breaks(s@, n as int) =~= Seq::<char>::empty());
        assert(out@ =~= replace_breaks(s@, 0));
    }
    out
}

/// Removes leading and trailing whitespace.
pub(crate) fn trim_str(s: &str) -> (r: String)
    ensures
        r@ == trim_spaces(s@),
{
    let n = s.unicode_len();
    let mut a: usize = 0;
    while a < n && is_space_char(s.get_char(a))
        invariant
            n == s@.len(),
            a <= n,
            space_run_end(s@, 0) == space_run_end(s@, a as int),
        decreases n - a,
    {
        proof {
            assert(space_run_end(s@, a as int) == space_run_end(s@, a + 1));
        }
        a += 1;
    }
    proof {
        assert(space_run_end(s@, a as int) == a as int);
    }
    if a == n {
        proof {
            lemma_end_run_start(s@, n as int);
            assert(trim_spaces(s@) =~= Seq::<char>::empty());
        }
        return String::new();
    }
    let mut b: usize = n;
    while b > a && is_space_char(s.get_char(b - 1))
        invariant
            n == s@.len(),
            a < n,
            !is_space(s@[a as int]),
            a < b <= n,
            end_run_start(s@, n as int) == end_run_start(s@, b as int),
        decreases b,
    {
        proof {
            assert(b - 1 > a) by {
                assert(is_space(s@[b - 1]));
            }
            assert(end_run_start(s@, b as int) == end_run_start(s@, b - 1));
        }
        b -= 1;
    }
    proof {
        assert(end_run_start(s@, b as int) == b as int);
    }
    let part = s.substring_char(a, b);
    String::from_str(part)
}

/// Normalizes one raw line: every line-break markup tag becomes a single
/// space, and surrounding whitespace is removed. Pure; never fails; a
/// whitespace-only line yields the empty string.
pub fn clean_text(text: &str) -> (r: String)
    ensures
        r@ == normalize(text@),
{
    let replaced = replace_breaks_str(text);
    trim_str(replaced.as_str())
}

} // verus!
