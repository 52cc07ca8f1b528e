//! The pattern that tells a sample name and a mate direction from a file name:
//! a non-empty sample name, a '_' or '-', an optional 'R' or 'r', an optional
//! mate digit '1' or '2', a '.', and one of the extensions seen in the batch.

use vstd::prelude::*;
use crate::ReadDirection;
use crate::chars::{chars_of, range_equals};
use crate::extension::{get_extension, path_extension};

verus! {

/// The character sequences of a sequence of strings.
pub open spec fn string_views(v: Seq<String>) -> Seq<Seq<char>> {
    v.map_values(|s: String| s@)
}

/// The character sequences of a sequence of character vectors.
pub open spec fn char_views(v: Seq<Vec<char>>) -> Seq<Seq<char>> {
    v.map_values(|s: Vec<char>| s@)
}

/// The distinct extensions of `paths`, in the order in which they are first seen.
pub open spec fn extension_list(paths: Seq<Seq<char>>) -> Seq<Seq<char>>
    decreases paths.len(),
{
    if paths.len() == 0 {
        Seq::empty()
    } else {
        let prev = extension_list(paths.drop_last());
        match path_extension(paths.last()) {
            Some(e) => if prev.contains(e) {
                prev
            } else {
                prev.push(e)
            },
            None => prev,
        }
    }
}

/// The distinct extensions of `paths` (see `get_extension`), in the order
/// in which they are first seen; paths without one add nothing.
pub fn distinct_extensions(paths: &[String]) -> (r: Vec<String>)
    ensures
        string_views(r@) == extension_list(string_views(paths@)),
{
    let ghost ps = string_views(paths@);
    let mut r: Vec<String> = Vec::new();
    let mut i: usize = 0;
    while i < paths.len()
        invariant
            i <= paths@.len(),
            ps == string_views(paths@),
            string_views(r@) == extension_list(ps.take(i as int)),
        decreases paths.len() - i,
    {
        assert(ps.take(i + 1).drop_last() =~= ps.take(i as int));
        assert(ps.take(i + 1).last() == paths@[i as int]@);
        match get_extension(&paths[i]) {
            None => {},
            Some(e) => {
                let mut j: usize = 0;
                let mut seen = false;
                while j < r.len()
                    invariant
                        j <= r@.len(),
                        seen == exists|k: int| 0 <= k < j && r@[k]@ == e@,
                    decreases r.len() - j,
                {
                    if r[j] == e {
                        seen = true;
                    }
                    j = j + 1;
                }
                assert(seen == string_views(r@).contains(e@)) by {
                    if seen {
                        let k = choose|k: int| 0 <= k < j && r@[k]@ == e@;
                        assert(string_views(r@)[k] == e@);
                    }
                    if string_views(r@).contains(e@) {
                        let k = choose|k: int|
                            0 <= k < string_views(r@).len() && string_views(r@)[k] == e@;
                        assert(r@[k]@ == e@);
                    }
                }
                if !seen {
                    let ghost before = r@;
                    r.push(e);
                    assert(string_views(r@) =~= string_views(before).push(e@));
                }
            },
        }
        i = i + 1;
    }
    assert(ps.take(i as int) =~= ps);
    r
}

/// Whether `c` may stand between a sample name and the rest of a mate file name.
pub open spec fn is_separator(c: char) -> bool {
    c == '_' || c == '-'
}

/// How many characters an optional 'R' or 'r' takes at the start of `r`.
pub open spec fn marker_len(r: Seq<char>) -> int {
    if r.len() > 0 && (r[0] == 'R' || r[0] == 'r') {
        1
    } else {
        0
    }
}

/// How many characters an optional mate digit takes after the marker in `r`.
pub open spec fn digit_len(r: Seq<char>) -> int {
    let k = marker_len(r);
    if r.len() > k && (r[k] == '1' || r[k] == '2') {
        1
    } else {
        0
    }
}

/// Whether `t` is one of `exts`; with no extensions at all, only the empty text is.
pub open spec fn extension_alternative(t: Seq<char>, exts: Seq<Seq<char>>) -> bool {
    if exts.len() == 0 {
        t.len() == 0
    } else {
        exts.contains(t)
    }
}

/// Whether `r` is an optional 'R' or 'r', an optional '1' or '2', a '.', and one of `exts`.
pub open spec fn mate_suffix(r: Seq<char>, exts: Seq<Seq<char>>) -> bool {
    let k = marker_len(r) + digit_len(r);
    r.len() > k && r[k] == '.' && extension_alternative(r.subrange(k + 1, r.len() as int), exts)
}

/// Whether position `i` of the name `b` holds a separator that the mate suffix follows.
pub open spec fn separator_at(b: Seq<char>, exts: Seq<Seq<char>>, i: int) -> bool {
    0 <= i < b.len() && is_separator(b[i]) && mate_suffix(b.subrange(i + 1, b.len() as int), exts)
}

/// Whether `b` holds no line break from `s` up to `i`.
pub open spec fn line_free(b: Seq<char>, s: int, i: int) -> bool {
    forall|k: int| s <= k < i ==> b[k] != '\n'
}

/// Whether the sample name may run from `s` up to the separator at `i`.
pub open spec fn candidate(b: Seq<char>, exts: Seq<Seq<char>>, s: int, i: int) -> bool {
    0 <= s < i && line_free(b, s, i) && separator_at(b, exts, i)
}

/// The match that is taken: the earliest start, and from it the latest separator.
pub open spec fn best_candidate(b: Seq<char>, exts: Seq<Seq<char>>, s: int, i: int) -> bool {
    &&& candidate(b, exts, s, i)
    &&& forall|s2: int, i2: int|
        #[trigger] candidate(b, exts, s2, i2) ==> s <= s2 && (s2 == s ==> i2 <= i)
}

/// Where the sample name of `b` runs, from its start up to the separator, if `b` matches.
pub open spec fn name_match(b: Seq<char>, exts: Seq<Seq<char>>) -> Option<(int, int)> {
    if exists|s: int, i: int| best_candidate(b, exts, s, i) {
        let (s, i) = choose|s: int, i: int| best_candidate(b, exts, s, i);
        Some((s, i))
    } else {
        None
    }
}

/// The direction of a name whose separator stands at `i`: forward for the
/// digit '1', reverse for '2' or for no digit.
pub open spec fn mate_direction(b: Seq<char>, i: int) -> ReadDirection {
    let r = b.subrange(i + 1, b.len() as int);
    if digit_len(r) == 1 && r[marker_len(r)] == '1' {
        ReadDirection::Forward
    } else {
        ReadDirection::Reverse
    }
}

/// The characters of each string of `v`.
pub fn char_vectors(v: &Vec<String>) -> (r: Vec<Vec<char>>)
    ensures
        char_views(r@) == string_views(v@),
{
    let mut r: Vec<Vec<char>> = Vec::new();
    let mut i: usize = 0;
    while i < v.len()
        invariant
            i <= v@.len(),
            char_views(r@) == string_views(v@).take(i as int),
        decreases v.len() - i,
    {
        let ghost before = r@;
        r.push(chars_of(v[i].as_str()));
        assert(char_views(r@) =~= char_views(before).push(v@[i as int]@));
        assert(string_views(v@).take(i + 1) =~= string_views(v@).take(i as int).push(v@[i as int]@));
        i = i + 1;
    }
    assert(string_views(v@).take(i as int) =~= string_views(v@));
    r
}

fn extension_alternative_range(c: &Vec<char>, a: usize, b: usize, exts: &Vec<Vec<char>>) -> (r:
    bool)
    requires
        a <= b <= c@.len(),
    ensures
        r == extension_alternative(c@.subrange(a as int, b as int), char_views(exts@)),
{
    if exts.len() == 0 {
        return a == b;
    }
    let ghost t = c@.subrange(a as int, b as int);
    let mut j: usize = 0;
    while j < exts.len()
        invariant
            a <= b <= c@.len(),
            t == c@.subrange(a as int, b as int),
            j <= exts@.len(),
            forall|k: int| 0 <= k < j ==> exts@[k]@ != t,
        decreases exts.len() - j,
    {
        if range_equals(c, a, b, &exts[j]) {
            assert(char_views(exts@)[j as int] == t);
            return true;
        }
        j = j + 1;
    }
    assert(!char_views(exts@).contains(t)) by {
        if char_views(exts@).contains(t) {
            let k = choose|k: int|
                0 <= k < char_views(exts@).len() && char_views(exts@)[k] == t;
            assert(exts@[k]@ == t);
        }
    }
    false
}

fn separator_at_exec(c: &Vec<char>, exts: &Vec<Vec<char>>, i: usize) -> (r: bool)
    requires
        i < c@.len(),
    ensures
        r == separator_at(c@, char_views(exts@), i as int),
{
    let n = c.len();
    if !(c[i] == '_' || c[i] == '-') {
        return false;
    }
    let ghost r = c@.subrange(i + 1, n as int);
    let mut k: usize = i + 1;
    if k < n && (c[k] == 'R' || c[k] == 'r') {
        k = k + 1;
    }
    assert(k - (i + 1) == marker_len(r));
    if k < n && (c[k] == '1' || c[k] == '2') {
        k = k + 1;
    }
    assert(k - (i + 1) == marker_len(r) + digit_len(r));
    if k < n && c[k] == '.' {
        let ok = extension_alternative_range(c, k + 1, n, exts);
        assert(r.subrange(k - i, r.len() as int) =~= c@.subrange(k + 1, n as int));
        ok
    } else {
        false
    }
}

fn line_free_exec(c: &Vec<char>, s: usize, i: usize) -> (r: bool)
    requires
        s <= i <= c@.len(),
    ensures
        r == line_free(c@, s as int, i as int),
{
    let mut k: usize = s;
    while k < i
        invariant
            s <= k <= i <= c@.len(),
            line_free(c@, s as int, k as int),
        decreases i - k,
    {
        if c[k] == '\n' {
            return false;
        }
        k = k + 1;
    }
    true
}

/// Where the sample name of the file name `c` runs, from its start up to the
/// separator, under the extensions `exts`; none when `c` does not match.
pub fn match_mate_name(c: &Vec<char>, exts: &Vec<Vec<char>>) -> (r: Option<(usize, usize)>)
    ensures
        match r {
            Some((s, i)) => s < i < c@.len() && name_match(c@, char_views(exts@)) == Some(
                (s as int, i as int),
            ),
            None => name_match(c@, char_views(exts@)) is None,
        },
{
    let ghost es = char_views(exts@);
    let n = c.len();
    let mut s: usize = 0;
    while s < n
        invariant
            s <= n == c@.len(),
            es == char_views(exts@),
            forall|s2: int, i2: int| 0 <= s2 < s ==> !candidate(c@, es, s2, i2),
        decreases n - s,
    {
        let mut i: usize = n;
        while i > s + 1
            invariant
                s < n == c@.len(),
                s + 1 <= i <= n,
                es == char_views(exts@),
                forall|s2: int, i2: int| 0 <= s2 < s ==> !candidate(c@, es, s2, i2),
                forall|i2: int| i2 >= i ==> !candidate(c@, es, s as int, i2),
            decreases i,
        {
            i = i - 1;
            if line_free_exec(c, s, i) && separator_at_exec(c, exts, i) {
                assert forall|s2: int, i2: int| #[trigger]
                    candidate(c@, es, s2, i2) implies s <= s2 && (s2 == s ==> i2 <= i) by {
                    if s2 < s {
                    }
                    if s2 == s && i2 > i {
                        assert(i2 >= i + 1);
                    }
                }
                assert(best_candidate(c@, es, s as int, i as int));
                let ghost pick = choose|s2: int, i2: int| best_candidate(c@, es, s2, i2);
                assert(pick == (s as int, i as int)) by {
                    assert(candidate(c@, es, pick.0, pick.1));
                    assert(candidate(c@, es, s as int, i as int));
                }
                return Some((s, i));
            }
        }
        assert forall|i2: int| !candidate(c@, es, s as int, i2) by {
            if i2 <= s {
            }
        }
        s = s + 1;
    }
    assert forall|s2: int, i2: int| !best_candidate(c@, es, s2, i2) by {
        if s2 >= n {
            if candidate(c@, es, s2, i2) {
                assert(separator_at(c@, es, i2));
            }
        }
    }
    None
}

} // verus!
