//! The extension of a file name: the last dot-free run, with a trailing ".gz" kept.

use vstd::prelude::*;
use crate::chars::{chars_of, copy_range, substring};
use crate::path_name::{base_name, base_name_range};

verus! {

/// Whether `t` holds no '.'.
pub open spec fn dot_free(t: Seq<char>) -> bool {
    forall|k: int| 0 <= k < t.len() ==> t[k] != '.'
}

/// Whether `t` can follow an extension dot: a non-empty dot-free run,
/// optionally followed by ".gz".
pub open spec fn extension_text(t: Seq<char>) -> bool {
    ||| (t.len() > 0 && dot_free(t))
    ||| (t.len() > 3 && t[t.len() - 3] == '.' && t[t.len() - 2] == 'g' && t[t.len() - 1] == 'z'
        && dot_free(t.subrange(0, t.len() - 3)))
}

/// Whether the '.' at position `p` of the name `b` starts its extension.
pub open spec fn extension_dot(b: Seq<char>, p: int) -> bool {
    0 <= p < b.len() && b[p] == '.' && extension_text(b.subrange(p + 1, b.len() as int))
}

/// Whether `p` is the earliest position at which an extension of `b` starts.
pub open spec fn first_extension_dot(b: Seq<char>, p: int) -> bool {
    extension_dot(b, p) && forall|q: int| 0 <= q < p ==> !extension_dot(b, q)
}

/// The extension of the name `b`: what follows its earliest extension dot.
pub open spec fn name_extension(b: Seq<char>) -> Option<Seq<char>> {
    if exists|p: int| first_extension_dot(b, p) {
        let p = choose|p: int| first_extension_dot(b, p);
        Some(b.subrange(p + 1, b.len() as int))
    } else {
        None
    }
}

/// The extension of the base name of `path`.
pub open spec fn path_extension(path: Seq<char>) -> Option<Seq<char>> {
    match base_name(path) {
        Some(b) => name_extension(b),
        None => None,
    }
}

/// The earliest position `p` of two that both start the extension is the same one.
proof fn lemma_first_extension_dot_unique(b: Seq<char>, p: int, q: int)
    requires
        first_extension_dot(b, p),
        first_extension_dot(b, q),
    ensures
        p == q,
{
}

fn dot_free_range(c: &Vec<char>, a: usize, b: usize) -> (r: bool)
    requires
        a <= b <= c@.len(),
    ensures
        r == dot_free(c@.subrange(a as int, b as int)),
{
    let mut i: usize = a;
    while i < b
        invariant
            a <= i <= b <= c@.len(),
            forall|k: int| a <= k < i ==> c@[k] != '.',
        decreases b - i,
    {
        if c[i] == '.' {
            assert(c@.subrange(a as int, b as int)[i - a] == '.');
            return false;
        }
        i = i + 1;
    }
    true
}

fn extension_text_range(c: &Vec<char>, a: usize, b: usize) -> (r: bool)
    requires
        a <= b <= c@.len(),
    ensures
        r == extension_text(c@.subrange(a as int, b as int)),
{
    let ghost t = c@.subrange(a as int, b as int);
    if b > a && dot_free_range(c, a, b) {
        return true;
    }
    if b - a > 3 && c[b - 3] == '.' && c[b - 2] == 'g' && c[b - 1] == 'z' {
        let r = dot_free_range(c, a, b - 3);
        assert(t.subrange(0, t.len() - 3) =~= c@.subrange(a as int, b - 3));
        r
    } else {
        false
    }
}

/// The position at which the extension of the name `c` starts, if it has one.
pub fn extension_start(c: &Vec<char>) -> (r: Option<usize>)
    ensures
        match r {
            Some(p) => first_extension_dot(c@, p as int) && name_extension(c@) == Some(
                c@.subrange(p + 1, c@.len() as int),
            ),
            None => name_extension(c@) is None,
        },
{
    let mut p: usize = 0;
    while p < c.len()
        invariant
            p <= c@.len(),
            forall|q: int| 0 <= q < p ==> !extension_dot(c@, q),
        decreases c.len() - p,
    {
        if c[p] == '.' && extension_text_range(c, p + 1, c.len()) {
            assert(first_extension_dot(c@, p as int));
            let ghost q = choose|q: int| first_extension_dot(c@, q);
            proof {
                lemma_first_extension_dot_unique(c@, p as int, q);
            }
            return Some(p);
        }
        p = p + 1;
    }
    None
}

/// The extension of the file at `path`: the text after the earliest dot of
/// its base name that is followed by a dot-free run and, optionally, ".gz";
/// none when the base name has no such dot, or the path has no base name.
pub fn get_extension(path: &str) -> (r: Option<String>)
    ensures
        match r {
            Some(e) => path_extension(path@) == Some(e@),
            None => path_extension(path@) is None,
        },
{
    let c = chars_of(path);
    match base_name_range(&c) {
        None => None,
        Some((a, b)) => {
            let name = copy_range(&c, a, b);
            match extension_start(&name) {
                None => None,
                Some(p) => {
                    let e = substring(path, a + p + 1, b);
                    assert(e@ =~= name@.subrange(p + 1, name@.len() as int));
                    Some(e)
                },
            }
        },
    }
}

/// Of a file name with one dot, not in last place, the extension is what follows that dot.
pub proof fn lemma_single_dot_extension(f: Seq<char>, p: int)
    requires
        0 <= p < f.len() - 1,
        f[p] == '.',
        forall|k: int| 0 <= k < f.len() && k != p ==> f[k] != '.',
        forall|k: int| 0 <= k < f.len() ==> f[k] != '/',
    ensures
        path_extension(f) == Some(f.subrange(p + 1, f.len() as int)),
{
    assert(f.subrange(0, f.len() as int) =~= f);
    assert(base_name(f) == Some(f)) by {
        lemma_component_start_without_slash(f);
        assert(f.subrange(0, f.len() as int) =~= f);
        if f == seq!['.', '.'] {
            assert(f[0] == '.' && f[1] == '.');
        }
    }
    let t = f.subrange(p + 1, f.len() as int);
    assert(dot_free(t));
    assert(first_extension_dot(f, p));
    let q = choose|q: int| first_extension_dot(f, q);
    lemma_first_extension_dot_unique(f, p, q);
}

proof fn lemma_component_start_without_slash(f: Seq<char>)
    requires
        forall|k: int| 0 <= k < f.len() ==> f[k] != '/',
    ensures
        crate::path_name::component_start(f) == 0,
    decreases f.len(),
{
    if f.len() > 0 {
        lemma_component_start_without_slash(f.drop_last());
    }
}

} // verus!
