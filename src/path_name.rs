//! The base name of a '/'-separated path.

use vstd::prelude::*;

verus! {

/// The position just past the last '/' of `p`, or 0 when it holds none.
pub open spec fn component_start(p: Seq<char>) -> int
    decreases p.len(),
{
    if p.len() == 0 {
        0
    } else if p.last() == '/' {
        p.len() as int
    } else {
        component_start(p.drop_last())
    }
}

/// Whether `p` ends in a "." component.
pub open spec fn ends_in_current_dir(p: Seq<char>) -> bool {
    p.len() > 0 && p.last() == '.' && (p.len() == 1 || p[p.len() - 2] == '/')
}

/// The final component of a path, after trailing separators and "." components
/// are dropped; none when nothing is left or when that component is "..".
pub open spec fn base_name(p: Seq<char>) -> Option<Seq<char>>
    decreases p.len(),
{
    if p.len() == 0 {
        None
    } else if p.last() == '/' || ends_in_current_dir(p) {
        base_name(p.drop_last())
    } else {
        let c = p.subrange(component_start(p), p.len() as int);
        if c == seq!['.', '.'] {
            None
        } else {
            Some(c)
        }
    }
}

/// Where the base name of `p` stands in it, as a range of positions.
pub fn base_name_range(p: &Vec<char>) -> (r: Option<(usize, usize)>)
    ensures
        match r {
            Some((a, b)) => a <= b <= p@.len() && base_name(p@) == Some(
                p@.subrange(a as int, b as int),
            ),
            None => base_name(p@) is None,
        },
{
    let mut end: usize = p.len();
    assert(p@.subrange(0, end as int) =~= p@);
    while end > 0 && (p[end - 1] == '/' || (p[end - 1] == '.' && (end == 1 || p[end - 2]
        == '/')))
        invariant
            end <= p@.len(),
            base_name(p@) == base_name(p@.subrange(0, end as int)),
        decreases end,
    {
        assert(p@.subrange(0, end as int).drop_last() =~= p@.subrange(0, end - 1));
        end = end - 1;
    }
    if end == 0 {
        return None;
    }
    let ghost q = p@.subrange(0, end as int);
    let mut start: usize = end;
    while start > 0 && p[start - 1] != '/'
        invariant
            start <= end <= p@.len(),
            q == p@.subrange(0, end as int),
            component_start(q) == component_start(p@.subrange(0, start as int)),
        decreases start,
    {
        assert(p@.subrange(0, start as int).drop_last() =~= p@.subrange(0, start - 1));
        start = start - 1;
    }
    assert(component_start(q) == start);
    let ghost c = q.subrange(start as int, end as int);
    assert(c =~= p@.subrange(start as int, end as int));
    if end - start == 2 && p[start] == '.' && p[start + 1] == '.' {
        assert(c =~= seq!['.', '.']);
        return None;
    }
    assert(c != seq!['.', '.']) by {
        if c == seq!['.', '.'] {
            assert(c.len() == 2 && c[0] == '.' && c[1] == '.');
        }
    }
    Some((start, end))
}

} // verus!
