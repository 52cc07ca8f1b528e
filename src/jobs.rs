//! Assembler command lines for classified read files.

use vstd::prelude::*;
use vstd::string::*;
use crate::classify::{EntryView, PairLookup, ReadPair};
use crate::pattern::string_views;

verus! {

/// The start of every command line: the assembler, its output directory and its options.
pub open spec fn job_prefix(out: Seq<char>, opts: Seq<char>) -> Seq<char> {
    "megahit -o "@ + out + " "@ + opts
}

/// The command line that assembles the forward file `f` with the reverse file `r`.
pub open spec fn pair_job(out: Seq<char>, opts: Seq<char>, f: Seq<char>, r: Seq<char>) -> Seq<char> {
    job_prefix(out, opts) + " -1 "@ + f + " -2 "@ + r
}

/// The command line that assembles the single read file `f`.
pub open spec fn single_job(out: Seq<char>, opts: Seq<char>, f: Seq<char>) -> Seq<char> {
    job_prefix(out, opts) + " -r "@ + f
}

/// One command line for each sample of `t` that holds both directions, in order.
pub open spec fn pair_jobs(out: Seq<char>, opts: Seq<char>, t: Seq<EntryView>) -> Seq<Seq<char>>
    decreases t.len(),
{
    if t.len() == 0 {
        Seq::empty()
    } else {
        let prev = pair_jobs(out, opts, t.drop_last());
        match t.last().1 {
            (Some(f), Some(r)) => prev.push(pair_job(out, opts, f, r)),
            _ => prev,
        }
    }
}

/// One command line for each single read file, in order.
pub open spec fn single_jobs(out: Seq<char>, opts: Seq<char>, s: Seq<Seq<char>>) -> Seq<Seq<char>> {
    s.map_values(|f: Seq<char>| single_job(out, opts, f))
}

fn prefix(out_dir: &str, options: &str) -> (r: String)
    ensures
        r@ == job_prefix(out_dir@, options@),
{
    let r = String::from_str("megahit -o ").concat(out_dir).concat(" ").concat(options);
    assert(r@ =~= job_prefix(out_dir@, options@));
    r
}

/// The command line for a pair, if it holds both directions.
fn pair_line(out_dir: &str, options: &str, pair: &ReadPair) -> (r: Option<String>)
    ensures
        match pair@ {
            (Some(f), Some(v)) => r matches Some(l) && l@ == pair_job(out_dir@, options@, f, v),
            _ => r is None,
        },
{
    match (&pair.forward, &pair.reverse) {
        (Some(f), Some(v)) => {
            let l = prefix(out_dir, options).concat(" -1 ").concat(f.as_str()).concat(" -2 ").concat(
                v.as_str(),
            );
            assert(l@ =~= pair_job(out_dir@, options@, f@, v@));
            Some(l)
        },
        _ => None,
    }
}

/// The assembler command lines: one for each sample of `pairs` that holds both
/// directions (in the order held), then one for each file of `singles`. Each
/// writes to `out_dir` and passes `options` on to the assembler.
pub fn make_jobs(out_dir: &str, options: &str, pairs: &PairLookup, singles: &[String]) -> (r: Vec<
    String,
>)
    ensures
        string_views(r@) == pair_jobs(out_dir@, options@, pairs@) + single_jobs(
            out_dir@,
            options@,
            string_views(singles@),
        ),
{
    let ghost t = pairs@;
    let mut jobs: Vec<String> = Vec::new();
    let mut j: usize = 0;
    while j < pairs.len()
        invariant
            j <= t.len(),
            t == pairs@,
            string_views(jobs@) == pair_jobs(out_dir@, options@, t.take(j as int)),
        decreases t.len() - j,
    {
        assert(t.take(j + 1).drop_last() =~= t.take(j as int));
        assert(t.take(j + 1).last() == t[j as int]);
        let ghost before = string_views(jobs@);
        match pair_line(out_dir, options, pairs.pair(j)) {
            Some(l) => {
                jobs.push(l);
                assert(string_views(jobs@) =~= before.push(
                    pair_job(out_dir@, options@, t[j as int].1.0->0, t[j as int].1.1->0),
                ));
            },
            None => {},
        }
        j = j + 1;
    }
    assert(t.take(j as int) =~= t);
    let ghost pj = string_views(jobs@);
    let ghost ss = string_views(singles@);
    let mut i: usize = 0;
    while i < singles.len()
        invariant
            i <= singles@.len(),
            ss == string_views(singles@),
            string_views(jobs@) == pj + single_jobs(out_dir@, options@, ss.take(i as int)),
        decreases singles.len() - i,
    {
        let ghost before = string_views(jobs@);
        let l = prefix(out_dir, options).concat(" -r ").concat(singles[i].as_str());
        jobs.push(l);
        assert(single_jobs(out_dir@, options@, ss.take(i + 1)) =~= single_jobs(
            out_dir@,
            options@,
            ss.take(i as int),
        ).push(single_job(out_dir@, options@, ss[i as int])));
        assert(string_views(jobs@) =~= before.push(l@));
        assert(l@ =~= single_job(out_dir@, options@, ss[i as int]));
        i = i + 1;
    }
    assert(ss.take(i as int) =~= ss);
    jobs
}

/// The decimal digit for `d`, which is below ten.
pub open spec fn digit_char(d: nat) -> char {
    if d == 0 { '0' } else if d == 1 { '1' } else if d == 2 { '2' } else if d == 3 { '3' }
    else if d == 4 { '4' } else if d == 5 { '5' } else if d == 6 { '6' } else if d == 7 { '7' }
    else if d == 8 { '8' } else { '9' }
}

/// `n` written in decimal, with no leading zeros.
pub open spec fn decimal(n: nat) -> Seq<char>
    decreases n,
{
    if n < 10 {
        seq![digit_char(n)]
    } else {
        decimal(n / 10).push(digit_char(n % 10))
    }
}

fn digit_str(d: u32) -> (r: &'static str)
    requires
        d < 10,
    ensures
        r@ == seq![digit_char(d as nat)],
{
    proof {
        reveal_strlit("0");
        reveal_strlit("1");
        reveal_strlit("2");
        reveal_strlit("3");
        reveal_strlit("4");
        reveal_strlit("5");
        reveal_strlit("6");
        reveal_strlit("7");
        reveal_strlit("8");
        reveal_strlit("9");
    }
    let r = if d == 0 { "0" } else if d == 1 { "1" } else if d == 2 { "2" } else if d == 3 { "3" }
    else if d == 4 { "4" } else if d == 5 { "5" } else if d == 6 { "6" } else if d == 7 { "7" }
    else if d == 8 { "8" } else { "9" };
    assert(r@ =~= seq![digit_char(d as nat)]);
    r
}

/// `n` written in decimal.
pub fn decimal_string(n: u32) -> (r: String)
    ensures
        r@ == decimal(n as nat),
    decreases n,
{
    if n < 10 {
        String::from_str(digit_str(n))
    } else {
        let r = decimal_string(n / 10).concat(digit_str(n % 10));
        assert(r@ =~= decimal(n as nat));
        r
    }
}

/// The option `flag` with the value `v`, or nothing when `v` is absent.
pub open spec fn flag_part(flag: Seq<char>, v: Option<u32>) -> Seq<Seq<char>> {
    match v {
        Some(x) => seq![flag + decimal(x as nat)],
        None => Seq::empty(),
    }
}

/// `parts` separated by single spaces.
pub open spec fn join_spaced(parts: Seq<Seq<char>>) -> Seq<char>
    decreases parts.len(),
{
    if parts.len() == 0 {
        Seq::empty()
    } else if parts.len() == 1 {
        parts[0]
    } else {
        join_spaced(parts.drop_last()) + " "@ + parts.last()
    }
}

/// The assembler options that are set, in a fixed order.
pub open spec fn option_parts(
    min_count: Option<u32>,
    k_min: Option<u32>,
    k_max: Option<u32>,
    k_step: Option<u32>,
    min_contig_len: Option<u32>,
    memory: Option<Seq<char>>,
) -> Seq<Seq<char>> {
    flag_part("--min-count "@, min_count) + flag_part("--k-min "@, k_min) + flag_part(
        "--k-max "@,
        k_max,
    ) + flag_part("--k-step "@, k_step) + flag_part("--min-contig-len "@, min_contig_len)
        + match memory {
        Some(m) => seq!["--memory "@ + m],
        None => Seq::empty(),
    }
}

fn push_part(parts: &mut Vec<String>, p: String)
    ensures
        string_views(final(parts)@) == string_views(old(parts)@).push(p@),
{
    parts.push(p);
    assert(string_views(final(parts)@) =~= string_views(old(parts)@).push(p@));
}

fn push_flag(parts: &mut Vec<String>, flag: &str, v: Option<u32>)
    ensures
        string_views(final(parts)@) == string_views(old(parts)@) + flag_part(flag@, v),
{
    match v {
        Some(x) => {
            let p = String::from_str(flag).concat(decimal_string(x).as_str());
            push_part(parts, p);
            assert(string_views(final(parts)@) =~= string_views(old(parts)@) + flag_part(flag@, v));
        },
        None => {
            assert(string_views(old(parts)@) + flag_part(flag@, v) =~= string_views(old(parts)@));
        },
    }
}

/// The assembler options string: each option that is set, in the order
/// min count, k min, k max, k step, min contig length, memory, as its flag and
/// its value, separated by single spaces. `memory` is already written out.
pub fn assembler_options(
    min_count: Option<u32>,
    k_min: Option<u32>,
    k_max: Option<u32>,
    k_step: Option<u32>,
    min_contig_len: Option<u32>,
    memory: Option<&str>,
) -> (r: String)
    ensures
        r@ == join_spaced(
            option_parts(
                min_count,
                k_min,
                k_max,
                k_step,
                min_contig_len,
                match memory {
                    Some(m) => Some(m@),
                    None => None,
                },
            ),
        ),
{
    let mut parts: Vec<String> = Vec::new();
    push_flag(&mut parts, "--min-count ", min_count);
    push_flag(&mut parts, "--k-min ", k_min);
    push_flag(&mut parts, "--k-max ", k_max);
    push_flag(&mut parts, "--k-step ", k_step);
    push_flag(&mut parts, "--min-contig-len ", min_contig_len);
    let ghost before = string_views(parts@);
    match memory {
        Some(m) => {
            push_part(&mut parts, String::from_str("--memory ").concat(m));
            assert(string_views(parts@) =~= before + seq!["--memory "@ + m@]);
        },
        None => {
            assert(before + Seq::<Seq<char>>::empty() =~= before);
        },
    }
    let ghost ps = string_views(parts@);
    assert(ps =~= option_parts(
        min_count,
        k_min,
        k_max,
        k_step,
        min_contig_len,
        match memory {
            Some(m) => Some(m@),
            None => None,
        },
    ));
    let mut r = String::new();
    let mut i: usize = 0;
    while i < parts.len()
        invariant
            i <= parts@.len(),
            ps == string_views(parts@),
            r@ == join_spaced(ps.take(i as int)),
        decreases parts.len() - i,
    {
        assert(ps.take(i + 1).drop_last() =~= ps.take(i as int));
        if i == 0 {
            r = parts[i].clone();
            assert(r@ =~= join_spaced(ps.take(1)));
        } else {
            r = r.concat(" ").concat(parts[i].as_str());
            assert(r@ =~= join_spaced(ps.take(i + 1)));
        }
        i = i + 1;
    }
    assert(ps.take(i as int) =~= ps);
    r
}

} // verus!
