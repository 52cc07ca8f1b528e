//! Partitions read files into complete paired-end samples and single reads.

use vstd::prelude::*;
use crate::ReadDirection;
use crate::chars::{chars_of, copy_range, substring};
use crate::path_name::{base_name, base_name_range};
use crate::pattern::{
    char_vectors,
    distinct_extensions,
    extension_list,
    match_mate_name,
    mate_direction,
    name_match,
    string_views,
    char_views,
    digit_len,
    marker_len,
};

verus! {

/// The files of one sample, forward then reverse.
pub type PairView = (Option<Seq<char>>, Option<Seq<char>>);

/// A sample name with the files of that sample.
pub type EntryView = (Seq<char>, PairView);

/// The characters of an optional string.
pub open spec fn opt_view(o: Option<String>) -> Option<Seq<char>> {
    match o {
        Some(s) => Some(s@),
        None => None,
    }
}

/// The file held for direction `d`.
pub open spec fn slot(pv: PairView, d: ReadDirection) -> Option<Seq<char>> {
    match d {
        ReadDirection::Forward => pv.0,
        ReadDirection::Reverse => pv.1,
    }
}

/// `pv` with the file for direction `d` set to `p`.
pub open spec fn with_slot(pv: PairView, d: ReadDirection, p: Seq<char>) -> PairView {
    match d {
        ReadDirection::Forward => (Some(p), pv.1),
        ReadDirection::Reverse => (pv.0, Some(p)),
    }
}

/// Whether both directions hold a file.
pub open spec fn is_complete(pv: PairView) -> bool {
    pv.0 is Some && pv.1 is Some
}

/// The read files of one sample, at most one for each direction.
pub struct ReadPair {
    pub forward: Option<String>,
    pub reverse: Option<String>,
}

impl View for ReadPair {
    type V = PairView;

    open spec fn view(&self) -> PairView {
        (opt_view(self.forward), opt_view(self.reverse))
    }
}

fn copy_opt(o: &Option<String>) -> (r: Option<String>)
    ensures
        opt_view(r) == opt_view(*o),
{
    match o {
        Some(s) => Some(s.clone()),
        None => None,
    }
}

impl ReadPair {
    /// Whether a file is held for direction `d`.
    pub fn contains_key(&self, d: &ReadDirection) -> (r: bool)
        ensures
            r == slot(self@, *d) is Some,
    {
        match d {
            ReadDirection::Forward => self.forward.is_some(),
            ReadDirection::Reverse => self.reverse.is_some(),
        }
    }

    /// The file held for direction `d`.
    pub fn get(&self, d: &ReadDirection) -> (r: Option<&String>)
        ensures
            match r {
                Some(s) => slot(self@, *d) == Some(s@),
                None => slot(self@, *d) is None,
            },
    {
        let o = match d {
            ReadDirection::Forward => &self.forward,
            ReadDirection::Reverse => &self.reverse,
        };
        match o {
            Some(s) => Some(s),
            None => None,
        }
    }

    /// Whether both directions hold a file.
    pub fn is_complete(&self) -> (r: bool)
        ensures
            r == is_complete(self@),
    {
        self.forward.is_some() && self.reverse.is_some()
    }

    fn copy(&self) -> (r: ReadPair)
        ensures
            r@ == self@,
    {
        ReadPair { forward: copy_opt(&self.forward), reverse: copy_opt(&self.reverse) }
    }
}

/// The view of one stored entry.
pub open spec fn entry_view(e: (String, ReadPair)) -> EntryView {
    (e.0@, e.1@)
}

/// The views of stored entries.
pub open spec fn entry_views(v: Seq<(String, ReadPair)>) -> Seq<EntryView> {
    v.map_values(|e: (String, ReadPair)| entry_view(e))
}

/// Whether no sample name occurs twice.
pub open spec fn keys_unique(t: Seq<EntryView>) -> bool {
    forall|j: int, k: int| 0 <= j < k < t.len() ==> t[j].0 != t[k].0
}

/// Whether `n` is a sample name of `t`.
pub open spec fn has_key(t: Seq<EntryView>, n: Seq<char>) -> bool {
    exists|j: int| 0 <= j < t.len() && t[j].0 == n
}

/// Samples with their read files, keyed by sample name.
pub struct PairLookup {
    entries: Vec<(String, ReadPair)>,
}

impl View for PairLookup {
    type V = Seq<EntryView>;

    closed spec fn view(&self) -> Seq<EntryView> {
        entry_views(self.entries@)
    }
}

impl PairLookup {
    /// The number of samples.
    pub fn len(&self) -> (r: usize)
        ensures
            r == self@.len(),
    {
        self.entries.len()
    }

    /// Whether no sample is held.
    pub fn is_empty(&self) -> (r: bool)
        ensures
            r == (self@.len() == 0),
    {
        self.entries.len() == 0
    }

    /// Whether `name` is a sample name held here.
    pub fn contains_key(&self, name: &str) -> (r: bool)
        ensures
            r == has_key(self@, name@),
    {
        match self.get(name) {
            Some(_) => true,
            None => false,
        }
    }

    /// The read files of the sample `name`.
    pub fn get(&self, name: &str) -> (r: Option<&ReadPair>)
        ensures
            match r {
                Some(p) => exists|j: int|
                    0 <= j < self@.len() && self@[j].0 == name@ && self@[j].1 == p@,
                None => !has_key(self@, name@),
            },
    {
        let key = String::from_str(name);
        let mut j: usize = 0;
        while j < self.entries.len()
            invariant
                j <= self@.len(),
                key@ == name@,
                forall|k: int| 0 <= k < j ==> self@[k].0 != name@,
            decreases self.entries.len() - j,
        {
            if self.entries[j].0 == key {
                assert(self@[j as int] == entry_view(self.entries@[j as int]));
                return Some(&self.entries[j].1);
            }
            j = j + 1;
        }
        None
    }

    /// The sample name at position `j`.
    pub fn sample(&self, j: usize) -> (r: &String)
        requires
            j < self@.len(),
        ensures
            r@ == self@[j as int].0,
    {
        &self.entries[j].0
    }

    /// The read files at position `j`.
    pub fn pair(&self, j: usize) -> (r: &ReadPair)
        requires
            j < self@.len(),
        ensures
            r@ == self@[j as int].1,
    {
        &self.entries[j].1
    }
}

/// The sample name and direction that the file at `p` is read as, if its base name matches.
pub open spec fn path_slot(p: Seq<char>, exts: Seq<Seq<char>>) -> Option<(Seq<char>, ReadDirection)> {
    match base_name(p) {
        None => None,
        Some(b) => match name_match(b, exts) {
            None => None,
            Some((s, i)) => Some((b.subrange(s, i), mate_direction(b, i))),
        },
    }
}

/// Whether `j` is the first position of `t` with sample name `n`.
pub open spec fn first_key(t: Seq<EntryView>, n: Seq<char>, j: int) -> bool {
    0 <= j < t.len() && t[j].0 == n && forall|k: int| 0 <= k < j ==> t[k].0 != n
}

/// `t` with the file `p` put at direction `d` of sample `n`, replacing what was
/// there; a new sample goes last.
pub open spec fn table_insert(t: Seq<EntryView>, n: Seq<char>, d: ReadDirection, p: Seq<char>) -> Seq<
    EntryView,
> {
    if exists|j: int| first_key(t, n, j) {
        let j = choose|j: int| first_key(t, n, j);
        t.update(j, (n, with_slot(t[j].1, d, p)))
    } else {
        t.push((n, with_slot((None, None), d, p)))
    }
}

/// The samples that the files `ps` fill, in the order in which they are first seen.
pub open spec fn pair_table(ps: Seq<Seq<char>>, exts: Seq<Seq<char>>) -> Seq<EntryView>
    decreases ps.len(),
{
    if ps.len() == 0 {
        Seq::empty()
    } else {
        let t = pair_table(ps.drop_last(), exts);
        match path_slot(ps.last(), exts) {
            Some((n, d)) => table_insert(t, n, d, ps.last()),
            None => t,
        }
    }
}

/// The files of `ps` whose base name does not match, in input order.
pub open spec fn unmatched(ps: Seq<Seq<char>>, exts: Seq<Seq<char>>) -> Seq<Seq<char>>
    decreases ps.len(),
{
    if ps.len() == 0 {
        Seq::empty()
    } else {
        let prev = unmatched(ps.drop_last(), exts);
        if path_slot(ps.last(), exts) is None {
            prev.push(ps.last())
        } else {
            prev
        }
    }
}

/// The entries of `t` that hold both directions, in order.
pub open spec fn complete_entries(t: Seq<EntryView>) -> Seq<EntryView>
    decreases t.len(),
{
    if t.len() == 0 {
        Seq::empty()
    } else {
        let prev = complete_entries(t.drop_last());
        if is_complete(t.last().1) {
            prev.push(t.last())
        } else {
            prev
        }
    }
}

/// An optional file as a sequence of none or one.
pub open spec fn opt_files(o: Option<Seq<char>>) -> Seq<Seq<char>> {
    match o {
        Some(p) => seq![p],
        None => Seq::empty(),
    }
}

/// The files of one sample, forward first.
pub open spec fn entry_files(pv: PairView) -> Seq<Seq<char>> {
    opt_files(pv.0) + opt_files(pv.1)
}

/// The files of the entries of `t` that lack a direction, in order.
pub open spec fn stray_files(t: Seq<EntryView>) -> Seq<Seq<char>>
    decreases t.len(),
{
    if t.len() == 0 {
        Seq::empty()
    } else {
        let prev = stray_files(t.drop_last());
        if is_complete(t.last().1) {
            prev
        } else {
            prev + entry_files(t.last().1)
        }
    }
}

/// What classifying `ps` gives: the complete samples, and the single reads
/// (the unmatched files in input order, then the files of incomplete samples).
pub open spec fn classification(ps: Seq<Seq<char>>) -> (Seq<EntryView>, Seq<Seq<char>>) {
    let exts = extension_list(ps);
    let t = pair_table(ps, exts);
    (complete_entries(t), unmatched(ps, exts) + stray_files(t))
}

/// The entries that hold both directions are complete, and keep their names distinct.
proof fn lemma_complete_entries(t: Seq<EntryView>)
    requires
        keys_unique(t),
    ensures
        keys_unique(complete_entries(t)),
        forall|j: int|
            0 <= j < complete_entries(t).len() ==> is_complete(#[trigger] complete_entries(t)[j].1),
        forall|j: int|
            0 <= j < complete_entries(t).len() ==> has_key(t, #[trigger] complete_entries(t)[j].0),
    decreases t.len(),
{
    if t.len() > 0 {
        let u = t.drop_last();
        lemma_complete_entries(u);
        let c = complete_entries(u);
        assert forall|j: int| 0 <= j < c.len() implies #[trigger] c[j].0 != t.last().0 by {
            let k = choose|k: int| 0 <= k < u.len() && u[k].0 == c[j].0;
            assert(t[k] == u[k]);
        }
        assert forall|j: int| 0 <= j < c.len() implies has_key(t, #[trigger] c[j].0) by {
            let k = choose|k: int| 0 <= k < u.len() && u[k].0 == c[j].0;
            assert(t[k] == u[k]);
        }
        assert(has_key(t, t.last().0)) by {
            assert(t[t.len() - 1] == t.last());
        }
    }
}

fn direction_at(c: &Vec<char>, i: usize) -> (r: ReadDirection)
    requires
        i < c@.len(),
    ensures
        r == mate_direction(c@, i as int),
{
    let n = c.len();
    let ghost rest = c@.subrange(i + 1, n as int);
    let mut k: usize = i + 1;
    if k < n && (c[k] == 'R' || c[k] == 'r') {
        k = k + 1;
    }
    assert(k - (i + 1) == marker_len(rest));
    if k < n && c[k] == '1' {
        assert(digit_len(rest) == 1 && rest[marker_len(rest)] == '1');
        ReadDirection::Forward
    } else {
        ReadDirection::Reverse
    }
}

/// The sample name and direction that the file at `path` is read as.
fn slot_of(path: &str, exts: &Vec<Vec<char>>) -> (r: Option<(String, ReadDirection)>)
    ensures
        match r {
            Some((n, d)) => path_slot(path@, char_views(exts@)) == Some((n@, d)),
            None => path_slot(path@, char_views(exts@)) is None,
        },
{
    let c = chars_of(path);
    match base_name_range(&c) {
        None => None,
        Some((a, b)) => {
            let name = copy_range(&c, a, b);
            match match_mate_name(&name, exts) {
                None => None,
                Some((s, i)) => {
                    let n = substring(path, a + s, a + i);
                    assert(n@ =~= name@.subrange(s as int, i as int));
                    Some((n, direction_at(&name, i)))
                },
            }
        },
    }
}

fn insert_file(table: &mut Vec<(String, ReadPair)>, n: String, d: ReadDirection, p: String)
    requires
        keys_unique(entry_views(old(table)@)),
    ensures
        keys_unique(entry_views(final(table)@)),
        entry_views(final(table)@) == table_insert(entry_views(old(table)@), n@, d, p@),
{
    let ghost t = entry_views(table@);
    let mut j: usize = 0;
    while j < table.len()
        invariant
            j <= table@.len(),
            t == entry_views(table@),
            t == entry_views(old(table)@),
            keys_unique(t),
            forall|k: int| 0 <= k < j ==> t[k].0 != n@,
        decreases table.len() - j,
    {
        if table[j].0 == n {
            assert(first_key(t, n@, j as int));
            let ghost pick = choose|k: int| first_key(t, n@, k);
            assert(pick == j) by {
                if pick < j {
                } else if pick > j {
                    assert(t[j as int].0 == n@);
                }
            }
            let pair = match d {
                ReadDirection::Forward => ReadPair {
                    forward: Some(p),
                    reverse: copy_opt(&table[j].1.reverse),
                },
                ReadDirection::Reverse => ReadPair {
                    forward: copy_opt(&table[j].1.forward),
                    reverse: Some(p),
                },
            };
            let ghost nv = n@;
            let ghost pv = p@;
            table[j] = (n, pair);
            assert(entry_views(table@) =~= t.update(
                j as int,
                (nv, with_slot(t[j as int].1, d, pv)),
            ));
            assert(entry_views(table@) == table_insert(t, nv, d, pv));
            assert(forall|k: int| 0 <= k < t.len() ==> entry_views(table@)[k].0 == t[k].0);
            return;
        }
        j = j + 1;
    }
    let pair = match d {
        ReadDirection::Forward => ReadPair { forward: Some(p), reverse: None },
        ReadDirection::Reverse => ReadPair { forward: None, reverse: Some(p) },
    };
    let ghost nv = n@;
    let ghost pv = p@;
    table.push((n, pair));
    assert(entry_views(table@) =~= t.push((nv, with_slot((None, None), d, pv))));
    assert(!exists|k: int| first_key(t, nv, k));
}

/// Partitions the read files `paths` into complete paired-end samples and
/// single reads. The mate pattern is built from the distinct extensions of
/// all of `paths`. A file whose base name matches it is filed under its
/// sample name and direction, a later file replacing an earlier one there;
/// every other file is a single read. Samples that lack a direction are then
/// dropped and their files become single reads.
pub fn classify(paths: &[String]) -> (r: (PairLookup, Vec<String>))
    ensures
        (r.0@, string_views(r.1@)) == classification(string_views(paths@)),
        keys_unique(r.0@),
        forall|j: int| 0 <= j < r.0@.len() ==> is_complete(#[trigger] r.0@[j].1),
{
    let ghost ps = string_views(paths@);
    let exts = char_vectors(&distinct_extensions(paths));
    let ghost es = char_views(exts@);
    assert(es == extension_list(ps));
    let mut table: Vec<(String, ReadPair)> = Vec::new();
    let mut singles: Vec<String> = Vec::new();
    let mut i: usize = 0;
    while i < paths.len()
        invariant
            i <= paths@.len(),
            ps == string_views(paths@),
            es == char_views(exts@),
            entry_views(table@) == pair_table(ps.take(i as int), es),
            keys_unique(entry_views(table@)),
            string_views(singles@) == unmatched(ps.take(i as int), es),
        decreases paths.len() - i,
    {
        assert(ps.take(i + 1).drop_last() =~= ps.take(i as int));
        assert(ps.take(i + 1).last() == paths@[i as int]@);
        match slot_of(paths[i].as_str(), &exts) {
            None => {
                let ghost before = singles@;
                singles.push(paths[i].clone());
                assert(string_views(singles@) =~= string_views(before).push(paths@[i as int]@));
            },
            Some((n, d)) => {
                insert_file(&mut table, n, d, paths[i].clone());
            },
        }
        i = i + 1;
    }
    assert(ps.take(i as int) =~= ps);
    let ghost t = entry_views(table@);
    let ghost unmatched_files = string_views(singles@);
    let mut entries: Vec<(String, ReadPair)> = Vec::new();
    let mut j: usize = 0;
    while j < table.len()
        invariant
            j <= table@.len(),
            t == entry_views(table@),
            entry_views(entries@) == complete_entries(t.take(j as int)),
            string_views(singles@) == unmatched_files + stray_files(t.take(j as int)),
        decreases table.len() - j,
    {
        assert(t.take(j + 1).drop_last() =~= t.take(j as int));
        assert(t.take(j + 1).last() == entry_view(table@[j as int]));
        let e = &table[j];
        if e.1.is_complete() {
            let ghost before = entries@;
            entries.push((e.0.clone(), e.1.copy()));
            assert(entry_views(entries@) =~= entry_views(before).push(t[j as int]));
        } else {
            let ghost before = string_views(singles@);
            match &e.1.forward {
                Some(f) => singles.push(f.clone()),
                None => {},
            }
            match &e.1.reverse {
                Some(v) => singles.push(v.clone()),
                None => {},
            }
            assert(string_views(singles@) =~= before + entry_files(t[j as int].1));
        }
        j = j + 1;
    }
    assert(t.take(j as int) =~= t);
    proof {
        lemma_complete_entries(t);
    }
    (PairLookup { entries }, singles)
}

} // verus!
