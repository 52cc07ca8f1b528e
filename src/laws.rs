//! What holds of classification as a whole.

use vstd::prelude::*;
use vstd::multiset::Multiset;
use vstd::seq_lib::lemma_multiset_commutative;
use crate::ReadDirection;
use crate::classify::{
    classification,
    complete_entries,
    entry_files,
    first_key,
    is_complete,
    pair_table,
    path_slot,
    slot,
    stray_files,
    unmatched,
    with_slot,
    EntryView,
    PairView,
};
use crate::pattern::extension_list;

verus! {

broadcast use {vstd::seq_lib::group_to_multiset_ensures, vstd::multiset::group_multiset_axioms};

/// All files held by the samples of `t`, counted with repetition.
pub open spec fn table_files(t: Seq<EntryView>) -> Multiset<Seq<char>>
    decreases t.len(),
{
    if t.len() == 0 {
        Multiset::empty()
    } else {
        table_files(t.drop_last()).add(entry_files(t.last().1).to_multiset())
    }
}

/// Whether no two of the files `ps` are read as the same sample and direction
/// under the extensions `exts`.
pub open spec fn slots_distinct_under(ps: Seq<Seq<char>>, exts: Seq<Seq<char>>) -> bool {
    forall|j: int, k: int|
        0 <= j < k < ps.len() && (#[trigger] path_slot(ps[j], exts)) is Some ==> path_slot(
            ps[j],
            exts,
        ) != #[trigger] path_slot(ps[k], exts)
}

/// Whether no two of the files `ps` are read as the same sample and direction.
pub open spec fn slots_distinct(ps: Seq<Seq<char>>) -> bool {
    slots_distinct_under(ps, extension_list(ps))
}

proof fn lemma_filled_slot_has_source(ps: Seq<Seq<char>>, exts: Seq<Seq<char>>, j: int, d: ReadDirection)
    requires
        0 <= j < pair_table(ps, exts).len(),
        slot(pair_table(ps, exts)[j].1, d) is Some,
    ensures
        exists|k: int|
            0 <= k < ps.len() && path_slot(ps[k], exts) == Some(
                (pair_table(ps, exts)[j].0, d),
            ) && slot(pair_table(ps, exts)[j].1, d) == Some(ps[k]),
    decreases ps.len(),
{
    let t = pair_table(ps, exts);
    let q = ps.drop_last();
    let u = pair_table(q, exts);
    let p = ps.last();
    let last = ps.len() - 1;
    assert(ps[last] == p);
    match path_slot(p, exts) {
        None => {
            lemma_filled_slot_has_source(q, exts, j, d);
            let k = choose|k: int|
                0 <= k < q.len() && path_slot(q[k], exts) == Some((u[j].0, d)) && slot(u[j].1, d)
                    == Some(q[k]);
            assert(ps[k] == q[k]);
        },
        Some((n, dd)) => {
            if exists|i: int| first_key(u, n, i) {
                let i = choose|i: int| first_key(u, n, i);
                if j == i && d == dd {
                    assert(path_slot(ps[last], exts) == Some((t[j].0, d)));
                } else {
                    assert(slot(t[j].1, d) == slot(u[j].1, d) && t[j].0 == u[j].0);
                    lemma_filled_slot_has_source(q, exts, j, d);
                    let k = choose|k: int|
                        0 <= k < q.len() && path_slot(q[k], exts) == Some((u[j].0, d)) && slot(
                            u[j].1,
                            d,
                        ) == Some(q[k]);
                    assert(ps[k] == q[k]);
                }
            } else {
                if j == u.len() {
                    assert(d == dd);
                    assert(path_slot(ps[last], exts) == Some((t[j].0, d)));
                } else {
                    assert(t[j] == u[j]);
                    lemma_filled_slot_has_source(q, exts, j, d);
                    let k = choose|k: int|
                        0 <= k < q.len() && path_slot(q[k], exts) == Some((u[j].0, d)) && slot(
                            u[j].1,
                            d,
                        ) == Some(q[k]);
                    assert(ps[k] == q[k]);
                }
            }
        },
    }
}

proof fn lemma_table_files_update(t: Seq<EntryView>, j: int, e: EntryView)
    requires
        0 <= j < t.len(),
    ensures
        table_files(t.update(j, e)).add(entry_files(t[j].1).to_multiset()) =~= table_files(t).add(
            entry_files(e.1).to_multiset(),
        ),
    decreases t.len(),
{
    let v = t.update(j, e);
    let a = entry_files(t[j].1).to_multiset();
    let b = entry_files(e.1).to_multiset();
    let c = entry_files(t.last().1).to_multiset();
    let w = table_files(t.drop_last());
    assert(table_files(v) == table_files(v.drop_last()).add(entry_files(v.last().1).to_multiset()));
    assert(table_files(t) == w.add(c));
    if j == t.len() - 1 {
        assert(v.drop_last() =~= t.drop_last());
        assert(v.last() == e);
        assert(c == a);
        assert forall|x: Seq<char>| #[trigger] w.add(b).add(a).count(x) == w.add(a).add(b).count(x) by {
        }
    } else {
        assert(v.drop_last() =~= t.drop_last().update(j, e));
        assert(v.last() == t.last());
        assert(t.drop_last()[j] == t[j]);
        lemma_table_files_update(t.drop_last(), j, e);
        let z = table_files(t.drop_last().update(j, e));
        assert(z.add(a) =~= w.add(b));
        assert forall|x: Seq<char>| #[trigger] z.add(c).add(a).count(x) == w.add(c).add(b).count(x) by {
            assert(z.add(a).count(x) == w.add(b).count(x));
        }
    }
}

proof fn lemma_fill_empty_slot(pv: PairView, d: ReadDirection, p: Seq<char>)
    requires
        slot(pv, d) is None,
    ensures
        entry_files(with_slot(pv, d, p)).to_multiset() =~= entry_files(pv).to_multiset().insert(p),
{
    let w = with_slot(pv, d, p);
    lemma_multiset_commutative(crate::classify::opt_files(w.0), crate::classify::opt_files(w.1));
    lemma_multiset_commutative(crate::classify::opt_files(pv.0), crate::classify::opt_files(pv.1));
    assert(seq![p] =~= Seq::<Seq<char>>::empty().push(p));
}

proof fn lemma_table_and_unmatched(ps: Seq<Seq<char>>, exts: Seq<Seq<char>>)
    requires
        slots_distinct_under(ps, exts),
    ensures
        table_files(pair_table(ps, exts)).add(unmatched(ps, exts).to_multiset()) =~= ps.to_multiset(),
    decreases ps.len(),
{
    if ps.len() == 0 {
        return;
    }
    let q = ps.drop_last();
    let p = ps.last();
    let last = ps.len() - 1;
    assert(ps =~= q.push(p));
    assert forall|j: int, k: int|
        0 <= j < k < q.len() && (#[trigger] path_slot(q[j], exts)) is Some implies path_slot(
            q[j],
            exts,
        ) != #[trigger] path_slot(q[k], exts) by {
        assert(q[j] == ps[j] && q[k] == ps[k]);
    }
    lemma_table_and_unmatched(q, exts);
    let u = pair_table(q, exts);
    assert(ps.drop_last() == q && ps.last() == p);
    let w = table_files(u);
    let um = unmatched(q, exts).to_multiset();
    assert(ps.to_multiset() =~= q.to_multiset().insert(p));
    assert(forall|x: Seq<char>| #[trigger] w.add(um).count(x) == q.to_multiset().count(x));
    match path_slot(p, exts) {
        None => {
            assert(pair_table(ps, exts) == u);
            assert(unmatched(ps, exts) == unmatched(q, exts).push(p));
            assert(unmatched(ps, exts).to_multiset() =~= um.insert(p));
            assert forall|x: Seq<char>| #[trigger] w.add(um.insert(p)).count(x)
                == ps.to_multiset().count(x) by {
                assert(w.add(um).count(x) == q.to_multiset().count(x));
            }
        },
        Some((n, d)) => {
            if exists|i: int| first_key(u, n, i) {
                let i = choose|i: int| first_key(u, n, i);
                if slot(u[i].1, d) is Some {
                    lemma_filled_slot_has_source(q, exts, i, d);
                    let k = choose|k: int|
                        0 <= k < q.len() && path_slot(q[k], exts) == Some((u[i].0, d)) && slot(
                            u[i].1,
                            d,
                        ) == Some(q[k]);
                    assert(ps[k] == q[k]);
                    assert(path_slot(ps[k], exts) == path_slot(ps[last], exts));
                    assert(false);
                }
                lemma_fill_empty_slot(u[i].1, d, p);
                lemma_table_files_update(u, i, (n, with_slot(u[i].1, d, p)));
                let v = u.update(i, (n, with_slot(u[i].1, d, p)));
                assert(pair_table(ps, exts) == v);
                assert(unmatched(ps, exts) == unmatched(q, exts));
                let a = entry_files(u[i].1).to_multiset();
                assert forall|x: Seq<char>| #[trigger] table_files(v).add(um).count(x)
                    == ps.to_multiset().count(x) by {
                    assert(table_files(v).add(a).count(x) == w.add(a.insert(p)).count(x));
                    assert(w.add(um).count(x) == q.to_multiset().count(x));
                }
            } else {
                let e = (n, with_slot((None, None), d, p));
                assert(u.push(e).drop_last() =~= u);
                lemma_fill_empty_slot((None, None), d, p);
                assert(entry_files((None, None)) =~= Seq::<Seq<char>>::empty());
                assert(pair_table(ps, exts) == u.push(e));
                assert(table_files(u.push(e)) == table_files(u).add(entry_files(e.1).to_multiset()));
                assert(unmatched(ps, exts) == unmatched(q, exts));
                let b = entry_files(e.1).to_multiset();
                assert(b =~= Multiset::<Seq<char>>::empty().insert(p));
                assert forall|x: Seq<char>| #[trigger] w.add(b).add(um).count(x)
                    == ps.to_multiset().count(x) by {
                    assert(w.add(um).count(x) == q.to_multiset().count(x));
                }
            }
        },
    }
}

proof fn lemma_split_table(t: Seq<EntryView>)
    ensures
        table_files(t) =~= table_files(complete_entries(t)).add(stray_files(t).to_multiset()),
    decreases t.len(),
{
    if t.len() > 0 {
        let u = t.drop_last();
        lemma_split_table(u);
        let c = complete_entries(u);
        if is_complete(t.last().1) {
            assert(c.push(t.last()).drop_last() =~= c);
        } else {
            lemma_multiset_commutative(stray_files(u), entry_files(t.last().1));
        }
    }
}

/// Every file handed to classification comes out exactly once, either in a
/// complete sample or as a single read, provided no two files are read as the
/// same sample and direction (a later such file replaces an earlier one).
pub proof fn lemma_every_file_once(
    ps: Seq<Seq<char>>,
    pairs: Seq<EntryView>,
    singles: Seq<Seq<char>>,
)
    requires
        (pairs, singles) == classification(ps),
        slots_distinct(ps),
    ensures
        table_files(pairs).add(singles.to_multiset()) =~= ps.to_multiset(),
{
    let exts = extension_list(ps);
    let t = pair_table(ps, exts);
    lemma_table_and_unmatched(ps, exts);
    lemma_split_table(t);
    lemma_multiset_commutative(unmatched(ps, exts), stray_files(t));
}

/// Every sample that classification keeps holds both a forward and a reverse file.
pub proof fn lemma_kept_samples_complete(ps: Seq<Seq<char>>, j: int)
    requires
        0 <= j < classification(ps).0.len(),
    ensures
        is_complete(classification(ps).0[j].1),
{
    lemma_complete_entries_complete(pair_table(ps, extension_list(ps)), j);
}

proof fn lemma_complete_entries_complete(t: Seq<EntryView>, j: int)
    requires
        0 <= j < complete_entries(t).len(),
    ensures
        is_complete(complete_entries(t)[j].1),
    decreases t.len(),
{
    let u = t.drop_last();
    if j < complete_entries(u).len() {
        lemma_complete_entries_complete(u, j);
    }
}

/// Classifying the same files twice gives the same samples, and the same single
/// reads counted with repetition.
pub proof fn lemma_classification_repeatable(
    ps: Seq<Seq<char>>,
    pairs1: Seq<EntryView>,
    singles1: Seq<Seq<char>>,
    pairs2: Seq<EntryView>,
    singles2: Seq<Seq<char>>,
)
    requires
        (pairs1, singles1) == classification(ps),
        (pairs2, singles2) == classification(ps),
    ensures
        pairs1 == pairs2,
        singles1.to_multiset() == singles2.to_multiset(),
{
}

} // verus!
