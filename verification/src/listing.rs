use vstd::prelude::*;
use crate::order::{lemma_lex_order, lex_le};
use crate::snapshot::{dir_entries, insert_entry, listing_payload, node_entry, tree_id, DirNode};
use crate::tree::EntryModel;

verus! {

/// Whether the entries stand in byte-wise order of name.
pub open spec fn sorted_by_name(s: Seq<EntryModel>) -> bool {
    forall|i: int, j: int|
        #![trigger s[i], s[j]]
        0 <= i < j < s.len() ==> lex_le(s[i].name, s[j].name)
}

/// Whether no two of the entries have the same name.
pub open spec fn distinct_names(s: Seq<EntryModel>) -> bool {
    forall|i: int, j: int| #![trigger s[i], s[j]] 0 <= i < j < s.len() ==> s[i].name != s[j].name
}

/// Whether no two entries of a listing have the same name.
pub open spec fn distinct_node_names(s: Seq<DirNode>) -> bool {
    forall|i: int, j: int|
        #![trigger s[i], s[j]]
        0 <= i < j < s.len() ==> s[i].name@ != s[j].name@
}

/// The index at which `insert_entry` puts an entry.
proof fn lemma_insert_position(s: Seq<EntryModel>, e: EntryModel) -> (p: int)
    ensures
        0 <= p <= s.len(),
        insert_entry(s, e) == s.insert(p, e),
        forall|j: int| p <= j < s.len() ==> !lex_le(#[trigger] s[j].name, e.name),
        p > 0 ==> lex_le(s[p - 1].name, e.name),
    decreases s.len(),
{
    if s.len() == 0 {
        assert(s.insert(0, e) =~= seq![e]);
        0
    } else if lex_le(s.last().name, e.name) {
        assert(s.insert(s.len() as int, e) =~= s.push(e));
        s.len() as int
    } else {
        let p = lemma_insert_position(s.drop_last(), e);
        assert(s.insert(p, e) =~= s.drop_last().insert(p, e).push(s.last()));
        assert forall|j: int| p <= j < s.len() implies !lex_le(#[trigger] s[j].name, e.name) by {
            if j < s.len() - 1 {
                assert(s[j] == s.drop_last()[j]);
            }
        }
        p
    }
}

/// Inserting into a sorted list gives a sorted list that holds the new entry
/// and the old ones, and nothing else; and no name twice, where the old
/// list held no name twice and not the new entry's.
pub proof fn lemma_insert_entry(s: Seq<EntryModel>, e: EntryModel)
    requires
        sorted_by_name(s),
    ensures
        sorted_by_name(insert_entry(s, e)),
        insert_entry(s, e).len() == s.len() + 1,
        forall|x: EntryModel| #[trigger] insert_entry(s, e).contains(x) <==> s.contains(x) || x == e,
        distinct_names(s) && (forall|i: int| 0 <= i < s.len() ==> (#[trigger] s[i]).name != e.name)
            ==> distinct_names(insert_entry(s, e)),
{
    let p = lemma_insert_position(s, e);
    let r = insert_entry(s, e);
    assert forall|i: int, j: int| #![trigger r[i], r[j]] 0 <= i < j < r.len() implies lex_le(
        r[i].name,
        r[j].name,
    ) by {
        if j < p {
            assert(r[i] == s[i] && r[j] == s[j]);
        } else if j == p {
            assert(r[i] == s[i]);
            if i < p - 1 {
                assert(lex_le(s[i].name, s[p - 1].name));
                lemma_lex_order(s[i].name, s[p - 1].name, e.name);
            }
        } else if i == p {
            assert(r[j] == s[j - 1]);
            assert(!lex_le(s[j - 1].name, e.name));
            lemma_lex_order(e.name, s[j - 1].name, e.name);
        } else if i < p {
            assert(r[i] == s[i] && r[j] == s[j - 1]);
        } else {
            assert(r[i] == s[i - 1] && r[j] == s[j - 1]);
        }
    }
    assert forall|x: EntryModel| #[trigger] r.contains(x) <==> s.contains(x) || x == e by {
        if r.contains(x) {
            let k = choose|k: int| 0 <= k < r.len() && r[k] == x;
            if k < p {
                assert(s[k] == x);
            } else if k > p {
                assert(s[k - 1] == x);
            }
        }
        if s.contains(x) {
            let k = choose|k: int| 0 <= k < s.len() && s[k] == x;
            if k < p {
                assert(r[k] == x);
            } else {
                assert(r[k + 1] == x);
            }
        }
        if x == e {
            assert(r[p] == x);
        }
    }
    if distinct_names(s) && (forall|i: int| 0 <= i < s.len() ==> (#[trigger] s[i]).name != e.name) {
        assert forall|i: int, j: int| #![trigger r[i], r[j]] 0 <= i < j < r.len() implies r[i].name
            != r[j].name by {
            let a = if i < p {
                i
            } else {
                i - 1
            };
            let b = if j < p {
                j
            } else {
                j - 1
            };
            if i != p && j != p {
                assert(r[i] == s[a] && r[j] == s[b]);
            } else if i == p {
                assert(r[j] == s[b]);
            } else {
                assert(r[i] == s[a]);
            }
        }
    }
}

/// The entries of a tree stand in byte-wise order of name, and are the
/// entries of the listing's nodes and nothing else. Where the listing holds
/// no name twice, neither does the tree.
pub proof fn lemma_dir_entries(children: Seq<DirNode>, k: nat, excluded: Seq<Vec<u8>>)
    requires
        k <= children.len(),
    ensures
        sorted_by_name(dir_entries(children, k, excluded)),
        forall|e: EntryModel| #[trigger]
            dir_entries(children, k, excluded).contains(e) <==> exists|i: int|
                0 <= i < k && #[trigger] node_entry(children[i], excluded) == Some(e),
        forall|i: int|
            0 <= i < dir_entries(children, k, excluded).len() ==> exists|n: int|
                0 <= n < k && children[n].name@ == (#[trigger] dir_entries(
                    children,
                    k,
                    excluded,
                )[i]).name,
        distinct_node_names(children) ==> distinct_names(dir_entries(children, k, excluded)),
    decreases k,
{
    let r = dir_entries(children, k, excluded);
    if k == 0 {
    } else {
        let before = dir_entries(children, (k - 1) as nat, excluded);
        lemma_dir_entries(children, (k - 1) as nat, excluded);
        match node_entry(children[k - 1], excluded) {
            None => {
                assert forall|e: EntryModel| #[trigger] r.contains(e) implies exists|i: int|
                    0 <= i < k && #[trigger] node_entry(children[i], excluded) == Some(e) by {
                    let i = choose|i: int|
                        0 <= i < k - 1 && #[trigger] node_entry(children[i], excluded) == Some(e);
                    assert(0 <= i < k);
                }
                assert forall|e: EntryModel|
                    (exists|i: int|
                        0 <= i < k && #[trigger] node_entry(children[i], excluded) == Some(
                            e,
                        )) implies #[trigger] r.contains(e) by {
                    let i = choose|i: int|
                        0 <= i < k && #[trigger] node_entry(children[i], excluded) == Some(e);
                    assert(i < k - 1);
                }
            },
            Some(new) => {
                lemma_insert_entry(before, new);
                assert(new.name == children[k - 1].name@);
                assert forall|e: EntryModel| #[trigger] r.contains(e) implies exists|i: int|
                    0 <= i < k && #[trigger] node_entry(children[i], excluded) == Some(e) by {
                    if e == new {
                        assert(node_entry(children[k - 1], excluded) == Some(e));
                    } else {
                        assert(before.contains(e));
                        let i = choose|i: int|
                            0 <= i < k - 1 && #[trigger] node_entry(children[i], excluded) == Some(
                                e,
                            );
                        assert(0 <= i < k);
                    }
                }
                assert forall|e: EntryModel|
                    (exists|i: int|
                        0 <= i < k && #[trigger] node_entry(children[i], excluded) == Some(
                            e,
                        )) implies #[trigger] r.contains(e) by {
                    let i = choose|i: int|
                        0 <= i < k && #[trigger] node_entry(children[i], excluded) == Some(e);
                    if i < k - 1 {
                        assert(before.contains(e));
                    }
                }
                assert forall|i: int| 0 <= i < r.len() implies exists|n: int|
                    0 <= n < k && children[n].name@ == (#[trigger] r[i]).name by {
                    assert(r.contains(r[i]));
                    if r[i] == new {
                        assert(children[k - 1].name@ == r[i].name);
                    } else {
                        assert(before.contains(r[i]));
                        let j = choose|j: int| 0 <= j < before.len() && before[j] == r[i];
                        let n = choose|n: int|
                            0 <= n < k - 1 && children[n].name@ == (#[trigger] before[j]).name;
                        assert(0 <= n < k && children[n].name@ == r[i].name);
                    }
                }
                if distinct_node_names(children) {
                    assert forall|i: int| 0 <= i < before.len() implies (#[trigger] before[i]).name
                        != new.name by {
                        let n = choose|n: int|
                            0 <= n < k - 1 && children[n].name@ == (#[trigger] before[i]).name;
                        assert(children[n].name@ != children[k - 1].name@);
                    }
                }
            },
        }
    }
}

/// Two sorted lists that hold the same entries, and no name twice, are the
/// same list.
pub proof fn lemma_sorted_is_unique(a: Seq<EntryModel>, b: Seq<EntryModel>)
    requires
        sorted_by_name(a),
        sorted_by_name(b),
        distinct_names(a),
        distinct_names(b),
        forall|x: EntryModel| a.contains(x) <==> b.contains(x),
    ensures
        a == b,
    decreases a.len(),
{
    if a.len() == 0 {
        if b.len() > 0 {
            assert(b.contains(b[0]));
        }
        assert(a =~= b);
    } else {
        assert(a.contains(a[0]));
        assert(b.len() > 0);
        let la = a.last();
        let lb = b.last();
        assert(a.contains(la));
        assert(b.contains(lb));
        let j = choose|j: int| 0 <= j < b.len() && b[j] == la;
        let i = choose|i: int| 0 <= i < a.len() && a[i] == lb;
        if i < a.len() - 1 && j < b.len() - 1 {
            assert(lex_le(a[i].name, a[a.len() - 1].name));
            assert(lex_le(b[j].name, b[b.len() - 1].name));
            lemma_lex_order(la.name, lb.name, la.name);
            assert(a[i].name == a[a.len() - 1].name);
        }
        assert(la == lb);
        let a0 = a.drop_last();
        let b0 = b.drop_last();
        assert forall|x: EntryModel| a0.contains(x) <==> b0.contains(x) by {
            if a0.contains(x) {
                let m = choose|m: int| 0 <= m < a0.len() && a0[m] == x;
                assert(a[m] == x);
                assert(a.contains(x));
                let n = choose|n: int| 0 <= n < b.len() && b[n] == x;
                if n == b.len() - 1 {
                    assert(a[m].name == a[a.len() - 1].name);
                }
                assert(b0[n] == x);
            }
            if b0.contains(x) {
                let m = choose|m: int| 0 <= m < b0.len() && b0[m] == x;
                assert(b[m] == x);
                assert(b.contains(x));
                let n = choose|n: int| 0 <= n < a.len() && a[n] == x;
                if n == a.len() - 1 {
                    assert(b[m].name == b[b.len() - 1].name);
                }
                assert(a0[n] == x);
            }
        }
        assert(sorted_by_name(a0)) by {
            assert forall|p: int, q: int| #![trigger a0[p], a0[q]] 0 <= p < q < a0.len() implies lex_le(
                a0[p].name,
                a0[q].name,
            ) by {
                assert(a0[p] == a[p] && a0[q] == a[q]);
            }
        }
        assert(sorted_by_name(b0)) by {
            assert forall|p: int, q: int| #![trigger b0[p], b0[q]] 0 <= p < q < b0.len() implies lex_le(
                b0[p].name,
                b0[q].name,
            ) by {
                assert(b0[p] == b[p] && b0[q] == b[q]);
            }
        }
        assert(distinct_names(a0)) by {
            assert forall|p: int, q: int| #![trigger a0[p], a0[q]] 0 <= p < q < a0.len() implies a0[p].name
                != a0[q].name by {
                assert(a0[p] == a[p] && a0[q] == a[q]);
            }
        }
        assert(distinct_names(b0)) by {
            assert forall|p: int, q: int| #![trigger b0[p], b0[q]] 0 <= p < q < b0.len() implies b0[p].name
                != b0[q].name by {
                assert(b0[p] == b[p] && b0[q] == b[q]);
            }
        }
        lemma_sorted_is_unique(a0, b0);
        assert(a =~= a0.push(la));
        assert(b =~= b0.push(lb));
    }
}

/// The entries of a tree object stand in byte-wise order of name, whatever
/// the order of the listing; and strictly so, with no name twice, where the
/// listing holds no name twice.
pub proof fn lemma_tree_is_sorted(children: Seq<DirNode>, excluded: Seq<Vec<u8>>)
    ensures
        sorted_by_name(dir_entries(children, children.len(), excluded)),
        distinct_node_names(children) ==> distinct_names(
            dir_entries(children, children.len(), excluded),
        ),
{
    lemma_dir_entries(children, children.len(), excluded);
}

/// The id of a tree does not depend on the order of the listing: two
/// listings that hold the same nodes, each name once, give the same payload
/// and the same id.
pub proof fn lemma_order_independence(
    first: Seq<DirNode>,
    second: Seq<DirNode>,
    excluded: Seq<Vec<u8>>,
)
    requires
        distinct_node_names(first),
        distinct_node_names(second),
        forall|n: DirNode| first.contains(n) <==> second.contains(n),
    ensures
        dir_entries(first, first.len(), excluded) == dir_entries(second, second.len(), excluded),
        listing_payload(first, excluded) == listing_payload(second, excluded),
        tree_id(first, excluded) == tree_id(second, excluded),
{
    let a = dir_entries(first, first.len(), excluded);
    let b = dir_entries(second, second.len(), excluded);
    lemma_dir_entries(first, first.len(), excluded);
    lemma_dir_entries(second, second.len(), excluded);
    assert forall|x: EntryModel| a.contains(x) <==> b.contains(x) by {
        if a.contains(x) {
            let i = choose|i: int|
                0 <= i < first.len() && #[trigger] node_entry(first[i], excluded) == Some(x);
            assert(first.contains(first[i]));
            let j = choose|j: int| 0 <= j < second.len() && second[j] == first[i];
            assert(node_entry(second[j], excluded) == Some(x));
        }
        if b.contains(x) {
            let i = choose|i: int|
                0 <= i < second.len() && #[trigger] node_entry(second[i], excluded) == Some(x);
            assert(second.contains(second[i]));
            let j = choose|j: int| 0 <= j < first.len() && first[j] == second[i];
            assert(node_entry(first[j], excluded) == Some(x));
        }
    }
    lemma_sorted_is_unique(a, b);
}

} // verus!
