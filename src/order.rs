use vstd::prelude::*;

verus! {

/// Byte-wise lexicographic order: `a` comes no later than `b`.
pub open spec fn lex_le(a: Seq<u8>, b: Seq<u8>) -> bool
    decreases a.len(),
{
    if a.len() == 0 {
        true
    } else if b.len() == 0 {
        false
    } else if a[0] != b[0] {
        a[0] < b[0]
    } else {
        lex_le(a.drop_first(), b.drop_first())
    }
}

/// `order` lists each index of `names` once, and the names it visits come in
/// ascending lexicographic order.
pub open spec fn is_sorted_order(names: Seq<Seq<u8>>, order: Seq<usize>) -> bool {
    &&& order.len() == names.len()
    &&& order.no_duplicates()
    &&& forall|k: int| 0 <= k < order.len() ==> #[trigger] order[k] < names.len()
    &&& forall|i: int, j: int|
        0 <= i < j < order.len() ==> lex_le(names[order[i] as int], names[order[j] as int])
}

/// The names in the order given by `order`.
pub open spec fn arrange(names: Seq<Seq<u8>>, order: Seq<usize>) -> Seq<Seq<u8>> {
    order.map_values(|k: usize| names[k as int])
}

proof fn lemma_lex_total(a: Seq<u8>, b: Seq<u8>)
    ensures
        lex_le(a, b) || lex_le(b, a),
    decreases a.len(),
{
    if a.len() > 0 && b.len() > 0 && a[0] == b[0] {
        lemma_lex_total(a.drop_first(), b.drop_first());
    }
}

proof fn lemma_lex_trans(a: Seq<u8>, b: Seq<u8>, c: Seq<u8>)
    requires
        lex_le(a, b),
        lex_le(b, c),
    ensures
        lex_le(a, c),
    decreases a.len(),
{
    if a.len() > 0 && b.len() > 0 && c.len() > 0 && a[0] == b[0] && b[0] == c[0] {
        lemma_lex_trans(a.drop_first(), b.drop_first(), c.drop_first());
    }
}

proof fn lemma_lex_antisym(a: Seq<u8>, b: Seq<u8>)
    requires
        lex_le(a, b),
        lex_le(b, a),
    ensures
        a == b,
    decreases a.len(),
{
    if a.len() > 0 && b.len() > 0 {
        lemma_lex_antisym(a.drop_first(), b.drop_first());
        assert(a =~= seq![a[0]] + a.drop_first());
        assert(b =~= seq![b[0]] + b.drop_first());
    } else {
        assert(a =~= b);
    }
}

/// Whether `a` comes no later than `b` in byte-wise lexicographic order.
fn lex_le_exec(a: &[u8], b: &[u8]) -> (r: bool)
    ensures
        r == lex_le(a@, b@),
{
    let mut i: usize = 0;
    assert(a@.skip(0) =~= a@);
    assert(b@.skip(0) =~= b@);
    while i < a.len() && i < b.len() && a[i] == b[i]
        invariant
            i <= a@.len(),
            i <= b@.len(),
            lex_le(a@, b@) == lex_le(a@.skip(i as int), b@.skip(i as int)),
        decreases a@.len() - i,
    {
        proof {
            let sa = a@.skip(i as int);
            let sb = b@.skip(i as int);
            assert(sa.drop_first() =~= a@.skip(i + 1));
            assert(sb.drop_first() =~= b@.skip(i + 1));
        }
        i = i + 1;
    }
    if i == a.len() {
        true
    } else if i == b.len() {
        false
    } else {
        a[i] < b[i]
    }
}

/// The order in which to visit `names`: each index once, by ascending name.
pub fn sort_order(names: &Vec<Vec<u8>>) -> (r: Vec<usize>)
    ensures
        is_sorted_order(names@.map_values(|n: Vec<u8>| n@), r@),
{
    let ghost ns = names@.map_values(|n: Vec<u8>| n@);
    let mut order: Vec<usize> = Vec::new();
    let mut i: usize = 0;
    while i < names.len()
        invariant
            i <= names@.len(),
            ns == names@.map_values(|n: Vec<u8>| n@),
            order@.len() == i,
            order@.no_duplicates(),
            forall|k: int| 0 <= k < order@.len() ==> #[trigger] order@[k] < i,
            forall|p: int, q: int|
                0 <= p < q < order@.len() ==> lex_le(ns[order@[p] as int], ns[order@[q] as int]),
        decreases names@.len() - i,
    {
        let x = names[i].as_slice();
        let mut pos: usize = 0;
        while pos < order.len() && lex_le_exec(names[order[pos]].as_slice(), x)
            invariant
                i < names@.len(),
                ns == names@.map_values(|n: Vec<u8>| n@),
                x@ == ns[i as int],
                pos <= order@.len(),
                order@.len() == i,
                forall|k: int| 0 <= k < order@.len() ==> #[trigger] order@[k] < i,
                forall|k: int| 0 <= k < pos ==> lex_le(ns[order@[k] as int], ns[i as int]),
            decreases order@.len() - pos,
        {
            pos = pos + 1;
        }
        proof {
            if pos < order@.len() {
                lemma_lex_total(ns[order@[pos as int] as int], ns[i as int]);
                assert forall|k: int| pos <= k < order@.len() implies lex_le(
                    ns[i as int],
                    ns[order@[k] as int],
                ) by {
                    if k > pos {
                        lemma_lex_trans(ns[i as int], ns[order@[pos as int] as int], ns[order@[k] as int]);
                    }
                }
            }
        }
        let ghost old_order = order@;
        order.insert(pos, i);
        proof {
            assert(order@ =~= old_order.subrange(0, pos as int).push(i).add(
                old_order.subrange(pos as int, old_order.len() as int),
            ));
            assert forall|p: int, q: int| 0 <= p < q < order@.len() implies lex_le(
                ns[order@[p] as int],
                ns[order@[q] as int],
            ) by {
                if q < pos {
                } else if q == pos {
                } else if p < pos {
                    lemma_lex_trans(ns[order@[p] as int], ns[i as int], ns[order@[q] as int]);
                } else if p == pos {
                } else {
                }
            }
            assert forall|p: int, q: int| 0 <= p < q < order@.len() implies order@[p] != order@[q] by {
                if p != pos && q != pos {
                    let op = if p < pos { p } else { p - 1 };
                    let oq = if q < pos { q } else { q - 1 };
                    assert(old_order[op] != old_order[oq]);
                }
            }
        }
        i = i + 1;
    }
    order
}

/// Sorting a listing forgets the order it was enumerated in: two listings
/// that hold the same set of distinct names, each put in sorted order, give
/// the same sequence of names.
pub proof fn lemma_listing_order_irrelevant(
    names1: Seq<Seq<u8>>,
    names2: Seq<Seq<u8>>,
    order1: Seq<usize>,
    order2: Seq<usize>,
)
    requires
        names1.no_duplicates(),
        names2.no_duplicates(),
        names1.to_set() == names2.to_set(),
        is_sorted_order(names1, order1),
        is_sorted_order(names2, order2),
    ensures
        arrange(names1, order1) == arrange(names2, order2),
{
    let s1 = arrange(names1, order1);
    let s2 = arrange(names2, order2);
    lemma_arranged_facts(names1, order1);
    lemma_arranged_facts(names2, order2);
    assert(s1.to_set() =~= s2.to_set()) by {
        assert forall|x: Seq<u8>| s1.to_set().contains(x) implies s2.to_set().contains(x) by {
            let k = choose|k: int| 0 <= k < s1.len() && s1[k] == x;
            assert(names1.contains(x));
            assert(names1.to_set().contains(x));
            assert(names2.to_set().contains(x));
        }
        assert forall|x: Seq<u8>| s2.to_set().contains(x) implies s1.to_set().contains(x) by {
            let k = choose|k: int| 0 <= k < s2.len() && s2[k] == x;
            assert(names2.contains(x));
            assert(names2.to_set().contains(x));
            assert(names1.to_set().contains(x));
        }
    }
    lemma_sorted_same_set_equal(s1, s2);
}

/// An arranged listing is sorted, has no duplicates, and holds exactly the
/// listing's names.
proof fn lemma_arranged_facts(names: Seq<Seq<u8>>, order: Seq<usize>)
    requires
        names.no_duplicates(),
        is_sorted_order(names, order),
    ensures
        arrange(names, order).len() == names.len(),
        arrange(names, order).no_duplicates(),
        forall|i: int, j: int|
            0 <= i < j < arrange(names, order).len() ==> lex_le(
                #[trigger] arrange(names, order)[i],
                #[trigger] arrange(names, order)[j],
            ),
        forall|x: Seq<u8>| arrange(names, order).contains(x) <==> names.contains(x),
{
    let s = arrange(names, order);
    assert forall|x: Seq<u8>| names.contains(x) implies s.contains(x) by {
        let m = choose|m: int| 0 <= m < names.len() && names[m] == x;
        // the order hits every index: it is an injective map of n indices into n
        lemma_order_onto(order, names.len() as int, m);
        let k = choose|k: int| 0 <= k < order.len() && order[k] == m;
        assert(s[k] == x);
    }
    assert forall|x: Seq<u8>| s.contains(x) implies names.contains(x) by {
        let k = choose|k: int| 0 <= k < s.len() && s[k] == x;
        assert(names[order[k] as int] == x);
    }
}

/// A duplicate-free sequence of `n` indices below `n` holds every index below `n`.
proof fn lemma_order_onto(order: Seq<usize>, n: int, m: int)
    requires
        order.len() == n,
        order.no_duplicates(),
        forall|k: int| 0 <= k < order.len() ==> #[trigger] order[k] < n,
        0 <= m < n,
    ensures
        exists|k: int| 0 <= k < order.len() && order[k] == m,
{
    let s = order.map_values(|u: usize| u as int).to_set();
    let full = Set::new(|v: int| 0 <= v < n);
    assert(full =~= vstd::set_lib::set_int_range(0, n));
    vstd::set_lib::lemma_int_range(0, n);
    let mapped = order.map_values(|u: usize| u as int);
    assert(mapped.no_duplicates()) by {
        assert forall|p: int, q: int| 0 <= p < q < mapped.len() implies mapped[p] != mapped[q] by {
            assert(order[p] != order[q]);
        }
    }
    mapped.unique_seq_to_set();
    assert(s.subset_of(full)) by {
        assert forall|v: int| s.contains(v) implies full.contains(v) by {
            let k = choose|k: int| 0 <= k < mapped.len() && mapped[k] == v;
            assert(order[k] < n);
        }
    }
    vstd::set_lib::lemma_subset_equality(s, full);
    if !(exists|k: int| 0 <= k < order.len() && order[k] == m) {
        assert(!s.contains(m)) by {
            if s.contains(m) {
                let k = choose|k: int| 0 <= k < mapped.len() && mapped[k] == m;
                assert(order[k] == m);
            }
        }
        assert(full.contains(m));
    }
}

/// Two sorted, duplicate-free sequences with the same elements are equal.
proof fn lemma_sorted_same_set_equal(s1: Seq<Seq<u8>>, s2: Seq<Seq<u8>>)
    requires
        s1.no_duplicates(),
        s2.no_duplicates(),
        forall|i: int, j: int| 0 <= i < j < s1.len() ==> lex_le(#[trigger] s1[i], #[trigger] s1[j]),
        forall|i: int, j: int| 0 <= i < j < s2.len() ==> lex_le(#[trigger] s2[i], #[trigger] s2[j]),
        s1.to_set() == s2.to_set(),
    ensures
        s1 == s2,
    decreases s1.len(),
{
    s1.unique_seq_to_set();
    s2.unique_seq_to_set();
    if s1.len() == 0 {
        assert(s1 =~= s2);
    } else {
        assert(s1.to_set().contains(s1[0]));
        assert(s2.len() > 0);
        assert(s2.to_set().contains(s2[0]));
        let a = s1[0];
        let b = s2[0];
        assert(s2.contains(a));
        assert(s1.contains(b));
        let ia = choose|k: int| 0 <= k < s2.len() && s2[k] == a;
        let ib = choose|k: int| 0 <= k < s1.len() && s1[k] == b;
        if ia > 0 {
            assert(lex_le(s2[0], s2[ia]));
        }
        if ib > 0 {
            assert(lex_le(s1[0], s1[ib]));
        }
        if ia > 0 && ib > 0 {
            lemma_lex_antisym(a, b);
        }
        let t1 = s1.drop_first();
        let t2 = s2.drop_first();
        assert(t1.to_set() =~= t2.to_set()) by {
            assert forall|x: Seq<u8>| t1.to_set().contains(x) implies t2.to_set().contains(x) by {
                let k = choose|k: int| 0 <= k < t1.len() && t1[k] == x;
                assert(s1[k + 1] == x);
                assert(s1.to_set().contains(x));
                assert(s2.contains(x));
                let k2 = choose|k2: int| 0 <= k2 < s2.len() && s2[k2] == x;
                assert(x != a);
                assert(k2 != 0);
                assert(t2[k2 - 1] == x);
            }
            assert forall|x: Seq<u8>| t2.to_set().contains(x) implies t1.to_set().contains(x) by {
                let k = choose|k: int| 0 <= k < t2.len() && t2[k] == x;
                assert(s2[k + 1] == x);
                assert(s2.to_set().contains(x));
                assert(s1.contains(x));
                let k1 = choose|k1: int| 0 <= k1 < s1.len() && s1[k1] == x;
                assert(x != b);
                assert(k1 != 0);
                assert(t1[k1 - 1] == x);
            }
        }
        assert forall|i: int, j: int| 0 <= i < j < t1.len() implies lex_le(#[trigger] t1[i], #[trigger] t1[j]) by {
            assert(lex_le(s1[i + 1], s1[j + 1]));
        }
        assert forall|i: int, j: int| 0 <= i < j < t2.len() implies lex_le(#[trigger] t2[i], #[trigger] t2[j]) by {
            assert(lex_le(s2[i + 1], s2[j + 1]));
        }
        lemma_sorted_same_set_equal(t1, t2);
        assert(s1 =~= seq![a] + t1);
        assert(s2 =~= seq![b] + t2);
    }
}

} // verus!
