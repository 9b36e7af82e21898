//! Ordering of character sequences, and a stable sort by such keys.
use vstd::prelude::*;

verus! {

/// Lexicographic order of character sequences by code point: the order of
/// `String`'s comparison.
pub open spec fn seq_lt(a: Seq<char>, b: Seq<char>) -> bool
    decreases a.len(),
{
    if a.len() == 0 {
        b.len() > 0
    } else if b.len() == 0 {
        false
    } else if a[0] != b[0] {
        (a[0] as u32) < (b[0] as u32)
    } else {
        seq_lt(a.drop_first(), b.drop_first())
    }
}

/// Entry `x` comes before entry `y` when sorting by key, ties kept in input order.
pub open spec fn before(keys: Seq<Seq<char>>, x: int, y: int) -> bool {
    seq_lt(keys[x], keys[y]) || (keys[x] == keys[y] && x < y)
}

/// Index `t` occurs in `order`.
pub open spec fn lists(order: Seq<usize>, t: int) -> bool {
    exists|k: int| 0 <= k < order.len() && order[k] as int == t
}

/// `order` lists every index of `keys` once, sorted by key, ties kept in
/// input order.
pub open spec fn sorted_order(keys: Seq<Seq<char>>, order: Seq<usize>) -> bool {
    &&& order.len() == keys.len()
    &&& forall|k: int| 0 <= k < order.len() ==> order[k] < keys.len()
    &&& forall|a: int, b: int|
        0 <= a < b < order.len() ==> before(keys, order[a] as int, order[b] as int)
    &&& forall|t: int| 0 <= t < keys.len() ==> #[trigger] lists(order, t)
}

/// `r` is `keys` rearranged in sorted order, ties kept in input order.
pub open spec fn sorted_seq(keys: Seq<Seq<char>>, r: Seq<Seq<char>>) -> bool {
    exists|ord: Seq<usize>|
        sorted_order(keys, ord) && r == ord.map_values(|k: usize| keys[k as int])
}

proof fn lemma_seq_lt_trans(a: Seq<char>, b: Seq<char>, c: Seq<char>)
    requires
        seq_lt(a, b),
        seq_lt(b, c),
    ensures
        seq_lt(a, c),
    decreases a.len(),
{
    if a.len() > 0 && b.len() > 0 && c.len() > 0 && a[0] == b[0] && b[0] == c[0] {
        lemma_seq_lt_trans(a.drop_first(), b.drop_first(), c.drop_first());
    }
}

proof fn lemma_seq_lt_total(a: Seq<char>, b: Seq<char>)
    requires
        !seq_lt(a, b),
        a != b,
    ensures
        seq_lt(b, a),
    decreases a.len(),
{
    if a.len() == 0 {
        assert(b.len() == 0);
        assert(a =~= b);
    } else if b.len() > 0 && a[0] == b[0] {
        if a.drop_first() == b.drop_first() {
            assert(a =~= seq![a[0]] + a.drop_first());
            assert(b =~= seq![b[0]] + b.drop_first());
        }
        lemma_seq_lt_total(a.drop_first(), b.drop_first());
    } else if b.len() > 0 {
        let x = a[0] as u32;
        let y = b[0] as u32;
        vstd::utf8::char_u32_cast(a[0], x);
        vstd::utf8::char_u32_cast(b[0], y);
    }
}

/// Whether `a` sorts strictly before `b`.
pub(crate) fn chars_lt(a: &Vec<char>, b: &Vec<char>) -> (r: bool)
    ensures
        r == seq_lt(a@, b@),
{
    let mut i: usize = 0;
    assert(a@.skip(0) =~= a@);
    assert(b@.skip(0) =~= b@);
    while i < a.len() && i < b.len() && a[i] == b[i]
        invariant
            i <= a@.len(),
            i <= b@.len(),
            seq_lt(a@, b@) == seq_lt(a@.skip(i as int), b@.skip(i as int)),
        decreases a.len() - i,
    {
        assert(a@.skip(i as int).drop_first() =~= a@.skip(i + 1));
        assert(b@.skip(i as int).drop_first() =~= b@.skip(i + 1));
        i += 1;
    }
    if i == a.len() {
        i < b.len()
    } else if i == b.len() {
        false
    } else {
        assert(a@.skip(i as int)[0] == a@[i as int]);
        assert(b@.skip(i as int)[0] == b@[i as int]);
        (a[i] as u32) < (b[i] as u32)
    }
}

/// The strings of `keys` in sorted order.
pub(crate) fn sorted_strings(keys: &Vec<Vec<char>>) -> (r: Vec<String>)
    ensures
        sorted_seq(keys@.map_values(|k: Vec<char>| k@), r@.map_values(|s: String| s@)),
{
    let ghost ks = keys@.map_values(|k: Vec<char>| k@);
    let ord = sort_order(keys);
    let mut r: Vec<String> = Vec::new();
    let mut i: usize = 0;
    while i < ord.len()
        invariant
            ks == keys@.map_values(|k: Vec<char>| k@),
            sorted_order(ks, ord@),
            i <= ord@.len(),
            r@.map_values(|s: String| s@) == ord@.subrange(0, i as int).map_values(
                |k: usize| ks[k as int],
            ),
        decreases ord.len() - i,
    {
        let s = crate::text::string_of(&keys[ord[i]]);
        assert(s@ == ks[ord@[i as int] as int]);
        let ghost prev = r@;
        r.push(s);
        assert(r@.map_values(|s: String| s@) =~= prev.map_values(|s: String| s@).push(s@));
        assert(ord@.subrange(0, i + 1).map_values(|k: usize| ks[k as int]) =~= ord@.subrange(
            0,
            i as int,
        ).map_values(|k: usize| ks[k as int]).push(s@));
        assert(r@.map_values(|s: String| s@) =~= ord@.subrange(0, i + 1).map_values(
            |k: usize| ks[k as int],
        ));
        i += 1;
    }
    assert(ord@.subrange(0, ord@.len() as int) =~= ord@);
    r
}

/// The indices of `keys` in sorted order, ties kept in input order.
pub(crate) fn sort_order(keys: &Vec<Vec<char>>) -> (r: Vec<usize>)
    ensures
        sorted_order(keys@.map_values(|k: Vec<char>| k@), r@),
{
    let ghost ks = keys@.map_values(|k: Vec<char>| k@);
    let n = keys.len();
    let mut order: Vec<usize> = Vec::new();
    let mut i: usize = 0;
    while i < n
        invariant
            n == keys@.len() == ks.len(),
            ks == keys@.map_values(|k: Vec<char>| k@),
            i <= n,
            order@.len() == i,
            forall|k: int| 0 <= k < order@.len() ==> order@[k] < i,
            forall|a: int, b: int|
                0 <= a < b < order@.len() ==> before(ks, order@[a] as int, order@[b] as int),
            forall|t: int| 0 <= t < i ==> #[trigger] lists(order@, t),
        decreases n - i,
    {
        let mut p: usize = 0;
        while p < order.len() && !chars_lt(&keys[i], &keys[order[p]])
            invariant
                n == keys@.len() == ks.len(),
                ks == keys@.map_values(|k: Vec<char>| k@),
                i < n,
                p <= order@.len(),
                forall|k: int| 0 <= k < order@.len() ==> order@[k] < i,
                forall|q: int| 0 <= q < p ==> before(ks, order@[q] as int, i as int),
            decreases order.len() - p,
        {
            proof {
                let x = order@[p as int] as int;
                assert(ks[x] == keys@[x]@);
                assert(ks[i as int] == keys@[i as int]@);
                if ks[x] != ks[i as int] {
                    lemma_seq_lt_total(ks[i as int], ks[x]);
                }
            }
            p += 1;
        }
        proof {
            if p < order@.len() {
                let x = order@[p as int] as int;
                assert(ks[x] == keys@[x]@);
                assert(ks[i as int] == keys@[i as int]@);
                assert(seq_lt(ks[i as int], ks[x]));
                assert forall|q: int| p <= q < order@.len() implies before(
                    ks,
                    i as int,
                    order@[q] as int,
                ) by {
                    if q > p {
                        let y = order@[q] as int;
                        assert(before(ks, x, y));
                        if seq_lt(ks[x], ks[y]) {
                            lemma_seq_lt_trans(ks[i as int], ks[x], ks[y]);
                        }
                    }
                }
            }
        }
        let ghost old_order = order@;
        order.insert(p, i);
        proof {
            assert forall|a: int, b: int| 0 <= a < b < order@.len() implies before(
                ks,
                order@[a] as int,
                order@[b] as int,
            ) by {
                if b < p {
                } else if b == p {
                } else if a < p {
                    assert(order@[b] == old_order[b - 1]);
                    assert(before(ks, old_order[a] as int, old_order[b - 1] as int));
                } else if a == p {
                    assert(order@[b] == old_order[b - 1]);
                } else {
                    assert(order@[a] == old_order[a - 1]);
                    assert(order@[b] == old_order[b - 1]);
                }
            }
            assert forall|t: int| 0 <= t < i + 1 implies #[trigger] lists(order@, t) by {
                if t == i {
                    assert(order@[p as int] == t);
                } else {
                    assert(lists(old_order, t));
                    let k = choose|k: int| 0 <= k < old_order.len() && old_order[k] as int == t;
                    if k < p {
                        assert(order@[k] == t);
                    } else {
                        assert(order@[k + 1] == t);
                    }
                }
            }
            assert forall|k: int| 0 <= k < order@.len() implies order@[k] < i + 1 by {
                if k < p {
                    assert(order@[k] == old_order[k]);
                } else if k > p {
                    assert(order@[k] == old_order[k - 1]);
                }
            }
        }
        i += 1;
    }
    order
}

} // verus!
