//! The order of texts and of paths.
use vstd::prelude::*;
use crate::text::{chars_of, pieces, split, texts};

verus! {

/// Whether `a` comes before `b`: at the first character where they differ, or
/// because it is a part of `b`.
pub open spec fn text_before(a: Seq<char>, b: Seq<char>) -> bool
    decreases a.len(),
{
    if b.len() == 0 {
        false
    } else if a.len() == 0 {
        true
    } else if a[0] != b[0] {
        a[0] < b[0]
    } else {
        text_before(a.skip(1), b.skip(1))
    }
}

pub proof fn lemma_before_irreflexive(a: Seq<char>)
    ensures
        !text_before(a, a),
    decreases a.len(),
{
    if a.len() > 0 {
        lemma_before_irreflexive(a.skip(1));
    }
}

pub proof fn lemma_before_transitive(a: Seq<char>, b: Seq<char>, c: Seq<char>)
    requires
        text_before(a, b),
        text_before(b, c),
    ensures
        text_before(a, c),
    decreases a.len(),
{
    if a.len() > 0 && b.len() > 0 && c.len() > 0 && a[0] == b[0] && b[0] == c[0] {
        lemma_before_transitive(a.skip(1), b.skip(1), c.skip(1));
    }
}

pub proof fn lemma_before_total(a: Seq<char>, b: Seq<char>)
    ensures
        a == b || text_before(a, b) || text_before(b, a),
    decreases a.len(),
{
    if a.len() > 0 && b.len() > 0 && a[0] == b[0] {
        lemma_before_total(a.skip(1), b.skip(1));
        if a.skip(1) == b.skip(1) {
            assert(a =~= seq![a[0]] + a.skip(1));
        }
    }
}

/// Whether `a` comes before `b`.
pub fn comes_before(a: &str, b: &str) -> (r: bool)
    ensures
        r == text_before(a@, b@),
{
    let x = chars_of(a);
    let y = chars_of(b);
    let mut i: usize = 0;
    assert(a@.skip(0) =~= a@);
    assert(b@.skip(0) =~= b@);
    while i < x.len() && i < y.len() && x[i] == y[i]
        invariant
            i <= x@.len(),
            i <= y@.len(),
            x@ == a@,
            y@ == b@,
            text_before(a@, b@) == text_before(a@.skip(i as int), b@.skip(i as int)),
        decreases x@.len() - i,
    {
        assert(a@.skip(i as int).skip(1) =~= a@.skip(i + 1));
        assert(b@.skip(i as int).skip(1) =~= b@.skip(i + 1));
        i += 1;
    }
    if i >= y.len() {
        false
    } else if i >= x.len() {
        true
    } else {
        x[i] < y[i]
    }
}

/// Texts in strictly ascending order.
pub open spec fn ascending(s: Seq<Seq<char>>) -> bool {
    forall|i: int, j: int|
        0 <= i < j < s.len() ==> text_before(#[trigger] s[i], #[trigger] s[j])
}

/// Texts in ascending order are told by which texts they are: however they
/// were gathered, their order is the same.
pub proof fn law_ascending_order_is_unique(a: Seq<Seq<char>>, b: Seq<Seq<char>>)
    requires
        ascending(a),
        ascending(b),
        forall|x: Seq<char>| a.contains(x) <==> b.contains(x),
    ensures
        a == b,
    decreases a.len(),
{
    if a.len() == 0 {
        if b.len() > 0 {
            assert(b.contains(b[0]));
        }
    } else {
        assert(a.contains(a[0]));
        assert(b.contains(b[0]));
        let i = choose|i: int| 0 <= i < b.len() && b[i] == a[0];
        let j = choose|j: int| 0 <= j < a.len() && a[j] == b[0];
        if i > 0 {
            if j > 0 {
                lemma_before_transitive(a[0], b[0], a[0]);
            }
            lemma_before_irreflexive(a[0]);
        }
        let x = a.skip(1);
        let y = b.skip(1);
        assert(ascending(x)) by {
            assert forall|p: int, q: int| 0 <= p < q < x.len() implies text_before(
                #[trigger] x[p],
                #[trigger] x[q],
            ) by {}
        }
        assert(ascending(y)) by {
            assert forall|p: int, q: int| 0 <= p < q < y.len() implies text_before(
                #[trigger] y[p],
                #[trigger] y[q],
            ) by {}
        }
        assert forall|t: Seq<char>| x.contains(t) implies y.contains(t) by {
            assert(a.contains(t));
            let q = choose|q: int| 0 <= q < b.len() && b[q] == t;
            if q == 0 {
                lemma_before_irreflexive(t);
            }
            assert(y[q - 1] == t);
        }
        assert forall|t: Seq<char>| y.contains(t) implies x.contains(t) by {
            assert(b.contains(t));
            let q = choose|q: int| 0 <= q < a.len() && a[q] == t;
            if q == 0 {
                lemma_before_irreflexive(t);
            }
            assert(x[q - 1] == t);
        }
        law_ascending_order_is_unique(x, y);
        assert(a =~= seq![a[0]] + x);
    }
}

/// Whether the parts `a` come before the parts `b`, part by part.
pub open spec fn parts_before(a: Seq<Seq<char>>, b: Seq<Seq<char>>) -> bool
    decreases a.len(),
{
    if b.len() == 0 {
        false
    } else if a.len() == 0 {
        true
    } else if a[0] != b[0] {
        text_before(a[0], b[0])
    } else {
        parts_before(a.skip(1), b.skip(1))
    }
}

/// Whether the path `a` comes before the path `b`, part by part.
pub open spec fn path_before(a: Seq<char>, b: Seq<char>) -> bool {
    parts_before(split(a, '/'), split(b, '/'))
}

proof fn lemma_parts_transitive(a: Seq<Seq<char>>, b: Seq<Seq<char>>, c: Seq<Seq<char>>)
    requires
        parts_before(a, b),
        parts_before(b, c),
    ensures
        parts_before(a, c),
    decreases a.len(),
{
    if a.len() > 0 && b.len() > 0 && c.len() > 0 {
        if a[0] == b[0] && b[0] == c[0] {
            lemma_parts_transitive(a.skip(1), b.skip(1), c.skip(1));
        } else if a[0] != b[0] && b[0] != c[0] {
            lemma_before_transitive(a[0], b[0], c[0]);
            lemma_before_irreflexive(a[0]);
        }
    }
}

proof fn lemma_parts_asymmetric(a: Seq<Seq<char>>, b: Seq<Seq<char>>)
    requires
        parts_before(a, b),
    ensures
        !parts_before(b, a),
    decreases a.len(),
{
    if a.len() > 0 && b.len() > 0 {
        if a[0] == b[0] {
            lemma_parts_asymmetric(a.skip(1), b.skip(1));
        } else if text_before(b[0], a[0]) {
            lemma_before_transitive(a[0], b[0], a[0]);
            lemma_before_irreflexive(a[0]);
        }
    }
}

proof fn lemma_parts_total(a: Seq<Seq<char>>, b: Seq<Seq<char>>)
    ensures
        a == b || parts_before(a, b) || parts_before(b, a),
    decreases a.len(),
{
    if a.len() > 0 && b.len() > 0 {
        lemma_before_total(a[0], b[0]);
        lemma_parts_total(a.skip(1), b.skip(1));
        if a.skip(1) == b.skip(1) {
            assert(a =~= seq![a[0]] + a.skip(1));
        }
    }
}

fn parts_come_before(x: &Vec<String>, y: &Vec<String>) -> (r: bool)
    ensures
        r == parts_before(texts(x@), texts(y@)),
{
    let ghost a = texts(x@);
    let ghost b = texts(y@);
    let mut i: usize = 0;
    assert(a.skip(0) =~= a);
    assert(b.skip(0) =~= b);
    while i < x.len() && i < y.len()
        invariant
            i <= x@.len(),
            i <= y@.len(),
            a == texts(x@),
            b == texts(y@),
            parts_before(a, b) == parts_before(a.skip(i as int), b.skip(i as int)),
        decreases x@.len() - i,
    {
        if !crate::text::same_text(x[i].as_str(), y[i].as_str()) {
            return comes_before(x[i].as_str(), y[i].as_str());
        }
        assert(a.skip(i as int).skip(1) =~= a.skip(i + 1));
        assert(b.skip(i as int).skip(1) =~= b.skip(i + 1));
        i += 1;
    }
    i < y.len()
}

/// Whether the path `a` comes before the path `b`.
pub fn path_comes_before(a: &str, b: &str) -> (r: bool)
    ensures
        r == path_before(a@, b@),
{
    let x = chars_of(a);
    let y = chars_of(b);
    let p = pieces(x.as_slice(), '/');
    let q = pieces(y.as_slice(), '/');
    parts_come_before(&p, &q)
}

/// Paths in order: none comes before one that precedes it.
pub open spec fn in_path_order(s: Seq<Seq<char>>) -> bool {
    forall|i: int, j: int|
        0 <= i < j < s.len() ==> !path_before(#[trigger] s[j], #[trigger] s[i])
}

/// Puts paths in order.
pub fn sort_paths(v: Vec<String>) -> (r: Vec<String>)
    ensures
        in_path_order(texts(r@)),
        texts(r@).to_multiset() == texts(v@).to_multiset(),
{
    let mut out: Vec<String> = Vec::new();
    let ghost all = texts(v@);
    assert(texts(out@) =~= all.take(0));
    for s in it: v
        invariant
            all == texts(it.seq()),
            in_path_order(texts(out@)),
            texts(out@).to_multiset() == all.take(it.index() as int).to_multiset(),
    {
        let ghost n = it.index() as int;
        let ghost had = texts(out@);
        let mut k: usize = out.len();
        while k > 0 && path_comes_before(s.as_str(), out[k - 1].as_str())
            invariant
                k <= out@.len(),
                had == texts(out@),
                forall|j: int| k <= j < had.len() ==> path_before(s@, #[trigger] had[j]),
            decreases k,
        {
            k -= 1;
        }
        proof {
            if k > 0 {
                assert(had[k - 1] == out@[k - 1]@);
            }
        }
        let ghost x = s@;
        out.insert(k, s);
        proof {
            let now = texts(out@);
            assert(now =~= had.insert(k as int, x));
            had.to_multiset_ensures();
            lemma_insert_multiset(had, k as int, x);
            assert(all.take(n + 1) =~= all.take(n).push(x));
            all.take(n).to_multiset_ensures();
            lemma_insert_keeps_order(had, k as int, x);
        }
    }
    assert(all.take(all.len() as int) =~= all);
    out
}

proof fn lemma_insert_multiset(s: Seq<Seq<char>>, k: int, x: Seq<char>)
    requires
        0 <= k <= s.len(),
    ensures
        s.insert(k, x).to_multiset() == s.to_multiset().insert(x),
{
    let t = s.insert(k, x);
    assert(t.remove(k) =~= s);
    t.to_multiset_ensures();
}

proof fn lemma_insert_keeps_order(s: Seq<Seq<char>>, k: int, x: Seq<char>)
    requires
        0 <= k <= s.len(),
        in_path_order(s),
        forall|j: int| k <= j < s.len() ==> path_before(x, #[trigger] s[j]),
        k > 0 ==> !path_before(x, s[k - 1]),
    ensures
        in_path_order(s.insert(k, x)),
{
    let now = s.insert(k, x);
    assert forall|i: int, j: int| 0 <= i < j < now.len() implies !path_before(
        #[trigger] now[j],
        #[trigger] now[i],
    ) by {
        let a = split(x, '/');
        if i == k {
            lemma_parts_asymmetric(a, split(s[j - 1], '/'));
        } else if j == k {
            if path_before(x, s[i]) {
                if i < k - 1 {
                    let b = split(s[k - 1], '/');
                    let c = split(s[i], '/');
                    lemma_parts_total(c, b);
                    if parts_before(c, b) {
                        lemma_parts_transitive(a, c, b);
                    }
                }
            }
        }
    }
}

pub proof fn lemma_path_total(a: Seq<char>, b: Seq<char>)
    ensures
        a == b || path_before(a, b) || path_before(b, a),
{
    lemma_parts_total(split(a, '/'), split(b, '/'));
    crate::paths::lemma_join_split(a);
    crate::paths::lemma_join_split(b);
}

pub proof fn lemma_path_transitive(a: Seq<char>, b: Seq<char>, c: Seq<char>)
    requires
        path_before(a, b),
        path_before(b, c),
    ensures
        path_before(a, c),
{
    lemma_parts_transitive(split(a, '/'), split(b, '/'), split(c, '/'));
}

/// Paths have one order: however they were gathered, they end up in the same
/// one.
pub proof fn law_path_order_is_unique(a: Seq<Seq<char>>, b: Seq<Seq<char>>)
    requires
        in_path_order(a),
        in_path_order(b),
        a.to_multiset() == b.to_multiset(),
    ensures
        a == b,
    decreases a.len(),
{
    broadcast use vstd::seq_lib::group_to_multiset_ensures;

    assert(a.len() == a.to_multiset().len());
    if a.len() > 0 {
        assert(b.to_multiset().count(a[0]) > 0);
        assert(a.to_multiset().count(b[0]) > 0);
        lemma_path_total(a[0], b[0]);
        let x = a.skip(1);
        let y = b.skip(1);
        assert(x =~= a.remove(0));
        assert(y =~= b.remove(0));
        assert forall|p: int, q: int| 0 <= p < q < x.len() implies !path_before(
            #[trigger] x[q],
            #[trigger] x[p],
        ) by {}
        assert forall|p: int, q: int| 0 <= p < q < y.len() implies !path_before(
            #[trigger] y[q],
            #[trigger] y[p],
        ) by {}
        law_path_order_is_unique(x, y);
        assert(a =~= seq![a[0]] + x);
    }
}

/// Texts are ordered by the first character in which they differ; one that
/// goes on where the other ends comes behind it.
pub proof fn law_first_difference_decides(
    same: Seq<char>,
    x: char,
    y: char,
    a: Seq<char>,
    b: Seq<char>,
)
    ensures
        x != y ==> (text_before(same + seq![x] + a, same + seq![y] + b) <==> x < y),
        text_before(same, same + seq![x] + a),
        !text_before(same + seq![x] + a, same),
        !text_before(same, same),
    decreases same.len(),
{
    let s = same + seq![x] + a;
    let t = same + seq![y] + b;
    if same.len() == 0 {
        assert(s[0] == x);
        assert(t[0] == y);
    } else {
        let rest = same.skip(1);
        law_first_difference_decides(rest, x, y, a, b);
        assert(s[0] == same[0] && t[0] == same[0]);
        assert(s.skip(1) =~= rest + seq![x] + a);
        assert(t.skip(1) =~= rest + seq![y] + b);
    }
}

/// Paths are ordered by the first part in which they differ, whatever follows
/// it, and a directory comes before what lies in it.
pub proof fn law_first_part_decides(
    same: Seq<Seq<char>>,
    x: Seq<char>,
    y: Seq<char>,
    a: Seq<Seq<char>>,
    b: Seq<Seq<char>>,
)
    ensures
        x != y ==> (parts_before(same + seq![x] + a, same + seq![y] + b) <==> text_before(x, y)),
        parts_before(same, same + seq![x] + a),
        !parts_before(same + seq![x] + a, same),
        !parts_before(same, same),
    decreases same.len(),
{
    let s = same + seq![x] + a;
    let t = same + seq![y] + b;
    if same.len() == 0 {
        assert(s[0] == x);
        assert(t[0] == y);
    } else {
        let rest = same.skip(1);
        law_first_part_decides(rest, x, y, a, b);
        assert(s[0] == same[0] && t[0] == same[0]);
        assert(s.skip(1) =~= rest + seq![x] + a);
        assert(t.skip(1) =~= rest + seq![y] + b);
    }
}

} // verus!
