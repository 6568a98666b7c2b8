use vstd::prelude::*;
use crate::version::{
    bytes_equal, bytes_less, bytes_lt, lemma_bytes_lt_irrefl, lemma_bytes_lt_total, lemma_bytes_lt_trans,
    views,
};

verus! {

/// Strictly ascending in byte order, each pair compared.
pub open spec fn strictly_sorted(s: Seq<Seq<u8>>) -> bool {
    forall|i: int, j: int| 0 <= i < j < s.len() ==> bytes_lt(#[trigger] s[i], #[trigger] s[j])
}

/// Whether `a` and `b` hold the same names.
pub open spec fn same_names(a: Seq<Seq<u8>>, b: Seq<Seq<u8>>) -> bool {
    forall|x: Seq<u8>| a.contains(x) <==> b.contains(x)
}

/// Directory enumeration order does not matter: two strictly sorted
/// listings of the same names are the same listing.
pub proof fn lemma_sorted_listing_unique(a: Seq<Seq<u8>>, b: Seq<Seq<u8>>)
    requires
        strictly_sorted(a),
        strictly_sorted(b),
        same_names(a, b),
    ensures
        a == b,
    decreases a.len(),
{
    if a.len() == 0 {
        if b.len() > 0 {
            assert(b.contains(b[0]));
        }
        assert(a =~= b);
    } else if b.len() == 0 {
        assert(a.contains(a[0]));
    } else {
        assert(a.contains(a[0]));
        assert(b.contains(b[0]));
        let i = choose|i: int| 0 <= i < a.len() && a[i] == b[0];
        let j = choose|j: int| 0 <= j < b.len() && b[j] == a[0];
        lemma_bytes_lt_total(a[0], b[0]);
        if i > 0 && j > 0 {
            assert(bytes_lt(a[0], a[i]));
            assert(bytes_lt(b[0], b[j]));
        }
        assert(a[0] == b[0]);
        let ta = a.drop_first();
        let tb = b.drop_first();
        assert forall|x: Seq<u8>| ta.contains(x) <==> tb.contains(x) by {
            if ta.contains(x) {
                let k = choose|k: int| 0 <= k < ta.len() && ta[k] == x;
                assert(a[k + 1] == x);
                assert(bytes_lt(a[0], a[k + 1]));
                lemma_bytes_lt_irrefl(x);
                assert(b.contains(x));
                let m = choose|m: int| 0 <= m < b.len() && b[m] == x;
                assert(m != 0);
                assert(tb[m - 1] == x);
            }
            if tb.contains(x) {
                let k = choose|k: int| 0 <= k < tb.len() && tb[k] == x;
                assert(b[k + 1] == x);
                assert(bytes_lt(b[0], b[k + 1]));
                lemma_bytes_lt_irrefl(x);
                assert(a.contains(x));
                let m = choose|m: int| 0 <= m < a.len() && a[m] == x;
                assert(m != 0);
                assert(ta[m - 1] == x);
            }
        }
        assert forall|p: int, q: int| 0 <= p < q < ta.len() implies bytes_lt(#[trigger] ta[p], #[trigger] ta[q]) by {
            assert(ta[p] == a[p + 1] && ta[q] == a[q + 1]);
        }
        assert forall|p: int, q: int| 0 <= p < q < tb.len() implies bytes_lt(#[trigger] tb[p], #[trigger] tb[q]) by {
            assert(tb[p] == b[p + 1] && tb[q] == b[q + 1]);
        }
        lemma_sorted_listing_unique(ta, tb);
        assert(a =~= seq![a[0]] + ta);
        assert(b =~= seq![b[0]] + tb);
    }
}

/// The names of a directory listing in byte order, each once, whatever
/// order the listing came in.
pub fn sort_names(names: Vec<Vec<u8>>) -> (r: Vec<Vec<u8>>)
    ensures
        strictly_sorted(views(r@)),
        same_names(views(r@), views(names@)),
{
    let ghost input = views(names@);
    let mut out: Vec<Vec<u8>> = Vec::new();
    let mut i: usize = 0;
    while i < names.len()
        invariant
            0 <= i <= names@.len(),
            input == views(names@),
            strictly_sorted(views(out@)),
            forall|x: Seq<u8>| views(out@).contains(x) <==> input.subrange(0, i as int).contains(x),
        decreases names@.len() - i,
    {
        let x = names[i].clone();
        assert(x@ == input[i as int]);
        let ghost before = views(out@);
        let mut p: usize = 0;
        while p < out.len() && bytes_less(&out[p], &x)
            invariant
                0 <= p <= out@.len(),
                views(out@) == before,
                forall|k: int| 0 <= k < p ==> bytes_lt(#[trigger] before[k], x@),
            decreases out@.len() - p,
        {
            p = p + 1;
        }
        let dup = p < out.len() && bytes_equal(&out[p], &x);
        proof {
            let cur = input.subrange(0, i as int);
            let nxt = input.subrange(0, i + 1);
            assert forall|y: Seq<u8>| nxt.contains(y) <==> before.contains(y) || y == x@ by {
                if nxt.contains(y) {
                    let k = choose|k: int| 0 <= k < nxt.len() && nxt[k] == y;
                    if k < i {
                        assert(cur[k] == y);
                    }
                }
                if before.contains(y) {
                    let k = choose|k: int| 0 <= k < cur.len() && cur[k] == y;
                    assert(nxt[k] == y);
                }
                if y == x@ {
                    assert(nxt[i as int] == y);
                }
            }
        }
        if !dup {
            out.insert(p, x);
            proof {
                let after = views(out@);
                assert(after =~= before.insert(p as int, x@));
                if p < before.len() {
                    lemma_bytes_lt_total(before[p as int], x@);
                }
                assert forall|a: int, b: int| 0 <= a < b < after.len() implies bytes_lt(#[trigger] after[a], #[trigger] after[b]) by {
                    if b < p {
                    } else if a < p && b == p {
                    } else if a < p && b > p {
                        assert(after[b] == before[b - 1]);
                    } else if a == p {
                        assert(after[b] == before[b - 1]);
                        if b - 1 > p {
                            assert(bytes_lt(before[p as int], before[b - 1]));
                            lemma_bytes_lt_trans(x@, before[p as int], before[b - 1]);
                        }
                    } else {
                        assert(after[a] == before[a - 1]);
                        assert(after[b] == before[b - 1]);
                    }
                }
                assert forall|y: Seq<u8>| after.contains(y) <==> before.contains(y) || y == x@ by {
                    if after.contains(y) {
                        let k = choose|k: int| 0 <= k < after.len() && after[k] == y;
                        if k < p {
                            assert(before[k] == y);
                        } else if k > p {
                            assert(before[k - 1] == y);
                        }
                    }
                    if before.contains(y) {
                        let k = choose|k: int| 0 <= k < before.len() && before[k] == y;
                        if k < p {
                            assert(after[k] == y);
                        } else {
                            assert(after[k + 1] == y);
                        }
                    }
                    if y == x@ {
                        assert(after[p as int] == y);
                    }
                }
            }
        } else {
            proof {
                assert(before[p as int] == x@);
            }
        }
        i = i + 1;
    }
    assert(input.subrange(0, names@.len() as int) =~= input);
    out
}

} // verus!
