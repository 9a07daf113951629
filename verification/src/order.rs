//! The order in which a report lists its rows, and a sort into that order.
use vstd::prelude::*;

verus! {

/// A row type whose report lists rows in a fixed order: `a.goes_before(b)`
/// holds when `a` may be listed ahead of `b`. The relation is total and
/// transitive; rows that go before each other may be listed either way.
pub trait ReportOrder: Sized + Copy {
    spec fn goes_before(self, other: Self) -> bool;

    proof fn lemma_goes_before_total(a: Self, b: Self)
        ensures
            a.goes_before(b) || b.goes_before(a),
    ;

    proof fn lemma_goes_before_transitive(a: Self, b: Self, c: Self)
        requires
            a.goes_before(b),
            b.goes_before(c),
        ensures
            a.goes_before(c),
    ;

    /// Decides `self.goes_before(*other)`.
    fn check_goes_before(&self, other: &Self) -> (r: bool)
        ensures
            r == self.goes_before(*other),
    ;
}

/// Every row of `rows` goes before every row listed after it.
pub open spec fn in_report_order<T: ReportOrder>(rows: Seq<T>) -> bool {
    forall|i: int, j: int| 0 <= i < j < rows.len() ==> #[trigger] rows[i].goes_before(rows[j])
}

/// Inserting `x` at `p` keeps `rows` ordered and free of duplicates, when
/// every row before `p` goes before `x`, `x` goes before every row from `p`
/// on, and `x` is not yet among the rows.
proof fn lemma_insert_in_order<T: ReportOrder>(rows: Seq<T>, p: int, x: T)
    requires
        0 <= p <= rows.len(),
        in_report_order(rows),
        rows.no_duplicates(),
        !rows.contains(x),
        forall|k: int| 0 <= k < p ==> #[trigger] rows[k].goes_before(x),
        forall|k: int| p <= k < rows.len() ==> x.goes_before(#[trigger] rows[k]),
    ensures
        in_report_order(rows.insert(p, x)),
        rows.insert(p, x).no_duplicates(),
        forall|y: T| rows.insert(p, x).contains(y) <==> (rows.contains(y) || y == x),
{
    let s = rows.insert(p, x);
    rows.insert_ensures(p, x);
    assert forall|i: int, j: int| 0 <= i < j < s.len() implies #[trigger] s[i].goes_before(s[j]) by {
        if j < p {
            assert(s[i] == rows[i] && s[j] == rows[j]);
        } else if j == p {
            assert(s[i] == rows[i]);
        } else if i < p {
            assert(s[i] == rows[i] && s[j] == rows[j - 1]);
        } else if i == p {
            assert(s[j] == rows[j - 1]);
        } else {
            assert(s[i] == rows[i - 1] && s[j] == rows[j - 1]);
        }
    }
    assert forall|i: int, j: int| 0 <= i < s.len() && 0 <= j < s.len() && i != j implies s[i]
        != s[j] by {
        let oi = if i < p { i } else { i - 1 };
        let oj = if j < p { j } else { j - 1 };
        if i != p && j != p {
            assert(s[i] == rows[oi] && s[j] == rows[oj]);
        } else if i == p {
            assert(s[j] == rows[oj]);
        } else {
            assert(s[i] == rows[oi]);
        }
    }
    assert forall|y: T| s.contains(y) implies (rows.contains(y) || y == x) by {
        let k = choose|k: int| 0 <= k < s.len() && s[k] == y;
        if k < p {
            assert(rows[k] == y);
        } else if k > p {
            assert(rows[k - 1] == y);
        }
    }
    assert forall|y: T| (rows.contains(y) || y == x) implies s.contains(y) by {
        if y == x {
            assert(s[p] == y);
        } else {
            let k = choose|k: int| 0 <= k < rows.len() && rows[k] == y;
            if k < p {
                assert(s[k] == y);
            } else {
                assert(s[k + 1] == y);
            }
        }
    }
}

/// Lists the distinct rows of `items` in report order.
pub fn sort_into_report_order<T: ReportOrder>(items: Vec<T>) -> (r: Vec<T>)
    requires
        items@.no_duplicates(),
    ensures
        r@.len() == items@.len(),
        r@.no_duplicates(),
        forall|x: T| r@.contains(x) <==> items@.contains(x),
        in_report_order(r@),
{
    let mut out: Vec<T> = Vec::new();
    let n = items.len();
    for i in 0..n
        invariant
            n == items@.len(),
            items@.no_duplicates(),
            out@.len() == i,
            out@.no_duplicates(),
            forall|x: T| out@.contains(x) <==> items@.take(i as int).contains(x),
            in_report_order(out@),
    {
        let x = items[i];
        let mut p: usize = 0;
        while p < out.len() && out[p].check_goes_before(&x)
            invariant
                p <= out@.len(),
                forall|k: int| 0 <= k < p ==> #[trigger] out@[k].goes_before(x),
            decreases out@.len() - p,
        {
            p = p + 1;
        }
        proof {
            if p < out@.len() {
                T::lemma_goes_before_total(out@[p as int], x);
                assert forall|k: int| p <= k < out@.len() implies x.goes_before(
                    #[trigger] out@[k],
                ) by {
                    if k > p {
                        T::lemma_goes_before_transitive(x, out@[p as int], out@[k]);
                    }
                }
            }
            assert(!items@.take(i as int).contains(x)) by {
                if items@.take(i as int).contains(x) {
                    let k = choose|k: int| 0 <= k < i && items@.take(i as int)[k] == x;
                    assert(items@[k] == items@[i as int]);
                }
            }
            assert(items@.take(i + 1) =~= items@.take(i as int).push(x));
        }
        let ghost old_out = out@;
        out.insert(p, x);
        proof {
            let ghost prev = items@.take(i as int);
            assert(out@ == old_out.insert(p as int, x));
            lemma_insert_in_order(old_out, p as int, x);
            assert forall|y: T| prev.push(x).contains(y) <==> (prev.contains(y) || y == x) by {
                if prev.push(x).contains(y) {
                    let k = choose|k: int| 0 <= k < prev.push(x).len() && prev.push(x)[k] == y;
                    if k < prev.len() {
                        assert(prev[k] == y);
                    }
                }
                if prev.contains(y) {
                    let k = choose|k: int| 0 <= k < prev.len() && prev[k] == y;
                    assert(prev.push(x)[k] == y);
                }
                if y == x {
                    assert(prev.push(x)[prev.len() as int] == y);
                }
            }
            assert forall|y: T| out@.contains(y) <==> items@.take(i + 1).contains(y) by {
                assert(old_out.insert(p as int, x).contains(y) <==> (old_out.contains(y) || y == x));
                assert(old_out.contains(y) <==> prev.contains(y));
            }
        }
    }
    proof {
        assert(items@.take(n as int) =~= items@);
    }
    out
}

} // verus!
