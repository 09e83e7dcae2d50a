//! Small combinatorial helpers: adjacent pairs of a sequence, mixed-radix
//! counting (the cross-product index generator behind the strait search),
//! and sequence concatenation.

use vstd::prelude::*;

verus! {

/// Every pair of adjacent elements of `slice`, in order.
pub fn windows2<T: Copy>(slice: &Vec<T>) -> (out: Vec<(T, T)>)
    requires
        slice@.len() >= 2,
    ensures
        out@.len() == slice@.len() - 1,
        forall|i: int| 0 <= i < out@.len() ==> #[trigger] out@[i] == (slice@[i], slice@[i + 1]),
{
    let mut out: Vec<(T, T)> = Vec::new();
    let mut i: usize = 0;
    while i < slice.len() - 1
        invariant
            slice@.len() >= 2,
            i <= slice@.len() - 1,
            out@.len() == i as int,
            forall|k: int| 0 <= k < out@.len() ==> #[trigger] out@[k] == (slice@[k], slice@[k + 1]),
        decreases slice@.len() - 1 - i,
    {
        out.push((slice[i], slice[i + 1]));
        i += 1;
    }
    out
}

/// Moves all elements of `b` to the end of `a`.
pub fn concat<T>(mut a: Vec<T>, mut b: Vec<T>) -> (out: Vec<T>)
    ensures
        out@ == a@ + b@,
{
    a.append(&mut b);
    a
}

/// The number of values a mixed-radix counter over digit bounds `base`
/// runs through: the product of the bounds.
pub open spec fn radix_product(base: Seq<usize>) -> nat
    decreases base.len(),
{
    if base.len() == 0 {
        1
    } else {
        base[0] as nat * radix_product(base.drop_first())
    }
}

/// All values of a mixed-radix counter over digit bounds `base`, in
/// counting order, least-significant digit first: entry k holds the digits
/// of k, so digit 0 cycles fastest. An empty `base` yields the single empty
/// value; a zero bound anywhere yields no values at all.
pub open spec fn counter_spec(base: Seq<usize>) -> Seq<Seq<usize>>
    decreases base.len(),
{
    if base.len() == 0 {
        seq![Seq::<usize>::empty()]
    } else {
        let rest = counter_spec(base.drop_first());
        Seq::new(
            base[0] as nat * rest.len(),
            |k: int| seq![(k % base[0] as int) as usize] + rest[k / base[0] as int],
        )
    }
}

/// The counter runs through exactly `radix_product(base)` values.
pub proof fn lemma_counter_len(base: Seq<usize>)
    ensures
        counter_spec(base).len() == radix_product(base),
    decreases base.len(),
{
    if base.len() > 0 {
        lemma_counter_len(base.drop_first());
    }
}

/// Every counter value has one digit per bound, and each digit is below
/// its bound.
pub proof fn lemma_counter_entries(base: Seq<usize>)
    ensures
        forall|k: int|
            0 <= k < counter_spec(base).len() ==> {
                &&& (#[trigger] counter_spec(base)[k]).len() == base.len()
                &&& forall|j: int|
                    0 <= j < base.len() ==> #[trigger] counter_spec(base)[k][j] < base[j]
            },
    decreases base.len(),
{
    if base.len() > 0 {
        lemma_counter_entries(base.drop_first());
        let rest = counter_spec(base.drop_first());
        let b0 = base[0] as int;
        assert forall|k: int| 0 <= k < counter_spec(base).len() implies {
            &&& (#[trigger] counter_spec(base)[k]).len() == base.len()
            &&& forall|j: int| 0 <= j < base.len() ==> #[trigger] counter_spec(base)[k][j] < base[j]
        } by {
            assert(0 <= k < b0 * rest.len());
            assert(b0 > 0) by (nonlinear_arith)
                requires 0 <= k < b0 * rest.len(),
            ;
            assert(0 <= k / b0 < rest.len() && 0 <= k % b0 < b0) by (nonlinear_arith)
                requires 0 <= k < b0 * rest.len() && b0 > 0,
            ;
            let entry = counter_spec(base)[k];
            let sub = rest[k / b0];
            assert(entry == seq![(k % b0) as usize] + sub);
            assert(entry.len() == base.len());
            assert forall|j: int| 0 <= j < base.len() implies #[trigger] entry[j] < base[j] by {
                if j == 0 {
                    assert(entry[0] == (k % b0) as usize);
                } else {
                    assert(entry[j] == sub[j - 1]);
                    assert(sub[j - 1] < base.drop_first()[j - 1]);
                }
            }
        }
    }
}

/// Every in-bounds digit vector is one of the counter's values: the
/// count runs through the whole cross product.
pub proof fn lemma_counter_complete(base: Seq<usize>, digits: Seq<usize>)
    requires
        digits.len() == base.len(),
        forall|j: int| 0 <= j < base.len() ==> digits[j] < #[trigger] base[j],
    ensures
        exists|k: int|
            0 <= k < counter_spec(base).len() && #[trigger] counter_spec(base)[k] == digits,
    decreases base.len(),
{
    if base.len() == 0 {
        assert(counter_spec(base)[0] =~= digits);
    } else {
        let b0 = base[0] as int;
        let rest = counter_spec(base.drop_first());
        assert forall|j: int| 0 <= j < base.drop_first().len() implies digits.drop_first()[j]
            < #[trigger] base.drop_first()[j] by {
            assert(base.drop_first()[j] == base[j + 1]);
            assert(digits.drop_first()[j] == digits[j + 1]);
        }
        lemma_counter_complete(base.drop_first(), digits.drop_first());
        let kr = choose|kr: int|
            0 <= kr < rest.len() && #[trigger] rest[kr] == digits.drop_first();
        let k = digits[0] + b0 * kr;
        assert(0 <= k < b0 * rest.len()) by (nonlinear_arith)
            requires
                k == digits[0] + b0 * kr,
                0 <= (digits[0] as int) && (digits[0] as int) < b0,
                0 <= kr < rest.len(),
        ;
        vstd::arithmetic::div_mod::lemma_fundamental_div_mod_converse(
            k,
            b0,
            kr,
            digits[0] as int,
        );
        assert(counter_spec(base)[k] == seq![(k % b0) as usize] + rest[k / b0]);
        assert(counter_spec(base)[k] =~= digits);
    }
}

/// No value repeats: the counter's entries are pairwise distinct.
pub proof fn lemma_counter_distinct(base: Seq<usize>)
    ensures
        forall|k1: int, k2: int|
            0 <= k1 < k2 < counter_spec(base).len() ==> #[trigger] counter_spec(base)[k1]
                != #[trigger] counter_spec(base)[k2],
    decreases base.len(),
{
    if base.len() > 0 {
        lemma_counter_distinct(base.drop_first());
        let rest = counter_spec(base.drop_first());
        let b0 = base[0] as int;
        assert forall|k1: int, k2: int|
            0 <= k1 < k2 < counter_spec(base).len() implies #[trigger] counter_spec(base)[k1]
            != #[trigger] counter_spec(base)[k2] by {
            assert(0 <= k1 < b0 * rest.len() && 0 <= k2 < b0 * rest.len());
            assert(b0 > 0) by (nonlinear_arith)
                requires 0 <= k1 < b0 * rest.len(),
            ;
            assert(0 <= k1 / b0 < rest.len() && 0 <= k1 % b0 < b0) by (nonlinear_arith)
                requires 0 <= k1 < b0 * rest.len() && b0 > 0,
            ;
            assert(0 <= k2 / b0 < rest.len() && 0 <= k2 % b0 < b0) by (nonlinear_arith)
                requires 0 <= k2 < b0 * rest.len() && b0 > 0,
            ;
            let e1 = counter_spec(base)[k1];
            let e2 = counter_spec(base)[k2];
            assert(e1 == seq![(k1 % b0) as usize] + rest[k1 / b0]);
            assert(e2 == seq![(k2 % b0) as usize] + rest[k2 / b0]);
            if k1 % b0 != k2 % b0 {
                assert(e1[0] != e2[0]);
            } else {
                vstd::arithmetic::div_mod::lemma_fundamental_div_mod(k1, b0);
                vstd::arithmetic::div_mod::lemma_fundamental_div_mod(k2, b0);
                assert(k1 / b0 != k2 / b0);
                if k1 / b0 < k2 / b0 {
                    assert(rest[k1 / b0] != rest[k2 / b0]);
                } else {
                    assert(rest[k2 / b0] != rest[k1 / b0]);
                }
                if e1 == e2 {
                    assert(e1.drop_first() =~= rest[k1 / b0]);
                    assert(e2.drop_first() =~= rest[k2 / b0]);
                }
            }
        }
    }
}

/// A counter over nowhere-zero bounds runs through at least one value.
pub proof fn lemma_radix_product_positive(base: Seq<usize>)
    requires
        forall|i: int| 0 <= i < base.len() ==> #[trigger] base[i] >= 1,
    ensures
        radix_product(base) >= 1,
    decreases base.len(),
{
    if base.len() > 0 {
        assert(base[0] >= 1);
        assert forall|i: int| 0 <= i < base.drop_first().len() implies #[trigger] base.drop_first()[i] >= 1 by {
            assert(base.drop_first()[i] == base[i + 1]);
        }
        lemma_radix_product_positive(base.drop_first());
        assert(radix_product(base) >= 1) by (nonlinear_arith)
            requires
                radix_product(base) == base[0] as nat * radix_product(base.drop_first()),
                base[0] as nat >= 1,
                radix_product(base.drop_first()) >= 1,
        ;
    }
}

/// A generalized version of counting in an arbitrary mixed radix: returns
/// every number the count runs through, in order, least-significant digit
/// first. For example, over the bounds `[2, 2, 2]` the result is
/// `[0,0,0]`, `[1,0,0]`, `[0,1,0]`, `[1,1,0]`, and so on.
pub fn counter(base: &Vec<usize>) -> (out: Vec<Vec<usize>>)
    ensures
        out.deep_view() == counter_spec(base@),
{
    let out = counter_from(base, 0);
    proof {
        assert(base@.skip(0) =~= base@);
    }
    out
}

/// The counter over the digit bounds `base[i..]`.
fn counter_from(base: &Vec<usize>, i: usize) -> (out: Vec<Vec<usize>>)
    requires
        i <= base@.len(),
    ensures
        out.deep_view() == counter_spec(base@.skip(i as int)),
    decreases base@.len() - i,
{
    if i == base.len() {
        let mut out: Vec<Vec<usize>> = Vec::new();
        out.push(Vec::new());
        proof {
            assert(out.deep_view() =~~= counter_spec(base@.skip(i as int)));
        }
        out
    } else {
        let rest = counter_from(base, i + 1);
        let b0 = base[i];
        let ghost rest_dv = counter_spec(base@.skip(i as int + 1));
        let ghost full = counter_spec(base@.skip(i as int));
        proof {
            assert(base@.skip(i as int).drop_first() =~= base@.skip(i as int + 1));
            assert(base@.skip(i as int)[0] == base@[i as int]);
        }
        let mut out: Vec<Vec<usize>> = Vec::new();
        let mut r: usize = 0;
        while r < rest.len()
            invariant
                rest.deep_view() == rest_dv,
                full == counter_spec(base@.skip(i as int)),
                full.len() == b0 as int * rest_dv.len(),
                forall|k: int|
                    0 <= k < full.len() ==> #[trigger] full[k] == seq![
                        (k % b0 as int) as usize,
                    ] + rest_dv[k / b0 as int],
                r <= rest@.len(),
                rest@.len() == rest_dv.len(),
                out.deep_view().len() == r as int * b0 as int,
                forall|k: int|
                    0 <= k < out.deep_view().len() ==> #[trigger] out.deep_view()[k] == full[k],
            decreases rest@.len() - r,
        {
            let mut d: usize = 0;
            while d < b0
                invariant
                    rest.deep_view() == rest_dv,
                    full == counter_spec(base@.skip(i as int)),
                    full.len() == b0 as int * rest_dv.len(),
                    forall|k: int|
                        0 <= k < full.len() ==> #[trigger] full[k] == seq![
                            (k % b0 as int) as usize,
                        ] + rest_dv[k / b0 as int],
                    r < rest@.len(),
                    rest@.len() == rest_dv.len(),
                    d <= b0,
                    out.deep_view().len() == r as int * b0 as int + d as int,
                    forall|k: int|
                        0 <= k < out.deep_view().len() ==> #[trigger] out.deep_view()[k]
                            == full[k],
                decreases b0 - d,
            {
                let mut row: Vec<usize> = rest[r].clone();
                row.insert(0, d);
                proof {
                    assert(rest[r as int]@ == rest.deep_view()[r as int]) by {
                        assert(rest.deep_view()[r as int] == rest[r as int].deep_view());
                    }
                    assert(row@ =~= seq![d] + rest_dv[r as int]);
                    let k = r as int * b0 as int + d as int;
                    vstd::arithmetic::div_mod::lemma_fundamental_div_mod_converse(
                        k,
                        b0 as int,
                        r as int,
                        d as int,
                    );
                    assert(k / b0 as int == r as int && k % b0 as int == d as int);
                    assert(0 <= k < full.len()) by (nonlinear_arith)
                        requires
                            k == r as int * b0 as int + d as int,
                            full.len() == b0 as int * rest_dv.len(),
                            0 <= (r as int) && (r as int) < rest_dv.len(),
                            0 <= (d as int) && (d as int) < (b0 as int),
                    ;
                    assert(full[k] == row@);
                }
                let ghost prior = out.deep_view();
                let ghost row_view = row@;
                proof {
                    assert(row.deep_view() =~= row_view);
                }
                out.push(row);
                proof {
                    assert(out.deep_view() =~= prior.push(row_view));
                }
                d += 1;
            }
            r += 1;
            proof {
                assert(out.deep_view().len() == r as int * b0 as int) by (nonlinear_arith)
                    requires
                        out.deep_view().len() == (r as int - 1) * b0 as int + b0 as int,
                ;
            }
        }
        proof {
            assert(out.deep_view().len() == rest_dv.len() as int * b0 as int);
            assert(full.len() == b0 as int * rest_dv.len());
            assert(out.deep_view().len() == full.len()) by (nonlinear_arith)
                requires
                    out.deep_view().len() == rest_dv.len() as int * b0 as int,
                    full.len() == b0 as int * rest_dv.len(),
            ;
            assert forall|k: int| 0 <= k < full.len() implies out.deep_view()[k] == full[k] by {
            }
            assert(out.deep_view() =~= full);
        }
        out
    }
}

} // verus!
