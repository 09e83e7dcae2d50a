//! Extraction of training evidence from finished games: for every
//! non-Pass play in a game record and every later non-Pass play by the
//! same seat, one sample pairing the two with the number of rounds
//! between them. The numeric fitting of the cost model's weights to
//! these samples happens outside this crate; this module pins down
//! exactly which samples a record yields.

use vstd::prelude::*;

use crate::play::Play;

verus! {

/// One piece of training evidence: a seat played `before`, and
/// `rounds` rounds later (four turns each) the same seat played
/// `after`.
pub struct TrainingSample {
    pub before: Play,
    pub after: Play,
    pub rounds: usize,
}

/// Positions `i` and `i + 4 d` of the record form a sample: both in
/// range, same seat (four seats play in fixed rotation), both non-Pass.
pub open spec fn sample_at(record: Seq<Play>, i: int, d: int) -> bool {
    &&& 0 <= i
    &&& 1 <= d
    &&& i + 4 * d < record.len()
    &&& !(record[i].spec_kind() is Pass)
    &&& !(record[i + 4 * d].spec_kind() is Pass)
}

/// The sample pairs exactly the plays at positions `i` and `i + 4 d`.
pub open spec fn sample_matches(record: Seq<Play>, s: TrainingSample, i: int, d: int) -> bool {
    &&& s.before.eqv(record[i])
    &&& s.after.eqv(record[i + 4 * d])
    &&& s.rounds == d
}

/// The sample pairs some two record positions four apart, both
/// non-Pass.
pub open spec fn sample_sound(record: Seq<Play>, s: TrainingSample) -> bool {
    exists|i: int, d: int| sample_at(record, i, d) && sample_matches(record, s, i, d)
}

/// Some collected sample pairs positions `i` and `i + 4 d`.
pub open spec fn sample_present(
    out: Seq<TrainingSample>,
    record: Seq<Play>,
    i: int,
    d: int,
) -> bool {
    exists|k: int| 0 <= k < out.len() && sample_matches(record, #[trigger] out[k], i, d)
}

/// The sample positions `(i, d), (i, d+1), ...` that the record admits
/// at base position `i`, in order of elapsed rounds.
pub open spec fn row_positions(record: Seq<Play>, i: int, d: int) -> Seq<(int, int)>
    decreases record.len() + 4 - i - 4 * d,
{
    if i < 0 || d < 1 || i + 4 * d >= record.len() {
        Seq::empty()
    } else {
        let rest = row_positions(record, i, d + 1);
        if !(record[i].spec_kind() is Pass) && !(record[i + 4 * d].spec_kind() is Pass) {
            seq![(i, d)] + rest
        } else {
            rest
        }
    }
}

/// All sample positions of the record from base position `i` on, in
/// order of base position, then elapsed rounds.
pub open spec fn positions_from(record: Seq<Play>, i: int) -> Seq<(int, int)>
    decreases record.len() - i,
{
    if i < 0 || i >= record.len() {
        Seq::empty()
    } else {
        row_positions(record, i, 1) + positions_from(record, i + 1)
    }
}

/// Every sample position of the record, in order of base position, then
/// elapsed rounds.
pub open spec fn sample_positions(record: Seq<Play>) -> Seq<(int, int)> {
    positions_from(record, 0)
}

/// A Pass at the base position admits no samples.
proof fn lemma_row_positions_pass(record: Seq<Play>, i: int, d: int)
    requires
        0 <= i < record.len(),
        record[i].spec_kind() is Pass,
    ensures
        row_positions(record, i, d) == Seq::<(int, int)>::empty(),
    decreases record.len() + 4 - i - 4 * d,
{
    if !(d < 1 || i + 4 * d >= record.len()) {
        lemma_row_positions_pass(record, i, d + 1);
    }
}

/// Stepping one element into a suffix: its head is the element at the
/// cut, and the rest is the suffix one further on.
proof fn lemma_skip_step(s: Seq<(int, int)>, l: int)
    requires
        0 <= l < s.len(),
    ensures
        s.skip(l)[0] == s[l],
        s.skip(l + 1) =~= s.skip(l).skip(1),
{
    assert(s.skip(l)[0] == s[l]);
    assert forall|w: int| 0 <= w < s.skip(l + 1).len() implies #[trigger] s.skip(l + 1)[w]
        == s.skip(l).skip(1)[w] by {
        assert(s.skip(l + 1)[w] == s[w + l + 1]);
        assert(s.skip(l)[w + 1] == s[w + 1 + l]);
        assert(s.skip(l).skip(1)[w] == s.skip(l)[w + 1]);
    }
}

/// Collects every training sample a game record yields: one for each
/// pair of record positions four apart (one per elapsed round) whose
/// plays are both non-Pass.
pub fn samples_from_record(record: &Vec<Play>) -> (out: Vec<TrainingSample>)
    ensures
        forall|k: int| 0 <= k < out@.len() ==> sample_sound(record@, #[trigger] out@[k]),
        forall|i: int, d: int|
            sample_at(record@, i, d) ==> sample_present(out@, record@, i, d),
        out@.len() == sample_positions(record@).len(),
        forall|k: int|
            0 <= k < out@.len() ==> sample_matches(
                record@,
                #[trigger] out@[k],
                sample_positions(record@)[k].0,
                sample_positions(record@)[k].1,
            ),
{
    let ghost total = sample_positions(record@);
    proof {
        assert(total.skip(0) =~= positions_from(record@, 0));
    }
    let mut out: Vec<TrainingSample> = Vec::new();
    let mut i: usize = 0;
    while i < record.len()
        invariant
            i <= record@.len(),
            forall|k: int| 0 <= k < out@.len() ==> sample_sound(record@, #[trigger] out@[k]),
            forall|ii: int, dd: int|
                sample_at(record@, ii, dd) && ii < i ==> sample_present(out@, record@, ii, dd),
            total == sample_positions(record@),
            out@.len() <= total.len(),
            forall|k: int|
                0 <= k < out@.len() ==> sample_matches(
                    record@,
                    #[trigger] out@[k],
                    total[k].0,
                    total[k].1,
                ),
            total.skip(out@.len() as int) == positions_from(record@, i as int),
        decreases record@.len() - i,
    {
        if !record[i].is_pass() {
            let max_d = (record.len() - 1 - i) / 4;
            let mut d: usize = 1;
            proof {
                assert(positions_from(record@, i as int) == row_positions(record@, i as int, 1)
                    + positions_from(record@, i as int + 1));
            }
            while d <= max_d
                invariant
                    1 <= d,
                    i < record@.len(),
                    !(record@[i as int].spec_kind() is Pass),
                    max_d == (record@.len() - 1 - i as int) / 4,
                    record@.len() <= usize::MAX,
                    forall|k: int| 0 <= k < out@.len() ==> sample_sound(record@, #[trigger] out@[k]),
                    forall|ii: int, dd: int|
                        sample_at(record@, ii, dd) && ii < i ==> sample_present(
                            out@,
                            record@,
                            ii,
                            dd,
                        ),
                    forall|dd: int|
                        sample_at(record@, i as int, dd) && dd < d ==> sample_present(
                            out@,
                            record@,
                            i as int,
                            dd,
                        ),
                    total == sample_positions(record@),
                    out@.len() <= total.len(),
                    forall|k: int|
                        0 <= k < out@.len() ==> sample_matches(
                            record@,
                            #[trigger] out@[k],
                            total[k].0,
                            total[k].1,
                        ),
                    total.skip(out@.len() as int) == row_positions(record@, i as int, d as int)
                        + positions_from(record@, i as int + 1),
                decreases max_d + 1 - d,
            {
                proof {
                    assert(4 * (d as int) <= record@.len() - 1 - i as int) by (nonlinear_arith)
                        requires
                            max_d == (record@.len() - 1 - i as int) / 4,
                            0 <= record@.len() - 1 - (i as int),
                            1 <= d,
                            d <= max_d,
                    ;
                }
                let j = i + 4 * d;
                if !record[j].is_pass() {
                    let sample = TrainingSample {
                        before: record[i].clone(),
                        after: record[j].clone(),
                        rounds: d,
                    };
                    let ghost prior = out@;
                    out.push(sample);
                    proof {
                        let ghost rest = positions_from(record@, i as int + 1);
                        let ghost l = prior.len() as int;
                        assert(row_positions(record@, i as int, d as int) == seq![
                            (i as int, d as int),
                        ] + row_positions(record@, i as int, d as int + 1));
                        assert(total.skip(l).len() >= 1);
                        assert(l < total.len());
                        lemma_skip_step(total, l);
                        assert(total.skip(l)[0] == (i as int, d as int));
                        assert(total[l] == (i as int, d as int));
                        assert(sample_matches(record@, out@[l], total[l].0, total[l].1));
                        assert(total.skip(out@.len() as int) =~= row_positions(
                            record@,
                            i as int,
                            d as int + 1,
                        ) + rest) by {
                            assert(total.skip(l + 1) =~= total.skip(l).skip(1));
                            assert(total.skip(l).skip(1) =~= row_positions(
                                record@,
                                i as int,
                                d as int + 1,
                            ) + rest) by {
                                assert forall|w: int|
                                    0 <= w < total.skip(l).skip(1).len() implies #[trigger] total.skip(
                                    l,
                                ).skip(1)[w] == (row_positions(record@, i as int, d as int + 1)
                                    + rest)[w] by {
                                    assert(total.skip(l).skip(1)[w] == total.skip(l)[w + 1]);
                                    assert(total.skip(l)[w + 1] == (seq![(i as int, d as int)]
                                        + (row_positions(record@, i as int, d as int + 1)
                                        + rest))[w + 1]);
                                    assert((seq![(i as int, d as int)] + (row_positions(
                                        record@,
                                        i as int,
                                        d as int + 1,
                                    ) + rest)) =~= total.skip(l));
                                }
                            }
                        }
                        assert(sample_at(record@, i as int, d as int));
                        assert(sample_matches(record@, out@[prior.len() as int], i as int, d as int));
                        assert(sample_sound(record@, out@[prior.len() as int]));
                        assert forall|k: int|
                            0 <= k < out@.len() implies sample_sound(
                            record@,
                            #[trigger] out@[k],
                        ) by {
                            if k < prior.len() {
                                assert(out@[k] == prior[k]);
                            }
                        }
                        assert forall|ii: int, dd: int|
                            sample_at(record@, ii, dd) && ii < i implies sample_present(
                            out@,
                            record@,
                            ii,
                            dd,
                        ) by {
                            let k = choose|k: int|
                                0 <= k < prior.len() && sample_matches(
                                    record@,
                                    #[trigger] prior[k],
                                    ii,
                                    dd,
                                );
                            assert(out@[k] == prior[k]);
                        }
                        assert forall|dd: int|
                            sample_at(record@, i as int, dd) && dd < d + 1 implies sample_present(
                            out@,
                            record@,
                            i as int,
                            dd,
                        ) by {
                            if dd < d {
                                let k = choose|k: int|
                                    0 <= k < prior.len() && sample_matches(
                                        record@,
                                        #[trigger] prior[k],
                                        i as int,
                                        dd,
                                    );
                                assert(out@[k] == prior[k]);
                            } else {
                                assert(sample_matches(
                                    record@,
                                    out@[prior.len() as int],
                                    i as int,
                                    dd,
                                ));
                            }
                        }
                    }
                } else {
                    proof {
                        assert(!sample_at(record@, i as int, d as int));
                        assert(row_positions(record@, i as int, d as int) == row_positions(
                            record@,
                            i as int,
                            d as int + 1,
                        ));
                    }
                }
                d += 1;
            }
            proof {
                assert forall|dd: int| sample_at(record@, i as int, dd) implies sample_present(
                    out@,
                    record@,
                    i as int,
                    dd,
                ) by {
                    assert(i as int + 4 * dd < record@.len());
                    assert(dd <= (record@.len() - 1 - i as int) / 4) by (nonlinear_arith)
                        requires
                            4 * dd <= record@.len() - 1 - i as int,
                            1 <= dd,
                    ;
                    assert(dd < d);
                }
                let ghost x = record@.len() - 1 - i as int;
                vstd::arithmetic::div_mod::lemma_fundamental_div_mod(x, 4);
                vstd::arithmetic::div_mod::lemma_mod_bound(x, 4);
                assert(i as int + 4 * (d as int) >= record@.len()) by (nonlinear_arith)
                    requires
                        d as int >= x / 4 + 1,
                        x == 4 * (x / 4) + x % 4,
                        0 <= x % 4 < 4,
                        x == record@.len() - 1 - i as int,
                ;
                assert(row_positions(record@, i as int, d as int) == Seq::<(int, int)>::empty());
                assert(total.skip(out@.len() as int) =~= positions_from(record@, i as int + 1));
            }
        } else {
            proof {
                assert forall|dd: int| sample_at(record@, i as int, dd) implies sample_present(
                    out@,
                    record@,
                    i as int,
                    dd,
                ) by {
                    assert(!(record@[i as int].spec_kind() is Pass));
                }
                lemma_row_positions_pass(record@, i as int, 1);
                assert(positions_from(record@, i as int) == row_positions(record@, i as int, 1)
                    + positions_from(record@, i as int + 1));
                assert(total.skip(out@.len() as int) =~= positions_from(record@, i as int + 1));
            }
        }
        i += 1;
    }
    proof {
        assert forall|ii: int, dd: int| sample_at(record@, ii, dd) implies sample_present(
            out@,
            record@,
            ii,
            dd,
        ) by {
            assert(ii < record@.len());
        }
        assert(positions_from(record@, record@.len() as int) == Seq::<(int, int)>::empty());
        assert(total.skip(out@.len() as int).len() == 0);
        assert(out@.len() == total.len());
    }
    out
}

} // verus!
