//! What the neighbours of a macroblock suggest is what most of them say.
use crate::coded_header::CodedHeaderModel;
use crate::modes;
use crate::modes::{InfoModel, InterMode};
use crate::motion_comp::RefFrame;
use crate::mv;
use crate::mv::Mv;
use vstd::prelude::*;

verus! {

/// Whether the vectors into a reference frame point the other way round.
pub open spec fn points_back(h: CodedHeaderModel, f: RefFrame) -> bool {
    ||| f == RefFrame::Golden && h.refresh.sign_golden == Some(true)
    ||| f == RefFrame::AltRef && h.refresh.sign_alternate == Some(true)
}

/// The vector that a neighbour votes for: its own, turned round where its
/// reference frame and `f` point different ways. One that is missing or intra
/// does not vote.
pub open spec fn vote_of(h: CodedHeaderModel, f: RefFrame, n: Option<InfoModel>) -> Option<Mv> {
    if n is None || n->0.reference is None {
        None
    } else if points_back(h, f) == points_back(h, n->0.reference->0) {
        Some(n->0.mv)
    } else {
        Some(Mv { row: (0 - n->0.mv.row) as i16, col: (0 - n->0.mv.col) as i16 })
    }
}

/// The votes of the three neighbours.
pub struct Votes {
    pub above: Option<Mv>,
    pub left: Option<Mv>,
    pub corner: Option<Mv>,
}

/// What stands around macroblock `k`, as far as the frame reaches.
pub open spec fn votes_of(
    infos: Seq<InfoModel>,
    k: int,
    cols: int,
    h: CodedHeaderModel,
    f: RefFrame,
) -> Votes {
    let above = if k >= cols {
        Some(infos[k - cols])
    } else {
        None
    };
    let left = if k % cols > 0 {
        Some(infos[k - 1])
    } else {
        None
    };
    let corner = if k >= cols && k % cols > 0 {
        Some(infos[k - cols - 1])
    } else {
        None
    };
    Votes { above: vote_of(h, f, above), left: vote_of(h, f, left), corner: vote_of(h, f, corner) }
}

/// How much the votes for `m` weigh: two for the neighbour above and the one to
/// the left, one for the one between them.
pub open spec fn weight_of(v: Votes, m: Mv) -> int {
    (if v.above == Some(m) {
        2int
    } else {
        0
    }) + (if v.left == Some(m) {
        2int
    } else {
        0
    }) + (if v.corner == Some(m) {
        1int
    } else {
        0
    })
}

/// The place in which a vector was first voted for.
pub open spec fn met_at(v: Votes, m: Mv) -> int {
    if v.above == Some(m) {
        0
    } else if v.left == Some(m) {
        1
    } else if v.corner == Some(m) {
        2
    } else {
        3
    }
}

/// `a` comes before `b`: it weighs more, or as much and was met earlier.
pub open spec fn preferred(v: Votes, a: Mv, b: Mv) -> bool {
    ||| weight_of(v, a) > weight_of(v, b)
    ||| weight_of(v, a) == weight_of(v, b) && met_at(v, a) <= met_at(v, b)
}

/// The distinct vectors in the order in which they were met, with the weight of
/// each and of the zero vector.
struct Tally {
    first: Mv,
    second: Mv,
    third: Mv,
    none: int,
    first_weight: int,
    second_weight: int,
    third_weight: int,
    met: int,
}

spec fn nothing_met() -> Tally {
    Tally {
        first: mv::zero_mv(),
        second: mv::zero_mv(),
        third: mv::zero_mv(),
        none: 0,
        first_weight: 0,
        second_weight: 0,
        third_weight: 0,
        met: 0,
    }
}

/// The vector that was met last.
spec fn latest(t: Tally) -> Mv {
    if t.met == 0 {
        mv::zero_mv()
    } else if t.met == 1 {
        t.first
    } else if t.met == 2 {
        t.second
    } else {
        t.third
    }
}

spec fn tallied(t: Tally, vote: Option<Mv>, w: int) -> Tally {
    match vote {
        None => t,
        Some(m) => if m == mv::zero_mv() {
            Tally { none: t.none + w, ..t }
        } else {
            let at = if latest(t) == m {
                t.met
            } else {
                t.met + 1
            };
            if at == 1 {
                Tally { first: m, first_weight: t.first_weight + w, met: at, ..t }
            } else if at == 2 {
                Tally { second: m, second_weight: t.second_weight + w, met: at, ..t }
            } else {
                Tally { third: m, third_weight: t.third_weight + w, met: at, ..t }
            }
        },
    }
}

spec fn stands_for(c: modes::Candidates, t: Tally) -> bool {
    &&& c.mvs.len() == 4
    &&& c.weights.len() == 4
    &&& c.mvs[0] == mv::zero_mv()
    &&& c.mvs[1] == t.first
    &&& c.mvs[2] == t.second
    &&& c.mvs[3] == t.third
    &&& c.weights[0] == t.none
    &&& c.weights[1] == t.first_weight
    &&& c.weights[2] == t.second_weight
    &&& c.weights[3] == t.third_weight
    &&& c.last == t.met
}

proof fn lemma_one_vote(
    c: modes::Candidates,
    t: Tally,
    h: CodedHeaderModel,
    f: RefFrame,
    n: Option<InfoModel>,
    w: int,
)
    requires
        stands_for(c, t),
        0 <= t.met <= 2,
    ensures
        stands_for(modes::with_neighbor(c, h, f, n, w), tallied(t, vote_of(h, f, n), w)),
        t.met <= tallied(t, vote_of(h, f, n), w).met <= t.met + 1,
{
}

/// What the tally of the three neighbours suggests.
spec fn sensible(v: Votes, s: modes::NearMvs, m: Mv) -> bool {
    let zero = mv::zero_mv();
    &&& s.weights.len() == 4
    &&& s.weights[0] == weight_of(v, zero)
    &&& s.nearest != zero ==> s.weights[1] == weight_of(v, s.nearest)
    &&& s.nearest == zero ==> s.weights[1] == 0 && s.near == zero
    &&& s.near != zero ==> s.weights[2] == weight_of(v, s.near) && s.near != s.nearest
    &&& s.near == zero ==> s.weights[2] == 0
    &&& m != zero && weight_of(v, m) > 0 ==> {
        &&& s.nearest != zero
        &&& preferred(v, s.nearest, m)
        &&& m != s.nearest ==> s.near != zero && preferred(v, s.near, m)
    }
    &&& s.best == if s.weights[1] >= s.weights[0] {
        s.nearest
    } else {
        zero
    }
}

#[verifier::spinoff_prover]
#[verifier::rlimit(50)]
proof fn lemma_tally_is_sensible(v: Votes, c: modes::Candidates, m: Mv)
    requires
        stands_for(
            c,
            tallied(tallied(tallied(nothing_met(), v.above, 2), v.left, 2), v.corner, 1),
        ),
    ensures
        sensible(v, modes::suggestion(c), m),
{
    let t1 = tallied(nothing_met(), v.above, 2);
    let t2 = tallied(t1, v.left, 2);
    let t3 = tallied(t2, v.corner, 1);
    let zero = mv::zero_mv();
    if v.above is None || v.above == Some(zero) {
        assert(t1.met == 0);
        if v.left is None || v.left == Some(zero) {
            assert(t2.met == 0);
        } else {
            assert(t2.met == 1 && t2.first == v.left->0);
        }
    } else {
        assert(t1.met == 1 && t1.first == v.above->0);
        if v.left is None || v.left == Some(zero) {
            assert(t2.met == 1);
        } else if v.left == v.above {
            assert(t2.met == 1);
        } else {
            assert(t2.met == 2 && t2.second == v.left->0);
        }
    }
    if v.corner is None || v.corner == Some(zero) {
        assert(t3.met == t2.met);
    }
}

/// The nearest vector is the one that is not zero and is preferred to all
/// others, the next one is preferred to all but the nearest, and each counts
/// with the weight of its votes. The best prediction is the nearest vector,
/// unless the votes for the zero vector weigh more.
pub proof fn law_neighbors_vote(
    infos: Seq<InfoModel>,
    k: int,
    cols: int,
    h: CodedHeaderModel,
    f: RefFrame,
    m: Mv,
)
    ensures
        ({
            let v = votes_of(infos, k, cols, h, f);
            let s = modes::near_mvs(infos, k, cols, h, f);
            let zero = mv::zero_mv();
            &&& s.weights.len() == 4
            &&& s.weights[0] == weight_of(v, zero)
            &&& s.nearest != zero ==> s.weights[1] == weight_of(v, s.nearest)
            &&& s.nearest == zero ==> s.weights[1] == 0 && s.near == zero
            &&& s.near != zero ==> s.weights[2] == weight_of(v, s.near) && s.near != s.nearest
            &&& s.near == zero ==> s.weights[2] == 0
            &&& m != zero && weight_of(v, m) > 0 ==> {
                &&& s.nearest != zero
                &&& preferred(v, s.nearest, m)
                &&& m != s.nearest ==> s.near != zero && preferred(v, s.near, m)
            }
            &&& s.best == if s.weights[1] >= s.weights[0] {
                s.nearest
            } else {
                zero
            }
        }),
{
    let above = modes::neighbor(infos, k >= cols, k - cols);
    let left = modes::neighbor(infos, k % cols > 0, k - 1);
    let corner = modes::neighbor(infos, k >= cols && k % cols > 0, k - cols - 1);
    let v = votes_of(infos, k, cols, h, f);
    let c0 = modes::no_candidates();
    let t0 = nothing_met();
    let c1 = modes::with_neighbor(c0, h, f, above, 2);
    let t1 = tallied(t0, v.above, 2);
    let c2 = modes::with_neighbor(c1, h, f, left, 2);
    let t2 = tallied(t1, v.left, 2);
    let c3 = modes::with_neighbor(c2, h, f, corner, 1);
    lemma_one_vote(c0, t0, h, f, above, 2);
    lemma_one_vote(c1, t1, h, f, left, 2);
    lemma_one_vote(c2, t2, h, f, corner, 1);
    lemma_tally_is_sensible(v, c3, m);
}

/// Whether a neighbour is split.
pub open spec fn splits(infos: Seq<InfoModel>, there: bool, k: int) -> bool {
    there && infos[k].reference is Some && infos[k].inter_mode == InterMode::Split
}

/// The weight of the split neighbours, which bears on how likely one more is.
pub proof fn law_split_neighbors_weigh(
    infos: Seq<InfoModel>,
    k: int,
    cols: int,
    h: CodedHeaderModel,
    f: RefFrame,
)
    ensures
        modes::near_mvs(infos, k, cols, h, f).weights[3] == (if splits(infos, k >= cols, k - cols) {
            2int
        } else {
            0
        }) + (if splits(infos, k % cols > 0, k - 1) {
            2int
        } else {
            0
        }) + (if splits(infos, k >= cols && k % cols > 0, k - cols - 1) {
            1int
        } else {
            0
        }),
{
}

} // verus!
