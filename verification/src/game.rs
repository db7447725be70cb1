//! Move selection for the computer player.
//!
//! The policy works in two passes over the enumerated legal moves. Pass
//! one discards every candidate whose application would give the opponent
//! a legal corner reply, ranks corner candidates above the rest, and keeps
//! the candidates with the maximal flip count in the best tier present.
//! When the filter discards everything, pass two repeats the ranking over
//! the full candidate list. The final pick among the tied best candidates
//! is a uniform random draw.

use vstd::prelude::*;

use rand::Rng;

use crate::field::Field;
use crate::field::apply_move;
use crate::field::flip_count;
use crate::field::has_move;
use crate::field::legal;
use crate::occupytype::OccupyType;
use crate::occupytype::opposite;
use crate::point::Point;
use crate::point::coord_is_corner;

verus! {

/// Playing `c` at `(x, y)` would hand the opponent a corner: after the
/// move, some corner cell is a legal reply for the opposing color.
pub open spec fn exposes_corner(v: Seq<OccupyType>, x: int, y: int, c: OccupyType) -> bool {
    exists|i: int, j: int|
        coord_is_corner(i, j) && #[trigger] legal(apply_move(v, x, y, c), i, j, opposite(c))
}

/// A candidate pool of the selection policy: the legal moves of `c`,
/// restricted to the corner-safe ones while the safety filter is active.
pub open spec fn in_pool(v: Seq<OccupyType>, c: OccupyType, safe: bool, x: int, y: int) -> bool {
    legal(v, x, y, c) && (safe ==> !exposes_corner(v, x, y, c))
}

/// The pool holds a corner move.
pub open spec fn pool_has_corner(v: Seq<OccupyType>, c: OccupyType, safe: bool) -> bool {
    exists|i: int, j: int| #[trigger] in_pool(v, c, safe, i, j) && coord_is_corner(i, j)
}

/// `(x, y)` is in the pool's best tier: corner moves outrank all others
/// whenever the pool holds one.
pub open spec fn in_top_tier(v: Seq<OccupyType>, c: OccupyType, safe: bool, x: int, y: int) -> bool {
    in_pool(v, c, safe, x, y) && (pool_has_corner(v, c, safe) ==> coord_is_corner(x, y))
}

/// `(x, y)` is a best move of the pool: in the top tier, with no
/// higher-flipping move in that tier.
pub open spec fn best_in_pool(v: Seq<OccupyType>, c: OccupyType, safe: bool, x: int, y: int) -> bool {
    &&& in_top_tier(v, c, safe, x, y)
    &&& forall|i: int, j: int|
        #[trigger] in_top_tier(v, c, safe, i, j) ==> flip_count(v, i, j, c) <= flip_count(
            v, x, y, c,
        )
}

/// A move the selection policy may pick for `c` on `v`: a best corner-safe
/// move when any corner-safe move exists, otherwise a best move over the
/// full legal set.
pub open spec fn ai_pick(v: Seq<OccupyType>, c: OccupyType, x: int, y: int) -> bool {
    if exists|i: int, j: int| #[trigger] in_pool(v, c, true, i, j) {
        best_in_pool(v, c, true, x, y)
    } else {
        best_in_pool(v, c, false, x, y)
    }
}

/// Candidate `m` survives the (possibly inactive) corner-safety filter.
pub open spec fn survives(v: Seq<OccupyType>, bw: OccupyType, cc: bool, m: (Point, u8)) -> bool {
    !(cc && exposes_corner(v, m.0.x as int, m.0.y as int, bw))
}

/// Candidate `m` is a corner move.
pub open spec fn corner_entry(m: (Point, u8)) -> bool {
    coord_is_corner(m.0.x as int, m.0.y as int)
}

/// Some candidate among the first `upto` survives the filter and is a
/// corner move.
pub open spec fn surv_has_corner(
    v: Seq<OccupyType>,
    bw: OccupyType,
    cc: bool,
    ms: Seq<(Point, u8)>,
    upto: int,
) -> bool {
    exists|m: int| 0 <= m < upto && survives(v, bw, cc, #[trigger] ms[m]) && corner_entry(ms[m])
}

/// Candidate number `m` is one of the picks among the first `upto`
/// candidates: it survives the filter, sits in the best tier present, and
/// no surviving same-tier candidate flips more.
pub open spec fn entry_selected(
    v: Seq<OccupyType>,
    bw: OccupyType,
    cc: bool,
    ms: Seq<(Point, u8)>,
    upto: int,
    m: int,
) -> bool {
    &&& 0 <= m < upto
    &&& survives(v, bw, cc, ms[m])
    &&& (surv_has_corner(v, bw, cc, ms, upto) ==> corner_entry(ms[m]))
    &&& forall|m2: int|
        0 <= m2 < upto && survives(v, bw, cc, #[trigger] ms[m2]) && (surv_has_corner(
            v, bw, cc, ms, upto,
        ) ==> corner_entry(ms[m2])) ==> ms[m2].1 <= ms[m].1
}

/// Relies on `rand::thread_rng` and `rand::Rng::gen_range` over `0..n`:
/// the draw panics only on an empty range and yields a value of the
/// range. Nothing more is assumed of the drawn value.
#[verifier::external_body]
fn random_below(n: usize) -> (r: usize)
    requires
        n > 0,
    ensures
        r < n,
{
    let mut rng = rand::thread_rng();
    rng.gen_range(0..n)
}

/// One scan step extends the surviving-corner condition by the candidate
/// just looked at.
proof fn lemma_surv_corner_step(
    v: Seq<OccupyType>,
    bw: OccupyType,
    cc: bool,
    ms: Seq<(Point, u8)>,
    m: int,
)
    requires
        0 <= m < ms.len(),
    ensures
        surv_has_corner(v, bw, cc, ms, m + 1) <==> (surv_has_corner(v, bw, cc, ms, m) || (
        survives(v, bw, cc, ms[m]) && corner_entry(ms[m]))),
{
    if surv_has_corner(v, bw, cc, ms, m + 1) {
        let m2 = choose|m2: int|
            0 <= m2 < m + 1 && survives(v, bw, cc, #[trigger] ms[m2]) && corner_entry(ms[m2]);
        if m2 < m {
            assert(surv_has_corner(v, bw, cc, ms, m));
        }
    }
    if surv_has_corner(v, bw, cc, ms, m) {
        let m2 = choose|m2: int|
            0 <= m2 < m && survives(v, bw, cc, #[trigger] ms[m2]) && corner_entry(ms[m2]);
        assert(0 <= m2 < m + 1 && survives(v, bw, cc, ms[m2]) && corner_entry(ms[m2]));
    }
}

/// Simulates `computer` playing `mv` on a scratch copy of the board and
/// reports whether the opponent then has a corner among its legal replies.
pub fn predict_player_corner(computer: OccupyType, mv: &Point, f: Field) -> (r: bool)
    requires
        f.wf(),
        computer != OccupyType::Empty,
        mv.wf(),
        legal(f@, mv.x as int, mv.y as int, computer),
    ensures
        r == exposes_corner(f@, mv.x as int, mv.y as int, computer),
{
    let ghost v = f@;
    let mut f = f;
    f.move_in_game(mv, computer);
    let ghost w = f@;
    let opp = OccupyType::get_opposite_type(computer);
    let moves = f.get_list_of_moves(opp);
    let mut i: usize = 0;
    let mut found = false;
    while i < moves.len()
        invariant
            i <= moves@.len(),
            forall|m: int|
                0 <= m < moves@.len() ==> (#[trigger] moves@[m]).0.wf() && legal(
                    w, moves@[m].0.x as int, moves@[m].0.y as int, opposite(computer),
                ),
            found == exists|m: int|
                0 <= m < i && coord_is_corner(
                    (#[trigger] moves@[m]).0.x as int, moves@[m].0.y as int,
                ),
        decreases moves@.len() - i,
    {
        if moves[i].0.is_corner() {
            found = true;
        }
        i = i + 1;
    }
    proof {
        if found {
            let m = choose|m: int|
                0 <= m < moves@.len() && coord_is_corner(
                    (#[trigger] moves@[m]).0.x as int, moves@[m].0.y as int,
                );
            assert(legal(w, moves@[m].0.x as int, moves@[m].0.y as int, opposite(computer)));
        }
        if exposes_corner(v, mv.x as int, mv.y as int, computer) {
            let (ci, cj) = choose|i2: int, j2: int|
                coord_is_corner(i2, j2) && #[trigger] legal(w, i2, j2, opposite(computer));
            assert(exists|m: int|
                0 <= m < moves@.len() && #[trigger] moves@[m].0 == (Point {
                    x: ci as u8,
                    y: cj as u8,
                }));
            let m = choose|m: int|
                0 <= m < moves@.len() && #[trigger] moves@[m].0 == (Point {
                    x: ci as u8,
                    y: cj as u8,
                });
            assert(coord_is_corner(moves@[m].0.x as int, moves@[m].0.y as int));
        }
    }
    found
}

/// One pass of the selection policy over the candidate list `moves`
/// (every legal move of `bw` with its flip count): drops candidates that
/// would hand the opponent a corner while `check_corner` is set, ranks
/// corner candidates above the rest, and returns the surviving candidates
/// of the best tier with the maximal flip count, each listed once.
#[verifier::rlimit(100)]
pub fn computer_get_best_moves(
    check_corner: bool,
    bw: OccupyType,
    moves: &Vec<(Point, u8)>,
    f: &Field,
) -> (r: Vec<Point>)
    requires
        f.wf(),
        bw != OccupyType::Empty,
        forall|m: int|
            0 <= m < moves@.len() ==> (#[trigger] moves@[m]).0.wf() && legal(
                f@, moves@[m].0.x as int, moves@[m].0.y as int, bw,
            ) && moves@[m].1 == flip_count(f@, moves@[m].0.x as int, moves@[m].0.y as int, bw),
        forall|m1: int, m2: int| 0 <= m1 < m2 < moves@.len() ==> moves@[m1].0 != moves@[m2].0,
    ensures
        forall|mb: int| 0 <= mb < r@.len() ==> (#[trigger] r@[mb]).wf(),
        r@.no_duplicates(),
        forall|q: Point| #[trigger] r@.contains(q) <==> exists|m: int|
            #[trigger] entry_selected(f@, bw, check_corner, moves@, moves@.len() as int, m)
                && moves@[m].0 == q,
        (exists|m: int|
            0 <= m < moves@.len() && survives(f@, bw, check_corner, #[trigger] moves@[m])) <==> r@.len()
            > 0,
{
    let ghost v = f@;
    let ghost ms = moves@;
    let ghost cc = check_corner;
    let mut corner = false;
    let mut maxv: u8 = 0;
    let mut best: Vec<Point> = Vec::new();
    let mut m: usize = 0;
    while m < moves.len()
        invariant
            f.wf(),
            bw != OccupyType::Empty,
            v == f@,
            ms == moves@,
            cc == check_corner,
            m <= ms.len(),
            forall|m2: int|
                0 <= m2 < ms.len() ==> (#[trigger] ms[m2]).0.wf() && legal(
                    v, ms[m2].0.x as int, ms[m2].0.y as int, bw,
                ) && ms[m2].1 == flip_count(v, ms[m2].0.x as int, ms[m2].0.y as int, bw),
            forall|m1: int, m2: int| 0 <= m1 < m2 < ms.len() ==> ms[m1].0 != ms[m2].0,
            corner == surv_has_corner(v, bw, cc, ms, m as int),
            (exists|m2: int| 0 <= m2 < m && survives(v, bw, cc, #[trigger] ms[m2])) <==> best@.len()
                > 0,
            best@.len() > 0 ==> exists|m2: int|
                0 <= m2 < m && survives(v, bw, cc, #[trigger] ms[m2]) && (corner ==> corner_entry(
                    ms[m2],
                )) && ms[m2].1 == maxv,
            forall|m2: int|
                0 <= m2 < m && survives(v, bw, cc, #[trigger] ms[m2]) && (corner ==> corner_entry(
                    ms[m2],
                )) ==> ms[m2].1 <= maxv,
            best@.len() == 0 ==> maxv == 0,
            forall|q: Point| #[trigger] best@.contains(q) <==> exists|m2: int|
                0 <= m2 < m && survives(v, bw, cc, #[trigger] ms[m2]) && (corner ==> corner_entry(
                    ms[m2],
                )) && ms[m2].1 == maxv && ms[m2].0 == q,
            best@.no_duplicates(),
            forall|mb: int| 0 <= mb < best@.len() ==> (#[trigger] best@[mb]).wf(),
        decreases ms.len() - m,
    {
        let p = moves[m].0;
        let n = moves[m].1;
        let ghost e = ms[m as int];
        let ghost old_corner = corner;
        let ghost old_maxv = maxv;
        let ghost old_best = best@;
        proof {
            crate::field::lemma_legal_iff_count(v, p.x as int, p.y as int, bw);
            assert(n >= 1);
            lemma_surv_corner_step(v, bw, cc, ms, m as int);
        }
        let mut skip = false;
        if check_corner {
            if predict_player_corner(bw, &p, f.duplicate()) {
                skip = true;
            }
        }
        proof {
            assert(skip == !survives(v, bw, cc, e));
        }
        if !skip {
            if p.is_corner() {
                if corner {
                    if n > maxv {
                        best = vec![p];
                        maxv = n;
                    } else if n == maxv {
                        best.push(p);
                    }
                } else {
                    corner = true;
                    best = vec![p];
                    maxv = n;
                }
            } else {
                if !corner {
                    if n > maxv {
                        best = vec![p];
                        maxv = n;
                    } else if n == maxv {
                        best.push(p);
                    }
                }
            }
        }
        proof {
            let mi = m as int;
            // the filter outcome and tier of the candidate just processed
            assert(corner == surv_has_corner(v, bw, cc, ms, mi + 1));
            // the best set now reflects the first m + 1 candidates
            assert forall|q: Point| #[trigger] best@.contains(q) implies exists|m2: int|
                0 <= m2 < mi + 1 && survives(v, bw, cc, #[trigger] ms[m2]) && (corner
                    ==> corner_entry(ms[m2])) && ms[m2].1 == maxv && ms[m2].0 == q by {
                if old_best.contains(q) && best@ == old_best.push(e.0) && q != e.0 {
                    let m2 = choose|m2: int|
                        0 <= m2 < mi && survives(v, bw, cc, #[trigger] ms[m2]) && (old_corner
                            ==> corner_entry(ms[m2])) && ms[m2].1 == old_maxv && ms[m2].0 == q;
                    assert(0 <= m2 < mi + 1 && survives(v, bw, cc, ms[m2]) && (corner
                        ==> corner_entry(ms[m2])) && ms[m2].1 == maxv && ms[m2].0 == q);
                } else if best@ == old_best && old_best.contains(q) {
                    let m2 = choose|m2: int|
                        0 <= m2 < mi && survives(v, bw, cc, #[trigger] ms[m2]) && (old_corner
                            ==> corner_entry(ms[m2])) && ms[m2].1 == old_maxv && ms[m2].0 == q;
                    assert(0 <= m2 < mi + 1 && survives(v, bw, cc, ms[m2]) && (corner
                        ==> corner_entry(ms[m2])) && ms[m2].1 == maxv && ms[m2].0 == q);
                } else {
                    // q is the candidate itself
                    if best@ == old_best.push(e.0) {
                        if q != e.0 {
                            let mb = choose|mb: int| 0 <= mb < best@.len() && best@[mb] == q;
                            assert(old_best[mb] == q);
                            assert(old_best.contains(q));
                            assert(false);
                        }
                    }
                    assert(q == e.0);
                    assert(0 <= mi < mi + 1 && survives(v, bw, cc, ms[mi]) && (corner
                        ==> corner_entry(ms[mi])) && ms[mi].1 == maxv && ms[mi].0 == q);
                }
            }
            assert forall|q: Point| (exists|m2: int|
                0 <= m2 < mi + 1 && survives(v, bw, cc, #[trigger] ms[m2]) && (corner
                    ==> corner_entry(ms[m2])) && ms[m2].1 == maxv && ms[m2].0 == q)
                implies #[trigger] best@.contains(q) by {
                let m2 = choose|m2: int|
                    0 <= m2 < mi + 1 && survives(v, bw, cc, #[trigger] ms[m2]) && (corner
                        ==> corner_entry(ms[m2])) && ms[m2].1 == maxv && ms[m2].0 == q;
                if m2 == mi {
                    if best@ == old_best {
                        // the candidate was not added, so it was filtered,
                        // out-tiered or below the maximum; none of that is
                        // compatible with its selection
                        assert(old_best.contains(q) || false);
                    } else if best@ == old_best.push(e.0) {
                        assert(best@[best@.len() - 1] == q);
                    } else {
                        assert(best@[0] == q);
                    }
                } else {
                    assert(0 <= m2 < mi && survives(v, bw, cc, ms[m2]));
                    if corner == old_corner && maxv == old_maxv {
                        assert(old_best.contains(q));
                        if best@ == old_best.push(e.0) {
                            let mb = choose|mb: int| 0 <= mb < old_best.len() && old_best[mb] == q;
                            assert(best@[mb] == q);
                        }
                    } else {
                        // the maximum or the tier rose with this candidate,
                        // so earlier candidates cannot reach it
                        assert(false);
                    }
                }
            }
            // duplicates cannot arise: candidate points are distinct
            assert(best@.no_duplicates()) by {
                if best@ == old_best.push(e.0) {
                    assert forall|mb: int| 0 <= mb < old_best.len() implies old_best[mb] != e.0 by {
                        if old_best[mb] == e.0 {
                            assert(old_best.contains(e.0));
                            let m2 = choose|m2: int|
                                0 <= m2 < mi && survives(v, bw, cc, #[trigger] ms[m2]) && (
                                old_corner ==> corner_entry(ms[m2])) && ms[m2].1 == old_maxv
                                    && ms[m2].0 == e.0;
                            assert(ms[m2].0 == ms[mi].0);
                        }
                    }
                    assert forall|m1: int, m2: int| 0 <= m1 < m2 < best@.len() implies best@[m1]
                        != best@[m2] by {
                        if m2 < old_best.len() {
                        } else {
                            assert(best@[m2] == e.0 && best@[m1] == old_best[m1]);
                        }
                    }
                }
            }
        }
        m = m + 1;
    }
    proof {
        let len = ms.len() as int;
        // tie the scan summary to the per-entry selection predicate
        assert forall|q: Point| #[trigger] best@.contains(q) implies exists|m2: int|
            #[trigger] entry_selected(v, bw, cc, ms, len, m2) && ms[m2].0 == q by {
            let m2 = choose|m2: int|
                0 <= m2 < len && survives(v, bw, cc, #[trigger] ms[m2]) && (corner ==> corner_entry(
                    ms[m2],
                )) && ms[m2].1 == maxv && ms[m2].0 == q;
            assert(entry_selected(v, bw, cc, ms, len, m2));
        }
        assert forall|q: Point| (exists|m2: int|
            #[trigger] entry_selected(v, bw, cc, ms, len, m2) && ms[m2].0 == q)
            implies #[trigger] best@.contains(q) by {
            let m2 = choose|m2: int|
                #[trigger] entry_selected(v, bw, cc, ms, len, m2) && ms[m2].0 == q;
            assert(best@.len() > 0);
            let ma = choose|ma: int|
                0 <= ma < len && survives(v, bw, cc, #[trigger] ms[ma]) && (corner ==> corner_entry(
                    ms[ma],
                )) && ms[ma].1 == maxv;
            assert(ms[ma].1 <= ms[m2].1);
            assert(ms[m2].1 <= maxv);
            assert(0 <= m2 < len && survives(v, bw, cc, ms[m2]) && (corner ==> corner_entry(
                ms[m2],
            )) && ms[m2].1 == maxv && ms[m2].0 == q);
        }
    }
    best
}

/// On a complete legal-move list, a selected candidate is a best move of
/// the corresponding candidate pool of the board.
proof fn lemma_selected_is_best(
    v: Seq<OccupyType>,
    bw: OccupyType,
    cc: bool,
    ms: Seq<(Point, u8)>,
    m: int,
)
    requires
        bw != OccupyType::Empty,
        forall|m2: int|
            0 <= m2 < ms.len() ==> (#[trigger] ms[m2]).0.wf() && legal(
                v, ms[m2].0.x as int, ms[m2].0.y as int, bw,
            ) && ms[m2].1 == flip_count(v, ms[m2].0.x as int, ms[m2].0.y as int, bw),
        forall|x: int, y: int|
            #[trigger] legal(v, x, y, bw) ==> exists|m2: int|
                0 <= m2 < ms.len() && #[trigger] ms[m2].0 == (Point { x: x as u8, y: y as u8 }),
        entry_selected(v, bw, cc, ms, ms.len() as int, m),
    ensures
        best_in_pool(v, bw, cc, ms[m].0.x as int, ms[m].0.y as int),
{
    let px = ms[m].0.x as int;
    let py = ms[m].0.y as int;
    assert(in_pool(v, bw, cc, px, py));
    if pool_has_corner(v, bw, cc) {
        let (ci, cj) = choose|i: int, j: int|
            #[trigger] in_pool(v, bw, cc, i, j) && coord_is_corner(i, j);
        let m3 = choose|m3: int|
            0 <= m3 < ms.len() && #[trigger] ms[m3].0 == (Point { x: ci as u8, y: cj as u8 });
        assert(ms[m3].0.x as int == ci && ms[m3].0.y as int == cj);
        assert(survives(v, bw, cc, ms[m3]) && corner_entry(ms[m3]));
        assert(surv_has_corner(v, bw, cc, ms, ms.len() as int));
        assert(coord_is_corner(px, py));
    }
    assert forall|i: int, j: int| #[trigger] in_top_tier(v, bw, cc, i, j) implies flip_count(
        v, i, j, bw,
    ) <= flip_count(v, px, py, bw) by {
        let m3 = choose|m3: int|
            0 <= m3 < ms.len() && #[trigger] ms[m3].0 == (Point { x: i as u8, y: j as u8 });
        assert(ms[m3].0.x as int == i && ms[m3].0.y as int == j);
        assert(survives(v, bw, cc, ms[m3]));
        if surv_has_corner(v, bw, cc, ms, ms.len() as int) {
            let m4 = choose|m4: int|
                0 <= m4 < ms.len() && survives(v, bw, cc, #[trigger] ms[m4]) && corner_entry(
                    ms[m4],
                );
            assert(in_pool(v, bw, cc, ms[m4].0.x as int, ms[m4].0.y as int));
            assert(pool_has_corner(v, bw, cc));
            assert(coord_is_corner(i, j));
            assert(corner_entry(ms[m3]));
        }
        assert(ms[m3].1 <= ms[m].1);
    }
}

/// The pool is inhabited exactly when some candidate of a complete
/// legal-move list survives the filter.
proof fn lemma_pool_iff_survivor(v: Seq<OccupyType>, bw: OccupyType, cc: bool, ms: Seq<(Point, u8)>)
    requires
        bw != OccupyType::Empty,
        forall|m2: int|
            0 <= m2 < ms.len() ==> (#[trigger] ms[m2]).0.wf() && legal(
                v, ms[m2].0.x as int, ms[m2].0.y as int, bw,
            ),
        forall|x: int, y: int|
            #[trigger] legal(v, x, y, bw) ==> exists|m2: int|
                0 <= m2 < ms.len() && #[trigger] ms[m2].0 == (Point { x: x as u8, y: y as u8 }),
    ensures
        (exists|i: int, j: int| #[trigger] in_pool(v, bw, cc, i, j)) <==> (exists|m: int|
            0 <= m < ms.len() && survives(v, bw, cc, #[trigger] ms[m])),
{
    if exists|i: int, j: int| #[trigger] in_pool(v, bw, cc, i, j) {
        let (i, j) = choose|i: int, j: int| #[trigger] in_pool(v, bw, cc, i, j);
        let m2 = choose|m2: int|
            0 <= m2 < ms.len() && #[trigger] ms[m2].0 == (Point { x: i as u8, y: j as u8 });
        assert(ms[m2].0.x as int == i && ms[m2].0.y as int == j);
        assert(survives(v, bw, cc, ms[m2]));
    }
    if exists|m: int| 0 <= m < ms.len() && survives(v, bw, cc, #[trigger] ms[m]) {
        let m2 = choose|m: int| 0 <= m < ms.len() && survives(v, bw, cc, #[trigger] ms[m]);
        assert(in_pool(v, bw, cc, ms[m2].0.x as int, ms[m2].0.y as int));
    }
}

/// The computer's move: enumerates the legal moves of `bw`, filters and
/// ranks them with the corner-aware policy (falling back to the unfiltered
/// ranking when every move exposes a corner), draws uniformly among the
/// tied best candidates, and applies the drawn move. The resulting board
/// is the old board with some policy-approved move applied.
pub fn computer_move(bw: OccupyType, f: Field) -> (r: Field)
    requires
        f.wf(),
        bw != OccupyType::Empty,
        has_move(f@, bw),
    ensures
        r.wf(),
        exists|x: int, y: int| #[trigger] ai_pick(f@, bw, x, y) && r@ == apply_move(f@, x, y, bw),
{
    let ghost v = f@;
    let mut f = f;
    let moves = f.get_list_of_moves(bw);
    proof {
        assert forall|m1: int, m2: int| 0 <= m1 < m2 < moves@.len() implies moves@[m1].0
            != moves@[m2].0 by {
            assert(crate::field::cell_index(moves@[m1].0.x as int, moves@[m1].0.y as int)
                < crate::field::cell_index(moves@[m2].0.x as int, moves@[m2].0.y as int));
        }
    }
    let mut best = computer_get_best_moves(true, bw, &moves, &f);
    let ghost mut used_cc = true;
    if best.len() == 0 {
        proof {
            assert(!exists|m: int|
                0 <= m < moves@.len() && survives(v, bw, true, #[trigger] moves@[m]));
            used_cc = false;
        }
        best = computer_get_best_moves(false, bw, &moves, &f);
    }
    proof {
        // the fallback list cannot be empty: with the filter off every
        // legal move survives, and the mover has one
        if best@.len() == 0 {
            assert(!used_cc);
            let (x, y) = choose|x: int, y: int| #[trigger] legal(v, x, y, bw);
            let m2 = choose|m2: int|
                0 <= m2 < moves@.len() && #[trigger] moves@[m2].0 == (Point {
                    x: x as u8,
                    y: y as u8,
                });
            assert(survives(v, bw, false, moves@[m2]));
            assert(false);
        }
    }
    let idx = random_below(best.len());
    let p = best[idx];
    proof {
        assert(best@.contains(p));
        let m2 = choose|m2: int|
            #[trigger] entry_selected(v, bw, used_cc, moves@, moves@.len() as int, m2)
                && moves@[m2].0 == p;
        lemma_selected_is_best(v, bw, used_cc, moves@, m2);
        lemma_pool_iff_survivor(v, bw, true, moves@);
        if used_cc {
            assert(survives(v, bw, true, moves@[m2]));
            assert(exists|i: int, j: int| #[trigger] in_pool(v, bw, true, i, j)) by {
                assert(in_pool(v, bw, true, moves@[m2].0.x as int, moves@[m2].0.y as int));
            }
            assert(ai_pick(v, bw, p.x as int, p.y as int));
        } else {
            assert(!exists|i: int, j: int| #[trigger] in_pool(v, bw, true, i, j));
            assert(ai_pick(v, bw, p.x as int, p.y as int));
        }
        assert(legal(v, p.x as int, p.y as int, bw));
    }
    f.move_in_game(&p, bw);
    f
}

/// Whether `bw` has any legal move on `f`; used to decide passes and game
/// termination.
pub fn possible_movement(bw: OccupyType, f: &Field) -> (r: bool)
    requires
        f.wf(),
        bw != OccupyType::Empty,
    ensures
        r == has_move(f@, bw),
{
    let moves = f.get_list_of_moves(bw);
    proof {
        if moves@.len() > 0 {
            assert(legal(f@, moves@[0].0.x as int, moves@[0].0.y as int, bw));
        }
        if has_move(f@, bw) {
            let (x, y) = choose|x: int, y: int| #[trigger] legal(f@, x, y, bw);
            assert(exists|m: int|
                0 <= m < moves@.len() && #[trigger] moves@[m].0 == (Point {
                    x: x as u8,
                    y: y as u8,
                }));
        }
    }
    moves.len() > 0
}

/// When some corner-safe move exists, the policy never picks a move that
/// would hand the opponent a corner: the safety filter of the first pass
/// is decisive.
pub proof fn lemma_pick_corner_safe(
    v: Seq<OccupyType>,
    c: OccupyType,
    x: int,
    y: int,
    sx: int,
    sy: int,
)
    requires
        in_pool(v, c, true, sx, sy),
        ai_pick(v, c, x, y),
    ensures
        legal(v, x, y, c),
        !exposes_corner(v, x, y, c),
{
}

/// Whatever the filter outcome, the policy only picks legal moves: when
/// every legal move exposes a corner, the fallback pass still selects from
/// the full legal set.
pub proof fn lemma_pick_is_legal(v: Seq<OccupyType>, c: OccupyType, x: int, y: int)
    requires
        ai_pick(v, c, x, y),
    ensures
        legal(v, x, y, c),
{
}

/// A doubly-passed position is terminal: when neither side has a legal
/// move, no cell admits a move for either color, so `move_in_game` — the
/// only mutation path for game moves — accepts no further move and no new
/// board can arise without an external reset.
pub proof fn lemma_no_moves_is_terminal(v: Seq<OccupyType>, c: OccupyType)
    requires
        c != OccupyType::Empty,
        !has_move(v, c),
        !has_move(v, opposite(c)),
    ensures
        forall|x: int, y: int|
            !#[trigger] legal(v, x, y, c) && !legal(v, x, y, opposite(c)),
{
}

} // verus!
