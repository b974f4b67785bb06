//! Splitting two crossing primitives into pieces.
//!
//! Where two offset primitives (segments or arcs) cross, both are cut at the
//! crossing points. Which pieces are cut, between which points, along which
//! of the two carriers (line or circle), and with which identifier, depends
//! only on how the two primitives meet; the points themselves are computed
//! elsewhere. A piece names its ends by [`Mark`]s: the start and end of either
//! primitive, or one of the points of the intersection result, in the order
//! the result lists them.

use vstd::prelude::*;
use crate::configs::{
    crosses_arc_arc, crosses_segment_arc, crosses_segment_segment, ArcArcConfig,
    SegmentArcConfig, SegmentSegmentConfig,
};
use crate::ids::{child_id, high_part, low_part, packed_of, root_of};

verus! {

/// One of the two primitives split against each other.
#[derive(Clone, Copy, Debug, PartialEq, Eq, Structural)]
pub enum Side {
    First,
    Second,
}

/// A point where a piece starts or ends.
#[derive(Clone, Copy, Debug, PartialEq, Eq, Structural)]
pub enum Mark {
    /// Start of the first primitive.
    A0,
    /// End of the first primitive.
    B0,
    /// Start of the second primitive.
    A1,
    /// End of the second primitive.
    B1,
    /// First point of the intersection result.
    P0,
    /// Second point of the intersection result.
    P1,
    /// Third point of the intersection result.
    P2,
    /// Fourth point of the intersection result.
    P3,
}

/// A piece to cut: from `from` to `to`, along the carrier of the primitive
/// `along`, with identifier `id`.
#[derive(Clone, Copy, Debug, PartialEq, Eq, Structural)]
pub struct Piece {
    pub from: Mark,
    pub to: Mark,
    pub along: Side,
    pub id: usize,
}

/// The piece from `from` to `to` along `along` with identifier `id`.
pub open spec fn piece(from: Mark, to: Mark, along: Side, id: usize) -> Piece {
    Piece { from, to, along, id }
}

/// The identifier of a piece cut from a primitive with identifier `id`.
pub open spec fn child_of(id: usize) -> usize {
    packed_of(id as int, root_of(id as int)) as usize
}

/// The pieces cut from two segments that meet as `config` says, the first
/// with identifier `id0`, the second with `id1`. Crossing at one point, each
/// segment is cut into the two pieces from that point to its ends; overlapping,
/// the four points listed by the result, in order, delimit three pieces.
pub open spec fn line_line_plan<S>(config: SegmentSegmentConfig<S>, id0: usize, id1: usize) -> Seq<
    Piece,
> {
    let c0 = child_of(id0);
    let c1 = child_of(id1);
    match config {
        SegmentSegmentConfig::OnePoint(_, _, _) => seq![
            piece(Mark::P0, Mark::A0, Side::First, c0),
            piece(Mark::P0, Mark::B0, Side::First, c0),
            piece(Mark::P0, Mark::A1, Side::Second, c1),
            piece(Mark::P0, Mark::B1, Side::Second, c1),
        ],
        SegmentSegmentConfig::TwoPoints(_, _, _, _) => seq![
            piece(Mark::P0, Mark::P1, Side::First, c0),
            piece(Mark::P1, Mark::P2, Side::First, c0),
            piece(Mark::P2, Mark::P3, Side::Second, c1),
        ],
        _ => Seq::empty(),
    }
}

/// The two crossing points in the order in which they follow one another
/// from the start of an arc: listed order, or reversed when `reversed`.
pub open spec fn ordered(x: Mark, y: Mark, reversed: bool) -> (Mark, Mark) {
    if reversed {
        (y, x)
    } else {
        (x, y)
    }
}

/// The pieces cut from two arcs that meet as `config` says, the first with
/// identifier `id0`, the second with `id1`.
///
/// Where the arcs cross in two points off a common circle, `swap0` says that
/// the two points, as listed, run against the first arc (so they are taken in
/// reverse order along it), and `swap1` says the same of the second arc for
/// the pair as ordered along the first arc. Arcs on one circle are cut into
/// pieces of that circle, each owned by the arc it comes from.
pub open spec fn arc_arc_plan(
    config: ArcArcConfig,
    id0: usize,
    id1: usize,
    swap0: bool,
    swap1: bool,
) -> Seq<Piece> {
    let c0 = child_of(id0);
    let c1 = child_of(id1);
    let (x, y) = ordered(Mark::P0, Mark::P1, swap0);
    let (u, v) = ordered(x, y, swap1);
    match config {
        ArcArcConfig::NonCocircularOnePoint(_) => seq![
            piece(Mark::A0, Mark::P0, Side::First, c0),
            piece(Mark::P0, Mark::B0, Side::First, c0),
            piece(Mark::A1, Mark::P0, Side::Second, c1),
            piece(Mark::P0, Mark::B1, Side::Second, c1),
        ],
        ArcArcConfig::NonCocircularTwoPoints(_, _) => seq![
            piece(Mark::A0, x, Side::First, c0),
            piece(x, y, Side::First, c0),
            piece(y, Mark::B0, Side::First, c0),
            piece(Mark::A1, u, Side::Second, c1),
            piece(u, v, Side::Second, c1),
            piece(v, Mark::B1, Side::Second, c1),
        ],
        ArcArcConfig::CocircularOnePointOneArc0(_, _) => seq![
            piece(Mark::A0, Mark::B1, Side::First, c0),
            piece(Mark::B1, Mark::B0, Side::First, c1),
            piece(Mark::B0, Mark::A0, Side::First, c0),
        ],
        ArcArcConfig::CocircularOnePointOneArc1(_, _) => seq![
            piece(Mark::A1, Mark::B0, Side::First, c1),
            piece(Mark::B0, Mark::B1, Side::First, c0),
            piece(Mark::B1, Mark::A1, Side::First, c1),
        ],
        ArcArcConfig::CocircularOneArc0(_) => seq![piece(Mark::A0, Mark::B0, Side::First, c0)],
        ArcArcConfig::CocircularOneArc1(_) => seq![
            piece(Mark::A1, Mark::A0, Side::First, c1),
            piece(Mark::A0, Mark::B0, Side::First, c0),
            piece(Mark::B0, Mark::B1, Side::First, c1),
        ],
        ArcArcConfig::CocircularOneArc2(_) => seq![
            piece(Mark::A1, Mark::A0, Side::First, c1),
            piece(Mark::A0, Mark::B1, Side::First, c0),
            piece(Mark::B1, Mark::B0, Side::First, c1),
        ],
        ArcArcConfig::CocircularOneArc3(_) => seq![
            piece(Mark::A0, Mark::A1, Side::First, c0),
            piece(Mark::A1, Mark::B0, Side::First, c1),
            piece(Mark::B0, Mark::B1, Side::First, c0),
        ],
        ArcArcConfig::CocircularOneArc4(_) => seq![
            piece(Mark::A0, Mark::A1, Side::First, c0),
            piece(Mark::A1, Mark::B1, Side::First, c1),
            piece(Mark::B1, Mark::B0, Side::First, c0),
        ],
        ArcArcConfig::CocircularTwoArcs(_, _) => seq![
            piece(Mark::A0, Mark::B1, Side::First, id0),
            piece(Mark::A1, Mark::B0, Side::First, id1),
        ],
        _ => Seq::empty(),
    }
}

/// The pieces cut from a segment (first, identifier `id0`) and an arc
/// (second, identifier `id1`) that meet as `config` says. The segment's
/// pieces follow the points as listed; where there are two points, `swap1`
/// says that they run against the arc.
pub open spec fn segment_arc_plan<S>(
    config: SegmentArcConfig<S>,
    id0: usize,
    id1: usize,
    swap1: bool,
) -> Seq<Piece> {
    let c0 = child_of(id0);
    let c1 = child_of(id1);
    let (u, v) = ordered(Mark::P0, Mark::P1, swap1);
    match config {
        SegmentArcConfig::OnePoint(_, _) => seq![
            piece(Mark::A0, Mark::P0, Side::First, c0),
            piece(Mark::P0, Mark::B0, Side::First, c0),
            piece(Mark::A1, Mark::P0, Side::Second, c1),
            piece(Mark::P0, Mark::B1, Side::Second, c1),
        ],
        SegmentArcConfig::TwoPoints(_, _, _, _) => seq![
            piece(Mark::A0, Mark::P0, Side::First, c0),
            piece(Mark::P0, Mark::P1, Side::First, c0),
            piece(Mark::P1, Mark::B0, Side::First, c0),
            piece(Mark::A1, u, Side::Second, c1),
            piece(u, v, Side::Second, c1),
            piece(v, Mark::B1, Side::Second, c1),
        ],
        _ => Seq::empty(),
    }
}

/// `pieces` run one after another from `from` to `to`: each starts where the
/// one before it ends.
pub open spec fn joined(pieces: Seq<Piece>, from: Mark, to: Mark) -> bool {
    &&& pieces.len() > 0
    &&& pieces[0].from == from
    &&& pieces.last().to == to
    &&& forall|i: int, j: int|
        #![trigger pieces[i], pieces[j]]
        0 <= i && j == i + 1 && j < pieces.len() ==> pieces[i].to == pieces[j].from
}

/// `pieces` run one after another from `from` to `to`, all along the carrier
/// of `side`.
pub open spec fn runs(pieces: Seq<Piece>, from: Mark, to: Mark, side: Side) -> bool {
    &&& joined(pieces, from, to)
    &&& forall|i: int| 0 <= i < pieces.len() ==> #[trigger] pieces[i].along == side
}

/// Two segments are cut into pieces exactly when they really cross.
pub proof fn lemma_line_line_cut_iff_crossing<S>(config: SegmentSegmentConfig<S>, id0: usize, id1: usize)
    ensures
        (line_line_plan(config, id0, id1).len() > 0) == crosses_segment_segment(config),
{
}

/// Two arcs are cut into pieces exactly when they really cross.
pub proof fn lemma_arc_arc_cut_iff_crossing(
    config: ArcArcConfig,
    id0: usize,
    id1: usize,
    swap0: bool,
    swap1: bool,
)
    ensures
        (arc_arc_plan(config, id0, id1, swap0, swap1).len() > 0) == crosses_arc_arc(config),
{
}

/// A segment and an arc are cut into pieces exactly when they really cross.
pub proof fn lemma_segment_arc_cut_iff_crossing<S>(
    config: SegmentArcConfig<S>,
    id0: usize,
    id1: usize,
    swap1: bool,
)
    ensures
        (segment_arc_plan(config, id0, id1, swap1).len() > 0) == crosses_segment_arc(config),
{
}

/// Two arcs that cross off a common circle are each cut into pieces that run
/// from the arc's start to its end along its own circle: the first half of
/// the pieces are those of the first arc, the second half those of the second.
pub proof fn lemma_arc_arc_pieces_run_along(
    config: ArcArcConfig,
    id0: usize,
    id1: usize,
    swap0: bool,
    swap1: bool,
)
    requires
        config is NonCocircularOnePoint || config is NonCocircularTwoPoints,
    ensures
        ({
            let plan = arc_arc_plan(config, id0, id1, swap0, swap1);
            let n = plan.len() as int;
            &&& runs(plan.subrange(0, n / 2), Mark::A0, Mark::B0, Side::First)
            &&& runs(plan.subrange(n / 2, n), Mark::A1, Mark::B1, Side::Second)
        }),
{
    let plan = arc_arc_plan(config, id0, id1, swap0, swap1);
    let n = plan.len() as int;
    let c0 = child_of(id0);
    let c1 = child_of(id1);
    if config is NonCocircularOnePoint {
        assert(n == 4);
        assert(plan.subrange(0, 2) =~= seq![
            piece(Mark::A0, Mark::P0, Side::First, c0),
            piece(Mark::P0, Mark::B0, Side::First, c0),
        ]);
        assert(plan.subrange(2, 4) =~= seq![
            piece(Mark::A1, Mark::P0, Side::Second, c1),
            piece(Mark::P0, Mark::B1, Side::Second, c1),
        ]);
    } else {
        let (x, y) = ordered(Mark::P0, Mark::P1, swap0);
        let (u, v) = ordered(x, y, swap1);
        assert(n == 6);
        assert(plan.subrange(0, 3) =~= seq![
            piece(Mark::A0, x, Side::First, c0),
            piece(x, y, Side::First, c0),
            piece(y, Mark::B0, Side::First, c0),
        ]);
        assert(plan.subrange(3, 6) =~= seq![
            piece(Mark::A1, u, Side::Second, c1),
            piece(u, v, Side::Second, c1),
            piece(v, Mark::B1, Side::Second, c1),
        ]);
    }
}

/// A segment and an arc that cross are each cut into pieces that run from its
/// start to its end along its own carrier: the first half of the pieces are
/// those of the segment, the second half those of the arc.
pub proof fn lemma_segment_arc_pieces_run_along<S>(
    config: SegmentArcConfig<S>,
    id0: usize,
    id1: usize,
    swap1: bool,
)
    requires
        crosses_segment_arc(config),
    ensures
        ({
            let plan = segment_arc_plan(config, id0, id1, swap1);
            let n = plan.len() as int;
            &&& runs(plan.subrange(0, n / 2), Mark::A0, Mark::B0, Side::First)
            &&& runs(plan.subrange(n / 2, n), Mark::A1, Mark::B1, Side::Second)
        }),
{
    let plan = segment_arc_plan(config, id0, id1, swap1);
    let n = plan.len() as int;
    let c0 = child_of(id0);
    let c1 = child_of(id1);
    if config is OnePoint {
        assert(n == 4);
        assert(plan.subrange(0, 2) =~= seq![
            piece(Mark::A0, Mark::P0, Side::First, c0),
            piece(Mark::P0, Mark::B0, Side::First, c0),
        ]);
        assert(plan.subrange(2, 4) =~= seq![
            piece(Mark::A1, Mark::P0, Side::Second, c1),
            piece(Mark::P0, Mark::B1, Side::Second, c1),
        ]);
    } else {
        let (u, v) = ordered(Mark::P0, Mark::P1, swap1);
        assert(n == 6);
        assert(plan.subrange(0, 3) =~= seq![
            piece(Mark::A0, Mark::P0, Side::First, c0),
            piece(Mark::P0, Mark::P1, Side::First, c0),
            piece(Mark::P1, Mark::B0, Side::First, c0),
        ]);
        assert(plan.subrange(3, 6) =~= seq![
            piece(Mark::A1, u, Side::Second, c1),
            piece(u, v, Side::Second, c1),
            piece(v, Mark::B1, Side::Second, c1),
        ]);
    }
}

/// Two overlapping segments are cut into pieces that run one after another
/// from the first to the last of the four points of the overlap result.
pub proof fn lemma_line_line_overlap_pieces_join<S>(
    config: SegmentSegmentConfig<S>,
    id0: usize,
    id1: usize,
)
    requires
        config is TwoPoints,
    ensures
        joined(line_line_plan(config, id0, id1), Mark::P0, Mark::P3),
{
}

/// The identifier of a piece cut from a primitive keeps the primitive's root.
proof fn lemma_child_of_keeps_root(id: usize)
    requires
        usize::BITS == 64,
        root_of(id as int) != u32::MAX,
    ensures
        root_of(child_of(id) as int) == root_of(id as int),
{
    crate::ids::lemma_child_keeps_root(id as int);
    let r = root_of(id as int);
    assert(0 <= r < 0x1_0000_0000) by {
        assert(0 <= (id as int / 0x1_0000_0000) % 0x1_0000_0000 < 0x1_0000_0000);
        assert(0 <= (id as int) % 0x1_0000_0000 < 0x1_0000_0000);
    }
    let p = packed_of(id as int, r);
    assert(0 <= (id as int) % 0x1_0000_0000 < 0x1_0000_0000);
    assert(0 <= p <= 0xFFFF_FFFF_FFFF_FFFF) by (nonlinear_arith)
        requires
            p == r * 0x1_0000_0000 + (id as int) % 0x1_0000_0000,
            0 <= r < 0x1_0000_0000,
            0 <= (id as int) % 0x1_0000_0000 < 0x1_0000_0000,
    ;
    assert(child_of(id) as int == p);
}

/// Every piece cut from two primitives keeps the root identifier of one of
/// them, so pieces can always be traced back to what they were cut from.
pub proof fn lemma_pieces_keep_roots<S, T>(
    line_config: SegmentSegmentConfig<S>,
    arc_config: ArcArcConfig,
    mixed_config: SegmentArcConfig<T>,
    id0: usize,
    id1: usize,
    swap0: bool,
    swap1: bool,
)
    requires
        usize::BITS == 64,
        root_of(id0 as int) != u32::MAX,
        root_of(id1 as int) != u32::MAX,
    ensures
        forall|i: int|
            0 <= i < line_line_plan(line_config, id0, id1).len() ==> {
                let r = root_of(#[trigger] line_line_plan(line_config, id0, id1)[i].id as int);
                r == root_of(id0 as int) || r == root_of(id1 as int)
            },
        forall|i: int|
            0 <= i < arc_arc_plan(arc_config, id0, id1, swap0, swap1).len() ==> {
                let r = root_of(
                    #[trigger] arc_arc_plan(arc_config, id0, id1, swap0, swap1)[i].id as int,
                );
                r == root_of(id0 as int) || r == root_of(id1 as int)
            },
        forall|i: int|
            0 <= i < segment_arc_plan(mixed_config, id0, id1, swap1).len() ==> {
                let r = root_of(#[trigger] segment_arc_plan(mixed_config, id0, id1, swap1)[i].id as int);
                r == root_of(id0 as int) || r == root_of(id1 as int)
            },
{
    lemma_child_of_keeps_root(id0);
    lemma_child_of_keeps_root(id1);
}

/// The halves of the identifier of a piece cut from a primitive with
/// identifier `id`: the root of `id` above, the lower half of `id` below.
proof fn lemma_child_of_halves(id: usize)
    requires
        usize::BITS == 64,
    ensures
        high_part(child_of(id) as int) == root_of(id as int),
        low_part(child_of(id) as int) == low_part(id as int),
{
    let r = root_of(id as int);
    assert(0 <= r < 0x1_0000_0000) by {
        assert(0 <= (id as int / 0x1_0000_0000) % 0x1_0000_0000 < 0x1_0000_0000);
        assert(0 <= (id as int) % 0x1_0000_0000 < 0x1_0000_0000);
    }
    crate::ids::lemma_unpack_pack(id as int, r);
    let p = packed_of(id as int, r);
    assert(0 <= (id as int) % 0x1_0000_0000 < 0x1_0000_0000);
    assert(0 <= p <= 0xFFFF_FFFF_FFFF_FFFF) by (nonlinear_arith)
        requires
            p == r * 0x1_0000_0000 + (id as int) % 0x1_0000_0000,
            0 <= r < 0x1_0000_0000,
            0 <= (id as int) % 0x1_0000_0000 < 0x1_0000_0000,
    ;
    assert(child_of(id) as int == p);
}

/// `id` names a piece cut from the primitive with identifier `src`: its upper
/// half is the root of `src`, its lower half that of `src`.
pub open spec fn names_piece_of(id: usize, src: usize) -> bool {
    high_part(id as int) == root_of(src as int) && low_part(id as int) == low_part(src as int)
}

/// Every piece cut from two primitives that really cross is named as a piece
/// of the primitive it comes from: for segments, and for arcs crossing off a
/// common circle, the primitive along which it runs; for arcs of one circle,
/// one of the two (and where the arcs overlap in two separate arcs, each
/// piece keeps the identifier of one of them).
pub proof fn lemma_pieces_are_named_after_their_primitive<S, T>(
    line_config: SegmentSegmentConfig<S>,
    arc_config: ArcArcConfig,
    mixed_config: SegmentArcConfig<T>,
    id0: usize,
    id1: usize,
    swap0: bool,
    swap1: bool,
)
    requires
        usize::BITS == 64,
    ensures
        forall|i: int|
            0 <= i < line_line_plan(line_config, id0, id1).len() ==> {
                let p = #[trigger] line_line_plan(line_config, id0, id1)[i];
                names_piece_of(p.id, if p.along == Side::First { id0 } else { id1 })
            },
        forall|i: int|
            0 <= i < segment_arc_plan(mixed_config, id0, id1, swap1).len() ==> {
                let p = #[trigger] segment_arc_plan(mixed_config, id0, id1, swap1)[i];
                names_piece_of(p.id, if p.along == Side::First { id0 } else { id1 })
            },
        arc_config is NonCocircularOnePoint || arc_config is NonCocircularTwoPoints ==> forall|i: int|
            0 <= i < arc_arc_plan(arc_config, id0, id1, swap0, swap1).len() ==> {
                let p = #[trigger] arc_arc_plan(arc_config, id0, id1, swap0, swap1)[i];
                names_piece_of(p.id, if p.along == Side::First { id0 } else { id1 })
            },
        !(arc_config is CocircularTwoArcs) ==> forall|i: int|
            0 <= i < arc_arc_plan(arc_config, id0, id1, swap0, swap1).len() ==> {
                let p = #[trigger] arc_arc_plan(arc_config, id0, id1, swap0, swap1)[i];
                names_piece_of(p.id, id0) || names_piece_of(p.id, id1)
            },
        arc_config is CocircularTwoArcs ==> forall|i: int|
            0 <= i < arc_arc_plan(arc_config, id0, id1, swap0, swap1).len() ==> {
                let p = #[trigger] arc_arc_plan(arc_config, id0, id1, swap0, swap1)[i];
                p.id == id0 || p.id == id1
            },
{
    lemma_child_of_halves(id0);
    lemma_child_of_halves(id1);
}

/// Two arcs crossing at two points off a common circle: the first arc is cut
/// at the two points in the order they run along it (as listed, or reversed
/// when `swap0`), and the second arc at the same two points in that order,
/// or reversed when `swap1`; each cut goes from the arc's start through both
/// points to its end.
pub proof fn lemma_arc_arc_two_points_in_order(
    config: ArcArcConfig,
    id0: usize,
    id1: usize,
    swap0: bool,
    swap1: bool,
)
    requires
        config is NonCocircularTwoPoints,
    ensures
        ({
            let plan = arc_arc_plan(config, id0, id1, swap0, swap1);
            let x = if swap0 { Mark::P1 } else { Mark::P0 };
            let y = if swap0 { Mark::P0 } else { Mark::P1 };
            let u = if swap1 { y } else { x };
            let v = if swap1 { x } else { y };
            &&& plan.len() == 6
            &&& plan[0].from == Mark::A0 && plan[0].to == x && plan[0].along == Side::First
            &&& plan[1].from == x && plan[1].to == y && plan[1].along == Side::First
            &&& plan[2].from == y && plan[2].to == Mark::B0 && plan[2].along == Side::First
            &&& plan[3].from == Mark::A1 && plan[3].to == u && plan[3].along == Side::Second
            &&& plan[4].from == u && plan[4].to == v && plan[4].along == Side::Second
            &&& plan[5].from == v && plan[5].to == Mark::B1 && plan[5].along == Side::Second
        }),
{
}

/// A segment and an arc crossing at two points: the segment is cut at the
/// points in the order listed, and the arc at the same points in that order,
/// or reversed when `swap1`; each cut goes from its primitive's start through
/// both points to its end.
pub proof fn lemma_segment_arc_two_points_in_order<S>(
    config: SegmentArcConfig<S>,
    id0: usize,
    id1: usize,
    swap1: bool,
)
    requires
        config is TwoPoints,
    ensures
        ({
            let plan = segment_arc_plan(config, id0, id1, swap1);
            let u = if swap1 { Mark::P1 } else { Mark::P0 };
            let v = if swap1 { Mark::P0 } else { Mark::P1 };
            &&& plan.len() == 6
            &&& plan[0].from == Mark::A0 && plan[0].to == Mark::P0 && plan[0].along == Side::First
            &&& plan[1].from == Mark::P0 && plan[1].to == Mark::P1 && plan[1].along == Side::First
            &&& plan[2].from == Mark::P1 && plan[2].to == Mark::B0 && plan[2].along == Side::First
            &&& plan[3].from == Mark::A1 && plan[3].to == u && plan[3].along == Side::Second
            &&& plan[4].from == u && plan[4].to == v && plan[4].along == Side::Second
            &&& plan[5].from == v && plan[5].to == Mark::B1 && plan[5].along == Side::Second
        }),
{
}

/// An end of one of the two primitives (not a point of the intersection).
pub open spec fn is_end(m: Mark) -> bool {
    m == Mark::A0 || m == Mark::B0 || m == Mark::A1 || m == Mark::B1
}

/// Arcs of one circle that overlap along an arc are cut into pieces of that
/// circle between ends of the two arcs, each piece starting where the one
/// before it ended.
pub proof fn lemma_cocircular_pieces_join(
    config: ArcArcConfig,
    id0: usize,
    id1: usize,
    swap0: bool,
    swap1: bool,
)
    requires
        config is CocircularOnePointOneArc0 || config is CocircularOnePointOneArc1
            || config is CocircularOneArc0 || config is CocircularOneArc1 || config is CocircularOneArc2
            || config is CocircularOneArc3 || config is CocircularOneArc4,
    ensures
        ({
            let plan = arc_arc_plan(config, id0, id1, swap0, swap1);
            &&& joined(plan, plan[0].from, plan.last().to)
            &&& forall|i: int|
                0 <= i < plan.len() ==> (#[trigger] plan[i]).along == Side::First && is_end(plan[i].from)
                    && is_end(plan[i].to)
        }),
{
}

/// Two segments crossing at one point are each cut into the two pieces from
/// the crossing point to the segment's ends.
pub proof fn lemma_line_line_one_point_cuts_to_ends<S>(
    config: SegmentSegmentConfig<S>,
    id0: usize,
    id1: usize,
)
    requires
        config is OnePoint,
    ensures
        ({
            let plan = line_line_plan(config, id0, id1);
            &&& plan.len() == 4
            &&& forall|i: int| 0 <= i < 4 ==> (#[trigger] plan[i]).from == Mark::P0
            &&& plan[0].to == Mark::A0 && plan[0].along == Side::First
            &&& plan[1].to == Mark::B0 && plan[1].along == Side::First
            &&& plan[2].to == Mark::A1 && plan[2].along == Side::Second
            &&& plan[3].to == Mark::B1 && plan[3].along == Side::Second
        }),
{
}

/// Raw offsets are not split against each other before they are connected:
/// the split of a list of raw offsets is always empty.
pub fn offset_split_raw<R>(raws: &Vec<R>) -> (r: Vec<R>)
    ensures
        r@ == Seq::<R>::empty(),
{
    Vec::new()
}

/// The identifier of a piece cut from a primitive with identifier `id`.
fn child(id: usize) -> (r: usize)
    requires
        usize::BITS == 64,
    ensures
        r == child_of(id),
{
    child_id(id)
}

/// The pieces to cut from two segments that meet as `config` says, with the
/// number of pieces.
pub fn split_line_line<S>(config: &SegmentSegmentConfig<S>, id0: usize, id1: usize) -> (r: (
    Vec<Piece>,
    usize,
))
    requires
        usize::BITS == 64,
    ensures
        r.0@ == line_line_plan(*config, id0, id1),
        r.1 == r.0.len(),
{
    let mut res: Vec<Piece> = Vec::new();
    match config {
        SegmentSegmentConfig::OnePoint(_, _, _) => {
            let c0 = child(id0);
            let c1 = child(id1);
            res.push(Piece { from: Mark::P0, to: Mark::A0, along: Side::First, id: c0 });
            res.push(Piece { from: Mark::P0, to: Mark::B0, along: Side::First, id: c0 });
            res.push(Piece { from: Mark::P0, to: Mark::A1, along: Side::Second, id: c1 });
            res.push(Piece { from: Mark::P0, to: Mark::B1, along: Side::Second, id: c1 });
        },
        SegmentSegmentConfig::TwoPoints(_, _, _, _) => {
            let c0 = child(id0);
            let c1 = child(id1);
            res.push(Piece { from: Mark::P0, to: Mark::P1, along: Side::First, id: c0 });
            res.push(Piece { from: Mark::P1, to: Mark::P2, along: Side::First, id: c0 });
            res.push(Piece { from: Mark::P2, to: Mark::P3, along: Side::Second, id: c1 });
        },
        _ => {},
    }
    assert(res@ =~= line_line_plan(*config, id0, id1));
    let n = res.len();
    (res, n)
}

/// The pieces to cut from two arcs that meet as `config` says, with the
/// number of pieces (see [`arc_arc_plan`] for `swap0` and `swap1`).
pub fn split_arc_arc(config: &ArcArcConfig, id0: usize, id1: usize, swap0: bool, swap1: bool) -> (r:
    (Vec<Piece>, usize))
    requires
        usize::BITS == 64,
    ensures
        r.0@ == arc_arc_plan(*config, id0, id1, swap0, swap1),
        r.1 == r.0.len(),
{
    let mut res: Vec<Piece> = Vec::new();
    let (x, y) = if swap0 {
        (Mark::P1, Mark::P0)
    } else {
        (Mark::P0, Mark::P1)
    };
    let (u, v) = if swap1 {
        (y, x)
    } else {
        (x, y)
    };
    match config {
        ArcArcConfig::NonCocircularOnePoint(_) => {
            let c0 = child(id0);
            let c1 = child(id1);
            res.push(Piece { from: Mark::A0, to: Mark::P0, along: Side::First, id: c0 });
            res.push(Piece { from: Mark::P0, to: Mark::B0, along: Side::First, id: c0 });
            res.push(Piece { from: Mark::A1, to: Mark::P0, along: Side::Second, id: c1 });
            res.push(Piece { from: Mark::P0, to: Mark::B1, along: Side::Second, id: c1 });
        },
        ArcArcConfig::NonCocircularTwoPoints(_, _) => {
            let c0 = child(id0);
            let c1 = child(id1);
            res.push(Piece { from: Mark::A0, to: x, along: Side::First, id: c0 });
            res.push(Piece { from: x, to: y, along: Side::First, id: c0 });
            res.push(Piece { from: y, to: Mark::B0, along: Side::First, id: c0 });
            res.push(Piece { from: Mark::A1, to: u, along: Side::Second, id: c1 });
            res.push(Piece { from: u, to: v, along: Side::Second, id: c1 });
            res.push(Piece { from: v, to: Mark::B1, along: Side::Second, id: c1 });
        },
        ArcArcConfig::CocircularOnePointOneArc0(_, _) => {
            let c0 = child(id0);
            let c1 = child(id1);
            res.push(Piece { from: Mark::A0, to: Mark::B1, along: Side::First, id: c0 });
            res.push(Piece { from: Mark::B1, to: Mark::B0, along: Side::First, id: c1 });
            res.push(Piece { from: Mark::B0, to: Mark::A0, along: Side::First, id: c0 });
        },
        ArcArcConfig::CocircularOnePointOneArc1(_, _) => {
            let c0 = child(id0);
            let c1 = child(id1);
            res.push(Piece { from: Mark::A1, to: Mark::B0, along: Side::First, id: c1 });
            res.push(Piece { from: Mark::B0, to: Mark::B1, along: Side::First, id: c0 });
            res.push(Piece { from: Mark::B1, to: Mark::A1, along: Side::First, id: c1 });
        },
        ArcArcConfig::CocircularOneArc0(_) => {
            let c0 = child(id0);
            res.push(Piece { from: Mark::A0, to: Mark::B0, along: Side::First, id: c0 });
        },
        ArcArcConfig::CocircularOneArc1(_) => {
            let c0 = child(id0);
            let c1 = child(id1);
            res.push(Piece { from: Mark::A1, to: Mark::A0, along: Side::First, id: c1 });
            res.push(Piece { from: Mark::A0, to: Mark::B0, along: Side::First, id: c0 });
            res.push(Piece { from: Mark::B0, to: Mark::B1, along: Side::First, id: c1 });
        },
        ArcArcConfig::CocircularOneArc2(_) => {
            let c0 = child(id0);
            let c1 = child(id1);
            res.push(Piece { from: Mark::A1, to: Mark::A0, along: Side::First, id: c1 });
            res.push(Piece { from: Mark::A0, to: Mark::B1, along: Side::First, id: c0 });
            res.push(Piece { from: Mark::B1, to: Mark::B0, along: Side::First, id: c1 });
        },
        ArcArcConfig::CocircularOneArc3(_) => {
            let c0 = child(id0);
            let c1 = child(id1);
            res.push(Piece { from: Mark::A0, to: Mark::A1, along: Side::First, id: c0 });
            res.push(Piece { from: Mark::A1, to: Mark::B0, along: Side::First, id: c1 });
            res.push(Piece { from: Mark::B0, to: Mark::B1, along: Side::First, id: c0 });
        },
        ArcArcConfig::CocircularOneArc4(_) => {
            let c0 = child(id0);
            let c1 = child(id1);
            res.push(Piece { from: Mark::A0, to: Mark::A1, along: Side::First, id: c0 });
            res.push(Piece { from: Mark::A1, to: Mark::B1, along: Side::First, id: c1 });
            res.push(Piece { from: Mark::B1, to: Mark::B0, along: Side::First, id: c0 });
        },
        ArcArcConfig::CocircularTwoArcs(_, _) => {
            res.push(Piece { from: Mark::A0, to: Mark::B1, along: Side::First, id: id0 });
            res.push(Piece { from: Mark::A1, to: Mark::B0, along: Side::First, id: id1 });
        },
        _ => {},
    }
    assert(res@ =~= arc_arc_plan(*config, id0, id1, swap0, swap1));
    let n = res.len();
    (res, n)
}

/// The pieces to cut from a segment and an arc that meet as `config` says,
/// with the number of pieces (see [`segment_arc_plan`] for `swap1`).
pub fn split_segment_arc<S>(config: &SegmentArcConfig<S>, id0: usize, id1: usize, swap1: bool) -> (r:
    (Vec<Piece>, usize))
    requires
        usize::BITS == 64,
    ensures
        r.0@ == segment_arc_plan(*config, id0, id1, swap1),
        r.1 == r.0.len(),
{
    let mut res: Vec<Piece> = Vec::new();
    let (u, v) = if swap1 {
        (Mark::P1, Mark::P0)
    } else {
        (Mark::P0, Mark::P1)
    };
    match config {
        SegmentArcConfig::OnePoint(_, _) => {
            let c0 = child(id0);
            let c1 = child(id1);
            res.push(Piece { from: Mark::A0, to: Mark::P0, along: Side::First, id: c0 });
            res.push(Piece { from: Mark::P0, to: Mark::B0, along: Side::First, id: c0 });
            res.push(Piece { from: Mark::A1, to: Mark::P0, along: Side::Second, id: c1 });
            res.push(Piece { from: Mark::P0, to: Mark::B1, along: Side::Second, id: c1 });
        },
        SegmentArcConfig::TwoPoints(_, _, _, _) => {
            let c0 = child(id0);
            let c1 = child(id1);
            res.push(Piece { from: Mark::A0, to: Mark::P0, along: Side::First, id: c0 });
            res.push(Piece { from: Mark::P0, to: Mark::P1, along: Side::First, id: c0 });
            res.push(Piece { from: Mark::P1, to: Mark::B0, along: Side::First, id: c0 });
            res.push(Piece { from: Mark::A1, to: u, along: Side::Second, id: c1 });
            res.push(Piece { from: u, to: v, along: Side::Second, id: c1 });
            res.push(Piece { from: v, to: Mark::B1, along: Side::Second, id: c1 });
        },
        _ => {},
    }
    assert(res@ =~= segment_arc_plan(*config, id0, id1, swap1));
    let n = res.len();
    (res, n)
}

} // verus!
