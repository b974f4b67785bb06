//! Connecting the raw offsets of a closed path.
//!
//! Each raw offset is joined to the next one (the last to the first) by an
//! arc around the original vertex between them. Which ends the arc joins
//! depends on the direction in which each raw offset runs; whether the arc is
//! kept depends on the orientation of the corner and on its size, which are
//! computed elsewhere.

use vstd::prelude::*;
use crate::split::Mark;

verus! {

/// What is added to the identifier of a raw offset to name the arc that
/// connects it to the next one.
pub const ID_PADDING: usize = 100_000;

/// The connecting arc after raw offset `first`: it runs from an end of
/// `first` to an end of `next`, and is named `id`. The ends are named as in
/// splitting, `first` being the first primitive and `next` the second.
#[derive(Clone, Copy, Debug, PartialEq, Eq, Structural)]
pub struct Connection {
    pub first: usize,
    pub next: usize,
    pub from: Mark,
    pub to: Mark,
    pub id: usize,
}

/// The connection after raw offset `i` of `n`, where `forward[k]` says that
/// raw offset `k` runs forward (its bulge is not negative) and `ids[k]` is its
/// identifier: it leaves `i` at its end when `i` runs forward, else at its
/// start, and reaches the next offset at its start when that one runs
/// forward, else at its end.
pub open spec fn connection_of(i: int, forward: Seq<bool>, ids: Seq<usize>) -> Connection {
    let n = forward.len();
    let j = (i + 1) % (n as int);
    Connection {
        first: i as usize,
        next: j as usize,
        from: if forward[i] { Mark::B0 } else { Mark::A0 },
        to: if forward[j] { Mark::A1 } else { Mark::B1 },
        id: (ids[i] + ID_PADDING) as usize,
    }
}

/// The connections of a closed path of raw offsets, one after each offset,
/// in order.
pub fn arc_connect_plan(forward: &Vec<bool>, ids: &Vec<usize>) -> (r: Vec<Connection>)
    requires
        forward.len() == ids.len(),
        forall|k: int| 0 <= k < ids.len() ==> ids[k] + ID_PADDING <= usize::MAX,
    ensures
        r.len() == forward.len(),
        forall|i: int| 0 <= i < r.len() ==> r[i] == connection_of(i, forward@, ids@),
{
    let n = forward.len();
    let mut res: Vec<Connection> = Vec::new();
    let mut i: usize = 0;
    while i < n
        invariant
            n == forward.len(),
            n == ids.len(),
            i <= n,
            res.len() == i,
            forall|k: int| 0 <= k < ids.len() ==> ids[k] + ID_PADDING <= usize::MAX,
            forall|k: int| 0 <= k < i ==> res[k] == connection_of(k, forward@, ids@),
        decreases n - i,
    {
        let j: usize = if i + 1 == n {
            0
        } else {
            i + 1
        };
        assert(j as int == (i as int + 1) % (n as int)) by {
            if i + 1 == n {
                vstd::arithmetic::div_mod::lemma_mod_self_0(n as int);
            } else {
                vstd::arithmetic::div_mod::lemma_small_mod((i + 1) as nat, n as nat);
            }
        }
        let from = if forward[i] {
            Mark::B0
        } else {
            Mark::A0
        };
        let to = if forward[j] {
            Mark::A1
        } else {
            Mark::B1
        };
        let c = Connection { first: i, next: j, from, to, id: ids[i] + ID_PADDING };
        res.push(c);
        i = i + 1;
    }
    res
}

/// The connections go round the path: each one reaches the raw offset that
/// the following one (the first, after the last) leaves.
pub proof fn lemma_connections_go_round(forward: Seq<bool>, ids: Seq<usize>, i: int)
    requires
        forward.len() == ids.len(),
        0 <= i < forward.len(),
    ensures
        connection_of(i, forward, ids).next == connection_of(
            (i + 1) % (forward.len() as int),
            forward,
            ids,
        ).first,
{
}

} // verus!
