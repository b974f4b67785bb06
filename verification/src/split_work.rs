//! The work list of splitting offset parts at their intersections.
//!
//! All parts (raw offsets and connecting arcs) start on a work list. The part
//! on top is taken off; a spatial query names the first part whose box
//! overlaps it, and the parts on the list that were cut from that one are
//! tried against it in turn. The first that really crosses it is split with
//! it: the untried ones and the new pieces go back on the list. A part that
//! crosses none of them is finished; so is the last part on the list, and a
//! part whose box overlaps nothing. When no part on the list was cut from
//! the overlapping one, the part taken off is let go.
//!
//! The query and the splits are geometry done by the caller. [`SplitWork`]
//! keeps the list and says what to do next ([`Step`]); the caller does it and
//! reports the outcome. Parts are known by a handle of the caller's and by
//! their identifier, whose upper half names the part they were cut from.

use vstd::prelude::*;
use vstd::multiset::Multiset;
use crate::ids::high_part;

verus! {

/// A part on the work list: the caller's `handle` for it and its identifier.
#[derive(Clone, Copy, Debug, PartialEq, Eq, Structural)]
pub struct Part {
    pub handle: usize,
    pub id: usize,
}

/// What the caller is to do next.
#[derive(Clone, Copy, Debug, PartialEq, Eq, Structural)]
pub enum Step {
    /// Find the first part whose box overlaps that of the part with this
    /// handle, and report it with [`SplitWork::on_candidate`].
    Query(usize),
    /// Split the two parts with these handles, and report the pieces with
    /// [`SplitWork::on_split`].
    Split(usize, usize),
    /// The work is done: the finished parts are in `done`.
    Finished,
}

/// The state of the work.
pub struct SplitWork {
    /// The work list; its last part is taken next.
    pub parts: Vec<Part>,
    /// The handles of the finished parts, in the order they were finished.
    pub done: Vec<usize>,
    /// The part being tried, while there is one.
    pub current: Option<Part>,
    /// The parts it is tried against, in list order.
    pub pending: Vec<Part>,
    /// How many of `pending` have been tried already.
    pub tried: usize,
}

/// The state of the work as values.
pub struct WorkModel {
    pub parts: Seq<Part>,
    pub done: Seq<usize>,
    pub current: Option<Part>,
    pub pending: Seq<Part>,
    pub tried: int,
}

impl View for SplitWork {
    type V = WorkModel;

    open spec fn view(&self) -> WorkModel {
        WorkModel {
            parts: self.parts@,
            done: self.done@,
            current: self.current,
            pending: self.pending@,
            tried: self.tried as int,
        }
    }
}

/// The part that the part with identifier `id` was cut from.
pub open spec fn parent_of(id: usize) -> int {
    high_part(id as int)
}

/// The positions, in increasing order, of the parts of `s` cut from `c`.
pub open spec fn child_indices(s: Seq<Part>, c: int) -> Seq<int>
    decreases s.len(),
{
    if s.len() == 0 {
        Seq::empty()
    } else {
        let r = child_indices(s.drop_last(), c);
        if parent_of(s.last().id) == c {
            r.push(s.len() - 1)
        } else {
            r
        }
    }
}

/// `s` without its element at `i`, the last element taking its place.
pub open spec fn swap_removed<A>(s: Seq<A>, i: int) -> Seq<A> {
    s.update(i, s.last()).drop_last()
}

/// `s` without the elements at positions `idx`, removed from the highest
/// position down, each by [`swap_removed`].
pub open spec fn remove_at<A>(s: Seq<A>, idx: Seq<int>) -> Seq<A>
    decreases idx.len(),
{
    if idx.len() == 0 {
        s
    } else {
        remove_at(swap_removed(s, idx.last()), idx.drop_last())
    }
}

/// The model with nothing being tried.
pub open spec fn idle(parts: Seq<Part>, done: Seq<usize>) -> WorkModel {
    WorkModel { parts, done, current: None, pending: Seq::empty(), tried: 0 }
}

/// Taking the next part off the list: the last part of a list of one is
/// finished; from a longer list the top part is taken to be tried.
pub open spec fn take_next(parts: Seq<Part>, done: Seq<usize>) -> (WorkModel, Step) {
    if parts.len() == 0 {
        (idle(parts, done), Step::Finished)
    } else if parts.len() == 1 {
        (idle(parts.drop_last(), done.push(parts.last().handle)), Step::Finished)
    } else {
        (
            WorkModel {
                parts: parts.drop_last(),
                done,
                current: Some(parts.last()),
                pending: Seq::empty(),
                tried: 0,
            },
            Step::Query(parts.last().handle),
        )
    }
}

/// After the query for the part being tried: with no overlapping box it is
/// finished; else the parts cut from the overlapping one are taken off the
/// list to be tried against it. If there are none, the part is let go.
pub open spec fn after_candidate(m: WorkModel, candidate: Option<u32>) -> (WorkModel, Step) {
    let p = m.current.unwrap();
    match candidate {
        None => take_next(m.parts, m.done.push(p.handle)),
        Some(c) => {
            let idx = child_indices(m.parts, c as int);
            let matching = idx.map_values(|i: int| m.parts[i]);
            let rest = remove_at(m.parts, idx);
            if matching.len() == 0 {
                take_next(rest, m.done)
            } else {
                (
                    WorkModel { parts: rest, done: m.done, current: m.current, pending: matching, tried: 0 },
                    Step::Split(p.handle, matching[0].handle),
                )
            }
        },
    }
}

/// After a split of the part being tried with `pending[tried]`: with pieces,
/// the untried parts and then the pieces go back on the list; without, the
/// other part goes back and the next one is tried, and after the last one
/// the part being tried is finished.
pub open spec fn after_split(m: WorkModel, pieces: Seq<Part>) -> (WorkModel, Step) {
    let p = m.current.unwrap();
    let k = m.tried;
    if pieces.len() > 0 {
        take_next(m.parts + m.pending.subrange(k + 1, m.pending.len() as int) + pieces, m.done)
    } else {
        let parts = m.parts.push(m.pending[k]);
        if k + 1 == m.pending.len() {
            take_next(parts, m.done.push(p.handle))
        } else {
            (
                WorkModel { parts, done: m.done, current: m.current, pending: m.pending, tried: k + 1 },
                Step::Split(p.handle, m.pending[k + 1].handle),
            )
        }
    }
}

/// The state after a step, as the caller is to find it: a query names the
/// part being tried, a split names it and the part it is tried against, and
/// when the work is finished nothing is left on the list.
pub open spec fn step_fits(m: WorkModel, step: Step) -> bool {
    match step {
        Step::Query(h) => {
            &&& m.current is Some
            &&& m.current.unwrap().handle == h
            &&& m.pending.len() == 0
            &&& m.tried == 0
        },
        Step::Split(h0, h1) => {
            &&& m.current is Some
            &&& m.current.unwrap().handle == h0
            &&& 0 <= m.tried < m.pending.len()
            &&& m.pending[m.tried].handle == h1
        },
        Step::Finished => m.parts.len() == 0 && m.current is None,
    }
}

/// Every step leaves the work as the step says (see [`step_fits`]), and
/// parts once finished stay finished, in the order they were finished.
pub proof fn lemma_steps_fit(m: WorkModel, candidate: Option<u32>, pieces: Seq<Part>)
    ensures
        step_fits(take_next(m.parts, m.done).0, take_next(m.parts, m.done).1),
        m.done.is_prefix_of(take_next(m.parts, m.done).0.done),
        m.current is Some ==> step_fits(after_candidate(m, candidate).0, after_candidate(m, candidate).1),
        m.current is Some ==> m.done.is_prefix_of(after_candidate(m, candidate).0.done),
        m.current is Some && 0 <= m.tried < m.pending.len() ==> step_fits(
            after_split(m, pieces).0,
            after_split(m, pieces).1,
        ),
        m.current is Some && 0 <= m.tried < m.pending.len() ==> m.done.is_prefix_of(
            after_split(m, pieces).0.done,
        ),
{
    lemma_take_next_fits(m.parts, m.done);
    if m.current is Some {
        let p = m.current.unwrap();
        lemma_take_next_fits(m.parts, m.done.push(p.handle));
        if let Some(c) = candidate {
            let idx = child_indices(m.parts, c as int);
            lemma_take_next_fits(remove_at(m.parts, idx), m.done);
        }
        if 0 <= m.tried < m.pending.len() {
            let k = m.tried;
            lemma_take_next_fits(
                m.parts + m.pending.subrange(k + 1, m.pending.len() as int) + pieces,
                m.done,
            );
            lemma_take_next_fits(m.parts.push(m.pending[k]), m.done.push(p.handle));
        }
    }
}

proof fn lemma_take_next_fits(parts: Seq<Part>, done: Seq<usize>)
    ensures
        step_fits(take_next(parts, done).0, take_next(parts, done).1),
        done.is_prefix_of(take_next(parts, done).0.done),
{
    if parts.len() == 1 {
        assert(done.is_prefix_of(done.push(parts.last().handle)));
    }
}

/// The handles of `s`, in order.
pub open spec fn handles(s: Seq<Part>) -> Seq<usize> {
    s.map_values(|p: Part| p.handle)
}

/// The handle of the part being tried, if there is one.
pub open spec fn current_handle(m: WorkModel) -> Multiset<usize> {
    match m.current {
        Some(p) => Multiset::singleton(p.handle),
        None => Multiset::empty(),
    }
}

/// The parts the work accounts for: those on the list, the one being tried,
/// those it is still to be tried against, and the finished ones.
pub open spec fn accounted(m: WorkModel) -> Multiset<usize> {
    handles(m.parts).to_multiset().add(current_handle(m)).add(
        handles(m.pending.subrange(m.tried, m.pending.len() as int)).to_multiset(),
    ).add(m.done.to_multiset())
}

/// The work loses no part and makes up none: every step keeps the parts it
/// accounts for, except that a split replaces the two parts split by the
/// pieces, and that a part is let go when the first part whose box it
/// overlaps has no pieces left on the list.
pub proof fn lemma_work_keeps_parts(m: WorkModel, candidate: Option<u32>, pieces: Seq<Part>)
    ensures
        accounted(take_next(m.parts, m.done).0) == handles(m.parts).to_multiset().add(
            m.done.to_multiset(),
        ),
        m.current is Some && m.pending.len() == 0 && m.tried == 0 ==> {
            let h = m.current.unwrap().handle;
            let lost = match candidate {
                Some(c) => child_indices(m.parts, c as int).len() == 0,
                None => false,
            };
            accounted(after_candidate(m, candidate).0) == if lost {
                accounted(m).remove(h)
            } else {
                accounted(m)
            }
        },
        m.current is Some && 0 <= m.tried < m.pending.len() ==> {
            let h = m.current.unwrap().handle;
            let h1 = m.pending[m.tried].handle;
            accounted(after_split(m, pieces).0) == if pieces.len() > 0 {
                accounted(m).remove(h).remove(h1).add(handles(pieces).to_multiset())
            } else {
                accounted(m)
            }
        },
{
    broadcast use vstd::multiset::group_multiset_properties;
    broadcast use vstd::seq_lib::group_to_multiset_ensures;
    broadcast use vstd::seq_lib::lemma_multiset_commutative;

    lemma_take_next_accounts(m.parts, m.done);
    if m.current is Some && m.pending.len() == 0 && m.tried == 0 {
        let p = m.current.unwrap();
        let h = p.handle;
        assert(m.pending.subrange(m.tried, 0) =~= Seq::<Part>::empty());
        assert(handles(Seq::<Part>::empty()) =~= Seq::<usize>::empty());
        lemma_take_next_accounts(m.parts, m.done.push(h));
        match candidate {
            None => {
                assert(accounted(after_candidate(m, candidate).0) =~= accounted(m));
            },
            Some(c) => {
                let idx = child_indices(m.parts, c as int);
                let matching = idx.map_values(|i: int| m.parts[i]);
                let rest = remove_at(m.parts, idx);
                lemma_child_indices_sorted(m.parts, c as int);
                lemma_remove_at_handles(m.parts, idx);
                if idx.len() == 0 {
                    assert(rest == m.parts);
                    lemma_take_next_accounts(rest, m.done);
                    assert(accounted(after_candidate(m, candidate).0) =~= accounted(m).remove(h));
                } else {
                    assert(matching.subrange(0, matching.len() as int) =~= matching);
                    assert(accounted(after_candidate(m, candidate).0) =~= accounted(m));
                }
            },
        }
    }
    if m.current is Some && 0 <= m.tried < m.pending.len() {
        let p = m.current.unwrap();
        let h = p.handle;
        let k = m.tried;
        let len = m.pending.len() as int;
        let h1 = m.pending[k].handle;
        let later = m.pending.subrange(k + 1, len);
        assert(m.pending.subrange(k, len) =~= seq![m.pending[k]] + later);
        assert(handles(seq![m.pending[k]] + later) =~= seq![h1] + handles(later));
        assert(handles(seq![m.pending[k]]) =~= seq![h1]);
        if pieces.len() > 0 {
            let all = m.parts + later + pieces;
            lemma_take_next_accounts(all, m.done);
            assert(handles(all) =~= handles(m.parts) + handles(later) + handles(pieces));
            assert(accounted(after_split(m, pieces).0) =~= accounted(m).remove(h).remove(h1).add(
                handles(pieces).to_multiset(),
            ));
        } else {
            let parts = m.parts.push(m.pending[k]);
            assert(handles(parts) =~= handles(m.parts).push(h1));
            if k + 1 == len {
                lemma_take_next_accounts(parts, m.done.push(h));
                assert(later =~= Seq::<Part>::empty());
                assert(handles(later) =~= Seq::<usize>::empty());
                assert(accounted(after_split(m, pieces).0) =~= accounted(m));
            } else {
                assert(accounted(after_split(m, pieces).0) =~= accounted(m));
            }
        }
    }
}

proof fn lemma_take_next_accounts(parts: Seq<Part>, done: Seq<usize>)
    ensures
        accounted(take_next(parts, done).0) == handles(parts).to_multiset().add(done.to_multiset()),
{
    broadcast use vstd::multiset::group_multiset_properties;
    broadcast use vstd::seq_lib::group_to_multiset_ensures;

    let empty = Seq::<Part>::empty();
    assert(empty.subrange(0, 0) =~= empty);
    assert(handles(empty) =~= Seq::<usize>::empty());
    if parts.len() == 0 {
        assert(handles(parts) =~= Seq::<usize>::empty());
        assert(accounted(take_next(parts, done).0) =~= handles(parts).to_multiset().add(done.to_multiset()));
    } else {
        let last = parts.last();
        assert(handles(parts) =~= handles(parts.drop_last()).push(last.handle));
        if parts.len() == 1 {
            assert(handles(parts.drop_last()) =~= Seq::<usize>::empty());
        }
        assert(accounted(take_next(parts, done).0) =~= handles(parts).to_multiset().add(done.to_multiset()));
    }
}

/// The positions of the parts cut from `c` are valid and increasing.
proof fn lemma_child_indices_sorted(s: Seq<Part>, c: int)
    ensures
        forall|k: int|
            0 <= k < child_indices(s, c).len() ==> 0 <= #[trigger] child_indices(s, c)[k] < s.len(),
        forall|a: int, b: int|
            0 <= a < b < child_indices(s, c).len() ==> child_indices(s, c)[a] < child_indices(s, c)[b],
    decreases s.len(),
{
    if s.len() > 0 {
        let r = child_indices(s.drop_last(), c);
        lemma_child_indices_sorted(s.drop_last(), c);
        if parent_of(s.last().id) == c {
            let q = r.push(s.len() - 1);
            assert(child_indices(s, c) == q);
            assert forall|a: int, b: int| 0 <= a < b < q.len() implies q[a] < q[b] by {
                if b == q.len() - 1 {
                    assert(r[a] < s.len() - 1);
                }
            }
        }
    }
}

/// Removing an element by moving the last one into its place keeps the
/// other elements.
proof fn lemma_swap_removed_multiset<A>(s: Seq<A>, i: int)
    requires
        0 <= i < s.len(),
    ensures
        swap_removed(s, i).to_multiset() == s.to_multiset().remove(s[i]),
{
    broadcast use vstd::multiset::group_multiset_properties;
    broadcast use vstd::seq_lib::group_to_multiset_ensures;

    let u = s.update(i, s.last());
    assert(u.last() == s.last());
    assert(u.drop_last() =~= u.remove(u.len() - 1));
    assert(s.to_multiset().count(s[i]) > 0);
    assert(swap_removed(s, i).to_multiset() =~= s.to_multiset().remove(s[i]));
}

/// Taking the parts at increasing positions `idx` off `s` keeps, between the
/// rest and the parts taken, every handle of `s`.
proof fn lemma_remove_at_handles(s: Seq<Part>, idx: Seq<int>)
    requires
        forall|k: int| 0 <= k < idx.len() ==> 0 <= #[trigger] idx[k] < s.len(),
        forall|a: int, b: int| 0 <= a < b < idx.len() ==> idx[a] < idx[b],
    ensures
        handles(remove_at(s, idx)).to_multiset().add(
            handles(idx.map_values(|i: int| s[i])).to_multiset(),
        ) == handles(s).to_multiset(),
    decreases idx.len(),
{
    broadcast use vstd::multiset::group_multiset_properties;
    broadcast use vstd::seq_lib::group_to_multiset_ensures;

    if idx.len() == 0 {
        assert(handles(idx.map_values(|i: int| s[i])) =~= Seq::<usize>::empty());
        assert(handles(remove_at(s, idx)).to_multiset().add(
            handles(idx.map_values(|i: int| s[i])).to_multiset(),
        ) =~= handles(s).to_multiset());
    } else {
        let l = idx.last();
        let rest = idx.drop_last();
        let t = swap_removed(s, l);
        assert forall|k: int| 0 <= k < rest.len() implies 0 <= #[trigger] rest[k] < t.len() by {
            assert(idx[k] < idx[idx.len() - 1]);
        }
        lemma_remove_at_handles(t, rest);
        assert(rest.map_values(|i: int| t[i]) =~= rest.map_values(|i: int| s[i])) by {
            assert forall|k: int| 0 <= k < rest.len() implies t[rest[k]] == s[rest[k]] by {
                assert(idx[k] < idx[idx.len() - 1]);
            }
        }
        assert(handles(idx.map_values(|i: int| s[i])) =~= handles(rest.map_values(|i: int| s[i])).push(
            s[l].handle,
        ));
        assert(handles(t) =~= swap_removed(handles(s), l));
        lemma_swap_removed_multiset(handles(s), l);
        let hl = s[l].handle;
        assert(handles(s)[l] == hl);
        assert(handles(s).to_multiset().count(hl) > 0);
        assert(remove_at(s, idx) == remove_at(t, rest));
        let a = handles(remove_at(t, rest)).to_multiset();
        let b = handles(rest.map_values(|i: int| s[i])).to_multiset();
        assert(a.add(b) == handles(t).to_multiset());
        assert(handles(t).to_multiset() == handles(s).to_multiset().remove(hl));
        assert(handles(idx.map_values(|i: int| s[i])).to_multiset() == b.insert(hl));
        assert(a.add(b.insert(hl)) =~= a.add(b).insert(hl));
        assert(handles(s).to_multiset().remove(hl).insert(hl) =~= handles(s).to_multiset());
    }
}

/// Whether a part was cut from part `c`.
pub open spec fn cut_from(c: int) -> spec_fn(Part) -> bool {
    |p: Part| parent_of(p.id) == c
}

/// The parts taken off the list to be tried are exactly the parts of the list
/// cut from the candidate, in list order, wherever they stand; what stays on
/// the list is the rest of the parts, none of them cut from the candidate.
pub proof fn lemma_children_are_taken_exactly(s: Seq<Part>, c: int)
    ensures
        child_indices(s, c).map_values(|i: int| s[i]) == s.filter(cut_from(c)),
        remove_at(s, child_indices(s, c)).to_multiset().add(s.filter(cut_from(c)).to_multiset())
            == s.to_multiset(),
        forall|p: Part| #[trigger] remove_at(s, child_indices(s, c)).contains(p) ==> parent_of(p.id) != c,
{
    broadcast use vstd::multiset::group_multiset_properties;
    broadcast use vstd::seq_lib::group_to_multiset_ensures;

    let idx = child_indices(s, c);
    let rest = remove_at(s, idx);
    lemma_child_indices_filter(s, c);
    lemma_child_indices_sorted(s, c);
    lemma_remove_at_multiset(s, idx);
    assert forall|p: Part| #[trigger] rest.contains(p) implies parent_of(p.id) != c by {
        if parent_of(p.id) == c {
            lemma_filter_keeps_count(s, c, p);
            assert(rest.to_multiset().count(p) > 0);
            assert(s.to_multiset().count(p) == rest.to_multiset().count(p) + s.filter(cut_from(c)).to_multiset().count(p));
        }
    }
}

proof fn lemma_child_indices_filter(s: Seq<Part>, c: int)
    ensures
        child_indices(s, c).map_values(|i: int| s[i]) =~= s.filter(cut_from(c)),
    decreases s.len(),
{
    if s.len() > 0 {
        let d = s.drop_last();
        lemma_child_indices_filter(d, c);
        lemma_child_indices_sorted(d, c);
        let r = child_indices(d, c);
        assert(r.map_values(|i: int| s[i]) =~= r.map_values(|i: int| d[i]));
        reveal(Seq::filter);
        assert(s.filter(cut_from(c)) == if cut_from(c)(s.last()) {
            d.filter(cut_from(c)).push(s.last())
        } else {
            d.filter(cut_from(c))
        });
        if parent_of(s.last().id) == c {
            assert(r.push(s.len() - 1).map_values(|i: int| s[i]) =~= r.map_values(|i: int| s[i]).push(s.last()));
        }
    } else {
        reveal(Seq::filter);
        assert(s.filter(cut_from(c)) =~= Seq::<Part>::empty());
    }
}

proof fn lemma_filter_keeps_count(s: Seq<Part>, c: int, x: Part)
    requires
        parent_of(x.id) == c,
    ensures
        s.filter(cut_from(c)).to_multiset().count(x) == s.to_multiset().count(x),
    decreases s.len(),
{
    broadcast use vstd::multiset::group_multiset_properties;
    broadcast use vstd::seq_lib::group_to_multiset_ensures;

    if s.len() > 0 {
        let d = s.drop_last();
        lemma_filter_keeps_count(d, c, x);
        assert(s =~= d.push(s.last()));
        reveal(Seq::filter);
        assert(s.filter(cut_from(c)) == if cut_from(c)(s.last()) {
            d.filter(cut_from(c)).push(s.last())
        } else {
            d.filter(cut_from(c))
        });
        if s.last() == x {
            assert(cut_from(c)(s.last()));
        }
    } else {
        reveal(Seq::filter);
        assert(s.filter(cut_from(c)) =~= Seq::<Part>::empty());
    }
}

/// Taking the elements at increasing positions `idx` off `s` keeps, between
/// the rest and the elements taken, every element of `s`.
proof fn lemma_remove_at_multiset<A>(s: Seq<A>, idx: Seq<int>)
    requires
        forall|k: int| 0 <= k < idx.len() ==> 0 <= #[trigger] idx[k] < s.len(),
        forall|a: int, b: int| 0 <= a < b < idx.len() ==> idx[a] < idx[b],
    ensures
        remove_at(s, idx).to_multiset().add(idx.map_values(|i: int| s[i]).to_multiset()) == s.to_multiset(),
    decreases idx.len(),
{
    broadcast use vstd::multiset::group_multiset_properties;
    broadcast use vstd::seq_lib::group_to_multiset_ensures;

    if idx.len() == 0 {
        assert(idx.map_values(|i: int| s[i]) =~= Seq::<A>::empty());
        assert(remove_at(s, idx).to_multiset().add(idx.map_values(|i: int| s[i]).to_multiset())
            =~= s.to_multiset());
    } else {
        let l = idx.last();
        let rest = idx.drop_last();
        let t = swap_removed(s, l);
        assert forall|k: int| 0 <= k < rest.len() implies 0 <= #[trigger] rest[k] < t.len() by {
            assert(idx[k] < idx[idx.len() - 1]);
        }
        lemma_remove_at_multiset(t, rest);
        assert(rest.map_values(|i: int| t[i]) =~= rest.map_values(|i: int| s[i])) by {
            assert forall|k: int| 0 <= k < rest.len() implies t[rest[k]] == s[rest[k]] by {
                assert(idx[k] < idx[idx.len() - 1]);
            }
        }
        assert(idx.map_values(|i: int| s[i]) =~= rest.map_values(|i: int| s[i]).push(s[l]));
        lemma_swap_removed_multiset(s, l);
        assert(s.to_multiset().count(s[l]) > 0);
        assert(remove_at(s, idx) == remove_at(t, rest));
        let a = remove_at(t, rest).to_multiset();
        let b = rest.map_values(|i: int| s[i]).to_multiset();
        assert(a.add(b) == t.to_multiset());
        assert(a.add(b.insert(s[l])) =~= a.add(b).insert(s[l]));
        assert(s.to_multiset().remove(s[l]).insert(s[l]) =~= s.to_multiset());
    }
}

impl SplitWork {
    /// Puts `parts` on the work list and takes the first part off it.
    pub fn new(parts: Vec<Part>) -> (r: (SplitWork, Step))
        ensures
            (r.0@, r.1) == take_next(parts@, Seq::empty()),
    {
        let mut work = SplitWork {
            parts,
            done: Vec::new(),
            current: None,
            pending: Vec::new(),
            tried: 0,
        };
        let step = work.take_next();
        (work, step)
    }

    /// Takes the next part off the list (see [`take_next`]).
    fn take_next(&mut self) -> (step: Step)
        ensures
            (final(self)@, step) == take_next(old(self).parts@, old(self).done@),
    {
        let n = self.parts.len();
        if n == 0 {
            self.current = None;
            self.pending = Vec::new();
            self.tried = 0;
            proof {
                assert(self@.pending =~= Seq::<Part>::empty());
            }
            Step::Finished
        } else if n == 1 {
            let p = self.parts.pop().unwrap();
            self.done.push(p.handle);
            self.current = None;
            self.pending = Vec::new();
            self.tried = 0;
            Step::Finished
        } else {
            let p = self.parts.pop().unwrap();
            self.current = Some(p);
            self.pending = Vec::new();
            self.tried = 0;
            Step::Query(p.handle)
        }
    }

    /// Reports the result of a [`Step::Query`]: the index, among all the
    /// parts the list started with, of the first part whose box overlaps
    /// that of the part being tried, or `None`.
    pub fn on_candidate(&mut self, candidate: Option<u32>) -> (step: Step)
        requires
            old(self).current is Some,
        ensures
            (final(self)@, step) == after_candidate(old(self)@, candidate),
    {
        let p = self.current.unwrap();
        match candidate {
            None => {
                self.done.push(p.handle);
                self.take_next()
            },
            Some(c) => {
                let matching = self.take_children(c);
                if matching.len() == 0 {
                    self.take_next()
                } else {
                    let h1 = matching[0].handle;
                    self.pending = matching;
                    self.tried = 0;
                    Step::Split(p.handle, h1)
                }
            },
        }
    }

    /// Takes the parts cut from part `c` off the list and gives them back in
    /// list order; they are removed from the highest position down, each
    /// replaced by the last part of the list.
    fn take_children(&mut self, c: u32) -> (matching: Vec<Part>)
        ensures
            matching@ == child_indices(old(self).parts@, c as int).map_values(
                |i: int| old(self).parts@[i],
            ),
            final(self).parts@ == remove_at(old(self).parts@, child_indices(old(self).parts@, c as int)),
            final(self).done == old(self).done,
            final(self).current == old(self).current,
            final(self).pending == old(self).pending,
            final(self).tried == old(self).tried,
    {
        let ghost orig = self.parts@;
        let n = self.parts.len();
        let mut idx: Vec<usize> = Vec::new();
        let mut matching: Vec<Part> = Vec::new();
        let mut i: usize = 0;
        while i < n
            invariant
                n == orig.len(),
                self.parts@ == orig,
                i <= n,
                idx@.len() == matching@.len(),
                idx@.map_values(|k: usize| k as int) == child_indices(orig.subrange(0, i as int), c as int),
                forall|k: int| 0 <= k < idx@.len() ==> matching@[k] == orig[idx@[k] as int],
                forall|k: int| 0 <= k < idx@.len() ==> idx@[k] < i,
                forall|a: int, b: int|
                    0 <= a < b < idx@.len() ==> idx@[b] - idx@[a] >= b - a,
            decreases n - i,
        {
            proof {
                assert(orig.subrange(0, i as int + 1).drop_last() =~= orig.subrange(0, i as int));
            }
            let p = self.parts[i];
            if crate::ids::parent_id(p.id) == c {
                let ghost prev = idx@;
                idx.push(i);
                matching.push(p);
                proof {
                    let len = idx@.len() as int;
                    assert forall|a: int, b: int| 0 <= a < b < len implies idx@[b] - idx@[a] >= b - a by {
                        if b == len - 1 && a < len - 2 {
                            assert(prev[len - 2] - prev[a] >= len - 2 - a);
                        }
                    }
                    assert(idx@.map_values(|k: usize| k as int) =~= child_indices(
                        orig.subrange(0, i as int),
                        c as int,
                    ).push(i as int));
                }
            } else {
                proof {
                    assert(idx@.map_values(|k: usize| k as int) =~= child_indices(
                        orig.subrange(0, i as int),
                        c as int,
                    ));
                }
            }
            i = i + 1;
        }
        proof {
            assert(orig.subrange(0, n as int) =~= orig);
        }
        let ghost all_idx = idx@.map_values(|k: usize| k as int);
        let mut j: usize = idx.len();
        proof {
            assert(all_idx.subrange(0, j as int) =~= all_idx);
        }
        while j > 0
            invariant
                j <= idx@.len(),
                all_idx == idx@.map_values(|k: usize| k as int),
                self.parts@.len() == n - (idx@.len() - j),
                forall|k: int| 0 <= k < idx@.len() ==> idx@[k] < n,
                forall|a: int, b: int|
                    0 <= a < b < idx@.len() ==> idx@[b] - idx@[a] >= b - a,
                remove_at(orig, all_idx) == remove_at(self.parts@, all_idx.subrange(0, j as int)),
                self.done == old(self).done,
                self.current == old(self).current,
                self.pending == old(self).pending,
                self.tried == old(self).tried,
            decreases j,
        {
            let k = idx[j - 1];
            proof {
                let len = idx@.len() as int;
                assert(idx@[len - 1] - idx@[j - 1] >= len - j);
                assert(all_idx.subrange(0, j as int).last() == k as int);
                assert(all_idx.subrange(0, j as int).drop_last() =~= all_idx.subrange(0, j - 1));
            }
            let _ = self.parts.swap_remove(k);
            j = j - 1;
        }
        proof {
            assert(all_idx.subrange(0, 0) =~= Seq::<int>::empty());
            assert(matching@ =~= all_idx.map_values(|i: int| orig[i]));
        }
        matching
    }

    /// Reports the pieces of a [`Step::Split`] (none when the two parts do
    /// not really cross), in the order they are to go on the list.
    pub fn on_split(&mut self, pieces: Vec<Part>) -> (step: Step)
        requires
            old(self).current is Some,
            old(self).tried < old(self).pending.len(),
        ensures
            (final(self)@, step) == after_split(old(self)@, pieces@),
    {
        let p = self.current.unwrap();
        let k = self.tried;
        let len = self.pending.len();
        if pieces.len() > 0 {
            let ghost before = self.parts@;
            let mut m = k + 1;
            while m < len
                invariant
                    k < len,
                    len == self.pending.len(),
                    k + 1 <= m <= len,
                    self.parts@ == before + self.pending@.subrange(k + 1, m as int),
                    self.pending == old(self).pending,
                    self.done == old(self).done,
                decreases len - m,
            {
                let q = self.pending[m];
                self.parts.push(q);
                proof {
                    assert(self.pending@.subrange(k + 1, m + 1) =~= self.pending@.subrange(
                        k + 1,
                        m as int,
                    ).push(q));
                }
                m = m + 1;
            }
            let mut i: usize = 0;
            let ghost mid = self.parts@;
            while i < pieces.len()
                invariant
                    i <= pieces.len(),
                    self.parts@ == mid + pieces@.subrange(0, i as int),
                    self.done == old(self).done,
                decreases pieces.len() - i,
            {
                self.parts.push(pieces[i]);
                proof {
                    assert(pieces@.subrange(0, i + 1) =~= pieces@.subrange(0, i as int).push(pieces@[i as int]));
                }
                i = i + 1;
            }
            proof {
                assert(pieces@.subrange(0, pieces@.len() as int) =~= pieces@);
                assert(self.parts@ =~= before + old(self).pending@.subrange(k + 1, len as int) + pieces@);
            }
            self.take_next()
        } else {
            let q = self.pending[k];
            self.parts.push(q);
            if k + 1 == len {
                self.done.push(p.handle);
                self.take_next()
            } else {
                self.tried = k + 1;
                Step::Split(p.handle, self.pending[k + 1].handle)
            }
        }
    }
}

} // verus!
