//! Grouping of arc endpoints that lie within merging distance of each other.
//!
//! Endpoint `2 * i` is the start of arc `i` and endpoint `2 * i + 1` its end.
//! Which endpoints are near which is a distance computation on coordinates;
//! the library receives it as data: `nearby[k]` lists the endpoints within
//! tolerance of endpoint `k`, in the order the spatial index reports them.
//! Groups grow from the first endpoint not yet grouped, taking in the
//! neighbours of each member in turn (the most recently added member first).

use vstd::prelude::*;

verus! {

/// Which end of an arc an endpoint is.
#[derive(Debug, Clone, Copy, PartialEq, Eq)]
pub enum EndpointType {
    /// The start point `a` of the arc.
    Start,
    /// The end point `b` of the arc.
    End,
}

/// The arc and the end that endpoint `k` stands for.
pub open spec fn endpoint_of(k: usize) -> (usize, EndpointType) {
    ((k / 2) as usize, if k % 2 == 0 { EndpointType::Start } else { EndpointType::End })
}

/// Taking the endpoints of `list` that are not used yet into the group and
/// onto the queue, in order.
pub open spec fn scan(list: Seq<usize>, used: Seq<bool>, group: Seq<usize>, queue: Seq<usize>) -> (
    Seq<bool>,
    Seq<usize>,
    Seq<usize>,
)
    decreases list.len(),
{
    if list.len() == 0 {
        (used, group, queue)
    } else {
        let x = list[0];
        if used[x as int] {
            scan(list.drop_first(), used, group, queue)
        } else {
            scan(list.drop_first(), used.update(x as int, true), group.push(x), queue.push(x))
        }
    }
}

/// Growing a group: the last endpoint of the queue is taken off and its
/// neighbours are scanned, until the queue is empty.
pub open spec fn expand(
    nearby: Seq<Seq<usize>>,
    used: Seq<bool>,
    group: Seq<usize>,
    queue: Seq<usize>,
    fuel: nat,
) -> (Seq<bool>, Seq<usize>)
    decreases fuel,
{
    if queue.len() == 0 || fuel == 0 {
        (used, group)
    } else {
        let cur = queue.last();
        let s = scan(nearby[cur as int], used, group, queue.drop_last());
        expand(nearby, s.0, s.1, s.2, (fuel - 1) as nat)
    }
}

/// The group grown from endpoint `i` and the marks after it.
pub open spec fn group_from(nearby: Seq<Seq<usize>>, used: Seq<bool>, i: usize) -> (Seq<bool>, Seq<usize>) {
    expand(nearby, used.update(i as int, true), seq![i], seq![i], 2 * nearby.len())
}

/// The groups of more than one endpoint grown from endpoints `i`, `i + 1`, ...
pub open spec fn groups_from(nearby: Seq<Seq<usize>>, used: Seq<bool>, i: nat) -> Seq<Seq<usize>>
    decreases nearby.len() - i,
{
    if i >= nearby.len() {
        Seq::empty()
    } else if used[i as int] {
        groups_from(nearby, used, i + 1)
    } else {
        let (u2, g) = group_from(nearby, used, i as usize);
        if g.len() > 1 {
            seq![g] + groups_from(nearby, u2, i + 1)
        } else {
            groups_from(nearby, u2, i + 1)
        }
    }
}

/// The groups of endpoints found for the neighbour lists `nearby`.
pub open spec fn endpoint_groups(nearby: Seq<Seq<usize>>) -> Seq<Seq<usize>> {
    groups_from(nearby, Seq::new(nearby.len(), |k: int| false), 0)
}

/// The neighbour lists name only endpoints that exist.
pub open spec fn nearby_in_range(nearby: Seq<Seq<usize>>) -> bool {
    forall|k: int, j: int| 0 <= k < nearby.len() && 0 <= j < nearby[k].len() ==> #[trigger] nearby[k][j] < nearby.len()
}

/// Number of endpoints not marked.
pub open spec fn count_unused(used: Seq<bool>) -> nat
    decreases used.len(),
{
    if used.len() == 0 {
        0
    } else {
        count_unused(used.drop_last()) + if used.last() { 0nat } else { 1nat }
    }
}

proof fn lemma_count_unused_mark(used: Seq<bool>, x: int)
    requires
        0 <= x < used.len(),
        !used[x],
    ensures
        count_unused(used.update(x, true)) + 1 == count_unused(used),
    decreases used.len(),
{
    let u2 = used.update(x, true);
    if x == used.len() - 1 {
        assert(u2.drop_last() =~= used.drop_last());
    } else {
        assert(u2.drop_last() =~= used.drop_last().update(x, true));
        lemma_count_unused_mark(used.drop_last(), x);
    }
}

/// Scanning keeps "twice the unmarked endpoints plus the queue" from growing,
/// and moves endpoints from unmarked to the group and the queue together.
proof fn lemma_scan_measure(list: Seq<usize>, used: Seq<bool>, group: Seq<usize>, queue: Seq<usize>)
    requires
        forall|j: int| 0 <= j < list.len() ==> #[trigger] list[j] < used.len(),
    ensures
        ({
            let s = scan(list, used, group, queue);
            &&& s.0.len() == used.len()
            &&& count_unused(s.0) <= count_unused(used)
            &&& count_unused(s.0) + s.2.len() == count_unused(used) + queue.len()
            &&& s.1.len() - group.len() == s.2.len() - queue.len()
        }),
    decreases list.len(),
{
    if list.len() > 0 {
        let x = list[0];
        assert forall|j: int| 0 <= j < list.drop_first().len() implies #[trigger] list.drop_first()[j] < used.len() by {
            assert(list.drop_first()[j] == list[j + 1]);
        }
        if used[x as int] {
            lemma_scan_measure(list.drop_first(), used, group, queue);
        } else {
            lemma_count_unused_mark(used, x as int);
            lemma_scan_measure(list.drop_first(), used.update(x as int, true), group.push(x), queue.push(x));
        }
    }
}

/// Finds the groups of close endpoints: for every endpoint not yet grouped,
/// the endpoints reachable from it through `nearby`, in the order they are
/// reached; groups of a single endpoint are left out. Each member is given as
/// its arc and which end of it it is.
pub fn find_endpoint_groups(nearby: &Vec<Vec<usize>>) -> (r: Vec<Vec<(usize, EndpointType)>>)
    requires
        nearby_in_range(nearby@.map_values(|l: Vec<usize>| l@)),
    ensures
        ({
            let spec_groups = endpoint_groups(nearby@.map_values(|l: Vec<usize>| l@));
            &&& r@.len() == spec_groups.len()
            &&& forall|k: int| 0 <= k < r@.len() ==> (#[trigger] r@[k])@.len() == spec_groups[k].len()
            &&& forall|k: int, j: int| 0 <= k < r@.len() && 0 <= j < r@[k]@.len()
                ==> (#[trigger] r@[k]@[j]) == endpoint_of(spec_groups[k][j])
        }),
{
    let ghost nb = nearby@.map_values(|l: Vec<usize>| l@);
    let m = nearby.len();
    let mut used: Vec<bool> = Vec::new();
    while used.len() < m
        invariant
            used@.len() <= m,
            forall|k: int| 0 <= k < used@.len() ==> !used@[k],
        decreases m - used@.len(),
    {
        used.push(false);
    }
    proof {
        assert(used@ =~= Seq::new(nb.len(), |k: int| false));
    }
    let mut groups: Vec<Vec<usize>> = Vec::new();
    let mut i: usize = 0;
    while i < m
        invariant
            m == nearby@.len(),
            nb == nearby@.map_values(|l: Vec<usize>| l@),
            nearby_in_range(nb),
            i <= m,
            used@.len() == m,
            groups@.map_values(|g: Vec<usize>| g@) + groups_from(nb, used@, i as nat) == endpoint_groups(nb),
        decreases m - i,
    {
        if used[i] {
            i = i + 1;
            continue;
        }
        let ghost used_before = used@;
        let ghost before = groups@.map_values(|g: Vec<usize>| g@);
        used.set(i, true);
        let mut group: Vec<usize> = Vec::new();
        group.push(i);
        let mut queue: Vec<usize> = Vec::new();
        queue.push(i);
        let ghost target = group_from(nb, used_before, i);
        let ghost mut fuel: nat = 2 * nb.len();
        proof {
            lemma_count_unused_mark(used_before, i as int);
            assert(count_unused(used_before) <= m) by {
                lemma_count_unused_le(used_before);
            }
        }
        while queue.len() > 0
            invariant
                m == nearby@.len(),
                nb == nearby@.map_values(|l: Vec<usize>| l@),
                nearby_in_range(nb),
                used@.len() == m,
                forall|q: int| 0 <= q < queue@.len() ==> #[trigger] queue@[q] < m,
                target == expand(nb, used@, group@, queue@, fuel),
                fuel >= 2 * count_unused(used@) + queue@.len(),
            decreases 2 * count_unused(used@) + queue@.len(),
        {
            let cur = queue.pop().unwrap();
            let ghost q_rest = queue@;
            let ghost u0 = used@;
            let ghost g0 = group@;
            let list = &nearby[cur];
            proof {
                assert(nb[cur as int] == list@);
                assert forall|j: int| 0 <= j < list@.len() implies #[trigger] list@[j] < used@.len() by {
                    assert(nb[cur as int][j] == list@[j]);
                }
                lemma_scan_measure(list@, u0, g0, q_rest);
                assert(list@.skip(0) =~= list@);
            }
            let ghost whole = scan(list@, u0, g0, q_rest);
            let mut j: usize = 0;
            while j < list.len()
                invariant
                    m == nearby@.len(),
                    used@.len() == m,
                    forall|k: int| 0 <= k < list@.len() ==> #[trigger] list@[k] < m,
                    forall|q: int| 0 <= q < queue@.len() ==> #[trigger] queue@[q] < m,
                    j <= list@.len(),
                    whole == scan(list@.skip(j as int), used@, group@, queue@),
                decreases list@.len() - j,
            {
                let idx = list[j];
                proof {
                    assert(list@.skip(j as int)[0] == idx);
                    assert(list@.skip(j as int).drop_first() =~= list@.skip(j + 1));
                }
                if !used[idx] {
                    group.push(idx);
                    used.set(idx, true);
                    queue.push(idx);
                }
                j = j + 1;
            }
            proof {
                assert(list@.skip(j as int).len() == 0);
                assert(whole == (used@, group@, queue@));
                assert(fuel > 0);
                fuel = (fuel - 1) as nat;
            }
        }
        proof {
            assert(target == (used@, group@));
        }
        if group.len() > 1 {
            let ghost gv = group@;
            groups.push(group);
            proof {
                assert(groups@.map_values(|g: Vec<usize>| g@) =~= before.push(gv));
                assert(groups_from(nb, used_before, i as nat) == seq![gv] + groups_from(nb, used@, (i + 1) as nat));
                assert(before.push(gv) + groups_from(nb, used@, (i + 1) as nat)
                    =~= before + (seq![gv] + groups_from(nb, used@, (i + 1) as nat)));
            }
        }
        i = i + 1;
    }
    proof {
        assert(groups_from(nb, used@, i as nat) =~= Seq::<Seq<usize>>::empty());
        assert(groups@.map_values(|g: Vec<usize>| g@) + Seq::<Seq<usize>>::empty()
            =~= groups@.map_values(|g: Vec<usize>| g@));
    }
    let ghost spec_groups = groups@.map_values(|g: Vec<usize>| g@);
    let mut result: Vec<Vec<(usize, EndpointType)>> = Vec::new();
    let mut k: usize = 0;
    while k < groups.len()
        invariant
            spec_groups == groups@.map_values(|g: Vec<usize>| g@),
            k <= groups@.len(),
            result@.len() == k,
            forall|a: int| 0 <= a < k ==> (#[trigger] result@[a])@.len() == spec_groups[a].len(),
            forall|a: int, b: int| 0 <= a < k && 0 <= b < result@[a]@.len()
                ==> (#[trigger] result@[a]@[b]) == endpoint_of(spec_groups[a][b]),
        decreases groups@.len() - k,
    {
        let g = &groups[k];
        let mut members: Vec<(usize, EndpointType)> = Vec::new();
        let mut b: usize = 0;
        while b < g.len()
            invariant
                b <= g@.len(),
                members@.len() == b,
                forall|c: int| 0 <= c < b ==> #[trigger] members@[c] == endpoint_of(g@[c]),
            decreases g@.len() - b,
        {
            let e = g[b];
            let t = if e % 2 == 0 {
                EndpointType::Start
            } else {
                EndpointType::End
            };
            members.push((e / 2, t));
            b = b + 1;
        }
        proof {
            assert(spec_groups[k as int] == g@);
        }
        result.push(members);
        k = k + 1;
    }
    result
}

proof fn lemma_count_unused_le(used: Seq<bool>)
    ensures
        count_unused(used) <= used.len(),
    decreases used.len(),
{
    if used.len() > 0 {
        lemma_count_unused_le(used.drop_last());
    }
}


/// The endpoints of `list` that a scan from marks `used` takes in, in order.
pub open spec fn scan_new(list: Seq<usize>, used: Seq<bool>) -> Seq<usize>
    decreases list.len(),
{
    if list.len() == 0 {
        Seq::empty()
    } else {
        let x = list[0];
        if used[x as int] {
            scan_new(list.drop_first(), used)
        } else {
            seq![x] + scan_new(list.drop_first(), used.update(x as int, true))
        }
    }
}

/// `used` with the endpoints of `s` marked.
pub open spec fn marked(used: Seq<bool>, s: Seq<usize>) -> Seq<bool> {
    Seq::new(used.len(), |k: int| used[k] || s.contains(k as usize))
}

proof fn lemma_scan_shape(list: Seq<usize>, used: Seq<bool>, group: Seq<usize>, queue: Seq<usize>)
    requires
        forall|j: int| 0 <= j < list.len() ==> #[trigger] list[j] < used.len(),
        used.len() <= usize::MAX,
    ensures
        ({
            let new = scan_new(list, used);
            &&& scan(list, used, group, queue) == (marked(used, new), group + new, queue + new)
            &&& new.no_duplicates()
            &&& forall|j: int| 0 <= j < new.len() ==> #[trigger] new[j] < used.len() && !used[new[j] as int]
            &&& forall|j: int| 0 <= j < list.len() ==> #[trigger] marked(used, new)[list[j] as int]
            &&& forall|j: int| 0 <= j < new.len() ==> list.contains(#[trigger] new[j])
        }),
    decreases list.len(),
{
    if list.len() == 0 {
        assert(marked(used, Seq::<usize>::empty()) =~= used);
        assert(group + Seq::<usize>::empty() =~= group);
        assert(queue + Seq::<usize>::empty() =~= queue);
    } else {
        let x = list[0];
        let rest = list.drop_first();
        assert forall|j: int| 0 <= j < rest.len() implies #[trigger] rest[j] < used.len() by {
            assert(rest[j] == list[j + 1]);
        }
        if used[x as int] {
            lemma_scan_shape(rest, used, group, queue);
            let new = scan_new(rest, used);
            assert forall|j: int| 0 <= j < list.len() implies #[trigger] marked(used, new)[list[j] as int] by {
                if j > 0 {
                    assert(list[j] == rest[j - 1]);
                }
            }
            assert forall|j: int| 0 <= j < new.len() implies list.contains(#[trigger] new[j]) by {
                let a = choose|a: int| 0 <= a < rest.len() && rest[a] == new[j];
                assert(list[a + 1] == new[j]);
            }
        } else {
            let u2 = used.update(x as int, true);
            lemma_scan_shape(rest, u2, group.push(x), queue.push(x));
            let n2 = scan_new(rest, u2);
            let new = seq![x] + n2;
            assert(scan_new(list, used) == new);
            assert(marked(u2, n2) =~= marked(used, new)) by {
                assert forall|k: int| 0 <= k < used.len() implies marked(u2, n2)[k] == marked(used, new)[k] by {
                    if n2.contains(k as usize) {
                        let a = choose|a: int| 0 <= a < n2.len() && n2[a] == k as usize;
                        assert(new[a + 1] == k as usize);
                    }
                    if new.contains(k as usize) {
                        let a = choose|a: int| 0 <= a < new.len() && new[a] == k as usize;
                        if a > 0 {
                            assert(n2[a - 1] == k as usize);
                        }
                    }
                    if k == x {
                        assert(new[0] == x);
                    }
                }
            }
            assert(group.push(x) + n2 =~= group + new);
            assert(queue.push(x) + n2 =~= queue + new);
            assert(new.no_duplicates()) by {
                assert forall|a: int, b: int| 0 <= a < new.len() && 0 <= b < new.len() && a != b implies new[a] != new[b] by {
                    if a > 0 && b > 0 {
                        assert(n2[a - 1] != n2[b - 1]);
                    } else if a == 0 {
                        assert(!u2[n2[b - 1] as int]);
                    } else {
                        assert(!u2[n2[a - 1] as int]);
                    }
                }
            }
            assert forall|j: int| 0 <= j < new.len() implies #[trigger] new[j] < used.len() && !used[new[j] as int] by {
                if j > 0 {
                    assert(new[j] == n2[j - 1]);
                    assert(!u2[n2[j - 1] as int]);
                }
            }
            assert forall|j: int| 0 <= j < list.len() implies #[trigger] marked(used, new)[list[j] as int] by {
                if j > 0 {
                    assert(list[j] == rest[j - 1]);
                    assert(marked(u2, n2)[rest[j - 1] as int]);
                } else {
                    assert(new[0] == x);
                }
            }
            assert forall|j: int| 0 <= j < new.len() implies list.contains(#[trigger] new[j]) by {
                if j > 0 {
                    assert(new[j] == n2[j - 1]);
                    let a = choose|a: int| 0 <= a < rest.len() && rest[a] == n2[j - 1];
                    assert(list[a + 1] == new[j]);
                } else {
                    assert(list[0] == new[0]);
                }
            }
        }
    }
}

/// The neighbour relation is symmetric.
pub open spec fn nearby_symmetric(nearby: Seq<Seq<usize>>) -> bool {
    forall|x: usize, y: usize|
        x < nearby.len() && y < nearby.len() ==> (#[trigger] nearby[x as int].contains(y)
            <==> #[trigger] nearby[y as int].contains(x))
}

/// Every member of `group` after the first is near an earlier member, so all
/// of them are reachable from the first one.
pub open spec fn linked(nearby: Seq<Seq<usize>>, group: Seq<usize>) -> bool {
    forall|a: int| 1 <= a < group.len() ==> #[trigger] near_earlier(nearby, group, a)
}

/// Member `a` of `group` is near some member before it.
pub open spec fn near_earlier(nearby: Seq<Seq<usize>>, group: Seq<usize>, a: int) -> bool {
    exists|c: int| 0 <= c < a && #[trigger] nearby[group[c] as int].contains(group[a])
}

/// Every neighbour of a marked endpoint is marked.
pub open spec fn closed(nearby: Seq<Seq<usize>>, used: Seq<bool>) -> bool {
    forall|x: int, j: int|
        0 <= x < nearby.len() && used[x] && 0 <= j < nearby[x].len() ==> used[#[trigger] nearby[x][j] as int]
}

/// Growing a group from a closed set of marks: the group holds distinct
/// endpoints that were not marked before, the marks afterwards are the old
/// ones and the group, and (for a symmetric relation) they are closed again,
/// every neighbour of a member being a member.
proof fn lemma_expand(
    nb: Seq<Seq<usize>>,
    u0: Seq<bool>,
    used: Seq<bool>,
    group: Seq<usize>,
    queue: Seq<usize>,
    fuel: nat,
)
    requires
        nearby_in_range(nb),
        nb.len() <= usize::MAX,
        u0.len() == nb.len(),
        used.len() == nb.len(),
        group.no_duplicates(),
        forall|a: int| 0 <= a < group.len() ==> #[trigger] group[a] < nb.len() && !u0[group[a] as int],
        used == marked(u0, group),
        forall|a: int| 0 <= a < queue.len() ==> group.contains(#[trigger] queue[a]),
        forall|a: int, j: int|
            0 <= a < group.len() && !queue.contains(group[a]) && 0 <= j < nb[group[a] as int].len()
                ==> used[#[trigger] nb[group[a] as int][j] as int],
        fuel >= 2 * count_unused(used) + queue.len(),
        linked(nb, group),
    ensures
        ({
            let (u2, g2) = expand(nb, used, group, queue, fuel);
            &&& linked(nb, g2)
            &&& g2.no_duplicates()
            &&& forall|a: int| 0 <= a < g2.len() ==> #[trigger] g2[a] < nb.len() && !u0[g2[a] as int]
            &&& u2 == marked(u0, g2)
            &&& g2.len() >= group.len()
            &&& forall|a: int| 0 <= a < group.len() ==> g2[a] == group[a]
            &&& nearby_symmetric(nb) && closed(nb, u0) ==> {
                &&& forall|a: int, j: int| 0 <= a < g2.len() && 0 <= j < nb[g2[a] as int].len()
                    ==> g2.contains(#[trigger] nb[g2[a] as int][j])
                &&& closed(nb, u2)
            }
        }),
    decreases fuel,
{
    if queue.len() == 0 || fuel == 0 {
        if queue.len() == 0 && nearby_symmetric(nb) && closed(nb, u0) {
            assert forall|a: int, j: int| 0 <= a < group.len() && 0 <= j < nb[group[a] as int].len()
                implies group.contains(#[trigger] nb[group[a] as int][j]) by {
                let y = nb[group[a] as int][j];
                assert(used[y as int]);
                if u0[y as int] {
                    let x = group[a];
                    assert(nb[x as int].contains(y));
                    assert(nb[y as int].contains(x));
                    let b = choose|b: int| 0 <= b < nb[y as int].len() && nb[y as int][b] == x;
                    assert(u0[nb[y as int][b] as int]);
                }
            }
            assert forall|x: int, j: int| 0 <= x < nb.len() && used[x] && 0 <= j < nb[x].len() implies used[
                #[trigger] nb[x][j] as int] by {
                if !u0[x] {
                    assert(group.contains(x as usize));
                    let a = choose|a: int| 0 <= a < group.len() && group[a] == x as usize;
                    assert(group.contains(nb[group[a] as int][j]));
                }
            }
        } else if queue.len() > 0 {
            assert(false) by {
                assert(fuel >= 1);
            }
        }
    } else {
        let cur = queue.last();
        let rest = queue.drop_last();
        let list = nb[cur as int];
        assert(group.contains(cur)) by {
            assert(group.contains(queue[queue.len() - 1]));
        }
        assert(cur < nb.len()) by {
            let a = choose|a: int| 0 <= a < group.len() && group[a] == cur;
        }
        assert forall|j: int| 0 <= j < list.len() implies #[trigger] list[j] < used.len() by {
            assert(nb[cur as int][j] < nb.len());
        }
        lemma_scan_shape(list, used, group, rest);
        lemma_scan_measure(list, used, group, rest);
        let new = scan_new(list, used);
        let g2 = group + new;
        let q2 = rest + new;
        let u2 = marked(used, new);
        assert(u2 == marked(u0, g2)) by {
            assert forall|k: int| 0 <= k < u0.len() implies u2[k] == marked(u0, g2)[k] by {
                if g2.contains(k as usize) {
                    let a = choose|a: int| 0 <= a < g2.len() && g2[a] == k as usize;
                    if a < group.len() {
                        assert(group[a] == k as usize);
                    } else {
                        assert(new[a - group.len()] == k as usize);
                    }
                }
                if group.contains(k as usize) {
                    let a = choose|a: int| 0 <= a < group.len() && group[a] == k as usize;
                    assert(g2[a] == k as usize);
                }
                if new.contains(k as usize) {
                    let a = choose|a: int| 0 <= a < new.len() && new[a] == k as usize;
                    assert(g2[group.len() + a] == k as usize);
                }
            }
            assert(u2 =~= marked(u0, g2));
        }
        assert(g2.no_duplicates()) by {
            assert forall|a: int, b: int| 0 <= a < g2.len() && 0 <= b < g2.len() && a != b implies g2[a] != g2[b] by {
                if a < group.len() && b < group.len() {
                    assert(group[a] != group[b]);
                } else if a >= group.len() && b >= group.len() {
                    assert(new[a - group.len()] != new[b - group.len()]);
                } else if a < group.len() {
                    assert(used[group[a] as int]);
                    assert(!used[new[b - group.len()] as int]);
                } else {
                    assert(used[group[b] as int]);
                    assert(!used[new[a - group.len()] as int]);
                }
            }
        }
        assert forall|a: int| 0 <= a < g2.len() implies #[trigger] g2[a] < nb.len() && !u0[g2[a] as int] by {
            if a >= group.len() {
                let x = new[a - group.len()];
                assert(!used[x as int]);
            }
        }
        assert forall|a: int| 0 <= a < q2.len() implies g2.contains(#[trigger] q2[a]) by {
            if a < rest.len() {
                assert(rest[a] == queue[a]);
                let b = choose|b: int| 0 <= b < group.len() && group[b] == queue[a];
                assert(g2[b] == q2[a]);
            } else {
                assert(g2[group.len() + a - rest.len()] == q2[a]);
            }
        }
        assert forall|a: int, j: int|
            0 <= a < g2.len() && !q2.contains(g2[a]) && 0 <= j < nb[g2[a] as int].len()
            implies u2[#[trigger] nb[g2[a] as int][j] as int] by {
            if a >= group.len() {
                assert(q2[rest.len() + a - group.len()] == g2[a]);
            } else {
                assert(g2[a] == group[a]);
                if group[a] == cur {
                    assert(list[j] == nb[g2[a] as int][j]);
                } else {
                    if queue.contains(group[a]) {
                        let b = choose|b: int| 0 <= b < queue.len() && queue[b] == group[a];
                        assert(b < rest.len());
                        assert(q2[b] == group[a]);
                    }
                    assert(used[nb[group[a] as int][j] as int]);
                }
            }
        }
        {
            let b = choose|b: int| 0 <= b < group.len() && group[b] == cur;
            assert forall|a: int| 1 <= a < g2.len() implies #[trigger] near_earlier(nb, g2, a) by {
                if a < group.len() {
                    assert(group[a] == group[a]);
                    assert(near_earlier(nb, group, a));
                    let c = choose|c: int| 0 <= c < a && #[trigger] nb[group[c] as int].contains(group[a]);
                    assert(g2[c] == group[c]);
                    assert(g2[a] == group[a]);
                    assert(nb[g2[c] as int].contains(g2[a]));
                } else {
                    assert(g2[a] == new[a - group.len()]);
                    assert(list.contains(new[a - group.len()]));
                    assert(g2[b] == cur);
                    assert(nb[g2[b] as int] == list);
                    assert(nb[g2[b] as int].contains(g2[a]));
                }
            }
            assert(linked(nb, g2));
        }
        lemma_expand(nb, u0, u2, g2, q2, (fuel - 1) as nat);
        let (u3, g3) = expand(nb, u2, g2, q2, (fuel - 1) as nat);
        assert forall|a: int| 0 <= a < group.len() implies g3[a] == group[a] by {
            assert(g2[a] == group[a]);
        }
    }
}

proof fn lemma_groups_from(nb: Seq<Seq<usize>>, used: Seq<bool>, i: nat)
    requires
        nearby_in_range(nb),
        nb.len() <= usize::MAX,
        used.len() == nb.len(),
    ensures
        ({
            let r = groups_from(nb, used, i);
            &&& forall|k: int| 0 <= k < r.len() ==> {
                &&& (#[trigger] r[k]).len() >= 2
                &&& r[k].no_duplicates()
                &&& forall|a: int| 0 <= a < r[k].len() ==> #[trigger] r[k][a] < nb.len() && !used[r[k][a] as int]
                &&& linked(nb, r[k])
            }
            &&& forall|k1: int, k2: int| 0 <= k1 < k2 < r.len() ==> (#[trigger] r[k1]).disjoint(#[trigger] r[k2])
            &&& nearby_symmetric(nb) && closed(nb, used) ==> forall|k: int, a: int, j: int|
                0 <= k < r.len() && 0 <= a < r[k].len() && 0 <= j < nb[r[k][a] as int].len()
                    ==> r[k].contains(#[trigger] nb[r[k][a] as int][j])
        }),
    decreases nb.len() - i,
{
    let m = nb.len();
    if i >= m {
        assert(groups_from(nb, used, i).len() == 0);
    } else if used[i as int] {
        lemma_groups_from(nb, used, i + 1);
        assert(groups_from(nb, used, i) == groups_from(nb, used, i + 1));
    } else {
        let u1 = used.update(i as int, true);
        let g1 = seq![i as usize];
        assert(u1 == marked(used, g1)) by {
            assert forall|k: int| 0 <= k < used.len() implies u1[k] == marked(used, g1)[k] by {
                if g1.contains(k as usize) {
                    assert(g1[0] == k as usize);
                }
                if k == i {
                    assert(g1[0] == i as usize);
                }
            }
            assert(u1 =~= marked(used, g1));
        }
        lemma_count_unused_mark(used, i as int);
        lemma_count_unused_le(used);
        assert(g1.no_duplicates());
        lemma_expand(nb, used, u1, g1, g1, 2 * m);
        let (u2, g) = group_from(nb, used, i as usize);
        lemma_groups_from(nb, u2, i + 1);
        let rest = groups_from(nb, u2, i + 1);
        let r = groups_from(nb, used, i);
        assert(g.len() >= 1);
        if g.len() > 1 {
            assert(r == seq![g] + rest);
            assert forall|k: int| 0 <= k < r.len() implies {
                &&& (#[trigger] r[k]).len() >= 2
                &&& r[k].no_duplicates()
                &&& forall|a: int| 0 <= a < r[k].len() ==> #[trigger] r[k][a] < nb.len() && !used[r[k][a] as int]
                &&& linked(nb, r[k])
            } by {
                if k > 0 {
                    assert(r[k] == rest[k - 1]);
                    assert forall|a: int| 0 <= a < r[k].len() implies #[trigger] r[k][a] < nb.len() && !used[r[k][a] as int] by {
                        assert(!u2[rest[k - 1][a] as int]);
                    }
                }
            }
            assert forall|k1: int, k2: int| 0 <= k1 < k2 < r.len() implies (#[trigger] r[k1]).disjoint(#[trigger] r[k2]) by {
                assert(r[k2] == rest[k2 - 1]);
                if k1 > 0 {
                    assert(r[k1] == rest[k1 - 1]);
                } else {
                    assert(r[k1] == g);
                    assert forall|a: int, b: int| 0 <= a < g.len() && 0 <= b < r[k2].len() implies g[a] != r[k2][b] by {
                        let y = rest[k2 - 1][b];
                        assert(!u2[y as int]);
                        if g[a] == y {
                            assert(g.contains(y));
                        }
                    }
                }
            }
            if nearby_symmetric(nb) && closed(nb, used) {
                assert forall|k: int, a: int, j: int|
                    0 <= k < r.len() && 0 <= a < r[k].len() && 0 <= j < nb[r[k][a] as int].len()
                    implies r[k].contains(#[trigger] nb[r[k][a] as int][j]) by {
                    if k > 0 {
                        assert(r[k] == rest[k - 1]);
                    }
                }
            }
        } else {
            assert(r == rest);
        }
    }
}

/// Each group holds distinct endpoints, at least two of them, and no endpoint
/// is in two groups.
pub proof fn lemma_endpoint_groups_disjoint(nearby: Seq<Seq<usize>>)
    requires
        nearby_in_range(nearby),
        nearby.len() <= usize::MAX,
    ensures
        forall|k: int| 0 <= k < endpoint_groups(nearby).len() ==> {
            &&& (#[trigger] endpoint_groups(nearby)[k]).len() >= 2
            &&& endpoint_groups(nearby)[k].no_duplicates()
        },
        forall|k1: int, k2: int| 0 <= k1 < k2 < endpoint_groups(nearby).len()
            ==> (#[trigger] endpoint_groups(nearby)[k1]).disjoint(#[trigger] endpoint_groups(nearby)[k2]),
{
    lemma_groups_from(nearby, Seq::new(nearby.len(), |k: int| false), 0);
}

/// When nearness is symmetric, every endpoint near a member of a group is in
/// that group: the groups are closed under nearness.
pub proof fn lemma_endpoint_groups_closed(nearby: Seq<Seq<usize>>)
    requires
        nearby_in_range(nearby),
        nearby_symmetric(nearby),
        nearby.len() <= usize::MAX,
    ensures
        forall|k: int, a: int, j: int|
            0 <= k < endpoint_groups(nearby).len() && 0 <= a < endpoint_groups(nearby)[k].len()
                && 0 <= j < nearby[endpoint_groups(nearby)[k][a] as int].len()
            ==> endpoint_groups(nearby)[k].contains(
                #[trigger] nearby[endpoint_groups(nearby)[k][a] as int][j],
            ),
{
    let u = Seq::new(nearby.len(), |k: int| false);
    assert(closed(nearby, u));
    lemma_groups_from(nearby, u, 0);
}


/// Every member of a group after the first is near an earlier member: each
/// group is connected through nearness (with the closure law, for a symmetric
/// relation a group is a whole connected component).
pub proof fn lemma_endpoint_groups_connected(nearby: Seq<Seq<usize>>)
    requires
        nearby_in_range(nearby),
        nearby.len() <= usize::MAX,
    ensures
        forall|k: int| 0 <= k < endpoint_groups(nearby).len() ==> linked(nearby, #[trigger] endpoint_groups(nearby)[k]),
{
    lemma_groups_from(nearby, Seq::new(nearby.len(), |k: int| false), 0);
}

} // verus!
