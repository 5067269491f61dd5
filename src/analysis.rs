use vstd::prelude::*;
use crate::keyed::{add_name, find_entry, has_key, lookup, lemma_lookup_first, lemma_lookup_none};
use crate::errors::GameError;
use crate::world::{Action, ActionModel, CondModel, Condition, ChoiceModel, DescModel, RoomModel, World, WorldModel, goto_target, string_seqs};

verus! {

// ---------------------------------------------------------------------------
// The room graph: an edge runs from a room to every `GoTo` target of the
// choices that the room lists. Choice gates are ignored.
// ---------------------------------------------------------------------------

/// Action `k` of the choice listed `j`-th by room `r` is `GoTo(b)`.
pub open spec fn goto_in(w: WorldModel, r: RoomModel, j: int, k: int, b: Seq<char>) -> bool {
    &&& 0 <= j < r.choices.len()
    &&& lookup(w.choices, r.choices[j]) matches Some(c)
    &&& 0 <= k < c.actions.len()
    &&& c.actions[k] == ActionModel::GoTo(b)
}

pub open spec fn edge(w: WorldModel, a: Seq<char>, b: Seq<char>) -> bool {
    match lookup(w.rooms, a) {
        None => false,
        Some(r) => exists|j: int, k: int| #[trigger] goto_in(w, r, j, k, b),
    }
}

/// `p` is a walk along edges starting at the starting room.
pub open spec fn is_path(w: WorldModel, p: Seq<Seq<char>>) -> bool {
    &&& p.len() >= 1
    &&& p[0] == w.starting_room_id
    &&& forall|i: int| 0 <= i < p.len() - 1 ==> #[trigger] edge(w, p[i], p[i + 1])
}

/// Room id `x` can be reached from the starting room.
pub open spec fn reachable(w: WorldModel, x: Seq<char>) -> bool {
    exists|p: Seq<Seq<char>>| #[trigger] is_path(w, p) && p.last() == x
}

/// The strings marked in `marked`.
pub open spec fn marked_set(cands: Seq<String>, marked: Seq<bool>) -> Set<Seq<char>> {
    Set::new(|s: Seq<char>| exists|y: int| 0 <= y < cands.len() && y < marked.len() && marked[y] && #[trigger] cands[y]@ == s)
}

pub open spec fn count_false(m: Seq<bool>) -> nat
    decreases m.len(),
{
    if m.len() == 0 {
        0
    } else {
        count_false(m.drop_last()) + if m.last() { 0nat } else { 1nat }
    }
}

proof fn lemma_count_false_mark(m: Seq<bool>, y: int)
    requires
        0 <= y < m.len(),
        !m[y],
    ensures
        count_false(m.update(y, true)) + 1 == count_false(m),
    decreases m.len(),
{
    let u = m.update(y, true);
    if y == m.len() - 1 {
        assert(u.drop_last() =~= m.drop_last());
    } else {
        assert(u.drop_last() =~= m.drop_last().update(y, true));
        lemma_count_false_mark(m.drop_last(), y);
    }
}

/// Every `GoTo` target of every choice occurs among `cands`.
pub open spec fn covers_targets(w: WorldModel, cands: Seq<String>) -> bool {
    forall|i: int, k: int|
        0 <= i < w.choices.len() && 0 <= k < w.choices[i].1.actions.len()
            && (#[trigger] w.choices[i].1.actions[k]) is GoTo
            ==> exists|y: int| 0 <= y < cands.len() && #[trigger] cands[y]@ == goto_target(w.choices[i].1.actions[k])
}

proof fn lemma_lookup_in<V>(s: Seq<(Seq<char>, V)>, k: Seq<char>)
    requires
        lookup(s, k) is Some,
    ensures
        exists|i: int| 0 <= i < s.len() && s[i].0 == k && #[trigger] s[i].1 == lookup(s, k).unwrap(),
    decreases s.len(),
{
    if s[0].0 != k {
        lemma_lookup_in(s.drop_first(), k);
        let i = choose|i: int| 0 <= i < s.drop_first().len() && s.drop_first()[i].0 == k
            && #[trigger] s.drop_first()[i].1 == lookup(s.drop_first(), k).unwrap();
        assert(s[i + 1] == s.drop_first()[i]);
    } else {
        assert(s[0].1 == lookup(s, k).unwrap());
    }
}

/// Every edge ends at one of `cands`.
proof fn lemma_edge_target_in(w: WorldModel, cands: Seq<String>, a: Seq<char>, b: Seq<char>)
    requires
        covers_targets(w, cands),
        edge(w, a, b),
    ensures
        exists|y: int| 0 <= y < cands.len() && #[trigger] cands[y]@ == b,
{
    let r = lookup(w.rooms, a).unwrap();
    let (j, k) = choose|j: int, k: int| #[trigger] goto_in(w, r, j, k, b);
    let c = lookup(w.choices, r.choices[j]).unwrap();
    lemma_lookup_in(w.choices, r.choices[j]);
    let i = choose|i: int| 0 <= i < w.choices.len() && w.choices[i].0 == r.choices[j]
        && #[trigger] w.choices[i].1 == c;
    assert(w.choices[i].1.actions[k] == ActionModel::GoTo(b));
    assert(goto_target(w.choices[i].1.actions[k]) == b);
}

/// The starting room followed by every `GoTo` target, in choice order.
fn candidates(world: &World) -> (r: Vec<String>)
    ensures
        r.len() >= 1,
        r@[0]@ == world@.starting_room_id,
        covers_targets(world@, r@),
{
    let ghost w = world@;
    let mut r: Vec<String> = Vec::new();
    r.push(world.starting_room_id.clone());
    let mut i: usize = 0;
    while i < world.choices.len()
        invariant
            i <= world.choices.len(),
            w == world@,
            r.len() >= 1,
            r@[0]@ == w.starting_room_id,
            forall|i2: int, k: int|
                0 <= i2 < i && 0 <= k < w.choices[i2].1.actions.len()
                    && (#[trigger] w.choices[i2].1.actions[k]) is GoTo
                    ==> exists|y: int| 0 <= y < r.len() && #[trigger] r@[y]@ == goto_target(w.choices[i2].1.actions[k]),
        decreases world.choices.len() - i,
    {
        let c = &world.choices[i].1;
        assert(w.choices[i as int].1 == c@);
        let mut k: usize = 0;
        while k < c.actions.len()
            invariant
                i < world.choices.len(),
                k <= c.actions.len(),
                w == world@,
                c == &world.choices[i as int].1,
                w.choices[i as int].1 == c@,
                r.len() >= 1,
                r@[0]@ == w.starting_room_id,
                forall|i2: int, k2: int|
                    0 <= i2 < i && 0 <= k2 < w.choices[i2].1.actions.len()
                        && (#[trigger] w.choices[i2].1.actions[k2]) is GoTo
                        ==> exists|y: int| 0 <= y < r.len() && #[trigger] r@[y]@ == goto_target(w.choices[i2].1.actions[k2]),
                forall|k2: int|
                    0 <= k2 < k && (#[trigger] w.choices[i as int].1.actions[k2]) is GoTo
                        ==> exists|y: int| 0 <= y < r.len() && #[trigger] r@[y]@ == goto_target(w.choices[i as int].1.actions[k2]),
            decreases c.actions.len() - k,
        {
            let ghost before = r@;
            if let Action::GoTo(b) = &c.actions[k] {
                r.push(b.clone());
                assert(r@[r.len() - 1]@ == b@);
            }
            assert forall|i2: int, k2: int|
                0 <= i2 < i && 0 <= k2 < w.choices[i2].1.actions.len()
                    && (#[trigger] w.choices[i2].1.actions[k2]) is GoTo
                    implies exists|y: int| 0 <= y < r.len() && #[trigger] r@[y]@ == goto_target(w.choices[i2].1.actions[k2]) by {
                let b = goto_target(w.choices[i2].1.actions[k2]);
                let y = choose|y: int| 0 <= y < before.len() && #[trigger] before[y]@ == b;
                assert(r@[y] == before[y]);
            }
            assert forall|k2: int|
                0 <= k2 < k + 1 && (#[trigger] w.choices[i as int].1.actions[k2]) is GoTo
                    implies exists|y: int| 0 <= y < r.len() && #[trigger] r@[y]@ == goto_target(w.choices[i as int].1.actions[k2]) by {
                let b = goto_target(w.choices[i as int].1.actions[k2]);
                if k2 < k {
                    let y = choose|y: int| 0 <= y < before.len() && #[trigger] before[y]@ == b;
                    assert(r@[y] == before[y]);
                } else {
                    assert(c.actions@[k2]@ == w.choices[i as int].1.actions[k2]);
                    assert(r@[r.len() - 1]@ == b);
                }
            }
            k = k + 1;
        }
        i = i + 1;
    }
    r
}

/// Marks every candidate equal to `b`; says whether any mark was new.
fn mark_all(cands: &Vec<String>, marked: &mut Vec<bool>, b: &String) -> (changed: bool)
    requires
        old(marked).len() == cands.len(),
    ensures
        final(marked).len() == cands.len(),
        marked_set(cands@, final(marked)@) == marked_set(cands@, old(marked)@).union(
            Set::new(|s: Seq<char>| s == b@ && exists|y: int| 0 <= y < cands.len() && #[trigger] cands@[y]@ == s),
        ),
        forall|z: int| 0 <= z < cands.len() && old(marked)@[z] ==> #[trigger] final(marked)@[z],
        changed ==> count_false(final(marked)@) < count_false(old(marked)@),
        !changed ==> final(marked)@ == old(marked)@,
{
    let ghost m0 = marked@;
    let mut changed = false;
    let mut y: usize = 0;
    while y < cands.len()
        invariant
            y <= cands.len(),
            marked.len() == cands.len(),
            m0.len() == cands.len(),
            forall|z: int| 0 <= z < cands.len() ==> (#[trigger] marked@[z] == (m0[z] || (z < y && cands@[z]@ == b@))),
            changed ==> count_false(marked@) < count_false(m0),
            !changed ==> marked@ == m0,
        decreases cands.len() - y,
    {
        if cands[y] == *b && !marked[y] {
            proof {
                lemma_count_false_mark(marked@, y as int);
            }
            marked.set(y, true);
            changed = true;
        }
        y = y + 1;
    }
    assert(marked_set(cands@, marked@) =~= marked_set(cands@, m0).union(
        Set::new(|s: Seq<char>| s == b@ && exists|y: int| 0 <= y < cands.len() && #[trigger] cands@[y]@ == s),
    )) by {
        assert forall|s: Seq<char>| marked_set(cands@, marked@).contains(s) implies
            marked_set(cands@, m0).contains(s) || (s == b@ && exists|y: int| 0 <= y < cands.len() && #[trigger] cands@[y]@ == s) by {
            let z = choose|z: int| 0 <= z < cands@.len() && z < marked@.len() && marked@[z] && #[trigger] cands@[z]@ == s;
            assert(marked@[z] == (m0[z] || (z < y && cands@[z]@ == b@)));
        }
        assert forall|s: Seq<char>| marked_set(cands@, m0).contains(s) implies marked_set(cands@, marked@).contains(s) by {
            let z = choose|z: int| 0 <= z < cands@.len() && z < m0.len() && m0[z] && #[trigger] cands@[z]@ == s;
            assert(marked@[z] == (m0[z] || (z < y && cands@[z]@ == b@)));
        }
        assert forall|s: Seq<char>| (s == b@ && exists|y: int| 0 <= y < cands.len() && #[trigger] cands@[y]@ == s) implies
            marked_set(cands@, marked@).contains(s) by {
            let z = choose|z: int| 0 <= z < cands.len() && #[trigger] cands@[z]@ == s;
            assert(marked@[z] == (m0[z] || (z < y && cands@[z]@ == b@)));
        }
    }
    changed
}

/// Every edge out of `a` ends in `s`.
pub open spec fn closed_at(w: WorldModel, a: Seq<char>, s: Set<Seq<char>>) -> bool {
    forall|b: Seq<char>| #[trigger] edge(w, a, b) ==> s.contains(b)
}

/// Everything in `s` is reachable.
pub open spec fn sound(w: WorldModel, s: Set<Seq<char>>) -> bool {
    forall|x: Seq<char>| #[trigger] s.contains(x) ==> reachable(w, x)
}

proof fn lemma_path_extend(w: WorldModel, p: Seq<Seq<char>>, b: Seq<char>)
    requires
        is_path(w, p),
        edge(w, p.last(), b),
    ensures
        is_path(w, p.push(b)),
        reachable(w, b),
{
    let q = p.push(b);
    assert forall|i: int| 0 <= i < q.len() - 1 implies #[trigger] edge(w, q[i], q[i + 1]) by {
        if i < p.len() - 1 {
            assert(q[i] == p[i] && q[i + 1] == p[i + 1]);
        } else {
            assert(q[i] == p.last() && q[i + 1] == b);
        }
    }
    assert(q.last() == b);
    assert(is_path(w, q));
}

proof fn lemma_start_reachable(w: WorldModel)
    ensures
        reachable(w, w.starting_room_id),
{
    let p = seq![w.starting_room_id];
    assert(is_path(w, p));
    assert(p.last() == w.starting_room_id);
}

/// Marks the targets of every edge out of `cands[x]`.
fn expand(world: &World, cands: &Vec<String>, marked: &mut Vec<bool>, x: usize) -> (changed: bool)
    requires
        x < cands.len(),
        old(marked).len() == cands.len(),
        reachable(world@, cands@[x as int]@),
        sound(world@, marked_set(cands@, old(marked)@)),
        covers_targets(world@, cands@),
    ensures
        final(marked).len() == cands.len(),
        sound(world@, marked_set(cands@, final(marked)@)),
        marked_set(cands@, old(marked)@).subset_of(marked_set(cands@, final(marked)@)),
        forall|z: int| 0 <= z < cands.len() && old(marked)@[z] ==> #[trigger] final(marked)@[z],
        closed_at(world@, cands@[x as int]@, marked_set(cands@, final(marked)@)),
        changed ==> count_false(final(marked)@) < count_false(old(marked)@),
        !changed ==> final(marked)@ == old(marked)@,
{
    let ghost w = world@;
    let ghost a = cands@[x as int]@;
    let ghost m0 = marked@;
    let ri = match find_entry(&world.rooms, &cands[x]) {
        None => {
            proof {
                lemma_lookup_none(w.rooms, a);
            }
            return false;
        },
        Some(ri) => ri,
    };
    proof {
        lemma_lookup_first(w.rooms, a, ri as int);
    }
    let room = &world.rooms[ri].1;
    let ghost rm = room@;
    assert(lookup(w.rooms, a) == Some(rm));
    let mut changed = false;
    let mut j: usize = 0;
    while j < room.choices.len()
        invariant
            j <= room.choices.len(),
            w == world@,
            rm == room@,
            lookup(w.rooms, a) == Some(rm),
            reachable(w, a),
            covers_targets(w, cands@),
            marked.len() == cands.len(),
            sound(w, marked_set(cands@, marked@)),
            marked_set(cands@, m0).subset_of(marked_set(cands@, marked@)),
            forall|z: int| 0 <= z < cands.len() && m0[z] ==> #[trigger] marked@[z],
            forall|j2: int, k: int, b: Seq<char>| 0 <= j2 < j && #[trigger] goto_in(w, rm, j2, k, b)
                ==> marked_set(cands@, marked@).contains(b),
            changed ==> count_false(marked@) < count_false(m0),
            !changed ==> marked@ == m0,
        decreases room.choices.len() - j,
    {
        let id = &room.choices[j];
        assert(rm.choices[j as int] == id@);
        match find_entry(&world.choices, id) {
            None => {
                proof {
                    lemma_lookup_none(w.choices, id@);
                }
            },
            Some(ci) => {
                proof {
                    lemma_lookup_first(w.choices, id@, ci as int);
                }
                let c = &world.choices[ci].1;
                let ghost cm = c@;
                assert(lookup(w.choices, rm.choices[j as int]) == Some(cm));
                let mut k: usize = 0;
                while k < c.actions.len()
                    invariant
                        j < room.choices.len(),
                        k <= c.actions.len(),
                        w == world@,
                        rm == room@,
                        cm == c@,
                        lookup(w.rooms, a) == Some(rm),
                        lookup(w.choices, rm.choices[j as int]) == Some(cm),
                        reachable(w, a),
                        covers_targets(w, cands@),
                        marked.len() == cands.len(),
                        sound(w, marked_set(cands@, marked@)),
                        marked_set(cands@, m0).subset_of(marked_set(cands@, marked@)),
                        forall|z: int| 0 <= z < cands.len() && m0[z] ==> #[trigger] marked@[z],
                        forall|j2: int, k2: int, b: Seq<char>| 0 <= j2 < j && #[trigger] goto_in(w, rm, j2, k2, b)
                            ==> marked_set(cands@, marked@).contains(b),
                        forall|k2: int, b: Seq<char>| 0 <= k2 < k && #[trigger] goto_in(w, rm, j as int, k2, b)
                            ==> marked_set(cands@, marked@).contains(b),
                        changed ==> count_false(marked@) < count_false(m0),
                        !changed ==> marked@ == m0,
                    decreases c.actions.len() - k,
                {
                    if let Action::GoTo(b) = &c.actions[k] {
                        let ghost before = marked@;
                        assert(goto_in(w, rm, j as int, k as int, b@));
                        assert(edge(w, a, b@)) by {
                            assert(lookup(w.rooms, a).unwrap() == rm);
                            assert(goto_in(w, lookup(w.rooms, a).unwrap(), j as int, k as int, b@));
                        }
                        proof {
                            let p = choose|p: Seq<Seq<char>>| #[trigger] is_path(w, p) && p.last() == a;
                            lemma_path_extend(w, p, b@);
                            lemma_lookup_in(w.choices, rm.choices[j as int]);
                            let i = choose|i: int| 0 <= i < w.choices.len() && w.choices[i].0 == rm.choices[j as int]
                                && #[trigger] w.choices[i].1 == cm;
                            assert(w.choices[i].1.actions[k as int] is GoTo);
                            assert(goto_target(w.choices[i].1.actions[k as int]) == b@);
                        }
                        let ch = mark_all(cands, marked, b);
                        assert(marked_set(cands@, marked@).contains(b@));
                        changed = changed || ch;
                    }
                    k = k + 1;
                }
            },
        }
        j = j + 1;
    }
    changed
}

proof fn lemma_closed_complete(w: WorldModel, cands: Seq<String>, marked: Seq<bool>, p: Seq<Seq<char>>)
    requires
        marked_set(cands, marked).contains(w.starting_room_id),
        forall|y: int| 0 <= y < cands.len() && y < marked.len() && marked[y]
            ==> closed_at(w, #[trigger] cands[y]@, marked_set(cands, marked)),
        is_path(w, p),
    ensures
        marked_set(cands, marked).contains(p.last()),
    decreases p.len(),
{
    if p.len() > 1 {
        let q = p.drop_last();
        assert forall|i: int| 0 <= i < q.len() - 1 implies #[trigger] edge(w, q[i], q[i + 1]) by {
            assert(edge(w, p[i], p[i + 1]));
        }
        assert(is_path(w, q));
        lemma_closed_complete(w, cands, marked, q);
        let s = marked_set(cands, marked);
        let y = choose|y: int| 0 <= y < cands.len() && y < marked.len() && marked[y] && #[trigger] cands[y]@ == q.last();
        assert(closed_at(w, cands[y]@, s));
        let i = p.len() - 2;
        assert(edge(w, p[i], p[i + 1]));
        assert(q.last() == p[i] && p.last() == p[i + 1]);
    }
}

/// The room ids reachable from the starting room along `GoTo` edges,
/// given as the marked entries of a candidate list. The marking is a
/// fixpoint: each pass marks the targets of marked ids until nothing changes.
fn find_reachable_rooms(world: &World) -> (r: (Vec<String>, Vec<bool>))
    ensures
        r.1.len() == r.0.len(),
        forall|x: Seq<char>| #[trigger] marked_set(r.0@, r.1@).contains(x) <==> reachable(world@, x),
{
    let ghost w = world@;
    let cands = candidates(world);
    let m = cands.len();
    let mut marked: Vec<bool> = Vec::new();
    while marked.len() < m
        invariant
            marked.len() <= m,
            forall|z: int| 0 <= z < marked.len() ==> !#[trigger] marked@[z],
        decreases m - marked.len(),
    {
        marked.push(false);
    }
    marked.set(0, true);
    proof {
        lemma_start_reachable(w);
        assert forall|x: Seq<char>| #[trigger] marked_set(cands@, marked@).contains(x) implies reachable(w, x) by {
            let y = choose|y: int| 0 <= y < cands@.len() && y < marked@.len() && marked@[y] && #[trigger] cands@[y]@ == x;
            assert(y == 0);
        }
        assert(marked_set(cands@, marked@).contains(cands@[0]@));
    }
    let mut changed = true;
    while changed
        invariant
            marked.len() == m,
            m == cands.len(),
            w == world@,
            covers_targets(w, cands@),
            marked_set(cands@, marked@).contains(w.starting_room_id),
            sound(w, marked_set(cands@, marked@)),
            !changed ==> forall|y: int| 0 <= y < m && marked@[y]
                ==> closed_at(w, #[trigger] cands@[y]@, marked_set(cands@, marked@)),
        decreases count_false(marked@) + if changed { 1nat } else { 0nat },
    {
        changed = false;
        let ghost c0 = count_false(marked@);
        let ghost m0 = marked@;
        let mut x: usize = 0;
        while x < m
            invariant
                x <= m,
                marked.len() == m,
                m == cands.len(),
                w == world@,
                covers_targets(w, cands@),
                marked_set(cands@, marked@).contains(w.starting_room_id),
                sound(w, marked_set(cands@, marked@)),
                c0 == count_false(m0),
                changed ==> count_false(marked@) < c0,
                !changed ==> marked@ == m0,
                !changed ==> forall|y: int| 0 <= y < x && marked@[y]
                    ==> closed_at(w, #[trigger] cands@[y]@, marked_set(cands@, marked@)),
            decreases m - x,
        {
            if marked[x] {
                assert(marked_set(cands@, marked@).contains(cands@[x as int]@));
                let ch = expand(world, &cands, &mut marked, x);
                changed = changed || ch;
            }
            x = x + 1;
        }
    }
    proof {
        assert forall|x: Seq<char>| reachable(w, x) implies #[trigger] marked_set(cands@, marked@).contains(x) by {
            let p = choose|p: Seq<Seq<char>>| #[trigger] is_path(w, p) && p.last() == x;
            lemma_closed_complete(w, cands@, marked@, p);
        }
    }
    (cands, marked)
}

/// `p` is a walk from the starting room that repeats no room before its
/// last step (the last room may be one visited before).
pub open spec fn depth_walk(w: WorldModel, p: Seq<Seq<char>>) -> bool {
    is_path(w, p) && p.drop_last().no_duplicates()
}

/// `q` begins with `p`.
pub open spec fn extends(q: Seq<Seq<char>>, p: Seq<Seq<char>>) -> bool {
    p.len() <= q.len() && q.subrange(0, p.len() as int) == p
}

/// `d` is the number of steps of the longest such walk from the start.
pub open spec fn is_max_depth(w: WorldModel, d: int) -> bool {
    &&& exists|q: Seq<Seq<char>>| #[trigger] depth_walk(w, q) && d == q.len() - 1
    &&& forall|q: Seq<Seq<char>>| #[trigger] depth_walk(w, q) ==> q.len() - 1 <= d
}

/// `d` is the number of steps of the longest such walk that begins with `p`.
pub open spec fn is_max_from(w: WorldModel, p: Seq<Seq<char>>, d: int) -> bool {
    &&& exists|q: Seq<Seq<char>>| #[trigger] depth_walk(w, q) && extends(q, p) && d == q.len() - 1
    &&& forall|q: Seq<Seq<char>>| #[trigger] depth_walk(w, q) && extends(q, p) ==> q.len() - 1 <= d
}

pub open spec fn in_cands(cands: Seq<String>, s: Seq<char>) -> bool {
    exists|y: int| 0 <= y < cands.len() && #[trigger] cands[y]@ == s
}

proof fn lemma_distinct_bound(pm: Seq<Seq<char>>, cs: Seq<Seq<char>>)
    requires
        pm.no_duplicates(),
        forall|i: int| 0 <= i < pm.len() ==> cs.contains(#[trigger] pm[i]),
    ensures
        pm.len() <= cs.len(),
{
    pm.unique_seq_to_set();
    cs.lemma_cardinality_of_set();
    assert(pm.to_set().subset_of(cs.to_set())) by {
        assert forall|s: Seq<char>| pm.to_set().contains(s) implies cs.to_set().contains(s) by {
            let i = choose|i: int| 0 <= i < pm.len() && pm[i] == s;
            assert(cs.contains(pm[i]));
        }
    }
    vstd::set_lib::lemma_len_subset(pm.to_set(), cs.to_set());
}

proof fn lemma_prefix_of_extension(q: Seq<Seq<char>>, p: Seq<Seq<char>>, y: Seq<char>)
    requires
        extends(q, p.push(y)),
    ensures
        extends(q, p),
{
    assert(q.subrange(0, p.len() as int) =~= p.push(y).subrange(0, p.len() as int));
    assert(p.push(y).subrange(0, p.len() as int) =~= p);
}

/// Longest walk depth over the walks that begin with `path` followed by `x`.
fn dfs(world: &World, cands: &Vec<String>, path: &mut Vec<String>, x: &String) -> (d: usize)
    requires
        covers_targets(world@, cands@),
        is_path(world@, string_seqs(old(path)@).push(x@)),
        string_seqs(old(path)@).no_duplicates(),
        forall|i: int| 0 <= i < old(path)@.len() ==> in_cands(cands@, #[trigger] old(path)@[i]@),
        in_cands(cands@, x@),
    ensures
        final(path)@ == old(path)@,
        is_max_from(world@, string_seqs(old(path)@).push(x@), d as int),
    decreases cands@.len() - old(path)@.len(),
{
    let ghost w = world@;
    let ghost pm = string_seqs(path@);
    let ghost px = pm.push(x@);
    let ghost cs = string_seqs(cands@);
    proof {
        assert forall|i: int| 0 <= i < pm.len() implies cs.contains(#[trigger] pm[i]) by {
            let y = choose|y: int| 0 <= y < cands@.len() && #[trigger] cands@[y]@ == path@[i]@;
            assert(cs[y] == pm[i]);
        }
        lemma_distinct_bound(pm, cs);
    }
    let mut on_path = false;
    let mut i: usize = 0;
    while i < path.len()
        invariant
            i <= path.len(),
            pm == string_seqs(path@),
            on_path == exists|k: int| 0 <= k < i && pm[k] == x@,
        decreases path.len() - i,
    {
        assert(pm[i as int] == path@[i as int]@);
        if path[i] == *x {
            on_path = true;
        }
        i = i + 1;
    }
    assert(px.drop_last() =~= pm);
    assert(depth_walk(w, px));
    assert(extends(px, px)) by {
        assert(px.subrange(0, px.len() as int) =~= px);
    }
    if on_path {
        proof {
            assert forall|q: Seq<Seq<char>>| #[trigger] depth_walk(w, q) && extends(q, px) implies q.len() - 1 <= pm.len() by {
                if q.len() > px.len() {
                    let k = choose|k: int| 0 <= k < pm.len() && pm[k] == x@;
                    let dl = q.drop_last();
                    assert(dl[k] == q.subrange(0, px.len() as int)[k]);
                    assert(dl[pm.len() as int] == q.subrange(0, px.len() as int)[pm.len() as int]);
                    assert(dl[k] == dl[pm.len() as int]);
                }
            }
        }
        return path.len();
    }
    assert(px.no_duplicates());
    let mut best: usize = path.len();
    path.push(x.clone());
    assert(string_seqs(path@) =~= px);
    proof {
        assert forall|i: int| 0 <= i < path@.len() implies in_cands(cands@, #[trigger] path@[i]@) by {
            if i < pm.len() {
                assert(path@[i] == old(path)@[i]);
            }
        }
        assert forall|i: int| 0 <= i < px.len() implies cs.contains(#[trigger] px[i]) by {
            let y = choose|y: int| 0 <= y < cands@.len() && #[trigger] cands@[y]@ == path@[i]@;
            assert(cs[y] == px[i]);
        }
        lemma_distinct_bound(px, cs);
    }
    match find_entry(&world.rooms, x) {
        None => {
            proof {
                lemma_lookup_none(w.rooms, x@);
                assert forall|q: Seq<Seq<char>>| #[trigger] depth_walk(w, q) && extends(q, px) implies q.len() - 1 <= best by {
                    if q.len() > px.len() {
                        let i = pm.len() as int;
                        assert(q[i] == px[i]);
                        assert(edge(w, q[i], q[i + 1]));
                    }
                }
            }
        },
        Some(ri) => {
            proof {
                lemma_lookup_first(w.rooms, x@, ri as int);
            }
            let room = &world.rooms[ri].1;
            let ghost rm = room@;
            let mut j: usize = 0;
            while j < room.choices.len()
                invariant
                    j <= room.choices.len(),
                    w == world@,
                    rm == room@,
                    lookup(w.rooms, x@) == Some(rm),
                    covers_targets(w, cands@),
                    string_seqs(path@) == px,
                    px == pm.push(x@),
                    px.no_duplicates(),
                    is_path(w, px),
                    px.len() <= cs.len(),
                    cs == string_seqs(cands@),
                    forall|i: int| 0 <= i < path@.len() ==> in_cands(cands@, #[trigger] path@[i]@),
                    path@.len() == pm.len() + 1,
                    path@.subrange(0, pm.len() as int) == old(path)@,
                    exists|q: Seq<Seq<char>>| #[trigger] depth_walk(w, q) && extends(q, px) && best == q.len() - 1,
                    forall|q: Seq<Seq<char>>, j2: int, k2: int| #[trigger] depth_walk(w, q) && extends(q, px) && q.len() > px.len()
                        && 0 <= j2 < j && #[trigger] goto_in(w, rm, j2, k2, q[px.len() as int]) ==> q.len() - 1 <= best,
                decreases room.choices.len() - j,
            {
                let id = &room.choices[j];
                assert(rm.choices[j as int] == id@);
                match find_entry(&world.choices, id) {
                    None => {
                        proof {
                            lemma_lookup_none(w.choices, id@);
                        }
                    },
                    Some(ci) => {
                        proof {
                            lemma_lookup_first(w.choices, id@, ci as int);
                        }
                        let c = &world.choices[ci].1;
                        let ghost cm = c@;
                        let mut k: usize = 0;
                        while k < c.actions.len()
                            invariant
                                j < room.choices.len(),
                                k <= c.actions.len(),
                                w == world@,
                                rm == room@,
                                cm == c@,
                                lookup(w.rooms, x@) == Some(rm),
                                lookup(w.choices, rm.choices[j as int]) == Some(cm),
                                covers_targets(w, cands@),
                                string_seqs(path@) == px,
                                px == pm.push(x@),
                                px.no_duplicates(),
                                is_path(w, px),
                                px.len() <= cs.len(),
                                cs == string_seqs(cands@),
                                forall|i: int| 0 <= i < path@.len() ==> in_cands(cands@, #[trigger] path@[i]@),
                                path@.len() == pm.len() + 1,
                                path@.subrange(0, pm.len() as int) == old(path)@,
                                exists|q: Seq<Seq<char>>| #[trigger] depth_walk(w, q) && extends(q, px) && best == q.len() - 1,
                                forall|q: Seq<Seq<char>>, j2: int, k2: int| #[trigger] depth_walk(w, q) && extends(q, px) && q.len() > px.len()
                                    && 0 <= j2 < j && #[trigger] goto_in(w, rm, j2, k2, q[px.len() as int]) ==> q.len() - 1 <= best,
                                forall|q: Seq<Seq<char>>, k2: int| #[trigger] depth_walk(w, q) && extends(q, px) && q.len() > px.len()
                                    && 0 <= k2 < k && #[trigger] goto_in(w, rm, j as int, k2, q[px.len() as int]) ==> q.len() - 1 <= best,
                            decreases c.actions.len() - k,
                        {
                            if let Action::GoTo(y) = &c.actions[k] {
                                assert(goto_in(w, rm, j as int, k as int, y@));
                                assert(edge(w, x@, y@)) by {
                                    assert(lookup(w.rooms, x@).unwrap() == rm);
                                    assert(goto_in(w, lookup(w.rooms, x@).unwrap(), j as int, k as int, y@));
                                }
                                proof {
                                    assert(px.last() == x@);
                                    lemma_path_extend(w, px, y@);
                                    lemma_edge_target_in(w, cands@, x@, y@);
                                }
                                let ghost before = path@;
                                let dy = dfs(world, cands, path, y);
                                proof {
                                    let pxy = px.push(y@);
                                    assert forall|q: Seq<Seq<char>>| #[trigger] depth_walk(w, q) && extends(q, pxy) implies extends(q, px) by {
                                        lemma_prefix_of_extension(q, px, y@);
                                    }
                                    if dy > best {
                                        let q = choose|q: Seq<Seq<char>>| #[trigger] depth_walk(w, q) && extends(q, pxy) && dy == q.len() - 1;
                                        lemma_prefix_of_extension(q, px, y@);
                                    }
                                    assert forall|q: Seq<Seq<char>>, k2: int| #[trigger] depth_walk(w, q) && extends(q, px) && q.len() > px.len()
                                        && 0 <= k2 < k + 1 && #[trigger] goto_in(w, rm, j as int, k2, q[px.len() as int])
                                        implies q.len() - 1 <= if dy > best { dy as int } else { best as int } by {
                                        if k2 == k {
                                            assert(q[px.len() as int] == y@);
                                            assert(q.subrange(0, pxy.len() as int) =~= pxy) by {
                                                assert forall|i: int| 0 <= i < pxy.len() implies q.subrange(0, pxy.len() as int)[i] == pxy[i] by {
                                                    if i < px.len() {
                                                        assert(q.subrange(0, px.len() as int)[i] == px[i]);
                                                    }
                                                }
                                            }
                                        }
                                    }
                                }
                                if dy > best {
                                    best = dy;
                                }
                            } else {
                                proof {
                                    assert forall|q: Seq<Seq<char>>, k2: int| #[trigger] depth_walk(w, q) && extends(q, px) && q.len() > px.len()
                                        && 0 <= k2 < k + 1 && #[trigger] goto_in(w, rm, j as int, k2, q[px.len() as int])
                                        implies q.len() - 1 <= best by {
                                        if k2 == k {
                                            assert(cm.actions[k as int] == c.actions@[k as int]@);
                                        }
                                    }
                                }
                            }
                            k = k + 1;
                        }
                    },
                }
                j = j + 1;
            }
            proof {
                assert forall|q: Seq<Seq<char>>| #[trigger] depth_walk(w, q) && extends(q, px) implies q.len() - 1 <= best by {
                    if q.len() > px.len() {
                        let i = pm.len() as int;
                        assert(q[i] == px[i]);
                        assert(edge(w, q[i], q[i + 1]));
                        let (j2, k2) = choose|j2: int, k2: int| #[trigger] goto_in(w, rm, j2, k2, q[i + 1]);
                        assert(goto_in(w, rm, j2, k2, q[px.len() as int]));
                    }
                }
            }
        },
    }
    path.pop();
    assert(path@ =~= old(path)@);
    best
}

/// The number of steps of the longest walk from the starting room that
/// repeats no room before its last step.
fn calculate_max_depth(world: &World) -> (d: usize)
    ensures
        is_max_depth(world@, d as int),
{
    let ghost w = world@;
    let cands = candidates(world);
    let mut path: Vec<String> = Vec::new();
    proof {
        let p = seq![w.starting_room_id];
        assert(string_seqs(path@).push(w.starting_room_id) =~= p);
        assert(is_path(w, p));
        assert(string_seqs(path@).no_duplicates());
        assert(in_cands(cands@, w.starting_room_id)) by {
            assert(cands@[0]@ == w.starting_room_id);
        }
    }
    let d = dfs(world, &cands, &mut path, &world.starting_room_id);
    proof {
        let p = seq![w.starting_room_id];
        assert(string_seqs(Seq::<String>::empty()).push(w.starting_room_id) =~= p);
        assert forall|q: Seq<Seq<char>>| #[trigger] depth_walk(w, q) implies q.len() - 1 <= d by {
            assert(q.subrange(0, 1) =~= p);
            assert(extends(q, p));
        }
    }
    d
}

// ---------------------------------------------------------------------------
// Flags
// ---------------------------------------------------------------------------

/// The flags a condition names, through `And` and `Or`.
pub open spec fn cond_flags(c: CondModel) -> Set<Seq<char>>
    decreases c,
{
    match c {
        CondModel::HasFlag(f) => set![f],
        CondModel::NotHasFlag(f) => set![f],
        CondModel::HasAllFlags(fs) => fs.to_set(),
        CondModel::HasAnyFlags(fs) => fs.to_set(),
        CondModel::And(l, r) => cond_flags(*l).union(cond_flags(*r)),
        CondModel::Or(l, r) => cond_flags(*l).union(cond_flags(*r)),
        _ => Set::empty(),
    }
}

/// The flags an action sets, removes, or tests.
pub open spec fn action_flags(a: ActionModel) -> Set<Seq<char>> {
    match a {
        ActionModel::SetFlag(f) => set![f],
        ActionModel::RemoveFlag(f) => set![f],
        ActionModel::DisplayTextConditional { condition, .. } => cond_flags(condition),
        _ => Set::empty(),
    }
}

/// The flags a choice's gate and actions name.
pub open spec fn choice_flags(c: ChoiceModel) -> Set<Seq<char>> {
    Set::new(|f: Seq<char>|
        (c.condition matches Some(g) && cond_flags(g).contains(f))
        || exists|k: int| 0 <= k < c.actions.len() && #[trigger] action_flags(c.actions[k]).contains(f))
}

/// The flags named anywhere in the world's choices.
pub open spec fn story_flags(w: WorldModel) -> Set<Seq<char>> {
    Set::new(|f: Seq<char>| exists|i: int| 0 <= i < w.choices.len() && #[trigger] choice_flags(w.choices[i].1).contains(f))
}

/// Adds every flag that a condition names, through `And` and `Or`.
fn collect_flags_from_condition(condition: &Condition, flags: &mut Vec<String>)
    requires
        string_seqs(old(flags)@).no_duplicates(),
    ensures
        string_seqs(final(flags)@).no_duplicates(),
        string_seqs(final(flags)@).to_set() == string_seqs(old(flags)@).to_set().union(cond_flags(condition@)),
    decreases condition,
{
    let ghost s0 = string_seqs(flags@).to_set();
    match condition {
        Condition::HasFlag(f) => {
            add_name(flags, &f.0);
            assert(s0.insert(f.0@) =~= s0.union(set![f.0@]));
        },
        Condition::NotHasFlag(f) => {
            add_name(flags, &f.0);
            assert(s0.insert(f.0@) =~= s0.union(set![f.0@]));
        },
        Condition::HasAllFlags(fs) | Condition::HasAnyFlags(fs) => {
            let ghost names = crate::world::flag_names(fs@);
            let mut i: usize = 0;
            while i < fs.len()
                invariant
                    i <= fs.len(),
                    names == crate::world::flag_names(fs@),
                    string_seqs(flags@).no_duplicates(),
                    string_seqs(flags@).to_set() == s0.union(names.take(i as int).to_set()),
                decreases fs.len() - i,
            {
                add_name(flags, &fs[i].0);
                assert(names.take(i + 1) =~= names.take(i as int).push(names[i as int]));
                proof {
                    names.take(i as int).lemma_push_to_set_commute(names[i as int]);
                }
                assert(names[i as int] == fs@[i as int].0@);
                assert(string_seqs(flags@).to_set() =~= s0.union(names.take(i + 1).to_set()));
                i = i + 1;
            }
            assert(names.take(i as int) =~= names);
        },
        Condition::And(l, r) | Condition::Or(l, r) => {
            collect_flags_from_condition(l, flags);
            collect_flags_from_condition(r, flags);
            assert(string_seqs(flags@).to_set() =~= s0.union(cond_flags(condition@)));
        },
        _ => {
            assert(string_seqs(flags@).to_set() =~= s0.union(cond_flags(condition@)));
        },
    }
}

/// The flags named by a choice's gate and its first `k` actions.
pub open spec fn choice_flags_upto(c: ChoiceModel, k: int) -> Set<Seq<char>> {
    Set::new(|f: Seq<char>|
        (c.condition matches Some(g) && cond_flags(g).contains(f))
        || exists|k2: int| 0 <= k2 < k && k2 < c.actions.len() && #[trigger] action_flags(c.actions[k2]).contains(f))
}

/// The flags named by the first `n` choices.
pub open spec fn flags_upto(w: WorldModel, n: int) -> Set<Seq<char>> {
    Set::new(|f: Seq<char>| exists|i: int| 0 <= i < n && i < w.choices.len() && #[trigger] choice_flags(w.choices[i].1).contains(f))
}

/// Every flag named by a choice's gate or actions, each once.
fn collect_story_flags(world: &World) -> (r: Vec<String>)
    ensures
        string_seqs(r@).no_duplicates(),
        string_seqs(r@).to_set() == story_flags(world@),
{
    let ghost w = world@;
    let mut flags: Vec<String> = Vec::new();
    assert(string_seqs(flags@).to_set() =~= flags_upto(w, 0));
    let mut i: usize = 0;
    while i < world.choices.len()
        invariant
            i <= world.choices.len(),
            w == world@,
            string_seqs(flags@).no_duplicates(),
            string_seqs(flags@).to_set() == flags_upto(w, i as int),
        decreases world.choices.len() - i,
    {
        let c = &world.choices[i].1;
        let ghost cm = c@;
        assert(w.choices[i as int].1 == cm);
        let ghost base = flags_upto(w, i as int);
        if let Some(g) = &c.condition {
            collect_flags_from_condition(g, &mut flags);
        }
        assert(string_seqs(flags@).to_set() =~= base.union(choice_flags_upto(cm, 0)));
        let mut k: usize = 0;
        while k < c.actions.len()
            invariant
                k <= c.actions.len(),
                i < world.choices.len(),
                w == world@,
                cm == c@,
                string_seqs(flags@).no_duplicates(),
                string_seqs(flags@).to_set() == base.union(choice_flags_upto(cm, k as int)),
            decreases c.actions.len() - k,
        {
            let ghost before = string_seqs(flags@).to_set();
            assert(cm.actions[k as int] == c.actions@[k as int]@);
            match &c.actions[k] {
                Action::SetFlag(f) => {
                    add_name(&mut flags, &f.0);
                },
                Action::RemoveFlag(f) => {
                    add_name(&mut flags, &f.0);
                },
                Action::DisplayTextConditional { condition, .. } => {
                    collect_flags_from_condition(condition, &mut flags);
                },
                _ => {},
            }
            assert(string_seqs(flags@).to_set() =~= before.union(action_flags(cm.actions[k as int])));
            assert(string_seqs(flags@).to_set() =~= base.union(choice_flags_upto(cm, k + 1)));
            k = k + 1;
        }
        assert(choice_flags_upto(cm, k as int) =~= choice_flags(cm));
        assert(string_seqs(flags@).to_set() =~= flags_upto(w, i + 1)) by {
            assert forall|f: Seq<char>| flags_upto(w, i + 1).contains(f) implies
                #[trigger] string_seqs(flags@).to_set().contains(f) by {
                let i2 = choose|i2: int| 0 <= i2 < i + 1 && i2 < w.choices.len() && #[trigger] choice_flags(w.choices[i2].1).contains(f);
                if i2 < i {
                    assert(base.contains(f));
                }
            }
        }
        i = i + 1;
    }
    assert(flags_upto(w, i as int) =~= story_flags(w));
    flags
}

/// The flags a description's condition names.
pub open spec fn desc_flags(d: DescModel) -> Set<Seq<char>> {
    match d.condition {
        Some(c) => cond_flags(c),
        None => Set::empty(),
    }
}

/// The flags named by the conditions of the first `n` descriptions of `r`.
pub open spec fn room_desc_flags(r: RoomModel, n: int) -> Set<Seq<char>> {
    Set::new(|f: Seq<char>| exists|d: int| 0 <= d < n && d < r.descriptions.len() && #[trigger] desc_flags(r.descriptions[d]).contains(f))
}

/// The flags named by the description conditions of the first `n` rooms.
pub open spec fn desc_flags_upto(w: WorldModel, n: int) -> Set<Seq<char>> {
    Set::new(|f: Seq<char>| exists|i: int| 0 <= i < n && i < w.rooms.len()
        && #[trigger] room_desc_flags(w.rooms[i].1, w.rooms[i].1.descriptions.len() as int).contains(f))
}

/// The flags named by the conditions of room descriptions.
pub open spec fn description_flags(w: WorldModel) -> Set<Seq<char>> {
    desc_flags_upto(w, w.rooms.len() as int)
}

/// Every flag named anywhere in a world: in choice gates and actions and
/// in the conditions of room descriptions.
pub open spec fn all_flags(w: WorldModel) -> Set<Seq<char>> {
    story_flags(w).union(description_flags(w))
}

/// Adds every flag named by a room description's condition.
fn collect_description_flags(world: &World, flags: &mut Vec<String>)
    requires
        string_seqs(old(flags)@).no_duplicates(),
    ensures
        string_seqs(final(flags)@).no_duplicates(),
        string_seqs(final(flags)@).to_set() == string_seqs(old(flags)@).to_set().union(description_flags(world@)),
{
    let ghost w = world@;
    let ghost s0 = string_seqs(flags@).to_set();
    assert(desc_flags_upto(w, 0) =~= Set::<Seq<char>>::empty());
    assert(string_seqs(flags@).to_set() =~= s0.union(desc_flags_upto(w, 0)));
    let mut i: usize = 0;
    while i < world.rooms.len()
        invariant
            i <= world.rooms.len(),
            w == world@,
            string_seqs(flags@).no_duplicates(),
            string_seqs(flags@).to_set() == s0.union(desc_flags_upto(w, i as int)),
        decreases world.rooms.len() - i,
    {
        let r = &world.rooms[i].1;
        let ghost rm = r@;
        assert(w.rooms[i as int].1 == rm);
        let ghost base = string_seqs(flags@).to_set();
        assert(room_desc_flags(rm, 0) =~= Set::<Seq<char>>::empty());
        assert(base =~= base.union(room_desc_flags(rm, 0)));
        let mut d: usize = 0;
        while d < r.descriptions.len()
            invariant
                d <= r.descriptions.len(),
                i < world.rooms.len(),
                w == world@,
                rm == r@,
                string_seqs(flags@).no_duplicates(),
                string_seqs(flags@).to_set() == base.union(room_desc_flags(rm, d as int)),
            decreases r.descriptions.len() - d,
        {
            let ghost before = string_seqs(flags@).to_set();
            assert(rm.descriptions[d as int] == r.descriptions@[d as int]@);
            if let Some(c) = &r.descriptions[d].condition {
                collect_flags_from_condition(c, flags);
            }
            assert(string_seqs(flags@).to_set() =~= before.union(desc_flags(rm.descriptions[d as int])));
            assert(string_seqs(flags@).to_set() =~= base.union(room_desc_flags(rm, d + 1)));
            d = d + 1;
        }
        assert(string_seqs(flags@).to_set() =~= s0.union(desc_flags_upto(w, i + 1))) by {
            assert forall|f: Seq<char>| desc_flags_upto(w, i + 1).contains(f) implies
                #[trigger] string_seqs(flags@).to_set().contains(f) by {
                let i2 = choose|i2: int| 0 <= i2 < i + 1 && i2 < w.rooms.len()
                    && #[trigger] room_desc_flags(w.rooms[i2].1, w.rooms[i2].1.descriptions.len() as int).contains(f);
                if i2 < i {
                    assert(desc_flags_upto(w, i as int).contains(f));
                }
            }
            assert forall|f: Seq<char>| #[trigger] string_seqs(flags@).to_set().contains(f) && !s0.contains(f)
                implies desc_flags_upto(w, i + 1).contains(f) by {
                if !desc_flags_upto(w, i as int).contains(f) {
                    assert(room_desc_flags(rm, d as int).contains(f));
                    assert(room_desc_flags(w.rooms[i as int].1, w.rooms[i as int].1.descriptions.len() as int).contains(f));
                } else {
                    let i2 = choose|i2: int| 0 <= i2 < i && i2 < w.rooms.len()
                        && #[trigger] room_desc_flags(w.rooms[i2].1, w.rooms[i2].1.descriptions.len() as int).contains(f);
                }
            }
        }
        i = i + 1;
    }
}

// ---------------------------------------------------------------------------
// Exits
// ---------------------------------------------------------------------------

/// Some choice that the room lists exists.
pub open spec fn has_any_choice(w: WorldModel, r: RoomModel) -> bool {
    exists|j: int| 0 <= j < r.choices.len() && #[trigger] has_key(w.choices, r.choices[j])
}

/// Action `k` of the `j`-th listed choice of room `r` is a `GoTo` or `Quit`.
pub open spec fn exit_at(w: WorldModel, r: RoomModel, j: int, k: int) -> bool {
    &&& 0 <= j < r.choices.len()
    &&& lookup(w.choices, r.choices[j]) matches Some(c)
    &&& 0 <= k < c.actions.len()
    &&& (c.actions[k] is GoTo || c.actions[k] is Quit)
}

/// Some listed choice of the room leaves it or ends the story.
pub open spec fn has_exit(w: WorldModel, r: RoomModel) -> bool {
    exists|j: int, k: int| #[trigger] exit_at(w, r, j, k)
}

/// The ids, in order, of the first `n` rooms for which `keep` holds.
pub open spec fn room_ids_where(
    rooms: Seq<(Seq<char>, RoomModel)>,
    n: int,
    keep: spec_fn((Seq<char>, RoomModel)) -> bool,
) -> Seq<Seq<char>>
    decreases n,
{
    if n <= 0 || n > rooms.len() {
        Seq::empty()
    } else {
        room_ids_where(rooms, n - 1, keep) + if keep(rooms[n - 1]) { seq![rooms[n - 1].0] } else { Seq::empty() }
    }
}

/// Whether the room lists an existing choice, and whether one of them exits.
fn room_exits(world: &World, room: &crate::world::Room) -> (r: (bool, bool))
    ensures
        r.0 == has_any_choice(world@, room@),
        r.1 == has_exit(world@, room@),
{
    let ghost w = world@;
    let ghost rm = room@;
    let mut any = false;
    let mut exit = false;
    let mut j: usize = 0;
    while j < room.choices.len()
        invariant
            j <= room.choices.len(),
            w == world@,
            rm == room@,
            any ==> has_any_choice(w, rm),
            !any ==> forall|j2: int| 0 <= j2 < j ==> !#[trigger] has_key(w.choices, rm.choices[j2]),
            exit ==> has_exit(w, rm),
            !exit ==> forall|j2: int, k2: int| 0 <= j2 < j ==> !#[trigger] exit_at(w, rm, j2, k2),
        decreases room.choices.len() - j,
    {
        let id = &room.choices[j];
        assert(rm.choices[j as int] == id@);
        match find_entry(&world.choices, id) {
            None => {
                proof {
                    lemma_lookup_none(w.choices, id@);
                }
            },
            Some(ci) => {
                proof {
                    lemma_lookup_first(w.choices, id@, ci as int);
                }
                assert(has_key(w.choices, rm.choices[j as int]));
                any = true;
                let c = &world.choices[ci].1;
                let ghost cm = c@;
                let mut k: usize = 0;
                while k < c.actions.len()
                    invariant
                        k <= c.actions.len(),
                        j < room.choices.len(),
                        w == world@,
                        rm == room@,
                        cm == c@,
                        lookup(w.choices, rm.choices[j as int]) == Some(cm),
                        exit ==> has_exit(w, rm),
                        !exit ==> forall|j2: int, k2: int| 0 <= j2 < j ==> !#[trigger] exit_at(w, rm, j2, k2),
                        !exit ==> forall|k2: int| 0 <= k2 < k ==> !#[trigger] exit_at(w, rm, j as int, k2),
                    decreases c.actions.len() - k,
                {
                    assert(cm.actions[k as int] == c.actions@[k as int]@);
                    match &c.actions[k] {
                        Action::GoTo(_) => {
                            assert(exit_at(w, rm, j as int, k as int));
                            exit = true;
                        },
                        Action::Quit => {
                            assert(exit_at(w, rm, j as int, k as int));
                            exit = true;
                        },
                        _ => {},
                    }
                    k = k + 1;
                }
                assert(cm.actions.len() == c.actions@.len());
            },
        }
        j = j + 1;
    }
    (any, exit)
}

/// Rooms that cannot be reached from the start.
pub open spec fn unreachable_room(w: WorldModel) -> spec_fn((Seq<char>, RoomModel)) -> bool {
    |e: (Seq<char>, RoomModel)| !reachable(w, e.0)
}

/// Rooms with some existing choice, none of which leaves or ends the story.
pub open spec fn dead_end_room(w: WorldModel) -> spec_fn((Seq<char>, RoomModel)) -> bool {
    |e: (Seq<char>, RoomModel)| has_any_choice(w, e.1) && !has_exit(w, e.1)
}

/// Rooms without any existing choice.
pub open spec fn choiceless_room(w: WorldModel) -> spec_fn((Seq<char>, RoomModel)) -> bool {
    |e: (Seq<char>, RoomModel)| !has_any_choice(w, e.1)
}

/// Authoring statistics of a world.
#[derive(Debug)]
pub struct StoryStats {
    pub total_rooms: usize,
    pub total_choices: usize,
    pub unreachable_rooms: Vec<String>,
    pub dead_end_rooms: Vec<String>,
    pub rooms_with_no_exit: Vec<String>,
    pub max_depth: usize,
    pub total_flags: Vec<String>,
}

fn is_marked(cands: &Vec<String>, marked: &Vec<bool>, s: &String) -> (r: bool)
    requires
        marked.len() == cands.len(),
    ensures
        r == marked_set(cands@, marked@).contains(s@),
{
    let mut y: usize = 0;
    while y < cands.len()
        invariant
            y <= cands.len(),
            marked.len() == cands.len(),
            forall|z: int| 0 <= z < y ==> !(marked@[z] && #[trigger] cands@[z]@ == s@),
        decreases cands.len() - y,
    {
        if marked[y] && cands[y] == *s {
            assert(marked_set(cands@, marked@).contains(s@));
            return true;
        }
        y = y + 1;
    }
    false
}

fn push_id(v: &mut Vec<String>, id: &String)
    ensures
        string_seqs(final(v)@) == string_seqs(old(v)@).push(id@),
{
    v.push(id.clone());
    assert(string_seqs(v@) =~= string_seqs(old(v)@).push(id@));
}

/// Structural statistics of a world, following only `GoTo` edges and
/// ignoring choice gates: the rooms that cannot be reached from the start,
/// the rooms whose choices never leave (dead ends), the rooms without any
/// choice, the longest walk from the start, and every flag named anywhere:
/// by a choice's gate or actions, or by a room description's condition.
/// Room lists keep the world's room order.
pub fn analyze_story(world: &World) -> (r: Result<StoryStats, GameError>)
    requires
        world@.wf(),
    ensures
        r matches Ok(st) && {
            &&& st.total_rooms == world.rooms.len()
            &&& st.total_choices == world.choices.len()
            &&& string_seqs(st.unreachable_rooms@) == room_ids_where(world@.rooms, world@.rooms.len() as int, unreachable_room(world@))
            &&& string_seqs(st.dead_end_rooms@) == room_ids_where(world@.rooms, world@.rooms.len() as int, dead_end_room(world@))
            &&& string_seqs(st.rooms_with_no_exit@) == room_ids_where(world@.rooms, world@.rooms.len() as int, choiceless_room(world@))
            &&& is_max_depth(world@, st.max_depth as int)
            &&& string_seqs(st.total_flags@).no_duplicates()
            &&& string_seqs(st.total_flags@).to_set() == all_flags(world@)
        },
{
    let ghost w = world@;
    let (cands, marked) = find_reachable_rooms(world);
    let mut total_flags = collect_story_flags(world);
    collect_description_flags(world, &mut total_flags);
    let mut unreachable_rooms: Vec<String> = Vec::new();
    let mut dead_end_rooms: Vec<String> = Vec::new();
    let mut rooms_with_no_exit: Vec<String> = Vec::new();
    let mut i: usize = 0;
    while i < world.rooms.len()
        invariant
            i <= world.rooms.len(),
            w == world@,
            marked.len() == cands.len(),
            forall|x: Seq<char>| #[trigger] marked_set(cands@, marked@).contains(x) <==> reachable(w, x),
            string_seqs(unreachable_rooms@) == room_ids_where(w.rooms, i as int, unreachable_room(w)),
            string_seqs(dead_end_rooms@) == room_ids_where(w.rooms, i as int, dead_end_room(w)),
            string_seqs(rooms_with_no_exit@) == room_ids_where(w.rooms, i as int, choiceless_room(w)),
        decreases world.rooms.len() - i,
    {
        let entry = &world.rooms[i];
        let ghost e = w.rooms[i as int];
        assert(e == (entry.0@, entry.1@));
        if !is_marked(&cands, &marked, &entry.0) {
            push_id(&mut unreachable_rooms, &entry.0);
        }
        let (any, exit) = room_exits(world, &entry.1);
        if !any {
            push_id(&mut rooms_with_no_exit, &entry.0);
        } else if !exit {
            push_id(&mut dead_end_rooms, &entry.0);
        }
        assert(string_seqs(unreachable_rooms@) =~= room_ids_where(w.rooms, i + 1, unreachable_room(w)));
        assert(string_seqs(dead_end_rooms@) =~= room_ids_where(w.rooms, i + 1, dead_end_room(w)));
        assert(string_seqs(rooms_with_no_exit@) =~= room_ids_where(w.rooms, i + 1, choiceless_room(w)));
        i = i + 1;
    }
    let max_depth = calculate_max_depth(world);
    Ok(StoryStats {
        total_rooms: world.rooms.len(),
        total_choices: world.choices.len(),
        unreachable_rooms,
        dead_end_rooms,
        rooms_with_no_exit,
        max_depth,
        total_flags,
    })
}

} // verus!
