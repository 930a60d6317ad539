//! Nav-mesh connectivity: building the bidirectional area graph from the
//! links listed in a nav file, A* path search over it, random goal choice,
//! and the sampling plan of Catmull-Rom path smoothing.

use rand::RngExt;
use std::collections::HashMap;
use vstd::prelude::*;

verus! {

broadcast use vstd::std_specs::hash::group_hash_axioms;

/// Area identifier.
pub type AreaId = u64;

/// What the graph construction reads of one nav area in the nav file: its id,
/// whether it has any corners (areas without corners are dropped), and the
/// ids it lists as connections.
pub struct AreaLinks {
    pub area_id: AreaId,
    pub has_corners: bool,
    pub connections: Vec<AreaId>,
}

/// Some area among the first `k` with id `id` has corners.
pub open spec fn listed_before(areas: Seq<AreaLinks>, k: int, id: AreaId) -> bool {
    exists|i: int| 0 <= i < k && #[trigger] areas[i].area_id == id && areas[i].has_corners
}

/// The ids of the areas kept in the mesh: those of areas with corners.
pub open spec fn area_ids(areas: Seq<AreaLinks>) -> Set<AreaId> {
    Set::new(|id: AreaId| listed_before(areas, areas.len() as int, id))
}

/// The connections listed by the last area with id `id`, or none.
pub open spec fn last_links(areas: Seq<AreaLinks>, id: AreaId) -> Seq<AreaId>
    decreases areas.len(),
{
    if areas.len() == 0 {
        Seq::empty()
    } else if areas.last().area_id == id {
        areas.last().connections@
    } else {
        last_links(areas.drop_last(), id)
    }
}

/// The ids in `s` that belong to `known`, in order.
pub open spec fn known_only(s: Seq<AreaId>, known: Set<AreaId>) -> Seq<AreaId>
    decreases s.len(),
{
    if s.len() == 0 {
        Seq::empty()
    } else {
        let rest = known_only(s.drop_last(), known);
        if known.contains(s.last()) {
            rest.push(s.last())
        } else {
            rest
        }
    }
}

/// The forward links of area `id`: the connections listed for it that lead to
/// areas kept in the mesh.
pub open spec fn forward_links(areas: Seq<AreaLinks>, id: AreaId) -> Seq<AreaId> {
    known_only(last_links(areas, id), area_ids(areas))
}

/// No id occurs twice in `s`.
pub open spec fn no_duplicates(s: Seq<AreaId>) -> bool {
    forall|i: int, j: int| 0 <= i < j < s.len() ==> s[i] != s[j]
}

/// Area `x` gets a reverse link to area `b`: `x` is kept in the mesh, lists
/// `b` as a forward link, and `b` does not list `x`.
pub open spec fn needs_reverse(areas: Seq<AreaLinks>, x: AreaId, b: AreaId) -> bool {
    &&& area_ids(areas).contains(x)
    &&& forward_links(areas, x).contains(b)
    &&& !forward_links(areas, b).contains(x)
}

/// The reverse links of area `b` contributed by the first `k` listed areas,
/// each id once, in the order in which the areas are listed.
pub open spec fn reverse_links(areas: Seq<AreaLinks>, k: nat, b: AreaId) -> Seq<AreaId>
    decreases k,
{
    if k == 0 {
        Seq::empty()
    } else {
        let prev = reverse_links(areas, (k - 1) as nat, b);
        let x = areas[k - 1].area_id;
        if needs_reverse(areas, x, b) && !prev.contains(x) {
            prev.push(x)
        } else {
            prev
        }
    }
}

/// `links` is the nav graph of `areas`: one entry per kept area, whose
/// neighbour list is its forward links followed by its reverse links.
pub open spec fn is_nav_graph(areas: Seq<AreaLinks>, links: Map<AreaId, Seq<AreaId>>) -> bool {
    &&& links.dom() == area_ids(areas)
    &&& forall|b: AreaId| #[trigger]
        links.contains_key(b) ==> links[b] == forward_links(areas, b) + reverse_links(
            areas,
            areas.len(),
            b,
        )
}

/// Membership in `known_only`.
pub proof fn lemma_known_only(s: Seq<AreaId>, known: Set<AreaId>)
    ensures
        forall|x: AreaId| #[trigger]
            known_only(s, known).contains(x) <==> s.contains(x) && known.contains(x),
    decreases s.len(),
{
    if s.len() > 0 {
        lemma_known_only(s.drop_last(), known);
        let rest = known_only(s.drop_last(), known);
        assert forall|x: AreaId| #[trigger]
            known_only(s, known).contains(x) <==> s.contains(x) && known.contains(x) by {
            if s.contains(x) && x != s.last() {
                let i = choose|i: int| 0 <= i < s.len() && s[i] == x;
                assert(s.drop_last()[i] == x);
            }
            if s.drop_last().contains(x) {
                let i = choose|i: int| 0 <= i < s.len() - 1 && s.drop_last()[i] == x;
                assert(s[i] == x);
            }
            if known.contains(s.last()) {
                assert(known_only(s, known) == rest.push(s.last()));
                if rest.contains(x) {
                    let i = choose|i: int| 0 <= i < rest.len() && rest[i] == x;
                    assert(rest.push(s.last())[i] == x);
                }
                if rest.push(s.last()).contains(x) && x != s.last() {
                    let i = choose|i: int| 0 <= i < rest.len() + 1 && rest.push(s.last())[i] == x;
                    assert(rest[i] == x);
                }
                assert(rest.push(s.last())[rest.len() as int] == s.last());
            }
        }
    }
}

/// The directed-then-symmetrised area graph of a nav mesh.
pub struct NavGraph {
    links: HashMap<AreaId, Vec<AreaId>>,
}

/// Whether `v` holds `x`.
fn holds(v: &Vec<AreaId>, x: AreaId) -> (r: bool)
    ensures
        r == v@.contains(x),
{
    let mut i: usize = 0;
    while i < v.len()
        invariant
            i <= v.len(),
            forall|j: int| 0 <= j < i ==> v@[j] != x,
        decreases v.len() - i,
    {
        if v[i] == x {
            return true;
        }
        i = i + 1;
    }
    false
}

/// The ids of `s` that are keys of `known`, in order.
fn keep_known(s: &Vec<AreaId>, known: &HashMap<AreaId, Vec<AreaId>>) -> (r: Vec<AreaId>)
    ensures
        r@ == known_only(s@, known@.dom()),
{
    let mut r: Vec<AreaId> = Vec::new();
    let mut i: usize = 0;
    while i < s.len()
        invariant
            i <= s.len(),
            r@ == known_only(s@.take(i as int), known@.dom()),
        decreases s.len() - i,
    {
        assert(s@.take(i + 1).drop_last() =~= s@.take(i as int));
        assert(s@.take(i + 1).last() == s@[i as int]);
        if known.contains_key(&s[i]) {
            r.push(s[i]);
        }
        i = i + 1;
    }
    assert(s@.take(s.len() as int) =~= s@);
    r
}

} // verus!

verus! {

/// The neighbour lists of a map of vectors, as sequences.
pub open spec fn links_view(m: Map<AreaId, Vec<AreaId>>) -> Map<AreaId, Seq<AreaId>> {
    Map::new(|k: AreaId| m.contains_key(k), |k: AreaId| m[k]@)
}

/// Some area among the first `k` has id `id` (with or without corners).
pub open spec fn seen_before(areas: Seq<AreaLinks>, k: int, id: AreaId) -> bool {
    exists|i: int| 0 <= i < k && #[trigger] areas[i].area_id == id
}

/// The reverse links of `b` hold no id twice, and hold exactly the areas
/// among the first `k` that need a reverse link to `b`.
pub proof fn lemma_reverse_links(areas: Seq<AreaLinks>, k: nat, b: AreaId)
    requires
        k <= areas.len(),
    ensures
        no_duplicates(reverse_links(areas, k, b)),
        forall|x: AreaId| #[trigger]
            reverse_links(areas, k, b).contains(x) <==> needs_reverse(areas, x, b) && seen_before(
                areas,
                k as int,
                x,
            ),
    decreases k,
{
    if k > 0 {
        let k1 = (k - 1) as nat;
        lemma_reverse_links(areas, k1, b);
        let prev = reverse_links(areas, k1, b);
        let x0 = areas[k1 as int].area_id;
        assert forall|x: AreaId| #[trigger] seen_before(areas, k as int, x) <==> seen_before(
            areas,
            k1 as int,
            x,
        ) || x == x0 by {
            if seen_before(areas, k as int, x) && x != x0 {
                let i = choose|i: int| 0 <= i < k && #[trigger] areas[i].area_id == x;
                assert(i < k1);
            }
            if x == x0 {
                assert(areas[k1 as int].area_id == x);
            }
            if seen_before(areas, k1 as int, x) {
                let i = choose|i: int| 0 <= i < k1 && #[trigger] areas[i].area_id == x;
                assert(areas[i].area_id == x);
            }
        }
        if needs_reverse(areas, x0, b) && !prev.contains(x0) {
            let cur = prev.push(x0);
            assert forall|x: AreaId| #[trigger] cur.contains(x) <==> prev.contains(x) || x == x0 by {
                if prev.contains(x) {
                    let i = choose|i: int| 0 <= i < prev.len() && prev[i] == x;
                    assert(cur[i] == x);
                }
                if x == x0 {
                    assert(cur[prev.len() as int] == x0);
                }
                if cur.contains(x) && x != x0 {
                    let i = choose|i: int| 0 <= i < cur.len() && cur[i] == x;
                    assert(prev[i] == x);
                }
            }
            assert forall|i: int, j: int| 0 <= i < j < cur.len() implies cur[i] != cur[j] by {
                if j == prev.len() {
                    assert(prev.contains(cur[i]));
                }
            }
        }
    }
}

/// The neighbour list of `b` once the reverse links of the first `k` areas,
/// and of area `cur` those toward its first `t` forward links, were added.
pub open spec fn partial_links(
    areas: Seq<AreaLinks>,
    k: nat,
    cur: AreaId,
    t: int,
    b: AreaId,
) -> Seq<AreaId> {
    if forward_links(areas, cur).take(t).contains(b) {
        forward_links(areas, b) + reverse_links(areas, k + 1, b)
    } else {
        forward_links(areas, b) + reverse_links(areas, k, b)
    }
}

/// First pass: an empty neighbour list for every area with corners.
fn seed_areas(areas: &Vec<AreaLinks>) -> (m: HashMap<AreaId, Vec<AreaId>>)
    ensures
        m@.dom() == area_ids(areas@),
        forall|b: AreaId| #[trigger] m@.contains_key(b) ==> m@[b]@ == Seq::<AreaId>::empty(),
{
    let mut m: HashMap<AreaId, Vec<AreaId>> = HashMap::new();
    let mut k: usize = 0;
    while k < areas.len()
        invariant
            k <= areas.len(),
            forall|id: AreaId| #[trigger] m@.contains_key(id) <==> listed_before(areas@, k as int, id),
            forall|b: AreaId| #[trigger] m@.contains_key(b) ==> m@[b]@ == Seq::<AreaId>::empty(),
        decreases areas.len() - k,
    {
        if areas[k].has_corners {
            m.insert(areas[k].area_id, Vec::new());
        }
        assert forall|id: AreaId| #[trigger]
            m@.contains_key(id) <==> listed_before(areas@, k + 1, id) by {
            if listed_before(areas@, k + 1, id) && !listed_before(areas@, k as int, id) {
                let i = choose|i: int| 0 <= i < k + 1 && #[trigger] areas@[i].area_id == id && areas@[i].has_corners;
                assert(i == k);
            }
            if listed_before(areas@, k as int, id) {
                let i = choose|i: int| 0 <= i < k && #[trigger] areas@[i].area_id == id && areas@[i].has_corners;
                assert(areas@[i].area_id == id);
            }
        }
        k = k + 1;
    }
    assert(m@.dom() =~= area_ids(areas@));
    m
}

/// Second pass: each kept area gets the connections of the last area
/// with its id that lead to kept areas.
fn set_forward_links(areas: &Vec<AreaLinks>, m: &mut HashMap<AreaId, Vec<AreaId>>)
    requires
        old(m)@.dom() == area_ids(areas@),
        forall|b: AreaId| #[trigger]
            old(m)@.contains_key(b) ==> old(m)@[b]@ == Seq::<AreaId>::empty(),
    ensures
        final(m)@.dom() == area_ids(areas@),
        forall|b: AreaId| #[trigger]
            final(m)@.contains_key(b) ==> final(m)@[b]@ == forward_links(areas@, b),
{
    let ghost ids = area_ids(areas@);
    let mut k: usize = 0;
    while k < areas.len()
        invariant
            k <= areas.len(),
            ids == area_ids(areas@),
            m@.dom() == ids,
            forall|b: AreaId| #[trigger]
                m@.contains_key(b) ==> m@[b]@ == known_only(
                    last_links(areas@.take(k as int), b),
                    ids,
                ),
        decreases areas.len() - k,
    {
        let ghost pre = areas@.take(k as int);
        let ghost post = areas@.take(k + 1);
        assert(post.drop_last() =~= pre);
        assert(post.last() == areas@[k as int]);
        let id = areas[k].area_id;
        if m.contains_key(&id) {
            let f = keep_known(&areas[k].connections, m);
            m.insert(id, f);
        }
        assert forall|b: AreaId| #[trigger]
            m@.contains_key(b) implies m@[b]@ == known_only(last_links(post, b), ids) by {
            if b != id {
                assert(last_links(post, b) == last_links(pre, b));
            }
        }
        k = k + 1;
    }
    assert(areas@.take(areas.len() as int) =~= areas@);
}

/// Third pass: for every forward link `a -> b`, adds `a` to the neighbours of
/// `b` unless it is already there.
fn add_reverse_links(areas: &Vec<AreaLinks>, m: &mut HashMap<AreaId, Vec<AreaId>>)
    requires
        old(m)@.dom() == area_ids(areas@),
        forall|b: AreaId| #[trigger]
            old(m)@.contains_key(b) ==> old(m)@[b]@ == forward_links(areas@, b),
    ensures
        is_nav_graph(areas@, links_view(final(m)@)),
{
    let ghost ids = area_ids(areas@);
    let fwd = m.clone();
    proof {
        assert forall|b: AreaId| #[trigger] m@.contains_key(b) implies m@[b]@ == forward_links(
            areas@,
            b,
        ) + reverse_links(areas@, 0, b) by {
            assert(forward_links(areas@, b) + reverse_links(areas@, 0, b) =~= forward_links(
                areas@,
                b,
            ));
        }
    }
    let mut k: usize = 0;
    while k < areas.len()
        invariant
            k <= areas.len(),
            ids == area_ids(areas@),
            fwd@.dom() == ids,
            forall|b: AreaId| #[trigger] fwd@.contains_key(b) ==> fwd@[b]@ == forward_links(areas@, b),
            m@.dom() == ids,
            forall|b: AreaId| #[trigger]
                m@.contains_key(b) ==> m@[b]@ == forward_links(areas@, b) + reverse_links(
                    areas@,
                    k as nat,
                    b,
                ),
        decreases areas.len() - k,
    {
        let id = areas[k].area_id;
        if fwd.contains_key(&id) {
            let fl = fwd.get(&id).unwrap();
            let ghost fid = forward_links(areas@, id);
            proof {
                lemma_known_only(last_links(areas@, id), ids);
                assert(fid.take(0) =~= Seq::<AreaId>::empty());
            }
            let mut t: usize = 0;
            while t < fl.len()
                invariant
                    k < areas.len(),
                    id == areas@[k as int].area_id,
                    ids == area_ids(areas@),
                    ids.contains(id),
                    fl@ == fid,
                    fid == forward_links(areas@, id),
                    forall|y: AreaId| #[trigger] fid.contains(y) ==> ids.contains(y),
                    t <= fl.len(),
                    m@.dom() == ids,
                    forall|b: AreaId| #[trigger]
                        m@.contains_key(b) ==> m@[b]@ == partial_links(
                            areas@,
                            k as nat,
                            id,
                            t as int,
                            b,
                        ),
                decreases fl.len() - t,
            {
                let nid = fl[t];
                let ghost pre_t = fid.take(t as int);
                let ghost post_t = fid.take(t + 1);
                assert forall|b: AreaId| #[trigger] post_t.contains(b) <==> pre_t.contains(b) || b == nid by {
                    if pre_t.contains(b) {
                        let i = choose|i: int| 0 <= i < pre_t.len() && pre_t[i] == b;
                        assert(post_t[i] == b);
                    }
                    if b == nid {
                        assert(post_t[t as int] == nid);
                    }
                    if post_t.contains(b) && b != nid {
                        let i = choose|i: int| 0 <= i < post_t.len() && post_t[i] == b;
                        assert(pre_t[i] == b);
                    }
                }
                assert(fid.contains(nid)) by {
                    assert(fid[t as int] == nid);
                }
                if m.contains_key(&nid) {
                    let mut v = m.remove(&nid).unwrap();
                    let ghost fb = forward_links(areas@, nid);
                    let ghost before = reverse_links(areas@, k as nat, nid);
                    let ghost after = reverse_links(areas@, (k + 1) as nat, nid);
                    proof {
                        assert(areas@[k as int].area_id == id);
                        if !pre_t.contains(nid) {
                            assert(v@ == fb + before);
                            lemma_split_contains(fb + before, fb.len() as int, id);
                            assert((fb + before).take(fb.len() as int) =~= fb);
                            assert((fb + before).skip(fb.len() as int) =~= before);
                        }
                    }
                    if !holds(&v, id) {
                        v.push(id);
                        proof {
                            if pre_t.contains(nid) {
                                lemma_reverse_links(areas@, (k + 1) as nat, nid);
                                assert(seen_before(areas@, k + 1, id)) by {
                                    assert(areas@[k as int].area_id == id);
                                }
                                assert((fb + after).take(fb.len() as int) =~= fb);
                                assert((fb + after).skip(fb.len() as int) =~= after);
                                lemma_split_contains(fb + after, fb.len() as int, id);
                                assert(false);
                            }
                            assert(!fb.contains(id));
                            assert(!before.contains(id));
                            assert(needs_reverse(areas@, id, nid));
                            assert(after == before.push(id));
                            assert(v@ =~= fb + after);
                        }
                    } else {
                        proof {
                            if !pre_t.contains(nid) {
                                assert(after == before);
                            }
                        }
                    }
                    m.insert(nid, v);
                }
                t = t + 1;
            }
            proof {
                assert(fid.take(fl.len() as int) =~= fid);
                assert forall|b: AreaId| #[trigger] m@.contains_key(b) implies m@[b]@
                    == forward_links(areas@, b) + reverse_links(areas@, (k + 1) as nat, b) by {
                    if !fid.contains(b) {
                        assert(reverse_links(areas@, (k + 1) as nat, b) == reverse_links(
                            areas@,
                            k as nat,
                            b,
                        ));
                    }
                }
            }
        } else {
            proof {
                assert forall|b: AreaId| #[trigger] m@.contains_key(b) implies m@[b]@
                    == forward_links(areas@, b) + reverse_links(areas@, (k + 1) as nat, b) by {
                    assert(!ids.contains(id));
                    assert(reverse_links(areas@, (k + 1) as nat, b) == reverse_links(
                        areas@,
                        k as nat,
                        b,
                    ));
                }
            }
        }
        k = k + 1;
    }
    proof {
        let mv = links_view(m@);
        assert(mv.dom() =~= ids);
    }
}

impl NavGraph {
    /// The neighbour list of each area.
    pub closed spec fn view(&self) -> Map<AreaId, Seq<AreaId>> {
        links_view(self.links@)
    }

    /// Builds the area graph of a nav mesh: every area with corners becomes a
    /// node whose neighbours are the listed connections that lead to kept
    /// areas, followed by reverse links so that every link can be walked both
    /// ways.
    ///
    /// The areas of the graph are exactly the ids listed with corners. For
    /// the last listing of each of them, every listed connection that is an
    /// area of the graph is a neighbour, and the neighbour list starts with
    /// exactly those connections, in the listed order. Every neighbour is an
    /// area of the graph that the one end's last listing names as a
    /// connection of the other, and every link can be walked both ways.
    pub fn from_areas(areas: &Vec<AreaLinks>) -> (g: NavGraph)
        ensures
            is_nav_graph(areas@, g.view()),
            forall|id: AreaId| #[trigger]
                g.view().contains_key(id) <==> exists|i: int|
                    0 <= i < areas@.len() && areas@[i].area_id == id && areas@[i].has_corners,
            forall|i: int, c: AreaId|
                0 <= i < areas@.len() && g.view().contains_key(areas@[i].area_id) && (forall|j: int|
                    i < j < areas@.len() ==> areas@[j].area_id != areas@[i].area_id)
                    && #[trigger] areas@[i].connections@.contains(c) && g.view().contains_key(c)
                    ==> g.view()[areas@[i].area_id].contains(c),
            forall|i: int|
                0 <= i < areas@.len() && g.view().contains_key(#[trigger] areas@[i].area_id) && (
                forall|j: int| i < j < areas@.len() ==> areas@[j].area_id != areas@[i].area_id)
                    ==> g.view()[areas@[i].area_id].take(
                    areas@[i].connections@.filter(|c: AreaId| g.view().dom().contains(c)).len()
                        as int,
                ) == areas@[i].connections@.filter(|c: AreaId| g.view().dom().contains(c)),
            forall|a: AreaId, x: AreaId|
                g.view().contains_key(a) && #[trigger] g.view()[a].contains(x) ==> g.view().contains_key(x)
                    && ((exists|i: int|
                    0 <= i < areas@.len() && areas@[i].area_id == a && (forall|j: int|
                        i < j < areas@.len() ==> areas@[j].area_id != a)
                        && #[trigger] areas@[i].connections@.contains(x)) || (exists|i: int|
                    0 <= i < areas@.len() && areas@[i].area_id == x && (forall|j: int|
                        i < j < areas@.len() ==> areas@[j].area_id != x)
                        && #[trigger] areas@[i].connections@.contains(a))),
            forall|a: AreaId, b: AreaId|
                g.view().contains_key(a) && #[trigger] g.view()[a].contains(b) ==> g.view()[b].contains(
                    a,
                ),
    {
        let mut links = seed_areas(areas);
        set_forward_links(areas, &mut links);
        add_reverse_links(areas, &mut links);
        let g = NavGraph { links };
        proof {
            lemma_graph_listed_links(areas@, g.view());
            lemma_graph_neighbour_origin(areas@, g.view());
            lemma_nav_graph_bidirectional(areas@, g.view());
        }
        g
    }
}

} // verus!

verus! {

/// The connections of an area's last listing are its listed connections.
proof fn lemma_last_listing(areas: Seq<AreaLinks>, i: int)
    requires
        0 <= i < areas.len(),
        forall|j: int| i < j < areas.len() ==> areas[j].area_id != areas[i].area_id,
    ensures
        last_links(areas, areas[i].area_id) == areas[i].connections@,
    decreases areas.len(),
{
    if i < areas.len() - 1 {
        let rest = areas.drop_last();
        assert(areas[areas.len() - 1].area_id != areas[i].area_id);
        assert forall|j: int| i < j < rest.len() implies rest[j].area_id != rest[i].area_id by {
            assert(rest[j] == areas[j]);
        }
        lemma_last_listing(rest, i);
        assert(rest[i] == areas[i]);
    }
}

/// The connections credited to `id` come from its last listing, if it has one.
proof fn lemma_last_links_origin(areas: Seq<AreaLinks>, id: AreaId, x: AreaId)
    requires
        last_links(areas, id).contains(x),
    ensures
        exists|i: int|
            0 <= i < areas.len() && areas[i].area_id == id && (forall|j: int|
                i < j < areas.len() ==> areas[j].area_id != id)
                && #[trigger] areas[i].connections@.contains(x),
    decreases areas.len(),
{
    let n = areas.len();
    if areas.last().area_id == id {
        assert(areas[n - 1].connections@.contains(x));
    } else {
        let rest = areas.drop_last();
        lemma_last_links_origin(rest, id, x);
        let i = choose|i: int|
            0 <= i < rest.len() && rest[i].area_id == id && (forall|j: int|
                i < j < rest.len() ==> rest[j].area_id != id)
                && #[trigger] rest[i].connections@.contains(x);
        assert(areas[i] == rest[i]);
        assert forall|j: int| i < j < n implies areas[j].area_id != id by {
            if j < n - 1 {
                assert(areas[j] == rest[j]);
            }
        }
    }
}

/// Every neighbour is an area listed as a connection of the other end's last
/// listing, in one direction or the other.
proof fn lemma_graph_neighbour_origin(areas: Seq<AreaLinks>, links: Map<AreaId, Seq<AreaId>>)
    requires
        is_nav_graph(areas, links),
    ensures
        forall|a: AreaId, x: AreaId|
            links.contains_key(a) && #[trigger] links[a].contains(x) ==> links.contains_key(x) && ((
            exists|i: int|
                0 <= i < areas.len() && areas[i].area_id == a && (forall|j: int|
                    i < j < areas.len() ==> areas[j].area_id != a)
                    && #[trigger] areas[i].connections@.contains(x)) || (exists|i: int|
                0 <= i < areas.len() && areas[i].area_id == x && (forall|j: int|
                    i < j < areas.len() ==> areas[j].area_id != x)
                    && #[trigger] areas[i].connections@.contains(a))),
{
    let ids = area_ids(areas);
    let n = areas.len();
    lemma_nav_graph_bidirectional(areas, links);
    assert forall|a: AreaId, x: AreaId| links.contains_key(a) && #[trigger] links[a].contains(
        x,
    ) implies links.contains_key(x) && ((exists|i: int|
        0 <= i < areas.len() && areas[i].area_id == a && (forall|j: int|
            i < j < areas.len() ==> areas[j].area_id != a)
            && #[trigger] areas[i].connections@.contains(x)) || (exists|i: int|
        0 <= i < areas.len() && areas[i].area_id == x && (forall|j: int|
            i < j < areas.len() ==> areas[j].area_id != x)
            && #[trigger] areas[i].connections@.contains(a))) by {
        let f = forward_links(areas, a);
        let r = reverse_links(areas, n, a);
        lemma_known_only(last_links(areas, a), ids);
        lemma_reverse_links(areas, n, a);
        assert((f + r).take(f.len() as int) =~= f);
        assert((f + r).skip(f.len() as int) =~= r);
        lemma_split_contains(f + r, f.len() as int, x);
        if f.contains(x) {
            lemma_last_links_origin(areas, a, x);
        } else {
            assert(needs_reverse(areas, x, a));
            lemma_known_only(last_links(areas, x), ids);
            lemma_last_links_origin(areas, x, a);
        }
    }
}

/// `known_only` keeps the known ids in order, as `filter` does.
proof fn lemma_known_only_filter(s: Seq<AreaId>, known: Set<AreaId>)
    ensures
        known_only(s, known) == s.filter(|c: AreaId| known.contains(c)),
    decreases s.len(),
{
    reveal_with_fuel(Seq::<_>::filter, 1);
    if s.len() > 0 {
        lemma_known_only_filter(s.drop_last(), known);
    }
}

/// What the listed connections make of a nav graph's neighbour lists.
proof fn lemma_graph_listed_links(areas: Seq<AreaLinks>, links: Map<AreaId, Seq<AreaId>>)
    requires
        is_nav_graph(areas, links),
    ensures
        forall|id: AreaId| #[trigger]
            links.contains_key(id) <==> exists|i: int|
                0 <= i < areas.len() && areas[i].area_id == id && areas[i].has_corners,
        forall|i: int, c: AreaId|
            0 <= i < areas.len() && links.contains_key(areas[i].area_id) && (forall|j: int|
                i < j < areas.len() ==> areas[j].area_id != areas[i].area_id)
                && #[trigger] areas[i].connections@.contains(c) && links.contains_key(c)
                ==> links[areas[i].area_id].contains(c),
        forall|i: int|
            0 <= i < areas.len() && links.contains_key(#[trigger] areas[i].area_id) && (forall|
                j: int,
            | i < j < areas.len() ==> areas[j].area_id != areas[i].area_id) ==> links[areas[
                i].area_id].take(
                areas[i].connections@.filter(|c: AreaId| links.dom().contains(c)).len() as int,
            ) == areas[i].connections@.filter(|c: AreaId| links.dom().contains(c)),
{
    let ids = area_ids(areas);
    assert forall|id: AreaId| #[trigger] links.contains_key(id) <==> exists|i: int|
        0 <= i < areas.len() && areas[i].area_id == id && areas[i].has_corners by {
        if links.contains_key(id) {
            assert(listed_before(areas, areas.len() as int, id));
        }
        if exists|i: int| 0 <= i < areas.len() && areas[i].area_id == id && areas[i].has_corners {
            let i = choose|i: int| 0 <= i < areas.len() && areas[i].area_id == id && areas[i].has_corners;
            assert(listed_before(areas, areas.len() as int, id));
        }
    }
    assert forall|i: int|
        0 <= i < areas.len() && links.contains_key(#[trigger] areas[i].area_id) && (forall|j: int|
            i < j < areas.len() ==> areas[j].area_id != areas[i].area_id) implies links[areas[
        i].area_id].take(
        areas[i].connections@.filter(|c: AreaId| links.dom().contains(c)).len() as int,
    ) == areas[i].connections@.filter(|c: AreaId| links.dom().contains(c)) && (forall|c: AreaId|
        areas[i].connections@.contains(c) && links.contains_key(c) ==> links[areas[
        i].area_id].contains(c)) by {
        let a = areas[i].area_id;
        lemma_last_listing(areas, i);
        lemma_known_only_filter(areas[i].connections@, ids);
        lemma_known_only(areas[i].connections@, ids);
        assert(links.dom() == ids);
        let f = forward_links(areas, a);
        let r = reverse_links(areas, areas.len(), a);
        assert(links[a] == f + r);
        assert((f + r).take(f.len() as int) =~= f);
        assert forall|c: AreaId| areas[i].connections@.contains(c) && links.contains_key(c) implies links[
            a].contains(c) by {
            assert(f.contains(c));
            let t = choose|t: int| 0 <= t < f.len() && f[t] == c;
            assert((f + r)[t] == c);
        }
    }
}

/// A sequence holds `y` exactly when its first `n` elements or the rest do.
proof fn lemma_split_contains(l: Seq<AreaId>, n: int, y: AreaId)
    requires
        0 <= n <= l.len(),
    ensures
        l.contains(y) <==> l.take(n).contains(y) || l.skip(n).contains(y),
{
    if l.contains(y) {
        let i = choose|i: int| 0 <= i < l.len() && l[i] == y;
        if i < n {
            assert(l.take(n)[i] == y);
        } else {
            assert(l.skip(n)[i - n] == y);
        }
    }
    if l.take(n).contains(y) {
        let i = choose|i: int| 0 <= i < n && l.take(n)[i] == y;
        assert(l[i] == y);
    }
    if l.skip(n).contains(y) {
        let i = choose|i: int| 0 <= i < l.len() - n && l.skip(n)[i] == y;
        assert(l[i + n] == y);
    }
}

/// Nav graph laws: every neighbour of an area is itself an area of the mesh,
/// and links are bidirectional (if `b` neighbours `a`, then `a` neighbours
/// `b`), whatever direction the nav file listed them in.
pub proof fn lemma_nav_graph_bidirectional(areas: Seq<AreaLinks>, links: Map<AreaId, Seq<AreaId>>)
    requires
        is_nav_graph(areas, links),
    ensures
        forall|a: AreaId, b: AreaId|
            links.contains_key(a) && #[trigger] links[a].contains(b) ==> links.contains_key(b),
        forall|a: AreaId, b: AreaId|
            links.contains_key(a) && #[trigger] links[a].contains(b) ==> links[b].contains(a),
{
    let ids = area_ids(areas);
    let n = areas.len();
    assert forall|x: AreaId| ids.contains(x) implies seen_before(areas, n as int, x) by {
        let i = choose|i: int| 0 <= i < n && #[trigger] areas[i].area_id == x && areas[i].has_corners;
        assert(areas[i].area_id == x);
    }
    assert forall|a: AreaId, b: AreaId| links.contains_key(a) && #[trigger] links[a].contains(b) implies links.contains_key(b)
        && links[b].contains(a) by {
        let fa = forward_links(areas, a);
        let fb = forward_links(areas, b);
        let ra = reverse_links(areas, n, a);
        let rb = reverse_links(areas, n, b);
        lemma_known_only(last_links(areas, a), ids);
        lemma_known_only(last_links(areas, b), ids);
        lemma_reverse_links(areas, n, a);
        lemma_reverse_links(areas, n, b);
        assert((fa + ra).take(fa.len() as int) =~= fa);
        assert((fa + ra).skip(fa.len() as int) =~= ra);
        lemma_split_contains(fa + ra, fa.len() as int, b);
        assert(ids.contains(b));
        assert((fb + rb).take(fb.len() as int) =~= fb);
        assert((fb + rb).skip(fb.len() as int) =~= rb);
        lemma_split_contains(fb + rb, fb.len() as int, a);
        if fa.contains(b) {
            if !fb.contains(a) {
                assert(needs_reverse(areas, a, b));
                assert(rb.contains(a));
            }
        } else {
            assert(ra.contains(b));
        }
    }
}

impl NavGraph {
    /// Whether `id` is an area of the graph.
    pub fn contains(&self, id: AreaId) -> (r: bool)
        ensures
            r == self.view().contains_key(id),
    {
        self.links.contains_key(&id)
    }

    /// The neighbours of area `id`, if it is an area of the graph.
    pub fn neighbors(&self, id: AreaId) -> (r: Option<&Vec<AreaId>>)
        ensures
            r matches Some(v) ==> self.view().contains_key(id) && v@ == self.view()[id],
            r is None ==> !self.view().contains_key(id),
    {
        self.links.get(&id)
    }
}

} // verus!

verus! {

/// Largest edge cost and heuristic value a search accepts (costs are
/// hundredths of world units).
pub const MAX_STEP_COST: u64 = 0xFFFF_FFFF;

/// Largest number of areas a search accepts.
pub const MAX_SEARCH_AREAS: usize = 0x4000_0000;

/// The integer costs of one path query: for each area, its outgoing links
/// with their costs and the estimated cost from it to the goal.
pub struct SearchGraph {
    areas: HashMap<AreaId, (u64, Vec<(AreaId, u64)>)>,
    oversized: usize,
}

/// An area's estimate and every cost of its links are at most `MAX_STEP_COST`.
pub open spec fn entry_fits(heuristic: u64, links: Seq<(AreaId, u64)>) -> bool {
    &&& heuristic <= MAX_STEP_COST
    &&& forall|i: int| 0 <= i < links.len() ==> #[trigger] links[i].1 <= MAX_STEP_COST
}

/// Whether an area's estimate and link costs are at most `MAX_STEP_COST`.
fn fits_bounds(heuristic: u64, links: &Vec<(AreaId, u64)>) -> (r: bool)
    ensures
        r == entry_fits(heuristic, links@),
{
    if heuristic > MAX_STEP_COST {
        return false;
    }
    let mut i: usize = 0;
    while i < links.len()
        invariant
            i <= links.len(),
            forall|j: int| 0 <= j < i ==> #[trigger] links@[j].1 <= MAX_STEP_COST,
        decreases links.len() - i,
    {
        if links[i].1 > MAX_STEP_COST {
            return false;
        }
        i = i + 1;
    }
    true
}

/// The links out of `n` that lead to areas of the query, with their costs.
pub open spec fn edges_from(succ: Map<AreaId, Seq<(AreaId, u64)>>, n: AreaId) -> Seq<(AreaId, u64)> {
    if succ.contains_key(n) {
        succ[n].filter(|e: (AreaId, u64)| succ.contains_key(e.0))
    } else {
        Seq::empty()
    }
}

/// There is a link from `a` to `b`.
pub open spec fn is_edge(succ: Map<AreaId, Seq<(AreaId, u64)>>, a: AreaId, b: AreaId) -> bool {
    exists|i: int| 0 <= i < edges_from(succ, a).len() && #[trigger] edges_from(succ, a)[i].0 == b
}

/// `p` is a non-empty walk along links.
pub open spec fn is_walk(succ: Map<AreaId, Seq<(AreaId, u64)>>, p: Seq<AreaId>) -> bool {
    &&& p.len() > 0
    &&& forall|i: int| 0 <= i < p.len() - 1 ==> is_edge(succ, #[trigger] p[i], p[i + 1])
}

/// Some walk leads from `start` to `goal`.
pub open spec fn reachable(succ: Map<AreaId, Seq<(AreaId, u64)>>, start: AreaId, goal: AreaId) -> bool {
    exists|p: Seq<AreaId>| #[trigger] is_walk(succ, p) && p[0] == start && p.last() == goal
}

/// `costs` prices the walk `p`: `costs[i]` is the cost of a link from `p[i]`
/// to `p[i + 1]`.
pub open spec fn is_priced_walk(
    succ: Map<AreaId, Seq<(AreaId, u64)>>,
    p: Seq<AreaId>,
    costs: Seq<u64>,
) -> bool {
    &&& p.len() > 0
    &&& costs.len() + 1 == p.len()
    &&& forall|i: int|
        #![trigger costs[i]]
        0 <= i < costs.len() ==> edges_from(succ, p[i]).contains((p[i + 1], costs[i]))
}

/// The sum of `costs`.
pub open spec fn total(costs: Seq<u64>) -> int
    decreases costs.len(),
{
    if costs.len() == 0 {
        0
    } else {
        total(costs.drop_last()) + costs.last()
    }
}

/// The estimate of every area never exceeds the cost of any walk from it to
/// `goal`.
pub open spec fn admissible(
    succ: Map<AreaId, Seq<(AreaId, u64)>>,
    heuristic: Map<AreaId, u64>,
    goal: AreaId,
) -> bool {
    forall|q: Seq<AreaId>, costs: Seq<u64>|
        #[trigger] is_priced_walk(succ, q, costs) && q.last() == goal && heuristic.contains_key(q[0])
            ==> heuristic[q[0]] <= total(costs)
}

/// `p` is a walk of cost `cost` (for some choice of its links), and no walk
/// from `start` to `goal` costs less.
pub open spec fn is_shortest_walk(
    succ: Map<AreaId, Seq<(AreaId, u64)>>,
    p: Seq<AreaId>,
    cost: int,
    start: AreaId,
    goal: AreaId,
) -> bool {
    &&& exists|costs: Seq<u64>| #[trigger] is_priced_walk(succ, p, costs) && total(costs) == cost
    &&& forall|q: Seq<AreaId>, costs: Seq<u64>|
        #[trigger] is_priced_walk(succ, q, costs) && q[0] == start && q.last() == goal ==> cost
            <= total(costs)
}

/// What `pathfinding::directed::astar::astar` returns for a search from
/// `start` to `goal` whose successors are `edges_from(successors, _)` and
/// whose heuristic is `heuristic` (with `u64::MAX` for unknown areas).
pub uninterp spec fn astar_search(
    successors: Map<AreaId, Seq<(AreaId, u64)>>,
    heuristic: Map<AreaId, u64>,
    start: AreaId,
    goal: AreaId,
) -> Option<(Seq<AreaId>, u64)>;

/// The path and cost of a search result, as values.
pub open spec fn result_view(r: Option<(Vec<AreaId>, u64)>) -> Option<(Seq<AreaId>, u64)> {
    match r {
        Some((p, c)) => Some((p@, c)),
        None => None,
    }
}

impl SearchGraph {
    /// Outgoing links of each area, as given.
    pub closed spec fn successor_lists(&self) -> Map<AreaId, Seq<(AreaId, u64)>> {
        Map::new(|k: AreaId| self.areas@.contains_key(k), |k: AreaId| self.areas@[k].1@)
    }

    /// Estimated remaining cost of each area.
    pub closed spec fn heuristics(&self) -> Map<AreaId, u64> {
        Map::new(|k: AreaId| self.areas@.contains_key(k), |k: AreaId| self.areas@[k].0)
    }

    /// The areas whose estimate or some link cost exceeds `MAX_STEP_COST`.
    spec fn oversized_ids(&self) -> Set<AreaId> {
        Set::new(
            |k: AreaId|
                self.areas@.contains_key(k) && !entry_fits(self.areas@[k].0, self.areas@[k].1@),
        )
    }

    /// The count of oversized areas is kept exact.
    #[verifier::type_invariant]
    spec fn inv(self) -> bool {
        self.oversized == self.oversized_ids().len()
    }

    /// Every cost and estimate is at most `MAX_STEP_COST` and there are at
    /// most `MAX_SEARCH_AREAS` areas, so no path cost of a search overflows.
    pub open spec fn within_bounds(&self) -> bool {
        &&& self.successor_lists().dom().len() <= MAX_SEARCH_AREAS
        &&& forall|k: AreaId, i: int|
            #![trigger self.successor_lists()[k][i]]
            self.successor_lists().contains_key(k) && 0 <= i < self.successor_lists()[k].len()
                ==> self.successor_lists()[k][i].1 <= MAX_STEP_COST
        &&& forall|k: AreaId| #[trigger]
            self.heuristics().contains_key(k) ==> self.heuristics()[k] <= MAX_STEP_COST
    }

    /// A query with no areas.
    pub fn new() -> (g: SearchGraph)
        ensures
            g.successor_lists() == Map::<AreaId, Seq<(AreaId, u64)>>::empty(),
            g.heuristics() == Map::<AreaId, u64>::empty(),
            g.within_bounds(),
    {
        let areas: HashMap<AreaId, (u64, Vec<(AreaId, u64)>)> = HashMap::new();
        proof {
            let ghost probe = SearchGraph { areas, oversized: 0 };
            assert(probe.oversized_ids() =~= Set::<AreaId>::empty());
        }
        let g = SearchGraph { areas, oversized: 0 };
        proof {
            assert(g.successor_lists() =~= Map::<AreaId, Seq<(AreaId, u64)>>::empty());
            assert(g.heuristics() =~= Map::<AreaId, u64>::empty());
            assert(g.successor_lists().dom() =~= Set::<AreaId>::empty());
        }
        g
    }

    /// Adds (or replaces) area `id` with its estimate and outgoing links. A
    /// query within bounds stays within bounds when the new estimate and
    /// costs are at most `MAX_STEP_COST` and the area was already there or
    /// there is room for one more.
    pub fn add_area(&mut self, id: AreaId, heuristic: u64, successors: Vec<(AreaId, u64)>)
        ensures
            final(self).successor_lists() == old(self).successor_lists().insert(id, successors@),
            final(self).heuristics() == old(self).heuristics().insert(id, heuristic),
            old(self).within_bounds() && entry_fits(heuristic, successors@) && (old(
                self,
            ).successor_lists().contains_key(id) || old(self).successor_lists().dom().len()
                < MAX_SEARCH_AREAS) ==> final(self).within_bounds(),
    {
        proof {
            use_type_invariant(&*self);
        }
        let was_oversized = match self.areas.get(&id) {
            Some(entry) => !fits_bounds(entry.0, &entry.1),
            None => false,
        };
        let now_oversized = !fits_bounds(heuristic, &successors);
        let ghost old_lists = self.successor_lists();
        let ghost old_heur = self.heuristics();
        let ghost old_bad = self.oversized_ids();
        let ghost old_areas = self.areas@;
        let mut taken = SearchGraph::new();
        std::mem::swap(self, &mut taken);
        let SearchGraph { mut areas, oversized } = taken;
        areas.insert(id, (heuristic, successors));
        let count_now = areas.len();
        let ghost new_bad = Set::new(
            |k: AreaId| areas@.contains_key(k) && !entry_fits(areas@[k].0, areas@[k].1@),
        );
        proof {
            assert(old_areas.dom().finite());
            assert(areas@.dom().finite());
            vstd::set_lib::lemma_len_subset(old_bad, old_areas.dom());
            vstd::set_lib::lemma_len_subset(new_bad, areas@.dom());
            assert(old_bad.remove(id) =~= new_bad.remove(id));
            if was_oversized {
                assert(old_bad.contains(id));
            } else {
                assert(!old_bad.contains(id));
                assert(old_bad.remove(id) =~= old_bad);
            }
        }
        let rest = if was_oversized {
            oversized - 1
        } else {
            oversized
        };
        proof {
            assert(rest == new_bad.remove(id).len());
            if now_oversized {
                assert(new_bad.contains(id));
                assert(new_bad.remove(id).insert(id) =~= new_bad);
                assert(new_bad.len() <= areas@.dom().len());
                assert(areas@.dom().len() == areas@.len());
            } else {
                assert(new_bad.remove(id) =~= new_bad);
            }
        }
        let total_oversized = if now_oversized {
            rest + 1
        } else {
            rest
        };
        *self = SearchGraph { areas, oversized: total_oversized };
        proof {
            assert(self.oversized_ids() =~= new_bad);
            assert(self.successor_lists() =~= old_lists.insert(id, self.areas@[id].1@));
            assert(self.heuristics() =~= old_heur.insert(id, heuristic));
            assert(old_lists.dom() =~= old_areas.dom());
            assert(self.successor_lists().dom() =~= old_lists.dom().insert(id));
            if !old_lists.contains_key(id) {
                assert(old_lists.dom().insert(id).len() == old_lists.dom().len() + 1);
            } else {
                assert(old_lists.dom().insert(id) =~= old_lists.dom());
            }
        }
    }

    /// Whether the query is within the cost and size bounds of a search.
    pub fn is_within_bounds(&self) -> (r: bool)
        ensures
            r == self.within_bounds(),
    {
        proof {
            use_type_invariant(self);
            assert(self.successor_lists().dom() =~= self.areas@.dom());
            assert(self.areas@.dom().finite());
            vstd::set_lib::lemma_len_subset(self.oversized_ids(), self.areas@.dom());
            if self.oversized == 0 {
                vstd::set_lib::lemma_set_empty_equivalency_len(self.oversized_ids());
                assert forall|k: AreaId| self.areas@.contains_key(k) implies entry_fits(
                    self.areas@[k].0,
                    self.areas@[k].1@,
                ) by {
                    assert(!self.oversized_ids().contains(k));
                }
                assert forall|k: AreaId, i: int|
                    self.successor_lists().contains_key(k) && 0 <= i < self.successor_lists()[k].len()
                        implies #[trigger] self.successor_lists()[k][i].1 <= MAX_STEP_COST by {
                    assert(entry_fits(self.areas@[k].0, self.areas@[k].1@));
                    assert(self.successor_lists()[k][i] == self.areas@[k].1@[i]);
                }
                assert forall|k: AreaId| #[trigger]
                    self.heuristics().contains_key(k) implies self.heuristics()[k] <= MAX_STEP_COST by {
                    assert(entry_fits(self.areas@[k].0, self.areas@[k].1@));
                }
            } else {
                vstd::set_lib::lemma_set_empty_equivalency_len(self.oversized_ids());
                let k = choose|k: AreaId| self.oversized_ids().contains(k);
                assert(self.successor_lists().contains_key(k));
                if self.areas@[k].0 <= MAX_STEP_COST {
                    let i = choose|i: int|
                        0 <= i < self.areas@[k].1@.len() && !(self.areas@[k].1@[i].1
                            <= MAX_STEP_COST);
                    assert(self.successor_lists()[k] == self.areas@[k].1@);
                    assert(self.successor_lists()[k][i] == self.areas@[k].1@[i]);
                    assert(!(self.successor_lists()[k][i].1 <= MAX_STEP_COST));
                    assert(!self.within_bounds());
                } else {
                    assert(self.heuristics().contains_key(k));
                    assert(self.heuristics()[k] == self.areas@[k].0);
                    assert(!self.within_bounds());
                }
            }
        }
        let count = self.areas.len();
        proof {
            assert(count == self.areas@.len());
            assert(self.areas@.len() == self.successor_lists().dom().len());
        }
        self.oversized == 0 && count <= MAX_SEARCH_AREAS
    }

    /// Whether `id` is an area of the query.
    pub fn contains(&self, id: AreaId) -> (r: bool)
        ensures
            r == self.successor_lists().contains_key(id),
    {
        self.areas.contains_key(&id)
    }

    /// The links out of `n` that lead to areas of the query (none for an
    /// unknown area).
    pub fn successors_of(&self, n: AreaId) -> (r: Vec<(AreaId, u64)>)
        ensures
            r@ == edges_from(self.successor_lists(), n),
    {
        let ghost sl = self.successor_lists();
        let mut r: Vec<(AreaId, u64)> = Vec::new();
        match self.areas.get(&n) {
            None => {},
            Some(entry) => {
                let list = &entry.1;
                let ghost pred = |e: (AreaId, u64)| sl.contains_key(e.0);
                assert(list@ == sl[n]);
                let mut i: usize = 0;
                while i < list.len()
                    invariant
                        i <= list.len(),
                        sl == self.successor_lists(),
                        pred == (|e: (AreaId, u64)| sl.contains_key(e.0)),
                        r@ == list@.take(i as int).filter(pred),
                    decreases list.len() - i,
                {
                    proof {
                        reveal_with_fuel(Seq::<_>::filter, 1);
                        assert(list@.take(i + 1).drop_last() =~= list@.take(i as int));
                    }
                    let e = list[i];
                    if self.areas.contains_key(&e.0) {
                        r.push(e);
                    }
                    i = i + 1;
                }
                proof {
                    assert(list@.take(list.len() as int) =~= list@);
                }
            },
        }
        r
    }

    /// The estimated remaining cost of `n` (`u64::MAX` for an unknown area).
    pub fn heuristic_of(&self, n: AreaId) -> (r: u64)
        ensures
            self.heuristics().contains_key(n) ==> r == self.heuristics()[n],
            !self.heuristics().contains_key(n) ==> r == u64::MAX,
    {
        match self.areas.get(&n) {
            Some(entry) => entry.0,
            None => u64::MAX,
        }
    }
}

/// Whether `n` is the goal of the search.
fn is_goal(n: AreaId, goal: AreaId) -> (r: bool)
    ensures
        r == (n == goal),
{
    n == goal
}

} // verus!

verus! {

/// Runs `pathfinding::directed::astar::astar` from `start`, with the
/// successors given by `graph.successors_of`, the heuristic given by
/// `graph.heuristic_of`, and success when the goal area is reached.
///
/// Claimed of the crate's function: the result is `astar_search` of the
/// query; a returned path starts at `start`, ends at `goal`, follows links and
/// repeats no area (the documentation says the path comprises both ends and
/// never includes a node twice); and there is a result exactly when some walk
/// leads from `start` to `goal` (the search only gives up once every reachable
/// area was explored). When no estimate exceeds the cost of any walk from its
/// area to the goal (`admissible`), the returned path is a shortest one and
/// the returned cost is its cost (the documentation promises the shortest
/// path with its total cost, for a heuristic not greater than the real cost).
/// Not claimed: anything of the cost, or of the path's length, for a heuristic
/// that overestimates. The bounds of `within_bounds` keep every cost sum the
/// search forms below `u64::MAX`.
#[verifier::external_body]
fn run_astar(graph: &SearchGraph, start: AreaId, goal: AreaId) -> (r: Option<(Vec<AreaId>, u64)>)
    requires
        graph.within_bounds(),
    ensures
        result_view(r) == astar_search(graph.successor_lists(), graph.heuristics(), start, goal),
        r matches Some((p, _)) ==> is_walk(graph.successor_lists(), p@) && p@[0] == start
            && p@.last() == goal && no_duplicates(p@),
        r is Some <==> reachable(graph.successor_lists(), start, goal),
        admissible(graph.successor_lists(), graph.heuristics(), goal) ==> (r matches Some((p, c))
            ==> is_shortest_walk(graph.successor_lists(), p@, c as int, start, goal)),
{
    pathfinding::prelude::astar(
        &start,
        |n: &AreaId| graph.successors_of(*n),
        |n: &AreaId| graph.heuristic_of(*n),
        |n: &AreaId| is_goal(*n, goal),
    )
}

/// The path of a search result, without its cost.
pub fn path_of(result: Option<(Vec<AreaId>, u64)>) -> (r: Option<Vec<AreaId>>)
    ensures
        result matches Some((p, _)) ==> r matches Some(q) && q@ == p@,
        result is None ==> r is None,
{
    match result {
        Some((p, _)) => Some(p),
        None => None,
    }
}

/// A* path search from area `start` to area `goal`: the areas of a path from
/// `start` to `goal`, both included, or none when `goal` is not an area of the
/// query or cannot be reached. With estimates that never overestimate, the
/// path is a shortest one.
pub fn find_path(graph: &SearchGraph, start: AreaId, goal: AreaId) -> (r: Option<Vec<AreaId>>)
    requires
        graph.within_bounds(),
    ensures
        !graph.successor_lists().contains_key(goal) ==> r is None,
        graph.successor_lists().contains_key(goal) ==> match astar_search(
            graph.successor_lists(),
            graph.heuristics(),
            start,
            goal,
        ) {
            Some((p, _)) => r matches Some(q) && q@ == p,
            None => r is None,
        },
        r matches Some(p) ==> is_walk(graph.successor_lists(), p@) && p@[0] == start && p@.last()
            == goal && no_duplicates(p@),
        r is Some <==> graph.successor_lists().contains_key(goal) && reachable(
            graph.successor_lists(),
            start,
            goal,
        ),
        admissible(graph.successor_lists(), graph.heuristics(), goal) ==> (r matches Some(p)
            ==> exists|cost: int| #[trigger]
                is_shortest_walk(graph.successor_lists(), p@, cost, start, goal)),
{
    if !graph.contains(goal) {
        return None;
    }
    let result = run_astar(graph, start, goal);
    proof {
        if let Some((p, c)) = &result {
            if admissible(graph.successor_lists(), graph.heuristics(), goal) {
                assert(is_shortest_walk(graph.successor_lists(), p@, *c as int, start, goal));
            }
        }
    }
    path_of(result)
}

} // verus!

verus! {

/// Draws a number from `0..bound` with `rand::rng().random_range`.
///
/// Claimed: the result is below `bound` (the range is non-empty, so the call
/// does not panic). Nothing is claimed of which number comes out: it is
/// random, and two calls may differ.
#[verifier::external_body]
fn random_below(bound: usize) -> (r: usize)
    requires
        bound > 0,
    ensures
        r < bound,
{
    rand::rng().random_range(0..bound)
}

/// Picks a random goal among the given areas; none when there are none.
pub fn pick_goal(areas: &Vec<AreaId>) -> (r: Option<AreaId>)
    ensures
        r is None <==> areas@.len() == 0,
        r matches Some(g) ==> areas@.contains(g),
{
    if areas.len() == 0 {
        return None;
    }
    let i = random_below(areas.len());
    assert(areas@[i as int] == areas[i as int]);
    Some(areas[i])
}

/// One point of a smoothed path, in terms of the waypoints it is computed from.
#[derive(Debug, Clone, Copy, PartialEq, Eq, Structural)]
pub enum SplinePoint {
    /// The Catmull-Rom point between waypoints `p1` and `p2` at parameter
    /// `step / segments`, with control waypoints `p0` and `p3`.
    Curve { p0: usize, p1: usize, p2: usize, p3: usize, step: usize },
    /// A waypoint itself, by its index.
    Waypoint(usize),
}

/// The points sampled between waypoints `i` and `i + 1` (of `n`).
pub open spec fn segment_points(n: nat, segments: nat, i: nat) -> Seq<SplinePoint> {
    Seq::new(
        segments,
        |s: int|
            SplinePoint::Curve {
                p0: if i == 0 {
                    0
                } else {
                    (i - 1) as usize
                },
                p1: i as usize,
                p2: (i + 1) as usize,
                p3: if i + 2 < n {
                    (i + 2) as usize
                } else {
                    (n - 1) as usize
                },
                step: s as usize,
            },
    )
}

/// The points sampled between the first `m` consecutive waypoint pairs.
pub open spec fn curve_points(n: nat, segments: nat, m: nat) -> Seq<SplinePoint>
    decreases m,
{
    if m == 0 {
        Seq::empty()
    } else {
        curve_points(n, segments, (m - 1) as nat) + segment_points(n, segments, (m - 1) as nat)
    }
}

/// The sampling plan of Catmull-Rom smoothing of `n` waypoints: fewer than two
/// waypoints are kept as they are; otherwise `segments` points per pair of
/// consecutive waypoints (the first and last waypoint doubling as their own
/// outer control points), then the last waypoint.
pub open spec fn smoothing_plan(n: nat, segments: nat) -> Seq<SplinePoint> {
    if n < 2 {
        Seq::new(n, |i: int| SplinePoint::Waypoint(i as usize))
    } else {
        curve_points(n, segments, (n - 1) as nat).push(SplinePoint::Waypoint((n - 1) as usize))
    }
}

/// Lists, for a path of `n` waypoints, which point of the smoothed path is
/// computed from which waypoints.
///
/// With two or more waypoints, the point at position `k` below
/// `(n - 1) * segments` is the curve point number `k % segments` between
/// waypoint `i = k / segments` and the next one, with control waypoints `i - 1`
/// (or `0` for the first pair) and `i + 2` (or the last waypoint at the end);
/// the last point is the last waypoint.
pub fn catmull_rom_plan(n: usize, segments: usize) -> (plan: Vec<SplinePoint>)
    ensures
        plan@ == smoothing_plan(n as nat, segments as nat),
        n < 2 ==> plan@.len() == n && forall|k: int|
            0 <= k < n ==> #[trigger] plan@[k] == SplinePoint::Waypoint(k as usize),
        n >= 2 ==> plan@.len() == (n - 1) * segments + 1,
        n >= 2 ==> plan@[plan@.len() - 1] == SplinePoint::Waypoint((n - 1) as usize),
        n >= 2 ==> forall|k: int|
            0 <= k < (n - 1) * segments ==> #[trigger] plan@[k] == (SplinePoint::Curve {
                p0: (if k / (segments as int) == 0 {
                    0
                } else {
                    k / (segments as int) - 1
                }) as usize,
                p1: (k / (segments as int)) as usize,
                p2: (k / (segments as int) + 1) as usize,
                p3: (if k / (segments as int) + 2 < n {
                    k / (segments as int) + 2
                } else {
                    n - 1
                }) as usize,
                step: (k % (segments as int)) as usize,
            }),
{
    proof {
        lemma_plan_points(n as nat, segments as nat);
    }
    let mut plan: Vec<SplinePoint> = Vec::new();
    if n < 2 {
        let mut i: usize = 0;
        while i < n
            invariant
                n < 2,
                i <= n,
                plan@ == Seq::new(i as nat, |j: int| SplinePoint::Waypoint(j as usize)),
            decreases n - i,
        {
            plan.push(SplinePoint::Waypoint(i));
            proof {
                assert(plan@ =~= Seq::new((i + 1) as nat, |j: int| SplinePoint::Waypoint(j as usize)));
            }
            i = i + 1;
        }
        return plan;
    }
    let mut i: usize = 0;
    while i < n - 1
        invariant
            n >= 2,
            i <= n - 1,
            plan@ == curve_points(n as nat, segments as nat, i as nat),
        decreases n - 1 - i,
    {
        let p0 = if i == 0 {
            0
        } else {
            i - 1
        };
        let p3 = if i + 2 < n {
            i + 2
        } else {
            n - 1
        };
        let ghost base = plan@;
        let mut s: usize = 0;
        while s < segments
            invariant
                n >= 2,
                i < n - 1,
                s <= segments,
                p0 == (if i == 0 { 0 } else { i - 1 }),
                p3 == (if i + 2 < n { i + 2 } else { n - 1 }),
                plan@ == base + segment_points(n as nat, segments as nat, i as nat).take(s as int),
            decreases segments - s,
        {
            plan.push(SplinePoint::Curve { p0, p1: i, p2: i + 1, p3, step: s });
            proof {
                assert(plan@ =~= base + segment_points(n as nat, segments as nat, i as nat).take(
                    s + 1,
                ));
            }
            s = s + 1;
        }
        proof {
            assert(segment_points(n as nat, segments as nat, i as nat).take(segments as int)
                =~= segment_points(n as nat, segments as nat, i as nat));
        }
        i = i + 1;
    }
    plan.push(SplinePoint::Waypoint(n - 1));
    plan
}

/// Laws of the smoothing plan: with two or more waypoints it has `segments`
/// points per consecutive pair plus one, it ends at the last waypoint, and
/// every curve point lies between a waypoint and the next, with control
/// points at most one waypoint away on each side.
pub proof fn lemma_smoothing_plan(n: nat, segments: nat)
    requires
        2 <= n <= usize::MAX,
        segments <= usize::MAX,
    ensures
        smoothing_plan(n, segments).len() == (n - 1) * segments + 1,
        smoothing_plan(n, segments).last() == SplinePoint::Waypoint((n - 1) as usize),
        forall|k: int|
            0 <= k < smoothing_plan(n, segments).len() - 1 ==> (#[trigger] smoothing_plan(
                n,
                segments,
            )[k] matches SplinePoint::Curve { p0, p1, p2, p3, step } && p2 == p1 + 1 && p2 < n
                && p0 <= p1 && p1 <= p0 + 1 && p2 <= p3 && p3 <= p2 + 1 && p3 < n && step
                < segments),
{
    lemma_curve_points(n, segments, (n - 1) as nat);
}

/// Where each point of the smoothing plan comes from, by position.
proof fn lemma_plan_points(n: nat, segments: nat)
    requires
        n <= usize::MAX,
        segments <= usize::MAX,
    ensures
        n < 2 ==> smoothing_plan(n, segments).len() == n && forall|k: int|
            0 <= k < n ==> #[trigger] smoothing_plan(n, segments)[k] == SplinePoint::Waypoint(
                k as usize,
            ),
        n >= 2 ==> smoothing_plan(n, segments).len() == (n - 1) * segments + 1,
        n >= 2 ==> smoothing_plan(n, segments)[smoothing_plan(n, segments).len() - 1]
            == SplinePoint::Waypoint((n - 1) as usize),
        n >= 2 ==> forall|k: int|
            0 <= k < (n - 1) * segments ==> #[trigger] smoothing_plan(n, segments)[k] == (
            SplinePoint::Curve {
                p0: (if k / (segments as int) == 0 {
                    0
                } else {
                    k / (segments as int) - 1
                }) as usize,
                p1: (k / (segments as int)) as usize,
                p2: (k / (segments as int) + 1) as usize,
                p3: (if k / (segments as int) + 2 < n {
                    k / (segments as int) + 2
                } else {
                    n - 1
                }) as usize,
                step: (k % (segments as int)) as usize,
            }),
{
    if n >= 2 {
        lemma_curve_points(n, segments, (n - 1) as nat);
        lemma_curve_points_at(n, segments, (n - 1) as nat);
        let c = curve_points(n, segments, (n - 1) as nat);
        assert forall|k: int| 0 <= k < (n - 1) * segments implies #[trigger] smoothing_plan(
            n,
            segments,
        )[k] == c[k] by {}
    }
}

/// The point at position `k` of the first `m` segments is point `k % segments`
/// of segment `k / segments`.
proof fn lemma_curve_points_at(n: nat, segments: nat, m: nat)
    requires
        m <= n - 1,
        2 <= n <= usize::MAX,
        segments <= usize::MAX,
    ensures
        forall|k: int|
            0 <= k < m * segments ==> #[trigger] curve_points(n, segments, m)[k] == segment_points(
                n,
                segments,
                (k / (segments as int)) as nat,
            )[k % (segments as int)],
    decreases m,
{
    if m > 0 {
        let m1 = (m - 1) as nat;
        lemma_curve_points_at(n, segments, m1);
        lemma_curve_points(n, segments, m1);
        assert(m * segments == m1 * segments + segments) by (nonlinear_arith)
            requires
                m == m1 + 1,
        ;
        let prev = curve_points(n, segments, m1);
        assert forall|k: int| 0 <= k < m * segments implies #[trigger] curve_points(
            n,
            segments,
            m,
        )[k] == segment_points(n, segments, (k / (segments as int)) as nat)[k % (
        segments as int)] by {
            if segments == 0 {
                assert(m * segments == 0) by (nonlinear_arith)
                    requires
                        segments == 0,
                ;
            }
            if k >= prev.len() {
                let s = k - m1 * segments;
                vstd::arithmetic::div_mod::lemma_fundamental_div_mod_converse(
                    k,
                    segments as int,
                    m1 as int,
                    s,
                );
                assert(curve_points(n, segments, m)[k] == segment_points(n, segments, m1)[s]);
            } else {
                assert(curve_points(n, segments, m)[k] == prev[k]);
            }
        }
    } else {
        assert(m * segments == 0) by (nonlinear_arith)
            requires
                m == 0,
        ;
    }
}

/// Length and shape of the first `m` segments of points.
proof fn lemma_curve_points(n: nat, segments: nat, m: nat)
    requires
        m <= n - 1,
        2 <= n <= usize::MAX,
        segments <= usize::MAX,
    ensures
        curve_points(n, segments, m).len() == m * segments,
        forall|k: int|
            0 <= k < curve_points(n, segments, m).len() ==> (#[trigger] curve_points(
                n,
                segments,
                m,
            )[k] matches SplinePoint::Curve { p0, p1, p2, p3, step } && p2 == p1 + 1 && p2 < n
                && p0 <= p1 && p1 <= p0 + 1 && p2 <= p3 && p3 <= p2 + 1 && p3 < n && step
                < segments),
    decreases m,
{
    if m == 0 {
        assert(m * segments == 0) by (nonlinear_arith)
            requires
                m == 0,
        ;
    } else {
        let m1 = (m - 1) as nat;
        lemma_curve_points(n, segments, m1);
        assert(m * segments == m1 * segments + segments) by (nonlinear_arith)
            requires
                m == m1 + 1,
        ;
        let prev = curve_points(n, segments, m1);
        let seg = segment_points(n, segments, m1);
        assert forall|k: int| 0 <= k < curve_points(n, segments, m).len() implies (
        #[trigger] curve_points(n, segments, m)[k] matches SplinePoint::Curve {
            p0,
            p1,
            p2,
            p3,
            step,
        } && p2 == p1 + 1 && p2 < n && p0 <= p1 && p1 <= p0 + 1 && p2 <= p3 && p3 <= p2 + 1 && p3
            < n && step < segments) by {
            if k < prev.len() {
                assert(curve_points(n, segments, m)[k] == prev[k]);
            } else {
                assert(curve_points(n, segments, m)[k] == seg[k - prev.len()]);
            }
        }
    }
}

} // verus!
