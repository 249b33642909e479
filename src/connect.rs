use vstd::prelude::*;

use crate::grid::{cell_index, in_bounds, lemma_index_in_range, lemma_index_injective};

verus! {

/// Cells are 4-adjacent when they differ by one step along one axis.
pub open spec fn adjacent(a: (int, int), b: (int, int)) -> bool {
    (a.0 == b.0 && (a.1 - b.1 == 1 || b.1 - a.1 == 1)) || (a.1 == b.1 && (a.0 - b.0 == 1 || b.0
        - a.0 == 1))
}

/// `s` holds every cell of `region` that is adjacent to one of its cells.
pub open spec fn closed_in(s: Set<(int, int)>, region: Set<(int, int)>) -> bool {
    forall|a: (int, int), b: (int, int)|
        #![trigger s.contains(a), region.contains(b)]
        s.contains(a) && region.contains(b) && adjacent(a, b) ==> s.contains(b)
}

/// `c` can be reached from `seeds` by steps between adjacent cells of
/// `region`: it lies in every set that holds the seeds and is closed in the
/// region.
pub open spec fn reaches(region: Set<(int, int)>, seeds: Set<(int, int)>, c: (int, int)) -> bool {
    forall|s: Set<(int, int)>| #[trigger] closed_in(s, region) && seeds.subset_of(s) ==> s.contains(c)
}

/// Every cell that `seeds` reaches in `region`.
pub open spec fn reach_set(region: Set<(int, int)>, seeds: Set<(int, int)>) -> Set<(int, int)> {
    Set::new(|c: (int, int)| reaches(region, seeds, c))
}

/// The 4-connected component of `region` that holds `c`.
pub open spec fn component(region: Set<(int, int)>, c: (int, int)) -> Set<(int, int)> {
    reach_set(region, set![c])
}

pub proof fn lemma_seed_reaches(region: Set<(int, int)>, seeds: Set<(int, int)>, c: (int, int))
    requires
        seeds.contains(c),
    ensures
        reaches(region, seeds, c),
{
}

/// One step from a reached cell into the region is reached.
pub proof fn lemma_step_reaches(
    region: Set<(int, int)>,
    seeds: Set<(int, int)>,
    a: (int, int),
    b: (int, int),
)
    requires
        reaches(region, seeds, a),
        adjacent(a, b),
        region.contains(b),
    ensures
        reaches(region, seeds, b),
{
    assert forall|s: Set<(int, int)>| #[trigger]
        closed_in(s, region) && seeds.subset_of(s) implies s.contains(b) by {
        assert(s.contains(a));
    }
}

/// The reached cells are closed in the region.
pub proof fn lemma_reach_closed(region: Set<(int, int)>, seeds: Set<(int, int)>)
    ensures
        closed_in(reach_set(region, seeds), region),
{
    assert forall|a: (int, int), b: (int, int)|
        reach_set(region, seeds).contains(a) && region.contains(b) && adjacent(
            a,
            b,
        ) implies reach_set(region, seeds).contains(b) by {
        lemma_step_reaches(region, seeds, a, b);
    }
}

/// The reached cells lie in every closed set that holds the seeds.
pub proof fn lemma_reach_least(
    region: Set<(int, int)>,
    seeds: Set<(int, int)>,
    s: Set<(int, int)>,
)
    requires
        closed_in(s, region),
        seeds.subset_of(s),
    ensures
        reach_set(region, seeds).subset_of(s),
{
    assert forall|c: (int, int)| reach_set(region, seeds).contains(c) implies s.contains(c) by {
        assert(reaches(region, seeds, c));
        assert(closed_in(s, region) && seeds.subset_of(s));
    }
}

/// Seeds inside the region reach only cells of the region.
pub proof fn lemma_reach_in_region(region: Set<(int, int)>, seeds: Set<(int, int)>)
    requires
        seeds.subset_of(region),
    ensures
        reach_set(region, seeds).subset_of(region),
{
    assert(closed_in(region, region));
    lemma_reach_least(region, seeds, region);
}

/// Seeds of the region outside a closed set `v` reach no cell of `v`:
/// adjacency is symmetric, so a path into `v` would lead back out of it.
pub proof fn lemma_reach_avoids(
    region: Set<(int, int)>,
    seeds: Set<(int, int)>,
    v: Set<(int, int)>,
)
    requires
        closed_in(v, region),
        seeds.subset_of(region),
        seeds.disjoint(v),
    ensures
        reach_set(region, seeds).disjoint(v),
{
    let r = reach_set(region, seeds);
    let out = r.difference(v);
    lemma_reach_closed(region, seeds);
    lemma_reach_in_region(region, seeds);
    assert forall|a: (int, int), b: (int, int)|
        out.contains(a) && region.contains(b) && adjacent(a, b) implies out.contains(b) by {
        assert(r.contains(a) && region.contains(b));
        assert(r.contains(b));
        if v.contains(b) {
            assert(region.contains(a));
            assert(adjacent(b, a));
            assert(v.contains(b) && region.contains(a));
            assert(v.contains(a));
        }
    }
    assert forall|c: (int, int)| seeds.contains(c) implies out.contains(c) by {
        lemma_seed_reaches(region, seeds, c);
    }
    lemma_reach_least(region, seeds, out);
}

/// Two components of a region either coincide or share no cell.
pub proof fn lemma_components_meet(region: Set<(int, int)>, a: (int, int), b: (int, int))
    requires
        region.contains(a),
        region.contains(b),
        component(region, a).contains(b),
    ensures
        component(region, a) == component(region, b),
{
    let ca = component(region, a);
    let cb = component(region, b);
    lemma_reach_closed(region, set![a]);
    lemma_reach_closed(region, set![b]);
    // cb is the least closed set holding b, and ca is closed and holds b.
    lemma_reach_least(region, set![b], ca);
    // a lies in cb: were it outside, the component of a would avoid the
    // closed set cb, yet it holds b.
    if !cb.contains(a) {
        assert(set![a].subset_of(region));
        assert(set![a].disjoint(cb));
        lemma_reach_avoids(region, set![a], cb);
        lemma_seed_reaches(region, set![b], b);
        assert(cb.contains(b));
        assert(false);
    }
    lemma_reach_least(region, set![a], cb);
    assert(ca =~= cb);
}


/// Bound on the coordinates of a frame's origin and on its sides, so that
/// every neighbour computation fits in `i64`.
pub const FRAME_LIMIT: i64 = 0x100_0000_0000;

/// The `w` by `h` frame with top-left cell `(ox, oy)` has a usable size.
pub open spec fn frame_ok(ox: int, oy: int, w: int, h: int) -> bool {
    &&& -FRAME_LIMIT <= ox <= FRAME_LIMIT
    &&& -FRAME_LIMIT <= oy <= FRAME_LIMIT
    &&& 0 <= w <= FRAME_LIMIT
    &&& 0 <= h <= FRAME_LIMIT
    &&& w * h <= usize::MAX
}

pub open spec fn in_frame(c: (int, int), ox: int, oy: int, w: int, h: int) -> bool {
    in_bounds(c.0 - ox, c.1 - oy, w, h)
}

pub open spec fn frame_index(c: (int, int), ox: int, oy: int, w: int) -> int {
    cell_index(c.0 - ox, c.1 - oy, w)
}

/// The cells of the frame whose flag in the row-major mask `m` is set.
pub open spec fn mask_set(m: Seq<bool>, ox: int, oy: int, w: int, h: int) -> Set<(int, int)> {
    Set::new(|c: (int, int)| in_frame(c, ox, oy, w, h) && m[frame_index(c, ox, oy, w)])
}

pub open spec fn pt(p: (i64, i64)) -> (int, int) {
    (p.0 as int, p.1 as int)
}

/// The cells listed in `s`.
pub open spec fn cell_set(s: Seq<(i64, i64)>) -> Set<(int, int)> {
    Set::new(|c: (int, int)| exists|i: int| 0 <= i < s.len() && #[trigger] pt(s[i]) == c)
}

pub open spec fn distinct(s: Seq<(i64, i64)>) -> bool {
    forall|i: int, j: int| 0 <= i < s.len() && 0 <= j < s.len() && i != j ==> s[i] != s[j]
}

pub open spec fn count_true(s: Seq<bool>) -> nat
    decreases s.len(),
{
    if s.len() == 0 {
        0
    } else {
        count_true(s.drop_last()) + if s.last() {
            1nat
        } else {
            0nat
        }
    }
}

proof fn lemma_count_bound(s: Seq<bool>)
    ensures
        count_true(s) <= s.len(),
    decreases s.len(),
{
    if s.len() > 0 {
        lemma_count_bound(s.drop_last());
    }
}

proof fn lemma_count_set(s: Seq<bool>, i: int)
    requires
        0 <= i < s.len(),
        !s[i],
    ensures
        count_true(s.update(i, true)) == count_true(s) + 1,
    decreases s.len(),
{
    let t = s.update(i, true);
    if i == s.len() - 1 {
        assert(t.drop_last() =~= s.drop_last());
    } else {
        assert(t.drop_last() =~= s.drop_last().update(i, true));
        lemma_count_set(s.drop_last(), i);
    }
}

proof fn lemma_frame_index(c: (int, int), ox: int, oy: int, w: int, h: int)
    requires
        in_frame(c, ox, oy, w, h),
    ensures
        0 <= frame_index(c, ox, oy, w) < w * h,
{
    lemma_index_in_range(c.0 - ox, c.1 - oy, w, h);
}

proof fn lemma_frame_index_injective(a: (int, int), b: (int, int), ox: int, oy: int, w: int, h: int)
    requires
        in_frame(a, ox, oy, w, h),
        in_frame(b, ox, oy, w, h),
        frame_index(a, ox, oy, w) == frame_index(b, ox, oy, w),
    ensures
        a == b,
{
    lemma_index_injective(a.0 - ox, a.1 - oy, b.0 - ox, b.1 - oy, w, h);
}

/// Setting the flag of the frame cell `c` adds exactly `c` to the mask set.
proof fn lemma_mask_add(m: Seq<bool>, c: (int, int), ox: int, oy: int, w: int, h: int)
    requires
        m.len() == w * h,
        in_frame(c, ox, oy, w, h),
    ensures
        mask_set(m.update(frame_index(c, ox, oy, w), true), ox, oy, w, h) == mask_set(
            m,
            ox,
            oy,
            w,
            h,
        ).insert(c),
{
    lemma_frame_index(c, ox, oy, w, h);
    let m2 = m.update(frame_index(c, ox, oy, w), true);
    assert forall|d: (int, int)|
        mask_set(m2, ox, oy, w, h).contains(d) == mask_set(m, ox, oy, w, h).insert(c).contains(
            d,
        ) by {
        if in_frame(d, ox, oy, w, h) {
            lemma_frame_index(d, ox, oy, w, h);
            if d != c && frame_index(d, ox, oy, w) == frame_index(c, ox, oy, w) {
                lemma_frame_index_injective(d, c, ox, oy, w, h);
            }
        }
    }
    assert(mask_set(m2, ox, oy, w, h) =~= mask_set(m, ox, oy, w, h).insert(c));
}

pub proof fn lemma_cell_set_push(s: Seq<(i64, i64)>, p: (i64, i64))
    ensures
        cell_set(s.push(p)) == cell_set(s).insert(pt(p)),
{
    let t = s.push(p);
    assert forall|c: (int, int)| cell_set(t).contains(c) == cell_set(s).insert(pt(p)).contains(
        c,
    ) by {
        if cell_set(t).contains(c) {
            let i = choose|i: int| 0 <= i < t.len() && #[trigger] pt(t[i]) == c;
            if i < s.len() {
                assert(pt(s[i]) == c);
            }
        }
        if cell_set(s).contains(c) {
            let i = choose|i: int| 0 <= i < s.len() && #[trigger] pt(s[i]) == c;
            assert(pt(t[i]) == c);
        }
        if c == pt(p) {
            assert(pt(t[s.len() as int]) == c);
        }
    }
    assert(cell_set(t) =~= cell_set(s).insert(pt(p)));
}

/// Sets the flag of the cell `(x, y)` and queues it when the cell lies in the
/// frame, inside the region and not yet visited.
fn try_visit(
    inside: &Vec<bool>,
    ox: i64,
    oy: i64,
    w: usize,
    h: usize,
    visited: &mut Vec<bool>,
    queue: &mut Vec<(i64, i64)>,
    x: i64,
    y: i64,
)
    requires
        frame_ok(ox as int, oy as int, w as int, h as int),
        inside@.len() == w * h,
        old(visited)@.len() == w * h,
        -4 * FRAME_LIMIT <= x <= 4 * FRAME_LIMIT,
        -4 * FRAME_LIMIT <= y <= 4 * FRAME_LIMIT,
    ensures
        visit_effect(
            inside@,
            ox as int,
            oy as int,
            w as int,
            old(visited)@,
            final(visited)@,
            old(queue)@,
            final(queue)@,
            x,
            y,
            h as int,
        ),
{
    let dx = x - ox;
    let dy = y - oy;
    if dx < 0 || dy < 0 || dx >= w as i64 || dy >= h as i64 {
        return;
    }
    proof {
        lemma_index_in_range(dx as int, dy as int, w as int, h as int);
    }
    let i = dy as usize * w + dx as usize;
    if inside[i] && !visited[i] {
        visited.set(i, true);
        queue.push((x, y));
    }
}

/// What `try_visit` does to the flags and the queue for the cell `(x, y)`.
pub open spec fn visit_effect(
    inside: Seq<bool>,
    ox: int,
    oy: int,
    w: int,
    vb: Seq<bool>,
    va: Seq<bool>,
    qb: Seq<(i64, i64)>,
    qa: Seq<(i64, i64)>,
    x: i64,
    y: i64,
    h: int,
) -> bool {
    let c = (x as int, y as int);
    if in_frame(c, ox, oy, w, h) && inside[frame_index(c, ox, oy, w)] && !vb[frame_index(
        c,
        ox,
        oy,
        w,
    )] {
        &&& va == vb.update(frame_index(c, ox, oy, w), true)
        &&& qa == qb.push((x, y))
    } else {
        &&& va == vb
        &&& qa == qb
    }
}

/// The state of a search from `seeds` through `region` that started with the
/// cells of `v0` flagged and `c0` flags set: the flags mark `v0` and the
/// queued cells, and each queued cell is a reached region cell outside `v0`.
pub open spec fn flood_state(
    region: Set<(int, int)>,
    ox: int,
    oy: int,
    w: int,
    h: int,
    v0: Set<(int, int)>,
    seeds: Set<(int, int)>,
    c0: nat,
    visited: Seq<bool>,
    queue: Seq<(i64, i64)>,
) -> bool {
    &&& visited.len() == w * h
    &&& mask_set(visited, ox, oy, w, h) == v0.union(cell_set(queue))
    &&& forall|i: int|
        0 <= i < queue.len() ==> region.contains(pt(#[trigger] queue[i])) && !v0.contains(
            pt(queue[i]),
        ) && reaches(region, seeds, pt(queue[i]))
    &&& distinct(queue)
    &&& count_true(visited) == c0 + queue.len()
}

proof fn lemma_visit_step(
    inside: Seq<bool>,
    ox: int,
    oy: int,
    w: int,
    h: int,
    v0: Set<(int, int)>,
    seeds: Set<(int, int)>,
    c0: nat,
    vb: Seq<bool>,
    va: Seq<bool>,
    qb: Seq<(i64, i64)>,
    qa: Seq<(i64, i64)>,
    x: i64,
    y: i64,
)
    requires
        frame_ok(ox, oy, w, h),
        inside.len() == w * h,
        flood_state(mask_set(inside, ox, oy, w, h).difference(v0), ox, oy, w, h, v0, seeds, c0, vb, qb),
        visit_effect(inside, ox, oy, w, vb, va, qb, qa, x, y, h),
        mask_set(inside, ox, oy, w, h).difference(v0).contains((x as int, y as int)) ==> reaches(
            mask_set(inside, ox, oy, w, h).difference(v0),
            seeds,
            (x as int, y as int),
        ),
    ensures
        flood_state(mask_set(inside, ox, oy, w, h).difference(v0), ox, oy, w, h, v0, seeds, c0, va, qa),
        mask_set(vb, ox, oy, w, h).subset_of(mask_set(va, ox, oy, w, h)),
        qb.len() <= qa.len(),
        forall|i: int| 0 <= i < qb.len() ==> qa[i] == qb[i],
        mask_set(inside, ox, oy, w, h).contains((x as int, y as int)) ==> mask_set(
            va,
            ox,
            oy,
            w,
            h,
        ).contains((x as int, y as int)),
{
    let region = mask_set(inside, ox, oy, w, h).difference(v0);
    let c = (x as int, y as int);
    if in_frame(c, ox, oy, w, h) && inside[frame_index(c, ox, oy, w)] && !vb[frame_index(
        c,
        ox,
        oy,
        w,
    )] {
        lemma_frame_index(c, ox, oy, w, h);
        lemma_mask_add(vb, c, ox, oy, w, h);
        lemma_cell_set_push(qb, (x, y));
        lemma_count_set(vb, frame_index(c, ox, oy, w));
        assert(pt((x, y)) == c);
        assert(mask_set(va, ox, oy, w, h) =~= v0.union(cell_set(qa)));
        assert forall|i: int| 0 <= i < qb.len() implies qb[i] != (x, y) by {
            assert(pt(qb[i]) == pt(qb[i]));
            assert(cell_set(qb).contains(pt(qb[i])));
            assert(mask_set(vb, ox, oy, w, h).contains(pt(qb[i])));
        }
        assert forall|i: int| 0 <= i < qa.len() implies region.contains(pt(#[trigger] qa[i]))
            && !v0.contains(pt(qa[i])) && reaches(region, seeds, pt(qa[i])) by {
            if i < qb.len() {
                assert(qa[i] == qb[i]);
            } else {
                assert(qa[i] == (x, y));
                assert(!mask_set(vb, ox, oy, w, h).contains(c));
            }
        }
    } else {
        if region.contains(c) {
            lemma_frame_index(c, ox, oy, w, h);
        }
    }
}

/// Flags and lists, breadth first, every cell that `seeds` reach through
/// adjacent cells of the region (the frame cells whose `inside` flag is
/// set) that are not flagged in `visited` yet. The seeds must be such cells;
/// the search never enters a cell that was flagged before it began.
pub fn flood(
    inside: &Vec<bool>,
    ox: i64,
    oy: i64,
    w: usize,
    h: usize,
    visited: &mut Vec<bool>,
    seeds: &Vec<(i64, i64)>,
) -> (found: Vec<(i64, i64)>)
    requires
        frame_ok(ox as int, oy as int, w as int, h as int),
        inside@.len() == w * h,
        old(visited)@.len() == w * h,
        forall|i: int|
            0 <= i < seeds@.len() ==> mask_set(
                inside@,
                ox as int,
                oy as int,
                w as int,
                h as int,
            ).contains(pt(#[trigger] seeds@[i])) && !mask_set(
                old(visited)@,
                ox as int,
                oy as int,
                w as int,
                h as int,
            ).contains(pt(seeds@[i])),
    ensures
        final(visited)@.len() == w * h,
        cell_set(found@) == reach_set(
            mask_set(inside@, ox as int, oy as int, w as int, h as int).difference(
                mask_set(old(visited)@, ox as int, oy as int, w as int, h as int),
            ),
            cell_set(seeds@),
        ),
        mask_set(final(visited)@, ox as int, oy as int, w as int, h as int) == mask_set(
            old(visited)@,
            ox as int,
            oy as int,
            w as int,
            h as int,
        ).union(cell_set(found@)),
        cell_set(found@).disjoint(
            mask_set(old(visited)@, ox as int, oy as int, w as int, h as int),
        ),
        distinct(found@),
{
    let ghost region = mask_set(inside@, ox as int, oy as int, w as int, h as int);
    let ghost v0 = mask_set(visited@, ox as int, oy as int, w as int, h as int);
    let ghost seedset = cell_set(seeds@);
    let ghost avail = region.difference(v0);
    let ghost c0 = count_true(visited@);
    let mut queue: Vec<(i64, i64)> = Vec::new();
    proof {
        assert(mask_set(visited@, ox as int, oy as int, w as int, h as int) =~= v0.union(
            cell_set(queue@),
        ));
    }
    let mut si: usize = 0;
    while si < seeds.len()
        invariant
            frame_ok(ox as int, oy as int, w as int, h as int),
            inside@.len() == w * h,
            region == mask_set(inside@, ox as int, oy as int, w as int, h as int),
            seedset == cell_set(seeds@),
            v0 == mask_set(old(visited)@, ox as int, oy as int, w as int, h as int),
            forall|i: int|
                0 <= i < seeds@.len() ==> region.contains(pt(#[trigger] seeds@[i])) && !v0.contains(
                    pt(seeds@[i]),
                ),
            avail == region.difference(v0),
            flood_state(
                avail,
                ox as int,
                oy as int,
                w as int,
                h as int,
                v0,
                seedset,
                c0,
                visited@,
                queue@,
            ),
            si <= seeds@.len(),
            forall|j: int|
                0 <= j < si ==> mask_set(visited@, ox as int, oy as int, w as int, h as int).contains(
                    pt(#[trigger] seeds@[j]),
                ),
        decreases seeds@.len() - si,
    {
        let (x, y) = seeds[si];
        let ghost vb = visited@;
        let ghost qb = queue@;
        proof {
            assert(pt(seeds@[si as int]) == pt(seeds@[si as int]));
            assert(seedset.contains(pt(seeds@[si as int])));
            lemma_seed_reaches(avail, seedset, (x as int, y as int));
            lemma_frame_index((x as int, y as int), ox as int, oy as int, w as int, h as int);
        }
        try_visit(inside, ox, oy, w, h, visited, &mut queue, x, y);
        proof {
            lemma_visit_step(
                inside@,
                ox as int,
                oy as int,
                w as int,
                h as int,
                v0,
                seedset,
                c0,
                vb,
                visited@,
                qb,
                queue@,
                x,
                y,
            );
        }
        si += 1;
    }
    let mut head: usize = 0;
    while head < queue.len()
        invariant
            frame_ok(ox as int, oy as int, w as int, h as int),
            inside@.len() == w * h,
            region == mask_set(inside@, ox as int, oy as int, w as int, h as int),
            seedset == cell_set(seeds@),
            v0 == mask_set(old(visited)@, ox as int, oy as int, w as int, h as int),
            avail == region.difference(v0),
            flood_state(
                avail,
                ox as int,
                oy as int,
                w as int,
                h as int,
                v0,
                seedset,
                c0,
                visited@,
                queue@,
            ),
            head <= queue@.len(),
            seedset.subset_of(mask_set(visited@, ox as int, oy as int, w as int, h as int)),
            forall|i: int, n: (int, int)|
                #![trigger queue@[i], region.contains(n)]
                0 <= i < head && adjacent(pt(queue@[i]), n) && region.contains(n) ==> mask_set(
                    visited@,
                    ox as int,
                    oy as int,
                    w as int,
                    h as int,
                ).contains(n),
        decreases 2 * (w * h - queue@.len()) + (queue@.len() - head),
    {
        proof {
            lemma_count_bound(visited@);
        }
        let (x, y) = queue[head];
        let ghost a = (x as int, y as int);
        let ghost v_start = visited@;
        let ghost q_start = queue@;
        proof {
            assert(region.contains(pt(queue@[head as int])));
            lemma_frame_index(a, ox as int, oy as int, w as int, h as int);
        }
        let ghost vb = visited@;
        let ghost qb = queue@;
        proof {
            if avail.contains((x - 1, y as int)) {
                lemma_step_reaches(avail, seedset, a, (x - 1, y as int));
            }
        }
        try_visit(inside, ox, oy, w, h, visited, &mut queue, x - 1, y);
        proof {
            lemma_visit_step(inside@, ox as int, oy as int, w as int, h as int, v0, seedset, c0, vb, visited@, qb, queue@, (x - 1) as i64, y);
        }
        let ghost vb = visited@;
        let ghost qb = queue@;
        proof {
            if avail.contains((x + 1, y as int)) {
                lemma_step_reaches(avail, seedset, a, (x + 1, y as int));
            }
        }
        try_visit(inside, ox, oy, w, h, visited, &mut queue, x + 1, y);
        proof {
            lemma_visit_step(inside@, ox as int, oy as int, w as int, h as int, v0, seedset, c0, vb, visited@, qb, queue@, (x + 1) as i64, y);
        }
        let ghost vb = visited@;
        let ghost qb = queue@;
        proof {
            if avail.contains((x as int, y - 1)) {
                lemma_step_reaches(avail, seedset, a, (x as int, y - 1));
            }
        }
        try_visit(inside, ox, oy, w, h, visited, &mut queue, x, y - 1);
        proof {
            lemma_visit_step(inside@, ox as int, oy as int, w as int, h as int, v0, seedset, c0, vb, visited@, qb, queue@, x, (y - 1) as i64);
        }
        let ghost vb = visited@;
        let ghost qb = queue@;
        proof {
            if avail.contains((x as int, y + 1)) {
                lemma_step_reaches(avail, seedset, a, (x as int, y + 1));
            }
        }
        try_visit(inside, ox, oy, w, h, visited, &mut queue, x, y + 1);
        proof {
            lemma_visit_step(inside@, ox as int, oy as int, w as int, h as int, v0, seedset, c0, vb, visited@, qb, queue@, x, (y + 1) as i64);
            let vm = mask_set(visited@, ox as int, oy as int, w as int, h as int);
            assert(mask_set(v_start, ox as int, oy as int, w as int, h as int).subset_of(vm));
            assert forall|i: int, n: (int, int)|
                #![trigger queue@[i], region.contains(n)]
                0 <= i < head + 1 && adjacent(pt(queue@[i]), n) && region.contains(n) implies vm.contains(n) by {
                if i < head {
                    assert(queue@[i] == q_start[i]);
                    assert(mask_set(v_start, ox as int, oy as int, w as int, h as int).contains(n));
                } else {
                    assert(queue@[i] == q_start[head as int]);
                }
            }
            lemma_count_bound(visited@);
        }
        head += 1;
    }
    proof {
        let vm = mask_set(visited@, ox as int, oy as int, w as int, h as int);
        let qs = cell_set(queue@);
        assert forall|a: (int, int), b: (int, int)|
            qs.contains(a) && avail.contains(b) && adjacent(a, b) implies qs.contains(b) by {
            let i = choose|i: int| 0 <= i < queue@.len() && #[trigger] pt(queue@[i]) == a;
            assert(queue@[i] == queue@[i]);
            assert(region.contains(b));
            assert(vm.contains(b));
        }
        assert(closed_in(qs, avail));
        assert forall|c: (int, int)| seedset.contains(c) implies qs.contains(c) by {
            let i = choose|i: int| 0 <= i < seeds@.len() && #[trigger] pt(seeds@[i]) == c;
            assert(seeds@[i] == seeds@[i]);
            assert(vm.contains(c));
        }
        lemma_reach_least(avail, seedset, qs);
        let rs = reach_set(avail, seedset);
        assert forall|c: (int, int)| cell_set(queue@).contains(c) == rs.contains(c) by {
            if cell_set(queue@).contains(c) {
                let i = choose|i: int| 0 <= i < queue@.len() && #[trigger] pt(queue@[i]) == c;
                assert(queue@[i] == queue@[i]);
            }
        }
        assert(cell_set(queue@) =~= rs);
    }
    queue
}

/// Outside a closed part `v` of the region, seeds reach the same cells
/// whether or not the search may enter `v`: a path into `v` could not lead
/// back out of it.
pub proof fn lemma_reach_outside_closed(
    region: Set<(int, int)>,
    seeds: Set<(int, int)>,
    v: Set<(int, int)>,
)
    requires
        closed_in(v, region),
        seeds.subset_of(region.difference(v)),
    ensures
        reach_set(region.difference(v), seeds) == reach_set(region, seeds),
{
    let avail = region.difference(v);
    let small = reach_set(avail, seeds);
    let big = reach_set(region, seeds);
    lemma_reach_closed(region, seeds);
    assert forall|a: (int, int), b: (int, int)|
        big.contains(a) && avail.contains(b) && adjacent(a, b) implies big.contains(b) by {
        assert(big.contains(a) && region.contains(b));
    }
    lemma_reach_least(avail, seeds, big);
    lemma_reach_closed(avail, seeds);
    lemma_reach_in_region(avail, seeds);
    assert forall|a: (int, int), b: (int, int)|
        small.contains(a) && region.contains(b) && adjacent(a, b) implies small.contains(b) by {
        assert(avail.contains(a));
        if v.contains(b) {
            assert(adjacent(b, a));
            assert(v.contains(b) && region.contains(a));
            assert(v.contains(a));
        }
        assert(small.contains(a) && avail.contains(b));
    }
    lemma_reach_least(region, seeds, small);
    assert(small =~= big);
}

proof fn lemma_union_closed(a: Set<(int, int)>, b: Set<(int, int)>, region: Set<(int, int)>)
    requires
        closed_in(a, region),
        closed_in(b, region),
    ensures
        closed_in(a.union(b), region),
{
    assert forall|x: (int, int), y: (int, int)|
        a.union(b).contains(x) && region.contains(y) && adjacent(x, y) implies a.union(b).contains(
            y,
        ) by {
        if a.contains(x) {
            assert(a.contains(x) && region.contains(y));
        } else {
            assert(b.contains(x) && region.contains(y));
        }
    }
}

proof fn lemma_cell_set_single(p: (i64, i64))
    ensures
        cell_set(seq![p]) == set![pt(p)],
{
    assert forall|c: (int, int)| cell_set(seq![p]).contains(c) == set![pt(p)].contains(c) by {
        if c == pt(p) {
            assert(pt(seq![p][0]) == c);
        }
    }
    assert(cell_set(seq![p]) =~= set![pt(p)]);
}

/// `comps` partitions `region` into its 4-connected components: each list
/// is non-empty, free of repeats, and holds exactly the component of its
/// first cell; no two lists share a cell; every region cell is listed.
pub open spec fn partitions(comps: Seq<Vec<(i64, i64)>>, region: Set<(int, int)>) -> bool {
    &&& forall|k: int|
        0 <= k < comps.len() ==> #[trigger] comps[k]@.len() > 0 && distinct(comps[k]@) && cell_set(
            comps[k]@,
        ) == component(region, pt(comps[k]@[0])) && cell_set(comps[k]@).subset_of(region)
    &&& forall|k1: int, k2: int|
        0 <= k1 < comps.len() && 0 <= k2 < comps.len() && k1 != k2 ==> cell_set(
            #[trigger] comps[k1]@,
        ).disjoint(cell_set(#[trigger] comps[k2]@))
    &&& forall|c: (int, int)|
        region.contains(c) ==> exists|k: int|
            0 <= k < comps.len() && #[trigger] cell_set(comps[k]@).contains(c)
}

/// Splits the region (the frame cells whose `inside` flag is set) into its
/// 4-connected components, found in row-major order of their first cell.
pub fn label_components(inside: &Vec<bool>, ox: i64, oy: i64, w: usize, h: usize) -> (comps: Vec<
    Vec<(i64, i64)>,
>)
    requires
        frame_ok(ox as int, oy as int, w as int, h as int),
        inside@.len() == w * h,
    ensures
        partitions(comps@, mask_set(inside@, ox as int, oy as int, w as int, h as int)),
{
    let ghost region = mask_set(inside@, ox as int, oy as int, w as int, h as int);
    let mut visited: Vec<bool> = vec![false; w * h];
    let mut comps: Vec<Vec<(i64, i64)>> = Vec::new();
    proof {
        assert forall|c: (int, int)|
            !mask_set(visited@, ox as int, oy as int, w as int, h as int).contains(c) by {
            if in_frame(c, ox as int, oy as int, w as int, h as int) {
                lemma_frame_index(c, ox as int, oy as int, w as int, h as int);
            }
        }
        assert(mask_set(visited@, ox as int, oy as int, w as int, h as int) =~= Set::empty());
    }
    let mut yy: usize = 0;
    while yy < h
        invariant
            frame_ok(ox as int, oy as int, w as int, h as int),
            inside@.len() == w * h,
            region == mask_set(inside@, ox as int, oy as int, w as int, h as int),
            visited@.len() == w * h,
            yy <= h,
            closed_in(mask_set(visited@, ox as int, oy as int, w as int, h as int), region),
            forall|c: (int, int)|
                #[trigger] mask_set(visited@, ox as int, oy as int, w as int, h as int).contains(c)
                    <==> exists|k: int|
                    0 <= k < comps@.len() && #[trigger] cell_set(comps@[k]@).contains(c),
            forall|k: int|
                0 <= k < comps@.len() ==> #[trigger] comps@[k]@.len() > 0 && distinct(comps@[k]@)
                    && cell_set(comps@[k]@) == component(region, pt(comps@[k]@[0])) && cell_set(
                    comps@[k]@,
                ).subset_of(region),
            forall|k1: int, k2: int|
                0 <= k1 < comps@.len() && 0 <= k2 < comps@.len() && k1 != k2 ==> cell_set(
                    #[trigger] comps@[k1]@,
                ).disjoint(cell_set(#[trigger] comps@[k2]@)),
            forall|c: (int, int)|
                region.contains(c) && c.1 - oy < yy ==> #[trigger] mask_set(
                    visited@,
                    ox as int,
                    oy as int,
                    w as int,
                    h as int,
                ).contains(c),
        decreases h - yy,
    {
        let mut xx: usize = 0;
        while xx < w
            invariant
                frame_ok(ox as int, oy as int, w as int, h as int),
                inside@.len() == w * h,
                region == mask_set(inside@, ox as int, oy as int, w as int, h as int),
                visited@.len() == w * h,
                yy < h,
                xx <= w,
                closed_in(mask_set(visited@, ox as int, oy as int, w as int, h as int), region),
                forall|c: (int, int)|
                    #[trigger] mask_set(visited@, ox as int, oy as int, w as int, h as int).contains(c)
                        <==> exists|k: int|
                        0 <= k < comps@.len() && #[trigger] cell_set(comps@[k]@).contains(c),
                forall|k: int|
                    0 <= k < comps@.len() ==> #[trigger] comps@[k]@.len() > 0 && distinct(
                        comps@[k]@,
                    ) && cell_set(comps@[k]@) == component(region, pt(comps@[k]@[0])) && cell_set(
                        comps@[k]@,
                    ).subset_of(region),
                forall|k1: int, k2: int|
                    0 <= k1 < comps@.len() && 0 <= k2 < comps@.len() && k1 != k2 ==> cell_set(
                        #[trigger] comps@[k1]@,
                    ).disjoint(cell_set(#[trigger] comps@[k2]@)),
                forall|c: (int, int)|
                    region.contains(c) && (c.1 - oy < yy || (c.1 - oy == yy && c.0 - ox < xx))
                        ==> #[trigger] mask_set(
                        visited@,
                        ox as int,
                        oy as int,
                        w as int,
                        h as int,
                    ).contains(c),
            decreases w - xx,
        {
            proof {
                lemma_index_in_range(xx as int, yy as int, w as int, h as int);
            }
            let i = yy * w + xx;
            let ghost c = (ox + xx, oy + yy);
            if inside[i] && !visited[i] {
                let seed = (ox + xx as i64, oy + yy as i64);
                let seeds = vec![seed];
                let ghost vb = mask_set(visited@, ox as int, oy as int, w as int, h as int);
                let ghost comps_before = comps@;
                proof {
                    assert(seeds@ == seq![seed]);
                    assert(pt(seeds@[0]) == c);
                    assert(frame_index(c, ox as int, oy as int, w as int) == i);
                }
                let found = flood(inside, ox, oy, w, h, &mut visited, &seeds);
                proof {
                    lemma_cell_set_single(seed);
                    assert(cell_set(seeds@) == set![c]);
                    lemma_reach_outside_closed(region, set![c], vb);
                    let comp = component(region, c);
                    assert(cell_set(found@) == comp);
                    lemma_reach_closed(region, set![c]);
                    lemma_union_closed(vb, comp, region);
                    lemma_seed_reaches(region, set![c], c);
                    assert(comp.contains(c));
                    let j = choose|j: int| 0 <= j < found@.len() && #[trigger] pt(found@[j]) == c;
                    assert(found@.len() > 0);
                    assert(cell_set(found@).contains(pt(found@[0])));
                    assert(set![c].subset_of(region));
                    lemma_reach_in_region(region, set![c]);
                    lemma_components_meet(region, c, pt(found@[0]));
                }
                comps.push(found);
                proof {
                    let n = comps_before.len() as int;
                    assert(comps@[n]@ == found@);
                    assert forall|k: int| 0 <= k < n implies #[trigger] comps@[k] == comps_before[k] by {}
                    let vm = mask_set(visited@, ox as int, oy as int, w as int, h as int);
                    assert forall|d: (int, int)| #[trigger] vm.contains(d) <==> exists|k: int|
                        0 <= k < comps@.len() && #[trigger] cell_set(comps@[k]@).contains(d) by {
                        if vm.contains(d) {
                            if vb.contains(d) {
                                let k = choose|k: int| 0 <= k < comps_before.len() && #[trigger] cell_set(comps_before[k]@).contains(d);
                                assert(comps@[k] == comps_before[k]);
                            } else {
                                assert(cell_set(comps@[n]@).contains(d));
                            }
                        }
                        if exists|k: int| 0 <= k < comps@.len() && #[trigger] cell_set(comps@[k]@).contains(d) {
                            let k = choose|k: int| 0 <= k < comps@.len() && #[trigger] cell_set(comps@[k]@).contains(d);
                            if k < n {
                                assert(comps@[k] == comps_before[k]);
                                assert(vb.contains(d));
                            }
                        }
                    }
                    assert forall|k1: int, k2: int|
                        0 <= k1 < comps@.len() && 0 <= k2 < comps@.len() && k1 != k2 implies cell_set(
                            #[trigger] comps@[k1]@,
                        ).disjoint(cell_set(#[trigger] comps@[k2]@)) by {
                        if k1 == n || k2 == n {
                            let other = if k1 == n { k2 } else { k1 };
                            assert(comps@[other] == comps_before[other]);
                            assert forall|d: (int, int)| cell_set(comps_before[other]@).contains(d) implies vb.contains(d) by {}
                        } else {
                            assert(comps@[k1] == comps_before[k1]);
                            assert(comps@[k2] == comps_before[k2]);
                        }
                    }
                }
            } else {
                proof {
                    if region.contains(c) {
                        assert(frame_index(c, ox as int, oy as int, w as int) == i);
                    }
                }
            }
            xx += 1;
        }
        yy += 1;
    }
    proof {
        assert forall|c: (int, int)| region.contains(c) implies exists|k: int|
            0 <= k < comps@.len() && #[trigger] cell_set(comps@[k]@).contains(c) by {
            assert(mask_set(visited@, ox as int, oy as int, w as int, h as int).contains(c));
        }
    }
    comps
}

} // verus!
