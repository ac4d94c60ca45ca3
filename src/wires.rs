//! Wires on a grid: the paths they take from a common origin and where
//! two of them cross.
use std::collections::HashMap;
use vstd::prelude::*;
use vstd::string::StringSliceAdditionalSpecFns;

use crate::text::{field_bounds, integer_in, parse_integer, split_fields, text_lines, ParseError};

verus! {

broadcast use vstd::std_specs::hash::group_hash_axioms;

/// The unit step that a direction letter names.
pub open spec fn step_of(c: u8) -> Option<(int, int)> {
    if c == 76 {
        Some((-1, 0))
    } else if c == 82 {
        Some((1, 0))
    } else if c == 85 {
        Some((0, 1))
    } else if c == 68 {
        Some((0, -1))
    } else {
        None
    }
}

/// The segment that a field such as `R75` spells: a unit step and how many
/// times to take it.
pub open spec fn segment_of(f: Seq<u8>) -> Option<(int, int, int)> {
    if f.len() >= 2 && f[1] != 45 {
        match (step_of(f[0]), integer_in(f.drop_first(), 0, i32::MAX as int)) {
            (Some(d), Some(n)) => Some((d.0, d.1, n)),
            _ => None,
        }
    } else {
        None
    }
}

/// The segments that the fields spell, where every field spells one.
pub open spec fn segments_of(fs: Seq<Seq<u8>>) -> Option<Seq<(int, int, int)>>
    decreases fs.len(),
{
    if fs.len() == 0 {
        Some(Seq::empty())
    } else {
        match (segments_of(fs.drop_last()), segment_of(fs.last())) {
            (Some(ss), Some(s)) => Some(ss.push(s)),
            _ => None,
        }
    }
}

/// The number of unit steps in the segments.
pub open spec fn total_steps(segs: Seq<(int, int, int)>) -> int
    decreases segs.len(),
{
    if segs.len() == 0 {
        0
    } else {
        total_steps(segs.drop_last()) + segs.last().2
    }
}

/// Where a walk stands: its last point, or the origin before any.
pub open spec fn position(path: Seq<(int, int)>) -> (int, int) {
    if path.len() == 0 {
        (0, 0)
    } else {
        path.last()
    }
}

/// The points that the segments visit from the origin, one per unit step.
pub open spec fn walk(segs: Seq<(int, int, int)>) -> Seq<(int, int)>
    decreases segs.len(),
{
    if segs.len() == 0 {
        Seq::empty()
    } else {
        let p = walk(segs.drop_last());
        let s = position(p);
        let (dx, dy, n) = segs.last();
        p + Seq::new(n as nat, |k: int| (s.0 + dx * (k + 1), s.1 + dy * (k + 1)))
    }
}

/// The path that a wire line spells, where it has at most `i32::MAX` steps.
pub open spec fn wire_path(line: Seq<u8>) -> Option<Seq<(int, int)>> {
    match segments_of(split_fields(line, 44)) {
        Some(segs) => if total_steps(segs) <= i32::MAX {
            Some(walk(segs))
        } else {
            None
        },
        None => None,
    }
}

/// The points of a path as integers.
pub open spec fn points(v: Seq<(i64, i64)>) -> Seq<(int, int)> {
    v.map_values(|p: (i64, i64)| (p.0 as int, p.1 as int))
}

proof fn lemma_walk_len(segs: Seq<(int, int, int)>)
    requires
        forall|i: int| 0 <= i < segs.len() ==> (#[trigger] segs[i]).2 >= 0,
    ensures
        walk(segs).len() == total_steps(segs),
        total_steps(segs) >= 0,
    decreases segs.len(),
{
    if segs.len() > 0 {
        let pre = segs.drop_last();
        assert forall|i: int| 0 <= i < pre.len() implies (#[trigger] pre[i]).2 >= 0 by {
            assert(pre[i] == segs[i]);
        }
        lemma_walk_len(pre);
    }
}

proof fn lemma_segments_error_stays(fs: Seq<Seq<u8>>, n: int)
    requires
        0 <= n <= fs.len(),
        segments_of(fs.subrange(0, n)) is None,
    ensures
        segments_of(fs) is None,
    decreases fs.len() - n,
{
    if n < fs.len() {
        assert(fs.subrange(0, n + 1).drop_last() =~= fs.subrange(0, n));
        lemma_segments_error_stays(fs, n + 1);
    } else {
        assert(fs.subrange(0, n) =~= fs);
    }
}

proof fn lemma_segments_total_grows(fs: Seq<Seq<u8>>, n: int)
    requires
        0 <= n <= fs.len(),
        segments_of(fs) is Some,
    ensures
        segments_of(fs.subrange(0, n)) is Some,
        total_steps(segments_of(fs.subrange(0, n))->Some_0) <= total_steps(segments_of(fs)->Some_0),
    decreases fs.len() - n,
{
    if n < fs.len() {
        assert(fs.subrange(0, n + 1).drop_last() =~= fs.subrange(0, n));
        lemma_segments_total_grows(fs, n + 1);
        let segs = segments_of(fs.subrange(0, n + 1))->Some_0;
        assert(segs.drop_last() == segments_of(fs.subrange(0, n))->Some_0);
    } else {
        assert(fs.subrange(0, n) =~= fs);
    }
}

proof fn lemma_unit_multiple(d: int, k: int)
    requires
        -1 <= d <= 1,
        0 <= k,
    ensures
        d * (k + 1) == d * k + d,
        -k <= d * k <= k,
{
    assert(d * (k + 1) == d * k + d) by (nonlinear_arith);
    assert(-k <= d * k <= k) by (nonlinear_arith)
        requires
            -1 <= d <= 1,
            0 <= k,
    ;
}

/// Both coordinates of a point fit an `i32`.
pub open spec fn in_plane(p: (int, int)) -> bool {
    -2147483647 <= p.0 <= 2147483647 && -2147483647 <= p.1 <= 2147483647
}

/// A path of at most `i32::MAX` points, each in the plane.
pub open spec fn on_grid(v: Seq<(i64, i64)>) -> bool {
    v.len() <= 2147483647 && forall|i: int|
        0 <= i < v.len() ==> in_plane((v[i].0 as int, #[trigger] v[i].1 as int))
}

/// The path of the wire in `b[start..end]`.
fn wire_points(b: &[u8], start: usize, end: usize) -> (r: Result<Vec<(i64, i64)>, ParseError>)
    requires
        start <= end <= b@.len(),
    ensures
        match wire_path(b@.subrange(start as int, end as int)) {
            Some(p) => (r is Ok) && points(r->Ok_0@) == p,
            None => r == Err::<Vec<(i64, i64)>, ParseError>(ParseError::InvalidWire),
        },
        r matches Ok(v) ==> on_grid(v@),
{
    let fields = field_bounds(b, start, end, 44);
    let ghost fs = split_fields(b@.subrange(start as int, end as int), 44);
    let mut pts: Vec<(i64, i64)> = Vec::new();
    let mut x: i64 = 0;
    let mut y: i64 = 0;
    let mut j: usize = 0;
    assert(fs.subrange(0, 0) =~= Seq::<Seq<u8>>::empty());
    while j < fields.len()
        invariant
            fs == split_fields(b@.subrange(start as int, end as int), 44),
            fields@.len() == fs.len(),
            forall|i: int|
                0 <= i < fields@.len() ==> start <= (#[trigger] fields@[i]).0 <= fields@[i].1
                    <= end && b@.subrange(fields@[i].0 as int, fields@[i].1 as int) == fs[i],
            end <= b@.len(),
            j <= fs.len(),
            segments_of(fs.subrange(0, j as int)) is Some,
            points(pts@) == walk(segments_of(fs.subrange(0, j as int))->Some_0),
            pts@.len() == total_steps(segments_of(fs.subrange(0, j as int))->Some_0),
            pts@.len() <= i32::MAX,
            on_grid(pts@),
            (x as int, y as int) == position(points(pts@)),
            -pts@.len() <= x <= pts@.len(),
            -pts@.len() <= y <= pts@.len(),
        decreases fs.len() - j,
    {
        let (fs_start, fs_end) = fields[j];
        let ghost f = fs[j as int];
        let ghost pre = fs.subrange(0, j as int);
        let ghost segs = segments_of(pre)->Some_0;
        assert(fs.subrange(0, j + 1).drop_last() =~= pre);
        assert(fs.subrange(0, j + 1).last() == f);
        if fs_end - fs_start < 2 || b[fs_start + 1] == 45 {
            proof {
                lemma_segments_error_stays(fs, j + 1);
            }
            return Err(ParseError::InvalidWire);
        }
        assert(f.drop_first() =~= b@.subrange(fs_start + 1, fs_end as int));
        let c = b[fs_start];
        let (dx, dy): (i64, i64) = if c == 76 {
            (-1, 0)
        } else if c == 82 {
            (1, 0)
        } else if c == 85 {
            (0, 1)
        } else if c == 68 {
            (0, -1)
        } else {
            proof {
                lemma_segments_error_stays(fs, j + 1);
            }
            return Err(ParseError::InvalidWire);
        };
        let n = match parse_integer(b, fs_start + 1, fs_end, 0, 2147483647) {
            Some(n) => n,
            None => {
                proof {
                    lemma_segments_error_stays(fs, j + 1);
                }
                return Err(ParseError::InvalidWire);
            },
        };
        let ghost seg = (dx as int, dy as int, n as int);
        assert(segment_of(f) == Some(seg));
        assert(segments_of(fs.subrange(0, j + 1)) == Some(segs.push(seg)));
        assert(segs.push(seg).drop_last() =~= segs);
        if n as usize > 2147483647 - pts.len() {
            proof {
                if segments_of(fs) is Some {
                    lemma_segments_total_grows(fs, j + 1);
                }
                assert(fs.subrange(0, fs.len() as int) =~= fs);
            }
            return Err(ParseError::InvalidWire);
        }
        let ghost base = points(pts@);
        let ghost s = position(base);
        let mut k: i64 = 0;
        while k < n
            invariant
                0 <= k <= n <= 2147483647,
                base.len() + n <= 2147483647,
                pts@.len() == base.len() + k,
                on_grid(pts@),
                dx == -1 && dy == 0 || dx == 1 && dy == 0 || dx == 0 && dy == 1 || dx == 0 && dy
                    == -1,
                points(pts@) == base + Seq::new(
                    k as nat,
                    |i: int| (s.0 + dx * (i + 1), s.1 + dy * (i + 1)),
                ),
                x == s.0 + dx * k,
                y == s.1 + dy * k,
                -(base.len() as int) <= s.0 <= base.len(),
                -(base.len() as int) <= s.1 <= base.len(),
            decreases n - k,
        {
            proof {
                lemma_unit_multiple(dx as int, k as int);
                lemma_unit_multiple(dy as int, k as int);
            }
            x = x + dx;
            y = y + dy;
            let ghost prev = pts@;
            pts.push((x, y));
            assert(points(pts@) =~= points(prev).push((x as int, y as int)));
            assert(Seq::new(
                (k + 1) as nat,
                |i: int| (s.0 + dx * (i + 1), s.1 + dy * (i + 1)),
            ) =~= Seq::new(
                k as nat,
                |i: int| (s.0 + dx * (i + 1), s.1 + dy * (i + 1)),
            ).push((x as int, y as int)));
            k = k + 1;
            assert(points(pts@) =~= base + Seq::new(
                k as nat,
                |i: int| (s.0 + dx * (i + 1), s.1 + dy * (i + 1)),
            ));
        }
        assert(segs.push(seg).last() == seg);
        assert(points(pts@) =~= walk(segs.push(seg)));
        proof {
            if n > 0 {
                assert(points(pts@).last() == (s.0 + dx * n, s.1 + dy * n));
            }
        }
        j = j + 1;
    }
    assert(fs.subrange(0, j as int) =~= fs);
    Ok(pts)
}

/// The path of a wire line such as `R8,U5,L5,D3`.
pub fn lines_to_points(line: &str) -> (r: Result<Vec<(i64, i64)>, ParseError>)
    ensures
        match wire_path(line.spec_bytes()) {
            Some(p) => (r is Ok) && points(r->Ok_0@) == p,
            None => r == Err::<Vec<(i64, i64)>, ParseError>(ParseError::InvalidWire),
        },
{
    let b = line.as_bytes();
    assert(b@.subrange(0, b@.len() as int) =~= b@);
    wire_points(b, 0, b.len())
}

pub open spec fn abs(x: int) -> int {
    if x < 0 {
        -x
    } else {
        x
    }
}

/// The index of the first visit of `p` in `path`.
pub open spec fn first_pos(path: Seq<(int, int)>, p: (int, int)) -> Option<int>
    decreases path.len(),
{
    if path.len() == 0 {
        None
    } else {
        match first_pos(path.drop_last(), p) {
            Some(k) => Some(k),
            None => if path.last() == p {
                Some(path.len() - 1)
            } else {
                None
            },
        }
    }
}

/// Where the first wire, at its `k`-th point, meets the second: that
/// point's distance from the origin, or the steps that both wires take to
/// reach it; `None` where the second wire never passes there.
pub open spec fn crossing_cost(path1: Seq<(int, int)>, path2: Seq<(int, int)>, k: int, by_steps: bool) -> Option<
    int,
> {
    match first_pos(path2, path1[k]) {
        None => None,
        Some(j) => Some(
            if by_steps {
                (k + 1) + (j + 1)
            } else {
                abs(path1[k].0) + abs(path1[k].1)
            },
        ),
    }
}

/// The least crossing cost over the first `n` points of the first wire.
/// A point that the first wire visits again costs more in steps than at
/// its first visit, so by steps this is the least over first visits.
pub open spec fn best_crossing(path1: Seq<(int, int)>, path2: Seq<(int, int)>, n: nat, by_steps: bool) -> Option<
    int,
>
    decreases n,
{
    if n == 0 {
        None
    } else {
        let m = best_crossing(path1, path2, (n - 1) as nat, by_steps);
        match crossing_cost(path1, path2, n - 1, by_steps) {
            None => m,
            Some(c) => match m {
                None => Some(c),
                Some(v) => Some(
                    if c < v {
                        c
                    } else {
                        v
                    },
                ),
            },
        }
    }
}

/// A number for each point in the plane, different for different points.
pub open spec fn point_key(p: (int, int)) -> int {
    (p.0 + 2147483648) * 4294967296 + (p.1 + 2147483648)
}

proof fn lemma_point_key(p: (int, int), q: (int, int))
    requires
        in_plane(p),
        in_plane(q),
    ensures
        0 <= point_key(p) <= u64::MAX,
        point_key(p) == point_key(q) ==> p == q,
{
    let a = p.0 + 2147483648;
    let b = p.1 + 2147483648;
    let c = q.0 + 2147483648;
    let d = q.1 + 2147483648;
    assert(0 <= a * 4294967296 + b <= u64::MAX) by (nonlinear_arith)
        requires
            0 < a < 4294967296,
            0 < b < 4294967296,
    ;
    if point_key(p) == point_key(q) {
        assert(a == c && b == d) by (nonlinear_arith)
            requires
                a * 4294967296 + b == c * 4294967296 + d,
                0 < b < 4294967296,
                0 < d < 4294967296,
        ;
    }
}

fn key_of(p: (i64, i64)) -> (r: u64)
    requires
        in_plane((p.0 as int, p.1 as int)),
    ensures
        r == point_key((p.0 as int, p.1 as int)),
{
    proof {
        lemma_point_key((p.0 as int, p.1 as int), (p.0 as int, p.1 as int));
    }
    ((p.0 + 2147483648) as u64) * 4294967296 + ((p.1 + 2147483648) as u64)
}

/// The least crossing cost of two wire paths.
fn crossing(path1: &Vec<(i64, i64)>, path2: &Vec<(i64, i64)>, by_steps: bool) -> (r: Option<i64>)
    requires
        on_grid(path1@),
        on_grid(path2@),
    ensures
        match best_crossing(points(path1@), points(path2@), path1@.len(), by_steps) {
            Some(v) => r == Some(v as i64),
            None => r is None,
        },
{
    let ghost view2 = points(path2@);
    let mut seen: HashMap<u64, u64> = HashMap::new();
    let mut j: usize = 0;
    while j < path2.len()
        invariant
            view2 == points(path2@),
            on_grid(path2@),
            j <= path2@.len(),
            forall|p: (int, int)|
                in_plane(p) ==> (seen@.contains_key(#[trigger] point_key(p) as u64) <==> first_pos(
                    view2.subrange(0, j as int),
                    p,
                ) is Some),
            forall|p: (int, int)|
                in_plane(p) && first_pos(view2.subrange(0, j as int), p) is Some ==> seen@[
                    #[trigger] point_key(p) as u64] == first_pos(view2.subrange(0, j as int), p)->Some_0,
        decreases path2@.len() - j,
    {
        let q = path2[j];
        assert(in_plane((q.0 as int, q.1 as int)));
        let key = key_of(q);
        let ghost pre = view2.subrange(0, j as int);
        let ghost next = view2.subrange(0, j + 1);
        assert(next.drop_last() =~= pre);
        assert(next.last() == (q.0 as int, q.1 as int));
        let ghost old_seen = seen@;
        if !seen.contains_key(&key) {
            seen.insert(key, j as u64);
        }
        proof {
            assert forall|p: (int, int)| in_plane(p) implies (seen@.contains_key(
                #[trigger] point_key(p) as u64,
            ) <==> first_pos(next, p) is Some) && (first_pos(next, p) is Some ==> seen@[point_key(p) as u64]
                == first_pos(next, p)->Some_0) by {
                lemma_point_key(p, (q.0 as int, q.1 as int));
                lemma_point_key((q.0 as int, q.1 as int), p);
            }
        }
        j = j + 1;
    }
    assert(view2.subrange(0, j as int) =~= view2);
    let ghost view1 = points(path1@);
    let mut best: Option<i64> = None;
    let mut k: usize = 0;
    while k < path1.len()
        invariant
            view1 == points(path1@),
            view2 == points(path2@),
            on_grid(path1@),
            on_grid(path2@),
            k <= path1@.len(),
            forall|p: (int, int)|
                in_plane(p) ==> (seen@.contains_key(#[trigger] point_key(p) as u64) <==> first_pos(
                    view2,
                    p,
                ) is Some),
            forall|p: (int, int)|
                in_plane(p) && first_pos(view2, p) is Some ==> seen@[#[trigger] point_key(p) as u64]
                    == first_pos(view2, p)->Some_0,
            match best_crossing(view1, view2, k as nat, by_steps) {
                Some(v) => best == Some(v as i64) && 0 <= v <= 4294967296,
                None => best is None,
            },
        decreases path1@.len() - k,
    {
        let q = path1[k];
        let ghost pq = (q.0 as int, q.1 as int);
        assert(view1[k as int] == pq);
        assert(in_plane(pq));
        let key = key_of(q);
        match seen.get(&key) {
            None => {
                assert(first_pos(view2, pq) is None);
            },
            Some(j) => {
                let j = *j;
                assert(first_pos(view2, pq) == Some(j as int));
                proof {
                    lemma_first_pos_bound(view2, pq);
                }
                let cost: i64 = if by_steps {
                    (k as i64 + 1) + (j as i64 + 1)
                } else {
                    let ax: i64 = if q.0 < 0 {
                        -q.0
                    } else {
                        q.0
                    };
                    let ay: i64 = if q.1 < 0 {
                        -q.1
                    } else {
                        q.1
                    };
                    ax + ay
                };
                best = match best {
                    None => Some(cost),
                    Some(v) => if cost < v {
                        Some(cost)
                    } else {
                        Some(v)
                    },
                };
            },
        }
        k = k + 1;
    }
    best
}

proof fn lemma_first_pos_bound(s: Seq<(int, int)>, p: (int, int))
    ensures
        first_pos(s, p) matches Some(j) ==> 0 <= j < s.len(),
    decreases s.len(),
{
    if s.len() > 0 {
        lemma_first_pos_bound(s.drop_last(), p);
    }
}

/// What the two wires of a layout give: their least crossing cost, `None`
/// where they never cross.
pub open spec fn layout_crossing(layout: Seq<u8>, by_steps: bool) -> Result<Option<int>, ParseError> {
    let ls = text_lines(layout);
    if ls.len() < 2 {
        Err(ParseError::MalformedLine)
    } else {
        match (wire_path(ls[0]), wire_path(ls[1])) {
            (Some(path1), Some(path2)) => Ok(best_crossing(path1, path2, path1.len(), by_steps)),
            _ => Err(ParseError::InvalidWire),
        }
    }
}

fn layout_crossing_of(layout: &str, by_steps: bool) -> (r: Result<Option<i64>, ParseError>)
    ensures
        match layout_crossing(layout.spec_bytes(), by_steps) {
            Err(e) => r == Err::<Option<i64>, ParseError>(e),
            Ok(Some(v)) => r == Ok::<Option<i64>, ParseError>(Some(v as i64)),
            Ok(None) => r == Ok::<Option<i64>, ParseError>(None),
        },
{
    let b = layout.as_bytes();
    let lines = field_bounds(b, 0, b.len(), 10);
    assert(b@.subrange(0, b@.len() as int) =~= b@);
    proof {
        crate::text::lemma_split_fields_nonempty(b@, 10);
    }
    let ghost ls = text_lines(b@);
    let last = lines.len() - 1;
    let n = if lines[last].0 == lines[last].1 {
        last
    } else {
        lines.len()
    };
    assert(ls.len() == n);
    if n < 2 {
        return Err(ParseError::MalformedLine);
    }
    assert(b@.subrange(lines@[0].0 as int, lines@[0].1 as int) == ls[0]);
    assert(b@.subrange(lines@[1].0 as int, lines@[1].1 as int) == ls[1]);
    let path1 = match wire_points(b, lines[0].0, lines[0].1) {
        Ok(p) => p,
        Err(e) => return Err(e),
    };
    let path2 = match wire_points(b, lines[1].0, lines[1].1) {
        Ok(p) => p,
        Err(e) => return Err(e),
    };
    Ok(crossing(&path1, &path2, by_steps))
}

/// The distance from the origin of the crossing of the two wires of
/// `layout` nearest to it; `None` where they never cross.
pub fn intersect_wires(layout: &str) -> (r: Result<Option<i64>, ParseError>)
    ensures
        match layout_crossing(layout.spec_bytes(), false) {
            Err(e) => r == Err::<Option<i64>, ParseError>(e),
            Ok(Some(v)) => r == Ok::<Option<i64>, ParseError>(Some(v as i64)),
            Ok(None) => r == Ok::<Option<i64>, ParseError>(None),
        },
{
    layout_crossing_of(layout, false)
}

/// The fewest combined steps that the two wires of `layout` take to reach
/// a crossing; `None` where they never cross.
pub fn intersect_wires_by_steps(layout: &str) -> (r: Result<Option<i64>, ParseError>)
    ensures
        match layout_crossing(layout.spec_bytes(), true) {
            Err(e) => r == Err::<Option<i64>, ParseError>(e),
            Ok(Some(v)) => r == Ok::<Option<i64>, ParseError>(Some(v as i64)),
            Ok(None) => r == Ok::<Option<i64>, ParseError>(None),
        },
{
    layout_crossing_of(layout, true)
}

} // verus!
