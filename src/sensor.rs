//! Sensors that each cover the cells no further, in Manhattan distance, than
//! their closest beacon.
use vstd::prelude::*;
use crate::numbers::{i32_of, parse_i32};
use regex::Regex;

verus! {

pub type Coord = (i32, i32);

/// The Manhattan distance between two points.
pub open spec fn manhattan(a: Coord, b: Coord) -> int {
    let dx = b.0 - a.0;
    let dy = b.1 - a.1;
    (if dx >= 0 { dx } else { -dx }) + (if dy >= 0 { dy } else { -dy })
}

/// Point `k` of a walk round the square of radius `r` (in Manhattan
/// distance) about `s`: clockwise from the top corner, `4 * r` points.
pub open spec fn ring_point(s: Coord, r: int, k: int) -> (int, int) {
    let (sx, sy) = (s.0 as int, s.1 as int);
    if k <= r {
        (sx + k, sy - r + k)
    } else if k <= 2 * r {
        let t = k - r - 1;
        (sx + r - 1 - t, sy + 1 + t)
    } else if k <= 3 * r {
        let t = k - 2 * r - 1;
        (sx - 1 - t, sy + r - 1 - t)
    } else {
        let t = k - 3 * r - 1;
        (sx - r + 1 + t, sy - 1 - t)
    }
}

pub open spec fn in_square(p: (int, int), lo: int, hi: int) -> bool {
    lo <= p.0 <= hi && lo <= p.1 <= hi
}

/// The points just outside the sensor's reach that lie in the square from
/// `lo` to `hi` on both axes, in walking order.
pub open spec fn perimeter(s: Coord, range: int, lo: int, hi: int) -> Seq<(int, int)> {
    Seq::new((4 * (range + 1)) as nat, |k: int| ring_point(s, range + 1, k)).filter(
        |p: (int, int)| in_square(p, lo, hi),
    )
}

#[derive(Debug)]
pub struct Sensor {
    pub pos: Coord,
    pub closest_beacon: Coord,
    pub covered_range: u32,
}

impl Sensor {
    /// The points just outside the sensor's range, within the square from
    /// `lower_bound` to `upper_bound` on both axes, walked clockwise from the
    /// top corner.
    pub fn sensor_perimiter(&self, lower_bound: i32, upper_bound: i32) -> (r: Vec<Coord>)
        requires
            self.covered_range < i32::MAX,
            i32::MIN <= self.pos.0 - self.covered_range - 1,
            self.pos.0 + self.covered_range + 1 <= i32::MAX,
            i32::MIN <= self.pos.1 - self.covered_range - 1,
            self.pos.1 + self.covered_range + 1 <= i32::MAX,
        ensures
            r@.map_values(|c: Coord| (c.0 as int, c.1 as int)) == perimeter(
                self.pos,
                self.covered_range as int,
                lower_bound as int,
                upper_bound as int,
            ),
    {
        let ghost rr = self.covered_range as int + 1;
        let ghost pred = |p: (int, int)| in_square(p, lower_bound as int, upper_bound as int);
        let ghost walk = |k: int| ring_point(self.pos, rr, k);
        let range: i64 = self.covered_range as i64 + 1;
        let sx: i64 = self.pos.0 as i64;
        let sy: i64 = self.pos.1 as i64;
        let lo: i64 = lower_bound as i64;
        let hi: i64 = upper_bound as i64;
        let total: i64 = 4 * range;
        let mut out: Vec<Coord> = Vec::new();
        let mut k: i64 = 0;
        proof {
            reveal(Seq::filter);
            assert(Seq::new(0, walk) =~= Seq::<(int, int)>::empty());
        }
        while k < total
            invariant
                range == rr,
                1 <= range <= i32::MAX,
                sx == self.pos.0,
                sy == self.pos.1,
                i32::MIN <= sx - range,
                sx + range <= i32::MAX,
                i32::MIN <= sy - range,
                sy + range <= i32::MAX,
                lo == lower_bound,
                hi == upper_bound,
                total == 4 * range,
                0 <= k <= total,
                pred == (|p: (int, int)| in_square(p, lower_bound as int, upper_bound as int)),
                walk == (|k: int| ring_point(self.pos, rr, k)),
                out@.map_values(|c: Coord| (c.0 as int, c.1 as int)) == Seq::new(k as nat, walk).filter(pred),
            decreases total - k,
        {
            let (x, y) = if k <= range {
                (sx + k, sy - range + k)
            } else if k <= 2 * range {
                let t = k - range - 1;
                (sx + range - 1 - t, sy + 1 + t)
            } else if k <= 3 * range {
                let t = k - 2 * range - 1;
                (sx - 1 - t, sy + range - 1 - t)
            } else {
                let t = k - 3 * range - 1;
                (sx - range + 1 + t, sy - 1 - t)
            };
            let ghost before = out@;
            proof {
                reveal(Seq::filter);
                assert(Seq::new(k as nat + 1, walk).drop_last() =~= Seq::new(k as nat, walk));
                assert(Seq::new(k as nat + 1, walk).last() == (x as int, y as int));
            }
            if lo <= x && x <= hi && lo <= y && y <= hi {
                out.push((x as i32, y as i32));
                assert(out@.map_values(|c: Coord| (c.0 as int, c.1 as int)) =~= before.map_values(
                    |c: Coord| (c.0 as int, c.1 as int),
                ).push((x as int, y as int)));
            }
            k += 1;
        }
        out
    }

    /// The point is no further from the sensor than its closest beacon.
    pub fn is_within_range(&self, c: Coord) -> (r: bool)
        requires
            manhattan(self.pos, c) <= u32::MAX,
        ensures
            r == (manhattan(self.pos, c) <= self.covered_range),
    {
        Sensor::manhattan_distance(self.pos, c) <= self.covered_range
    }

    /// A sensor at `pos` whose closest beacon is at `closest_beacon`.
    pub fn new(pos: Coord, closest_beacon: Coord) -> (r: Sensor)
        requires
            manhattan(pos, closest_beacon) <= u32::MAX,
        ensures
            r.pos == pos,
            r.closest_beacon == closest_beacon,
            r.covered_range == manhattan(pos, closest_beacon),
    {
        let covered_range = Sensor::manhattan_distance(pos, closest_beacon);
        Sensor { pos, closest_beacon, covered_range }
    }

    pub fn manhattan_distance(a: Coord, b: Coord) -> (r: u32)
        requires
            manhattan(a, b) <= u32::MAX,
        ensures
            r == manhattan(a, b),
    {
        let dx: i64 = b.0 as i64 - a.0 as i64;
        let dy: i64 = b.1 as i64 - a.1 as i64;
        let ax: i64 = if dx >= 0 { dx } else { -dx };
        let ay: i64 = if dy >= 0 { dy } else { -dy };
        (ax + ay) as u32
    }
}

/// The first two capture groups of each match of a regular expression in a
/// text, left to right.
pub uninterp spec fn pair_captures(pattern: Seq<char>, text: Seq<char>) -> Seq<(Seq<char>, Seq<char>)>;

/// How a coordinate pair is written in a report line.
pub open spec fn coordinate_pattern() -> Seq<char> {
    "x=(-?\\d+), y=(-?\\d+)"@
}

/// The two numbers of each coordinate pair in a report line, in order.
pub open spec fn coordinate_matches(line: Seq<char>) -> Seq<(Seq<char>, Seq<char>)> {
    pair_captures(coordinate_pattern(), line)
}

/// Relies on `regex::Regex::new` and `regex::Regex::captures_iter`: the
/// pattern, which is valid and has two capture groups, is compiled, and each
/// of its matches in `text`, left to right, gives its first two groups.
#[verifier::external_body]
fn captures_of(pattern: &str, text: &str) -> (r: Vec<(String, String)>)
    requires
        pattern@ == coordinate_pattern(),
    ensures
        r@.map_values(|p: (String, String)| (p.0@, p.1@)) == pair_captures(pattern@, text@),
{
    let re = Regex::new(pattern).unwrap();
    re.captures_iter(text).map(|cap| (cap[1].to_string(), cap[2].to_string())).collect()
}

/// The point that two captured numbers name, if both read as `i32`.
pub open spec fn point_of(p: (Seq<char>, Seq<char>)) -> Option<Coord> {
    match (i32_of(p.0), i32_of(p.1)) {
        (Some(x), Some(y)) => Some((x, y)),
        _ => None,
    }
}

/// The sensor that a report line describes, given its coordinate matches:
/// the first is the sensor, the second its closest beacon.
pub open spec fn sensor_of(m: Seq<(Seq<char>, Seq<char>)>) -> Option<(Coord, Coord)> {
    if m.len() >= 2 && (forall|k: int| 0 <= k < m.len() ==> (#[trigger] point_of(m[k])) is Some) && manhattan(
        point_of(m[0])->0,
        point_of(m[1])->0,
    ) <= u32::MAX {
        Some((point_of(m[0])->0, point_of(m[1])->0))
    } else {
        None
    }
}

impl Sensor {
    /// Builds a sensor from the coordinate matches of its report line; every
    /// match must read as a point, and there must be two.
    pub fn from_matches(pairs: &Vec<(String, String)>) -> (r: Result<Sensor, String>)
        ensures
            match sensor_of(pairs@.map_values(|p: (String, String)| (p.0@, p.1@))) {
                Some((pos, beacon)) => r matches Ok(s) && s.pos == pos && s.closest_beacon == beacon
                    && s.covered_range == manhattan(pos, beacon),
                None => r is Err,
            },
    {
        let ghost m = pairs@.map_values(|p: (String, String)| (p.0@, p.1@));
        let mut points: Vec<Coord> = Vec::new();
        let mut k: usize = 0;
        while k < pairs.len()
            invariant
                m == pairs@.map_values(|p: (String, String)| (p.0@, p.1@)),
                k <= pairs.len(),
                points.len() == k,
                forall|j: int| 0 <= j < k ==> point_of(#[trigger] m[j]) == Some(points[j]),
            decreases pairs.len() - k,
        {
            let x = parse_i32(pairs[k].0.as_str());
            let y = parse_i32(pairs[k].1.as_str());
            match (x, y) {
                (Some(x), Some(y)) => {
                    points.push((x, y));
                },
                _ => {
                    proof {
                        assert(point_of(m[k as int]) is None);
                    }
                    return Err("invalid coordinate".to_owned());
                },
            }
            k += 1;
        }
        if points.len() < 2 {
            return Err("expected a sensor and a beacon".to_owned());
        }
        let pos = points[0];
        let beacon = points[1];
        let dx: i64 = pos.0 as i64 - beacon.0 as i64;
        let dy: i64 = pos.1 as i64 - beacon.1 as i64;
        let ax: i64 = if dx >= 0 { dx } else { -dx };
        let ay: i64 = if dy >= 0 { dy } else { -dy };
        if ax + ay > u32::MAX as i64 {
            return Err("sensor and beacon too far apart".to_owned());
        }
        Ok(Sensor::new(pos, beacon))
    }

    /// Reads one sensor per report line such as
    /// `Sensor at x=2, y=18: closest beacon is at x=-2, y=15`.
    pub fn parse(ls: Vec<String>) -> (r: Result<Vec<Sensor>, String>)
        ensures
            match r {
                Ok(v) => v.len() == ls.len() && forall|k: int|
                    0 <= k < ls.len() ==> sensor_of(coordinate_matches(#[trigger] ls[k]@)) == Some(
                        (v[k].pos, v[k].closest_beacon),
                    ),
                Err(_) => exists|k: int| 0 <= k < ls.len() && sensor_of(coordinate_matches(#[trigger] ls[k]@)) is None,
            },
    {
        let mut out: Vec<Sensor> = Vec::new();
        let mut k: usize = 0;
        while k < ls.len()
            invariant
                k <= ls.len(),
                out.len() == k,
                forall|j: int|
                    0 <= j < k ==> sensor_of(coordinate_matches(#[trigger] ls[j]@)) == Some(
                        (out[j].pos, out[j].closest_beacon),
                    ),
            decreases ls.len() - k,
        {
            let pairs = captures_of("x=(-?\\d+), y=(-?\\d+)", ls[k].as_str());
            match Sensor::from_matches(&pairs) {
                Ok(s) => {
                    out.push(s);
                },
                Err(e) => {
                    return Err(e);
                },
            }
            k += 1;
        }
        Ok(out)
    }
}

/// Some sensor reaches the point.
pub open spec fn covered(sensors: Seq<Sensor>, c: (int, int)) -> bool {
    exists|k: int|
        0 <= k < sensors.len() && #[trigger] manhattan(sensors[k].pos, (c.0 as i32, c.1 as i32))
            <= sensors[k].covered_range
}

/// The perimeters of the first `n` sensors within the square from 0 to
/// `bound`, one after the other.
pub open spec fn perimeters(sensors: Seq<Sensor>, n: int, bound: int) -> Seq<(int, int)>
    decreases n,
{
    if n <= 0 {
        Seq::empty()
    } else {
        perimeters(sensors, n - 1, bound) + perimeter(sensors[n - 1].pos, sensors[n - 1].covered_range as int, 0, bound)
    }
}

/// The sensor's position and reach are small enough for the search.
pub open spec fn modest(s: Sensor) -> bool {
    -1_000_000_000 <= s.pos.0 <= 1_000_000_000 && -1_000_000_000 <= s.pos.1 <= 1_000_000_000 && s.covered_range
        <= 1_000_000_000
}

proof fn lemma_perimeter_in_square(s: Coord, range: int, lo: int, hi: int, k: int)
    requires
        0 <= k < perimeter(s, range, lo, hi).len(),
    ensures
        in_square(perimeter(s, range, lo, hi)[k], lo, hi),
{
    let all = Seq::new((4 * (range + 1)) as nat, |k: int| ring_point(s, range + 1, k));
    all.lemma_filter_pred(|p: (int, int)| in_square(p, lo, hi), k);
}

/// The first point just outside some sensor's reach, within the square from
/// 0 to `bound`, that no sensor reaches: the sensors are taken in order, and
/// each one's perimeter in walking order.
pub fn find_distress(sensors: &Vec<Sensor>, bound: i32) -> (r: Option<Coord>)
    requires
        0 <= bound <= 1_000_000_000,
        forall|k: int| 0 <= k < sensors.len() ==> modest(#[trigger] sensors[k]),
    ensures
        ({
            let all = perimeters(sensors@, sensors.len() as int, bound as int);
            match r {
                Some(c) => exists|i: int|
                    0 <= i < all.len() && all[i] == (c.0 as int, c.1 as int) && !covered(sensors@, all[i]) && forall|j: int|
                        0 <= j < i ==> covered(sensors@, #[trigger] all[j]),
                None => forall|j: int| 0 <= j < all.len() ==> covered(sensors@, #[trigger] all[j]),
            }
        }),
{
    let mut k: usize = 0;
    while k < sensors.len()
        invariant
            0 <= bound <= 1_000_000_000,
            forall|i: int| 0 <= i < sensors.len() ==> modest(#[trigger] sensors[i]),
            k <= sensors.len(),
            forall|j: int|
                0 <= j < perimeters(sensors@, k as int, bound as int).len() ==> covered(
                    sensors@,
                    #[trigger] perimeters(sensors@, k as int, bound as int)[j],
                ),
        decreases sensors.len() - k,
    {
        let ghost before = perimeters(sensors@, k as int, bound as int);
        let ring = sensors[k].sensor_perimiter(0, bound);
        let ghost ring_v = ring@.map_values(|c: Coord| (c.0 as int, c.1 as int));
        assert(ring_v == perimeter(sensors[k as int].pos, sensors[k as int].covered_range as int, 0, bound as int));
        assert(perimeters(sensors@, k as int + 1, bound as int) == before + ring_v);
        let mut i: usize = 0;
        while i < ring.len()
            invariant
                0 <= bound <= 1_000_000_000,
                forall|x: int| 0 <= x < sensors.len() ==> modest(#[trigger] sensors[x]),
                k < sensors.len(),
                ring_v == ring@.map_values(|c: Coord| (c.0 as int, c.1 as int)),
                ring_v == perimeter(sensors[k as int].pos, sensors[k as int].covered_range as int, 0, bound as int),
                perimeters(sensors@, k as int + 1, bound as int) == before + ring_v,
                i <= ring.len(),
                forall|j: int| 0 <= j < before.len() ==> covered(sensors@, #[trigger] before[j]),
                forall|j: int| 0 <= j < i ==> covered(sensors@, #[trigger] ring_v[j]),
            decreases ring.len() - i,
        {
            let c = ring[i];
            proof {
                lemma_perimeter_in_square(sensors[k as int].pos, sensors[k as int].covered_range as int, 0, bound as int, i as int);
                assert(ring_v[i as int] == (c.0 as int, c.1 as int));
            }
            let mut any = false;
            let mut m: usize = 0;
            while m < sensors.len()
                invariant
                    0 <= c.0 <= 1_000_000_000,
                    0 <= c.1 <= 1_000_000_000,
                    forall|x: int| 0 <= x < sensors.len() ==> modest(#[trigger] sensors[x]),
                    m <= sensors.len(),
                    any == exists|x: int|
                        0 <= x < m && #[trigger] manhattan(sensors[x].pos, c) <= sensors[x].covered_range,
                decreases sensors.len() - m,
            {
                assert(modest(sensors[m as int]));
                if sensors[m].is_within_range(c) {
                    any = true;
                }
                m += 1;
            }
            if !any {
                proof {
                    let all = perimeters(sensors@, sensors.len() as int, bound as int);
                    lemma_perimeters_prefix(sensors@, k as int + 1, sensors.len() as int, bound as int);
                    let idx = before.len() + i;
                    assert(all[idx] == (before + ring_v)[idx]);
                    assert((c.0 as int as i32, c.1 as int as i32) == c);
                    assert forall|j: int| 0 <= j < idx implies covered(sensors@, #[trigger] all[j]) by {
                        assert(all[j] == (before + ring_v)[j]);
                        if j >= before.len() {
                            assert(covered(sensors@, ring_v[j - before.len()]));
                        }
                    }
                }
                return Some(c);
            }
            proof {
                assert(covered(sensors@, ring_v[i as int])) by {
                    assert((c.0 as int as i32, c.1 as int as i32) == c);
                }
            }
            i += 1;
        }
        proof {
            let next = perimeters(sensors@, k as int + 1, bound as int);
            assert forall|j: int| 0 <= j < next.len() implies covered(sensors@, #[trigger] next[j]) by {
                if j < before.len() {
                    assert(next[j] == before[j]);
                } else {
                    assert(next[j] == ring_v[j - before.len()]);
                }
            }
        }
        k += 1;
    }
    None
}

/// A shorter run of perimeters is the start of a longer one.
proof fn lemma_perimeters_prefix(sensors: Seq<Sensor>, n: int, m: int, bound: int)
    requires
        0 <= n <= m,
    ensures
        perimeters(sensors, n, bound).len() <= perimeters(sensors, m, bound).len(),
        forall|j: int|
            0 <= j < perimeters(sensors, n, bound).len() ==> #[trigger] perimeters(sensors, m, bound)[j] == perimeters(
                sensors,
                n,
                bound,
            )[j],
    decreases m - n,
{
    if n < m {
        lemma_perimeters_prefix(sensors, n, m - 1, bound);
    }
}

} // verus!
