use broadphase::geometry::{IndexGenerator, SystemBounds, TestGeometry, UNBOUNDED};
use broadphase::index::SpatialIndex;
use broadphase::layer::{Layer, LayerBuilder};
use broadphase::order::{dedup_ids, dedup_pairs, entry_order, lower_bound};
use broadphase::parallel::SPLIT_THRESHOLD;
use broadphase::query::consider;
use std::cell::Cell;
use std::cmp::Ordering;
use std::sync::atomic::{AtomicUsize, Ordering as AtomicOrdering};

const MAX_DEPTH: u32 = 16;

/// A quadtree cell: two bits for each level, the first level in the top
/// bits, and the depth.
#[derive(Clone, Copy, Debug, PartialEq, Eq, PartialOrd, Ord)]
struct Quad {
    code: u32,
    depth: u32,
}

impl Quad {
    fn child(&self, k: u32) -> Quad {
        Quad { code: self.code | (k << (30 - 2 * self.depth)), depth: self.depth + 1 }
    }

    fn at(path: &[u32]) -> Quad {
        let mut cell = Quad { code: 0, depth: 0 };
        for &k in path {
            cell = cell.child(k);
        }
        cell
    }

    fn prefix(&self, d: u32) -> u32 {
        if d == 0 {
            0
        } else {
            self.code >> (32 - 2 * d)
        }
    }
}

impl SpatialIndex for Quad {
    fn root() -> Self {
        Quad { code: 0, depth: 0 }
    }

    fn depth(&self) -> u32 {
        self.depth
    }

    fn subdivide(&self) -> Option<Vec<Self>> {
        if self.depth >= MAX_DEPTH {
            None
        } else {
            Some((0..4).map(|k| self.child(k)).collect())
        }
    }

    fn overlaps(&self, other: &Self) -> bool {
        let d = self.depth.min(other.depth);
        self.prefix(d) == other.prefix(d)
    }

    fn same_cell_at_depth(lhs: &Self, rhs: &Self, depth: u32) -> bool {
        lhs.depth >= depth && rhs.depth >= depth && lhs.prefix(depth) == rhs.prefix(depth)
    }

    fn precedes(&self, other: &Self) -> bool {
        self < other
    }
}

#[derive(Clone, Copy, Debug, PartialEq)]
struct Aabb {
    min: [f32; 2],
    max: [f32; 2],
}

fn aabb(x0: f32, y0: f32, x1: f32, y1: f32) -> Aabb {
    Aabb { min: [x0, y0], max: [x1, y1] }
}

fn square(lo: f32, hi: f32) -> Aabb {
    aabb(lo, lo, hi, hi)
}

fn unit() -> Aabb {
    square(0.0, 1.0)
}

fn child_box(cell: Aabb, k: usize) -> Aabb {
    let mut out = cell;
    for axis in 0..2 {
        let mid = 0.5 * (cell.min[axis] + cell.max[axis]);
        if (k >> axis) & 1 == 0 {
            out.max[axis] = mid;
        } else {
            out.min[axis] = mid;
        }
    }
    out
}

fn cover(cell: Quad, cell_box: Aabb, bounds: Aabb, min_depth: u32, out: &mut Vec<Quad>) {
    if cell.depth >= MAX_DEPTH {
        out.push(cell);
        return;
    }
    let mut touched = Vec::new();
    for k in 0..4usize {
        let mut hit = true;
        for axis in 0..2 {
            let mid = 0.5 * (cell_box.min[axis] + cell_box.max[axis]);
            let low = bounds.min[axis] < mid;
            let high = bounds.max[axis] > mid || bounds.min[axis] >= mid;
            hit = hit && if (k >> axis) & 1 == 0 { low } else { high };
        }
        if hit {
            touched.push(k);
        }
    }
    if touched.len() == 1 {
        let k = touched[0];
        cover(cell.child(k as u32), child_box(cell_box, k), bounds, min_depth, out);
    } else if cell.depth >= min_depth {
        out.push(cell);
    } else {
        for k in touched {
            let part = child_box(cell_box, k);
            let mut clipped = bounds;
            for axis in 0..2 {
                clipped.min[axis] = clipped.min[axis].max(part.min[axis]);
                clipped.max[axis] = clipped.max[axis].min(part.max[axis]);
            }
            cover(cell.child(k as u32), part, clipped, min_depth, out);
        }
    }
}

impl SystemBounds<Aabb> for Aabb {
    type Local = Aabb;

    fn contains(&self, bounds: &Aabb) -> bool {
        (0..2).all(|a| bounds.min[a] >= self.min[a] && bounds.max[a] <= self.max[a])
    }

    fn to_local(&self, bounds: &Aabb) -> Aabb {
        let mut out = *bounds;
        for a in 0..2 {
            let size = self.max[a] - self.min[a];
            out.min[a] = (bounds.min[a] - self.min[a]) / size;
            out.max[a] = (bounds.max[a] - self.min[a]) / size;
        }
        out
    }
}

impl IndexGenerator<Quad> for Aabb {
    fn indices(&self, min_depth: Option<u32>) -> Vec<Quad> {
        let mut out = Vec::new();
        cover(Quad::root(), unit(), *self, min_depth.unwrap_or(0), &mut out);
        out
    }
}

/// The geometry of a box test: the box of the current cell and the query.
#[derive(Clone, Copy, Debug)]
struct BoxGeom {
    cell: Aabb,
    query: Aabb,
    depth: u32,
}

fn box_geom(query: Aabb) -> BoxGeom {
    BoxGeom { cell: unit(), query, depth: 0 }
}

impl TestGeometry for BoxGeom {
    fn should_test(&self, _nearest: u64) -> bool {
        (0..2).all(|a| self.cell.min[a] <= self.query.max[a] && self.query.min[a] <= self.cell.max[a])
    }

    fn subdivide(&self) -> Vec<Self> {
        (0..4)
            .map(|k| BoxGeom { cell: child_box(self.cell, k), query: self.query, depth: self.depth + 1 })
            .collect()
    }

    fn test_order(&self) -> Vec<usize> {
        vec![0, 1, 2, 3]
    }
}

fn key(d: f32) -> u64 {
    if d.is_nan() || d == f32::INFINITY {
        UNBOUNDED
    } else {
        d.max(0.0).to_bits() as u64
    }
}

fn from_key(k: u64) -> f32 {
    if k > u32::MAX as u64 {
        f32::INFINITY
    } else {
        f32::from_bits(k as u32)
    }
}

/// The geometry of a ray test: the stretch of the ray inside the current
/// cell.
#[derive(Clone, Copy, Debug)]
struct RayGeom {
    cell: Aabb,
    origin: [f32; 2],
    dir: [f32; 2],
    tmin: f32,
    tmax: f32,
}

fn clip(cell: Aabb, origin: [f32; 2], dir: [f32; 2], mut tmin: f32, mut tmax: f32) -> (f32, f32) {
    for a in 0..2 {
        if dir[a] == 0.0 {
            if origin[a] < cell.min[a] || origin[a] > cell.max[a] {
                return (1.0, 0.0);
            }
        } else {
            let t0 = (cell.min[a] - origin[a]) / dir[a];
            let t1 = (cell.max[a] - origin[a]) / dir[a];
            tmin = tmin.max(t0.min(t1));
            tmax = tmax.min(t0.max(t1));
        }
    }
    (tmin, tmax)
}

fn ray_geom(origin: [f32; 2], dir: [f32; 2], range_min: f32, range_max: f32) -> RayGeom {
    let (tmin, tmax) = clip(unit(), origin, dir, range_min, range_max);
    RayGeom { cell: unit(), origin, dir, tmin, tmax }
}

impl TestGeometry for RayGeom {
    fn should_test(&self, nearest: u64) -> bool {
        self.tmin <= from_key(nearest) && self.tmin <= self.tmax
    }

    fn subdivide(&self) -> Vec<Self> {
        (0..4)
            .map(|k| {
                let cell = child_box(self.cell, k);
                let (tmin, tmax) = clip(cell, self.origin, self.dir, self.tmin, self.tmax);
                RayGeom { cell, origin: self.origin, dir: self.dir, tmin, tmax }
            })
            .collect()
    }

    fn test_order(&self) -> Vec<usize> {
        let parts = self.subdivide();
        let mut order: Vec<usize> = vec![0, 1, 2, 3];
        order.sort_by(|&a, &b| parts[a].tmin.partial_cmp(&parts[b].tmin).unwrap_or(Ordering::Equal));
        order
    }
}

fn layer_of(min_depth: u32, objects: &[(Aabb, u64)]) -> Layer<Quad> {
    let mut layer: Layer<Quad> = LayerBuilder::new().with_min_depth(min_depth).build();
    layer.extend(&unit(), objects);
    layer
}

fn entries(layer: &Layer<Quad>) -> Vec<(Quad, u64)> {
    layer.iter().cloned().collect()
}

fn layer_with(given: &[(Quad, u64)]) -> Layer<Quad> {
    let mut layer: Layer<Quad> = LayerBuilder::new().build();
    let objects: Vec<(Vec<Quad>, u64)> = given.iter().map(|&(c, id)| (vec![c], id)).collect();
    layer.extend(&Cells, &objects);
    layer
}

/// System bounds for tests that give the cells of an object directly.
struct Cells;

impl SystemBounds<Vec<Quad>> for Cells {
    type Local = Vec<Quad>;

    fn contains(&self, _bounds: &Vec<Quad>) -> bool {
        true
    }

    fn to_local(&self, bounds: &Vec<Quad>) -> Vec<Quad> {
        bounds.clone()
    }
}

impl IndexGenerator<Quad> for Vec<Quad> {
    fn indices(&self, _min_depth: Option<u32>) -> Vec<Quad> {
        self.clone()
    }
}

struct Lcg(u64);

impl Lcg {
    fn next(&mut self) -> f32 {
        self.0 = self.0.wrapping_mul(6364136223846793005).wrapping_add(1442695040888963407);
        ((self.0 >> 40) as f32) / ((1u64 << 24) as f32)
    }
}

fn random_boxes(seed: u64, n: usize, size: f32) -> Vec<(Aabb, u64)> {
    let mut rng = Lcg(seed);
    (0..n)
        .map(|i| {
            let x = rng.next() * (1.0 - size);
            let y = rng.next() * (1.0 - size);
            let w = rng.next() * size;
            let h = rng.next() * size;
            (aabb(x, y, x + w, y + h), i as u64)
        })
        .collect()
}

fn unordered(pairs: &[(u64, u64)]) -> Vec<(u64, u64)> {
    let mut out: Vec<(u64, u64)> = pairs.iter().map(|&(a, b)| (a.min(b), a.max(b))).collect();
    out.sort();
    out.dedup();
    out
}

fn related_pairs(entries: &[(Quad, u64)]) -> Vec<(u64, u64)> {
    let mut out = Vec::new();
    for &(ca, a) in entries {
        for &(cb, b) in entries {
            if a < b && ca.overlaps(&cb) {
                out.push((a, b));
            }
        }
    }
    out.sort();
    out.dedup();
    out
}

#[test]
fn two_overlapping_boxes_are_paired() {
    let mut layer = layer_of(0, &[(square(0.1, 0.4), 1), (square(0.3, 0.6), 2)]);
    assert_eq!(layer.scan().clone(), vec![(1, 2)]);
    let hits = layer.test(&box_geom(square(0.35, 0.35)), None).clone();
    assert_eq!(hits, vec![1, 2]);
}

#[test]
fn disjoint_boxes_are_not_paired() {
    let mut layer = layer_of(0, &[(square(0.0, 0.2), 1), (square(0.7, 0.9), 2)]);
    assert_eq!(layer.scan().clone(), Vec::<(u64, u64)>::new());
}

#[test]
fn object_in_several_cells_is_not_paired_with_itself() {
    let mut layer = layer_of(1, &[(square(0.4, 0.6), 7)]);
    assert_eq!(layer.iter().len(), 4);
    assert!(layer.iter().all(|&(cell, id)| id == 7 && cell.depth >= 1));
    assert_eq!(layer.scan().clone(), Vec::<(u64, u64)>::new());
}

#[test]
fn ray_picks_the_nearest_object() {
    let xs = [0.2f32, 0.5, 0.8];
    let objects: Vec<(Aabb, u64)> = xs
        .iter()
        .enumerate()
        .map(|(i, &x)| (aabb(x - 0.05, 0.45, x + 0.05, 0.55), 10 + i as u64))
        .collect();
    let mut layer = layer_of(0, &objects);
    let origin = [0.0f32, 0.5];
    let dir = [1.0f32, 0.0];
    let geom = ray_geom(origin, dir, 0.0, 1.0);
    let picked = layer.pick(&geom, key(1.0), None, |g: &RayGeom, _nearest: u64, id: u64| {
        let x = xs[(id - 10) as usize];
        Some(key((x - g.origin[0]).abs()))
    });
    let (dist, id) = picked.expect("an object lies on the ray");
    assert_eq!(id, 10);
    assert_eq!(from_key(dist), 0.2);
    let point = [origin[0] + dir[0] * from_key(dist), origin[1] + dir[1] * from_key(dist)];
    assert_eq!(point, [0.2, 0.5]);
}

#[test]
fn parallel_scan_equals_scan_on_random_boxes() {
    let objects = random_boxes(0x5eed, 10_000, 0.02);
    let mut serial = layer_of(3, &objects);
    let mut parallel = serial.clone();
    let expected = serial.scan().clone();
    let pool = rayon::ThreadPoolBuilder::new().num_threads(8).build().unwrap();
    let found = pool.install(|| parallel.par_scan().clone());
    assert!(!expected.is_empty());
    assert_eq!(found, expected);
}

#[test]
fn merge_takes_over_a_lower_min_depth() {
    let mut first = layer_of(3, &[(square(0.1, 0.2), 1)]);
    let second = layer_of(1, &[(square(0.6, 0.9), 2)]);
    let before = first.iter().len();
    let lowered = first.merge(&second);
    assert!(lowered);
    assert_eq!(first.min_depth(), 1);
    assert_eq!(first.iter().len(), before + second.iter().len());
    let third = layer_of(5, &[(square(0.3, 0.4), 3)]);
    assert!(!first.merge(&third));
    assert_eq!(first.min_depth(), 1);
}

#[test]
fn sorting_twice_changes_nothing() {
    let mut layer = layer_of(2, &random_boxes(11, 200, 0.3));
    layer.sort();
    let once: Vec<(Quad, u64)> = entries(&layer);
    assert!(once.windows(2).all(|w| w[0] <= w[1]));
    layer.sort();
    assert_eq!(entries(&layer), once);
    layer.par_sort();
    assert_eq!(entries(&layer), once);
}

#[test]
fn par_sort_orders_like_sort() {
    let objects = random_boxes(12, 500, 0.2);
    let mut a = layer_of(2, &objects);
    let mut b = a.clone();
    a.sort();
    b.par_sort();
    assert_eq!(entries(&a), entries(&b));
    assert!(a == b);
}

#[test]
fn extend_after_clear_holds_the_generated_cells() {
    let objects = random_boxes(5, 50, 0.4);
    let mut layer = layer_of(2, &random_boxes(6, 20, 0.4));
    layer.clear();
    assert!(entries(&layer).is_empty());
    layer.extend(&unit(), &objects);
    let mut expected = Vec::new();
    for (bounds, id) in &objects {
        for cell in unit().to_local(bounds).indices(Some(2)) {
            expected.push((cell, *id));
        }
    }
    assert_eq!(entries(&layer), expected);
}

#[test]
fn extend_scales_bounds_into_the_unit_square() {
    let system = aabb(-10.0, -10.0, 10.0, 10.0);
    let mut layer: Layer<Quad> = LayerBuilder::new().build();
    layer.extend(&system, &[(aabb(-9.0, -9.0, -6.0, -6.0), 4)]);
    assert_eq!(entries(&layer), vec![(Quad::at(&[0, 0]), 4)]);
}

#[test]
fn scan_pairs_every_two_objects_in_related_cells() {
    for seed in 0..20u64 {
        let mut layer = layer_of((seed % 3) as u32, &random_boxes(seed, 60, 0.5));
        let held = entries(&layer);
        let found = layer.scan().clone();
        assert!(found.windows(2).all(|w| w[0] < w[1]));
        assert_eq!(unordered(&found), related_pairs(&held));
    }
}

#[test]
fn scan_never_pairs_an_object_with_itself() {
    let mut layer = layer_of(2, &random_boxes(3, 300, 0.4));
    assert!(layer.scan().iter().all(|&(a, b)| a != b));
    assert!(layer.par_scan().iter().all(|&(a, b)| a != b));
}

#[test]
fn scan_pairs_the_later_entry_with_the_one_on_the_stack() {
    let a = Quad::at(&[0]);
    let b = Quad::at(&[0, 0]);
    let c = Quad::at(&[1]);
    let d = Quad::at(&[1, 0]);
    let mut layer = layer_with(&[(d, 2), (a, 2), (c, 1), (b, 1)]);
    assert_eq!(layer.scan().clone(), vec![(1, 2), (2, 1)]);
}

#[test]
fn scan_skips_an_entry_below_an_entry_of_its_object() {
    let mut layer = layer_with(&[
        (Quad::at(&[2]), 5),
        (Quad::at(&[2, 1]), 6),
        (Quad::at(&[2, 1, 3]), 5),
        (Quad::at(&[2, 1, 3, 0]), 8),
    ]);
    assert_eq!(layer.scan().clone(), vec![(6, 5), (8, 5), (8, 6)]);
}

#[test]
fn filtered_scan_is_the_scan_filtered() {
    let objects = random_boxes(21, 200, 0.3);
    let mut layer = layer_of(1, &objects);
    let keep = |a: u64, b: u64| (a + b) % 3 != 0;
    let plain: Vec<(u64, u64)> = layer.scan().iter().cloned().filter(|&(a, b)| keep(a, b)).collect();
    assert!(!plain.is_empty());
    assert_eq!(layer.scan_filtered(keep).clone(), plain);
    assert_eq!(layer.par_scan_filtered(keep).clone(), plain);
}

#[test]
fn filter_is_asked_with_the_current_object_first() {
    let mut layer = layer_with(&[(Quad::at(&[0]), 9), (Quad::at(&[0, 2]), 3)]);
    let asked = Cell::new((0u64, 0u64));
    let found = layer
        .scan_filtered(|a: u64, b: u64| {
            asked.set((a, b));
            true
        })
        .clone();
    assert_eq!(asked.get(), (3, 9));
    assert_eq!(found, vec![(3, 9)]);
}

#[test]
fn filter_is_asked_about_each_ancestor_in_turn() {
    let mut layer = layer_with(&[(Quad::at(&[1]), 3), (Quad::at(&[]), 1), (Quad::at(&[0]), 2)]);
    let asked = std::cell::RefCell::new(Vec::new());
    let found = layer
        .scan_filtered(|a: u64, b: u64| {
            asked.borrow_mut().push((a, b));
            true
        })
        .clone();
    assert_eq!(asked.into_inner(), vec![(2, 1), (3, 1)]);
    assert_eq!(found, vec![(2, 1), (3, 1)]);
}

#[test]
fn filter_is_not_asked_about_an_object_and_itself() {
    let mut layer = layer_with(&[(Quad::at(&[0]), 2), (Quad::at(&[0]), 1), (Quad::at(&[]), 1)]);
    let asked = std::cell::RefCell::new(Vec::new());
    let found = layer
        .scan_filtered(|a: u64, b: u64| {
            asked.borrow_mut().push((a, b));
            true
        })
        .clone();
    assert_eq!(asked.into_inner(), vec![(2, 1)]);
    assert_eq!(found, vec![(2, 1)]);
}

#[test]
fn scan_forgets_invalid_objects() {
    let mut layer = layer_of(0, &[(aabb(0.5, 0.5, 1.5, 0.6), 1), (square(0.1, 0.9), 2)]);
    assert_eq!(layer.invalid().clone(), vec![1]);
    layer.scan();
    assert!(layer.invalid().is_empty());
}

#[test]
fn object_outside_the_system_gets_no_entry() {
    let mut layer = layer_of(
        0,
        &[(square(0.2, 0.4), 1), (aabb(-0.1, 0.2, 0.3, 0.3), 2), (square(0.3, 0.5), 3), (square(0.9, 1.1), 4)],
    );
    assert_eq!(layer.invalid().clone(), vec![2, 4]);
    assert!(layer.iter().all(|&(_, id)| id == 1 || id == 3));
    assert_eq!(layer.scan().clone(), vec![(3, 1)]);
    assert_eq!(layer.test(&box_geom(unit()), None).clone(), vec![1, 3]);
}

#[test]
fn extend_unsorts_only_when_it_adds() {
    let mut layer = layer_of(0, &[(square(0.6, 0.7), 2), (square(0.1, 0.2), 1)]);
    layer.sort();
    let sorted: Vec<(Quad, u64)> = entries(&layer);
    layer.extend(&unit(), &[(square(2.0, 3.0), 9)]);
    assert_eq!(entries(&layer), sorted);
    layer.extend(&unit(), &[(square(0.0, 0.05), 3)]);
    assert_eq!(layer.iter().len(), 3);
    layer.sort();
    assert!(entries(&layer).windows(2).all(|w| w[0] <= w[1]));
}

#[test]
fn box_test_finds_the_objects_whose_cells_meet_the_query() {
    let objects = random_boxes(31, 300, 0.2);
    let mut layer = layer_of(2, &objects);
    let query = aabb(0.2, 0.3, 0.45, 0.5);
    let found = layer.test(&box_geom(query), None).clone();
    let mut expected: Vec<u64> = Vec::new();
    for &(cell, id) in layer.iter() {
        let mut geom = box_geom(query);
        let mut open = geom.should_test(UNBOUNDED);
        for level in 0..cell.depth {
            let k = (cell.code >> (30 - 2 * level)) & 3;
            geom = geom.subdivide()[k as usize];
            open = open && geom.should_test(UNBOUNDED);
        }
        if open {
            expected.push(id);
        }
    }
    expected.sort();
    expected.dedup();
    assert!(!expected.is_empty());
    assert!(expected.len() < objects.len());
    assert_eq!(found, expected);
}

#[test]
fn box_test_away_from_everything_finds_nothing() {
    let mut layer = layer_of(0, &[(square(0.05, 0.1), 1), (square(0.1, 0.2), 2)]);
    assert!(layer.test(&box_geom(square(0.8, 0.9)), None).is_empty());
}

#[test]
fn test_result_is_sorted_and_without_duplicates() {
    let mut layer = layer_of(3, &[(square(0.1, 0.9), 8), (square(0.2, 0.8), 3), (square(0.4, 0.6), 5)]);
    assert!(layer.iter().len() > 3);
    assert_eq!(layer.test(&box_geom(unit()), None).clone(), vec![3, 5, 8]);
}

#[test]
fn test_stops_at_max_depth() {
    let deep = Quad::at(&[0, 0, 0]);
    let mut layer = layer_with(&[(deep, 1), (Quad::at(&[3]), 2)]);
    let query = square(0.4, 0.45);
    assert_eq!(layer.test(&box_geom(query), None).clone(), Vec::<u64>::new());
    assert_eq!(layer.test(&box_geom(query), Some(1)).clone(), vec![1]);
    assert_eq!(layer.test(&box_geom(query), Some(0)).clone(), vec![1, 2]);
}

#[test]
fn pick_hands_no_geometry_below_max_depth() {
    let mut layer = layer_of(4, &random_boxes(41, 100, 0.05));
    let deepest = Cell::new(0u32);
    layer.pick(&box_geom(unit()), UNBOUNDED, Some(2), |g: &BoxGeom, _n: u64, _id: u64| {
        deepest.set(deepest.get().max(g.depth));
        None
    });
    assert_eq!(deepest.get(), 2);
}

#[test]
fn pick_measures_every_object_once() {
    let mut layer = layer_of(3, &[(square(0.1, 0.9), 1), (square(0.3, 0.7), 2)]);
    assert!(layer.iter().len() > 2);
    let calls = AtomicUsize::new(0);
    let picked = layer.pick(&box_geom(unit()), UNBOUNDED, None, |_g: &BoxGeom, _n: u64, id: u64| {
        calls.fetch_add(1, AtomicOrdering::SeqCst);
        Some(100 * id)
    });
    assert_eq!(calls.load(AtomicOrdering::SeqCst), 2);
    assert_eq!(picked, Some((100, 1)));
}

#[test]
fn pick_returns_the_smallest_distance() {
    let objects = random_boxes(51, 200, 0.3);
    let mut layer = layer_of(0, &objects);
    let dist = |id: u64| (id * 7919) % 1000 + 5;
    let picked = layer.pick(&box_geom(unit()), UNBOUNDED, None, |_g: &BoxGeom, _n: u64, id: u64| Some(dist(id)));
    let best = (0..200u64).map(dist).min().unwrap();
    let (d, id) = picked.unwrap();
    assert_eq!(d, best);
    assert_eq!(dist(id), best);
}

#[test]
fn pick_keeps_the_first_of_equal_distances() {
    let mut layer = layer_with(&[(Quad::at(&[]), 4), (Quad::at(&[]), 2), (Quad::at(&[1]), 1)]);
    let picked = layer.pick(&box_geom(unit()), UNBOUNDED, None, |_g: &BoxGeom, _n: u64, _id: u64| Some(50));
    assert_eq!(picked, Some((50, 2)));
}

#[test]
fn pick_without_a_hit_returns_nothing() {
    let mut layer = layer_of(0, &[(square(0.1, 0.2), 1), (square(0.5, 0.6), 2)]);
    assert_eq!(layer.pick(&box_geom(unit()), UNBOUNDED, None, |_g: &BoxGeom, _n: u64, _id: u64| None), None);
    assert_eq!(layer.pick(&box_geom(unit()), 30, None, |_g: &BoxGeom, _n: u64, _id: u64| Some(30)), None);
    assert_eq!(
        layer.pick(&box_geom(unit()), 30, None, |_g: &BoxGeom, _n: u64, id: u64| Some(28 + id)),
        Some((29, 1))
    );
}

#[test]
fn pick_prunes_cells_beyond_the_cutoff() {
    let xs = [0.2f32, 0.8];
    let objects: Vec<(Aabb, u64)> =
        xs.iter().enumerate().map(|(i, &x)| (aabb(x - 0.05, 0.2, x + 0.05, 0.3), i as u64)).collect();
    let mut layer = layer_of(0, &objects);
    let geom = ray_geom([0.0, 0.25], [1.0, 0.0], 0.0, 1.0);
    let asked = Cell::new(0u32);
    let picked = layer.pick(&geom, key(1.0), None, |_g: &RayGeom, _n: u64, id: u64| {
        asked.set(asked.get() + 1);
        Some(key(xs[id as usize] - 0.05))
    });
    assert_eq!(picked, Some((key(0.15), 0)));
    assert_eq!(asked.get(), 1);
}

#[test]
fn builder_sets_the_min_depth() {
    let mut builder = LayerBuilder::new();
    builder.with_min_depth(4).with_index_capacity(100).with_collision_capacity(10).with_test_capacity(5);
    let layer: Layer<Quad> = builder.build();
    assert_eq!(layer.min_depth(), 4);
    assert!(entries(&layer).is_empty());
    assert!(layer.invalid().is_empty());
    let plain: Layer<Quad> = LayerBuilder::default().build();
    assert_eq!(plain.min_depth(), 0);
}

#[test]
fn default_layer_is_empty() {
    let mut layer: Layer<Quad> = Layer::default();
    assert_eq!(layer.min_depth(), 0);
    assert!(entries(&layer).is_empty());
    assert!(layer.scan().is_empty());
}

#[test]
fn clone_keeps_entries_and_drops_buffers() {
    let mut layer = layer_of(2, &[(square(0.1, 0.6), 1), (square(0.4, 0.9), 2), (square(2.0, 3.0), 3)]);
    assert_eq!(unordered(layer.scan()), vec![(1, 2)]);
    layer.extend(&unit(), &[(square(5.0, 6.0), 9)]);
    let copy = layer.clone();
    assert_eq!(entries(&copy), entries(&layer));
    assert_eq!(copy.min_depth(), 2);
    assert!(copy.invalid().is_empty());
    assert_eq!(layer.invalid().clone(), vec![9]);
    assert!(copy == layer);
}

#[test]
fn layers_differ_by_entries_depth_and_order() {
    let objects = [(square(0.6, 0.7), 2), (square(0.1, 0.2), 1)];
    let a = layer_of(0, &objects);
    let mut b = layer_of(0, &objects);
    assert!(a == b);
    b.sort();
    assert!(a != b);
    let c = layer_of(0, &objects[..1]);
    assert!(a != c);
    let mut d: Layer<Quad> = LayerBuilder::new().with_min_depth(0).build();
    let mut e: Layer<Quad> = LayerBuilder::new().with_min_depth(1).build();
    assert!(d != e);
    d.extend(&unit(), &[(square(0.1, 0.2), 1)]);
    e.extend(&unit(), &[(square(0.1, 0.2), 2)]);
    assert!(d != e);
}

#[test]
fn clear_empties_the_layer() {
    let mut layer = layer_of(1, &random_boxes(2, 10, 0.5));
    assert!(!entries(&layer).is_empty());
    layer.clear();
    assert!(entries(&layer).is_empty());
    assert_eq!(layer.min_depth(), 1);
    assert!(layer.scan().is_empty());
}

#[test]
fn entries_are_ordered_by_cell_then_object() {
    let parent = Quad::at(&[1]);
    let child = Quad::at(&[1, 0]);
    let next = Quad::at(&[2]);
    assert_eq!(entry_order(&(parent, 9), &(child, 1)), Ordering::Less);
    assert_eq!(entry_order(&(child, 1), &(next, 0)), Ordering::Less);
    assert_eq!(entry_order(&(next, 0), &(parent, 9)), Ordering::Greater);
    assert_eq!(entry_order(&(child, 1), &(child, 2)), Ordering::Less);
    assert_eq!(entry_order(&(child, 2), &(child, 1)), Ordering::Greater);
    assert_eq!(entry_order(&(child, 2), &(child, 2)), Ordering::Equal);
}

#[test]
fn lower_bound_counts_the_entries_before_a_cell() {
    let tree = vec![
        (Quad::at(&[]), 1),
        (Quad::at(&[0]), 2),
        (Quad::at(&[0, 3]), 3),
        (Quad::at(&[1]), 4),
        (Quad::at(&[1]), 5),
        (Quad::at(&[3, 2]), 6),
    ];
    assert_eq!(lower_bound(&tree, &Quad::at(&[])), 0);
    assert_eq!(lower_bound(&tree, &Quad::at(&[0])), 1);
    assert_eq!(lower_bound(&tree, &Quad::at(&[1])), 3);
    assert_eq!(lower_bound(&tree, &Quad::at(&[2])), 5);
    assert_eq!(lower_bound(&tree, &Quad::at(&[3, 3])), 6);
    assert_eq!(lower_bound(&tree[..0], &Quad::at(&[2])), 0);
}

#[test]
fn dedup_removes_repeats() {
    let mut pairs = vec![(1, 2), (1, 2), (1, 3), (2, 0), (2, 0), (2, 0), (7, 7)];
    dedup_pairs(&mut pairs);
    assert_eq!(pairs, vec![(1, 2), (1, 3), (2, 0), (7, 7)]);
    let mut ids = vec![0, 0, 1, 5, 5, 9];
    dedup_ids(&mut ids);
    assert_eq!(ids, vec![0, 1, 5, 9]);
    let mut none: Vec<u64> = Vec::new();
    dedup_ids(&mut none);
    assert!(none.is_empty());
    let mut one = vec![(4, 4)];
    dedup_pairs(&mut one);
    assert_eq!(one, vec![(4, 4)]);
}

#[test]
fn parallel_scan_parts_long_input() {
    let objects = random_boxes(77, 2000, 0.05);
    let mut serial = layer_of(2, &objects);
    let mut parallel = serial.clone();
    assert!(entries(&serial).len() > 4 * SPLIT_THRESHOLD);
    let expected = serial.scan().clone();
    let pool = rayon::ThreadPoolBuilder::new().num_threads(4).build().unwrap();
    let found = pool.install(|| parallel.par_scan().clone());
    assert_eq!(found, expected);
    let single = rayon::ThreadPoolBuilder::new().num_threads(1).build().unwrap();
    let found = single.install(|| parallel.par_scan().clone());
    assert_eq!(found, expected);
}

#[test]
fn test_reaches_the_leaves() {
    let mut layer = layer_of(0, &[(square(0.3, 0.3), 1), (square(0.7, 0.7), 2)]);
    assert!(layer.iter().all(|&(cell, _)| cell.depth == MAX_DEPTH));
    assert_eq!(layer.test(&box_geom(square(0.25, 0.35)), None).clone(), vec![1]);
    assert_eq!(layer.test(&box_geom(square(0.25, 0.75)), None).clone(), vec![1, 2]);
    assert_eq!(layer.test(&box_geom(square(0.4, 0.6)), None).clone(), Vec::<u64>::new());
    assert!(layer.scan().is_empty());
}

#[test]
fn sweep_keeps_a_long_stack() {
    let given: Vec<(Quad, u64)> = (0..300u64).map(|id| (Quad::at(&[2]), id)).collect();
    let mut layer = layer_with(&given);
    let found = layer.scan().clone();
    assert_eq!(found.len(), 300 * 299 / 2);
    assert!(found.iter().all(|&(a, b)| a > b));
    assert_eq!(found[0], (1, 0));
    assert_eq!(found[found.len() - 1], (299, 298));
}

#[test]
fn measurement_lowers_the_cutoff_only_when_nearer() {
    let mut best = Some(3);
    assert_eq!(consider(10, 5, Some(4), &mut best), 4);
    assert_eq!(best, Some(5));
    assert_eq!(consider(4, 6, Some(4), &mut best), 4);
    assert_eq!(best, Some(5));
    assert_eq!(consider(4, 7, None, &mut best), UNBOUNDED);
    assert_eq!(best, Some(5));
    assert_eq!(consider(4, 8, Some(9), &mut best), 9);
    assert_eq!(best, Some(5));
}
