use terrainbasic::entities::basic_marching_cubes::{
    bound_can_be_held, sample_coordinate, sample_lattice, sample_points, settings_fit, Crossing,
    MCChunk, Mask,
};
use terrainbasic::entities::table_reader::{Corner, TriangulationTable};
use terrainbasic::utils::constants::{CHUNK_BOUNDS, TEST_ISOVALUE_BITS};
use terrainbasic::utils::offset::Offset;

use noise::{NoiseFn, Worley};

fn table_with(rows: &[(usize, &str)]) -> TriangulationTable {
    let mut text = String::new();
    for line in 0..256 {
        let mut row = "N";
        for (at, what) in rows {
            if *at == line {
                row = what;
            }
        }
        text.push_str(row);
        text.push('\n');
    }
    TriangulationTable::new(text.as_bytes()).unwrap()
}

/// The rows of the eight configurations with exactly one corner above the surface: the
/// three edges that meet at that corner.
fn single_corner_rows() -> Vec<(usize, &'static str)> {
    vec![
        (1, "0,8,3"),
        (2, "0,1,9"),
        (4, "1,2,10"),
        (8, "3,11,2"),
        (16, "4,7,8"),
        (32, "9,5,4"),
        (64, "10,6,5"),
        (128, "7,6,11"),
    ]
}

fn bits(values: &[f32]) -> Vec<u32> {
    values.iter().map(|v| v.to_bits()).collect()
}

/// The samples of a chunk of bound `n` whose weight at `(x, y, z)` is `f(x, y, z)`.
fn samples_of(n: usize, f: &dyn Fn(usize, usize, usize) -> f32) -> Vec<u32> {
    let mut samples = Vec::new();
    for x in 0..n {
        for y in 0..n {
            for z in 0..n {
                samples.push(f(x, y, z).to_bits());
            }
        }
    }
    samples
}

/// Where a crossing lies inside its chunk, in lattice steps.
fn position(c: &Crossing, isovalue: f32) -> [f32; 3] {
    let wa = f32::from_bits(c.weight_a);
    let wb = f32::from_bits(c.weight_b);
    let t = if c.midpoint { 0.5 } else { (isovalue - wa) / (wb - wa) };
    let a = [c.corner_a.x as f32, c.corner_a.y as f32, c.corner_a.z as f32];
    let b = [c.corner_b.x as f32, c.corner_b.y as f32, c.corner_b.z as f32];
    [
        c.x as f32 + a[0] + t * (b[0] - a[0]),
        c.y as f32 + a[1] + t * (b[1] - a[1]),
        c.z as f32 + a[2] + t * (b[2] - a[2]),
    ]
}

const CORNERS: [(usize, usize, usize); 8] =
    [(0, 0, 0), (1, 0, 0), (1, 0, 1), (0, 0, 1), (0, 1, 0), (1, 1, 0), (1, 1, 1), (0, 1, 1)];

#[test]
fn one_high_corner_gives_one_triangle_round_it() {
    let table = table_with(&single_corner_rows());
    let iso = 0.5f32;
    for (k, high) in CORNERS.iter().enumerate() {
        let samples = samples_of(2, &|x, y, z| if (x, y, z) == *high { 1.0 } else { 0.0 });
        let chunk =
            MCChunk::with_settings(Offset::new(0, 0, 0), 2, iso.to_bits(), &samples, &table);
        assert_eq!(chunk.vertices().len(), 3, "corner {}", k);
        assert_eq!(chunk.indices(), &vec![0u32, 1, 2]);
        let high_corner = Corner { x: high.0, y: high.1, z: high.2 };
        for (i, c) in chunk.vertices().iter().enumerate() {
            assert_eq!((c.x, c.y, c.z), (0, 0, 0));
            assert!(c.corner_a == high_corner || c.corner_b == high_corner);
            assert_ne!(c.corner_a, c.corner_b);
            assert!(!c.midpoint);
            let p = position(c, iso);
            let h = [high.0 as f32, high.1 as f32, high.2 as f32];
            let off_axis = (0..3).filter(|&d| p[d] != h[d]).count();
            assert_eq!(off_axis, 1, "vertex {} of corner {} lies on an edge at the corner", i, k);
            for d in 0..3 {
                assert!((p[d] - h[d]).abs() == 0.5 || p[d] == h[d]);
            }
        }
        let edges: Vec<u16> = chunk.vertices().iter().map(|c| c.edge).collect();
        assert_eq!(&edges, table.lookup(1 << k));
    }
}

#[test]
fn single_corner_scenario_exact_crossings() {
    let table = table_with(&single_corner_rows());
    let samples = bits(&[1.0, 0.0, 0.0, 0.0, 0.0, 0.0, 0.0, 0.0]);
    let chunk = MCChunk::with_settings(Offset::new(3, -2, 5), 2, 0.5f32.to_bits(), &samples, &table);
    let one = 1.0f32.to_bits();
    let zero = 0.0f32.to_bits();
    let origin = Corner { x: 0, y: 0, z: 0 };
    let expected = vec![
        Crossing {
            x: 0,
            y: 0,
            z: 0,
            edge: 0,
            corner_a: origin,
            corner_b: Corner { x: 1, y: 0, z: 0 },
            weight_a: one,
            weight_b: zero,
            midpoint: false,
        },
        Crossing {
            x: 0,
            y: 0,
            z: 0,
            edge: 8,
            corner_a: origin,
            corner_b: Corner { x: 0, y: 1, z: 0 },
            weight_a: one,
            weight_b: zero,
            midpoint: false,
        },
        Crossing {
            x: 0,
            y: 0,
            z: 0,
            edge: 3,
            corner_a: Corner { x: 0, y: 0, z: 1 },
            corner_b: origin,
            weight_a: zero,
            weight_b: one,
            midpoint: false,
        },
    ];
    assert_eq!(chunk.vertices(), &expected);
    assert_eq!(position(&expected[0], 0.5), [0.5, 0.0, 0.0]);
    assert_eq!(position(&expected[1], 0.5), [0.0, 0.5, 0.0]);
    assert_eq!(position(&expected[2], 0.5), [0.0, 0.0, 0.5]);
    assert_eq!(chunk.offset(), Offset::new(3, -2, 5));
    assert_eq!(chunk.chunk_bounds(), 2);
    assert_eq!(chunk.isovalue(), 0.5f32.to_bits());
}

#[test]
fn interpolation_follows_the_weights() {
    let table = table_with(&single_corner_rows());
    let samples = bits(&[0.9, 0.1, 0.4, 0.3, -0.3, 0.0, 0.0, 0.0]);
    // flat order: (0,0,0) (0,0,1) (0,1,0) (0,1,1) (1,0,0) (1,0,1) (1,1,0) (1,1,1)
    let chunk = MCChunk::with_settings(Offset::new(0, 0, 0), 2, 0.5f32.to_bits(), &samples, &table);
    assert_eq!(chunk.vertices().len(), 3);
    let p: Vec<[f32; 3]> = chunk.vertices().iter().map(|c| position(c, 0.5)).collect();
    // edge 0 runs along x to weight -0.3, edge 8 along y to 0.4, edge 3 along z from 0.1
    assert_eq!(p[0], [(0.5f32 - 0.9) / (-0.3f32 - 0.9), 0.0, 0.0]);
    assert_eq!(p[1], [0.0, (0.5f32 - 0.9) / (0.4f32 - 0.9), 0.0]);
    assert_eq!(p[2], [0.0, 0.0, 1.0 + (0.5f32 - 0.1) / (0.9f32 - 0.1) * -1.0]);
    for q in &p {
        for d in 0..3 {
            assert!(q[d] >= 0.0 && q[d] <= 1.0 && !q[d].is_nan());
        }
    }
}

#[test]
fn labels_follow_the_weights() {
    let table = table_with(&single_corner_rows());
    let n = 4;
    let f = |x: usize, y: usize, z: usize| -> f32 {
        match (x + 2 * y + 3 * z) % 7 {
            0 => 0.2,
            1 => 0.19999999,
            2 => -0.5,
            3 => f32::NAN,
            4 => f32::INFINITY,
            5 => -0.0,
            _ => 0.75,
        }
    };
    let samples = samples_of(n, &f);
    let chunk = MCChunk::with_settings(Offset::new(1, 2, 3), n, TEST_ISOVALUE_BITS, &samples, &table);
    let iso = f32::from_bits(TEST_ISOVALUE_BITS);
    for x in 0..n {
        for y in 0..n {
            for z in 0..n {
                let w = f(x, y, z);
                assert_eq!(chunk.weight(x, y, z), w.to_bits());
                let expected = if w >= iso { Mask::PLUS } else { Mask::MINUS };
                assert_eq!(chunk.sign(x, y, z), expected, "{:?} at {:?}", w, (x, y, z));
            }
        }
    }
}

#[test]
fn samples_are_taken_in_flat_order() {
    let table = table_with(&[]);
    let n = 3;
    let samples: Vec<u32> = (0..27u32).collect();
    let chunk = MCChunk::with_settings(Offset::new(0, 0, 0), n, TEST_ISOVALUE_BITS, &samples, &table);
    for x in 0..n {
        for y in 0..n {
            for z in 0..n {
                assert_eq!(chunk.weight(x, y, z), ((x * n + y) * n + z) as u32);
            }
        }
    }
}

#[test]
fn uniform_chunks_have_empty_meshes() {
    let table = table_with(&[(0, "0,1,2"), (255, "0,1,2"), (1, "0,8,3")]);
    for value in [0.0f32, 1.0] {
        let samples = samples_of(5, &|_, _, _| value);
        let chunk = MCChunk::with_settings(Offset::new(0, 0, 0), 5, 0.5f32.to_bits(), &samples, &table);
        assert!(chunk.vertices().is_empty());
        assert!(chunk.indices().is_empty());
    }
}

#[test]
fn a_chunk_of_one_point_has_no_cubes() {
    let table = table_with(&single_corner_rows());
    let chunk = MCChunk::with_settings(Offset::new(0, 0, 0), 1, 0.5f32.to_bits(), &bits(&[1.0]), &table);
    assert!(chunk.vertices().is_empty());
    assert_eq!(chunk.sign(0, 0, 0), Mask::PLUS);
}

#[test]
fn cubes_are_marched_with_x_outermost() {
    let table = table_with(&single_corner_rows());
    let n = 3;
    // one high point in the middle: it is a corner of all eight cubes
    let samples = samples_of(n, &|x, y, z| if (x, y, z) == (1, 1, 1) { 1.0 } else { 0.0 });
    let chunk = MCChunk::with_settings(Offset::new(0, 0, 0), n, 0.5f32.to_bits(), &samples, &table);
    assert_eq!(chunk.vertices().len(), 24);
    let cubes: Vec<(usize, usize, usize)> =
        chunk.vertices().iter().step_by(3).map(|c| (c.x, c.y, c.z)).collect();
    assert_eq!(
        cubes,
        vec![
            (0, 0, 0),
            (0, 0, 1),
            (0, 1, 0),
            (0, 1, 1),
            (1, 0, 0),
            (1, 0, 1),
            (1, 1, 0),
            (1, 1, 1)
        ]
    );
    let expected: Vec<u32> = (0..24).collect();
    assert_eq!(chunk.indices(), &expected);
    // the cube at the origin has the high point at its corner 6
    let first: Vec<u16> = chunk.vertices()[..3].iter().map(|c| c.edge).collect();
    assert_eq!(first, vec![10, 6, 5]);
    // the cube at (1, 1, 1) has it at its corner 0
    let last: Vec<u16> = chunk.vertices()[21..].iter().map(|c| c.edge).collect();
    assert_eq!(last, vec![0, 8, 3]);
    for c in chunk.vertices() {
        let p = position(c, 0.5);
        let distance: f32 = (0..3).map(|d| (p[d] - 1.0).abs()).sum();
        assert_eq!(distance, 0.5);
    }
}

#[test]
fn equal_weights_give_the_midpoint() {
    // configuration 1 with a row that also names edge 5, whose ends are both low
    let table = table_with(&[(1, "0,8,5")]);
    let samples = bits(&[1.0, 0.0, 0.0, 0.0, 0.0, 0.0, 0.0, 0.0]);
    let chunk = MCChunk::with_settings(Offset::new(0, 0, 0), 2, 0.5f32.to_bits(), &samples, &table);
    assert_eq!(chunk.vertices().len(), 3);
    let degenerate = chunk.vertices()[2];
    assert_eq!(degenerate.edge, 5);
    assert!(degenerate.midpoint);
    assert_eq!(position(&degenerate, 0.5), [1.0, 1.0, 0.5]);
    assert!(!chunk.vertices()[0].midpoint);
    assert!(!chunk.vertices()[1].midpoint);
}

#[test]
fn weights_that_are_no_finite_numbers_give_the_midpoint() {
    let table = table_with(&[(1, "0,8,3")]);
    let samples = bits(&[f32::INFINITY, f32::NAN, 0.0, 0.0, f32::NEG_INFINITY, 0.0, 0.0, 0.0]);
    let chunk = MCChunk::with_settings(Offset::new(0, 0, 0), 2, 0.5f32.to_bits(), &samples, &table);
    assert_eq!(chunk.vertices().len(), 3);
    for c in chunk.vertices() {
        assert!(c.midpoint);
        for v in position(c, 0.5) {
            assert!(v.is_finite());
        }
    }
}

#[test]
fn zeros_of_either_sign_are_equal_weights() {
    let table = table_with(&[(1, "1,2,0")]);
    // edge 1 joins (1,0,0) and (1,0,1); edge 2 joins (1,0,1) and (0,0,1)
    let samples = bits(&[1.0, 0.0, 0.0, 0.0, -0.0, 0.0, 0.0, 0.0]);
    let chunk = MCChunk::with_settings(Offset::new(0, 0, 0), 2, 0.5f32.to_bits(), &samples, &table);
    assert!(chunk.vertices()[0].midpoint);
    assert!(chunk.vertices()[1].midpoint);
    assert!(!chunk.vertices()[2].midpoint);
}

#[test]
fn default_chunk_uses_the_constants() {
    let table = table_with(&single_corner_rows());
    let n = CHUNK_BOUNDS;
    let samples = samples_of(n, &|x, y, z| if (x, y, z) == (0, 0, 0) { 0.2 } else { 0.1 });
    let chunk = MCChunk::new(Offset::new(-4, 0, 9), &samples, &table);
    assert_eq!(chunk.chunk_bounds(), 8);
    assert_eq!(chunk.isovalue(), TEST_ISOVALUE_BITS);
    assert_eq!(chunk.offset(), Offset::new(-4, 0, 9));
    assert_eq!(chunk.sign(0, 0, 0), Mask::PLUS);
    assert_eq!(chunk.sign(7, 7, 7), Mask::MINUS);
    assert_eq!(chunk.vertices().len(), 3);
    assert_eq!(chunk.indices(), &vec![0u32, 1, 2]);
}

#[test]
fn sample_coordinates_exact() {
    assert_eq!(sample_coordinate(0, 8, 0), 0);
    assert_eq!(sample_coordinate(0, 8, 7), 7);
    assert_eq!(sample_coordinate(1, 8, 0), 7);
    assert_eq!(sample_coordinate(3, 8, 2), 23);
    assert_eq!(sample_coordinate(-1, 8, 0), -7);
    assert_eq!(sample_coordinate(-2, 8, 7), -7);
    assert_eq!(sample_coordinate(5, 2, 1), 6);
    assert_eq!(sample_coordinate(5, 1, 0), 0);
    assert_eq!(sample_coordinate(i32::MAX, 8, 7), 7 * (i32::MAX as i64) + 7);
    assert_eq!(sample_coordinate(i32::MIN, 8, 0), 7 * (i32::MIN as i64));
}

#[test]
fn sample_points_in_flat_order() {
    let n = 3;
    let offset = Offset::new(2, -1, 0);
    let points = sample_points(offset, n);
    assert_eq!(points.len(), 27);
    for x in 0..n {
        for y in 0..n {
            for z in 0..n {
                let expected = (4 + x as i64, -2 + y as i64, z as i64);
                assert_eq!(points[(x * n + y) * n + z], expected);
            }
        }
    }
}

#[test]
fn neighbouring_chunks_share_their_boundary_plane() {
    let n = 8;
    let here = Offset::new(4, -3, 10);
    let steps = [(1, 0, 0), (0, 1, 0), (0, 0, 1)];
    let mine = sample_points(here, n);
    for (axis, step) in steps.iter().enumerate() {
        let there = Offset::new(here.x + step.0, here.y + step.1, here.z + step.2);
        let theirs = sample_points(there, n);
        for u in 0..n {
            for v in 0..n {
                let (last, first) = match axis {
                    0 => ((n - 1, u, v), (0, u, v)),
                    1 => ((u, n - 1, v), (u, 0, v)),
                    _ => ((u, v, n - 1), (u, v, 0)),
                };
                let a = mine[(last.0 * n + last.1) * n + last.2];
                let b = theirs[(first.0 * n + first.1) * n + first.2];
                assert_eq!(a, b);
            }
        }
    }
}

#[test]
fn neighbouring_chunks_have_equal_weights_on_the_seam() {
    let table = table_with(&single_corner_rows());
    let n = 4;
    let density = |p: (i64, i64, i64)| -> f32 {
        let x = p.0 as f64 / n as f64;
        let y = p.1 as f64 / n as f64;
        let z = p.2 as f64 / n as f64;
        ((x * 1.7).sin() + (y * 2.3).cos() * (z * 0.9).sin()) as f32
    };
    let build = |offset: Offset| -> MCChunk {
        let samples: Vec<u32> =
            sample_points(offset, n).iter().map(|p| density(*p).to_bits()).collect();
        MCChunk::with_settings(offset, n, TEST_ISOVALUE_BITS, &samples, &table)
    };
    let left = build(Offset::new(-1, 2, 0));
    let right = build(Offset::new(0, 2, 0));
    for y in 0..n {
        for z in 0..n {
            assert_eq!(left.weight(n - 1, y, z), right.weight(0, y, z));
            assert_eq!(left.sign(n - 1, y, z), right.sign(0, y, z));
        }
    }
}

#[test]
fn bounds_that_can_be_held() {
    assert!(!bound_can_be_held(0));
    assert!(bound_can_be_held(1));
    assert!(bound_can_be_held(8));
    assert!(!bound_can_be_held(usize::MAX));
    // four bytes a point: the largest cube of points below isize::MAX bytes
    let mut largest: u128 = 1;
    while 4 * (largest + 1).pow(3) <= isize::MAX as u128 {
        largest += 1;
        if largest > 3_000_000 {
            break;
        }
    }
    assert!(bound_can_be_held(largest as usize));
    assert!(!bound_can_be_held(largest as usize + 1));
}

#[test]
fn settings_fit_limits() {
    let empty = table_with(&[]);
    let usual = table_with(&[(1, "0,8,3"), (90, "0,1,2,3,4,5,6,7,8,9,10,11,0,1,2")]);
    assert!(settings_fit(8, &usual));
    assert!(settings_fit(1, &usual));
    assert!(settings_fit(2, &usual));
    assert!(!settings_fit(0, &usual));
    assert!(!settings_fit(0, &empty));
    assert!(!settings_fit(usize::MAX, &empty));
    // 15 vertices a cube: 523 cubes along an axis is the most that 2^31 - 1 holds
    assert!(settings_fit(524, &usual));
    assert!(!settings_fit(525, &usual));
    assert_eq!(usual.longest_run(), 15);
}

/// The weights of a chunk, sampled from cell noise as the program samples them.
fn noise_samples(noise: &Worley, offset: Offset, n: usize) -> Vec<u32> {
    sample_points(offset, n)
        .iter()
        .map(|p| {
            let point = [p.0 as f64 / n as f64, p.1 as f64 / n as f64, p.2 as f64 / n as f64];
            (noise.get(point) as f32).to_bits()
        })
        .collect()
}

#[test]
fn chunks_of_noise_meet_at_their_seams() {
    let table = table_with(&single_corner_rows());
    let noise = Worley::new();
    let n = CHUNK_BOUNDS;
    let here = Offset::new(2, -1, 0);
    let chunk = MCChunk::new(here, &noise_samples(&noise, here, n), &table);
    let steps = [(1, 0, 0), (0, 1, 0), (0, 0, 1)];
    let mut distinct = std::collections::HashSet::new();
    for (axis, step) in steps.iter().enumerate() {
        let there = Offset::new(here.x + step.0, here.y + step.1, here.z + step.2);
        let next = MCChunk::new(there, &noise_samples(&noise, there, n), &table);
        for u in 0..n {
            for v in 0..n {
                let (last, first) = match axis {
                    0 => ((n - 1, u, v), (0, u, v)),
                    1 => ((u, n - 1, v), (u, 0, v)),
                    _ => ((u, v, n - 1), (u, v, 0)),
                };
                let a = chunk.weight(last.0, last.1, last.2);
                let b = next.weight(first.0, first.1, first.2);
                assert_eq!(a, b);
                assert_eq!(
                    chunk.sign(last.0, last.1, last.2),
                    next.sign(first.0, first.1, first.2)
                );
                distinct.insert(a);
            }
        }
    }
    // the noise is constant on each of its cells, but the seams cross several cells
    assert!(distinct.len() >= 2, "{} different weights", distinct.len());
}

#[test]
fn labels_of_noise_follow_the_isovalue() {
    let table = table_with(&single_corner_rows());
    let noise = Worley::new();
    let n = CHUNK_BOUNDS;
    let iso = f32::from_bits(TEST_ISOVALUE_BITS);
    let mut plus = 0;
    let mut minus = 0;
    for ox in -2..2 {
        let offset = Offset::new(ox, 0, 1);
        let chunk = MCChunk::new(offset, &noise_samples(&noise, offset, n), &table);
        for x in 0..n {
            for y in 0..n {
                for z in 0..n {
                    let w = f32::from_bits(chunk.weight(x, y, z));
                    match chunk.sign(x, y, z) {
                        Mask::PLUS => {
                            assert!(w >= iso);
                            plus += 1;
                        }
                        Mask::MINUS => {
                            assert!(!(w >= iso));
                            minus += 1;
                        }
                    }
                }
            }
        }
        assert_eq!(chunk.indices().len(), chunk.vertices().len());
        assert_eq!(chunk.vertices().len() % 3, 0);
    }
    assert_eq!(plus + minus, 4 * 512);
}

#[test]
fn vertices_lie_on_edges_that_the_table_lists() {
    let table = table_with(&single_corner_rows());
    let n = 5;
    let samples = samples_of(n, &|x, y, z| if (x + y + z) % 4 == 0 { 0.9 } else { 0.1 });
    let chunk = MCChunk::with_settings(Offset::new(0, 0, 0), n, 0.5f32.to_bits(), &samples, &table);
    assert!(!chunk.vertices().is_empty());
    for c in chunk.vertices() {
        assert!(c.x < n - 1 && c.y < n - 1 && c.z < n - 1);
        assert!(c.edge < 12);
        assert_eq!((c.corner_a, c.corner_b), table.corner_offsets(c.edge));
        assert_eq!(
            c.weight_a,
            chunk.weight(c.x + c.corner_a.x, c.y + c.corner_a.y, c.z + c.corner_a.z)
        );
        assert_eq!(
            c.weight_b,
            chunk.weight(c.x + c.corner_b.x, c.y + c.corner_b.y, c.z + c.corner_b.z)
        );
        let mut config = 0u8;
        for (k, corner) in CORNERS.iter().enumerate() {
            if chunk.sign(c.x + corner.0, c.y + corner.1, c.z + corner.2) == Mask::PLUS {
                config |= 1 << k;
            }
        }
        assert!(table.lookup(config).contains(&c.edge));
    }
}

#[test]
fn the_lattice_is_sampled_point_by_point_in_flat_order() {
    let n = 3;
    let offset = Offset::new(-1, 4, 2);
    let asked = std::cell::RefCell::new(Vec::new());
    let samples = sample_lattice(offset, n, &|x: i64, y: i64, z: i64| {
        asked.borrow_mut().push((x, y, z));
        (1000 * x + 100 * y + z) as u32
    });
    assert_eq!(*asked.borrow(), sample_points(offset, n));
    assert_eq!(samples.len(), 27);
    for x in 0..n {
        for y in 0..n {
            for z in 0..n {
                let p = (-2 + x as i64, 8 + y as i64, 4 + z as i64);
                assert_eq!(samples[(x * n + y) * n + z], (1000 * p.0 + 100 * p.1 + p.2) as u32);
            }
        }
    }
}

#[test]
fn the_three_edges_at_a_corner_run_along_the_three_axes() {
    let table = table_with(&single_corner_rows());
    for (k, corner) in CORNERS.iter().enumerate() {
        let here = Corner { x: corner.0, y: corner.1, z: corner.2 };
        let mut axes = Vec::new();
        for edge in 0..12u16 {
            let (a, b) = table.corner_offsets(edge);
            if a == here || b == here {
                axes.push(if a.x != b.x {
                    0
                } else if a.y != b.y {
                    1
                } else {
                    2
                });
            }
        }
        axes.sort();
        assert_eq!(axes, vec![0, 1, 2], "corner {}", k);
        let mut listed: Vec<u16> = table.lookup(1 << k).clone();
        listed.sort();
        let mut meeting: Vec<u16> = (0..12u16)
            .filter(|e| {
                let (a, b) = table.corner_offsets(*e);
                a == here || b == here
            })
            .collect();
        meeting.sort();
        assert_eq!(listed, meeting, "corner {}", k);
    }
}

#[test]
fn a_chunk_is_built_only_where_the_settings_fit() {
    let table = table_with(&single_corner_rows());
    let samples = bits(&[1.0, 0.0, 0.0, 0.0, 0.0, 0.0, 0.0, 0.0]);
    let origin = Offset::new(0, 0, 0);
    let built = MCChunk::try_with_settings(origin, 2, 0.5f32.to_bits(), &samples, &table).unwrap();
    let direct = MCChunk::with_settings(origin, 2, 0.5f32.to_bits(), &samples, &table);
    assert_eq!(built.vertices(), direct.vertices());
    assert_eq!(built.indices(), direct.indices());
    assert_eq!(built.weight(0, 0, 0), 1.0f32.to_bits());
    // a sample too few, a sample too many, no lattice at all, a lattice beyond memory
    assert!(MCChunk::try_with_settings(origin, 2, 0, &samples[..7].to_vec(), &table).is_none());
    let mut nine = samples.clone();
    nine.push(0);
    assert!(MCChunk::try_with_settings(origin, 2, 0, &nine, &table).is_none());
    assert!(MCChunk::try_with_settings(origin, 0, 0, &Vec::new(), &table).is_none());
    assert!(MCChunk::try_with_settings(origin, usize::MAX, 0, &samples, &table).is_none());
    assert!(MCChunk::try_with_settings(origin, 1, 0, &bits(&[0.0]), &table).is_some());
}
