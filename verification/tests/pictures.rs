use receipt::generative::{automaton, generators, truchet, truchet_size, Generator, Tile};
use receipt::hilbert::hilbert_point;
use receipt::maze::{dig, draw, maze, Segment, Walls};
use receipt::raster::{shares_of, Bits, Cut, Dither, Halftone, Share, DOTS};
use receipt::rng::{clock_seed, Rng};

fn xorshift(mut x: u64) -> u64 {
    x ^= x << 13;
    x ^= x >> 7;
    x ^= x << 17;
    x
}

// --- numbers ---------------------------------------------------------------

#[test]
fn the_same_seed_gives_the_same_numbers() {
    let mut a = Rng::new(Some(42));
    assert_eq!(a.next_u64(), 0xad5d36aeb);
    assert_eq!(a.next_u64(), 0xb00aebfbf40316fe);
    assert_eq!(a.unit(), 1052093);
    assert_eq!(a.below(7), 6);
    assert!(!a.coin());
    assert!(a.coin());
    let mut b = Rng::new(Some(43));
    assert_eq!(b.next_u64(), 0xad5d36aeb);
    let mut c = Rng::seeded(0);
    assert_eq!(c.next_u64(), 0x40822041);
}

#[test]
fn no_two_states_step_to_the_same_one() {
    let mut next: Vec<u64> = (0..4096).map(|i| Rng::seeded(2 * i).next_u64()).collect();
    next.sort();
    next.dedup();
    assert_eq!(next.len(), 4096);
}

#[test]
fn the_clock_seeds_a_generator_that_never_sticks() {
    let mut rng = Rng::new(None);
    for _ in 0..1000 {
        assert!(rng.next_u64() != 0);
    }
    assert_eq!(clock_seed(Some(5)), 5);
    assert_eq!(clock_seed(Some((3u128 << 64) + 7)), 7);
    assert_eq!(clock_seed(None), 0x2545F4914F6CDD1D);
}

// --- the collection --------------------------------------------------------

#[test]
fn every_piece_is_found_by_its_name() {
    let names: Vec<&str> = generators().iter().map(|g| g.name()).collect();
    assert_eq!(
        names,
        vec!["flow", "rule30", "maze", "truchet", "moire", "hilbert", "stipple", "waves"]
    );
    for g in generators() {
        assert!(Generator::parse(g.name()) == Some(g));
    }
    assert!(Generator::parse("Flow").is_none());
    assert!(Generator::parse("").is_none());
}

#[test]
fn pieces_are_listed_in_columns() {
    assert_eq!(Generator::Maze.listing(), "maze       perfect maze, recursive backtracker");
    for g in generators() {
        assert_eq!(g.listing(), format!("{:<10} {}", g.name(), g.description()));
    }
}

#[test]
fn a_banner_is_never_the_square_piece() {
    let usable: Vec<Generator> =
        generators().into_iter().filter(|g| *g != Generator::Hilbert).collect();
    for seed in 0..500u64 {
        let pick = Generator::for_banner(&mut Rng::new(Some(seed)));
        assert!(pick == usable[(xorshift(seed | 1) % 7) as usize]);
    }
}

// --- the automaton ---------------------------------------------------------

#[test]
fn an_automaton_grows_by_its_rule() {
    for (seed, rule) in [(0u64, 150u8), (16, 22), (34, 90)] {
        let height = 100;
        let mask = automaton(height, &mut Rng::new(Some(seed)));
        assert_eq!((mask.width, mask.height, mask.ink.len()), (DOTS, height, DOTS * height));
        let mut row = vec![false; 192];
        row[96] = true;
        for y in 0..99 {
            for x in 0..DOTS {
                assert_eq!(mask.ink[y * DOTS + x], row[x / 3]);
            }
            if y % 3 == 2 {
                row = (0..192)
                    .map(|x| {
                        let (l, c, r) = (row[(x + 191) % 192], row[x], row[(x + 1) % 192]);
                        rule >> (4 * l as u8 + 2 * c as u8 + r as u8) & 1 == 1
                    })
                    .collect();
            }
        }
        // The row below the last whole row of cells stays white.
        assert!(mask.ink[99 * DOTS..].iter().all(|on| !on));
    }
}

// --- tiles -----------------------------------------------------------------

#[test]
fn tiles_cover_the_paper_row_by_row() {
    let mut rng = Rng::new(Some(34));
    let tile = truchet_size(&mut rng);
    assert_eq!(tile, 32);
    let mut state = xorshift(35);
    let tiles = truchet(70, tile, &mut rng);
    assert_eq!(tiles.len(), 18 * 3);
    for (k, t) in tiles.iter().enumerate() {
        state = xorshift(state);
        let flip = ((state >> 40) as f32 / (1 << 24) as f32) < 0.5;
        assert!(*t == Tile { x: k % 18 * 32, y: k / 18 * 32, flip });
    }
    assert_eq!(rng.next_u64(), xorshift(state));
    assert!(truchet(0, 24, &mut rng).is_empty());
    for (seed, wanted) in [(0, 24), (34, 32), (16, 48)] {
        assert_eq!(truchet_size(&mut Rng::new(Some(seed))), wanted);
    }
}

// --- the maze --------------------------------------------------------------

fn find(parent: &mut Vec<usize>, mut c: usize) -> usize {
    while parent[c] != c {
        parent[c] = parent[parent[c]];
        c = parent[c];
    }
    c
}

#[test]
fn a_maze_is_perfect() {
    for (seed, cols, rows) in [(1, 36, 15), (2, 1, 1), (3, 1, 9), (4, 7, 1), (5, 20, 20)] {
        let walls = dig(cols, rows, &mut Rng::new(Some(seed)));
        let mut parent: Vec<usize> = (0..cols * rows).collect();
        let mut passages = 0;
        for c in 0..cols * rows {
            if !walls[c].right {
                assert!(c % cols + 1 < cols && !walls[c + 1].left);
                let (a, b) = (find(&mut parent, c), find(&mut parent, c + 1));
                assert!(a != b, "a way round");
                parent[a] = b;
                passages += 1;
            }
            if !walls[c].bottom {
                assert!(c + cols < cols * rows && !walls[c + cols].top);
                let (a, b) = (find(&mut parent, c), find(&mut parent, c + cols));
                assert!(a != b, "a way round");
                parent[a] = b;
                passages += 1;
            }
        }
        assert_eq!(passages, cols * rows - 1, "not joined up");
    }
}

#[test]
fn the_first_way_on_is_drawn() {
    // From the corner of a 2 by 2 grid: right, then down; the generator chooses.
    let mut rng = Rng::new(Some(42));
    let walls = dig(2, 2, &mut rng);
    // 0xad5d36aeb is odd: down, along and up.
    assert!(walls[0] == Walls { top: true, right: true, bottom: false, left: true });
    assert!(walls[2] == Walls { top: false, right: false, bottom: true, left: true });
    assert!(walls[3] == Walls { top: false, right: true, bottom: true, left: false });
    assert!(walls[1] == Walls { top: true, right: true, bottom: false, left: true });
}

#[test]
fn walls_are_drawn_once() {
    let all = Walls { top: true, right: true, bottom: true, left: true };
    let line = |x0, y0, x1, y1| Segment { x0, y0, x1, y1 };
    assert!(
        draw(&vec![all], 1, 1)
            == vec![line(0, 0, 16, 0), line(0, 0, 0, 16), line(0, 16, 16, 16), line(16, 0, 16, 16)]
    );
    let open = Walls { right: false, ..all };
    let shut = Walls { left: false, ..all };
    assert!(
        draw(&vec![open, shut], 2, 1)
            == vec![
                line(0, 0, 16, 0),
                line(0, 0, 0, 16),
                line(0, 16, 16, 16),
                line(16, 0, 32, 0),
                line(16, 16, 32, 16),
                line(32, 0, 32, 16),
            ]
    );
}

#[test]
fn a_maze_fills_the_width_and_stays_within_its_height() {
    let lines = maze(250, &mut Rng::new(Some(7)));
    let walls = dig(36, 15, &mut Rng::new(Some(7)));
    assert!(lines == draw(&walls, 36, 15));
    assert!(lines.iter().all(|l| l.x1 <= DOTS && l.y1 <= 240));
    assert!(lines.iter().any(|l| l.x1 == DOTS) && lines.iter().any(|l| l.y1 == 240));
}

// --- the Hilbert curve -----------------------------------------------------

#[test]
fn the_curve_of_order_two_is_this() {
    let wanted = [
        (0, 0), (1, 0), (1, 1), (0, 1), (0, 2), (0, 3), (1, 3), (1, 2),
        (2, 2), (2, 3), (3, 3), (3, 2), (3, 1), (2, 1), (2, 0), (3, 0),
    ];
    for (i, p) in wanted.into_iter().enumerate() {
        assert_eq!(hilbert_point(i, 2), p);
        assert_eq!(hilbert_point(i + 16, 2), p);
    }
    assert_eq!(hilbert_point(2000, 6), (24, 36));
    assert_eq!(hilbert_point(4095, 6), (63, 0));
    assert_eq!(hilbert_point(5, 0), (0, 0));
}

#[test]
fn the_curve_is_one_line_through_every_point() {
    let mut passed = vec![false; 64 * 64];
    let mut last = None;
    for i in 0..64 * 64 {
        let (x, y) = hilbert_point(i, 6);
        assert!(!passed[y * 64 + x]);
        passed[y * 64 + x] = true;
        if let Some((a, b)) = last {
            let (a, b): (usize, usize) = (a, b);
            assert_eq!(a.abs_diff(x) + b.abs_diff(y), 1);
        }
        last = Some((x, y));
    }
    assert!(passed.into_iter().all(|p| p));
}

// --- dots ------------------------------------------------------------------

#[test]
fn methods_have_names() {
    for (name, method) in [
        ("threshold", Dither::Threshold),
        ("none", Dither::Threshold),
        ("atkinson", Dither::Atkinson),
        ("floyd", Dither::FloydSteinberg),
        ("floyd-steinberg", Dither::FloydSteinberg),
        ("bayer", Dither::Bayer),
        ("ordered", Dither::Bayer),
    ] {
        assert!(Dither::parse(name) == Some(method));
    }
    assert!(Dither::parse("Atkinson").is_none());
    assert!(Dither::parse("").is_none());
}

#[test]
fn dots_are_packed_from_the_most_significant_bit() {
    let mut bits = Bits::blank(10, 2);
    assert_eq!((bits.row_bytes, bits.data.len()), (2, 4));
    bits.burn(0, 0);
    bits.burn(9, 0);
    bits.burn(3, 1);
    assert_eq!(bits.data, vec![0x80, 0x40, 0x10, 0x00]);
    assert!(bits.get(0, 0) && bits.get(9, 0) && bits.get(3, 1));
    assert!(!bits.get(1, 0) && !bits.get(9, 1));
    let luma = bits.to_luma();
    assert_eq!(luma.len(), 20);
    for (i, grey) in luma.into_iter().enumerate() {
        assert_eq!(grey, if [0, 9, 13].contains(&i) { 0 } else { 255 });
    }
}

#[test]
fn the_ordered_matrix_is_this() {
    let wanted: [[u8; 8]; 8] = [
        [0, 32, 8, 40, 2, 34, 10, 42],
        [48, 16, 56, 24, 50, 18, 58, 26],
        [12, 44, 4, 36, 14, 46, 6, 38],
        [60, 28, 52, 20, 62, 30, 54, 22],
        [3, 35, 11, 43, 1, 33, 9, 41],
        [51, 19, 59, 27, 49, 17, 57, 25],
        [15, 47, 7, 39, 13, 45, 5, 37],
        [63, 31, 55, 23, 61, 29, 53, 21],
    ];
    let mut halftone = Halftone::new(16, 16, Dither::Bayer);
    let mut index = 0;
    while let Some(dot) = halftone.next() {
        assert_eq!(dot.index, index);
        assert!(dot.cut == Cut::Rank(wanted[index / 16 % 8][index % 8]));
        assert!(halftone.place(false).is_empty());
        index += 1;
    }
    assert_eq!(index, 256);
}

#[test]
fn a_dots_error_goes_to_its_neighbours() {
    let to = |shares: Vec<Share>| -> Vec<(usize, u8)> {
        shares.into_iter().map(|s| (s.index, s.sixteenths)).collect()
    };
    assert_eq!(
        to(shares_of(Dither::Atkinson, 1, 0, 4, 3)),
        vec![(2, 2), (3, 2), (4, 2), (5, 2), (6, 2), (9, 2)]
    );
    assert_eq!(
        to(shares_of(Dither::FloydSteinberg, 1, 0, 4, 3)),
        vec![(2, 7), (4, 3), (5, 5), (6, 1)]
    );
    assert_eq!(to(shares_of(Dither::Atkinson, 3, 1, 4, 3)), vec![(10, 2), (11, 2)]);
    assert_eq!(to(shares_of(Dither::FloydSteinberg, 0, 1, 4, 2)), vec![(5, 7)]);
    assert_eq!(to(shares_of(Dither::FloydSteinberg, 3, 2, 4, 3)), vec![]);
    assert_eq!(to(shares_of(Dither::Bayer, 1, 1, 4, 3)), vec![]);
    assert_eq!(to(shares_of(Dither::Threshold, 1, 1, 4, 3)), vec![]);
}

fn packed(tones: &[f32], width: usize, height: usize, method: Dither) -> Bits {
    let mut buf = tones.to_vec();
    let mut halftone = Halftone::new(width, height, method);
    while let Some(dot) = halftone.next() {
        let old = buf[dot.index];
        let on = match dot.cut {
            Cut::Half => old >= 0.5,
            Cut::Rank(rank) => old * 64.0 > rank as f32 + 0.5,
        };
        let err = old - if on { 1.0 } else { 0.0 };
        for share in halftone.place(on) {
            buf[share.index] += err * (share.sixteenths as f32 / 16.0);
        }
    }
    halftone.finish()
}

fn dither(tones: &[f32], width: usize, height: usize, method: Dither) -> Vec<bool> {
    let bits = packed(tones, width, height, method);
    (0..width * height).map(|i| bits.get(i % width, i / width)).collect()
}

#[test]
fn tones_become_dots() {
    assert_eq!(dither(&[0.4, 0.5, 0.6], 3, 1, Dither::Threshold), vec![false, true, true]);
    // 0.4 is passed on in full along a row of one: 7/16 of it each time.
    assert_eq!(
        dither(&[0.4, 0.4, 0.4], 3, 1, Dither::FloydSteinberg),
        vec![false, true, false]
    );
    // An eighth of the error to each of the next two.
    assert_eq!(dither(&[0.45, 0.45, 0.45], 3, 1, Dither::Atkinson), vec![false, true, false]);
    assert_eq!(dither(&[0.3; 4], 2, 2, Dither::Bayer), vec![true, false, false, true]);
    let half = dither(&[0.5; 64 * 64], 64, 64, Dither::FloydSteinberg);
    let burnt = half.iter().filter(|b| **b).count();
    assert!(burnt > 1950 && burnt < 2150);
}

#[test]
fn nothing_is_burnt_past_the_right_edge() {
    let half = [0.5; 4];
    assert_eq!(packed(&half, 4, 1, Dither::Threshold).data, vec![0xf0]);
    assert_eq!(packed(&half, 4, 1, Dither::Atkinson).data, vec![0x90]);
    assert_eq!(packed(&half, 4, 1, Dither::FloydSteinberg).data, vec![0xa0]);
    assert_eq!(packed(&half, 4, 1, Dither::Bayer).data, vec![0xa0]);
    // Error pushed past the edge is lost, not carried to the next row.
    assert_eq!(packed(&[0.5, 0.5625], 1, 2, Dither::Atkinson).data, vec![0x80, 0x80]);
    for width in 1..20 {
        let bits = packed(&vec![1.0; width * 3], width, 3, Dither::Threshold);
        assert_eq!(bits.data.len(), bits.row_bytes * 3);
        for y in 0..3 {
            for x in 0..8 * bits.row_bytes {
                assert_eq!(bits.get(x, y), x < width);
            }
        }
    }
    assert!(Bits::blank(3, 2).data.iter().all(|b| *b == 0));
}

#[test]
fn an_empty_picture_has_no_dots() {
    assert!(Halftone::new(0, 5, Dither::Atkinson).next().is_none());
    assert!(Halftone::new(5, 0, Dither::Atkinson).next().is_none());
    assert_eq!(Halftone::new(5, 0, Dither::Atkinson).finish().data.len(), 0);
}
