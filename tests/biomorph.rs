use oxydomorph::biomorph::{can_draw, Biomorph, Config, Matrix, MAX_SEGMENTS};
use oxydomorph::genome::{genes_in_bounds, genome};
use oxydomorph::geometry::{DoubledPoint, Point, Segment};

fn in_bounds(genes: &[i32; 9]) -> bool {
    let table = genome();
    (0..9).all(|i| table[i].0 <= genes[i] && genes[i] <= table[i].1)
}

fn one_step_apart(parent: &[i32; 9], child: &[i32; 9]) -> bool {
    let changed: Vec<usize> = (0..9).filter(|&i| parent[i] != child[i]).collect();
    changed.len() == 1 && (parent[changed[0]] - child[changed[0]]).abs() == 1
}

fn developed(genes: [i32; 9]) -> Biomorph {
    let mut b = Biomorph::new(genes);
    assert!(b.develop());
    b
}

fn pt(x: i32, y: i32) -> Point {
    Point { x, y, z: 0 }
}

#[test]
fn genome_table_bounds() {
    let table = genome();
    for i in 0..8 {
        assert_eq!(table[i], (-9, 9));
    }
    assert_eq!(table[8], (3, 9));
}

#[test]
fn genes_in_bounds_checks_every_gene() {
    assert!(genes_in_bounds(&[0, 0, 0, 0, 0, 0, 0, 0, 6]));
    assert!(genes_in_bounds(&[-9, 9, -9, 9, -9, 9, -9, 9, 3]));
    assert!(!genes_in_bounds(&[0, 0, 0, 0, 0, 0, 0, 0, 2]));
    assert!(!genes_in_bounds(&[0, 0, 0, 0, 0, 0, 0, 0, 10]));
    assert!(!genes_in_bounds(&[0, 0, 0, -10, 0, 0, 0, 0, 6]));
}

#[test]
fn config_default_is_three_by_three() {
    let c = Config::default();
    assert_eq!((c.columns, c.rows), (3, 3));
    let d: Config = Default::default();
    assert_eq!((d.columns, d.rows), (3, 3));
}

#[test]
fn initial_samples_lie_in_birth_ranges() {
    for _ in 0..500 {
        let b = Biomorph::initial();
        for i in 0..8 {
            assert!(-9 <= b.genes[i] && b.genes[i] <= 9);
        }
        assert!(6 <= b.genes[8] && b.genes[8] <= 9);
        assert!(b.segment_list.is_empty());
    }
}

#[test]
fn initial_samples_vary() {
    let firsts: Vec<i32> = (0..200).map(|_| Biomorph::initial().genes[0]).collect();
    assert!(firsts.iter().any(|&g| g != firsts[0]));
    let orders: Vec<i32> = (0..200).map(|_| Biomorph::initial().genes[8]).collect();
    assert!(orders.iter().any(|&g| g != 6));
}

#[test]
fn mutate_steps_one_gene() {
    let b = Biomorph::new([0, 0, 0, 0, 0, 0, 0, 0, 6]);
    assert_eq!(b.mutate(0, true).genes, [1, 0, 0, 0, 0, 0, 0, 0, 6]);
    assert_eq!(b.mutate(4, false).genes, [0, 0, 0, 0, -1, 0, 0, 0, 6]);
    assert_eq!(b.mutate(8, true).genes, [0, 0, 0, 0, 0, 0, 0, 0, 7]);
    assert!(b.mutate(8, true).segment_list.is_empty());
}

#[test]
fn mutate_at_an_end_goes_one_inside() {
    let b = Biomorph::new([9, -9, 0, 0, 0, 0, 0, 0, 3]);
    assert_eq!(b.mutate(0, true).genes[0], 8);
    assert_eq!(b.mutate(1, false).genes[1], -8);
    assert_eq!(b.mutate(8, false).genes[8], 4);
    let top = Biomorph::new([0, 0, 0, 0, 0, 0, 0, 0, 9]);
    assert_eq!(top.mutate(8, true).genes[8], 8);
}

#[test]
fn mutate_every_choice_keeps_bounds() {
    let parents = [[9, -9, 9, -9, 9, -9, 9, -9, 3], [0, 0, 0, 0, 0, 0, 0, 0, 9]];
    for p in parents.iter() {
        let b = Biomorph::new(*p);
        for i in 0..9 {
            for up in [true, false] {
                let c = b.mutate(i, up);
                assert!(in_bounds(&c.genes));
                assert!(one_step_apart(p, &c.genes));
            }
        }
    }
}

#[test]
fn reproduce_is_one_step_mutation() {
    let parent = Biomorph::new([9, -9, 0, 0, 0, 0, 0, 0, 3]);
    let mut seen_up = false;
    let mut seen_down = false;
    let mut seen_index = [false; 9];
    for _ in 0..1000 {
        let c = parent.reproduce();
        assert!(in_bounds(&c.genes));
        assert!(one_step_apart(&parent.genes, &c.genes));
        assert!(c.segment_list.is_empty());
        for i in 0..9 {
            if c.genes[i] != parent.genes[i] {
                seen_index[i] = true;
                if i >= 2 && i < 8 {
                    if c.genes[i] > parent.genes[i] {
                        seen_up = true;
                    } else {
                        seen_down = true;
                    }
                }
            }
        }
    }
    assert!(seen_up && seen_down);
    assert!(seen_index.iter().all(|&s| s));
}

#[test]
fn plugin_direction_tables() {
    let (order, dx, dy) = Biomorph::plugin([0, 1, 2, 3, 4, 5, 6, 7, 8]);
    assert_eq!(order, 8);
    assert_eq!(dx, [-2, -1, 0, 1, 2, 3, 0, -3, 0]);
    assert_eq!(dy, [6, 5, 4, 5, 6, 7, 8, 7, 0]);
}

#[test]
fn develop_segment_counts() {
    for order in 3..=9 {
        let b = developed([1, 2, 3, 4, 5, 6, 7, 8, order]);
        assert_eq!(b.segment_list.len(), (1usize << (order + 1)) - 1);
        assert!(b.segment_list.len() <= MAX_SEGMENTS);
    }
    assert_eq!(developed([0, 0, 0, 0, 0, 0, 0, 0, 3]).segment_list.len(), 15);
    assert_eq!(developed([0, 0, 0, 0, 0, 0, 0, 0, 9]).segment_list.len(), 1023);
}

#[test]
fn develop_preorder_segments() {
    let b = developed([0, 1, 2, 3, 4, 5, 6, 7, 3]);
    let s = &b.segment_list;
    assert_eq!(s[0], Segment { start: pt(0, 0), end: pt(0, 12) });
    assert_eq!(s[1], Segment { start: pt(0, 12), end: pt(-2, 22) });
    assert_eq!(s[2], Segment { start: pt(-2, 22), end: pt(-4, 28) });
    assert_eq!(s[3], Segment { start: pt(-4, 28), end: pt(-4, 28) });
    assert_eq!(s[4], Segment { start: pt(-4, 28), end: pt(-4, 28) });
    assert_eq!(s[5], Segment { start: pt(-2, 22), end: pt(-2, 26) });
    assert_eq!(s[8], Segment { start: pt(0, 12), end: pt(2, 22) });
    assert!(s.iter().all(|seg| seg.start.z == 0 && seg.end.z == 0));
}

#[test]
fn develop_refuses_order_past_capacity() {
    let mut b = developed([0, 0, 0, 0, 0, 0, 0, 0, 3]);
    b.genes[8] = 10;
    assert!(!b.develop());
    assert!(b.segment_list.is_empty());
    let mut c = Biomorph::new([0, 0, 0, 0, 0, 0, 0, 0, -1]);
    assert!(!c.develop());
    assert!(c.segment_list.is_empty());
    let mut d = Biomorph::new([0, 0, 0, 0, 0, 12, 0, 0, 3]);
    assert!(!d.develop());
    assert!(d.segment_list.is_empty());
}

#[test]
fn develop_low_orders_and_unused_gene_zero() {
    for order in 0..3 {
        let b = developed([0, 1, 2, 3, 4, 5, 6, 7, order]);
        assert_eq!(b.segment_list.len(), (1usize << (order + 1)) - 1);
    }
    let single = developed([0, 0, 0, 0, 5, 0, 0, 0, 0]);
    assert_eq!(single.segment_list, vec![Segment { start: pt(0, 0), end: pt(0, 0) }]);
    let a = developed([500, 1, 2, 3, 4, 5, 6, 7, 4]);
    let b = developed([-9, 1, 2, 3, 4, 5, 6, 7, 4]);
    assert_eq!(a.segment_list, b.segment_list);
}

#[test]
fn can_draw_checks_order_and_steps() {
    assert!(can_draw(&[0, 0, 0, 0, 0, 0, 0, 0, 0]));
    assert!(can_draw(&[1000, 9, -9, 9, -9, 9, -9, 9, 9]));
    assert!(!can_draw(&[0, 0, 0, 0, 0, 0, 0, 0, 10]));
    assert!(!can_draw(&[0, 0, 0, 0, 0, 0, 0, -10, 5]));
}

#[test]
fn drawing_is_symmetric_about_y_axis() {
    for genes in [[0, 3, -5, 7, 2, -4, 6, -8, 5], [0, -9, 9, -9, 9, -9, 9, -9, 9], [0, 1, 0, 0, 0, 0, 0, 0, 0]] {
        let b = developed(genes);
        let (lo, hi) = b.bounding_box().unwrap();
        assert_eq!(lo.x, -hi.x);
        let m = b.center().unwrap();
        assert_eq!(m.x, 0);
        assert_eq!(m.y, (lo.y + hi.y) as i64);
    }
}

#[test]
fn develop_rebuilds_rather_than_appends() {
    let mut b = developed([0, 0, 0, 0, 0, 0, 0, 0, 4]);
    assert!(b.develop());
    assert_eq!(b.segment_list.len(), 31);
    b.genes[8] = 3;
    assert!(b.develop());
    assert_eq!(b.segment_list.len(), 15);
}

#[test]
fn expansion_is_deterministic() {
    let genes = [3, -4, 5, -6, 7, -8, 9, -1, 7];
    let a = developed(genes);
    let b = developed(genes);
    assert_eq!(a.segment_list, b.segment_list);
}

#[test]
fn bounding_box_of_given_segments() {
    let mut b = Biomorph::new([0, 0, 0, 0, 0, 0, 0, 0, 3]);
    b.segment_list = vec![
        Segment { start: pt(1, 2), end: pt(3, -4) },
        Segment { start: pt(-5, 0), end: pt(2, 7) },
    ];
    assert_eq!(b.bounding_box(), Some((pt(-5, -4), pt(3, 7))));
    assert_eq!(b.center(), Some(DoubledPoint { x: -2, y: 3, z: 0 }));
}

#[test]
fn bounding_box_of_drawing_holds_all_endpoints() {
    let b = developed([2, -3, 4, 1, -2, 3, -4, 5, 5]);
    let (lo, hi) = b.bounding_box().unwrap();
    let pts: Vec<Point> = b.segment_list.iter().flat_map(|s| [s.start, s.end]).collect();
    assert_eq!(lo.x, pts.iter().map(|p| p.x).min().unwrap());
    assert_eq!(lo.y, pts.iter().map(|p| p.y).min().unwrap());
    assert_eq!(hi.x, pts.iter().map(|p| p.x).max().unwrap());
    assert_eq!(hi.y, pts.iter().map(|p| p.y).max().unwrap());
    let m = b.center().unwrap();
    assert_eq!((m.x, m.y, m.z), ((lo.x + hi.x) as i64, (lo.y + hi.y) as i64, 0));
}

#[test]
fn empty_drawing_has_no_box() {
    let b = Biomorph::new([0, 0, 0, 0, 0, 0, 0, 0, 3]);
    assert_eq!(b.bounding_box(), None);
    assert_eq!(b.center(), None);
}

#[test]
fn segment_initial_is_at_origin() {
    let s = Segment::initial();
    assert_eq!(s.start, Point { x: 0, y: 0, z: 0 });
    assert_eq!(s.end, Point { x: 0, y: 0, z: 0 });
}

#[test]
fn population_of_three_by_three() {
    let mut m = Matrix::initial_setup(&Config { columns: 3, rows: 3 });
    assert_eq!(m.biomorphs.len(), 9);
    for i in 0..9 {
        m.develop(i);
    }
    for b in &m.biomorphs {
        assert_eq!(b.segment_list.len(), (1usize << (b.genes[8] + 1)) - 1);
    }
}

#[test]
fn generate_draws_every_slot() {
    let m = Matrix::generate(&Config { columns: 2, rows: 3 });
    assert_eq!(m.biomorphs.len(), 6);
    for b in &m.biomorphs {
        assert!(6 <= b.genes[8] && b.genes[8] <= 9);
        assert_eq!(b.segment_list, developed(b.genes).segment_list);
    }
}

#[test]
fn population_develop_of_undrawable_genome_is_empty() {
    let mut m = Matrix { biomorphs: vec![Biomorph::new([0, 0, 0, 0, 0, 0, 0, 0, 11])] };
    m.develop(0);
    assert!(m.biomorphs[0].segment_list.is_empty());
}

#[test]
fn population_develop_touches_one_slot() {
    let mut m = Matrix::initial_setup(&Config { columns: 2, rows: 1 });
    m.develop(1);
    assert!(m.biomorphs[0].segment_list.is_empty());
    assert!(!m.biomorphs[1].segment_list.is_empty());
}

#[test]
fn reproduce_with_fixed_choices() {
    let parent = [0, 0, 0, 0, 0, 0, 0, 0, 6];
    let mut m = Matrix { biomorphs: (0..9).map(|_| Biomorph::new(parent)).collect() };
    let choices: Vec<(usize, bool)> =
        vec![(0, true), (1, false), (2, true), (3, false), (4, true), (5, false), (6, true), (7, false), (8, true)];
    m.reproduce_with(0, &choices);
    assert_eq!(m.biomorphs.len(), 9);
    for (k, b) in m.biomorphs.iter().enumerate() {
        assert!(in_bounds(&b.genes));
        assert!(one_step_apart(&parent, &b.genes));
        let (i, up) = choices[k];
        assert_eq!(b.genes[i], if up { 1 } else { -1 } + if i == 8 { 6 } else { 0 });
        assert_eq!(b.segment_list, developed(b.genes).segment_list);
    }
}

#[test]
fn reproduce_from_zero_genome() {
    let parent = [0, 0, 0, 0, 0, 0, 0, 0, 6];
    let mut m = Matrix { biomorphs: (0..9).map(|_| Biomorph::new(parent)).collect() };
    m.reproduce(0);
    assert_eq!(m.biomorphs.len(), 9);
    for b in &m.biomorphs {
        assert!(in_bounds(&b.genes));
        assert!(one_step_apart(&parent, &b.genes));
    }
}

#[test]
fn repeated_reproduction_keeps_population_fresh() {
    let mut m = Matrix::initial_setup(&Config { columns: 4, rows: 2 });
    for i in 0..8 {
        m.develop(i);
    }
    for round in 0..30 {
        let parent = m.biomorphs[round % 8].genes;
        m.reproduce(round % 8);
        assert_eq!(m.biomorphs.len(), 8);
        for b in &m.biomorphs {
            assert!(in_bounds(&b.genes));
            assert!(one_step_apart(&parent, &b.genes));
            assert_eq!(b.segment_list, developed(b.genes).segment_list);
        }
    }
}
