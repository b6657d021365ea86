use std::collections::HashSet;

use hashlife::life::cell::{BaseCell, Cell};
use hashlife::life::cell_id::CellId;
use hashlife::life::import::rle_to_cell_positions;
use hashlife::life::layer::Layer;
use hashlife::life::pack_unpack::{spread_fits, CellBounds};
use hashlife::life::print::print_positions;
use hashlife::life::Life;
use hashlife::rendering::detailed_canvas::DetailedCanvas;
use hashlife::rendering::life_viewer::{LifeViewer, RunningState, ViewerKey};

fn unbounded() -> CellBounds {
    CellBounds { min_x: i64::MIN, min_y: i64::MIN, max_x: i64::MAX, max_y: i64::MAX }
}

fn live_cells(life: &Life) -> HashSet<(i64, i64)> {
    life.cell_positions(32, unbounded()).into_iter().collect()
}

fn set(points: &[(i64, i64)]) -> HashSet<(i64, i64)> {
    points.iter().copied().collect()
}

#[test]
fn test_base_cell_can_be_retrieved_via_id() {
    let mut life = Life::new(8);

    let cell_alive = Cell::Base(BaseCell::Alive);
    let cell_dead = Cell::Base(BaseCell::Dead);

    let alive_id = life.add_cell(cell_alive.clone());
    let dead_id = life.add_cell(cell_dead.clone());

    let alive = life.get_cell(alive_id).unwrap();
    let dead = life.get_cell(dead_id).unwrap();

    assert_eq!(alive, &cell_alive);
    assert_eq!(dead, &cell_dead);
}

#[test]
fn empty_of_layer_works() {
    let mut life = Life::new(8);

    let empty_0 = life.empty_of_layer(0);
    let empty_1 = life.empty_of_layer(1);
    let empty_2 = life.empty_of_layer(2);

    assert_eq!(life.get_cell(empty_0).unwrap().layer(), 0);
    assert_eq!(life.get_cell(empty_1).unwrap().layer(), 1);
    assert_eq!(life.get_cell(empty_2).unwrap().layer(), 2);
}

#[test]
fn padding_works() {
    let mut life = Life::new(8);

    let empty = life.empty_of_layer(0);
    assert_eq!(empty.layer(), 0);
    let padded_1 = life.padded(empty);
    assert_eq!(padded_1.layer(), 1);
    let padded_2 = life.padded(padded_1);
    assert_eq!(padded_2.layer(), 2);
}

#[test]
fn test_pack_unpack() {
    let points = vec![(0, 0), (1, 0), (0, 1), (1, 1), (2, 2), (31, 7)];
    let life = Life::from_cell_positions(8, points.clone());
    let unpacked = life.cell_positions(
        8,
        CellBounds { min_x: i64::MIN, min_y: i64::MIN, max_x: i64::MAX, max_y: i64::MAX },
    );

    let expected: HashSet<(i64, i64)> = HashSet::from_iter(points);
    let actual = HashSet::from_iter(unpacked);
    assert_eq!(expected, actual);
}

#[test]
fn round_trip_keeps_negative_coordinates() {
    let points = vec![(-5, -3), (-4, -3), (7, 2), (-5, 9), (7, 2)];
    let life = Life::from_cell_positions(8, points.clone());
    assert_eq!(live_cells(&life), set(&points));
    assert_eq!(life.root.alive(), 4);
}

#[test]
fn empty_input_gives_empty_leaf() {
    let life = Life::from_cell_positions(8, vec![]);
    assert_eq!(life.root.layer(), 0);
    assert_eq!(life.root.alive(), 0);
    assert!(live_cells(&life).is_empty());
}

#[test]
fn coarse_query_reports_blocks() {
    let points = vec![(0, 0), (1, 0), (0, 1), (1, 1), (5, 5)];
    let life = Life::from_cell_positions(8, points);
    assert_eq!(life.root.layer(), 3);
    let coarse: HashSet<(i64, i64)> = life.cell_positions(1, unbounded()).into_iter().collect();
    assert_eq!(coarse, set(&[(0, 0), (4, 4)]));
    let whole: HashSet<(i64, i64)> = life.cell_positions(3, unbounded()).into_iter().collect();
    assert_eq!(whole, set(&[(0, 0)]));
}

#[test]
fn query_respects_bounds() {
    let points = vec![(0, 0), (3, 0), (3, 3), (10, 1)];
    let life = Life::from_cell_positions(8, points);
    let bounds = CellBounds { min_x: 1, min_y: 0, max_x: 5, max_y: 3 };
    let found: HashSet<(i64, i64)> = life.cell_positions(32, bounds).into_iter().collect();
    assert_eq!(found, set(&[(3, 0), (3, 3)]));
}

#[test]
fn block_is_still() {
    let block = [(0, 0), (1, 0), (0, 1), (1, 1)];
    let mut life = Life::from_cell_positions(32, block.to_vec());
    life.step();
    assert_eq!(live_cells(&life), set(&block));
    assert_eq!(life.root.alive(), 4);
}

#[test]
fn blinker_has_period_two() {
    let horizontal = [(0, 1), (1, 1), (2, 1)];
    let vertical = [(1, 0), (1, 1), (1, 2)];
    let mut life = Life::from_cell_positions(32, horizontal.to_vec());
    life.step();
    assert_eq!(live_cells(&life), set(&vertical));
    life.step();
    assert_eq!(live_cells(&life), set(&horizontal));
}

#[test]
fn glider_moves_one_cell_diagonally_in_four_steps() {
    let glider = [(1, 0), (2, 1), (0, 2), (1, 2), (2, 2)];
    let mut life = Life::from_cell_positions(32, glider.to_vec());
    for _ in 0..4 {
        life.step();
    }
    let moved: Vec<(i64, i64)> = glider.iter().map(|&(x, y)| (x + 1, y + 1)).collect();
    assert_eq!(live_cells(&life), set(&moved));
    assert_eq!(life.root.alive(), 5);
}

#[test]
fn empty_board_stays_empty() {
    let mut life = Life::new(8);
    life.step();
    assert_eq!(life.root.alive(), 0);
    life.step();
    assert_eq!(life.root.alive(), 0);
    assert!(live_cells(&life).is_empty());
}

#[test]
fn lone_cell_dies() {
    let mut life = Life::from_cell_positions(8, vec![(3, 4)]);
    life.step();
    assert_eq!(life.root.alive(), 0);
}

#[test]
fn next_generation_is_memoized() {
    let mut life = Life::from_cell_positions(8, vec![(0, 1), (1, 1), (2, 1), (3, 3)]);
    let root = life.root;
    assert!(root.layer() >= 2);
    let first = life.next_generation(root);
    let calls: Vec<usize> = life.layers.iter().map(|l| l.calls()).collect();
    let second = life.next_generation(root);
    let calls_after: Vec<usize> = life.layers.iter().map(|l| l.calls()).collect();
    assert_eq!(first, second);
    assert_eq!(calls, calls_after);
    assert_eq!(first.layer(), root.layer() - 1);
}

#[test]
fn identical_nodes_share_one_reference() {
    let mut life = Life::new(8);
    let a = life.base_alive;
    let d = life.base_dead;
    let x = life.join(a, d, d, a);
    let y = life.join(a, d, d, a);
    let z = life.join(d, a, a, d);
    assert_eq!(x, y);
    assert_ne!(x, z);
    assert_eq!(x.layer(), 1);
    assert_eq!(x.alive(), 2);
    let again = life.add_cell(Cell::composite(a, d, d, a));
    assert_eq!(again, x);
}

#[test]
fn population_is_sum_of_children() {
    let mut life = Life::new(8);
    let a = life.base_alive;
    let d = life.base_dead;
    let one = life.join(a, d, d, d);
    let three = life.join(a, a, a, d);
    let top = life.join(one, three, three, one);
    assert_eq!(top.alive(), 8);
    assert_eq!(top.layer(), 2);
    let cell = life.get_cell(top).unwrap().as_composite();
    assert_eq!(cell.nw.alive() + cell.ne.alive() + cell.sw.alive() + cell.se.alive(), top.alive());
}

#[test]
fn padding_keeps_population_and_adds_a_depth() {
    let mut life = Life::from_cell_positions(8, vec![(0, 0), (3, 1), (2, 3)]);
    let root = life.root;
    let padded = life.padded(root);
    assert_eq!(padded.layer(), root.layer() + 1);
    assert_eq!(padded.alive(), root.alive());
    assert!(life.is_padded(padded));
}

#[test]
fn centered_subnode_of_padded_is_the_node() {
    let mut life = Life::from_cell_positions(8, vec![(0, 0), (3, 1), (2, 3)]);
    let root = life.root;
    let padded = life.padded(root);
    let center = life.centered_subnode(padded);
    assert_eq!(center, root);
}

#[test]
fn out_of_range_reference_is_absent() {
    let mut life = Life::new(4);
    let a = life.base_alive;
    let node = life.join(a, a, a, a);
    let fresh = Life::new(4);
    assert!(fresh.get_cell(node).is_none());
}

#[test]
fn arena_interns_once() {
    let mut layer = Layer::default();
    let first = layer.add_cell(Cell::Base(BaseCell::Alive));
    let second = layer.add_cell(Cell::Base(BaseCell::Dead));
    let third = layer.add_cell(Cell::Base(BaseCell::Alive));
    assert_eq!(first, 0);
    assert_eq!(second, 1);
    assert_eq!(third, 0);
    assert_eq!(layer.size(), 2);
    assert_eq!(layer.calls(), 3);
}

#[test]
fn rle_skips_comments_and_header() {
    let text = "#C a comment\nx = 3, y = 1\n3o!\n".to_string();
    assert_eq!(rle_to_cell_positions(text, 0, 0), vec![(0, 0), (1, 0), (2, 0)]);
}

#[test]
fn rle_decodes_a_glider_with_offset() {
    let text = "x = 3, y = 3\nbo$2bo$3o!".to_string();
    let cells = rle_to_cell_positions(text, 10, 20);
    assert_eq!(cells, vec![(11, 20), (12, 21), (10, 22), (11, 22), (12, 22)]);
}

#[test]
fn rle_run_lengths_and_row_skips() {
    let text = "x\n2b3o2$12bo\n".to_string();
    let cells = rle_to_cell_positions(text, 0, 0);
    assert_eq!(cells, vec![(2, 0), (3, 0), (4, 0), (12, 2)]);
}

#[test]
fn rle_ignores_other_characters() {
    let text = "x\nozq!o".to_string();
    assert_eq!(rle_to_cell_positions(text, 0, 0), vec![(0, 0), (1, 0)]);
}

#[test]
fn from_rle_builds_the_pattern() {
    let life = Life::from_rle("#N glider\nx = 3, y = 3\nbo$2bo$3o!").unwrap();
    assert_eq!(live_cells(&life), set(&[(1, 0), (2, 1), (0, 2), (1, 2), (2, 2)]));
}

#[test]
fn from_rle_refuses_too_wide_pattern() {
    assert!(Life::from_rle("x\no4294967296bo!").is_none());
}

#[test]
fn spread_check_matches_limit() {
    assert!(spread_fits(&vec![(0, 0), (7, 7)], 3));
    assert!(!spread_fits(&vec![(0, 0), (8, 0)], 3));
    assert!(spread_fits(&vec![], 0));
}

#[test]
fn canvas_sets_braille_bits() {
    let mut canvas = DetailedCanvas::new((3, 2));
    assert_eq!(canvas.size(), (6, 8));
    canvas.set(0, 0);
    canvas.set(1, 3);
    canvas.set(5, 7);
    canvas.set(6, 0);
    assert_eq!(canvas.char_bits(0, 0), 1 | 128);
    assert_eq!(canvas.char_bits(2, 1), 128);
    assert_eq!(canvas.char_bits(1, 0), 0);
    canvas.clear();
    assert_eq!(canvas.char_bits(0, 0), 0);
}

#[test]
fn print_positions_draws_from_the_corner() {
    let mut canvas = DetailedCanvas::new((4, 4));
    print_positions(&mut canvas, (0, 0), vec![(10, 10), (11, 12)]);
    assert_eq!(canvas.char_bits(0, 0), 16);
    assert_eq!(canvas.char_bits(1, 0), 64);
}

#[test]
fn viewer_keys_change_state() {
    let life = Life::from_cell_positions(32, vec![(0, 1), (1, 1), (2, 1)]);
    let mut viewer = LifeViewer::new((10, 5), life);
    assert_eq!(viewer.pixel_scale(), 32);
    assert_eq!(viewer.cell_offset_x, -320);
    assert_eq!(viewer.cell_offset_y, -320);
    assert!(!viewer.on_key(ViewerKey::ZoomIn));
    assert_eq!(viewer.pixel_scale(), 16);
    assert!(!viewer.on_key(ViewerKey::Right));
    assert_eq!(viewer.cell_offset_x, -320 + 160 + 64);
    assert!(!viewer.step());
    assert!(!viewer.on_key(ViewerKey::TogglePause));
    assert_eq!(viewer.running_state, RunningState::Running);
    assert!(viewer.step());
    assert!(viewer.on_key(ViewerKey::Quit));
}

#[test]
fn clone_evolves_independently() {
    let blinker = [(0, 1), (1, 1), (2, 1)];
    let mut life = Life::from_cell_positions(32, blinker.to_vec());
    let saved = life.clone();
    life.step();
    assert_eq!(live_cells(&saved), set(&blinker));
    let mut branch = saved.clone();
    branch.step();
    assert_eq!(live_cells(&branch), live_cells(&life));
}

#[test]
fn coarse_block_crossing_the_bounds_is_reported() {
    let life = Life::from_cell_positions(8, vec![(0, 0), (1, 1)]);
    assert_eq!(life.root.layer(), 1);
    let bounds = CellBounds { min_x: 1, min_y: 1, max_x: 5, max_y: 5 };
    assert_eq!(life.cell_positions(1, bounds), vec![(0, 0)]);
    let outside = CellBounds { min_x: 2, min_y: 0, max_x: 5, max_y: 5 };
    assert!(life.cell_positions(1, outside).is_empty());
}

#[test]
fn reference_equality_ignores_population() {
    assert_eq!(CellId::new(0, 0, 1), CellId::new(0, 0, 2));
    assert_ne!(CellId::new(0, 0, 1), CellId::new(1, 0, 1));
    assert_ne!(CellId::new(0, 0, 1), CellId::new(0, 1, 1));
}

#[test]
fn children_of_another_depth_get_another_slot() {
    let mut layer = Layer::default();
    let shallow = CellId::new(0, 0, 1);
    let deep = CellId::new(1, 0, 1);
    let a = layer.add_cell(Cell::composite(shallow, shallow, shallow, shallow));
    let b = layer.add_cell(Cell::composite(deep, deep, deep, deep));
    let c = layer.add_cell(Cell::composite(shallow, shallow, shallow, shallow));
    assert_eq!(a, 0);
    assert_eq!(b, 1);
    assert_eq!(c, 0);
    assert_eq!(layer.size(), 2);
}

#[test]
fn single_point_fits_one_arena() {
    let life = Life::from_cell_positions(1, vec![(7, -2), (7, -2)]);
    assert_eq!(life.root.layer(), 0);
    assert_eq!(life.root.alive(), 1);
    assert_eq!(life.origin_x, 7);
    assert_eq!(life.origin_y, -2);
    assert_eq!(live_cells(&life), set(&[(7, -2)]));
}

#[test]
fn import_states_depth_origin_and_population() {
    let life = Life::from_cell_positions(8, vec![(3, 9), (10, 4), (3, 9), (5, 5)]);
    assert_eq!(life.root.layer(), 3);
    assert_eq!(life.origin_x, 3);
    assert_eq!(life.origin_y, 4);
    assert_eq!(life.root.alive(), 3);
}

#[test]
fn known_patterns_run_on_eight_arenas() {
    let mut life = Life::from_cell_positions(8, vec![(0, 1), (1, 1), (2, 1)]);
    life.step();
    assert_eq!(live_cells(&life), set(&[(1, 0), (1, 1), (1, 2)]));
    assert_eq!(life.root.alive(), 3);
}
