use tilemerge::animation::AnimationStep;
use tilemerge::board::{Board, Direction, CELLS, SIZE, SPAWN_TWO_PERCENT};

fn board_from(values: &[u16]) -> Board {
    assert_eq!(values.len(), CELLS);
    let mut b = Board::new();
    for (i, v) in values.iter().enumerate() {
        assert!(b.set(i % SIZE, i / SIZE, *v));
    }
    b
}

fn row(b: &Board, y: usize) -> Vec<u16> {
    (0..SIZE).map(|x| b.get(x, y).unwrap()).collect()
}

fn sum(b: &Board) -> u32 {
    b.get_pieces().iter().map(|v| *v as u32).sum()
}

fn occupied(b: &Board) -> usize {
    b.get_pieces().iter().filter(|v| **v != 0).count()
}

#[test]
fn new_board_is_empty() {
    let b = Board::new();
    assert_eq!(b.get_pieces(), vec![0u16; CELLS]);
}

#[test]
fn get_and_set_out_of_range() {
    let mut b = Board::new();
    assert!(b.set(1, 2, 8));
    assert_eq!(b.get(1, 2), Some(8));
    assert_eq!(b.get(4, 0), None);
    assert_eq!(b.get(0, 4), None);
    assert!(!b.set(4, 0, 2));
    assert!(!b.set(0, 7, 2));
    assert!(b.set(3, 3, 0));
    assert_eq!(b.get_pieces()[2 * SIZE + 1], 8);
    assert_eq!(sum(&b), 8);
}

#[test]
fn animation_step_new_keeps_fields() {
    let s = AnimationStep::new(1, 2, 3, 0, true);
    assert_eq!((s.from_x, s.from_y, s.to_x, s.to_y, s.is_merge), (1, 2, 3, 0, true));
}

#[test]
fn pair_merges_left() {
    let mut b = board_from(&[2, 2, 0, 0, 0, 0, 0, 0, 0, 0, 0, 0, 0, 0, 0, 0]);
    let steps = b.merge_all(Direction::Left);
    assert_eq!(row(&b, 0), vec![4, 0, 0, 0]);
    assert_eq!(steps, vec![AnimationStep::new(1, 0, 0, 0, true)]);
}

#[test]
fn gap_merges_left() {
    let mut b = board_from(&[2, 0, 2, 0, 0, 0, 0, 0, 0, 0, 0, 0, 0, 0, 0, 0]);
    let steps = b.merge_all(Direction::Left);
    assert_eq!(row(&b, 0), vec![4, 0, 0, 0]);
    assert_eq!(steps, vec![AnimationStep::new(2, 0, 0, 0, true)]);
}

#[test]
fn unequal_neighbours_stay_left() {
    let mut b = board_from(&[2, 4, 2, 0, 0, 0, 0, 0, 0, 0, 0, 0, 0, 0, 0, 0]);
    let steps = b.merge_all(Direction::Left);
    assert_eq!(row(&b, 0), vec![2, 4, 2, 0]);
    assert!(steps.is_empty());
}

#[test]
fn slide_right_records_slide() {
    let mut b = board_from(&[2, 0, 0, 0, 0, 0, 0, 0, 0, 0, 0, 0, 0, 0, 0, 0]);
    let steps = b.merge_all(Direction::Right);
    assert_eq!(row(&b, 0), vec![0, 0, 0, 2]);
    assert_eq!(steps, vec![AnimationStep::new(0, 0, 3, 0, false)]);
}

#[test]
fn four_equal_tiles_left() {
    let mut b = board_from(&[2, 2, 2, 2, 0, 0, 0, 0, 0, 0, 0, 0, 0, 0, 0, 0]);
    let steps = b.merge_all(Direction::Left);
    assert_eq!(row(&b, 0), vec![4, 4, 0, 0]);
    assert_eq!(
        steps,
        vec![
            AnimationStep::new(1, 0, 0, 0, true),
            AnimationStep::new(2, 0, 1, 0, false),
            AnimationStep::new(3, 0, 1, 0, true),
        ]
    );
}

#[test]
fn merged_tile_does_not_merge_again() {
    let mut b = board_from(&[2, 2, 4, 0, 0, 0, 0, 0, 0, 0, 0, 0, 0, 0, 0, 0]);
    let steps = b.merge_all(Direction::Left);
    assert_eq!(row(&b, 0), vec![4, 4, 0, 0]);
    assert_eq!(
        steps,
        vec![AnimationStep::new(1, 0, 0, 0, true), AnimationStep::new(2, 0, 1, 0, false)]
    );
}

#[test]
fn merged_tile_blocks_later_equal_tile_right() {
    let mut b = board_from(&[4, 0, 2, 2, 0, 0, 0, 0, 0, 0, 0, 0, 0, 0, 0, 0]);
    let steps = b.merge_all(Direction::Right);
    assert_eq!(row(&b, 0), vec![0, 0, 4, 4]);
    assert_eq!(
        steps,
        vec![AnimationStep::new(2, 0, 3, 0, true), AnimationStep::new(0, 0, 2, 0, false)]
    );
}

#[test]
fn move_fits_detects_overflowing_doubling() {
    let b = board_from(&[32768, 32768, 0, 0, 0, 0, 0, 0, 0, 0, 0, 0, 0, 0, 0, 0]);
    assert!(!b.move_fits(Direction::Left));
    assert!(!b.move_fits(Direction::Right));
    assert!(b.move_fits(Direction::Up));
    assert!(b.move_fits(Direction::Down));
}

#[test]
fn large_tiles_that_do_not_merge_can_move() {
    let mut b = board_from(&[32768, 2, 32768, 0, 0, 0, 0, 0, 0, 0, 0, 0, 0, 0, 0, 0]);
    assert!(b.move_fits(Direction::Left));
    let steps = b.merge_all(Direction::Left);
    assert!(steps.is_empty());
    assert_eq!(row(&b, 0), vec![32768, 2, 32768, 0]);
    assert!(b.move_fits(Direction::Down));
    let steps = b.merge_all(Direction::Down);
    assert_eq!(steps.len(), 3);
    assert_eq!(row(&b, 3), vec![32768, 2, 32768, 0]);
}

#[test]
fn end_game_grid_moves() {
    let values = [
        32768, 16384, 8192, 4096, 2048, 1024, 512, 256, 128, 64, 32, 16, 8, 4, 2, 2,
    ];
    let mut b = board_from(&values);
    assert!(b.move_fits(Direction::Left));
    let steps = b.merge_all(Direction::Left);
    assert_eq!(steps, vec![AnimationStep::new(3, 3, 2, 3, true)]);
    assert_eq!(row(&b, 3), vec![8, 4, 4, 0]);
}

#[test]
fn down_scans_from_the_bottom() {
    let mut b = board_from(&[2, 0, 0, 0, 2, 0, 0, 0, 2, 0, 0, 0, 0, 0, 0, 0]);
    let steps = b.merge_all(Direction::Down);
    let col: Vec<u16> = (0..SIZE).map(|y| b.get(0, y).unwrap()).collect();
    assert_eq!(col, vec![0, 0, 2, 4]);
    assert_eq!(
        steps,
        vec![
            AnimationStep::new(0, 2, 0, 3, false),
            AnimationStep::new(0, 1, 0, 3, true),
            AnimationStep::new(0, 0, 0, 2, false),
        ]
    );
}

#[test]
fn up_moves_column_to_top() {
    let mut b = board_from(&[0, 0, 0, 0, 0, 4, 0, 0, 0, 0, 0, 0, 0, 4, 0, 0]);
    let steps = b.merge_all(Direction::Up);
    assert_eq!(b.get(1, 0), Some(8));
    assert_eq!(sum(&b), 8);
    assert_eq!(
        steps,
        vec![AnimationStep::new(1, 1, 1, 0, false), AnimationStep::new(1, 3, 1, 0, true)]
    );
}

#[test]
fn move_conserves_sum_and_drops_count_by_merges() {
    let values = [2, 2, 4, 8, 0, 4, 4, 0, 16, 0, 16, 2, 2, 2, 0, 2];
    for d in [Direction::Up, Direction::Right, Direction::Down, Direction::Left] {
        let mut b = board_from(&values);
        let before_sum = sum(&b);
        let before_count = occupied(&b);
        let steps = b.merge_all(d);
        let merges = steps.iter().filter(|s| s.is_merge).count();
        assert_eq!(sum(&b), before_sum);
        assert_eq!(occupied(&b), before_count - merges);
    }
}

#[test]
fn origins_are_distinct_within_a_move() {
    let values = [2, 2, 2, 2, 4, 4, 8, 8, 2, 0, 2, 0, 0, 2, 2, 4];
    for d in [Direction::Up, Direction::Right, Direction::Down, Direction::Left] {
        let mut b = board_from(&values);
        let steps = b.merge_all(d);
        for i in 0..steps.len() {
            for j in (i + 1)..steps.len() {
                assert!((steps[i].from_x, steps[i].from_y) != (steps[j].from_x, steps[j].from_y));
                assert!((steps[i].to_x, steps[i].to_y) != (steps[j].from_x, steps[j].from_y));
            }
        }
    }
}

#[test]
fn stuck_direction_is_identity() {
    let values = [2, 4, 8, 16, 4, 8, 16, 2, 0, 0, 0, 0, 0, 0, 0, 0];
    let mut b = board_from(&values);
    let steps = b.merge_all(Direction::Up);
    assert!(steps.is_empty());
    assert_eq!(b.get_pieces(), values.to_vec());
}

#[test]
fn wall_tile_does_not_move() {
    let mut b = board_from(&[0, 0, 0, 8, 0, 0, 0, 0, 0, 0, 0, 0, 0, 0, 0, 0]);
    let steps = b.merge_all(Direction::Right);
    assert!(steps.is_empty());
    assert_eq!(b.get(3, 0), Some(8));
    let mut b = board_from(&[0, 0, 2, 8, 0, 0, 0, 0, 0, 0, 0, 0, 0, 0, 0, 0]);
    let steps = b.merge_all(Direction::Right);
    assert!(steps.is_empty());
    assert_eq!(row(&b, 0), vec![0, 0, 2, 8]);
}

#[test]
fn empty_cells_row_major() {
    let b = board_from(&[2, 0, 2, 2, 2, 2, 2, 2, 2, 2, 0, 2, 2, 2, 2, 2]);
    assert_eq!(b.empty_cells(), vec![(1, 0), (2, 2)]);
}

#[test]
fn spawn_on_empty_grid() {
    let mut b = Board::new();
    let placed = b.set_random_from(5, 10);
    assert_eq!(placed, vec![1, 1, 2]);
    assert_eq!(sum(&b), 2);
    assert_eq!(occupied(&b), 1);
    assert_eq!(b.get(1, 1), Some(2));
}

#[test]
fn spawn_value_follows_roll() {
    let mut b = Board::new();
    let placed = b.set_random_from(0, SPAWN_TWO_PERCENT);
    assert_eq!(placed, vec![0, 0, 4]);
    let placed = b.set_random_from(0, SPAWN_TWO_PERCENT - 1);
    assert_eq!(placed, vec![1, 0, 2]);
    assert_eq!(sum(&b), 6);
}

#[test]
fn spawn_picks_only_empty_cells() {
    let mut b = board_from(&[2, 0, 2, 2, 2, 2, 2, 2, 2, 2, 0, 2, 2, 2, 2, 2]);
    let placed = b.set_random_from(3, 99);
    assert_eq!(placed, vec![2, 2, 4]);
    assert_eq!(b.get(2, 2), Some(4));
    assert_eq!(b.get(1, 0), Some(0));
}

#[test]
fn spawn_on_full_grid_does_nothing() {
    let values = [2u16; CELLS];
    let mut b = board_from(&values);
    let placed = b.set_random_from(7, 0);
    assert!(placed.is_empty());
    assert_eq!(b.get_pieces(), values.to_vec());
}

#[test]
fn text_dump_centres_each_cell() {
    let b = board_from(&[2, 16, 128, 1024, 0, 0, 0, 0, 0, 0, 0, 0, 0, 0, 0, 4]);
    let empty_row = " 0   0   0   0  \n\n";
    let expected = format!(" 2   16 128 1024\n\n{}{} 0   0   0   4  \n\n", empty_row, empty_row);
    assert_eq!(b.to_text(), expected);
}

#[test]
fn text_dump_of_wide_value() {
    let mut b = Board::new();
    assert!(b.set(0, 0, 65535));
    let text = b.to_text();
    assert!(text.starts_with("65535 0  "));
    assert_eq!(text.len(), 19 + 3 * 18);
}
