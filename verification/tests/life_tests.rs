use game_of_life::field_presets::{convert, full, r_pentomino, square};
use game_of_life::game_of_life::{BoundariesRule, Field, GameInstance, Options};

const W: usize = 640;
const H: usize = 360;

fn live_count(field: &Field) -> usize {
    field.get_vec().iter().filter(|c| **c).count()
}

#[test]
fn convert_is_row_major() {
    assert_eq!(convert(0, 0), 0);
    assert_eq!(convert(3, 2), 3 + 2 * 640);
    assert_eq!(convert(639, 359), 639 + 359 * 640);
}

#[test]
fn preset_full_is_all_live() {
    let field = full();
    assert_eq!(field.len(), W * H);
    assert!(field.iter().all(|c| *c));
}

#[test]
fn preset_r_pentomino_has_five_cells() {
    let field = r_pentomino();
    assert_eq!(field.len(), W * H);
    assert_eq!(field.iter().filter(|c| **c).count(), 5);
    assert!(field[convert(50, 50)]);
    assert!(field[convert(51, 50)]);
    assert!(field[convert(50, 51)]);
    assert!(field[convert(49, 51)]);
    assert!(field[convert(50, 52)]);
}

#[test]
fn preset_square_has_four_cells() {
    let field = square();
    assert_eq!(field.len(), W * H);
    assert_eq!(field.iter().filter(|c| **c).count(), 4);
    assert!(field[convert(50, 50)]);
    assert!(field[convert(51, 50)]);
    assert!(field[convert(50, 51)]);
    assert!(field[convert(51, 51)]);
}

#[test]
fn field_get_and_set() {
    let mut field = Field::new(vec![false; 12], 4, 3);
    assert_eq!(*field.get_width(), 4);
    assert_eq!(*field.get_height(), 3);
    field.set(2, 1, true);
    assert!(field.get(2, 1));
    assert!(!field.get(1, 2));
    field.set(2, 1, false);
    assert!(!field.get(2, 1));
}

#[test]
fn field_accessors() {
    let mut field = Field::new(vec![true, false], 2, 1);
    assert_eq!(field.get_vec().len(), 2);
    assert!(field.get_vec()[0]);
    field.get_vec_mut()[1] = true;
    assert!(field.get_vec()[1]);
    *field.get_width_mut() = 1;
    *field.get_height_mut() = 2;
    assert_eq!(*field.get_width(), 1);
    assert_eq!(*field.get_height(), 2);
}

#[test]
fn options_default_is_finite() {
    let options = Options::default();
    assert!(matches!(options.boundaries_rule, BoundariesRule::Finite));
}

#[test]
fn game_instance_accessors() {
    let mut game = GameInstance::new(vec![false; 6], (3, 2), Options::default());
    assert_eq!(game.width(), 3);
    assert_eq!(game.height(), 2);
    assert_eq!(game.get_field().get_vec().len(), 6);
    game.get_field_mut().set(1, 1, true);
    assert!(game.get_field().get(1, 1));
}

#[test]
fn dead_grid_stays_dead() {
    let mut game = GameInstance::new(vec![false; 100], (10, 10), Options::default());
    game.new_generation();
    assert_eq!(live_count(game.get_field()), 0);
    game.new_generation();
    assert_eq!(live_count(game.get_field()), 0);
}

#[test]
fn lonely_cell_dies() {
    let mut cells = vec![false; 25];
    cells[2 + 2 * 5] = true;
    let mut game = GameInstance::new(cells, (5, 5), Options::default());
    game.new_generation();
    assert_eq!(live_count(game.get_field()), 0);
}

#[test]
fn birth_needs_exactly_three_neighbors() {
    // A vertical blinker: the center keeps 2 neighbors, the cells beside it
    // gain exactly 3 and are born, the tips die.
    let mut cells = vec![false; 25];
    cells[1 + 0 * 5] = true;
    cells[1 + 1 * 5] = true;
    cells[1 + 2 * 5] = true;
    let mut game = GameInstance::new(cells, (5, 5), Options::default());
    game.new_generation();
    let field = game.get_field();
    assert_eq!(live_count(field), 3);
    assert!(field.get(0, 1));
    assert!(field.get(1, 1));
    assert!(field.get(2, 1));
}

#[test]
fn block_is_still_life() {
    let mut game = GameInstance::new(square(), (W, H), Options::default());
    for _ in 0..3 {
        game.new_generation();
        let field = game.get_field();
        assert_eq!(live_count(field), 4);
        assert!(field.get(50, 50));
        assert!(field.get(51, 50));
        assert!(field.get(50, 51));
        assert!(field.get(51, 51));
    }
}

#[test]
fn r_pentomino_first_step() {
    let mut game = GameInstance::new(r_pentomino(), (W, H), Options::default());
    assert_eq!(live_count(game.get_field()), 5);
    game.new_generation();
    let field = game.get_field();
    // The seed grows: the population changes away from 5.
    assert_eq!(live_count(field), 6);
    let expected = [(49, 50), (50, 50), (51, 50), (49, 51), (49, 52), (50, 52)];
    for x in 40..60 {
        for y in 40..60 {
            let should_live = expected.contains(&(x, y));
            assert_eq!(field.get(x, y), should_live, "cell ({}, {})", x, y);
        }
    }
}

#[test]
fn r_pentomino_is_deterministic() {
    let mut a = GameInstance::new(r_pentomino(), (W, H), Options::default());
    let mut b = GameInstance::new(r_pentomino(), (W, H), Options::default());
    for _ in 0..8 {
        a.new_generation();
        b.new_generation();
    }
    assert_eq!(a.get_field().get_vec(), b.get_field().get_vec());
    assert!(live_count(a.get_field()) > 0);
}

#[test]
fn edge_cells_use_finite_boundary() {
    // A corner cell with two live neighbors survives; its out-of-grid
    // neighbors count as dead.
    let mut cells = vec![false; 9];
    cells[0] = true;
    cells[1] = true;
    cells[3] = true;
    cells[4] = true;
    let mut game = GameInstance::new(cells, (3, 3), Options::default());
    game.new_generation();
    let field = game.get_field();
    assert_eq!(live_count(field), 4);
    assert!(field.get(0, 0));
    assert!(field.get(1, 0));
    assert!(field.get(0, 1));
    assert!(field.get(1, 1));
}
