use tape_machine::{
    cell_decrement, cell_increment, cell_input, cell_next, cell_prev, cell_print, cell_value,
};

#[test]
fn value_reads_both_sides_of_the_origin() {
    let before = vec![10, 20, 30];
    let after = vec![1, 2];
    assert_eq!(cell_value(0, &before, &after), 1);
    assert_eq!(cell_value(1, &before, &after), 2);
    assert_eq!(cell_value(-1, &before, &after), 10);
    assert_eq!(cell_value(-2, &before, &after), 20);
    assert_eq!(cell_value(-3, &before, &after), 30);
}

#[test]
fn increment_adds_one() {
    let mut before = vec![7];
    let mut after = vec![0, 41];
    cell_increment(1, &mut before, &mut after);
    assert_eq!(after, vec![0, 42]);
    assert_eq!(before, vec![7]);
}

#[test]
fn increment_wraps_255_to_0() {
    let mut before = vec![];
    let mut after = vec![255];
    cell_increment(0, &mut before, &mut after);
    assert_eq!(after, vec![0]);
}

#[test]
fn increment_left_of_the_origin_adds_one() {
    let mut before = vec![3, 255];
    let mut after = vec![9];
    cell_increment(-1, &mut before, &mut after);
    assert_eq!(before, vec![4, 255]);
    cell_increment(-2, &mut before, &mut after);
    assert_eq!(before, vec![4, 0]);
    assert_eq!(after, vec![9]);
}

#[test]
fn decrement_takes_one() {
    let mut before = vec![7];
    let mut after = vec![0, 41];
    cell_decrement(1, &mut before, &mut after);
    assert_eq!(after, vec![0, 40]);
    assert_eq!(before, vec![7]);
}

#[test]
fn decrement_wraps_0_to_255() {
    let mut before = vec![];
    let mut after = vec![0];
    cell_decrement(0, &mut before, &mut after);
    assert_eq!(after, vec![255]);
}

#[test]
fn decrement_left_of_the_origin_takes_one() {
    let mut before = vec![0, 5];
    let mut after = vec![9];
    cell_decrement(-1, &mut before, &mut after);
    assert_eq!(before, vec![255, 5]);
    cell_decrement(-2, &mut before, &mut after);
    assert_eq!(before, vec![255, 4]);
    assert_eq!(after, vec![9]);
}

#[test]
fn increment_and_decrement_undo_each_other() {
    for start in [0u8, 1, 127, 128, 254, 255] {
        let mut before = vec![];
        let mut after = vec![start];
        cell_increment(0, &mut before, &mut after);
        cell_decrement(0, &mut before, &mut after);
        assert_eq!(after, vec![start]);
        cell_decrement(0, &mut before, &mut after);
        cell_increment(0, &mut before, &mut after);
        assert_eq!(after, vec![start]);
    }
}

#[test]
fn a_full_turn_of_increments_comes_back() {
    let mut before = vec![];
    let mut after = vec![17];
    for _ in 0..256 {
        cell_increment(0, &mut before, &mut after);
    }
    assert_eq!(after, vec![17]);
}

#[test]
fn next_into_new_territory_adds_a_zero_cell() {
    let mut pointer: i128 = 0;
    let mut after = vec![5];
    cell_next(&mut pointer, &mut after);
    assert_eq!(pointer, 1);
    assert_eq!(after, vec![5, 0]);
    assert_eq!(cell_value(pointer, &vec![], &after), 0);
}

#[test]
fn next_over_known_cells_adds_nothing() {
    let mut pointer: i128 = 0;
    let mut after = vec![5, 6, 7];
    cell_next(&mut pointer, &mut after);
    assert_eq!(pointer, 1);
    assert_eq!(after, vec![5, 6, 7]);
    assert_eq!(cell_value(pointer, &vec![], &after), 6);
}

#[test]
fn next_from_the_left_side_to_the_origin_adds_nothing() {
    let mut pointer: i128 = -1;
    let mut after = vec![5];
    cell_next(&mut pointer, &mut after);
    assert_eq!(pointer, 0);
    assert_eq!(after, vec![5]);
    let mut pointer: i128 = -3;
    cell_next(&mut pointer, &mut after);
    assert_eq!(pointer, -2);
    assert_eq!(after, vec![5]);
}

#[test]
fn prev_into_new_territory_adds_a_zero_cell() {
    let mut pointer: i128 = 0;
    let mut before = vec![];
    cell_prev(&mut pointer, &mut before);
    assert_eq!(pointer, -1);
    assert_eq!(before, vec![0]);
    assert_eq!(cell_value(pointer, &before, &vec![9]), 0);
    cell_prev(&mut pointer, &mut before);
    assert_eq!(pointer, -2);
    assert_eq!(before, vec![0, 0]);
}

#[test]
fn prev_over_known_cells_adds_nothing() {
    let mut pointer: i128 = -1;
    let mut before = vec![4, 8];
    cell_prev(&mut pointer, &mut before);
    assert_eq!(pointer, -2);
    assert_eq!(before, vec![4, 8]);
    let mut pointer: i128 = 2;
    cell_prev(&mut pointer, &mut before);
    assert_eq!(pointer, 1);
    assert_eq!(before, vec![4, 8]);
}

#[test]
fn input_stores_the_byte_under_the_pointer() {
    let mut before = vec![1, 2];
    let mut after = vec![3, 4];
    cell_input(1, &mut before, &mut after, 200);
    assert_eq!(after, vec![3, 200]);
    cell_input(-2, &mut before, &mut after, 100);
    assert_eq!(before, vec![1, 100]);
    assert_eq!(after, vec![3, 200]);
}

#[test]
fn print_appends_the_cell_to_the_output() {
    let before = vec![66];
    let after = vec![65];
    let mut output = vec![1];
    cell_print(0, &before, &after, &mut output);
    cell_print(-1, &before, &after, &mut output);
    assert_eq!(output, vec![1, 65, 66]);
}
