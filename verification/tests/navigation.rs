use pet_cli::next_index;
use pet_cli::prev_index;
use pet_cli::tick_timeout_ms;

#[test]
fn down_steps_and_wraps() {
    assert_eq!(next_index(0, 3), 1);
    assert_eq!(next_index(1, 3), 2);
    assert_eq!(next_index(2, 3), 0);
}

#[test]
fn down_full_cycle_returns_to_start() {
    let len: usize = 5;
    let start: usize = 2;
    let mut sel = start;
    for _ in 0..len {
        sel = next_index(sel, len);
    }
    assert_eq!(sel, start);
}

#[test]
fn up_steps_and_wraps() {
    assert_eq!(prev_index(2, 3), 1);
    assert_eq!(prev_index(1, 3), 0);
    assert_eq!(prev_index(0, 3), 2);
}

#[test]
fn up_from_first_selects_last() {
    assert_eq!(prev_index(0, 7), 6);
    assert_eq!(prev_index(0, 1), 0);
}

#[test]
fn single_entry_list_stays_put() {
    assert_eq!(next_index(0, 1), 0);
    assert_eq!(prev_index(0, 1), 0);
}

#[test]
fn pump_timeout_counts_down_to_the_tick_and_clamps() {
    assert_eq!(tick_timeout_ms(0, 200), 200);
    assert_eq!(tick_timeout_ms(150, 200), 50);
    assert_eq!(tick_timeout_ms(200, 200), 0);
    assert_eq!(tick_timeout_ms(999, 200), 0);
}
