use pet_cli::Action;
use pet_cli::App;
use pet_cli::Event;
use pet_cli::Key;
use pet_cli::Pet;
use pet_cli::Tab;
use pet_cli::dispatch;
use pet_cli::get_chans_list;
use pet_cli::tab_index;

fn sample_pet(id: usize, name: &str, category: &str, age: usize, created_at: &str) -> Pet {
    Pet {
        id,
        name: name.as_bytes().to_vec(),
        category: category.as_bytes().to_vec(),
        age,
        created_at: created_at.as_bytes().to_vec(),
    }
}

#[test]
fn start_state_and_tab_positions() {
    let app = App::new();
    assert_eq!(app.active_tab, Tab::Home);
    assert_eq!(app.pet_cursor, 0);
    assert_eq!(app.chan_cursor, 0);
    assert_eq!(tab_index(Tab::Home), 0);
    assert_eq!(tab_index(Tab::Pets), 1);
    assert_eq!(tab_index(Tab::Channels), 2);
}

#[test]
fn channel_names_are_fixed() {
    let chans = get_chans_list();
    assert_eq!(chans, vec!["strager".to_string(), "het_tanis".to_string()]);
}

#[test]
fn tab_keys_switch_panels() {
    let mut app = App::new();
    let mut pets: Vec<Pet> = Vec::new();
    assert_eq!(dispatch(&mut app, &mut pets, Event::Input(Key::FKey(2))), Action::Continue);
    assert_eq!(app.active_tab, Tab::Pets);
    assert_eq!(dispatch(&mut app, &mut pets, Event::Input(Key::FKey(3))), Action::Continue);
    assert_eq!(app.active_tab, Tab::Channels);
    assert_eq!(dispatch(&mut app, &mut pets, Event::Input(Key::FKey(1))), Action::Continue);
    assert_eq!(app.active_tab, Tab::Home);
}

#[test]
fn quit_key_requests_quit_and_changes_nothing() {
    let mut app = App::new();
    let mut pets = vec![sample_pet(1, "Rex", "cats", 3, "2020-01-01T00:00:00+00:00")];
    assert_eq!(dispatch(&mut app, &mut pets, Event::Input(Key::FKey(4))), Action::Quit);
    assert_eq!(app, App::new());
    assert_eq!(pets.len(), 1);
}

#[test]
fn ticks_and_unknown_keys_are_no_ops() {
    let mut app = App::new();
    let mut pets: Vec<Pet> = Vec::new();
    assert_eq!(dispatch(&mut app, &mut pets, Event::Tick), Action::Continue);
    assert_eq!(dispatch(&mut app, &mut pets, Event::Input(Key::Char('x'))), Action::Continue);
    assert_eq!(dispatch(&mut app, &mut pets, Event::Input(Key::FKey(9))), Action::Continue);
    assert_eq!(dispatch(&mut app, &mut pets, Event::Input(Key::Other)), Action::Continue);
    assert_eq!(app, App::new());
    assert!(pets.is_empty());
}

#[test]
fn add_key_works_only_on_the_pets_panel() {
    let mut app = App::new();
    let mut pets: Vec<Pet> = Vec::new();
    assert_eq!(dispatch(&mut app, &mut pets, Event::Input(Key::Char('a'))), Action::Continue);
    assert!(pets.is_empty());
    dispatch(&mut app, &mut pets, Event::Input(Key::FKey(3)));
    assert_eq!(dispatch(&mut app, &mut pets, Event::Input(Key::Char('a'))), Action::Continue);
    assert!(pets.is_empty());
}

#[test]
fn add_twice_then_delete_scenario() {
    let mut app = App::new();
    let mut pets: Vec<Pet> = Vec::new();
    dispatch(&mut app, &mut pets, Event::Input(Key::FKey(2)));
    assert_eq!(app.active_tab, Tab::Pets);

    assert_eq!(dispatch(&mut app, &mut pets, Event::Input(Key::Char('a'))), Action::Persist);
    assert_eq!(pets.len(), 1);
    assert!(app.pet_cursor < pets.len());

    assert_eq!(dispatch(&mut app, &mut pets, Event::Input(Key::Char('a'))), Action::Persist);
    assert_eq!(pets.len(), 2);
    assert!(app.pet_cursor < pets.len());

    assert_eq!(app.pet_cursor, 0);
    assert_eq!(dispatch(&mut app, &mut pets, Event::Input(Key::Char('d'))), Action::Persist);
    assert_eq!(pets.len(), 1);
    assert_eq!(app.pet_cursor, 0);
}

#[test]
fn delete_on_empty_list_is_a_no_op() {
    let mut app = App::new();
    let mut pets: Vec<Pet> = Vec::new();
    dispatch(&mut app, &mut pets, Event::Input(Key::FKey(2)));
    assert_eq!(dispatch(&mut app, &mut pets, Event::Input(Key::Char('d'))), Action::Continue);
    assert!(pets.is_empty());
    assert_eq!(app.pet_cursor, 0);
}

#[test]
fn delete_reclamps_cursor_to_previous_entry() {
    let mut app = App::new();
    let mut pets = vec![
        sample_pet(1, "Rex", "cats", 3, "2020-01-01T00:00:00+00:00"),
        sample_pet(2, "Tom", "dogs", 5, "2020-01-02T00:00:00+00:00"),
        sample_pet(3, "Ada", "cats", 7, "2020-01-03T00:00:00+00:00"),
    ];
    dispatch(&mut app, &mut pets, Event::Input(Key::FKey(2)));
    dispatch(&mut app, &mut pets, Event::Input(Key::Down));
    dispatch(&mut app, &mut pets, Event::Input(Key::Down));
    assert_eq!(app.pet_cursor, 2);
    assert_eq!(dispatch(&mut app, &mut pets, Event::Input(Key::Char('d'))), Action::Persist);
    assert_eq!(pets.len(), 2);
    assert_eq!(app.pet_cursor, 1);
    assert_eq!(pets[0].id, 1);
    assert_eq!(pets[1].id, 2);
}

#[test]
fn pet_navigation_wraps_against_live_count() {
    let mut app = App::new();
    let mut pets = vec![
        sample_pet(1, "Rex", "cats", 3, "2020-01-01T00:00:00+00:00"),
        sample_pet(2, "Tom", "dogs", 5, "2020-01-02T00:00:00+00:00"),
    ];
    dispatch(&mut app, &mut pets, Event::Input(Key::FKey(2)));
    dispatch(&mut app, &mut pets, Event::Input(Key::Down));
    assert_eq!(app.pet_cursor, 1);
    dispatch(&mut app, &mut pets, Event::Input(Key::Down));
    assert_eq!(app.pet_cursor, 0);
    dispatch(&mut app, &mut pets, Event::Input(Key::Up));
    assert_eq!(app.pet_cursor, 1);
    dispatch(&mut app, &mut pets, Event::Input(Key::Up));
    assert_eq!(app.pet_cursor, 0);
}

#[test]
fn navigation_on_empty_pet_list_holds_still() {
    let mut app = App::new();
    let mut pets: Vec<Pet> = Vec::new();
    dispatch(&mut app, &mut pets, Event::Input(Key::FKey(2)));
    assert_eq!(dispatch(&mut app, &mut pets, Event::Input(Key::Down)), Action::Continue);
    assert_eq!(dispatch(&mut app, &mut pets, Event::Input(Key::Up)), Action::Continue);
    assert_eq!(app.pet_cursor, 0);
}

#[test]
fn channel_navigation_wraps_over_two_entries() {
    let mut app = App::new();
    let mut pets: Vec<Pet> = Vec::new();
    dispatch(&mut app, &mut pets, Event::Input(Key::FKey(3)));
    dispatch(&mut app, &mut pets, Event::Input(Key::Down));
    assert_eq!(app.chan_cursor, 1);
    dispatch(&mut app, &mut pets, Event::Input(Key::Down));
    assert_eq!(app.chan_cursor, 0);
    dispatch(&mut app, &mut pets, Event::Input(Key::Up));
    assert_eq!(app.chan_cursor, 1);
}
