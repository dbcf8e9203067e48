use pet_cli::Pet;
use pet_cli::add_random_pet_to_db;
use pet_cli::make_random_pet;
use pet_cli::remove_pet_at_index;

fn sample_pet(id: usize, name: &str, category: &str, age: usize, created_at: &str) -> Pet {
    Pet {
        id,
        name: name.as_bytes().to_vec(),
        category: category.as_bytes().to_vec(),
        age,
        created_at: created_at.as_bytes().to_vec(),
    }
}

#[test]
fn random_pet_fields_are_in_range() {
    let p = make_random_pet();
    assert!(p.id < 9999999);
    assert_eq!(p.name.len(), 10);
    assert!(p.name.iter().all(|b| b.is_ascii_alphanumeric()));
    assert!(p.category == b"cats".to_vec() || p.category == b"dogs".to_vec());
    assert!(1 <= p.age && p.age < 15);
    assert!(!p.created_at.is_empty());
}

#[test]
fn append_adds_exactly_one_fresh_record() {
    let mut pets = vec![sample_pet(1, "Rex", "dogs", 4, "2020-01-01T00:00:00+00:00")];
    add_random_pet_to_db(&mut pets);
    assert_eq!(pets.len(), 2);
    assert_eq!(pets[0], sample_pet(1, "Rex", "dogs", 4, "2020-01-01T00:00:00+00:00"));
    let added = &pets[1];
    assert!(added.id < 9999999);
    assert_eq!(added.name.len(), 10);
    assert!(added.category == b"cats".to_vec() || added.category == b"dogs".to_vec());
    assert!(1 <= added.age && added.age < 15);
}

#[test]
fn remove_at_cursor_keeps_order_and_reclamps() {
    let mut pets = vec![
        sample_pet(1, "Rex", "dogs", 4, "2020-01-01T00:00:00+00:00"),
        sample_pet(2, "Tom", "cats", 2, "2020-01-02T00:00:00+00:00"),
        sample_pet(3, "Ada", "cats", 7, "2020-01-03T00:00:00+00:00"),
    ];
    let mut cursor: usize = 1;
    let removed = remove_pet_at_index(&mut pets, &mut cursor);
    assert_eq!(removed, Some(sample_pet(2, "Tom", "cats", 2, "2020-01-02T00:00:00+00:00")));
    assert_eq!(pets.len(), 2);
    assert_eq!(pets[0].id, 1);
    assert_eq!(pets[1].id, 3);
    assert_eq!(cursor, 0);
}

#[test]
fn remove_at_first_keeps_cursor_at_zero() {
    let mut pets = vec![
        sample_pet(1, "Rex", "dogs", 4, "2020-01-01T00:00:00+00:00"),
        sample_pet(2, "Tom", "cats", 2, "2020-01-02T00:00:00+00:00"),
    ];
    let mut cursor: usize = 0;
    let removed = remove_pet_at_index(&mut pets, &mut cursor);
    assert!(removed.is_some());
    assert_eq!(pets.len(), 1);
    assert_eq!(pets[0].id, 2);
    assert_eq!(cursor, 0);
}

#[test]
fn remove_past_end_is_a_no_op() {
    let mut pets = vec![sample_pet(1, "Rex", "dogs", 4, "2020-01-01T00:00:00+00:00")];
    let mut cursor: usize = 5;
    let removed = remove_pet_at_index(&mut pets, &mut cursor);
    assert!(removed.is_none());
    assert_eq!(pets.len(), 1);
    assert_eq!(cursor, 5);
}
