use pet_cli::Pet;
use pet_cli::add_random_pet_to_db;
use pet_cli::decode_pets;
use pet_cli::encode_pets;
use pet_cli::remove_pet_at_index;

fn sample_pet(id: usize, name: &str, category: &str, age: usize, created_at: &str) -> Pet {
    Pet {
        id,
        name: name.as_bytes().to_vec(),
        category: category.as_bytes().to_vec(),
        age,
        created_at: created_at.as_bytes().to_vec(),
    }
}

#[test]
fn empty_list_encodes_to_empty_array() {
    let pets: Vec<Pet> = Vec::new();
    assert_eq!(encode_pets(&pets), b"[]".to_vec());
    assert_eq!(decode_pets(&b"[]".to_vec()), Some(Vec::new()));
}

#[test]
fn one_record_encodes_to_exact_json() {
    let pets = vec![sample_pet(7, "Rex", "cats", 3, "2020-01-01T00:00:00+00:00")];
    let expected = b"[{\"id\":7,\"name\":\"Rex\",\"category\":\"cats\",\"age\":3,\"created_at\":\"2020-01-01T00:00:00+00:00\"}]".to_vec();
    assert_eq!(encode_pets(&pets), expected);
}

#[test]
fn round_trip_returns_the_same_records() {
    let pets = vec![
        sample_pet(7, "Rex", "cats", 3, "2020-01-01T00:00:00+00:00"),
        sample_pet(0, "", "dogs", 14, "2021-06-30T12:34:56.789+00:00"),
        sample_pet(9999998, "a1B2c3D4e5", "cats", 1, "2022-12-31T23:59:59+00:00"),
    ];
    let bytes = encode_pets(&pets);
    let back = decode_pets(&bytes);
    assert_eq!(back, Some(pets));
}

#[test]
fn round_trip_after_random_adds_and_removes() {
    let mut pets: Vec<Pet> = Vec::new();
    for _ in 0..5 {
        add_random_pet_to_db(&mut pets);
    }
    let mut cursor: usize = 2;
    remove_pet_at_index(&mut pets, &mut cursor);
    let bytes = encode_pets(&pets);
    assert_eq!(decode_pets(&bytes), Some(pets));
}

#[test]
fn round_trip_keeps_punctuated_text_fields() {
    let pets = vec![sample_pet(3, "a b!c#d(e)", "cats", 2, "2020-01-01 00:00:00 UTC")];
    let bytes = encode_pets(&pets);
    assert_eq!(decode_pets(&bytes), Some(pets));
}

#[test]
fn decode_rejects_malformed_input() {
    assert_eq!(decode_pets(&b"".to_vec()), None);
    assert_eq!(decode_pets(&b"[".to_vec()), None);
    assert_eq!(decode_pets(&b"{}".to_vec()), None);
    assert_eq!(decode_pets(&b"[]x".to_vec()), None);
    assert_eq!(decode_pets(&b"[{\"id\":7}]".to_vec()), None);
}

#[test]
fn encoded_output_is_valid_json_for_serde() {
    let pets = vec![
        sample_pet(7, "Rex", "cats", 3, "2020-01-01T00:00:00+00:00"),
        sample_pet(12, "Tom", "dogs", 9, "2021-02-03T04:05:06+00:00"),
    ];
    let bytes = encode_pets(&pets);
    let parsed: serde_json::Value = serde_json::from_slice(&bytes).unwrap();
    let arr = parsed.as_array().unwrap();
    assert_eq!(arr.len(), 2);
    assert_eq!(arr[0]["id"].as_u64(), Some(7));
    assert_eq!(arr[0]["name"].as_str(), Some("Rex"));
    assert_eq!(arr[0]["category"].as_str(), Some("cats"));
    assert_eq!(arr[1]["age"].as_u64(), Some(9));
    assert_eq!(arr[1]["created_at"].as_str(), Some("2021-02-03T04:05:06+00:00"));
}

#[test]
fn decode_reads_what_serde_would_have_written() {
    let text = "[{\"id\":42,\"name\":\"Kia\",\"category\":\"dogs\",\"age\":5,\"created_at\":\"2019-03-04T05:06:07+00:00\"}]";
    let back = decode_pets(&text.as_bytes().to_vec()).unwrap();
    assert_eq!(back.len(), 1);
    assert_eq!(back[0], sample_pet(42, "Kia", "dogs", 5, "2019-03-04T05:06:07+00:00"));
}
