use bangbang::command::Location;
use bangbang::object_id::{object_id_text, parse_object_id};
use bangbang::store::{rocket, ObjectStore, StoreError};

const TEST_ID: &str = "f1cc50ec66f14e9e87e2ed0ae8607b9f";

fn at(x: f32, y: f32, z: f32) -> Location {
    Location { x: x.to_bits(), y: y.to_bits(), z: z.to_bits() }
}

fn seeded() -> ObjectStore {
    let mut r = rocket();
    r.objects.create(TEST_ID, at(0.0, 0.0, 0.0)).unwrap();
    r.objects
}

#[test]
fn location_shard_create() {
    let mut r = rocket();
    let reply = r.objects.create(TEST_ID, at(0.0, 0.0, 0.0)).unwrap();
    assert_eq!(reply.object_id, TEST_ID.to_string());
    assert_eq!(reply.location, at(0.0, 0.0, 0.0));
    let key = parse_object_id(TEST_ID).unwrap();
    assert_eq!(r.objects.get(key), Some(at(0.0, 0.0, 0.0)));
}

#[test]
fn locationshard_create() {
    let mut r = rocket();
    let reply = r.objects.create(TEST_ID, at(0.0, 0.0, 0.0)).unwrap();
    assert_eq!(reply.object_id, TEST_ID.to_string());
    assert_eq!(reply.location, at(0.0, 0.0, 0.0));
}

#[test]
fn location_shard_read() {
    let store = seeded();
    let reply = store.read(TEST_ID).unwrap();
    assert_eq!(reply.object_id, TEST_ID.to_string());
    assert_eq!(reply.location, at(0.0, 0.0, 0.0));
}

#[test]
fn locationshard_read() {
    let store = seeded();
    let reply = store.read(TEST_ID).unwrap();
    assert_eq!(reply.object_id, TEST_ID.to_string());
    assert_eq!(reply.location, at(0.0, 0.0, 0.0));
}

#[test]
fn read_bad_id() {
    let r = rocket();
    let err = r.objects.read("blah").unwrap_err();
    assert_eq!(err, StoreError::BadId);
    assert_eq!(err.status_code(), 500);
}

#[test]
fn location_shard_update() {
    let mut store = seeded();
    let reply = store.update(TEST_ID, at(1.0, 1.0, 1.0)).unwrap();
    assert_eq!(reply.object_id, TEST_ID.to_string());
    assert_eq!(reply.location, at(1.0, 1.0, 1.0));
    assert_eq!(store.read(TEST_ID).unwrap().location, at(1.0, 1.0, 1.0));
}

#[test]
fn locationshard_update() {
    let mut store = seeded();
    let reply = store.update(TEST_ID, at(1.0, 1.0, 1.0)).unwrap();
    assert_eq!(reply.object_id, TEST_ID.to_string());
    assert_eq!(reply.location, at(1.0, 1.0, 1.0));
}

#[test]
fn location_shard_delete() {
    let mut store = seeded();
    let id = store.delete(TEST_ID).unwrap();
    assert_eq!(id, TEST_ID.to_string());
    assert_eq!(store.read(TEST_ID).unwrap_err(), StoreError::NotFound);
}

#[test]
fn locationshard_delete() {
    let mut store = seeded();
    let id = store.delete(TEST_ID).unwrap();
    assert_eq!(id, TEST_ID.to_string());
}

#[test]
fn delete_bad_id() {
    let mut r = rocket();
    let err = r.objects.delete("blah").unwrap_err();
    assert_eq!(err.status_code(), 500);
}

#[test]
fn missing_object_is_not_found() {
    let mut store = rocket().objects;
    assert_eq!(store.read(TEST_ID).unwrap_err(), StoreError::NotFound);
    assert_eq!(store.update(TEST_ID, at(1.0, 2.0, 3.0)).unwrap_err(), StoreError::NotFound);
    assert_eq!(store.delete(TEST_ID).unwrap_err(), StoreError::NotFound);
    assert_eq!(StoreError::NotFound.status_code(), 404);
}

#[test]
fn hyphenated_id_answers_in_simple_form() {
    let mut store = rocket().objects;
    let reply = store.create("f1cc50ec-66f1-4e9e-87e2-ed0ae8607b9f", at(2.0, 0.0, 0.0)).unwrap();
    assert_eq!(reply.object_id, TEST_ID.to_string());
    assert_eq!(store.read(TEST_ID).unwrap().location, at(2.0, 0.0, 0.0));
}

#[test]
fn id_text_round_trip() {
    assert_eq!(parse_object_id(TEST_ID), Some(0xf1cc50ec66f14e9e87e2ed0ae8607b9f));
    assert_eq!(object_id_text(0xf1cc50ec66f14e9e87e2ed0ae8607b9f), TEST_ID.to_string());
    assert_eq!(object_id_text(1), "00000000000000000000000000000001".to_string());
    assert_eq!(parse_object_id("blah"), None);
}

#[test]
fn create_replaces_location() {
    let mut store = seeded();
    store.create(TEST_ID, at(5.0, 5.0, 5.0)).unwrap();
    assert_eq!(store.read(TEST_ID).unwrap().location, at(5.0, 5.0, 5.0));
}

#[test]
fn logger_line_and_name() {
    let r = rocket();
    assert_eq!(r.logger.name(), "Request Logger".to_string());
    assert_eq!(r.logger.line("2024-01-01 00:00:00 UTC", "GET /x"), "2024-01-01 00:00:00 UTC: GET /x".to_string());
}
