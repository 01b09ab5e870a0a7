use sim_core::elements::DataError;
use sim_core::json::{JsonError, JsonErrorKind};
use sim_core::{CellField, ChunkMap, Fixed};

#[test]
fn refusals_read_as_messages() {
    assert_eq!(DataError::ReservedId.to_string(), "id 0 is reserved for empty space");
    assert_eq!(DataError::DuplicateId(7).to_string(), "duplicate element id 7");
    assert_eq!(DataError::MissingField { field: "name" }.to_string(), "missing field `name`");
    assert_eq!(DataError::BadField { field: "state" }.to_string(), "invalid field `state`");
    assert_eq!(
        DataError::UnknownElement { field: "products" }.to_string(),
        "field `products` names an undefined element"
    );
    assert_eq!(
        DataError::Json(JsonError { kind: JsonErrorKind::TrailingData, offset: 12 }).to_string(),
        "invalid JSON at byte 12: TrailingData"
    );
    assert_eq!(DataError::BadColor.to_string(), "color must be \"#RRGGBB\"");
    assert_eq!(DataError::Empty.to_string(), "no elements defined");
}

#[test]
fn fixed_point_reads_with_four_places() {
    assert_eq!(Fixed::from_raw(-98304).to_string(), "-1.5000");
    assert_eq!(Fixed::from_raw(65536 * 3 + 1).to_string(), "3.0000");
}

#[test]
fn marking_a_cell_active_stores_its_chunk() {
    let mut map = ChunkMap::new();
    assert_eq!(map.chunk_count(), 0);
    map.mark_active(500, -3);
    assert_eq!(map.chunk_count(), 1);
    map.mark_active(501, -4);
    assert_eq!(map.chunk_count(), 1, "a second mark in the same chunk stores nothing new");
    assert_eq!(map.get(500, -3), Some(sim_core::EMPTY));
}
