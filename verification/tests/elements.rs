//! Element loading: definitions live in data, not code.

use sim_core::elements::DataError;
use sim_core::ElementTable;

const BASE: &str = r##"{"elements":[
        {"id":1,"name":"ash","state":"powder","density":1,"melting_point":9000,
         "boiling_point":9001,"thermal_conductivity":0.1,"color":"#000000",
         "color_variance":0,"flammability":0.0,"hardness":0.0},
        {"id":2,"name":"straw","state":"powder","density":1,"melting_point":9000,
         "boiling_point":9001,"thermal_conductivity":0.1,"color":"#000000",
         "color_variance":0,"flammability":FLAM,"hardness":0.0,
         "burnsInto":"ash"IGNITION}
    ]}"##;

/// Burning needs `burnsInto`, `ignitionPoint` and `flammability` to agree. Two of the
/// three default to "never", so a partial declaration describes something that silently
/// does nothing — which the loader rejects rather than shipping.
#[test]
fn burning_without_a_threshold_or_a_chance_is_rejected() {
    let source = |flammability: &str, ignition: &str| {
        BASE.replace("FLAM", flammability).replace("IGNITION", ignition)
    };

    assert_eq!(
        ElementTable::from_json(&source("0.5", "")).unwrap_err(),
        DataError::BadField { field: "ignitionPoint" },
        "burning with no threshold to cross would never fire"
    );
    assert_eq!(
        ElementTable::from_json(&source("0.0", r#","ignitionPoint":800"#)).unwrap_err(),
        DataError::BadField { field: "flammability" },
        "burning with no chance per tick would never fire either"
    );
    assert!(ElementTable::from_json(&source("0.5", r#","ignitionPoint":800"#)).is_ok());
}

/// Ids are declared in the file, not derived from its order, so the table must be
/// indexed by the declared id.
#[test]
fn ids_come_from_the_file_not_the_order() {
    let table = ElementTable::from_json(
        r##"{"elements":[
            {"id":9,"name":"second","state":"liquid","density":1,"melting_point":0,
             "boiling_point":1,"thermal_conductivity":0.1,"color":"#010203",
             "color_variance":0,"flammability":0.0,"hardness":0.0},
            {"id":4,"name":"first","state":"solid","density":2,"melting_point":0,
             "boiling_point":1,"thermal_conductivity":0.1,"color":"#040506",
             "color_variance":0,"flammability":0.0,"hardness":0.0}
        ]}"##,
    )
    .expect("should load");

    assert_eq!(table.get(9).unwrap().name, "second");
    assert_eq!(table.get(4).unwrap().name, "first");
    assert!(table.get(0).is_none(), "id 0 is empty space");
    assert!(table.get(5).is_none(), "undeclared ids stay empty");
}

#[test]
fn rejects_bad_data() {
    let cases: [(&str, DataError); 4] = [
        (
            r##"{"elements":[{"id":0,"name":"x","state":"solid","density":1,"melting_point":0,"boiling_point":1,"thermal_conductivity":0.1,"color":"#000000","color_variance":0,"flammability":0.0,"hardness":0.0}]}"##,
            DataError::ReservedId,
        ),
        (
            r##"{"elements":[{"id":1,"name":"x","state":"plasma","density":1,"melting_point":0,"boiling_point":1,"thermal_conductivity":0.1,"color":"#000000","color_variance":0,"flammability":0.0,"hardness":0.0}]}"##,
            DataError::BadField { field: "state" },
        ),
        (
            r##"{"elements":[{"id":1,"name":"x","state":"solid","density":1,"melting_point":0,"boiling_point":1,"thermal_conductivity":0.1,"color":"red","color_variance":0,"flammability":0.0,"hardness":0.0}]}"##,
            DataError::BadColor,
        ),
        (
            r##"{"elements":[{"id":1,"name":"x","state":"solid","melting_point":0,"boiling_point":1,"thermal_conductivity":0.1,"color":"#000000","color_variance":0,"flammability":0.0,"hardness":0.0}]}"##,
            DataError::MissingField { field: "density" },
        ),
    ];

    for (source, expected) in cases {
        assert_eq!(ElementTable::from_json(source).unwrap_err(), expected);
    }
}

#[test]
fn rejects_duplicate_ids() {
    let source = r##"{"elements":[
        {"id":1,"name":"a","state":"solid","density":1,"melting_point":0,"boiling_point":1,"thermal_conductivity":0.1,"color":"#000000","color_variance":0,"flammability":0.0,"hardness":0.0},
        {"id":1,"name":"b","state":"solid","density":1,"melting_point":0,"boiling_point":1,"thermal_conductivity":0.1,"color":"#000000","color_variance":0,"flammability":0.0,"hardness":0.0}
    ]}"##;
    assert_eq!(
        ElementTable::from_json(source).unwrap_err(),
        DataError::DuplicateId(1)
    );
}
