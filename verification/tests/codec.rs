use prefab::{
    DecodeError, Field, FieldData, Prefab, PrefabEntity, Registration, TypeRegistry, Value,
};

fn b(s: &str) -> Vec<u8> {
    s.as_bytes().to_vec()
}

fn registration(name: &str) -> Registration {
    Registration {
        name: b(name),
        reflect_component: true,
        custom_insert: false,
        map_entities: false,
    }
}

fn registry_with(names: &[&str]) -> TypeRegistry {
    let mut registry = TypeRegistry::new();
    for n in names {
        registry.register(registration(n));
    }
    registry
}

fn position(x: i64, y: i64) -> Value {
    Value {
        name: b("Position"),
        fields: vec![
            Field { path: b("x"), data: FieldData::Int(x) },
            Field { path: b("y"), data: FieldData::Int(y) },
        ],
    }
}

#[test]
fn encode_exact_bytes() {
    let prefab = Prefab {
        entities: vec![PrefabEntity {
            entity: 1,
            components: vec![Value {
                name: b("A"),
                fields: vec![Field { path: b("x"), data: FieldData::Int(5) }],
            }],
        }],
    };
    let encoded = prefab.encode();
    let expected = "{0000000001:{\"A\":(\"x\":+0000000000000000005,),},}";
    assert_eq!(encoded, expected.as_bytes().to_vec());
}

#[test]
fn round_trip_preserves_values() {
    let prefab = Prefab {
        entities: vec![
            PrefabEntity { entity: 1, components: vec![position(-7, 42)] },
            PrefabEntity {
                entity: 2,
                components: vec![
                    position(0, 0),
                    Value {
                        name: b("Link"),
                        fields: vec![Field { path: b("target"), data: FieldData::EntityRef(1) }],
                    },
                ],
            },
        ],
    };
    let registry = registry_with(&["Position", "Link"]);
    let encoded = prefab.encode();
    let decoded = Prefab::decode(&encoded, &registry).unwrap();
    assert_eq!(decoded.entities.len(), 2);
    assert_eq!(decoded.entities[0].entity, 1);
    assert_eq!(decoded.entities[0].components[0].name, b("Position"));
    assert_eq!(decoded.entities[0].components[0].fields[0].data, FieldData::Int(-7));
    assert_eq!(decoded.entities[0].components[0].fields[1].data, FieldData::Int(42));
    assert_eq!(decoded.entities[1].entity, 2);
    assert_eq!(decoded.entities[1].components.len(), 2);
    assert_eq!(decoded.entities[1].components[1].fields[0].path, b("target"));
    assert_eq!(
        decoded.entities[1].components[1].fields[0].data,
        FieldData::EntityRef(1)
    );
}

#[test]
fn round_trip_extreme_integers() {
    let prefab = Prefab {
        entities: vec![PrefabEntity {
            entity: u32::MAX,
            components: vec![Value {
                name: b("Position"),
                fields: vec![
                    Field { path: b("x"), data: FieldData::Int(i64::MIN) },
                    Field { path: b("y"), data: FieldData::Int(i64::MAX) },
                    Field { path: b("r"), data: FieldData::EntityRef(u64::MAX) },
                ],
            }],
        }],
    };
    let registry = registry_with(&["Position"]);
    let decoded = Prefab::decode(&prefab.encode(), &registry).unwrap();
    assert_eq!(decoded.entities[0].entity, u32::MAX);
    assert_eq!(decoded.entities[0].components[0].fields[0].data, FieldData::Int(i64::MIN));
    assert_eq!(decoded.entities[0].components[0].fields[1].data, FieldData::Int(i64::MAX));
    assert_eq!(
        decoded.entities[0].components[0].fields[2].data,
        FieldData::EntityRef(u64::MAX)
    );
}

#[test]
fn round_trip_empty_prefab() {
    let prefab = Prefab { entities: Vec::new() };
    let registry = registry_with(&[]);
    let encoded = prefab.encode();
    assert_eq!(encoded, b"{}".to_vec());
    let decoded = Prefab::decode(&encoded, &registry).unwrap();
    assert_eq!(decoded.entities.len(), 0);
}

#[test]
fn decode_unknown_type() {
    let prefab = Prefab {
        entities: vec![PrefabEntity {
            entity: 3,
            components: vec![Value { name: b("Mystery"), fields: Vec::new() }],
        }],
    };
    let registry = registry_with(&["Position"]);
    let r = Prefab::decode(&prefab.encode(), &registry);
    match r {
        Err(DecodeError::UnknownType { name }) => assert_eq!(name, b("Mystery")),
        _ => panic!("expected an unknown type error"),
    }
}

#[test]
fn decode_malformed_bytes() {
    let registry = registry_with(&["Position"]);
    assert!(matches!(
        Prefab::decode(&b"{".to_vec(), &registry),
        Err(DecodeError::Malformed)
    ));
    assert!(matches!(
        Prefab::decode(&b"".to_vec(), &registry),
        Err(DecodeError::Malformed)
    ));
    assert!(matches!(
        Prefab::decode(&b"nonsense".to_vec(), &registry),
        Err(DecodeError::Malformed)
    ));
    // A truncated entry: digits without the rest of the entry.
    assert!(matches!(
        Prefab::decode(&b"{0000000001}".to_vec(), &registry),
        Err(DecodeError::Malformed)
    ));
    // Trailing garbage after the closing brace.
    assert!(matches!(
        Prefab::decode(&b"{}x".to_vec(), &registry),
        Err(DecodeError::Malformed)
    ));
}

#[test]
fn decode_handwritten_text() {
    let registry = registry_with(&["A"]);
    let text = "{0000000002:{\"A\":(\"n\":-0000000000000000001,\"e\":@00000000000000000009,),},}";
    let decoded = Prefab::decode(&text.as_bytes().to_vec(), &registry).unwrap();
    assert_eq!(decoded.entities.len(), 1);
    assert_eq!(decoded.entities[0].entity, 2);
    assert_eq!(decoded.entities[0].components[0].fields[0].data, FieldData::Int(-1));
    assert_eq!(decoded.entities[0].components[0].fields[1].data, FieldData::EntityRef(9));
}
