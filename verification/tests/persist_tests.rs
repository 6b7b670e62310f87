use schema_store::{
    add_component, add_component_to_model, add_resource, next_instance_id, reset, save_model,
    Components, Data, DataIO, DataType, DatabaseError, Instances, Resources, ResourceIO,
};

fn populated() -> (Resources, Components, Instances) {
    let (mut resources, mut components, mut instances) = reset();
    add_resource(&mut resources, "/login/", ResourceIO::STATIC, None).unwrap();
    add_resource(&mut resources, "/blog/Besuch-Büro/", ResourceIO::FORM, Some(9)).unwrap();
    add_component(&mut components, "username", DataType::STRING).unwrap();
    add_component(&mut components, "größe", DataType::UINT).unwrap();
    add_component_to_model(
        &mut resources,
        &components,
        &mut instances,
        "/login/",
        "username",
        DataIO::STATIC,
    )
    .unwrap();
    add_component_to_model(
        &mut resources,
        &components,
        &mut instances,
        "/blog/Besuch-Büro/",
        "größe",
        DataIO::DB_BOTH,
    )
    .unwrap();
    (resources, components, instances)
}

#[test]
fn resources_round_trip() {
    let (resources, _components, _instances) = populated();
    let bytes = resources.save();
    let reloaded = Resources::load(&bytes).unwrap();
    assert_eq!(reloaded, resources);
}

#[test]
fn components_round_trip() {
    let (_resources, components, _instances) = populated();
    let bytes = components.save();
    let reloaded = Components::load(&bytes).unwrap();
    assert_eq!(reloaded, components);
}

#[test]
fn instances_round_trip_all_value_shapes() {
    let (resources, components, mut instances) = populated();
    let iid = next_instance_id(&mut instances).unwrap();
    let values = vec![
        Data::BOOL(true),
        Data::CHAR('√'),
        Data::SIGNED_INT_8(-5),
        Data::SIGNED_INT_16(-300),
        Data::SIGNED_INT_32(i32::MIN),
        Data::SIGNED_INT_64(i64::MIN),
        Data::UNSIGNED_INT_8(200),
        Data::UNSIGNED_INT_16(60000),
        Data::UNSIGNED_INT_32(u32::MAX),
        Data::UNSIGNED_INT_64(u64::MAX),
        Data::FLOAT_32(1.5f32.to_bits()),
        Data::FLOAT_64((-0.1f64).to_bits()),
        Data::STRING(String::from("grüße 漢字")),
    ];
    for value in values {
        let field = schema_store::ComponentInstance {
            component_id: 1,
            component_name: String::from("größe"),
            component_data_type: DataType::UINT,
            component_io_type: DataIO::DB_BOTH,
            data: value,
        };
        save_model(&mut instances, &resources, vec![field], "/blog/Besuch-Büro/", iid).unwrap();
        let bytes = instances.save();
        let reloaded = Instances::load(&bytes).unwrap();
        assert_eq!(reloaded, instances);
    }
    let _ = components;
}

#[test]
fn counter_survives_a_reload() {
    let (_resources, _components, mut instances) = reset();
    assert_eq!(next_instance_id(&mut instances).unwrap(), 1);
    assert_eq!(next_instance_id(&mut instances).unwrap(), 2);
    assert_eq!(next_instance_id(&mut instances).unwrap(), 3);

    // simulated restart: persist, drop, reload
    let bytes = instances.save();
    let mut reloaded = Instances::load(&bytes).unwrap();
    assert_eq!(next_instance_id(&mut reloaded).unwrap(), 4);
}

#[test]
fn initial_records_round_trip() {
    let (resources, components, instances) = reset();
    assert_eq!(Resources::load(&resources.save()).unwrap(), resources);
    assert_eq!(Components::load(&components.save()).unwrap(), components);
    assert_eq!(Instances::load(&instances.save()).unwrap(), instances);
}

#[test]
fn malformed_bytes_fail_to_load() {
    let garbage: Vec<u8> = vec![0xde, 0xad, 0xbe];
    assert!(matches!(Resources::load(&garbage), Err(DatabaseError::FailedToLoadFile(_))));
    assert!(matches!(Components::load(&garbage), Err(DatabaseError::FailedToLoadFile(_))));
    assert!(matches!(Instances::load(&garbage), Err(DatabaseError::FailedToLoadFile(_))));
}

#[test]
fn trailing_bytes_fail_to_load() {
    let (_resources, _components, instances) = reset();
    let mut bytes = instances.save();
    bytes.push(0);
    assert!(matches!(Instances::load(&bytes), Err(DatabaseError::FailedToLoadFile(_))));
}

#[test]
fn invalid_utf8_in_a_name_fails_to_load() {
    let (resources, _components, _instances) = populated();
    let mut bytes = resources.save();
    // the first resource name's bytes start right after the two length
    // prefixes; 0xff can never occur in UTF-8
    bytes[16] = 0xff;
    assert!(matches!(Resources::load(&bytes), Err(DatabaseError::FailedToLoadFile(_))));
}

#[test]
fn initial_instance_record_bytes() {
    // an empty entry list is a zero count, and the counter 1 follows,
    // both as 8-byte little-endian words
    let (_resources, _components, instances) = reset();
    let mut expected = vec![0u8; 8];
    expected.extend_from_slice(&[1, 0, 0, 0, 0, 0, 0, 0]);
    assert_eq!(instances.save(), expected);
}
