use schema_store::{
    add_component, add_component_to_model, add_resource, get_component_data_type, get_model,
    is_static_resource, load_model, load_static_model, next_instance_id, reset, save_model,
    ComponentInstance, Data, DataIO, DataType, DatabaseError, ResourceIO,
};

fn find<'a>(model: &'a Vec<ComponentInstance>, name: &str) -> Option<&'a ComponentInstance> {
    model.iter().find(|f| f.component_name == name)
}

#[test]
fn test_database() {
    let (mut resources, mut components, mut instances) = reset();

    add_resource(&mut resources, "/login/", ResourceIO::STATIC, None).unwrap();

    let blog_post_instance_id = next_instance_id(&mut instances).unwrap();

    add_resource(
        &mut resources,
        "/blog/username/my_first_post/",
        ResourceIO::FORM,
        Some(blog_post_instance_id),
    )
    .unwrap();

    add_component(&mut components, "blogpost", DataType::STRING).unwrap();
    add_component(&mut components, "username", DataType::STRING).unwrap();
    add_component(&mut components, "password", DataType::PASSWORD).unwrap();

    add_component_to_model(
        &mut resources,
        &components,
        &mut instances,
        "/login/",
        "username",
        DataIO::STATIC,
    )
    .unwrap();
    add_component_to_model(
        &mut resources,
        &components,
        &mut instances,
        "/login/",
        "password",
        DataIO::STATIC,
    )
    .unwrap();
    add_component_to_model(
        &mut resources,
        &components,
        &mut instances,
        "/blog/username/my_first_post/",
        "blogpost",
        DataIO::DB_READ_ONLY,
    )
    .unwrap();

    // API functions
    let data_type1 = get_component_data_type(&components, "username").unwrap();
    assert_eq!(DataType::STRING, data_type1);

    let data_type2 = get_component_data_type(&components, "password").unwrap();
    assert_eq!(DataType::PASSWORD, data_type2);

    let model1 = get_model(&resources, &components, &instances, "/login/", 1).unwrap();

    save_model(&mut instances, &resources, model1, "/login/", 1).unwrap();

    let model2 = get_model(&resources, &components, &instances, "/login/", 1).unwrap();

    assert!(find(&model2, "username").is_some());

    // static resource
    {
        let is_static = is_static_resource(&resources, "/login/").unwrap();
        assert!(is_static);

        load_static_model(&resources, &components, "/login/").unwrap();
    }

    // form resource
    {
        let is_static = is_static_resource(&resources, "/blog/username/my_first_post/").unwrap();
        assert!(!is_static);

        load_model(
            &resources,
            &components,
            &instances,
            "/blog/username/my_first_post/",
            blog_post_instance_id,
        )
        .unwrap();
    }
}

#[test]
fn login_then_blog_scenario() {
    let (mut resources, mut components, mut instances) = reset();

    add_resource(&mut resources, "/login/", ResourceIO::STATIC, None).unwrap();
    add_component(&mut components, "username", DataType::STRING).unwrap();
    add_component(&mut components, "password", DataType::PASSWORD).unwrap();
    add_component_to_model(
        &mut resources,
        &components,
        &mut instances,
        "/login/",
        "username",
        DataIO::STATIC,
    )
    .unwrap();
    add_component_to_model(
        &mut resources,
        &components,
        &mut instances,
        "/login/",
        "password",
        DataIO::STATIC,
    )
    .unwrap();

    let login = load_static_model(&resources, &components, "/login/").unwrap();
    assert_eq!(login.len(), 2);
    for name in ["username", "password"] {
        let field = find(&login, name).unwrap();
        assert_eq!(field.component_io_type, DataIO::STATIC);
        assert_eq!(field.data, Data::STRING(String::new()));
    }

    // a freshly reset store hands out 1 as the first instance id
    let post_id = next_instance_id(&mut instances).unwrap();
    assert_eq!(post_id, 1);

    add_resource(&mut resources, "/blog/post/1/", ResourceIO::FORM, Some(post_id)).unwrap();
    add_component(&mut components, "blogpost", DataType::STRING).unwrap();
    add_component_to_model(
        &mut resources,
        &components,
        &mut instances,
        "/blog/post/1/",
        "blogpost",
        DataIO::DB_READ_ONLY,
    )
    .unwrap();

    // the supplied field claims a writable mode, but the binding is
    // read-only, so the save must be a silent no-op
    let loaded = load_model(&resources, &components, &instances, "/blog/post/1/", post_id).unwrap();
    let mut field = loaded.into_iter().find(|f| f.component_name == "blogpost").unwrap();
    field.component_io_type = DataIO::DB_BOTH;
    field.data = Data::STRING(String::from("attempted overwrite"));
    save_model(&mut instances, &resources, vec![field], "/blog/post/1/", post_id).unwrap();

    let after = load_model(&resources, &components, &instances, "/blog/post/1/", post_id).unwrap();
    assert_eq!(find(&after, "blogpost").unwrap().data, Data::STRING(String::new()));
}

#[test]
fn save_respects_access_modes() {
    let (mut resources, mut components, mut instances) = reset();
    add_resource(&mut resources, "/page/", ResourceIO::FORM, None).unwrap();
    add_component(&mut components, "title", DataType::STRING).unwrap();
    add_component(&mut components, "body", DataType::STRING).unwrap();
    add_component(&mut components, "hits", DataType::UINT).unwrap();
    add_component_to_model(
        &mut resources,
        &components,
        &mut instances,
        "/page/",
        "title",
        DataIO::DB_READ_ONLY,
    )
    .unwrap();
    add_component_to_model(
        &mut resources,
        &components,
        &mut instances,
        "/page/",
        "body",
        DataIO::DB_BOTH,
    )
    .unwrap();
    add_component_to_model(
        &mut resources,
        &components,
        &mut instances,
        "/page/",
        "hits",
        DataIO::DB_INPUT,
    )
    .unwrap();

    let iid = next_instance_id(&mut instances).unwrap();
    let mut model = load_model(&resources, &components, &instances, "/page/", iid).unwrap();
    for field in model.iter_mut() {
        field.data = Data::STRING(String::from("changed"));
    }
    save_model(&mut instances, &resources, model, "/page/", iid).unwrap();

    let after = load_model(&resources, &components, &instances, "/page/", iid).unwrap();
    // the read-only binding kept its default, the writable ones took the value
    assert_eq!(find(&after, "title").unwrap().data, Data::STRING(String::new()));
    assert_eq!(find(&after, "body").unwrap().data, Data::STRING(String::from("changed")));
    assert_eq!(find(&after, "hits").unwrap().data, Data::STRING(String::from("changed")));
}

#[test]
fn load_defaults_when_nothing_saved() {
    let (mut resources, mut components, mut instances) = reset();
    add_resource(&mut resources, "/page/", ResourceIO::FORM, None).unwrap();
    add_component(&mut components, "body", DataType::STRING).unwrap();
    add_component_to_model(
        &mut resources,
        &components,
        &mut instances,
        "/page/",
        "body",
        DataIO::DB_BOTH,
    )
    .unwrap();

    // no save_model has ever run for this pair: the default comes back
    let model = load_model(&resources, &components, &instances, "/page/", 41).unwrap();
    assert_eq!(model.len(), 1);
    assert_eq!(model[0].data, Data::STRING(String::new()));
    assert_eq!(model[0].component_name, "body");
    assert_eq!(model[0].component_data_type, DataType::STRING);
}

#[test]
fn static_model_rejects_stored_bindings() {
    let (mut resources, mut components, mut instances) = reset();
    add_resource(&mut resources, "/login/", ResourceIO::STATIC, None).unwrap();
    add_component(&mut components, "username", DataType::STRING).unwrap();
    add_component_to_model(
        &mut resources,
        &components,
        &mut instances,
        "/login/",
        "username",
        DataIO::DB_BOTH,
    )
    .unwrap();

    let r = load_static_model(&resources, &components, "/login/");
    assert!(matches!(r, Err(DatabaseError::MalformedStructure(_))));

    // a FORM resource is no static model either
    add_resource(&mut resources, "/blog/", ResourceIO::FORM, None).unwrap();
    let r = load_static_model(&resources, &components, "/blog/");
    assert!(matches!(r, Err(DatabaseError::MalformedStructure(_))));
}

#[test]
fn duplicate_names_are_rejected() {
    let (mut resources, mut components, _instances) = reset();
    add_resource(&mut resources, "/login/", ResourceIO::STATIC, None).unwrap();
    let r = add_resource(&mut resources, "/login/", ResourceIO::FORM, None);
    assert!(matches!(r, Err(DatabaseError::MalformedStructure(_))));

    let first = add_component(&mut components, "username", DataType::STRING).unwrap();
    let dup = add_component(&mut components, "username", DataType::PASSWORD);
    assert!(matches!(dup, Err(DatabaseError::MalformedStructure(_))));
    // the first registration still stands under its id
    assert_eq!(first, 0);
    assert_eq!(get_component_data_type(&components, "username").unwrap(), DataType::STRING);
}

#[test]
fn fixed_instance_requires_form_kind() {
    let (mut resources, _components, _instances) = reset();
    let r = add_resource(&mut resources, "/login/", ResourceIO::STATIC, Some(7));
    assert!(matches!(r, Err(DatabaseError::MalformedStructure(_))));
    // nothing was registered by the failed call
    let r2 = is_static_resource(&resources, "/login/");
    assert!(matches!(r2, Err(DatabaseError::ResourceNotDefined(_))));
}

#[test]
fn lookups_on_unknown_names_fail() {
    let (mut resources, mut components, mut instances) = reset();
    assert!(matches!(
        is_static_resource(&resources, "/nope/"),
        Err(DatabaseError::ResourceNotDefined(_))
    ));
    assert!(matches!(
        get_component_data_type(&components, "nope"),
        Err(DatabaseError::ComponentNotDefined(_))
    ));
    assert!(matches!(
        load_model(&resources, &components, &instances, "/nope/", 1),
        Err(DatabaseError::ResourceNotDefined(_))
    ));
    assert!(matches!(
        load_static_model(&resources, &components, "/nope/"),
        Err(DatabaseError::ResourceNotDefined(_))
    ));
    assert!(matches!(
        save_model(&mut instances, &resources, Vec::new(), "/nope/", 1),
        Err(DatabaseError::ResourceNotDefined(_))
    ));

    add_resource(&mut resources, "/page/", ResourceIO::FORM, None).unwrap();
    assert!(matches!(
        add_component_to_model(
            &mut resources,
            &components,
            &mut instances,
            "/page/",
            "nope",
            DataIO::DB_BOTH
        ),
        Err(DatabaseError::ComponentNotDefined(_))
    ));
    assert!(matches!(
        add_component_to_model(
            &mut resources,
            &components,
            &mut instances,
            "/nope/",
            "nope",
            DataIO::DB_BOTH
        ),
        Err(DatabaseError::ResourceNotDefined(_))
    ));
}

#[test]
fn saving_a_field_outside_the_model_is_malformed() {
    let (mut resources, mut components, mut instances) = reset();
    add_resource(&mut resources, "/page/", ResourceIO::FORM, None).unwrap();
    add_component(&mut components, "body", DataType::STRING).unwrap();
    // "body" exists but was never bound into /page/'s model
    let stray = ComponentInstance {
        component_id: 0,
        component_name: String::from("body"),
        component_data_type: DataType::STRING,
        component_io_type: DataIO::DB_BOTH,
        data: Data::STRING(String::from("x")),
    };
    let r = save_model(&mut instances, &resources, vec![stray], "/page/", 1);
    assert!(matches!(r, Err(DatabaseError::MalformedStructure(_))));
}

#[test]
fn instance_ids_are_strictly_increasing() {
    let (_resources, _components, mut instances) = reset();
    let a = next_instance_id(&mut instances).unwrap();
    let b = next_instance_id(&mut instances).unwrap();
    let c = next_instance_id(&mut instances).unwrap();
    assert!(a < b && b < c);
    assert_eq!((a, b, c), (1, 2, 3));
}

#[test]
fn exhausted_instance_counter_fails() {
    let (_resources, _components, mut instances) = reset();
    instances.next_instance_id = usize::MAX;
    let r = next_instance_id(&mut instances);
    assert!(matches!(r, Err(DatabaseError::GenericError)));
    assert_eq!(instances.next_instance_id, usize::MAX);
}

#[test]
fn instance_store_get_and_set() {
    let (_resources, _components, mut instances) = reset();
    // absent slots read as the default, never as an error
    assert_eq!(instances.get(5, 9), Data::STRING(String::new()));

    instances.set(5, 9, Data::UNSIGNED_INT_32(17));
    assert_eq!(instances.get(5, 9), Data::UNSIGNED_INT_32(17));

    // overwriting replaces the value; other slots are untouched
    instances.set(5, 9, Data::BOOL(true));
    assert_eq!(instances.get(5, 9), Data::BOOL(true));
    assert_eq!(instances.get(5, 8), Data::STRING(String::new()));
    assert_eq!(instances.get(4, 9), Data::STRING(String::new()));
}
