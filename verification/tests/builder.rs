use mustache::{Data, DataMap, MapBuilder, VecBuilder};

#[test]
fn test_empty_builders() {
    assert!(MapBuilder::new().build() == Data::Dict(DataMap::new()));

    assert!(VecBuilder::new().build() == Data::Vec(Vec::new()));
}

#[test]
fn test_map_fn_builder() {
    // Closures cannot be compared, so make sure that the builder threads
    // this one through.

    let mut count = 0usize;
    let data = MapBuilder::new()
        .insert_fn("count", move |s| {
            count += 1usize;
            s + &*count.to_string()
        })
        .build();

    match data {
        Data::Dict(m) => match m.get("count").unwrap() {
            f @ Data::Fun(_) => {
                assert_eq!(f.call("count: ".to_string()), Some("count: 1".to_string()));
                assert_eq!(f.call("count: ".to_string()), Some("count: 2".to_string()));
                assert_eq!(f.call("count: ".to_string()), Some("count: 3".to_string()));
            }
            _ => panic!(),
        },
        _ => panic!(),
    }
}

#[test]
fn test_vec_fn_builder() {
    // Closures cannot be compared, so make sure that the builder threads
    // this one through.

    let mut count = 0usize;
    let data = VecBuilder::new()
        .push_fn(move |s| {
            count += 1usize;
            s + &*count.to_string()
        })
        .build();

    match data {
        Data::Vec(vs) => match vs.as_slice() {
            [f @ Data::Fun(_)] => {
                assert_eq!(f.call("count: ".to_string()), Some("count: 1".to_string()));
                assert_eq!(f.call("count: ".to_string()), Some("count: 2".to_string()));
                assert_eq!(f.call("count: ".to_string()), Some("count: 3".to_string()));
            }
            _ => panic!(),
        },
        _ => panic!(),
    }
}

#[test]
fn test_builders() {
    let mut pride_and_prejudice = DataMap::new();
    pride_and_prejudice.insert(
        "title".to_string(),
        Data::Str("Pride and Prejudice".to_string()),
    );
    pride_and_prejudice.insert("publish_date".to_string(), Data::Str("1813".to_string()));

    let mut m = DataMap::new();
    m.insert("first_name".to_string(), Data::Str("Jane".to_string()));
    m.insert("last_name".to_string(), Data::Str("Austen".to_string()));
    m.insert("age".to_string(), Data::Str("41".to_string()));
    m.insert("died".to_string(), Data::Bool(true));
    m.insert(
        "works".to_string(),
        Data::Vec(vec![
            Data::Str("Sense and Sensibility".to_string()),
            Data::Dict(pride_and_prejudice),
        ]),
    );

    assert!(
        MapBuilder::new()
            .insert_str("first_name", "Jane")
            .insert_str("last_name", "Austen")
            .insert_str("age", mustache::encoder::unsigned_to_string(41))
            .insert_bool("died", true)
            .insert_vec("works", |builder| {
                builder
                    .push_str("Sense and Sensibility")
                    .push_map(|builder| {
                        builder
                            .insert_str("title", "Pride and Prejudice")
                            .insert_str("publish_date", mustache::encoder::unsigned_to_string(1813))
                    })
            })
            .build()
            == Data::Dict(m)
    );
}

#[test]
fn maps_compare_whatever_the_order() {
    let a = MapBuilder::new()
        .insert_str("x", "1")
        .insert_bool("y", true)
        .build();
    let b = MapBuilder::new()
        .insert_bool("y", true)
        .insert_str("x", "1")
        .build();
    let c = MapBuilder::new()
        .insert_bool("y", false)
        .insert_str("x", "1")
        .build();
    assert!(a == b);
    assert!(!(a == c));
    assert!(!(a == MapBuilder::new().insert_str("x", "1").build()));
    assert!(!(MapBuilder::new().insert_str("x", "1").build() == a));
}

#[test]
fn callables_equal_nothing() {
    let f = VecBuilder::new().push_fn(|s| s).build();
    let g = VecBuilder::new().push_fn(|s| s).build();
    assert!(!(f == g));
}

#[test]
fn insert_replaces() {
    let mut m = DataMap::new();
    assert!(m.insert("k".to_string(), Data::Bool(true)).is_none());
    let old = m.insert("k".to_string(), Data::Bool(false));
    assert!(old == Some(Data::Bool(true)));
    assert_eq!(m.len(), 1);
    assert!(*m.get("k").unwrap() == Data::Bool(false));
    assert!(m.get("j").is_none());
    assert!(m.contains_key("k"));
    assert!(!m.contains_key("j"));
}

#[test]
fn descriptions_of_values() {
    assert_eq!(Data::Str("a b".to_string()).describe(), "Str(a b)");
    assert_eq!(Data::Bool(true).describe(), "Bool(true)");
    assert_eq!(Data::Bool(false).describe(), "Bool(false)");
    assert_eq!(Data::Vec(vec![]).describe(), "Vec([])");
    assert_eq!(
        VecBuilder::new().push_str("x").push_bool(false).push_vec(|b| b).build().describe(),
        "Vec([Str(x), Bool(false), Vec([])])"
    );
    assert_eq!(MapBuilder::new().build().describe(), "Map({})");
    assert_eq!(
        MapBuilder::new()
            .insert_str("k", "v")
            .insert_fn("f", |s| s)
            .build()
            .describe(),
        "Map({k: Str(v), f: Fun(...)})"
    );
    assert_eq!(Data::Opt(None).describe(), "Opt(None)");
    assert_eq!(
        Data::Opt(Some(Box::new(Data::Bool(true)))).describe(),
        "Opt(Some(Bool(true)))"
    );
}
