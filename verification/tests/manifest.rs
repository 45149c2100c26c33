use tycho_token_cache::manifest::{modify_initial_block, Dict, Empty, Num, Value};
use tycho_token_cache::spkg::{spkg_name, PackagePart};

fn text(value: &str) -> Value {
    Value::String(value.to_string())
}

fn dict(entries: Vec<(&str, Value)>) -> Value {
    let mut dict = Dict::new();
    for (key, value) in entries {
        dict.insert(key.to_string(), value);
    }
    Value::Dict(dict)
}

fn create_test_data() -> Value {
    let module = |name: &str, kind: &str, block: u64| {
        dict(vec![
            ("name", text(name)),
            ("kind", text(kind)),
            ("initialBlock", Value::Num(Num::U64(block))),
        ])
    };
    dict(vec![
        ("specVersion", text("v0.1.0")),
        (
            "package",
            dict(vec![("name", text("substreams_example")), ("version", text("v0.1.0"))]),
        ),
        (
            "modules",
            Value::Array(vec![
                module("map_pools_created", "map", 0),
                module("store_pools", "store", 12369621),
                dict(vec![("name", text("map_protocol_changes")), ("kind", text("map"))]),
            ]),
        ),
    ])
}

fn entry<'a>(value: &'a Value, key: &str) -> &'a Value {
    value.find(key).unwrap()
}

#[test]
fn test_modify_initial_block_normal_case() {
    let mut data = create_test_data();

    // Apply modification
    let new_block = 12345;
    modify_initial_block(&mut data, new_block);

    // Verify all modules now have the correct initialBlock
    if let Value::Dict(dict) = &data {
        if let Some(Value::Array(modules)) = dict.get("modules") {
            for module in modules {
                if let Value::Dict(module_dict) = module {
                    if let Some(Value::Num(block)) = module_dict.get("initialBlock") {
                        assert_eq!(block.to_u128().unwrap(), new_block as u128);
                    } else {
                        panic!("initialBlock not found or has wrong type");
                    }
                }
            }
        } else {
            panic!("modules not found or has wrong type");
        }
    }
}

#[test]
fn everything_but_the_initial_blocks_is_kept() {
    let mut data = create_test_data();
    modify_initial_block(&mut data, 5);
    assert_eq!(entry(&data, "specVersion").as_str(), Some("v0.1.0"));
    assert_eq!(spkg_name("dir", &data).unwrap(), spkg_name("dir", &create_test_data()).unwrap());
    let Value::Array(modules) = entry(&data, "modules") else {
        panic!("modules not found");
    };
    assert_eq!(modules.len(), 3);
    assert_eq!(entry(&modules[1], "name").as_str(), Some("store_pools"));
    assert_eq!(entry(&modules[1], "kind").as_str(), Some("store"));
    assert_eq!(entry(&modules[2], "name").as_str(), Some("map_protocol_changes"));
}

#[test]
fn last_edit_counts() {
    let mut data = create_test_data();
    modify_initial_block(&mut data, 1);
    modify_initial_block(&mut data, u64::MAX);
    let Value::Array(modules) = entry(&data, "modules") else {
        panic!("modules not found");
    };
    for module in modules {
        assert!(matches!(entry(module, "initialBlock"), Value::Num(Num::U64(u64::MAX))));
    }
}

#[test]
fn what_is_not_a_list_of_modules_stays_as_it_is() {
    let mut scalar = text("modules");
    modify_initial_block(&mut scalar, 3);
    assert_eq!(scalar.as_str(), Some("modules"));

    let mut odd = dict(vec![("modules", Value::Bool(true)), ("a", Value::Char('b'))]);
    modify_initial_block(&mut odd, 3);
    assert!(matches!(entry(&odd, "modules"), Value::Bool(true)));
    assert!(matches!(entry(&odd, "a"), Value::Char('b')));

    let mut none = dict(vec![("package", Value::Empty(Empty::Unit))]);
    modify_initial_block(&mut none, 3);
    assert!(none.find("modules").is_none());

    let mut mixed = dict(vec![(
        "modules",
        Value::Array(vec![text("not a module"), dict(vec![]), Value::Array(vec![])]),
    )]);
    modify_initial_block(&mut mixed, 3);
    let Value::Array(modules) = entry(&mixed, "modules") else {
        panic!("modules not found");
    };
    assert_eq!(modules[0].as_str(), Some("not a module"));
    assert!(matches!(entry(&modules[1], "initialBlock"), Value::Num(Num::U64(3))));
    assert!(matches!(&modules[2], Value::Array(items) if items.is_empty()));
}

#[test]
fn dictionaries_hold_one_value_per_key() {
    let mut dict = Dict::new();
    assert!(dict.insert("a".to_string(), Value::Bool(true)).is_none());
    assert!(dict.insert("b".to_string(), Value::Bool(true)).is_none());
    assert!(matches!(dict.insert("a".to_string(), Value::Bool(false)), Some(Value::Bool(true))));
    assert!(matches!(dict.get("a"), Some(Value::Bool(false))));
    assert!(matches!(dict.remove("b"), Some(Value::Bool(true))));
    assert!(dict.remove("b").is_none());
    let entries = dict.into_entries();
    assert_eq!(entries.len(), 1);
    assert_eq!(entries[0].0, "a");
}

#[test]
fn only_unsigned_numbers_are_unsigned() {
    assert_eq!(Num::U8(1).to_u128(), Some(1));
    assert_eq!(Num::U16(2).to_u128(), Some(2));
    assert_eq!(Num::U32(3).to_u128(), Some(3));
    assert_eq!(Num::U64(u64::MAX).to_u128(), Some(u64::MAX as u128));
    assert_eq!(Num::U128(u128::MAX).to_u128(), Some(u128::MAX));
    assert_eq!(Num::USize(6).to_u128(), Some(6));
    assert_eq!(Num::I64(7).to_u128(), None);
    assert_eq!(Num::F64Bits(1.5f64.to_bits()).to_u128(), None);
}

#[test]
fn packages_are_called_after_name_and_version() {
    let data = create_test_data();
    assert_eq!(spkg_name("some/dir", &data).unwrap(), "some/dir/substreams-example-v0.1.0.spkg");
    assert_eq!(spkg_name("", &data).unwrap(), "/substreams-example-v0.1.0.spkg");

    let named = |name: &str, version: Value| {
        dict(vec![("package", dict(vec![("name", text(name)), ("version", version)]))])
    };
    assert_eq!(spkg_name("d", &named("__a_b", text("_1"))).unwrap(), "d/--a-b-_1.spkg");
    assert_eq!(spkg_name("d", &named("x", Value::Num(Num::U64(3)))).unwrap(), "d/x-.spkg");
    assert_eq!(spkg_name("d", &named("å_ß", text("2"))).unwrap(), "d/å-ß-2.spkg");
}

#[test]
fn missing_package_parts_are_told() {
    let missing = |data: Value| spkg_name("d", &data).unwrap_err();
    assert_eq!(missing(text("x")), PackagePart::Package);
    assert_eq!(missing(dict(vec![("name", text("x"))])), PackagePart::Package);
    assert_eq!(missing(dict(vec![("package", dict(vec![]))])), PackagePart::Name);
    assert_eq!(missing(dict(vec![("package", text("x"))])), PackagePart::Name);
    assert_eq!(
        missing(dict(vec![("package", dict(vec![("name", Value::Num(Num::U8(1)))]))])),
        PackagePart::NameText
    );
    assert_eq!(
        missing(dict(vec![("package", dict(vec![("name", text("x"))]))])),
        PackagePart::Version
    );
    assert_eq!(PackagePart::Package.message(), "Package not found on YAML");
    assert_eq!(PackagePart::Name.message(), "Name not found on YAML");
    assert_eq!(PackagePart::NameText.message(), "Failed to convert name to string.");
    assert_eq!(PackagePart::Version.message(), "Version not found on YAML");
}
