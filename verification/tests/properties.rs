use serde_compact::compact;
use serde_compact::decl::{Attr, Decl, Field, Variant};
use serde_compact::mapper::NameMapper;

fn named_field(name: &str) -> Field {
    Field { name: Some(name.to_string()), ty: "u64".to_string(), attrs: Vec::new() }
}

fn rename_of_field(f: &Field) -> String {
    match f.attrs.last() {
        Some(Attr::Rename(s)) => s.clone(),
        _ => panic!("field carries no rename directive"),
    }
}

#[test]
fn alias_encoding_concrete_values() {
    assert_eq!(NameMapper::get_name(0), "a");
    assert_eq!(NameMapper::get_name(1), "b");
    assert_eq!(NameMapper::get_name(25), "z");
    assert_eq!(NameMapper::get_name(26), "A");
    assert_eq!(NameMapper::get_name(51), "Z");
    // Index 52, the 53rd name, carries into a second symbol: "ba".
    assert_eq!(NameMapper::get_name(52), "ba");
    assert_eq!(NameMapper::get_name(53), "bb");
    assert_eq!(NameMapper::get_name(103), "bZ");
    assert_eq!(NameMapper::get_name(104), "ca");
    assert_eq!(NameMapper::get_name(2703), "ZZ");
    assert_eq!(NameMapper::get_name(2704), "baa");
}

#[test]
fn alias_length_bands_and_monotonicity() {
    let mut prev_len: usize = 0;
    for i in 0..3000usize {
        let a = NameMapper::get_name(i);
        assert!(a.len() >= prev_len, "alias length shrank at index {}", i);
        prev_len = a.len();
        if i < 52 {
            assert_eq!(a.len(), 1);
        } else if i < 2704 {
            assert_eq!(a.len(), 2);
        } else {
            assert_eq!(a.len(), 3);
        }
    }
}

#[test]
fn mapping_is_a_bijection() {
    let names: Vec<String> = (0..60).map(|i| format!("name_{}", i)).collect();
    let n = names.len();
    let mapper = NameMapper::new(names);
    assert_eq!(mapper.names.len(), n);
    assert_eq!(mapper.aliases.len(), n);
    let mut aliases = mapper.aliases.clone();
    aliases.sort();
    aliases.dedup();
    assert_eq!(aliases.len(), n, "two names shared an alias");
}

#[test]
fn mapping_is_deterministic_under_reordering() {
    // The same fields, declared in two different orders.
    let d1 = Decl::Struct {
        fields: vec![named_field("alpha"), named_field("beta"), named_field("gamma")],
    };
    let d2 = Decl::Struct {
        fields: vec![named_field("gamma"), named_field("alpha"), named_field("beta")],
    };
    let r1 = compact(d1);
    let r2 = compact(d2);
    let aliases_by_name = |d: &Decl| -> Vec<(String, String)> {
        match d {
            Decl::Struct { fields } => {
                let mut pairs: Vec<(String, String)> = fields
                    .iter()
                    .map(|f| (f.name.clone().unwrap(), rename_of_field(f)))
                    .collect();
                pairs.sort();
                pairs
            },
            _ => panic!("enum came back for a struct"),
        }
    };
    assert_eq!(aliases_by_name(&r1), aliases_by_name(&r2));
    // And a second run on an identical declaration reproduces the mapping.
    let d3 = Decl::Struct {
        fields: vec![named_field("alpha"), named_field("beta"), named_field("gamma")],
    };
    let r3 = compact(d3);
    assert_eq!(aliases_by_name(&r3), aliases_by_name(&r1));
}

#[test]
fn unnamed_fields_and_existing_metadata_pass_through() {
    let unnamed = Field { name: None, ty: "String".to_string(), attrs: Vec::new() };
    let decorated = Field {
        name: Some("payload".to_string()),
        ty: "Vec<u8>".to_string(),
        attrs: vec![Attr::Other("skip_serializing_if = ...".to_string())],
    };
    let d = Decl::Struct { fields: vec![unnamed, decorated] };
    let r = compact(d);
    match &r {
        Decl::Struct { fields } => {
            // The unnamed field is bit-for-bit unchanged.
            assert_eq!(fields[0], Field { name: None, ty: "String".to_string(), attrs: Vec::new() });
            // The decorated field keeps its directive, in place, and gains
            // exactly one rename at the end.
            assert_eq!(fields[1].name, Some("payload".to_string()));
            assert_eq!(fields[1].ty, "Vec<u8>".to_string());
            assert_eq!(fields[1].attrs.len(), 2);
            assert_eq!(fields[1].attrs[0], Attr::Other("skip_serializing_if = ...".to_string()));
            assert_eq!(fields[1].attrs[1], Attr::Rename("a".to_string()));
        },
        _ => panic!("enum came back for a struct"),
    }
}

#[test]
fn two_field_struct_scenario() {
    let d = Decl::Struct { fields: vec![named_field("event_id"), named_field("user_id")] };
    let r = compact(d);
    match &r {
        Decl::Struct { fields } => {
            assert_eq!(rename_of_field(&fields[0]), "a");
            assert_eq!(rename_of_field(&fields[1]), "b");
        },
        _ => panic!("enum came back for a struct"),
    }
}

#[test]
fn thirty_field_struct_sorts_as_strings() {
    // "field10" sorts before "field2": string order, not numeric order.
    let d = Decl::Struct {
        fields: (1..=30).map(|i| named_field(&format!("field{}", i))).collect(),
    };
    let r = compact(d);
    match &r {
        Decl::Struct { fields } => {
            let alias_of = |want: &str| -> String {
                rename_of_field(
                    fields.iter().find(|f| f.name.as_deref() == Some(want)).unwrap(),
                )
            };
            assert_eq!(alias_of("field1"), "a");
            assert_eq!(alias_of("field10"), "b");
            assert_eq!(alias_of("field19"), "k");
            assert_eq!(alias_of("field2"), "l");
            assert_eq!(alias_of("field29"), "v");
            assert_eq!(alias_of("field3"), "w");
            assert_eq!(alias_of("field30"), "x");
            assert_eq!(alias_of("field9"), "D");
        },
        _ => panic!("enum came back for a struct"),
    }
}

#[test]
fn enum_shares_one_mapping_across_variants() {
    let mk_variant = |name: &str| Variant {
        name: name.to_string(),
        fields: vec![
            named_field("event_id"),
            named_field("user_id"),
            named_field("ticket_type"),
        ],
        attrs: Vec::new(),
    };
    let d = Decl::Enum { variants: vec![mk_variant("Confirm"), mk_variant("Cancel")] };
    let r = compact(d);
    match &r {
        Decl::Enum { variants } => {
            // Five distinct names in all: Cancel, Confirm, event_id,
            // ticket_type, user_id.
            let tag0 = match variants[0].attrs.last() {
                Some(Attr::Rename(s)) => s.clone(),
                _ => panic!("variant carries no rename directive"),
            };
            let tag1 = match variants[1].attrs.last() {
                Some(Attr::Rename(s)) => s.clone(),
                _ => panic!("variant carries no rename directive"),
            };
            assert_eq!(tag0, "b");
            assert_eq!(tag1, "a");
            // The same field name receives the same alias in both variants.
            for v in variants {
                assert_eq!(rename_of_field(&v.fields[0]), "c");
                assert_eq!(rename_of_field(&v.fields[1]), "e");
                assert_eq!(rename_of_field(&v.fields[2]), "d");
            }
        },
        _ => panic!("struct came back for an enum"),
    }
}

#[test]
fn empty_declaration_is_valid() {
    let d = Decl::Struct { fields: Vec::new() };
    let r = compact(d);
    assert_eq!(r, Decl::Struct { fields: Vec::new() });
    let m = NameMapper::new(Vec::new());
    assert_eq!(m.names.len(), 0);
    assert_eq!(m.aliases.len(), 0);
}
