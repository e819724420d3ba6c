use serde_compact::compact;
use serde_compact::decl::{Attr, Decl, Field, Variant};

fn named_field(name: &str) -> Field {
    Field { name: Some(name.to_string()), ty: "i32".to_string(), attrs: Vec::new() }
}

fn variant(name: &str, field_names: &[&str]) -> Variant {
    Variant {
        name: name.to_string(),
        fields: field_names.iter().map(|n| named_field(n)).collect(),
        attrs: Vec::new(),
    }
}

fn rename_of_field(f: &Field) -> String {
    match f.attrs.last() {
        Some(Attr::Rename(s)) => s.clone(),
        _ => panic!("field carries no rename directive"),
    }
}

fn rename_of_variant(v: &Variant) -> String {
    match v.attrs.last() {
        Some(Attr::Rename(s)) => s.clone(),
        _ => panic!("variant carries no rename directive"),
    }
}

#[test]
fn test() {
    // An enum with two variants, distinct field names across them.
    let message = Decl::Enum {
        variants: vec![
            variant("Request", &["id", "method", "parameter"]),
            variant("Response", &["id", "result"]),
        ],
    };
    // Sorted: Request, Response, id, method, parameter, result.
    let rewritten = compact(message);
    match &rewritten {
        Decl::Enum { variants } => {
            assert_eq!(rename_of_variant(&variants[0]), "a");
            assert_eq!(rename_of_variant(&variants[1]), "b");
            assert_eq!(rename_of_field(&variants[0].fields[0]), "c");
            assert_eq!(rename_of_field(&variants[0].fields[1]), "d");
            assert_eq!(rename_of_field(&variants[0].fields[2]), "e");
            assert_eq!(rename_of_field(&variants[1].fields[0]), "c");
            assert_eq!(rename_of_field(&variants[1].fields[1]), "f");
        },
        _ => panic!("struct came back for an enum"),
    }

    // A 30-field struct: every name receives a distinct one-symbol alias.
    let fields: Vec<Field> = (1..=30).map(|i| named_field(&format!("field{}", i))).collect();
    let big = Decl::Struct { fields };
    let rewritten = compact(big);
    match &rewritten {
        Decl::Struct { fields } => {
            assert_eq!(fields.len(), 30);
            let mut aliases: Vec<String> = fields.iter().map(rename_of_field).collect();
            for a in &aliases {
                assert_eq!(a.len(), 1);
            }
            aliases.sort();
            aliases.dedup();
            assert_eq!(aliases.len(), 30);
        },
        _ => panic!("enum came back for a struct"),
    }

    // The callback-query enum: both variants share their field names, and the
    // shared names collapse to one alias each. Sorted names are
    // CancelEventReservation, ConfirmEventReservation, event_id, ticket_type,
    // user_id, so the confirm variant serializes its payload under "b" with
    // keys "c", "e", "d" for event_id, user_id, ticket_type.
    let query = Decl::Enum {
        variants: vec![
            variant("ConfirmEventReservation", &["event_id", "user_id", "ticket_type"]),
            variant("CancelEventReservation", &["event_id", "user_id", "ticket_type"]),
        ],
    };
    let rewritten = compact(query);
    match &rewritten {
        Decl::Enum { variants } => {
            assert_eq!(rename_of_variant(&variants[0]), "b");
            assert_eq!(rename_of_variant(&variants[1]), "a");
            assert_eq!(rename_of_field(&variants[0].fields[0]), "c");
            assert_eq!(rename_of_field(&variants[0].fields[1]), "e");
            assert_eq!(rename_of_field(&variants[0].fields[2]), "d");
        },
        _ => panic!("struct came back for an enum"),
    }
}
