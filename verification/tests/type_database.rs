use bindcore::types::{
    create_type_database, get_pod_safe_types, get_prelude, to_cpp_name, RenderError,
    TypeExpression, TypeName,
};

#[test]
fn test_ints() {
    assert_eq!(TypeName::new("i8").to_cpp_name(), "int8_t");
    assert_eq!(TypeName::new("u64").to_cpp_name(), "uint64_t");
}

#[test]
fn normalize_dead_string() {
    assert_eq!(TypeName::new("std_string"), TypeName::new_unchecked("CxxString"));
    assert_eq!(TypeName::new_unchecked("CxxString").to_cpp_name(), "std::string");
}

#[test]
fn normalize_dead_unique_ptr() {
    assert_eq!(TypeName::new("std_unique_ptr"), TypeName::new_unchecked("UniquePtr"));
    assert_eq!(TypeName::new_unchecked("UniquePtr").to_cpp_name(), "std::unique_ptr");
}

#[test]
fn normalize_is_idempotent_on_samples() {
    for raw in ["std_string", "std_unique_ptr", "CxxString", "u32", "SomeUserType"] {
        let once = TypeName::new(raw);
        let twice = TypeName::new(once.as_str());
        assert_eq!(once, twice);
    }
}

#[test]
fn unknown_names_pass_through() {
    let tn = TypeName::new("MyStruct");
    assert_eq!(tn.as_str(), "MyStruct");
    assert_eq!(tn.to_cpp_name(), "MyStruct");
}

#[test]
fn new_unchecked_skips_normalization() {
    assert_eq!(TypeName::new_unchecked("std_string").as_str(), "std_string");
}

#[test]
fn database_shape() {
    let db = create_type_database();
    assert_eq!(db.entries.len(), 10);
    assert_eq!(db.dead_names.len(), 2);
}

#[test]
fn pod_safe_table() {
    let table = get_pod_safe_types();
    assert_eq!(table.len(), 10);
    assert_eq!(table[0], (TypeName::new_unchecked("UniquePtr"), true));
    assert_eq!(table[1], (TypeName::new_unchecked("CxxString"), false));
    for (tn, safe) in table.iter().skip(2) {
        assert!(safe, "integer type {} must be by-value safe", tn.as_str());
    }
}

#[test]
fn prelude_text_exact() {
    let expected = "/**\n* <div rustbindgen=\"true\" replaces=\"std::unique_ptr\">\n*/\n\
                    template<typename T> class UniquePtr {\n    T* ptr;\n};\n\n\
                    \n\
                    /**\n* <div rustbindgen=\"true\" replaces=\"std::string\">\n*/\n\
                    class CxxString {\n    char* ptr;\n};\n\n";
    assert_eq!(get_prelude(), expected);
}

#[test]
fn reference_rendering() {
    let mutable_ref = TypeExpression::Reference {
        mutable: true,
        referent: Box::new(TypeExpression::Path { segments: vec!["int32_t".to_string()] }),
    };
    assert_eq!(to_cpp_name(&mutable_ref).unwrap(), "int32_t&");
    let const_ref = TypeExpression::Reference {
        mutable: false,
        referent: Box::new(TypeExpression::Path { segments: vec!["int32_t".to_string()] }),
    };
    assert_eq!(to_cpp_name(&const_ref).unwrap(), "const int32_t&");
}

#[test]
fn path_rendering_normalizes_last_segment() {
    let path = TypeExpression::Path {
        segments: vec!["ignored".to_string(), "std_string".to_string()],
    };
    assert_eq!(to_cpp_name(&path).unwrap(), "std::string");
}

#[test]
fn unsupported_shape_is_an_error() {
    assert_eq!(
        to_cpp_name(&TypeExpression::Unsupported),
        Err(RenderError::UnsupportedTypeExpression)
    );
    let ref_to_ref = TypeExpression::Reference {
        mutable: false,
        referent: Box::new(TypeExpression::Unsupported),
    };
    assert_eq!(to_cpp_name(&ref_to_ref), Err(RenderError::UnsupportedTypeExpression));
}

#[test]
fn from_type_path_takes_last_segment() {
    let tn = TypeName::from_type_path(&vec!["outer".to_string(), "std_unique_ptr".to_string()]);
    assert_eq!(tn, TypeName::new_unchecked("UniquePtr"));
}

#[test]
fn from_ident_normalizes() {
    assert_eq!(TypeName::from_ident("std_string"), TypeName::new_unchecked("CxxString"));
}

#[test]
fn prefixes_splits_off_suffix() {
    let tn = TypeName::new_unchecked("Foo");
    assert_eq!(tn.prefixes("Foo_bar"), Some("bar"));
    assert_eq!(tn.prefixes("Bar_baz"), None);
}
