use jar_analyzer::jar_analyzer::{collect_methods, DecodedClass, JarAnalyzer};
use jar_analyzer::type_resolver::{JavaType, ResolveError};

fn push_u16(out: &mut Vec<u8>, v: u16) {
    out.extend_from_slice(&v.to_be_bytes());
}

fn utf8_entry(out: &mut Vec<u8>, text: &str) {
    out.push(1);
    push_u16(out, text.len() as u16);
    out.extend_from_slice(text.as_bytes());
}

fn class_entry(out: &mut Vec<u8>, name_index: u16) {
    out.push(7);
    push_u16(out, name_index);
}

/// A minimal class file whose constant pool holds, at indices 1..=6:
/// "A", Class(1), "java/lang/Object", Class(3), "foo", "()V", and then one
/// extra UTF8 constant per entry of `extra_utf8`. Each method record is a
/// (access flags, name index, descriptor index) triple with no attributes.
fn class_bytes(extra_utf8: &[&str], methods: &[(u16, u16, u16)]) -> Vec<u8> {
    let mut out = vec![0xCA, 0xFE, 0xBA, 0xBE];
    push_u16(&mut out, 0); // minor version
    push_u16(&mut out, 52); // major version
    push_u16(&mut out, 7 + extra_utf8.len() as u16); // pool count = entries + 1
    utf8_entry(&mut out, "A");
    class_entry(&mut out, 1);
    utf8_entry(&mut out, "java/lang/Object");
    class_entry(&mut out, 3);
    utf8_entry(&mut out, "foo");
    utf8_entry(&mut out, "()V");
    for text in extra_utf8 {
        utf8_entry(&mut out, text);
    }
    push_u16(&mut out, 0x0021); // class access flags
    push_u16(&mut out, 2); // this class
    push_u16(&mut out, 4); // super class
    push_u16(&mut out, 0); // interfaces
    push_u16(&mut out, 0); // fields
    push_u16(&mut out, methods.len() as u16);
    for &(flags, name, desc) in methods {
        push_u16(&mut out, flags);
        push_u16(&mut out, name);
        push_u16(&mut out, desc);
        push_u16(&mut out, 0); // method attributes
    }
    push_u16(&mut out, 0); // class attributes
    out
}

/// Decodes one archive entry's bytes the way the application shell does:
/// the constant pool and the plain method records, or nothing for bytes
/// that are not a well-formed class file.
fn decode(bytes: &[u8]) -> Option<DecodedClass> {
    let (pool, class) = jbcrs::basic::parse(bytes).ok()?;
    let methods = class
        .methods
        .iter()
        .map(|m| (m.name, m.desc, m.access_flags.bits()))
        .collect();
    Some(DecodedClass { pool, methods })
}

#[test]
fn well_formed_class_resolves_its_methods() {
    let bytes = class_bytes(&["bar", "(I)Z"], &[(0x0001, 5, 6), (0x0009, 7, 8)]);
    let analyzer = JarAnalyzer::new(vec![("A.class".to_string(), decode(&bytes))]);
    let classes = analyzer.get_classes();
    assert_eq!(classes.len(), 1);
    assert_eq!(classes[0].full_name, "A.class");
    assert_eq!(classes[0].name, "A.class");
    assert_eq!(classes[0].methods.len(), 2);
    assert_eq!(classes[0].methods[0].name, "foo");
    assert_eq!(classes[0].methods[0].access_flags, 0x0001);
    assert!(classes[0].methods[0].parameters.is_empty());
    assert_eq!(classes[0].methods[0].return_type, JavaType::Void);
    assert_eq!(classes[0].methods[1].name, "bar");
    assert_eq!(classes[0].methods[1].access_flags, 0x0009);
    assert_eq!(classes[0].methods[1].parameters, vec![JavaType::Int]);
    assert_eq!(classes[0].methods[1].return_type, JavaType::Boolean);
}

#[test]
fn invalid_file_is_skipped_without_error() {
    let good = class_bytes(&[], &[(0x0001, 5, 6)]);
    let truncated = vec![0xCA, 0xFE, 0xBA];
    let analyzer = JarAnalyzer::new(vec![
        ("A.class".to_string(), decode(&good)),
        ("broken.class".to_string(), decode(&truncated)),
    ]);
    let classes = analyzer.get_classes();
    assert_eq!(classes.len(), 1);
    assert_eq!(classes[0].full_name, "A.class");
    assert_eq!(classes[0].methods.len(), 1);
}

#[test]
fn non_utf8_descriptor_constant_yields_class_with_no_methods() {
    // Every method's descriptor index points at a Class constant, not UTF8.
    let bytes = class_bytes(&[], &[(0x0001, 5, 2), (0x0001, 5, 4)]);
    let analyzer = JarAnalyzer::new(vec![("A.class".to_string(), decode(&bytes))]);
    let classes = analyzer.get_classes();
    assert_eq!(classes.len(), 1);
    assert_eq!(classes[0].full_name, "A.class");
    assert!(classes[0].methods.is_empty());
}

#[test]
fn out_of_range_descriptor_index_skips_the_method() {
    let bytes = class_bytes(&[], &[(0x0001, 5, 99), (0x0001, 5, 6)]);
    let analyzer = JarAnalyzer::new(vec![("A.class".to_string(), decode(&bytes))]);
    let classes = analyzer.get_classes();
    assert_eq!(classes.len(), 1);
    assert_eq!(classes[0].methods.len(), 1);
    assert_eq!(classes[0].methods[0].name, "foo");
}

#[test]
fn descriptor_index_at_pool_length_skips_the_method() {
    // The pool's encoded length is 7; index 7 has no slot, and the record
    // carrying it is treated as having no descriptor constant.
    let bytes = class_bytes(&[], &[(0x0001, 5, 7), (0x0001, 5, 6)]);
    let analyzer = JarAnalyzer::new(vec![("A.class".to_string(), decode(&bytes))]);
    let classes = analyzer.get_classes();
    assert_eq!(classes.len(), 1);
    assert_eq!(classes[0].methods.len(), 1);
    assert_eq!(classes[0].methods[0].name, "foo");
}

#[test]
fn malformed_descriptor_constant_skips_the_method() {
    let bytes = class_bytes(&["()"], &[(0x0001, 5, 7), (0x0001, 5, 6)]);
    let analyzer = JarAnalyzer::new(vec![("A.class".to_string(), decode(&bytes))]);
    let classes = analyzer.get_classes();
    assert_eq!(classes.len(), 1);
    assert_eq!(classes[0].methods.len(), 1);
    assert_eq!(classes[0].methods[0].return_type, JavaType::Void);
}

#[test]
fn missing_method_name_fails_the_class() {
    // Descriptor resolves, but the name index has no constant: the whole
    // class is dropped from the result.
    let bytes = class_bytes(&[], &[(0x0001, 99, 6)]);
    let analyzer = JarAnalyzer::new(vec![("A.class".to_string(), decode(&bytes))]);
    let classes = analyzer.get_classes();
    assert!(classes.is_empty());
}

#[test]
fn collect_methods_reports_the_missing_name() {
    let bytes = class_bytes(&[], &[(0x0001, 5, 6)]);
    let decoded = decode(&bytes).unwrap();
    let records = vec![(99u16, 6u16, 0u16)];
    assert_eq!(
        collect_methods(&decoded.pool, &records),
        Err(ResolveError::MissingConstant)
    );
    let at_pool_length = vec![(7u16, 6u16, 0u16)];
    assert_eq!(
        collect_methods(&decoded.pool, &at_pool_length),
        Err(ResolveError::MissingConstant)
    );
    let good = vec![(5u16, 6u16, 7u16)];
    let methods = collect_methods(&decoded.pool, &good).unwrap();
    assert_eq!(methods.len(), 1);
    assert_eq!(methods[0].name, "foo");
    assert_eq!(methods[0].access_flags, 7);
    assert_eq!(methods[0].return_type, JavaType::Void);
}

#[test]
fn empty_archive_yields_no_classes() {
    let analyzer = JarAnalyzer::new(Vec::new());
    assert!(analyzer.get_classes().is_empty());
}
