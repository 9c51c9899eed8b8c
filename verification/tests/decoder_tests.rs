use jvm_class_loader::attribute::attribute_info_Data;
use jvm_class_loader::attribute::element_value_data;
use jvm_class_loader::attribute::stack_map_frame_data;
use jvm_class_loader::attribute::verification_type_info_data;
use jvm_class_loader::class::ClassRef;
use jvm_class_loader::class_file::write_class_file;
use jvm_class_loader::class_file::ClassFile;
use jvm_class_loader::class_file::ClassLoadingError;
use jvm_class_loader::constant_pool::cp_info;
use jvm_class_loader::field::parse_field_descriptor;
use jvm_class_loader::method::ReturnDescriptor;
use jvm_class_loader::field::FieldDescriptor;

fn push_u16(out: &mut Vec<u8>, v: u16) {
    out.push((v >> 8) as u8);
    out.push(v as u8);
}

fn push_u32(out: &mut Vec<u8>, v: u32) {
    out.push((v >> 24) as u8);
    out.push((v >> 16) as u8);
    out.push((v >> 8) as u8);
    out.push(v as u8);
}

fn utf8_entry(out: &mut Vec<u8>, s: &[u8]) {
    out.push(1);
    push_u16(out, s.len() as u16);
    out.extend_from_slice(s);
}

fn class_entry(out: &mut Vec<u8>, name_index: u16) {
    out.push(7);
    push_u16(out, name_index);
}

/// A minimal class: magic, version 52, a pool holding the class's own name
/// (and its super's, where given), public+super flags, and empty tables.
fn class_bytes(name: &str, super_name: Option<&str>, flags: u16) -> Vec<u8> {
    let mut b = Vec::new();
    push_u32(&mut b, 0xCAFEBABE);
    push_u16(&mut b, 0);
    push_u16(&mut b, 52);
    match super_name {
        None => {
            push_u16(&mut b, 3);
            utf8_entry(&mut b, name.as_bytes());
            class_entry(&mut b, 1);
        }
        Some(sn) => {
            push_u16(&mut b, 5);
            utf8_entry(&mut b, name.as_bytes());
            class_entry(&mut b, 1);
            utf8_entry(&mut b, sn.as_bytes());
            class_entry(&mut b, 3);
        }
    }
    push_u16(&mut b, flags);
    push_u16(&mut b, 2);
    push_u16(&mut b, if super_name.is_some() { 4 } else { 0 });
    push_u16(&mut b, 0);
    push_u16(&mut b, 0);
    push_u16(&mut b, 0);
    push_u16(&mut b, 0);
    b
}

#[test]
fn decode_minimal_class() {
    let b = class_bytes("Foo", Some("java/lang/Object"), 0x0021);
    let cf = ClassFile::new(&b).unwrap();
    assert_eq!(cf.magic, 0xCAFEBABE);
    assert_eq!(cf.minor_version, 0);
    assert_eq!(cf.major_version, 52);
    assert_eq!(cf.this_class, "Foo");
    assert_eq!(cf.access_flags, 0x0021);
    match cf.get_super_class() {
        Some(ClassRef::Symbolic(n)) => assert_eq!(n, "java/lang/Object"),
        other => panic!("super not symbolic: {:?}", other),
    }
    assert!(cf.has_super_class());
    assert_eq!(cf.fields.len(), 0);
    assert_eq!(cf.methods.len(), 0);
}

#[test]
fn round_trip_minimal_class() {
    let b = class_bytes("Foo", Some("java/lang/Object"), 0x0021);
    let cf = ClassFile::new(&b).unwrap();
    let mut out = Vec::new();
    write_class_file(&mut out, &cf);
    assert_eq!(out, b);
}

/// A class that touches the double-slot pool rule, signed and raw-bit
/// constants, a field with a constant value, a method with a code block and
/// line numbers, and an opaque unknown attribute.
fn rich_class_bytes() -> Vec<u8> {
    let mut b = Vec::new();
    push_u32(&mut b, 0xCAFEBABE);
    push_u16(&mut b, 3);
    push_u16(&mut b, 50);
    // pool entries: 1 Utf8 name, 2 Class(1), 3 Long (slots 3+4), 5 Integer,
    // 6 Utf8 "x", 7 Utf8 "I", 8 Utf8 "ConstantValue", 9 Utf8 "m",
    // 10 Utf8 "()V", 11 Utf8 "Code", 12 Utf8 "LineNumberTable",
    // 13 Utf8 "Custom", 14 Utf8 super name, 15 Class(14)
    push_u16(&mut b, 16);
    utf8_entry(&mut b, b"Rich");
    class_entry(&mut b, 1);
    b.push(5);
    b.extend_from_slice(&(-2i64).to_be_bytes());
    b.push(3);
    b.extend_from_slice(&(-5i32).to_be_bytes());
    utf8_entry(&mut b, b"x");
    utf8_entry(&mut b, b"I");
    utf8_entry(&mut b, b"ConstantValue");
    utf8_entry(&mut b, b"m");
    utf8_entry(&mut b, b"()V");
    utf8_entry(&mut b, b"Code");
    utf8_entry(&mut b, b"LineNumberTable");
    utf8_entry(&mut b, b"Custom");
    utf8_entry(&mut b, b"java/lang/Object");
    class_entry(&mut b, 14);
    push_u16(&mut b, 0x0021);
    push_u16(&mut b, 2);
    push_u16(&mut b, 15);
    push_u16(&mut b, 0);
    // one field: x of type I with a ConstantValue attribute pointing at 5
    push_u16(&mut b, 1);
    push_u16(&mut b, 0x0002);
    push_u16(&mut b, 6);
    push_u16(&mut b, 7);
    push_u16(&mut b, 1);
    push_u16(&mut b, 8);
    push_u32(&mut b, 2);
    push_u16(&mut b, 5);
    // one method: m()V with Code (one return instruction, one exception
    // row, a LineNumberTable inside) and one unknown attribute after it
    push_u16(&mut b, 1);
    push_u16(&mut b, 0x0001);
    push_u16(&mut b, 9);
    push_u16(&mut b, 10);
    push_u16(&mut b, 2);
    push_u16(&mut b, 11);
    push_u32(&mut b, 27);
    push_u16(&mut b, 1);
    push_u16(&mut b, 1);
    push_u32(&mut b, 1);
    b.push(0xB1);
    push_u16(&mut b, 1);
    push_u16(&mut b, 0);
    push_u16(&mut b, 1);
    push_u16(&mut b, 1);
    push_u16(&mut b, 0);
    push_u16(&mut b, 1);
    push_u16(&mut b, 12);
    push_u32(&mut b, 6);
    push_u16(&mut b, 1);
    push_u16(&mut b, 0);
    push_u16(&mut b, 7);
    push_u16(&mut b, 13);
    push_u32(&mut b, 3);
    b.extend_from_slice(&[0xDE, 0xAD, 0xBE]);
    // class attributes: none
    push_u16(&mut b, 0);
    b
}

#[test]
fn round_trip_rich_class() {
    let b = rich_class_bytes();
    let cf = ClassFile::new(&b).unwrap();
    let mut out = Vec::new();
    write_class_file(&mut out, &cf);
    assert_eq!(out, b);
}

#[test]
fn rich_class_structure() {
    let b = rich_class_bytes();
    let cf = ClassFile::new(&b).unwrap();
    assert_eq!(cf.this_class, "Rich");
    match cf.get_constant_entry(3) {
        Some(cp_info::CONSTANT_Long_info { value }) => assert_eq!(*value, -2),
        other => panic!("slot 3: {:?}", other),
    }
    // the second slot of the 8-byte constant is unused
    assert!(cf.get_constant_entry(4).is_none());
    match cf.get_constant_entry(5) {
        Some(cp_info::CONSTANT_Integer_info { bytes }) => assert_eq!(*bytes, -5),
        other => panic!("slot 5: {:?}", other),
    }
    assert_eq!(cf.fields.len(), 1);
    assert_eq!(cf.fields[0].name, "x");
    assert!(matches!(cf.fields[0].descriptor, FieldDescriptor::Integer));
    assert_eq!(cf.methods.len(), 1);
    assert_eq!(cf.methods[0].name, "m");
    assert_eq!(cf.methods[0].code, Some(vec![0xB1]));
    match &cf.methods[0].info.attributes[1].info {
        attribute_info_Data::Unknown_attribute { info } => {
            assert_eq!(info, &vec![0xDE, 0xAD, 0xBE]);
        }
        other => panic!("expected opaque attribute, got {:?}", other),
    }
}

#[test]
fn version_above_ceiling_is_rejected() {
    let mut b = class_bytes("Foo", Some("java/lang/Object"), 0x0021);
    b[7] = 53;
    assert!(matches!(
        ClassFile::new(&b),
        Err(ClassLoadingError::UnsupportedClassVersionError)
    ));
}

#[test]
fn truncated_stream_is_a_format_fault() {
    let b = class_bytes("Foo", Some("java/lang/Object"), 0x0021);
    for cut in [1, 5, 9, 12, b.len() - 1] {
        let short = b[..cut].to_vec();
        assert!(matches!(ClassFile::new(&short), Err(ClassLoadingError::ClassFormatError)));
    }
}

#[test]
fn unknown_pool_tag_is_a_format_fault() {
    let mut b = Vec::new();
    push_u32(&mut b, 0xCAFEBABE);
    push_u16(&mut b, 0);
    push_u16(&mut b, 52);
    push_u16(&mut b, 2);
    b.push(99);
    push_u16(&mut b, 0);
    assert!(matches!(ClassFile::new(&b), Err(ClassLoadingError::ClassFormatError)));
}

#[test]
fn zero_pool_count_is_a_format_fault() {
    let mut b = Vec::new();
    push_u32(&mut b, 0xCAFEBABE);
    push_u16(&mut b, 0);
    push_u16(&mut b, 52);
    push_u16(&mut b, 0);
    assert!(matches!(ClassFile::new(&b), Err(ClassLoadingError::ClassFormatError)));
}

#[test]
fn unknown_access_flag_bit_is_a_format_fault() {
    let b = class_bytes("Foo", Some("java/lang/Object"), 0x0002);
    assert!(matches!(ClassFile::new(&b), Err(ClassLoadingError::ClassFormatError)));
}

#[test]
fn modified_utf8_null_and_surrogates_decode() {
    let mut b = Vec::new();
    push_u32(&mut b, 0xCAFEBABE);
    push_u16(&mut b, 0);
    push_u16(&mut b, 52);
    push_u16(&mut b, 4);
    // a modified-UTF-8 encoded null, rejected by standard UTF-8
    b.push(1);
    push_u16(&mut b, 2);
    b.extend_from_slice(&[0xC0, 0x80]);
    // a six-byte surrogate pair for U+10401
    b.push(1);
    push_u16(&mut b, 6);
    b.extend_from_slice(&[0xED, 0xA0, 0x81, 0xED, 0xB0, 0x81]);
    class_entry(&mut b, 2);
    push_u16(&mut b, 0x0001);
    push_u16(&mut b, 3);
    push_u16(&mut b, 0);
    push_u16(&mut b, 0);
    push_u16(&mut b, 0);
    push_u16(&mut b, 0);
    push_u16(&mut b, 0);
    let cf = ClassFile::new(&b).unwrap();
    assert_eq!(cf.get_string_entry(1).unwrap().as_str(), "\u{0}");
    assert_eq!(cf.get_string_entry(2).unwrap().as_str(), "\u{10401}");
    let mut out = Vec::new();
    write_class_file(&mut out, &cf);
    assert_eq!(out, b);
}

#[test]
fn bytes_outside_modified_utf8_are_a_format_fault() {
    let mut b = Vec::new();
    push_u32(&mut b, 0xCAFEBABE);
    push_u16(&mut b, 0);
    push_u16(&mut b, 52);
    push_u16(&mut b, 2);
    b.push(1);
    push_u16(&mut b, 1);
    b.push(0xFF);
    assert!(matches!(ClassFile::new(&b), Err(ClassLoadingError::ClassFormatError)));
}

/// A class whose class-level attribute table holds the given attribute
/// records; slot 3 names "StackMapTable", 4 "RuntimeVisibleAnnotations".
fn attributed_class_bytes(attributes: &[(u16, Vec<u8>)]) -> Vec<u8> {
    let mut b = Vec::new();
    push_u32(&mut b, 0xCAFEBABE);
    push_u16(&mut b, 0);
    push_u16(&mut b, 52);
    push_u16(&mut b, 5);
    utf8_entry(&mut b, b"Deep");
    class_entry(&mut b, 1);
    utf8_entry(&mut b, b"StackMapTable");
    utf8_entry(&mut b, b"RuntimeVisibleAnnotations");
    push_u16(&mut b, 0x0021);
    push_u16(&mut b, 2);
    push_u16(&mut b, 0);
    push_u16(&mut b, 0);
    push_u16(&mut b, 0);
    push_u16(&mut b, 0);
    push_u16(&mut b, attributes.len() as u16);
    for (name_index, body) in attributes {
        push_u16(&mut b, *name_index);
        push_u32(&mut b, body.len() as u32);
        b.extend_from_slice(body);
    }
    b
}

#[test]
fn stack_map_frames_round_trip() {
    let mut body = Vec::new();
    push_u16(&mut body, 3);
    // a same frame, a one-stack-item frame holding an object, and a full
    // frame with one local and one uninitialized stack entry
    body.push(0);
    body.push(65);
    body.push(7);
    push_u16(&mut body, 2);
    body.push(255);
    push_u16(&mut body, 9);
    push_u16(&mut body, 3);
    body.push(0);
    body.push(1);
    body.push(5);
    push_u16(&mut body, 1);
    body.push(8);
    push_u16(&mut body, 5);
    let b = attributed_class_bytes(&[(3, body)]);
    let cf = ClassFile::new(&b).unwrap();
    match &cf.attributes[0].info {
        attribute_info_Data::StackMapTable_attribute { number_of_entries, entries } => {
            assert_eq!(*number_of_entries, 3);
            assert!(matches!(entries[0].frame_data, stack_map_frame_data::same_frame));
            match &entries[1].frame_data {
                stack_map_frame_data::same_locals_1_stack_item_frame { stack } => {
                    assert!(matches!(
                        stack.data,
                        verification_type_info_data::Object_variable_info { cpool_index: 2 }
                    ));
                }
                other => panic!("{:?}", other),
            }
            match &entries[2].frame_data {
                stack_map_frame_data::full_frame {
                    offset_delta,
                    number_of_locals,
                    locals,
                    number_of_stack_items,
                    stack,
                } => {
                    assert_eq!(*offset_delta, 9);
                    assert_eq!(*number_of_locals, 3);
                    assert!(matches!(
                        locals[0].data,
                        verification_type_info_data::Top_variable_info
                    ));
                    assert!(matches!(
                        locals[1].data,
                        verification_type_info_data::Integer_variable_info
                    ));
                    assert!(matches!(
                        locals[2].data,
                        verification_type_info_data::Null_variable_info
                    ));
                    assert_eq!(*number_of_stack_items, 1);
                    assert!(matches!(
                        stack[0].data,
                        verification_type_info_data::Uninitialized_variable_info { offset: 5 }
                    ));
                }
                other => panic!("{:?}", other),
            }
        }
        other => panic!("{:?}", other),
    }
    let mut out = Vec::new();
    write_class_file(&mut out, &cf);
    assert_eq!(out, b);
}

#[test]
fn reserved_frame_type_is_a_format_fault() {
    let mut body = Vec::new();
    push_u16(&mut body, 1);
    body.push(200);
    let b = attributed_class_bytes(&[(3, body)]);
    assert!(matches!(ClassFile::new(&b), Err(ClassLoadingError::ClassFormatError)));
}

#[test]
fn unknown_verification_type_tag_is_a_format_fault() {
    let mut body = Vec::new();
    push_u16(&mut body, 1);
    body.push(65);
    body.push(9);
    let b = attributed_class_bytes(&[(3, body)]);
    assert!(matches!(ClassFile::new(&b), Err(ClassLoadingError::ClassFormatError)));
}

#[test]
fn annotations_with_nested_element_values_round_trip() {
    let mut body = Vec::new();
    push_u16(&mut body, 1);
    push_u16(&mut body, 1);
    push_u16(&mut body, 1);
    push_u16(&mut body, 1);
    // an array of two element values: a constant, then a whole nested
    // annotation with no pairs
    body.push(b'[');
    push_u16(&mut body, 2);
    body.push(b'I');
    push_u16(&mut body, 5);
    body.push(b'@');
    push_u16(&mut body, 1);
    push_u16(&mut body, 0);
    let b = attributed_class_bytes(&[(4, body)]);
    let cf = ClassFile::new(&b).unwrap();
    match &cf.attributes[0].info {
        attribute_info_Data::RuntimeVisibleAnnotations_attribute { num_annotations, annotations } => {
            assert_eq!(*num_annotations, 1);
            let pair = &annotations[0].element_value_pairs[0];
            match &pair.value.value {
                element_value_data::array_value { num_values, values } => {
                    assert_eq!(*num_values, 2);
                    assert!(matches!(values[0].value, element_value_data::const_value_index(5)));
                    match &values[1].value {
                        element_value_data::annotation_value(inner) => {
                            assert_eq!(inner.type_index, 1);
                            assert_eq!(inner.num_element_value_pairs, 0);
                        }
                        other => panic!("{:?}", other),
                    }
                }
                other => panic!("{:?}", other),
            }
        }
        other => panic!("{:?}", other),
    }
    let mut out = Vec::new();
    write_class_file(&mut out, &cf);
    assert_eq!(out, b);
}

#[test]
fn unknown_element_value_tag_is_a_format_fault() {
    let mut body = Vec::new();
    push_u16(&mut body, 1);
    push_u16(&mut body, 1);
    push_u16(&mut body, 1);
    push_u16(&mut body, 1);
    body.push(b'x');
    push_u16(&mut body, 5);
    let b = attributed_class_bytes(&[(4, body)]);
    assert!(matches!(ClassFile::new(&b), Err(ClassLoadingError::ClassFormatError)));
}

/// A class with one method of the given descriptor and no attributes.
fn method_class_bytes(descriptor: &str) -> Vec<u8> {
    let mut b = Vec::new();
    push_u32(&mut b, 0xCAFEBABE);
    push_u16(&mut b, 0);
    push_u16(&mut b, 52);
    push_u16(&mut b, 5);
    utf8_entry(&mut b, b"M");
    class_entry(&mut b, 1);
    utf8_entry(&mut b, b"go");
    utf8_entry(&mut b, descriptor.as_bytes());
    push_u16(&mut b, 0x0021);
    push_u16(&mut b, 2);
    push_u16(&mut b, 0);
    push_u16(&mut b, 0);
    push_u16(&mut b, 0);
    push_u16(&mut b, 1);
    push_u16(&mut b, 0x0001);
    push_u16(&mut b, 3);
    push_u16(&mut b, 4);
    push_u16(&mut b, 0);
    push_u16(&mut b, 0);
    b
}

#[test]
fn method_descriptors_parse_into_signatures() {
    let b = method_class_bytes("(I[Ljava/lang/String;)J");
    let cf = ClassFile::new(&b).unwrap();
    let m = &cf.methods[0];
    assert_eq!(m.name, "go");
    assert_eq!(m.descriptor.parameters.len(), 2);
    assert!(matches!(m.descriptor.parameters[0], FieldDescriptor::Integer));
    match &m.descriptor.parameters[1] {
        FieldDescriptor::Array(c) => match c.as_ref() {
            FieldDescriptor::Reference(ClassRef::Symbolic(n)) => {
                assert_eq!(n, "java/lang/String");
            }
            other => panic!("{:?}", other),
        },
        other => panic!("{:?}", other),
    }
    assert!(matches!(
        m.descriptor.return_type,
        ReturnDescriptor::Value(FieldDescriptor::Long)
    ));
    assert!(m.code.is_none());

    let v = method_class_bytes("()V");
    let cf = ClassFile::new(&v).unwrap();
    assert!(matches!(cf.methods[0].descriptor.return_type, ReturnDescriptor::Void));
    assert_eq!(cf.methods[0].descriptor.parameters.len(), 0);
}

#[test]
fn bad_method_descriptor_is_a_format_fault() {
    for bad in ["(I", "I)V", "()", "(Q)V"] {
        let b = method_class_bytes(bad);
        assert!(matches!(ClassFile::new(&b), Err(ClassLoadingError::ClassFormatError)));
    }
}

#[test]
fn field_descriptors_parse() {
    let (d, end) = parse_field_descriptor("I", 0).unwrap();
    assert!(matches!(d, FieldDescriptor::Integer));
    assert_eq!(end, 1);

    let (d, end) = parse_field_descriptor("Ljava/lang/String;", 0).unwrap();
    match d {
        FieldDescriptor::Reference(ClassRef::Symbolic(n)) => assert_eq!(n, "java/lang/String"),
        other => panic!("{:?}", other),
    }
    assert_eq!(end, 18);

    // an array parses into a structured tree, one level per marker, so its
    // dimensionality is its nesting depth
    let (d, end) = parse_field_descriptor("[I", 0).unwrap();
    match d {
        FieldDescriptor::Array(c) => assert!(matches!(*c, FieldDescriptor::Integer)),
        other => panic!("{:?}", other),
    }
    assert_eq!(end, 2);

    let (d, end) = parse_field_descriptor("[[J", 0).unwrap();
    match d {
        FieldDescriptor::Array(c1) => match *c1 {
            FieldDescriptor::Array(c2) => assert!(matches!(*c2, FieldDescriptor::Long)),
            other => panic!("{:?}", other),
        },
        other => panic!("{:?}", other),
    }
    assert_eq!(end, 3);

    let (d, end) = parse_field_descriptor("[Ljava/util/List;", 0).unwrap();
    match d {
        FieldDescriptor::Array(c) => match *c {
            FieldDescriptor::Reference(ClassRef::Symbolic(n)) => {
                assert_eq!(n, "java/util/List");
            }
            other => panic!("{:?}", other),
        },
        other => panic!("{:?}", other),
    }
    assert_eq!(end, 17);

    // a caller scanning a parameter list resumes where the last one ended
    let (d, end) = parse_field_descriptor("IZ", 1).unwrap();
    assert!(matches!(d, FieldDescriptor::Boolean));
    assert_eq!(end, 2);

    assert!(parse_field_descriptor("Q", 0).is_err());
    assert!(parse_field_descriptor("Lunterminated", 0).is_err());
    assert!(parse_field_descriptor("", 0).is_err());
}
