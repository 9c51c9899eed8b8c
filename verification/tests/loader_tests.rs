use jvm_class_loader::class::Class;
use jvm_class_loader::class::ClassRef;
use jvm_class_loader::class_file::ClassFile;
use jvm_class_loader::class_file::ClassLoadingError;
use jvm_class_loader::class_loader::ClassLoader;
use jvm_class_loader::class_loader::LoaderStep;
use jvm_class_loader::class_loader::SearchState;
use jvm_class_loader::class_path::class_entry_name;
use jvm_class_loader::class_path::path_to_classpath;
use jvm_class_loader::class_path::ClassPath;
use jvm_class_loader::field::FieldDescriptor;
use jvm_class_loader::lazy::LazyResolve;

fn push_u16(out: &mut Vec<u8>, v: u16) {
    out.push((v >> 8) as u8);
    out.push(v as u8);
}

fn push_u32(out: &mut Vec<u8>, v: u32) {
    out.push((v >> 24) as u8);
    out.push((v >> 16) as u8);
    out.push((v >> 8) as u8);
    out.push(v as u8);
}

fn utf8_entry(out: &mut Vec<u8>, s: &[u8]) {
    out.push(1);
    push_u16(out, s.len() as u16);
    out.extend_from_slice(s);
}

fn class_entry(out: &mut Vec<u8>, name_index: u16) {
    out.push(7);
    push_u16(out, name_index);
}

fn class_bytes(name: &str, super_name: Option<&str>, flags: u16) -> Vec<u8> {
    let mut b = Vec::new();
    push_u32(&mut b, 0xCAFEBABE);
    push_u16(&mut b, 0);
    push_u16(&mut b, 52);
    match super_name {
        None => {
            push_u16(&mut b, 3);
            utf8_entry(&mut b, name.as_bytes());
            class_entry(&mut b, 1);
        }
        Some(sn) => {
            push_u16(&mut b, 5);
            utf8_entry(&mut b, name.as_bytes());
            class_entry(&mut b, 1);
            utf8_entry(&mut b, sn.as_bytes());
            class_entry(&mut b, 3);
        }
    }
    push_u16(&mut b, flags);
    push_u16(&mut b, 2);
    push_u16(&mut b, if super_name.is_some() { 4 } else { 0 });
    push_u16(&mut b, 0);
    push_u16(&mut b, 0);
    push_u16(&mut b, 0);
    push_u16(&mut b, 0);
    b
}

/// One lookup root for the tests: entry name to bytes.
type Root = Vec<(String, Vec<u8>)>;

fn root_labels(n: usize) -> Vec<String> {
    let mut v = Vec::new();
    let mut i = 0;
    while i < n {
        v.push(format!("root{}", i));
        i += 1;
    }
    v
}

/// Drives one request to its end, recording every probe the engine asks
/// for, in order.
fn drive(loader: &mut ClassLoader, name: &str, roots: &[Root]) -> (LoaderStep, Vec<(usize, String)>) {
    let mut probes: Vec<(usize, String)> = Vec::new();
    let mut step = loader.create_class(name);
    loop {
        match step {
            LoaderStep::NeedEntry { root, entry_name } => {
                probes.push((root, entry_name.clone()));
                let mut found: Option<Vec<u8>> = None;
                for (n, bytes) in roots[root].iter() {
                    if *n == entry_name {
                        found = Some(bytes.clone());
                    }
                }
                step = match found {
                    Some(bytes) => loader.provide_class(ClassFile::new(&bytes)),
                    None => loader.entry_missing(),
                };
            }
            done => return (done, probes),
        }
    }
}

fn object_root() -> Root {
    vec![(
        "java/lang/Object.class".to_string(),
        class_bytes("java/lang/Object", None, 0x0021),
    )]
}

#[test]
fn loads_the_root_type_without_super_resolution() {
    let mut loader = ClassLoader::new(root_labels(1));
    let (step, probes) = drive(&mut loader, "java/lang/Object", &[object_root()]);
    match step {
        LoaderStep::Loaded(h) => {
            assert_eq!(loader.classes[h].get_name().as_str(), "java/lang/Object");
        }
        other => panic!("{:?}", other),
    }
    // only its own bytes were fetched: no super chain was walked
    assert_eq!(probes, vec![(0, "java/lang/Object.class".to_string())]);
}

#[test]
fn cached_names_return_the_same_handle_with_no_lookup() {
    let mut roots = object_root();
    roots.push((
        "Foo.class".to_string(),
        class_bytes("Foo", Some("java/lang/Object"), 0x0021),
    ));
    let mut loader = ClassLoader::new(root_labels(1));
    let (step1, probes1) = drive(&mut loader, "Foo", &[roots.clone()]);
    let h1 = match step1 {
        LoaderStep::Loaded(h) => h,
        other => panic!("{:?}", other),
    };
    assert_eq!(probes1.len(), 2);
    let (step2, probes2) = drive(&mut loader, "Foo", &[roots.clone()]);
    match step2 {
        LoaderStep::Loaded(h2) => assert_eq!(h2, h1),
        other => panic!("{:?}", other),
    }
    assert_eq!(probes2, vec![]);
    // the transitively loaded super is cached under its own name too
    let (step3, probes3) = drive(&mut loader, "java/lang/Object", &[roots]);
    assert!(matches!(step3, LoaderStep::Loaded(_)));
    assert_eq!(probes3, vec![]);
}

#[test]
fn two_class_cycle_is_a_circularity_fault() {
    let root: Root = vec![
        ("A.class".to_string(), class_bytes("A", Some("B"), 0x0021)),
        ("B.class".to_string(), class_bytes("B", Some("A"), 0x0021)),
    ];
    let mut loader = ClassLoader::new(root_labels(1));
    let (step, probes) = drive(&mut loader, "A", &[root]);
    assert!(matches!(
        step,
        LoaderStep::Failed(ClassLoadingError::ClassCircularityError)
    ));
    assert_eq!(probes.len(), 2);
    assert_eq!(loader.classes.len(), 0);
}

#[test]
fn self_cycle_is_a_circularity_fault() {
    let root: Root = vec![(
        "Ouro.class".to_string(),
        class_bytes("Ouro", Some("Ouro"), 0x0021),
    )];
    let mut loader = ClassLoader::new(root_labels(1));
    let (step, _probes) = drive(&mut loader, "Ouro", &[root]);
    assert!(matches!(
        step,
        LoaderStep::Failed(ClassLoadingError::ClassCircularityError)
    ));
    assert_eq!(loader.classes.len(), 0);
}

#[test]
fn longer_cycle_is_a_circularity_fault() {
    let root: Root = vec![
        ("C1.class".to_string(), class_bytes("C1", Some("C2"), 0x0021)),
        ("C2.class".to_string(), class_bytes("C2", Some("C3"), 0x0021)),
        ("C3.class".to_string(), class_bytes("C3", Some("C4"), 0x0021)),
        ("C4.class".to_string(), class_bytes("C4", Some("C1"), 0x0021)),
    ];
    let mut loader = ClassLoader::new(root_labels(1));
    let (step, _probes) = drive(&mut loader, "C1", &[root]);
    assert!(matches!(
        step,
        LoaderStep::Failed(ClassLoadingError::ClassCircularityError)
    ));
}

#[test]
fn missing_super_declaration_is_a_format_fault() {
    let root: Root = vec![("Rootless.class".to_string(), class_bytes("Rootless", None, 0x0021))];
    let mut loader = ClassLoader::new(root_labels(1));
    let (step, _probes) = drive(&mut loader, "Rootless", &[root]);
    assert!(matches!(
        step,
        LoaderStep::Failed(ClassLoadingError::ClassFormatError)
    ));
    assert_eq!(loader.classes.len(), 0);
}

#[test]
fn interface_as_super_is_an_incompatible_hierarchy_fault() {
    let mut root = object_root();
    root.push((
        "Iface.class".to_string(),
        class_bytes("Iface", Some("java/lang/Object"), 0x0601),
    ));
    root.push((
        "Impl.class".to_string(),
        class_bytes("Impl", Some("Iface"), 0x0021),
    ));
    let mut loader = ClassLoader::new(root_labels(1));
    let (step, _probes) = drive(&mut loader, "Impl", &[root]);
    assert!(matches!(
        step,
        LoaderStep::Failed(ClassLoadingError::IncompatibleClassChangeError)
    ));
    // the interface and the root type themselves loaded fine; only the
    // faulting class stayed out
    assert_eq!(loader.classes.len(), 2);
    let (again, _p) = drive(&mut loader, "Iface", &[object_root()]);
    assert!(matches!(again, LoaderStep::Loaded(_)));
}

#[test]
fn primitive_array_synthesizes_without_lookups() {
    let mut loader = ClassLoader::new(root_labels(1));
    let step = loader.create_class("[[I");
    match step {
        LoaderStep::Loaded(h) => {
            assert_eq!(h, 0);
            match &loader.classes[h] {
                Class::Array(a) => {
                    assert_eq!(a.dimensions, 2);
                    assert!(matches!(a.component_type, FieldDescriptor::Integer));
                    assert_eq!(a.name, "[[I");
                    assert_eq!(a.access_flags, 0x0001);
                }
                other => panic!("{:?}", other),
            }
        }
        other => panic!("{:?}", other),
    }
}

#[test]
fn reference_array_resolves_its_component() {
    let mut loader = ClassLoader::new(root_labels(1));
    let (step, probes) = drive(&mut loader, "[Ljava/lang/Object;", &[object_root()]);
    let h = match step {
        LoaderStep::Loaded(h) => h,
        other => panic!("{:?}", other),
    };
    assert_eq!(probes, vec![(0, "java/lang/Object.class".to_string())]);
    match &loader.classes[h] {
        Class::Array(a) => {
            assert_eq!(a.dimensions, 1);
            assert_eq!(a.name, "[Ljava/lang/Object;");
            match &a.component_type {
                FieldDescriptor::Reference(ClassRef::Static(ch)) => {
                    assert_eq!(loader.classes[*ch].get_name().as_str(), "java/lang/Object");
                }
                other => panic!("{:?}", other),
            }
        }
        other => panic!("{:?}", other),
    }
}

#[test]
fn not_found_only_after_every_root_in_order() {
    let mut loader = ClassLoader::new(root_labels(3));
    let empty: Vec<Root> = vec![vec![], vec![], vec![]];
    let (step, probes) = drive(&mut loader, "Nowhere", &empty);
    assert!(matches!(
        step,
        LoaderStep::Failed(ClassLoadingError::NoClassDefFoundError)
    ));
    assert_eq!(
        probes,
        vec![
            (0, "Nowhere.class".to_string()),
            (1, "Nowhere.class".to_string()),
            (2, "Nowhere.class".to_string()),
        ]
    );
}

#[test]
fn first_root_wins_and_later_roots_are_never_consulted() {
    // both roots hold an entry for the same name with different bytes: the
    // first root's bytes decide, the second is never probed for it
    let mut root0 = object_root();
    root0.push((
        "Dup.class".to_string(),
        class_bytes("Dup", Some("java/lang/Object"), 0x0021),
    ));
    let root1: Root = vec![("Dup.class".to_string(), vec![0xDE, 0xAD])];
    let mut loader = ClassLoader::new(root_labels(2));
    let (step, probes) = drive(&mut loader, "Dup", &[root0, root1]);
    assert!(matches!(step, LoaderStep::Loaded(_)));
    for (root, entry) in probes.iter() {
        if entry == "Dup.class" {
            assert_eq!(*root, 0);
        }
    }
}

#[test]
fn second_root_supplies_what_the_first_lacks() {
    let root0: Root = vec![];
    let mut root1 = object_root();
    root1.push((
        "Late.class".to_string(),
        class_bytes("Late", Some("java/lang/Object"), 0x0021),
    ));
    let mut loader = ClassLoader::new(root_labels(2));
    let (step, probes) = drive(&mut loader, "Late", &[root0, root1]);
    assert!(matches!(step, LoaderStep::Loaded(_)));
    assert_eq!(probes[0], (0, "Late.class".to_string()));
    assert_eq!(probes[1], (1, "Late.class".to_string()));
}

#[test]
fn decoded_name_must_match_the_requested_name() {
    let root: Root = vec![(
        "Foo.class".to_string(),
        class_bytes("Bar", Some("java/lang/Object"), 0x0021),
    )];
    let mut loader = ClassLoader::new(root_labels(1));
    let (step, _probes) = drive(&mut loader, "Foo", &[root]);
    assert!(matches!(
        step,
        LoaderStep::Failed(ClassLoadingError::NoClassDefFoundError)
    ));
    assert_eq!(loader.classes.len(), 0);
}

#[test]
fn malformed_bytes_abort_the_request() {
    let root: Root = vec![("Junk.class".to_string(), vec![1, 2, 3])];
    let mut loader = ClassLoader::new(root_labels(1));
    let (step, _probes) = drive(&mut loader, "Junk", &[root]);
    assert!(matches!(
        step,
        LoaderStep::Failed(ClassLoadingError::ClassFormatError)
    ));
}

#[test]
fn failed_chain_does_not_poison_a_later_request() {
    // the first request fails on a missing super; adding nothing, the same
    // ancestor can still be reached by an unrelated later request
    let root: Root = vec![
        ("Child.class".to_string(), class_bytes("Child", Some("Gone"), 0x0021)),
        (
            "Other.class".to_string(),
            class_bytes("Other", Some("java/lang/Object"), 0x0021),
        ),
        (
            "java/lang/Object.class".to_string(),
            class_bytes("java/lang/Object", None, 0x0021),
        ),
    ];
    let mut loader = ClassLoader::new(root_labels(1));
    let (step1, _p1) = drive(&mut loader, "Child", &[root.clone()]);
    assert!(matches!(
        step1,
        LoaderStep::Failed(ClassLoadingError::NoClassDefFoundError)
    ));
    let (step2, _p2) = drive(&mut loader, "Other", &[root]);
    assert!(matches!(step2, LoaderStep::Loaded(_)));
}

#[test]
fn symbolic_references_promote_once_through_the_loader() {
    let mut loader = ClassLoader::new(root_labels(1));
    let (step, _probes) = drive(&mut loader, "java/lang/Object", &[object_root()]);
    let h = match step {
        LoaderStep::Loaded(h) => h,
        other => panic!("{:?}", other),
    };
    let mut r = ClassRef::Symbolic("java/lang/Object".to_string());
    assert_eq!(r.resolve(&mut loader), Some(h));
    assert!(matches!(r, ClassRef::Static(hh) if hh == h));
    // a resolved reference never reverts, whatever the resolver would say
    assert_eq!(r.resolve(&mut loader), Some(h));
    assert_eq!(r.get(), h);

    let mut unknown = ClassRef::Symbolic("no/such/Name".to_string());
    assert_eq!(unknown.resolve(&mut loader), None);
    assert!(matches!(unknown, ClassRef::Symbolic(_)));
}

#[test]
fn redefining_a_registered_name_is_a_linkage_fault() {
    // request flow never searches for a cached name, so the redefinition
    // check is reached by standing a probe for one up directly
    let mut loader = ClassLoader::new(root_labels(1));
    let (step, _probes) = drive(&mut loader, "java/lang/Object", &[object_root()]);
    assert!(matches!(step, LoaderStep::Loaded(_)));
    loader.search = Some(SearchState {
        name: "java/lang/Object".to_string(),
        next_root: 0,
    });
    let bytes = class_bytes("java/lang/Object", None, 0x0021);
    let step = loader.provide_class(ClassFile::new(&bytes));
    assert!(matches!(
        step,
        LoaderStep::Failed(ClassLoadingError::LinkageError)
    ));
    assert_eq!(loader.classes.len(), 1);
}

#[test]
fn class_paths_classify_by_suffix() {
    match path_to_classpath("/lib/rt.jar") {
        ClassPath::Jar(p) => assert_eq!(p, "/lib/rt.jar"),
        other => panic!("{:?}", other),
    }
    match path_to_classpath("/srv/classes") {
        ClassPath::Directory(p) => assert_eq!(p, "/srv/classes"),
        other => panic!("{:?}", other),
    }
    match path_to_classpath("jar") {
        ClassPath::Directory(p) => assert_eq!(p, "jar"),
        other => panic!("{:?}", other),
    }
    assert_eq!(class_entry_name("java/lang/Object"), "java/lang/Object.class");
}

#[test]
fn super_resolution_promotes_the_stored_reference() {
    let mut roots = object_root();
    roots.push((
        "Kid.class".to_string(),
        class_bytes("Kid", Some("java/lang/Object"), 0x0021),
    ));
    let mut loader = ClassLoader::new(root_labels(1));
    let (step, _probes) = drive(&mut loader, "Kid", &[roots]);
    let h = match step {
        LoaderStep::Loaded(h) => h,
        other => panic!("{:?}", other),
    };
    match &loader.classes[h] {
        Class::File(cf) => match cf.get_super_class() {
            Some(ClassRef::Static(sh)) => {
                assert_eq!(loader.classes[*sh].get_name().as_str(), "java/lang/Object");
            }
            other => panic!("super not resolved: {:?}", other),
        },
        other => panic!("{:?}", other),
    }
}
