//! The structural form of a decoded class file, and the faults that loading
//! can report.
//!
//! `ClassFile::new` decodes a byte stream into the structural form, and is
//! proved to be the exact inverse of the record encoders: re-encoding a
//! decoded file reproduces the consumed bytes.  The raw index fields
//! (`this_class_index`, `super_class_index`, `interface_indices`) are kept
//! beside their resolved names so that re-encoding needs no pool search.

use vstd::prelude::*;

use crate::attribute::attribute_info;
use crate::attribute::enc_attr_seq;
use crate::attribute::parse_attr_list;
use crate::attribute::read_attributes;
use crate::attribute::write_attr_seq;
use crate::class::ClassRef;
use crate::codec::be16;
use crate::codec::be16_value;
use crate::codec::be32;
use crate::codec::enc_list;
use crate::codec::lemma_be16_value;
use crate::codec::lemma_subrange_join;
use crate::codec::read_u16;
use crate::codec::read_u32;
use crate::codec::write_u16;
use crate::codec::write_u32;
use crate::constant_pool::cp_info;
use crate::constant_pool::cref_at;
use crate::constant_pool::crefs_of;
use crate::constant_pool::enc_cp_slots;
use crate::constant_pool::parse_cp_list;
use crate::constant_pool::read_constant_pool;
use crate::constant_pool::text_at;
use crate::constant_pool::texts_of;
use crate::constant_pool::wf_cp_slots;
use crate::constant_pool::write_cp_slots;
use crate::constant_pool::ConstantPool;
use crate::field::enc_field_info;
use crate::field::parse_field_list;
use crate::field::read_fields;
use crate::field::wf_field;
use crate::field::write_fields;
use crate::field::FieldInfo;
use crate::lazy::LazyResolve;
use crate::method::enc_method_info;
use crate::method::parse_method_list;
use crate::method::read_methods;
use crate::method::wf_method;
use crate::method::write_methods;
use crate::method::MethodInfo;

verus! {

/// The newest class-file major version this decoder accepts.
pub const CURRENT_VERSION: u16 = 52;

/// The bits outside every class access flag the format defines.
pub const ACC_CLASS_UNKNOWN_MASK: u16 = 0x89CE;

/// Every way a class can fail to load.
///
/// Malformed or truncated streams, and bytes outside a closed tag grammar,
/// are `ClassFormatError`.  The remaining variants are linkage-time faults
/// raised by the loading engine.
#[derive(Clone, Copy, Debug, PartialEq, Eq, Structural)]
pub enum ClassLoadingError {
    LinkageError,
    ClassFormatError,
    UnsupportedClassVersionError,
    NoClassDefFoundError,
    IncompatibleClassChangeError,
    ClassCircularityError,
}

/// The structural form of a decoded class file.
#[derive(Debug)]
pub struct ClassFile {
    pub magic: u32,
    pub minor_version: u16,
    pub major_version: u16,
    pub constant_pool_count: u16,
    pub constant_pool: crate::constant_pool::ConstantPool,
    pub access_flags: u16,
    pub this_class_index: u16,
    pub this_class: String,
    pub super_class_index: u16,
    pub super_class: Option<ClassRef>,
    pub interfaces_count: u16,
    pub interface_indices: Vec<u16>,
    pub interfaces: Vec<ClassRef>,
    pub fields_count: u16,
    pub fields: Vec<FieldInfo>,
    pub methods_count: u16,
    pub methods: Vec<MethodInfo>,
    pub attributes_count: u16,
    pub attributes: Vec<attribute_info>,
}

impl ClassFile {
    /// The declared super class's name, where one is declared.
    pub open spec fn super_name(self) -> Option<Seq<char>> {
        match self.super_class {
            Some(ClassRef::Symbolic(n)) => Some(n@),
            _ => None,
        }
    }

    pub fn get_access_flags(&self) -> (r: u16)
        ensures
            r == self.access_flags,
    {
        self.access_flags
    }

    pub fn get_name(&self) -> (r: &String)
        ensures
            r@ == self.this_class@,
    {
        &self.this_class
    }

    pub fn has_super_class(&self) -> (r: bool)
        ensures
            r == self.super_class is Some,
    {
        self.super_class.is_some()
    }

    pub fn get_super_class(&self) -> (r: &Option<ClassRef>)
        ensures
            r == self.super_class,
    {
        &self.super_class
    }

    /// The entry the constant pool holds at `index`.
    pub fn get_constant_entry(&self, index: u16) -> (r: Option<&cp_info>)
        ensures
            match r {
                Some(e) => index < self.constant_pool.slots().len()
                    && self.constant_pool.slots()[index as int] == Some(*e),
                None => index >= self.constant_pool.slots().len()
                    || self.constant_pool.slots()[index as int] is None,
            },
    {
        self.constant_pool.get_entry(index)
    }

    /// The text the constant pool holds at `index`, where that entry is a
    /// text entry.
    pub fn get_string_entry(&self, index: u16) -> (r: Option<&String>)
        ensures
            match r {
                Some(s) => self.constant_pool.spec_text(index as int) == Some(s@),
                None => self.constant_pool.spec_text(index as int) is None,
            },
    {
        self.constant_pool.get_string_entry(index)
    }

    /// Promotes the super-class reference through `resolver`, at most once;
    /// a class without a super class has nothing to resolve.
    pub fn resolve_super_class<R: LazyResolve<usize>>(&mut self, resolver: &mut R) -> (r: Option<
        usize,
    >)
        ensures
            *final(self) == (ClassFile { super_class: final(self).super_class, ..*old(self) }),
            match old(self).super_class {
                None => r is None && final(self).super_class is None,
                Some(sc) => match sc {
                    ClassRef::Static(h) => r == Some(h) && final(self).super_class == Some(sc),
                    ClassRef::Symbolic(_) => match r {
                        Some(h) => final(self).super_class == Some(ClassRef::Static(h)),
                        None => final(self).super_class == Some(sc),
                    },
                },
            },
    {
        match &mut self.super_class {
            Some(sc) => sc.resolve(resolver),
            None => None,
        }
    }
}

/// The class name reached by following a class-reference slot to its name
/// text.
pub open spec fn lookup_class_name(
    texts: Seq<Option<Seq<char>>>,
    crefs: Seq<Option<u16>>,
    i: int,
) -> Option<Seq<char>> {
    match cref_at(crefs, i) {
        None => None,
        Some(ni) => text_at(texts, ni as int),
    }
}

/// Where a run of `n` interface references starting at `pos` ends; each
/// must name a class through the pool.
pub open spec fn parse_interfaces(
    b: Seq<u8>,
    texts: Seq<Option<Seq<char>>>,
    crefs: Seq<Option<u16>>,
    pos: int,
    n: nat,
) -> Option<int>
    decreases n,
{
    if pos < 0 || pos > b.len() {
        None
    } else if n == 0 {
        Some(pos)
    } else if pos + 2 > b.len() {
        None
    } else {
        match lookup_class_name(texts, crefs, be16_value(b.subrange(pos, pos + 2))) {
            None => None,
            Some(_) => parse_interfaces(b, texts, crefs, pos + 2, (n - 1) as nat),
        }
    }
}

/// Where everything after the constant pool ends: access flags, this and
/// super references, interface table, field table, method table, attribute
/// table.
pub open spec fn parse_class_tail(
    b: Seq<u8>,
    texts: Seq<Option<Seq<char>>>,
    crefs: Seq<Option<u16>>,
    pos: int,
) -> Option<int> {
    match parse_class_refs(b, texts, crefs, pos) {
        None => None,
        Some(pi) => parse_class_members(b, texts, pi),
    }
}

/// Where the reference region after the pool ends: access flags, this and
/// super references, and the interface table.
pub open spec fn parse_class_refs(
    b: Seq<u8>,
    texts: Seq<Option<Seq<char>>>,
    crefs: Seq<Option<u16>>,
    pos: int,
) -> Option<int> {
    if pos < 0 || pos + 8 > b.len() {
        None
    } else {
        let flags = be16_value(b.subrange(pos, pos + 2)) as u16;
        let ti = be16_value(b.subrange(pos + 2, pos + 4));
        let si = be16_value(b.subrange(pos + 4, pos + 6));
        let ic = be16_value(b.subrange(pos + 6, pos + 8));
        if flags & ACC_CLASS_UNKNOWN_MASK != 0 {
            None
        } else if lookup_class_name(texts, crefs, ti) is None {
            None
        } else if si != 0 && lookup_class_name(texts, crefs, si) is None {
            None
        } else {
            parse_interfaces(b, texts, crefs, pos + 8, ic as nat)
        }
    }
}

/// Where the member region ends: field, method and attribute tables.
pub open spec fn parse_class_members(b: Seq<u8>, texts: Seq<Option<Seq<char>>>, pos: int) -> Option<
    int,
> {
    if pos < 0 || pos + 2 > b.len() {
        None
    } else {
        match parse_field_list(b, texts, pos + 2, be16_value(b.subrange(pos, pos + 2)) as nat) {
            None => None,
            Some(pf) => {
                if pf + 2 > b.len() {
                    None
                } else {
                    match parse_method_list(
                        b,
                        texts,
                        pf + 2,
                        be16_value(b.subrange(pf, pf + 2)) as nat,
                    ) {
                        None => None,
                        Some(pm) => {
                            if pm + 2 > b.len() {
                                None
                            } else {
                                parse_attr_list(
                                    b,
                                    texts,
                                    pm + 2,
                                    be16_value(b.subrange(pm, pm + 2)) as nat,
                                )
                            }
                        },
                    }
                }
            },
        }
    }
}

/// Where a whole class file starting at byte 0 ends: magic, versions,
/// constant pool, then the tail.  The major-version ceiling is checked
/// separately, before any of this.
#[verifier::opaque]
pub open spec fn parse_class_file(b: Seq<u8>) -> Option<int> {
    if b.len() < 10 {
        None
    } else {
        let count = be16_value(b.subrange(8, 10));
        if count == 0 {
            None
        } else {
            match parse_cp_list(b, 10, (count - 1) as nat) {
                None => None,
                Some(pe) => {
                    let texts = seq![None::<Seq<char>>] + texts_of(b, 10, (count - 1) as nat);
                    let crefs = seq![None::<u16>] + crefs_of(b, 10, (count - 1) as nat);
                    parse_class_tail(b, texts, crefs, pe)
                },
            }
        }
    }
}

/// The byte image of the reference region of a class file: access flags,
/// this and super references, interface table.
pub open spec fn enc_refs_region(
    access_flags: u16,
    this_class_index: u16,
    super_class_index: u16,
    interfaces_count: u16,
    interface_indices: Seq<u16>,
) -> Seq<u8> {
    be16(access_flags) + be16(this_class_index) + be16(super_class_index) + be16(interfaces_count)
        + crate::attribute::enc_u16_seq(interface_indices)
}

/// The byte image of the member region of a class file: field, method and
/// attribute tables.
pub open spec fn enc_members_region(
    fields_count: u16,
    fields: Seq<FieldInfo>,
    methods_count: u16,
    methods: Seq<MethodInfo>,
    attributes_count: u16,
    attributes: Seq<attribute_info>,
) -> Seq<u8> {
    be16(fields_count) + enc_list(fields, |f: FieldInfo| enc_field_info(f.info)) + be16(
        methods_count,
    ) + enc_list(methods, |m: MethodInfo| enc_method_info(m.info)) + be16(attributes_count)
        + enc_attr_seq(attributes)
}

/// The byte image of a decoded class file.
pub open spec fn enc_class_file(cf: ClassFile) -> Seq<u8> {
    be32(cf.magic) + be16(cf.minor_version) + be16(cf.major_version) + be16(cf.constant_pool_count)
        + enc_cp_slots(cf.constant_pool.slots()) + enc_refs_region(
        cf.access_flags,
        cf.this_class_index,
        cf.super_class_index,
        cf.interfaces_count,
        cf.interface_indices@,
    ) + enc_members_region(
        cf.fields_count,
        cf.fields@,
        cf.methods_count,
        cf.methods@,
        cf.attributes_count,
        cf.attributes@,
    )
}

/// Everything the decoder checks and derives while building a class file:
/// counts match their tables, names come from the pool, descriptors parse,
/// the version is within the ceiling, and the access flags are known.
#[verifier::opaque]
pub open spec fn wf_class_file(cf: ClassFile) -> bool {
    let texts = cf.constant_pool.texts();
    let crefs = cf.constant_pool.class_refs();
    &&& wf_cp_slots(cf.constant_pool.slots())
    &&& cf.constant_pool.slots().len() == cf.constant_pool_count
    &&& cf.major_version <= CURRENT_VERSION
    &&& cf.access_flags & ACC_CLASS_UNKNOWN_MASK == 0
    &&& lookup_class_name(texts, crefs, cf.this_class_index as int) == Some(cf.this_class@)
    &&& (cf.super_class_index == 0 <==> cf.super_class is None)
    &&& (cf.super_class_index != 0 ==> (cf.super_class matches Some(ClassRef::Symbolic(n))
        && lookup_class_name(texts, crefs, cf.super_class_index as int) == Some(n@)))
    &&& cf.interface_indices@.len() == cf.interfaces_count
    &&& cf.interfaces@.len() == cf.interfaces_count
    &&& forall|k: int|
        0 <= k < cf.interfaces_count ==> (#[trigger] cf.interfaces@[k] matches ClassRef::Symbolic(n)
            && lookup_class_name(texts, crefs, cf.interface_indices@[k] as int) == Some(n@))
    &&& cf.fields@.len() == cf.fields_count
    &&& forall|i: int|
        0 <= i < cf.fields_count ==> wf_field(#[trigger] cf.fields@[i], texts, cf.this_class@, i)
    &&& cf.methods@.len() == cf.methods_count
    &&& forall|i: int|
        0 <= i < cf.methods_count ==> wf_method(#[trigger] cf.methods@[i], texts, cf.this_class@)
    &&& cf.attributes@.len() == cf.attributes_count
    &&& crate::attribute::wf_attr_seq(texts, cf.attributes@)
}

/// Follows a class-reference entry to its name text, cloning it.
fn lookup_class_name_exec(constant_pool: &ConstantPool, index: u16) -> (r: Option<String>)
    ensures
        match r {
            Some(s) => lookup_class_name(
                constant_pool.texts(),
                constant_pool.class_refs(),
                index as int,
            ) == Some(s@),
            None => lookup_class_name(
                constant_pool.texts(),
                constant_pool.class_refs(),
                index as int,
            ) is None,
        },
{
    proof {
        assert(cref_at(constant_pool.class_refs(), index as int) == constant_pool.spec_class_ref(
            index as int,
        ));
    }
    match constant_pool.get_entry(index) {
        Some(cp_info::CONSTANT_Class_info { name_index }) => {
            proof {
                assert(text_at(constant_pool.texts(), *name_index as int)
                    == constant_pool.spec_text(*name_index as int));
            }
            match constant_pool.get_string_entry(*name_index) {
                Some(s) => Some(s.clone()),
                None => None,
            }
        },
        _ => None,
    }
}

/// Reads the interface table: the raw indices, and the symbolic reference
/// each one names through the pool.
fn read_interfaces(b: &Vec<u8>, pos: usize, length: u16, constant_pool: &ConstantPool) -> (r:
    Result<((Vec<u16>, Vec<ClassRef>), usize), ClassLoadingError>)
    requires
        pos <= b@.len(),
    ensures
        r matches Ok(t) ==> {
            &&& parse_interfaces(
                b@,
                constant_pool.texts(),
                constant_pool.class_refs(),
                pos as int,
                length as nat,
            ) == Some(t.1 as int)
            &&& t.1 == pos + 2 * length
            &&& pos <= t.1 <= b@.len()
            &&& crate::attribute::enc_u16_seq(t.0.0@) == b@.subrange(pos as int, t.1 as int)
            &&& t.0.0@.len() == length
            &&& t.0.1@.len() == length
            &&& forall|k: int|
                0 <= k < length ==> (#[trigger] t.0.1@[k] matches ClassRef::Symbolic(n)
                    && lookup_class_name(
                    constant_pool.texts(),
                    constant_pool.class_refs(),
                    t.0.0@[k] as int,
                ) == Some(n@))
        },
        r is Err ==> parse_interfaces(
            b@,
            constant_pool.texts(),
            constant_pool.class_refs(),
            pos as int,
            length as nat,
        ) is None && r == Err::<((Vec<u16>, Vec<ClassRef>), usize), _>(
            ClassLoadingError::ClassFormatError,
        ),
        parse_interfaces(
            b@,
            constant_pool.texts(),
            constant_pool.class_refs(),
            pos as int,
            length as nat,
        ) is Some ==> r is Ok,
{
    let mut indices: Vec<u16> = Vec::new();
    let mut refs: Vec<ClassRef> = Vec::new();
    let mut cur: usize = pos;
    let mut i: u16 = 0;
    proof {
        assert(crate::attribute::enc_u16_seq(indices@) =~= b@.subrange(pos as int, pos as int));
    }
    while i < length
        invariant
            pos <= cur <= b@.len(),
            i <= length,
            cur == pos + 2 * i,
            indices@.len() == i,
            refs@.len() == i,
            crate::attribute::enc_u16_seq(indices@) == b@.subrange(pos as int, cur as int),
            parse_interfaces(
                b@,
                constant_pool.texts(),
                constant_pool.class_refs(),
                cur as int,
                (length - i) as nat,
            ) == parse_interfaces(
                b@,
                constant_pool.texts(),
                constant_pool.class_refs(),
                pos as int,
                length as nat,
            ),
            forall|k: int|
                0 <= k < i ==> (#[trigger] refs@[k] matches ClassRef::Symbolic(n)
                    && lookup_class_name(
                    constant_pool.texts(),
                    constant_pool.class_refs(),
                    indices@[k] as int,
                ) == Some(n@)),
        decreases length - i,
    {
        let (idx, end) = match read_u16(b, cur) {
            Ok(t) => t,
            Err(e) => {
                return Err(e);
            },
        };
        proof {
            lemma_be16_value(idx);
        }
        let name = match lookup_class_name_exec(constant_pool, idx) {
            Some(s) => s,
            None => {
                return Err(ClassLoadingError::ClassFormatError);
            },
        };
        let ghost prev = indices@;
        indices.push(idx);
        refs.push(ClassRef::Symbolic(name));
        proof {
            crate::codec::lemma_enc_list_push(prev, idx, |y: u16| be16(y));
            lemma_subrange_join(b@, pos as int, cur as int, end as int);
        }
        cur = end;
        i = i + 1;
    }
    Ok(((indices, refs), cur))
}

/// The decoded reference region: access flags, this and super references,
/// and the interface table.
struct ClassRefsPart {
    access_flags: u16,
    this_class_index: u16,
    this_class: String,
    super_class_index: u16,
    super_class: Option<ClassRef>,
    interfaces_count: u16,
    interface_indices: Vec<u16>,
    interfaces: Vec<ClassRef>,
}

/// The decoded member region: field, method and attribute tables.
struct ClassMembersPart {
    fields_count: u16,
    fields: Vec<FieldInfo>,
    methods_count: u16,
    methods: Vec<MethodInfo>,
    attributes_count: u16,
    attributes: Vec<attribute_info>,
}

/// The byte image of the reference region.
spec fn enc_class_refs(t: ClassRefsPart) -> Seq<u8> {
    enc_refs_region(
        t.access_flags,
        t.this_class_index,
        t.super_class_index,
        t.interfaces_count,
        t.interface_indices@,
    )
}

/// The byte image of the member region.
spec fn enc_class_members(t: ClassMembersPart) -> Seq<u8> {
    enc_members_region(
        t.fields_count,
        t.fields@,
        t.methods_count,
        t.methods@,
        t.attributes_count,
        t.attributes@,
    )
}

/// What the decoder checks and derives for the reference region.
#[verifier::opaque]
spec fn wf_class_refs(t: ClassRefsPart, texts: Seq<Option<Seq<char>>>, crefs: Seq<Option<u16>>) -> bool {
    &&& t.access_flags & ACC_CLASS_UNKNOWN_MASK == 0
    &&& lookup_class_name(texts, crefs, t.this_class_index as int) == Some(t.this_class@)
    &&& (t.super_class_index == 0 <==> t.super_class is None)
    &&& (t.super_class_index != 0 ==> (t.super_class matches Some(ClassRef::Symbolic(n))
        && lookup_class_name(texts, crefs, t.super_class_index as int) == Some(n@)))
    &&& t.interface_indices@.len() == t.interfaces_count
    &&& t.interfaces@.len() == t.interfaces_count
    &&& forall|k: int|
        0 <= k < t.interfaces_count ==> (#[trigger] t.interfaces@[k] matches ClassRef::Symbolic(n)
            && lookup_class_name(texts, crefs, t.interface_indices@[k] as int) == Some(n@))
}

/// What the decoder checks and derives for the member region.
#[verifier::opaque]
spec fn wf_class_members(
    t: ClassMembersPart,
    texts: Seq<Option<Seq<char>>>,
    self_name: Seq<char>,
) -> bool {
    &&& crate::attribute::wf_attr_seq(texts, t.attributes@)
    &&& t.fields@.len() == t.fields_count
    &&& forall|i: int|
        0 <= i < t.fields_count ==> wf_field(#[trigger] t.fields@[i], texts, self_name, i)
    &&& t.methods@.len() == t.methods_count
    &&& forall|i: int|
        0 <= i < t.methods_count ==> wf_method(#[trigger] t.methods@[i], texts, self_name)
    &&& t.attributes@.len() == t.attributes_count
}

/// Decodes the reference region after the constant pool.
#[verifier::rlimit(100)]
fn read_class_refs(b: &Vec<u8>, pos: usize, constant_pool: &ConstantPool) -> (r: Result<
    (ClassRefsPart, usize),
    ClassLoadingError,
>)
    requires
        pos <= b@.len(),
    ensures
        r matches Ok(t) ==> {
            &&& parse_class_refs(
                b@,
                constant_pool.texts(),
                constant_pool.class_refs(),
                pos as int,
            ) == Some(t.1 as int)
            &&& pos <= t.1 <= b@.len()
            &&& enc_class_refs(t.0) == b@.subrange(pos as int, t.1 as int)
            &&& wf_class_refs(t.0, constant_pool.texts(), constant_pool.class_refs())
        },
        r is Err ==> parse_class_refs(
            b@,
            constant_pool.texts(),
            constant_pool.class_refs(),
            pos as int,
        ) is None && r == Err::<(ClassRefsPart, usize), _>(ClassLoadingError::ClassFormatError),
        parse_class_refs(b@, constant_pool.texts(), constant_pool.class_refs(), pos as int)
            is Some ==> r is Ok,
{
    proof {
        reveal(wf_class_refs);
    }
    let (access_flags, p6) = read_u16(b, pos)?;
    let (this_class_index, p7) = read_u16(b, p6)?;
    let (super_class_index, p8) = read_u16(b, p7)?;
    let (interfaces_count, p9) = read_u16(b, p8)?;
    proof {
        lemma_be16_value(access_flags);
        lemma_be16_value(this_class_index);
        lemma_be16_value(super_class_index);
        lemma_be16_value(interfaces_count);
    }
    if access_flags & ACC_CLASS_UNKNOWN_MASK != 0 {
        return Err(ClassLoadingError::ClassFormatError);
    }
    let this_class = match lookup_class_name_exec(constant_pool, this_class_index) {
        Some(s) => s,
        None => {
            return Err(ClassLoadingError::ClassFormatError);
        },
    };
    let super_class = if super_class_index == 0 {
        None
    } else {
        match lookup_class_name_exec(constant_pool, super_class_index) {
            Some(s) => Some(ClassRef::Symbolic(s)),
            None => {
                return Err(ClassLoadingError::ClassFormatError);
            },
        }
    };
    let ((interface_indices, interfaces), end) = read_interfaces(
        b,
        p9,
        interfaces_count,
        constant_pool,
    )?;
    let t = ClassRefsPart {
        access_flags,
        this_class_index,
        this_class,
        super_class_index,
        super_class,
        interfaces_count,
        interface_indices,
        interfaces,
    };
    proof {
        lemma_subrange_join(b@, p8 as int, p9 as int, end as int);
        lemma_subrange_join(b@, p7 as int, p8 as int, end as int);
        lemma_subrange_join(b@, p6 as int, p7 as int, end as int);
        lemma_subrange_join(b@, pos as int, p6 as int, end as int);
        assert(enc_class_refs(t) =~= b@.subrange(pos as int, end as int));
    }
    Ok((t, end))
}

/// Decodes the member region after the references.
#[verifier::rlimit(100)]
fn read_class_members(
    b: &Vec<u8>,
    pos: usize,
    constant_pool: &ConstantPool,
    this_class: &str,
) -> (r: Result<(ClassMembersPart, usize), ClassLoadingError>)
    requires
        pos <= b@.len(),
    ensures
        r matches Ok(t) ==> {
            &&& parse_class_members(b@, constant_pool.texts(), pos as int) == Some(t.1 as int)
            &&& pos <= t.1 <= b@.len()
            &&& enc_class_members(t.0) == b@.subrange(pos as int, t.1 as int)
            &&& wf_class_members(t.0, constant_pool.texts(), this_class@)
        },
        r is Err ==> parse_class_members(b@, constant_pool.texts(), pos as int) is None && r
            == Err::<(ClassMembersPart, usize), _>(ClassLoadingError::ClassFormatError),
        parse_class_members(b@, constant_pool.texts(), pos as int) is Some ==> r is Ok,
{
    proof {
        reveal(wf_class_members);
    }
    let (fields_count, p11) = read_u16(b, pos)?;
    proof {
        lemma_be16_value(fields_count);
    }
    let (fields, p12) = read_fields(b, p11, fields_count, constant_pool, this_class)?;
    let (methods_count, p13) = read_u16(b, p12)?;
    proof {
        lemma_be16_value(methods_count);
    }
    let (methods, p14) = read_methods(b, p13, methods_count, constant_pool, this_class)?;
    let (attributes_count, p15) = read_u16(b, p14)?;
    proof {
        lemma_be16_value(attributes_count);
    }
    let (attributes, end) = read_attributes(b, p15, attributes_count, constant_pool)?;
    let t = ClassMembersPart {
        fields_count,
        fields,
        methods_count,
        methods,
        attributes_count,
        attributes,
    };
    proof {
        lemma_subrange_join(b@, p14 as int, p15 as int, end as int);
        lemma_subrange_join(b@, p13 as int, p14 as int, end as int);
        lemma_subrange_join(b@, p12 as int, p13 as int, end as int);
        lemma_subrange_join(b@, p11 as int, p12 as int, end as int);
        lemma_subrange_join(b@, pos as int, p11 as int, end as int);
        assert(enc_class_members(t) =~= b@.subrange(pos as int, end as int));
    }
    Ok((t, end))
}

/// Assembling the decoded header, pool and regions into a class file
/// yields exactly the parsed prefix of the input, well formed.
#[verifier::rlimit(100)]
proof fn lemma_class_file_assembled(
    b: Seq<u8>,
    cf: ClassFile,
    refs: ClassRefsPart,
    members: ClassMembersPart,
    p5: int,
    p10: int,
    end: int,
)
    requires
        b.len() >= 10,
        be32(cf.magic) == b.subrange(0, 4),
        be16(cf.minor_version) == b.subrange(4, 6),
        be16(cf.major_version) == b.subrange(6, 8),
        cf.major_version <= CURRENT_VERSION,
        be16(cf.constant_pool_count) == b.subrange(8, 10),
        cf.constant_pool_count >= 1,
        parse_cp_list(b, 10, (cf.constant_pool_count - 1) as nat) == Some(p5),
        10 <= p5 <= b.len(),
        enc_cp_slots(cf.constant_pool.slots()) == b.subrange(10, p5),
        wf_cp_slots(cf.constant_pool.slots()),
        cf.constant_pool.slots().len() == cf.constant_pool_count,
        cf.constant_pool.texts() == seq![None::<Seq<char>>] + texts_of(
            b,
            10,
            (cf.constant_pool_count - 1) as nat,
        ),
        cf.constant_pool.class_refs() == seq![None::<u16>] + crefs_of(
            b,
            10,
            (cf.constant_pool_count - 1) as nat,
        ),
        parse_class_refs(b, cf.constant_pool.texts(), cf.constant_pool.class_refs(), p5) == Some(
            p10,
        ),
        p5 <= p10 <= b.len(),
        enc_class_refs(refs) == b.subrange(p5, p10),
        wf_class_refs(refs, cf.constant_pool.texts(), cf.constant_pool.class_refs()),
        parse_class_members(b, cf.constant_pool.texts(), p10) == Some(end),
        p10 <= end <= b.len(),
        enc_class_members(members) == b.subrange(p10, end),
        wf_class_members(members, cf.constant_pool.texts(), refs.this_class@),
        cf.access_flags == refs.access_flags,
        cf.this_class_index == refs.this_class_index,
        cf.this_class == refs.this_class,
        cf.super_class_index == refs.super_class_index,
        cf.super_class == refs.super_class,
        cf.interfaces_count == refs.interfaces_count,
        cf.interface_indices == refs.interface_indices,
        cf.interfaces == refs.interfaces,
        cf.fields_count == members.fields_count,
        cf.fields == members.fields,
        cf.methods_count == members.methods_count,
        cf.methods == members.methods,
        cf.attributes_count == members.attributes_count,
        cf.attributes == members.attributes,
    ensures
        parse_class_file(b) == Some(end),
        end <= b.len(),
        enc_class_file(cf) == b.subrange(0, end),
        wf_class_file(cf),
{
    lemma_be16_value(cf.constant_pool_count);
    assert(be16_value(b.subrange(8, 10)) == cf.constant_pool_count);
    reveal(parse_class_file);
    reveal(wf_class_file);
    reveal(wf_class_refs);
    reveal(wf_class_members);
    assert(parse_class_file(b) == Some(end));
    lemma_subrange_join(b, 0, 4, 6);
    assert(be32(cf.magic) + be16(cf.minor_version) == b.subrange(0, 6));
    lemma_subrange_join(b, 0, 6, 8);
    assert(be32(cf.magic) + be16(cf.minor_version) + be16(cf.major_version) == b.subrange(0, 8));
    lemma_subrange_join(b, 0, 8, 10);
    lemma_subrange_join(b, 0, 10, p5);
    lemma_subrange_join(b, 0, p5, p10);
    lemma_subrange_join(b, 0, p10, end);
    assert(enc_class_refs(refs) == enc_refs_region(
        cf.access_flags,
        cf.this_class_index,
        cf.super_class_index,
        cf.interfaces_count,
        cf.interface_indices@,
    ));
    assert(enc_class_members(members) == enc_members_region(
        cf.fields_count,
        cf.fields@,
        cf.methods_count,
        cf.methods@,
        cf.attributes_count,
        cf.attributes@,
    ));
    assert(enc_class_file(cf) == b.subrange(0, end));
    assert(wf_class_file(cf));
}

impl ClassFile {
    /// Decodes a class file from its bytes: header, constant pool, access
    /// flags, this and super references, interface, field, method and
    /// attribute tables, all fixed-width integers big-endian.  A major
    /// version above the supported ceiling is rejected outright; any
    /// malformed or truncated region is a format fault.  Re-encoding the
    /// result reproduces exactly the bytes consumed.
    #[verifier::rlimit(100)]
    pub fn new(b: &Vec<u8>) -> (r: Result<ClassFile, ClassLoadingError>)
        ensures
            r matches Ok(cf) ==> {
                &&& parse_class_file(b@) == Some(enc_class_file(cf).len() as int)
                &&& enc_class_file(cf).len() <= b@.len()
                &&& enc_class_file(cf) == b@.subrange(0, enc_class_file(cf).len() as int)
                &&& wf_class_file(cf)
            },
            r == Err::<ClassFile, _>(ClassLoadingError::UnsupportedClassVersionError) <==> (b@.len()
                >= 8 && be16_value(b@.subrange(6, 8)) > CURRENT_VERSION),
            r == Err::<ClassFile, _>(ClassLoadingError::ClassFormatError) <==> (b@.len() < 8 || (
            be16_value(b@.subrange(6, 8)) <= CURRENT_VERSION && parse_class_file(b@) is None)),
            r is Ok <==> (b@.len() >= 8 && be16_value(b@.subrange(6, 8)) <= CURRENT_VERSION
                && parse_class_file(b@) is Some),
    {
        let (magic, p1) = read_u32(b, 0)?;
        let (minor_version, p2) = read_u16(b, p1)?;
        let (major_version, p3) = read_u16(b, p2)?;
        proof {
            lemma_be16_value(major_version);
        }
        if major_version > CURRENT_VERSION {
            return Err(ClassLoadingError::UnsupportedClassVersionError);
        }
        let (constant_pool_count, p4) = match read_u16(b, p3) {
            Ok(t) => t,
            Err(e) => {
                proof {
                    reveal(parse_class_file);
                    assert(b@.len() < 10);
                    assert(parse_class_file(b@) is None);
                }
                return Err(e);
            },
        };
        proof {
            lemma_be16_value(constant_pool_count);
        }
        let (constant_pool, p5) = match read_constant_pool(b, p4, constant_pool_count) {
            Ok(t) => t,
            Err(e) => {
                proof {
                    reveal(parse_class_file);
                    assert(parse_class_file(b@) is None);
                }
                return Err(e);
            },
        };
        proof {
            assert(constant_pool.texts() == seq![None::<Seq<char>>] + texts_of(
                b@,
                10,
                (constant_pool_count - 1) as nat,
            ));
            assert(constant_pool.class_refs() == seq![None::<u16>] + crefs_of(
                b@,
                10,
                (constant_pool_count - 1) as nat,
            ));
            reveal(parse_class_file);
            assert(parse_class_file(b@) == parse_class_tail(
                b@,
                constant_pool.texts(),
                constant_pool.class_refs(),
                p5 as int,
            ));
        }
        let (refs, p10) = read_class_refs(b, p5, &constant_pool)?;
        let (members, end) = read_class_members(b, p10, &constant_pool, refs.this_class.as_str())?;
        let ghost grefs = refs;
        let ghost gmembers = members;
        let ClassRefsPart {
            access_flags,
            this_class_index,
            this_class,
            super_class_index,
            super_class,
            interfaces_count,
            interface_indices,
            interfaces,
        } = refs;
        let ClassMembersPart {
            fields_count,
            fields,
            methods_count,
            methods,
            attributes_count,
            attributes,
        } = members;
        let cf = ClassFile {
            magic,
            minor_version,
            major_version,
            constant_pool_count,
            constant_pool,
            access_flags,
            this_class_index,
            this_class,
            super_class_index,
            super_class,
            interfaces_count,
            interface_indices,
            interfaces,
            fields_count,
            fields,
            methods_count,
            methods,
            attributes_count,
            attributes,
        };
        proof {
            lemma_class_file_assembled(
                b@,
                cf,
                grefs,
                gmembers,
                p5 as int,
                p10 as int,
                end as int,
            );
        }
        Ok(cf)
    }
}

/// Decoding a well-formed stream and re-encoding every structural record
/// reproduces the consumed bytes exactly: the decoder guarantees that the
/// byte image of what it built is the parsed prefix of its input, and the
/// writer appends exactly that image.
pub proof fn lemma_decode_encode_round_trip(b: Seq<u8>, cf: ClassFile, out0: Seq<u8>, out1: Seq<u8>)
    requires
        parse_class_file(b) == Some(enc_class_file(cf).len() as int),
        enc_class_file(cf) == b.subrange(0, enc_class_file(cf).len() as int),
        out1 == out0 + enc_class_file(cf),
    ensures
        out1 == out0 + b.subrange(0, enc_class_file(cf).len() as int),
{
}

/// Appends the byte image of a class file, every structural record in
/// order.
pub fn write_class_file(out: &mut Vec<u8>, cf: &ClassFile)
    ensures
        final(out)@ == old(out)@ + enc_class_file(*cf),
{
    write_u32(out, cf.magic);
    write_u16(out, cf.minor_version);
    write_u16(out, cf.major_version);
    write_u16(out, cf.constant_pool_count);
    write_cp_slots(out, &cf.constant_pool);
    write_u16(out, cf.access_flags);
    write_u16(out, cf.this_class_index);
    write_u16(out, cf.super_class_index);
    write_u16(out, cf.interfaces_count);
    crate::attribute::write_u16_seq(out, &cf.interface_indices);
    write_u16(out, cf.fields_count);
    write_fields(out, &cf.fields);
    write_u16(out, cf.methods_count);
    write_methods(out, &cf.methods);
    write_u16(out, cf.attributes_count);
    write_attr_seq(out, &cf.attributes);
    proof {
        assert(out@ =~= old(out)@ + enc_class_file(*cf));
    }
}

} // verus!
