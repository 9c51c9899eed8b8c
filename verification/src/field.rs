//! Field records and the field-descriptor grammar.
//!
//! A field descriptor is a compact textual type: a single letter for a
//! primitive kind, `L<name>;` for a named reference type, or a run of `[`
//! markers followed by a component descriptor for an array type.  The
//! grammar is recursive, and so is the tree it parses into: each `[` marker
//! adds one array level around its component, so a type's dimensionality is
//! its nesting depth.

use vstd::prelude::*;
use vstd::string::StrSliceExecFns;

use crate::attribute::attribute_info;
use crate::attribute::enc_attr_seq;
use crate::attribute::parse_attr_list;
use crate::attribute::read_attributes;
use crate::attribute::write_attr_seq;
use crate::class::ClassRef;
use crate::class_file::ClassLoadingError;
use crate::codec::be16;
use crate::codec::be16_value;
use crate::codec::enc_list;
use crate::codec::lemma_be16_value;
use crate::codec::lemma_enc_list_push;
use crate::codec::lemma_subrange_join;
use crate::codec::parse_list;
use crate::codec::read_u16;
use crate::codec::write_u16;
use crate::constant_pool::text_at;
use crate::constant_pool::ConstantPool;

verus! {

/// Raw data of one field record, as the class file stores it.
#[derive(Debug)]
pub struct field_info {
    pub access_flags: u16,
    pub name_index: u16,
    pub descriptor_index: u16,
    pub attributes_count: u16,
    pub attributes: Vec<attribute_info>,
}

/// The type of a field: a primitive kind, a reference by name, or an array
/// of a component type — the descriptor grammar is recursive, so an array
/// of arrays nests one level per dimensionality marker.
#[derive(Debug)]
pub enum FieldDescriptor {
    Byte,
    Character,
    Double,
    Float,
    Integer,
    Long,
    Reference(ClassRef),
    Short,
    Boolean,
    Array(Box<FieldDescriptor>),
}

/// A named field belonging to a specific class; `info` keeps the raw record
/// the field was decoded from.
#[derive(Debug)]
pub struct FieldInfo {
    pub name: String,
    pub parent_class: ClassRef,
    pub descriptor: FieldDescriptor,
    pub index: u16,
    pub info: field_info,
}

/// A reference to a field of a specific class: by name until resolved, then
/// by position in the owning class's field table.
#[derive(Debug)]
pub enum FieldRef {
    Symbolic(String),
    Static(usize),
}

/// The type a descriptor denotes, at the specification level; a reference
/// carries the referenced class's name, an array its component type.
pub enum SpecFieldDesc {
    Byte,
    Character,
    Double,
    Float,
    Integer,
    Long,
    Reference(Seq<char>),
    Short,
    Boolean,
    Array(Box<SpecFieldDesc>),
}

/// Whether a decoded descriptor denotes the given specification-level type.
pub open spec fn fdesc_matches(d: FieldDescriptor, sd: SpecFieldDesc) -> bool
    decreases d,
{
    match (d, sd) {
        (FieldDescriptor::Byte, SpecFieldDesc::Byte) => true,
        (FieldDescriptor::Character, SpecFieldDesc::Character) => true,
        (FieldDescriptor::Double, SpecFieldDesc::Double) => true,
        (FieldDescriptor::Float, SpecFieldDesc::Float) => true,
        (FieldDescriptor::Integer, SpecFieldDesc::Integer) => true,
        (FieldDescriptor::Long, SpecFieldDesc::Long) => true,
        (FieldDescriptor::Short, SpecFieldDesc::Short) => true,
        (FieldDescriptor::Boolean, SpecFieldDesc::Boolean) => true,
        (FieldDescriptor::Reference(ClassRef::Symbolic(n)), SpecFieldDesc::Reference(sn)) => n@
            == sn,
        (FieldDescriptor::Array(c), SpecFieldDesc::Array(sc)) => fdesc_matches(*c, *sc),
        _ => false,
    }
}

/// The position just past the first `;` at or after `i`.
pub open spec fn sem_end(s: Seq<char>, i: int) -> Option<int>
    decreases s.len() - i,
{
    if i < 0 || i >= s.len() {
        None
    } else if s[i] == ';' {
        Some(i + 1)
    } else {
        sem_end(s, i + 1)
    }
}

/// A found terminator lies past the scan's start and within the text.
pub proof fn lemma_sem_end_bounds(s: Seq<char>, i: int)
    ensures
        sem_end(s, i) matches Some(e) ==> i < e <= s.len(),
    decreases s.len() - i,
{
    if !(i < 0 || i >= s.len()) && s[i] != ';' {
        lemma_sem_end_bounds(s, i + 1);
    }
}

/// The type denoted by the descriptor at `pos` and the position just past
/// it; `None` on any character outside the grammar.
pub open spec fn spec_parse_fdesc(s: Seq<char>, pos: int) -> Option<(SpecFieldDesc, int)>
    decreases s.len() - pos,
{
    if pos < 0 || pos >= s.len() {
        None
    } else if s[pos] == 'B' {
        Some((SpecFieldDesc::Byte, pos + 1))
    } else if s[pos] == 'C' {
        Some((SpecFieldDesc::Character, pos + 1))
    } else if s[pos] == 'D' {
        Some((SpecFieldDesc::Double, pos + 1))
    } else if s[pos] == 'F' {
        Some((SpecFieldDesc::Float, pos + 1))
    } else if s[pos] == 'I' {
        Some((SpecFieldDesc::Integer, pos + 1))
    } else if s[pos] == 'J' {
        Some((SpecFieldDesc::Long, pos + 1))
    } else if s[pos] == 'S' {
        Some((SpecFieldDesc::Short, pos + 1))
    } else if s[pos] == 'Z' {
        Some((SpecFieldDesc::Boolean, pos + 1))
    } else if s[pos] == 'L' {
        match sem_end(s, pos + 1) {
            None => None,
            Some(e) => Some((SpecFieldDesc::Reference(s.subrange(pos + 1, e - 1)), e)),
        }
    } else if s[pos] == '[' {
        match spec_parse_fdesc(s, pos + 1) {
            None => None,
            Some(t) => Some((SpecFieldDesc::Array(Box::new(t.0)), t.1)),
        }
    } else {
        None
    }
}

/// Parses the type of a field from a descriptor, reporting the position
/// just past it so a caller scanning a parameter list can resume.
pub fn parse_field_descriptor(source: &str, pos: usize) -> (r: Result<
    (FieldDescriptor, usize),
    ClassLoadingError,
>)
    ensures
        r matches Ok(t) ==> (spec_parse_fdesc(source@, pos as int) matches Some(st)
            && fdesc_matches(t.0, st.0) && t.1 == st.1 && pos < t.1 <= source@.len()),
        r is Err ==> spec_parse_fdesc(source@, pos as int) is None && r == Err::<
            (FieldDescriptor, usize),
            _,
        >(ClassLoadingError::ClassFormatError),
        spec_parse_fdesc(source@, pos as int) is Some ==> r is Ok,
{
    parse_field_descriptor_index(source, pos)
}

/// Parses one descriptor at `pos`, dispatching on its first character.
fn parse_field_descriptor_index(source: &str, pos: usize) -> (r: Result<
    (FieldDescriptor, usize),
    ClassLoadingError,
>)
    ensures
        r matches Ok(t) ==> (spec_parse_fdesc(source@, pos as int) matches Some(st)
            && fdesc_matches(t.0, st.0) && t.1 == st.1 && pos < t.1 <= source@.len()),
        r is Err ==> spec_parse_fdesc(source@, pos as int) is None && r == Err::<
            (FieldDescriptor, usize),
            _,
        >(ClassLoadingError::ClassFormatError),
        spec_parse_fdesc(source@, pos as int) is Some ==> r is Ok,
    decreases source@.len() - pos, 1int,
{
    let n = source.unicode_len();
    if pos >= n {
        return Err(ClassLoadingError::ClassFormatError);
    }
    let c = source.get_char(pos);
    if c == 'B' {
        Ok((FieldDescriptor::Byte, pos + 1))
    } else if c == 'C' {
        Ok((FieldDescriptor::Character, pos + 1))
    } else if c == 'D' {
        Ok((FieldDescriptor::Double, pos + 1))
    } else if c == 'F' {
        Ok((FieldDescriptor::Float, pos + 1))
    } else if c == 'I' {
        Ok((FieldDescriptor::Integer, pos + 1))
    } else if c == 'J' {
        Ok((FieldDescriptor::Long, pos + 1))
    } else if c == 'S' {
        Ok((FieldDescriptor::Short, pos + 1))
    } else if c == 'Z' {
        Ok((FieldDescriptor::Boolean, pos + 1))
    } else if c == 'L' {
        parse_field_descriptor_reference(source, pos)
    } else if c == '[' {
        parse_field_descriptor_array(source, pos)
    } else {
        Err(ClassLoadingError::ClassFormatError)
    }
}

/// Parses a reference type such as `Ljava/lang/Object;`.
fn parse_field_descriptor_reference(source: &str, pos: usize) -> (r: Result<
    (FieldDescriptor, usize),
    ClassLoadingError,
>)
    requires
        pos < source@.len(),
        source@[pos as int] == 'L',
    ensures
        r matches Ok(t) ==> (spec_parse_fdesc(source@, pos as int) matches Some(st)
            && fdesc_matches(t.0, st.0) && t.1 == st.1 && pos < t.1 <= source@.len()),
        r is Err ==> spec_parse_fdesc(source@, pos as int) is None && r == Err::<
            (FieldDescriptor, usize),
            _,
        >(ClassLoadingError::ClassFormatError),
        spec_parse_fdesc(source@, pos as int) is Some ==> r is Ok,
    decreases source@.len() - pos, 0int,
{
    let n = source.unicode_len();
    let mut i: usize = pos + 1;
    while i < n && source.get_char(i) != ';'
        invariant
            pos + 1 <= i <= n,
            n == source@.len(),
            pos < source@.len(),
            source@[pos as int] == 'L',
            sem_end(source@, i as int) == sem_end(source@, pos + 1),
        decreases n - i,
    {
        i = i + 1;
    }
    if i >= n {
        proof {
            assert(sem_end(source@, i as int) is None);
        }
        return Err(ClassLoadingError::ClassFormatError);
    }
    let name = source.substring_char(pos + 1, i).to_owned();
    proof {
        assert(sem_end(source@, i as int) == Some(i + 1));
    }
    Ok((FieldDescriptor::Reference(ClassRef::Symbolic(name)), i + 1))
}

/// Parses an array type such as `[[I`: one array level per dimensionality
/// marker, around the component the markers precede.
fn parse_field_descriptor_array(source: &str, pos: usize) -> (r: Result<
    (FieldDescriptor, usize),
    ClassLoadingError,
>)
    requires
        pos < source@.len(),
        source@[pos as int] == '[',
    ensures
        r matches Ok(t) ==> (spec_parse_fdesc(source@, pos as int) matches Some(st)
            && fdesc_matches(t.0, st.0) && t.1 == st.1 && pos < t.1 <= source@.len()),
        r is Err ==> spec_parse_fdesc(source@, pos as int) is None && r == Err::<
            (FieldDescriptor, usize),
            _,
        >(ClassLoadingError::ClassFormatError),
        spec_parse_fdesc(source@, pos as int) is Some ==> r is Ok,
    decreases source@.len() - pos, 0int,
{
    let n = source.unicode_len();
    let (component, end) = match parse_field_descriptor_index(source, pos + 1) {
        Ok(t) => t,
        Err(e) => {
            return Err(e);
        },
    };
    Ok((FieldDescriptor::Array(Box::new(component)), end))
}

// ---------------------------------------------------------------------------
// Field records
// ---------------------------------------------------------------------------

/// The byte image of one raw field record.
pub open spec fn enc_field_info(fi: field_info) -> Seq<u8> {
    be16(fi.access_flags) + be16(fi.name_index) + be16(fi.descriptor_index) + be16(
        fi.attributes_count,
    ) + enc_attr_seq(fi.attributes@)
}

/// Where one raw field record starting at `pos` ends.
pub open spec fn parse_field_info(b: Seq<u8>, texts: Seq<Option<Seq<char>>>, pos: int) -> Option<
    int,
> {
    if pos < 0 || pos + 8 > b.len() {
        None
    } else {
        parse_attr_list(b, texts, pos + 8, be16_value(b.subrange(pos + 6, pos + 8)) as nat)
    }
}

/// Where one field record starting at `pos` ends, including the checks the
/// decoder makes on it: its name and descriptor must be pool texts and its
/// descriptor must parse.
pub open spec fn parse_field_rec(b: Seq<u8>, texts: Seq<Option<Seq<char>>>, pos: int) -> Option<
    int,
> {
    match parse_field_info(b, texts, pos) {
        None => None,
        Some(end) => {
            let nt = text_at(texts, be16_value(b.subrange(pos + 2, pos + 4)));
            let dt = text_at(texts, be16_value(b.subrange(pos + 4, pos + 6)));
            if nt is Some && dt is Some && spec_parse_fdesc(dt->0, 0) is Some {
                Some(end)
            } else {
                None
            }
        },
    }
}

/// Where a run of `n` field records starting at `pos` ends.
pub open spec fn parse_field_list(b: Seq<u8>, texts: Seq<Option<Seq<char>>>, pos: int, n: nat) -> Option<
    int,
> {
    parse_list(b, pos, n, |bb: Seq<u8>, p: int| parse_field_rec(bb, texts, p))
}

/// The checks the decoder makes on one decoded field: its name and
/// descriptor come from the pool, its descriptor parses to its type, and it
/// belongs to the declaring class.
pub open spec fn wf_field(
    f: FieldInfo,
    texts: Seq<Option<Seq<char>>>,
    self_name: Seq<char>,
    idx: int,
) -> bool {
    &&& crate::attribute::wf_attr_seq(texts, f.info.attributes@)
    &&& f.info.attributes@.len() == f.info.attributes_count
    &&& text_at(texts, f.info.name_index as int) == Some(f.name@)
    &&& (text_at(texts, f.info.descriptor_index as int) matches Some(dt) && (spec_parse_fdesc(
        dt,
        0,
    ) matches Some(st) && fdesc_matches(f.descriptor, st.0)))
    &&& (f.parent_class matches ClassRef::Symbolic(p) && p@ == self_name)
    &&& f.index == idx
}

impl field_info {
    /// Decodes one raw field record at `pos`.
    fn new(b: &Vec<u8>, pos: usize, constant_pool: &ConstantPool) -> (r: Result<
        (field_info, usize),
        ClassLoadingError,
    >)
        ensures
            r matches Ok(t) ==> {
                &&& parse_field_info(b@, constant_pool.texts(), pos as int) == Some(t.1 as int)
                &&& pos + 8 <= t.1 <= b@.len()
                &&& enc_field_info(t.0) == b@.subrange(pos as int, t.1 as int)
                &&& t.0.name_index == be16_value(b@.subrange(pos + 2, pos + 4))
                &&& t.0.descriptor_index == be16_value(b@.subrange(pos + 4, pos + 6))
                &&& crate::attribute::wf_attr_seq(constant_pool.texts(), t.0.attributes@)
                &&& t.0.attributes@.len() == t.0.attributes_count
            },
            r is Err ==> parse_field_info(b@, constant_pool.texts(), pos as int) is None && r
                == Err::<(field_info, usize), _>(ClassLoadingError::ClassFormatError),
            parse_field_info(b@, constant_pool.texts(), pos as int) is Some ==> r is Ok,
    {
        let (access_flags, p1) = read_u16(b, pos)?;
        let (name_index, p2) = read_u16(b, p1)?;
        let (descriptor_index, p3) = read_u16(b, p2)?;
        let (attributes_count, p4) = read_u16(b, p3)?;
        proof {
            lemma_be16_value(name_index);
            lemma_be16_value(descriptor_index);
            lemma_be16_value(attributes_count);
        }
        let (attributes, end) = read_attributes(b, p4, attributes_count, constant_pool)?;
        let fi = field_info { access_flags, name_index, descriptor_index, attributes_count, attributes };
        proof {
            lemma_subrange_join(b@, p3 as int, p4 as int, end as int);
            lemma_subrange_join(b@, p2 as int, p3 as int, end as int);
            lemma_subrange_join(b@, p1 as int, p2 as int, end as int);
            lemma_subrange_join(b@, pos as int, p1 as int, end as int);
        }
        Ok((fi, end))
    }
}

/// Appends the byte image of one raw field record.
pub fn write_field_info(out: &mut Vec<u8>, fi: &field_info)
    ensures
        final(out)@ == old(out)@ + enc_field_info(*fi),
{
    write_u16(out, fi.access_flags);
    write_u16(out, fi.name_index);
    write_u16(out, fi.descriptor_index);
    write_u16(out, fi.attributes_count);
    write_attr_seq(out, &fi.attributes);
    proof {
        assert(out@ =~= old(out)@ + enc_field_info(*fi));
    }
}

/// Appends the byte image of a field table, from the raw record each field
/// keeps.
pub fn write_fields(out: &mut Vec<u8>, s: &Vec<FieldInfo>)
    ensures
        final(out)@ == old(out)@ + enc_list(s@, |f: FieldInfo| enc_field_info(f.info)),
{
    proof {
        assert(enc_list(s@.subrange(0, 0), |f: FieldInfo| enc_field_info(f.info)) =~= Seq::<
            u8,
        >::empty());
        assert(out@ =~= out@ + enc_list(s@.subrange(0, 0), |f: FieldInfo| enc_field_info(f.info)));
    }
    let mut i: usize = 0;
    while i < s.len()
        invariant
            i <= s@.len(),
            out@ == old(out)@ + enc_list(
                s@.subrange(0, i as int),
                |f: FieldInfo| enc_field_info(f.info),
            ),
        decreases s@.len() - i,
    {
        write_field_info(out, &s[i].info);
        proof {
            assert(s@.subrange(0, i + 1) =~= s@.subrange(0, i as int).push(s@[i as int]));
            lemma_enc_list_push(s@.subrange(0, i as int), s@[i as int], |f: FieldInfo| enc_field_info(f.info));
        }
        i = i + 1;
    }
    proof {
        assert(s@.subrange(0, s@.len() as int) =~= s@);
    }
}

/// Reads the field table from a class file: each raw record is decoded,
/// its name and descriptor are looked up in the pool, and its descriptor
/// text is parsed into the field's type.
pub fn read_fields(
    b: &Vec<u8>,
    pos: usize,
    length: u16,
    constant_pool: &ConstantPool,
    self_reference_name: &str,
) -> (r: Result<(Vec<FieldInfo>, usize), ClassLoadingError>)
    requires
        pos <= b@.len(),
    ensures
        r matches Ok(t) ==> {
            &&& parse_field_list(b@, constant_pool.texts(), pos as int, length as nat) == Some(
                t.1 as int,
            )
            &&& pos <= t.1 <= b@.len()
            &&& enc_list(t.0@, |f: FieldInfo| enc_field_info(f.info)) == b@.subrange(
                pos as int,
                t.1 as int,
            )
            &&& t.0@.len() == length
            &&& forall|i: int|
                0 <= i < length ==> wf_field(
                    #[trigger] t.0@[i],
                    constant_pool.texts(),
                    self_reference_name@,
                    i,
                )
        },
        r is Err ==> parse_field_list(b@, constant_pool.texts(), pos as int, length as nat) is None
            && r == Err::<(Vec<FieldInfo>, usize), _>(ClassLoadingError::ClassFormatError),
        parse_field_list(b@, constant_pool.texts(), pos as int, length as nat) is Some ==> r is Ok,
{
    let mut v: Vec<FieldInfo> = Vec::new();
    let mut cur: usize = pos;
    let mut index: u16 = 0;
    proof {
        assert(enc_list(v@, |f: FieldInfo| enc_field_info(f.info)) =~= b@.subrange(
            pos as int,
            pos as int,
        ));
    }
    while index < length
        invariant
            pos <= cur <= b@.len(),
            index <= length,
            v@.len() == index,
            enc_list(v@, |f: FieldInfo| enc_field_info(f.info)) == b@.subrange(
                pos as int,
                cur as int,
            ),
            parse_field_list(b@, constant_pool.texts(), cur as int, (length - index) as nat)
                == parse_field_list(b@, constant_pool.texts(), pos as int, length as nat),
            forall|i: int|
                0 <= i < index ==> wf_field(
                    #[trigger] v@[i],
                    constant_pool.texts(),
                    self_reference_name@,
                    i,
                ),
        decreases length - index,
    {
        let (field_meta, end) = match field_info::new(b, cur, constant_pool) {
            Ok(t) => t,
            Err(e) => {
                proof {
                    assert(parse_field_rec(b@, constant_pool.texts(), cur as int) is None);
                }
                return Err(e);
            },
        };
        let name = match constant_pool.get_string_entry(field_meta.name_index) {
            Some(s) => s.clone(),
            None => {
                proof {
                    assert(text_at(constant_pool.texts(), field_meta.name_index as int)
                        == constant_pool.spec_text(field_meta.name_index as int));
                    assert(parse_field_rec(b@, constant_pool.texts(), cur as int) is None);
                }
                return Err(ClassLoadingError::ClassFormatError);
            },
        };
        let descriptor_str = match constant_pool.get_string_entry(field_meta.descriptor_index) {
            Some(s) => s,
            None => {
                proof {
                    assert(text_at(constant_pool.texts(), field_meta.descriptor_index as int)
                        == constant_pool.spec_text(field_meta.descriptor_index as int));
                    assert(parse_field_rec(b@, constant_pool.texts(), cur as int) is None);
                }
                return Err(ClassLoadingError::ClassFormatError);
            },
        };
        let (descriptor, _desc_end) = match parse_field_descriptor(descriptor_str.as_str(), 0) {
            Ok(t) => t,
            Err(e) => {
                proof {
                    assert(text_at(constant_pool.texts(), field_meta.descriptor_index as int)
                        == constant_pool.spec_text(field_meta.descriptor_index as int));
                    assert(parse_field_rec(b@, constant_pool.texts(), cur as int) is None);
                }
                return Err(e);
            },
        };
        let rec = FieldInfo {
            name,
            parent_class: ClassRef::Symbolic(self_reference_name.to_owned()),
            descriptor,
            index,
            info: field_meta,
        };
        let ghost grec = rec;
        let ghost prev = v@;
        v.push(rec);
        proof {
            assert(text_at(constant_pool.texts(), grec.info.name_index as int)
                == constant_pool.spec_text(grec.info.name_index as int));
            assert(text_at(constant_pool.texts(), grec.info.descriptor_index as int)
                == constant_pool.spec_text(grec.info.descriptor_index as int));
            assert(wf_field(grec, constant_pool.texts(), self_reference_name@, index as int));
            lemma_enc_list_push(prev, grec, |f: FieldInfo| enc_field_info(f.info));
            lemma_subrange_join(b@, pos as int, cur as int, end as int);
            assert(parse_field_rec(b@, constant_pool.texts(), cur as int) == Some(end as int));
        }
        cur = end;
        index = index + 1;
    }
    Ok((v, cur))
}

} // verus!
