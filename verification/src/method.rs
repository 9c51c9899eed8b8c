//! Method records and the method-descriptor grammar.
//!
//! A method descriptor is `(` followed by field descriptors for the
//! parameters, `)`, and a return descriptor: a field descriptor or `V` for
//! void.

use vstd::prelude::*;
use vstd::string::StrSliceExecFns;

use crate::attribute::attribute_info;
use crate::attribute::attribute_info_Data;
use crate::attribute::enc_attr_seq;
use crate::attribute::parse_attr_list;
use crate::attribute::read_attributes;
use crate::attribute::write_attr_seq;
use crate::class::ClassRef;
use crate::class_file::ClassLoadingError;
use crate::codec::be16;
use crate::codec::be16_value;
use crate::codec::enc_list;
use crate::codec::lemma_be16_value;
use crate::codec::lemma_enc_list_push;
use crate::codec::lemma_subrange_join;
use crate::codec::parse_list;
use crate::codec::read_u16;
use crate::codec::write_u16;
use crate::constant_pool::text_at;
use crate::constant_pool::ConstantPool;
use crate::field::fdesc_matches;
use crate::field::parse_field_descriptor;
use crate::field::spec_parse_fdesc;
use crate::field::FieldDescriptor;
use crate::field::SpecFieldDesc;

verus! {

/// Raw data of one method record, as the class file stores it.
#[derive(Debug)]
pub struct method_info {
    pub access_flags: u16,
    pub name_index: u16,
    pub descriptor_index: u16,
    pub attributes_count: u16,
    pub attributes: Vec<attribute_info>,
}

/// The signature of a method.
#[derive(Debug)]
pub struct MethodDescriptor {
    pub parameters: Vec<FieldDescriptor>,
    pub return_type: ReturnDescriptor,
}

/// The return type of a method.
#[derive(Debug)]
pub enum ReturnDescriptor {
    Value(FieldDescriptor),
    Void,
}

/// A reference to a named method of a specific class: by name until
/// resolved, then by position in the owning class's method table.
#[derive(Debug)]
pub enum MethodRef {
    Symbolic(String),
    Static(usize),
}

/// A named method belonging to a specific class; `info` keeps the raw
/// record the method was decoded from.
#[derive(Debug)]
pub struct MethodInfo {
    pub name: String,
    pub parent_class: ClassRef,
    pub descriptor: MethodDescriptor,
    pub code: Option<Vec<u8>>,
    pub info: method_info,
}

/// A method signature at the specification level.
pub struct SpecMethodDesc {
    pub params: Seq<SpecFieldDesc>,
    pub ret: SpecReturnDesc,
}

pub enum SpecReturnDesc {
    Value(SpecFieldDesc),
    Void,
}

/// Whether a decoded signature denotes the given specification-level one.
pub open spec fn mdesc_matches(m: MethodDescriptor, sm: SpecMethodDesc) -> bool {
    &&& m.parameters@.len() == sm.params.len()
    &&& forall|i: int|
        0 <= i < sm.params.len() ==> fdesc_matches(#[trigger] m.parameters@[i], sm.params[i])
    &&& match (m.return_type, sm.ret) {
        (ReturnDescriptor::Void, SpecReturnDesc::Void) => true,
        (ReturnDescriptor::Value(d), SpecReturnDesc::Value(sd)) => fdesc_matches(d, sd),
        _ => false,
    }
}

/// The parameter types read from `pos` up to the closing parenthesis, and
/// the position just past it.
pub open spec fn spec_parse_params(s: Seq<char>, pos: int) -> Option<(Seq<SpecFieldDesc>, int)>
    decreases s.len() - pos,
{
    if pos < 0 || pos >= s.len() {
        None
    } else if s[pos] == ')' {
        Some((Seq::empty(), pos + 1))
    } else {
        match spec_parse_fdesc(s, pos) {
            None => None,
            Some(t) => {
                if t.1 <= pos || t.1 > s.len() {
                    None
                } else {
                    match spec_parse_params(s, t.1) {
                        None => None,
                        Some(rest) => Some((seq![t.0] + rest.0, rest.1)),
                    }
                }
            },
        }
    }
}

/// The return type read at `pos`.
pub open spec fn spec_parse_ret(s: Seq<char>, pos: int) -> Option<(SpecReturnDesc, int)> {
    if pos < 0 || pos >= s.len() {
        None
    } else if s[pos] == 'V' {
        Some((SpecReturnDesc::Void, pos + 1))
    } else {
        match spec_parse_fdesc(s, pos) {
            None => None,
            Some(t) => Some((SpecReturnDesc::Value(t.0), t.1)),
        }
    }
}

/// The signature a method descriptor denotes.
pub open spec fn spec_parse_mdesc(s: Seq<char>) -> Option<(SpecMethodDesc, int)> {
    if s.len() == 0 || s[0] != '(' {
        None
    } else {
        match spec_parse_params(s, 1) {
            None => None,
            Some(ps) => {
                match spec_parse_ret(s, ps.1) {
                    None => None,
                    Some(rd) => Some((SpecMethodDesc { params: ps.0, ret: rd.0 }, rd.1)),
                }
            },
        }
    }
}

/// Parses a method signature from a descriptor; any character outside the
/// grammar is a format fault.
fn parse_method_descriptor(source: &str) -> (r: Result<MethodDescriptor, ClassLoadingError>)
    ensures
        r matches Ok(m) ==> (spec_parse_mdesc(source@) matches Some(t) && mdesc_matches(m, t.0)),
        r is Err ==> spec_parse_mdesc(source@) is None && r == Err::<
            MethodDescriptor,
            _,
        >(ClassLoadingError::ClassFormatError),
        spec_parse_mdesc(source@) is Some ==> r is Ok,
{
    let n = source.unicode_len();
    if n == 0 || source.get_char(0) != '(' {
        return Err(ClassLoadingError::ClassFormatError);
    }
    let mut parameters: Vec<FieldDescriptor> = Vec::new();
    let ghost mut gspecs: Seq<SpecFieldDesc> = Seq::empty();
    let mut cur: usize = 1;
    while cur < n && source.get_char(cur) != ')'
        invariant
            1 <= cur <= n,
            n == source@.len(),
            source@[0] == '(',
            parameters@.len() == gspecs.len(),
            forall|i: int|
                0 <= i < gspecs.len() ==> fdesc_matches(#[trigger] parameters@[i], gspecs[i]),
            match spec_parse_params(source@, cur as int) {
                None => spec_parse_params(source@, 1) is None,
                Some(t) => spec_parse_params(source@, 1) == Some((gspecs + t.0, t.1)),
            },
        decreases n - cur,
    {
        let (d, e) = match parse_field_descriptor(source, cur) {
            Ok(t) => t,
            Err(er) => {
                proof {
                    assert(spec_parse_params(source@, cur as int) is None);
                }
                return Err(er);
            },
        };
        let ghost gd = d;
        parameters.push(d);
        proof {
            match spec_parse_fdesc(source@, cur as int) {
                Some(st) => {
                    gspecs = gspecs.push(st.0);
                    assert(forall|rest: Seq<SpecFieldDesc>|
                        (gspecs.drop_last() + (seq![st.0] + rest)) =~= gspecs + rest);
                },
                None => {
                    assert(false);
                },
            }
        }
        cur = e;
    }
    if cur >= n {
        proof {
            assert(spec_parse_params(source@, cur as int) is None);
        }
        return Err(ClassLoadingError::ClassFormatError);
    }
    proof {
        assert(spec_parse_params(source@, cur as int) == Some((
            Seq::<SpecFieldDesc>::empty(),
            cur + 1,
        )));
        assert(gspecs + Seq::<SpecFieldDesc>::empty() =~= gspecs);
    }
    let after = cur + 1;
    let return_type = match parse_return_descriptor(source, after) {
        Ok(t) => t.0,
        Err(e) => {
            return Err(e);
        },
    };
    Ok(MethodDescriptor { parameters, return_type })
}

/// Parses a return descriptor: a field descriptor, or `V` for void.
fn parse_return_descriptor(source: &str, pos: usize) -> (r: Result<
    (ReturnDescriptor, usize),
    ClassLoadingError,
>)
    ensures
        r matches Ok(t) ==> (spec_parse_ret(source@, pos as int) matches Some(st) && t.1 == st.1
            && match (t.0, st.0) {
            (ReturnDescriptor::Void, SpecReturnDesc::Void) => true,
            (ReturnDescriptor::Value(d), SpecReturnDesc::Value(sd)) => fdesc_matches(d, sd),
            _ => false,
        }),
        r is Err ==> spec_parse_ret(source@, pos as int) is None && r == Err::<
            (ReturnDescriptor, usize),
            _,
        >(ClassLoadingError::ClassFormatError),
        spec_parse_ret(source@, pos as int) is Some ==> r is Ok,
{
    let n = source.unicode_len();
    if pos >= n {
        return Err(ClassLoadingError::ClassFormatError);
    }
    if source.get_char(pos) == 'V' {
        Ok((ReturnDescriptor::Void, pos + 1))
    } else {
        let (d, e) = parse_field_descriptor(source, pos)?;
        Ok((ReturnDescriptor::Value(d), e))
    }
}

/// The code block of the first `Code` attribute in a table, where there is
/// one.
pub open spec fn spec_get_code(s: Seq<attribute_info>) -> Option<Seq<u8>>
    decreases s.len(),
{
    if s.len() == 0 {
        None
    } else {
        match s[0].info {
            attribute_info_Data::Code_attribute {
                max_stack,
                max_locals,
                code_length,
                code,
                exception_table_length,
                exception_table,
                attributes_count,
                attributes,
            } => Some(code@),
            _ => spec_get_code(s.drop_first()),
        }
    }
}

/// The bytecode of the first `Code` attribute, where the table has one.
pub fn get_code(attributes: &Vec<attribute_info>) -> (r: Option<Vec<u8>>)
    ensures
        match r {
            Some(c) => spec_get_code(attributes@) == Some(c@),
            None => spec_get_code(attributes@) is None,
        },
{
    proof {
        assert(attributes@.skip(0) =~= attributes@);
    }
    let mut i: usize = 0;
    while i < attributes.len()
        invariant
            i <= attributes@.len(),
            spec_get_code(attributes@) == spec_get_code(attributes@.skip(i as int)),
        decreases attributes@.len() - i,
    {
        let ghost before = attributes@.skip(i as int);
        match attributes[i].get_data() {
            attribute_info_Data::Code_attribute { code, .. } => {
                let r = vstd::slice::slice_to_vec(code.as_slice());
                proof {
                    assert(before[0] == attributes@[i as int]);
                }
                return Some(r);
            },
            _ => {},
        }
        proof {
            assert(before[0] == attributes@[i as int]);
            assert(before.drop_first() =~= attributes@.skip(i + 1));
        }
        i = i + 1;
    }
    proof {
        assert(attributes@.skip(attributes@.len() as int).len() == 0);
    }
    None
}

// ---------------------------------------------------------------------------
// Method records
// ---------------------------------------------------------------------------

/// The byte image of one raw method record.
pub open spec fn enc_method_info(mi: method_info) -> Seq<u8> {
    be16(mi.access_flags) + be16(mi.name_index) + be16(mi.descriptor_index) + be16(
        mi.attributes_count,
    ) + enc_attr_seq(mi.attributes@)
}

/// Where one raw method record starting at `pos` ends.
pub open spec fn parse_method_info(b: Seq<u8>, texts: Seq<Option<Seq<char>>>, pos: int) -> Option<
    int,
> {
    if pos < 0 || pos + 8 > b.len() {
        None
    } else {
        parse_attr_list(b, texts, pos + 8, be16_value(b.subrange(pos + 6, pos + 8)) as nat)
    }
}

/// Where one method record starting at `pos` ends, including the checks the
/// decoder makes on it: its name and descriptor must be pool texts and its
/// descriptor must parse.
pub open spec fn parse_method_rec(b: Seq<u8>, texts: Seq<Option<Seq<char>>>, pos: int) -> Option<
    int,
> {
    match parse_method_info(b, texts, pos) {
        None => None,
        Some(end) => {
            let nt = text_at(texts, be16_value(b.subrange(pos + 2, pos + 4)));
            let dt = text_at(texts, be16_value(b.subrange(pos + 4, pos + 6)));
            if nt is Some && dt is Some && spec_parse_mdesc(dt->0) is Some {
                Some(end)
            } else {
                None
            }
        },
    }
}

/// Where a run of `n` method records starting at `pos` ends.
pub open spec fn parse_method_list(b: Seq<u8>, texts: Seq<Option<Seq<char>>>, pos: int, n: nat) -> Option<
    int,
> {
    parse_list(b, pos, n, |bb: Seq<u8>, p: int| parse_method_rec(bb, texts, p))
}

/// The checks the decoder makes on one decoded method: its name and
/// descriptor come from the pool, its descriptor parses to its signature,
/// it belongs to the declaring class, and its code is that of its first
/// `Code` attribute.
pub open spec fn wf_method(m: MethodInfo, texts: Seq<Option<Seq<char>>>, self_name: Seq<char>) -> bool {
    &&& crate::attribute::wf_attr_seq(texts, m.info.attributes@)
    &&& m.info.attributes@.len() == m.info.attributes_count
    &&& text_at(texts, m.info.name_index as int) == Some(m.name@)
    &&& (text_at(texts, m.info.descriptor_index as int) matches Some(dt) && (spec_parse_mdesc(dt)
        matches Some(st) && mdesc_matches(m.descriptor, st.0)))
    &&& (m.parent_class matches ClassRef::Symbolic(p) && p@ == self_name)
    &&& match m.code {
        Some(c) => spec_get_code(m.info.attributes@) == Some(c@),
        None => spec_get_code(m.info.attributes@) is None,
    }
}

impl method_info {
    /// Decodes one raw method record at `pos`.
    pub fn new(b: &Vec<u8>, pos: usize, constant_pool: &ConstantPool) -> (r: Result<
        (method_info, usize),
        ClassLoadingError,
    >)
        ensures
            r matches Ok(t) ==> {
                &&& parse_method_info(b@, constant_pool.texts(), pos as int) == Some(t.1 as int)
                &&& pos + 8 <= t.1 <= b@.len()
                &&& enc_method_info(t.0) == b@.subrange(pos as int, t.1 as int)
                &&& t.0.name_index == be16_value(b@.subrange(pos + 2, pos + 4))
                &&& t.0.descriptor_index == be16_value(b@.subrange(pos + 4, pos + 6))
                &&& crate::attribute::wf_attr_seq(constant_pool.texts(), t.0.attributes@)
                &&& t.0.attributes@.len() == t.0.attributes_count
            },
            r is Err ==> parse_method_info(b@, constant_pool.texts(), pos as int) is None && r
                == Err::<(method_info, usize), _>(ClassLoadingError::ClassFormatError),
            parse_method_info(b@, constant_pool.texts(), pos as int) is Some ==> r is Ok,
    {
        let (access_flags, p1) = read_u16(b, pos)?;
        let (name_index, p2) = read_u16(b, p1)?;
        let (descriptor_index, p3) = read_u16(b, p2)?;
        let (attributes_count, p4) = read_u16(b, p3)?;
        proof {
            lemma_be16_value(name_index);
            lemma_be16_value(descriptor_index);
            lemma_be16_value(attributes_count);
        }
        let (attributes, end) = read_attributes(b, p4, attributes_count, constant_pool)?;
        let mi = method_info {
            access_flags,
            name_index,
            descriptor_index,
            attributes_count,
            attributes,
        };
        proof {
            lemma_subrange_join(b@, p3 as int, p4 as int, end as int);
            lemma_subrange_join(b@, p2 as int, p3 as int, end as int);
            lemma_subrange_join(b@, p1 as int, p2 as int, end as int);
            lemma_subrange_join(b@, pos as int, p1 as int, end as int);
        }
        Ok((mi, end))
    }
}

/// Appends the byte image of one raw method record.
pub fn write_method_info(out: &mut Vec<u8>, mi: &method_info)
    ensures
        final(out)@ == old(out)@ + enc_method_info(*mi),
{
    write_u16(out, mi.access_flags);
    write_u16(out, mi.name_index);
    write_u16(out, mi.descriptor_index);
    write_u16(out, mi.attributes_count);
    write_attr_seq(out, &mi.attributes);
    proof {
        assert(out@ =~= old(out)@ + enc_method_info(*mi));
    }
}

/// Appends the byte image of a method table, from the raw record each
/// method keeps.
pub fn write_methods(out: &mut Vec<u8>, s: &Vec<MethodInfo>)
    ensures
        final(out)@ == old(out)@ + enc_list(s@, |m: MethodInfo| enc_method_info(m.info)),
{
    proof {
        assert(enc_list(s@.subrange(0, 0), |m: MethodInfo| enc_method_info(m.info)) =~= Seq::<
            u8,
        >::empty());
        assert(out@ =~= out@ + enc_list(s@.subrange(0, 0), |m: MethodInfo| enc_method_info(m.info)));
    }
    let mut i: usize = 0;
    while i < s.len()
        invariant
            i <= s@.len(),
            out@ == old(out)@ + enc_list(
                s@.subrange(0, i as int),
                |m: MethodInfo| enc_method_info(m.info),
            ),
        decreases s@.len() - i,
    {
        write_method_info(out, &s[i].info);
        proof {
            assert(s@.subrange(0, i + 1) =~= s@.subrange(0, i as int).push(s@[i as int]));
            lemma_enc_list_push(
                s@.subrange(0, i as int),
                s@[i as int],
                |m: MethodInfo| enc_method_info(m.info),
            );
        }
        i = i + 1;
    }
    proof {
        assert(s@.subrange(0, s@.len() as int) =~= s@);
    }
}

/// Reads the method table from a class file: each raw record is decoded,
/// its name and descriptor are looked up in the pool, its descriptor text
/// is parsed into the method's signature, and its bytecode is taken from
/// its first `Code` attribute.
pub fn read_methods(
    b: &Vec<u8>,
    pos: usize,
    length: u16,
    constant_pool: &ConstantPool,
    self_reference_name: &str,
) -> (r: Result<(Vec<MethodInfo>, usize), ClassLoadingError>)
    requires
        pos <= b@.len(),
    ensures
        r matches Ok(t) ==> {
            &&& parse_method_list(b@, constant_pool.texts(), pos as int, length as nat) == Some(
                t.1 as int,
            )
            &&& pos <= t.1 <= b@.len()
            &&& enc_list(t.0@, |m: MethodInfo| enc_method_info(m.info)) == b@.subrange(
                pos as int,
                t.1 as int,
            )
            &&& t.0@.len() == length
            &&& forall|i: int|
                0 <= i < length ==> wf_method(
                    #[trigger] t.0@[i],
                    constant_pool.texts(),
                    self_reference_name@,
                )
        },
        r is Err ==> parse_method_list(b@, constant_pool.texts(), pos as int, length as nat)
            is None && r == Err::<(Vec<MethodInfo>, usize), _>(ClassLoadingError::ClassFormatError),
        parse_method_list(b@, constant_pool.texts(), pos as int, length as nat) is Some ==> r is Ok,
{
    let mut v: Vec<MethodInfo> = Vec::new();
    let mut cur: usize = pos;
    let mut i: u16 = 0;
    proof {
        assert(enc_list(v@, |m: MethodInfo| enc_method_info(m.info)) =~= b@.subrange(
            pos as int,
            pos as int,
        ));
    }
    while i < length
        invariant
            pos <= cur <= b@.len(),
            i <= length,
            v@.len() == i,
            enc_list(v@, |m: MethodInfo| enc_method_info(m.info)) == b@.subrange(
                pos as int,
                cur as int,
            ),
            parse_method_list(b@, constant_pool.texts(), cur as int, (length - i) as nat)
                == parse_method_list(b@, constant_pool.texts(), pos as int, length as nat),
            forall|j: int|
                0 <= j < i ==> wf_method(
                    #[trigger] v@[j],
                    constant_pool.texts(),
                    self_reference_name@,
                ),
        decreases length - i,
    {
        let (method_meta, end) = match method_info::new(b, cur, constant_pool) {
            Ok(t) => t,
            Err(e) => {
                proof {
                    assert(parse_method_rec(b@, constant_pool.texts(), cur as int) is None);
                }
                return Err(e);
            },
        };
        let name = match constant_pool.get_string_entry(method_meta.name_index) {
            Some(s) => s.clone(),
            None => {
                proof {
                    assert(text_at(constant_pool.texts(), method_meta.name_index as int)
                        == constant_pool.spec_text(method_meta.name_index as int));
                    assert(parse_method_rec(b@, constant_pool.texts(), cur as int) is None);
                }
                return Err(ClassLoadingError::ClassFormatError);
            },
        };
        let descriptor_str = match constant_pool.get_string_entry(method_meta.descriptor_index) {
            Some(s) => s,
            None => {
                proof {
                    assert(text_at(constant_pool.texts(), method_meta.descriptor_index as int)
                        == constant_pool.spec_text(method_meta.descriptor_index as int));
                    assert(parse_method_rec(b@, constant_pool.texts(), cur as int) is None);
                }
                return Err(ClassLoadingError::ClassFormatError);
            },
        };
        let descriptor = match parse_method_descriptor(descriptor_str.as_str()) {
            Ok(t) => t,
            Err(e) => {
                proof {
                    assert(text_at(constant_pool.texts(), method_meta.descriptor_index as int)
                        == constant_pool.spec_text(method_meta.descriptor_index as int));
                    assert(parse_method_rec(b@, constant_pool.texts(), cur as int) is None);
                }
                return Err(e);
            },
        };
        let code = get_code(&method_meta.attributes);
        let rec = MethodInfo {
            name,
            parent_class: ClassRef::Symbolic(self_reference_name.to_owned()),
            descriptor,
            code,
            info: method_meta,
        };
        let ghost grec = rec;
        let ghost prev = v@;
        v.push(rec);
        proof {
            assert(text_at(constant_pool.texts(), grec.info.name_index as int)
                == constant_pool.spec_text(grec.info.name_index as int));
            assert(text_at(constant_pool.texts(), grec.info.descriptor_index as int)
                == constant_pool.spec_text(grec.info.descriptor_index as int));
            assert(wf_method(grec, constant_pool.texts(), self_reference_name@));
            lemma_enc_list_push(prev, grec, |m: MethodInfo| enc_method_info(m.info));
            lemma_subrange_join(b@, pos as int, cur as int, end as int);
            assert(parse_method_rec(b@, constant_pool.texts(), cur as int) == Some(end as int));
        }
        cur = end;
        i = i + 1;
    }
    Ok((v, cur))
}

} // verus!
