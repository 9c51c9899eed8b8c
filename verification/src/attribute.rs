//! Attribute records: a closed tagged family of about twenty known shapes
//! plus an opaque fallback for unrecognized names.
//!
//! Dispatch keys on the attribute's name, itself a constant-pool text lookup.
//! The `Code` shape recursively contains its own attribute table; the
//! annotation shapes recursively contain element-value trees.  An
//! unrecognized attribute name is preserved verbatim as an opaque byte blob —
//! never rejected.  A tag outside any closed enumeration here (element-value
//! tag, frame type, verification type) is a hard format fault.

use vstd::prelude::*;

use crate::class_file::ClassLoadingError;
use crate::codec::be16;
use crate::codec::be16_value;
use crate::codec::be32;
use crate::codec::be32_value;
use crate::codec::enc_list;
use crate::codec::lemma_be16_value;
use crate::codec::lemma_be32_value;
use crate::codec::lemma_enc_list_push;
use crate::codec::lemma_subrange_join;
use crate::codec::parse_list;
use crate::codec::read_u16;
use crate::codec::read_u32;
use crate::codec::read_u8;
use crate::codec::read_vec;
use crate::codec::str_eq;
use crate::codec::write_bytes;
use crate::codec::write_u16;
use crate::codec::write_u32;
use crate::codec::write_u8;
use crate::constant_pool::ConstantPool;
use crate::constant_pool::text_at;

verus! {

/// One attribute: its name and length fields as read from the stream, and
/// the decoded shape.
#[derive(Debug)]
pub struct attribute_info {
    pub attribute_name_index: u16,
    pub attribute_length: u32,
    pub info: attribute_info_Data,
}

/// The decoded shape of each known attribute, plus the opaque fallback.
#[derive(Debug)]
pub enum attribute_info_Data {
    ConstantValue_attribute { constantvalue_index: u16 },
    Code_attribute {
        max_stack: u16,
        max_locals: u16,
        code_length: u32,
        code: Vec<u8>,
        exception_table_length: u16,
        exception_table: Vec<exception_info>,
        attributes_count: u16,
        attributes: Vec<attribute_info>,
    },
    StackMapTable_attribute { number_of_entries: u16, entries: Vec<stack_map_frame> },
    Exceptions_attribute { number_of_exceptions: u16, exception_index_table: Vec<u16> },
    InnerClasses_attribute { number_of_classes: u16, classes: Vec<inner_class> },
    EnclosingMethod_attribute { class_index: u16, method_index: u16 },
    Synthetic_attribute,
    Signature_attribute { signature_index: u16 },
    SourceFile_attribute { sourcefile_index: u16 },
    SourceDebugExtension { debug_extension: Vec<u8> },
    LineNumberTable_attribute {
        line_number_table_length: u16,
        line_number_table: Vec<line_number_table_entry>,
    },
    LocalVariableTable_attribute {
        local_variable_table_length: u16,
        local_variable_table: Vec<local_variable_table_entry>,
    },
    LocalVariableTypeTable_attribute {
        local_variable_type_table_length: u16,
        local_variable_type_table: Vec<local_variable_type_table_entry>,
    },
    Deprecated_attribute,
    RuntimeVisibleAnnotations_attribute { num_annotations: u16, annotations: Vec<annotation> },
    RuntimeInvisibleAnnotations_attribute { num_annotations: u16, annotations: Vec<annotation> },
    RuntimeVisibleParameterAnnotations_attribute {
        num_parameters: u8,
        parameter_annotations: Vec<annotation_list>,
    },
    RuntimeInvisibleParameterAnnotations_attribute {
        num_parameters: u8,
        parameter_annotations: Vec<annotation_list>,
    },
    AnnotationDefault_attribute { default_value: element_value },
    BootstrapMethods_attribute { num_bootstrap_methods: u16, bootstrap_methods: Vec<bootstrap_method> },
    RuntimeVisibleTypeAnnotations {},
    RuntimeInvisibleTypeAnnotations {},
    Unknown_attribute { info: Vec<u8> },
}

#[derive(Debug)]
pub struct bootstrap_method {
    pub bootstrap_method_ref: u16,
    pub num_bootstrap_arguments: u16,
    pub bootstrap_arguments: Vec<u16>,
}

#[derive(Debug)]
pub struct annotation_list {
    pub num_annotations: u16,
    pub annotations: Vec<annotation>,
}

#[derive(Debug)]
pub struct annotation {
    pub type_index: u16,
    pub num_element_value_pairs: u16,
    pub element_value_pairs: Vec<element_value_pair>,
}

#[derive(Debug)]
pub struct element_value_pair {
    pub element_name_index: u16,
    pub value: element_value,
}

#[derive(Debug)]
pub struct element_value {
    pub tag: u8,
    pub value: element_value_data,
}

#[derive(Debug)]
pub enum element_value_data {
    const_value_index(u16),
    enum_const_value { type_name_index: u16, const_name_index: u16 },
    class_info_index(u16),
    annotation_value(annotation),
    array_value { num_values: u16, values: Vec<element_value> },
}

#[derive(Debug)]
pub struct local_variable_table_entry {
    pub start_pc: u16,
    pub length: u16,
    pub name_index: u16,
    pub descriptor_index: u16,
    pub index: u16,
}

#[derive(Debug)]
pub struct local_variable_type_table_entry {
    pub start_pc: u16,
    pub length: u16,
    pub name_index: u16,
    pub signature_index: u16,
    pub index: u16,
}

#[derive(Debug)]
pub struct line_number_table_entry {
    pub start_pc: u16,
    pub line_number: u16,
}

#[derive(Debug)]
pub struct inner_class {
    pub inner_class_info_index: u16,
    pub outer_class_info_index: u16,
    pub inner_name_index: u16,
    pub inner_class_access_flags: u16,
}

#[derive(Debug)]
pub struct stack_map_frame {
    pub frame_type: u8,
    pub frame_data: stack_map_frame_data,
}

/// The seven frame shapes, selected by numeric ranges of the frame type.
#[derive(Debug)]
pub enum stack_map_frame_data {
    same_frame,
    same_locals_1_stack_item_frame { stack: verification_type_info },
    same_locals_1_stack_item_frame_extended { offset_delta: u16, stack: verification_type_info },
    chop_frame { offset_delta: u16 },
    same_frame_extended { offset_delta: u16 },
    append_frame { offset_delta: u16, locals: Vec<verification_type_info> },
    full_frame {
        offset_delta: u16,
        number_of_locals: u16,
        locals: Vec<verification_type_info>,
        number_of_stack_items: u16,
        stack: Vec<verification_type_info>,
    },
}

#[derive(Debug)]
pub struct verification_type_info {
    pub tag: u8,
    pub data: verification_type_info_data,
}

#[derive(Debug)]
pub enum verification_type_info_data {
    Top_variable_info,
    Integer_variable_info,
    Float_variable_info,
    Long_variable_info,
    Double_variable_info,
    Null_variable_info,
    UninitializedThis_variable_info,
    Object_variable_info { cpool_index: u16 },
    Uninitialized_variable_info { offset: u16 },
}

#[derive(Debug)]
pub struct exception_info {
    pub start_pc: u16,
    pub end_pc: u16,
    pub handler_pc: u16,
    pub catch_type: u16,
}

// ---------------------------------------------------------------------------
// Verification type info
// ---------------------------------------------------------------------------

/// A verification type's variant is the one its tag selects: 0 top, 1
/// integer, 2 float, 3 double, 4 long, 5 null, 6 uninitialized-this, 7 an
/// object with a pool index, 8 an uninitialized value with an offset.
pub open spec fn wf_vti(v: verification_type_info) -> bool {
    match v.data {
        verification_type_info_data::Top_variable_info => v.tag == 0,
        verification_type_info_data::Integer_variable_info => v.tag == 1,
        verification_type_info_data::Float_variable_info => v.tag == 2,
        verification_type_info_data::Double_variable_info => v.tag == 3,
        verification_type_info_data::Long_variable_info => v.tag == 4,
        verification_type_info_data::Null_variable_info => v.tag == 5,
        verification_type_info_data::UninitializedThis_variable_info => v.tag == 6,
        verification_type_info_data::Object_variable_info { cpool_index } => v.tag == 7,
        verification_type_info_data::Uninitialized_variable_info { offset } => v.tag == 8,
    }
}

pub open spec fn wf_vti_seq(s: Seq<verification_type_info>) -> bool {
    forall|i: int| 0 <= i < s.len() ==> wf_vti(#[trigger] s[i])
}

/// A stack-map frame's shape is the one its frame type's numeric range
/// selects, its lists are exactly as long as their count fields say, and
/// every verification type in it is well formed.
pub open spec fn wf_frame(f: stack_map_frame) -> bool {
    match f.frame_data {
        stack_map_frame_data::same_frame => f.frame_type <= 63,
        stack_map_frame_data::same_locals_1_stack_item_frame { stack } => 64 <= f.frame_type <= 127
            && wf_vti(stack),
        stack_map_frame_data::same_locals_1_stack_item_frame_extended { offset_delta, stack } => f.frame_type
            == 247 && wf_vti(stack),
        stack_map_frame_data::chop_frame { offset_delta } => 248 <= f.frame_type <= 250,
        stack_map_frame_data::same_frame_extended { offset_delta } => f.frame_type == 251,
        stack_map_frame_data::append_frame { offset_delta, locals } => 252 <= f.frame_type <= 254
            && locals@.len() == f.frame_type - 251 && wf_vti_seq(locals@),
        stack_map_frame_data::full_frame {
            offset_delta,
            number_of_locals,
            locals,
            number_of_stack_items,
            stack,
        } => f.frame_type == 255 && locals@.len() == number_of_locals && wf_vti_seq(locals@)
            && stack@.len() == number_of_stack_items && wf_vti_seq(stack@),
    }
}

pub open spec fn wf_frame_seq(s: Seq<stack_map_frame>) -> bool {
    forall|i: int| 0 <= i < s.len() ==> wf_frame(#[trigger] s[i])
}

/// The byte image of one verification type: its tag, then a 16-bit field for
/// the two tags that carry one.
pub open spec fn enc_vti(v: verification_type_info) -> Seq<u8> {
    seq![v.tag] + match v.data {
        verification_type_info_data::Object_variable_info { cpool_index } => be16(cpool_index),
        verification_type_info_data::Uninitialized_variable_info { offset } => be16(offset),
        _ => Seq::empty(),
    }
}

/// Where one verification type starting at `pos` ends; tags above 8 are
/// outside the closed set.
pub open spec fn parse_vti(b: Seq<u8>, pos: int) -> Option<int> {
    if pos < 0 || pos + 1 > b.len() {
        None
    } else {
        let tag = b[pos];
        if tag <= 6 {
            Some(pos + 1)
        } else if tag == 7 || tag == 8 {
            if pos + 3 <= b.len() {
                Some(pos + 3)
            } else {
                None
            }
        } else {
            None
        }
    }
}

pub open spec fn enc_vti_list(s: Seq<verification_type_info>) -> Seq<u8> {
    enc_list(s, |v: verification_type_info| enc_vti(v))
}

pub open spec fn parse_vti_list(b: Seq<u8>, pos: int, n: nat) -> Option<int> {
    parse_list(b, pos, n, |bb: Seq<u8>, p: int| parse_vti(bb, p))
}

impl verification_type_info {
    /// Decodes one verification type at `pos`; a tag outside the closed set
    /// is a format fault, never defaulted.
    pub fn new(b: &Vec<u8>, pos: usize) -> (r: Result<
        (verification_type_info, usize),
        ClassLoadingError,
    >)
        ensures
            r matches Ok(t) ==> {
                &&& parse_vti(b@, pos as int) == Some(t.1 as int)
                &&& pos < t.1 <= b@.len()
                &&& enc_vti(t.0) == b@.subrange(pos as int, t.1 as int)
                &&& wf_vti(t.0)
            },
            r is Err ==> parse_vti(b@, pos as int) is None && r == Err::<
                (verification_type_info, usize),
                _,
            >(ClassLoadingError::ClassFormatError),
            parse_vti(b@, pos as int) is Some ==> r is Ok,
    {
        let (tag, p1) = read_u8(b, pos)?;
        let data = match tag {
            0 => verification_type_info_data::Top_variable_info,
            1 => verification_type_info_data::Integer_variable_info,
            2 => verification_type_info_data::Float_variable_info,
            4 => verification_type_info_data::Long_variable_info,
            3 => verification_type_info_data::Double_variable_info,
            5 => verification_type_info_data::Null_variable_info,
            6 => verification_type_info_data::UninitializedThis_variable_info,
            7 => {
                let (cpool_index, end) = read_u16(b, p1)?;
                let v = verification_type_info {
                    tag,
                    data: verification_type_info_data::Object_variable_info { cpool_index },
                };
                proof {
                    lemma_subrange_join(b@, pos as int, p1 as int, end as int);
                }
                return Ok((v, end));
            },
            8 => {
                let (offset, end) = read_u16(b, p1)?;
                let v = verification_type_info {
                    tag,
                    data: verification_type_info_data::Uninitialized_variable_info { offset },
                };
                proof {
                    lemma_subrange_join(b@, pos as int, p1 as int, end as int);
                }
                return Ok((v, end));
            },
            _ => {
                return Err(ClassLoadingError::ClassFormatError);
            },
        };
        let v = verification_type_info { tag, data };
        proof {
            assert(enc_vti(v) =~= b@.subrange(pos as int, pos + 1));
        }
        Ok((v, p1))
    }
}

/// Appends the byte image of one verification type.
pub fn write_vti(out: &mut Vec<u8>, v: &verification_type_info)
    ensures
        final(out)@ == old(out)@ + enc_vti(*v),
{
    write_u8(out, v.tag);
    match &v.data {
        verification_type_info_data::Object_variable_info { cpool_index } => {
            write_u16(out, *cpool_index);
        },
        verification_type_info_data::Uninitialized_variable_info { offset } => {
            write_u16(out, *offset);
        },
        _ => {
            proof {
                assert(out@ =~= old(out)@ + enc_vti(*v));
            }
        },
    }
}

/// Decodes a run of `n` verification types starting at `pos`.
pub fn read_vti_list(b: &Vec<u8>, pos: usize, n: u16) -> (r: Result<
    (Vec<verification_type_info>, usize),
    ClassLoadingError,
>)
    requires
        pos <= b@.len(),
    ensures
        r matches Ok(t) ==> {
            &&& parse_vti_list(b@, pos as int, n as nat) == Some(t.1 as int)
            &&& pos <= t.1 <= b@.len()
            &&& enc_vti_list(t.0@) == b@.subrange(pos as int, t.1 as int)
            &&& t.0@.len() == n
            &&& wf_vti_seq(t.0@)
        },
        r is Err ==> parse_vti_list(b@, pos as int, n as nat) is None && r == Err::<
            (Vec<verification_type_info>, usize),
            _,
        >(ClassLoadingError::ClassFormatError),
        parse_vti_list(b@, pos as int, n as nat) is Some ==> r is Ok,
{
    let mut v: Vec<verification_type_info> = Vec::new();
    let mut cur: usize = pos;
    let mut i: u16 = 0;
    proof {
        assert(enc_vti_list(v@) =~= b@.subrange(pos as int, pos as int));
    }
    while i < n
        invariant
            pos <= cur <= b@.len(),
            i <= n,
            v@.len() == i,
            wf_vti_seq(v@),
            enc_vti_list(v@) == b@.subrange(pos as int, cur as int),
            parse_vti_list(b@, cur as int, (n - i) as nat) == parse_vti_list(
                b@,
                pos as int,
                n as nat,
            ),
        decreases n - i,
    {
        let (item, end) = match verification_type_info::new(b, cur) {
            Ok(t) => t,
            Err(e) => {
                return Err(e);
            },
        };
        let ghost gitem = item;
        let ghost prev = v@;
        v.push(item);
        proof {
            lemma_enc_list_push(prev, gitem, |x: verification_type_info| enc_vti(x));
            lemma_subrange_join(b@, pos as int, cur as int, end as int);
        }
        cur = end;
        i = i + 1;
    }
    Ok((v, cur))
}

/// Appends the byte image of a run of verification types.
pub fn write_vti_list(out: &mut Vec<u8>, s: &Vec<verification_type_info>)
    ensures
        final(out)@ == old(out)@ + enc_vti_list(s@),
{
    proof {
        assert(enc_vti_list(s@.subrange(0, 0)) =~= Seq::<u8>::empty());
        assert(out@ =~= out@ + enc_vti_list(s@.subrange(0, 0)));
    }
    let mut i: usize = 0;
    while i < s.len()
        invariant
            i <= s@.len(),
            out@ == old(out)@ + enc_vti_list(s@.subrange(0, i as int)),
        decreases s@.len() - i,
    {
        write_vti(out, &s[i]);
        proof {
            assert(s@.subrange(0, i + 1) =~= s@.subrange(0, i as int).push(s@[i as int]));
            lemma_enc_list_push(
                s@.subrange(0, i as int),
                s@[i as int],
                |x: verification_type_info| enc_vti(x),
            );
        }
        i = i + 1;
    }
    proof {
        assert(s@.subrange(0, s@.len() as int) =~= s@);
    }
}

// ---------------------------------------------------------------------------
// Stack map frames
// ---------------------------------------------------------------------------

/// The byte image of one stack-map frame: its frame type, then the payload
/// its shape carries.
pub open spec fn enc_frame(f: stack_map_frame) -> Seq<u8> {
    seq![f.frame_type] + match f.frame_data {
        stack_map_frame_data::same_frame => Seq::empty(),
        stack_map_frame_data::same_locals_1_stack_item_frame { stack } => enc_vti(stack),
        stack_map_frame_data::same_locals_1_stack_item_frame_extended { offset_delta, stack } => be16(
            offset_delta,
        ) + enc_vti(stack),
        stack_map_frame_data::chop_frame { offset_delta } => be16(offset_delta),
        stack_map_frame_data::same_frame_extended { offset_delta } => be16(offset_delta),
        stack_map_frame_data::append_frame { offset_delta, locals } => be16(offset_delta)
            + enc_vti_list(locals@),
        stack_map_frame_data::full_frame {
            offset_delta,
            number_of_locals,
            locals,
            number_of_stack_items,
            stack,
        } => be16(offset_delta) + be16(number_of_locals) + enc_vti_list(locals@) + be16(
            number_of_stack_items,
        ) + enc_vti_list(stack@),
    }
}

/// Where one stack-map frame starting at `pos` ends; frame types 128 to 246
/// are reserved and outside the closed set.
pub open spec fn parse_frame(b: Seq<u8>, pos: int) -> Option<int> {
    if pos < 0 || pos + 1 > b.len() {
        None
    } else {
        let ft = b[pos];
        if ft <= 63 {
            Some(pos + 1)
        } else if ft <= 127 {
            parse_vti(b, pos + 1)
        } else if ft == 247 {
            if pos + 3 <= b.len() {
                parse_vti(b, pos + 3)
            } else {
                None
            }
        } else if 248 <= ft && ft <= 251 {
            if pos + 3 <= b.len() {
                Some(pos + 3)
            } else {
                None
            }
        } else if 252 <= ft && ft <= 254 {
            if pos + 3 <= b.len() {
                parse_vti_list(b, pos + 3, (ft - 251) as nat)
            } else {
                None
            }
        } else if ft == 255 {
            if pos + 5 <= b.len() {
                let nloc = be16_value(b.subrange(pos + 3, pos + 5));
                match parse_vti_list(b, pos + 5, nloc as nat) {
                    None => None,
                    Some(q) => {
                        if q + 2 <= b.len() {
                            let nstk = be16_value(b.subrange(q, q + 2));
                            parse_vti_list(b, q + 2, nstk as nat)
                        } else {
                            None
                        }
                    },
                }
            } else {
                None
            }
        } else {
            None
        }
    }
}

pub open spec fn enc_frame_list(s: Seq<stack_map_frame>) -> Seq<u8> {
    enc_list(s, |f: stack_map_frame| enc_frame(f))
}

pub open spec fn parse_frame_list(b: Seq<u8>, pos: int, n: nat) -> Option<int> {
    parse_list(b, pos, n, |bb: Seq<u8>, p: int| parse_frame(bb, p))
}

impl stack_map_frame {
    /// Decodes one stack-map frame at `pos`; a frame type reserved for
    /// future use is a format fault.
    pub fn new(b: &Vec<u8>, pos: usize) -> (r: Result<
        (stack_map_frame, usize),
        ClassLoadingError,
    >)
        ensures
            r matches Ok(t) ==> {
                &&& parse_frame(b@, pos as int) == Some(t.1 as int)
                &&& pos < t.1 <= b@.len()
                &&& enc_frame(t.0) == b@.subrange(pos as int, t.1 as int)
                &&& wf_frame(t.0)
            },
            r is Err ==> parse_frame(b@, pos as int) is None && r == Err::<
                (stack_map_frame, usize),
                _,
            >(ClassLoadingError::ClassFormatError),
            parse_frame(b@, pos as int) is Some ==> r is Ok,
    {
        let (frame_type, p1) = read_u8(b, pos)?;
        if frame_type <= 63 {
            let f = stack_map_frame { frame_type, frame_data: stack_map_frame_data::same_frame };
            proof {
                assert(enc_frame(f) =~= b@.subrange(pos as int, pos + 1));
            }
            Ok((f, p1))
        } else if frame_type <= 127 {
            let (stack, end) = verification_type_info::new(b, p1)?;
            let f = stack_map_frame {
                frame_type,
                frame_data: stack_map_frame_data::same_locals_1_stack_item_frame { stack },
            };
            proof {
                lemma_subrange_join(b@, pos as int, p1 as int, end as int);
            }
            Ok((f, end))
        } else if frame_type == 247 {
            let (offset_delta, p2) = read_u16(b, p1)?;
            let (stack, end) = verification_type_info::new(b, p2)?;
            let f = stack_map_frame {
                frame_type,
                frame_data: stack_map_frame_data::same_locals_1_stack_item_frame_extended {
                    offset_delta,
                    stack,
                },
            };
            proof {
                lemma_subrange_join(b@, p1 as int, p2 as int, end as int);
                lemma_subrange_join(b@, pos as int, p1 as int, end as int);
            }
            Ok((f, end))
        } else if 248 <= frame_type && frame_type <= 250 {
            let (offset_delta, end) = read_u16(b, p1)?;
            let f = stack_map_frame {
                frame_type,
                frame_data: stack_map_frame_data::chop_frame { offset_delta },
            };
            proof {
                lemma_subrange_join(b@, pos as int, p1 as int, end as int);
            }
            Ok((f, end))
        } else if frame_type == 251 {
            let (offset_delta, end) = read_u16(b, p1)?;
            let f = stack_map_frame {
                frame_type,
                frame_data: stack_map_frame_data::same_frame_extended { offset_delta },
            };
            proof {
                lemma_subrange_join(b@, pos as int, p1 as int, end as int);
            }
            Ok((f, end))
        } else if 252 <= frame_type && frame_type <= 254 {
            let (offset_delta, p2) = read_u16(b, p1)?;
            let (locals, end) = read_vti_list(b, p2, (frame_type - 251) as u16)?;
            let f = stack_map_frame {
                frame_type,
                frame_data: stack_map_frame_data::append_frame { offset_delta, locals },
            };
            proof {
                lemma_subrange_join(b@, p1 as int, p2 as int, end as int);
                lemma_subrange_join(b@, pos as int, p1 as int, end as int);
            }
            Ok((f, end))
        } else if frame_type == 255 {
            let (offset_delta, p2) = read_u16(b, p1)?;
            let (number_of_locals, p3) = read_u16(b, p2)?;
            proof {
                lemma_be16_value(number_of_locals);
            }
            let (locals, p4) = read_vti_list(b, p3, number_of_locals)?;
            let (number_of_stack_items, p5) = read_u16(b, p4)?;
            proof {
                lemma_be16_value(number_of_stack_items);
            }
            let (stack, end) = read_vti_list(b, p5, number_of_stack_items)?;
            let f = stack_map_frame {
                frame_type,
                frame_data: stack_map_frame_data::full_frame {
                    offset_delta,
                    number_of_locals,
                    locals,
                    number_of_stack_items,
                    stack,
                },
            };
            proof {
                lemma_subrange_join(b@, p4 as int, p5 as int, end as int);
                lemma_subrange_join(b@, p3 as int, p4 as int, end as int);
                lemma_subrange_join(b@, p2 as int, p3 as int, end as int);
                lemma_subrange_join(b@, p1 as int, p2 as int, end as int);
                lemma_subrange_join(b@, pos as int, p1 as int, end as int);
            }
            Ok((f, end))
        } else {
            Err(ClassLoadingError::ClassFormatError)
        }
    }
}

/// Appends the byte image of one stack-map frame.
pub fn write_frame(out: &mut Vec<u8>, f: &stack_map_frame)
    ensures
        final(out)@ == old(out)@ + enc_frame(*f),
{
    write_u8(out, f.frame_type);
    match &f.frame_data {
        stack_map_frame_data::same_frame => {
            proof {
                assert(out@ =~= old(out)@ + enc_frame(*f));
            }
        },
        stack_map_frame_data::same_locals_1_stack_item_frame { stack } => {
            write_vti(out, stack);
        },
        stack_map_frame_data::same_locals_1_stack_item_frame_extended { offset_delta, stack } => {
            write_u16(out, *offset_delta);
            write_vti(out, stack);
        },
        stack_map_frame_data::chop_frame { offset_delta } => {
            write_u16(out, *offset_delta);
        },
        stack_map_frame_data::same_frame_extended { offset_delta } => {
            write_u16(out, *offset_delta);
        },
        stack_map_frame_data::append_frame { offset_delta, locals } => {
            write_u16(out, *offset_delta);
            write_vti_list(out, locals);
        },
        stack_map_frame_data::full_frame {
            offset_delta,
            number_of_locals,
            locals,
            number_of_stack_items,
            stack,
        } => {
            write_u16(out, *offset_delta);
            write_u16(out, *number_of_locals);
            write_vti_list(out, locals);
            write_u16(out, *number_of_stack_items);
            write_vti_list(out, stack);
        },
    }
}

/// Decodes a run of `n` stack-map frames starting at `pos`.
pub fn read_frame_list(b: &Vec<u8>, pos: usize, n: u16) -> (r: Result<
    (Vec<stack_map_frame>, usize),
    ClassLoadingError,
>)
    requires
        pos <= b@.len(),
    ensures
        r matches Ok(t) ==> {
            &&& parse_frame_list(b@, pos as int, n as nat) == Some(t.1 as int)
            &&& pos <= t.1 <= b@.len()
            &&& enc_frame_list(t.0@) == b@.subrange(pos as int, t.1 as int)
            &&& t.0@.len() == n
            &&& wf_frame_seq(t.0@)
        },
        r is Err ==> parse_frame_list(b@, pos as int, n as nat) is None && r == Err::<
            (Vec<stack_map_frame>, usize),
            _,
        >(ClassLoadingError::ClassFormatError),
        parse_frame_list(b@, pos as int, n as nat) is Some ==> r is Ok,
{
    let mut v: Vec<stack_map_frame> = Vec::new();
    let mut cur: usize = pos;
    let mut i: u16 = 0;
    proof {
        assert(enc_frame_list(v@) =~= b@.subrange(pos as int, pos as int));
    }
    while i < n
        invariant
            pos <= cur <= b@.len(),
            i <= n,
            v@.len() == i,
            wf_frame_seq(v@),
            enc_frame_list(v@) == b@.subrange(pos as int, cur as int),
            parse_frame_list(b@, cur as int, (n - i) as nat) == parse_frame_list(
                b@,
                pos as int,
                n as nat,
            ),
        decreases n - i,
    {
        let (item, end) = match stack_map_frame::new(b, cur) {
            Ok(t) => t,
            Err(e) => {
                return Err(e);
            },
        };
        let ghost gitem = item;
        let ghost prev = v@;
        v.push(item);
        proof {
            lemma_enc_list_push(prev, gitem, |x: stack_map_frame| enc_frame(x));
            lemma_subrange_join(b@, pos as int, cur as int, end as int);
        }
        cur = end;
        i = i + 1;
    }
    Ok((v, cur))
}

/// Appends the byte image of a run of stack-map frames.
pub fn write_frame_list(out: &mut Vec<u8>, s: &Vec<stack_map_frame>)
    ensures
        final(out)@ == old(out)@ + enc_frame_list(s@),
{
    proof {
        assert(enc_frame_list(s@.subrange(0, 0)) =~= Seq::<u8>::empty());
        assert(out@ =~= out@ + enc_frame_list(s@.subrange(0, 0)));
    }
    let mut i: usize = 0;
    while i < s.len()
        invariant
            i <= s@.len(),
            out@ == old(out)@ + enc_frame_list(s@.subrange(0, i as int)),
        decreases s@.len() - i,
    {
        write_frame(out, &s[i]);
        proof {
            assert(s@.subrange(0, i + 1) =~= s@.subrange(0, i as int).push(s@[i as int]));
            lemma_enc_list_push(s@.subrange(0, i as int), s@[i as int], |x: stack_map_frame| enc_frame(x));
        }
        i = i + 1;
    }
    proof {
        assert(s@.subrange(0, s@.len() as int) =~= s@);
    }
}

// ---------------------------------------------------------------------------
// Element values and annotations
// ---------------------------------------------------------------------------

/// An element value's payload is the one its tag character selects: one of
/// `B C D F I J S Z s` a constant index, `e` an enum constant, `c` a class
/// literal, `@` a nested annotation, `[` an array holding exactly as many
/// values as its count field says, each itself well formed.
pub open spec fn wf_ev(e: element_value) -> bool
    decreases e,
{
    match e.value {
        element_value_data::const_value_index(i) => is_const_ev_tag(e.tag),
        element_value_data::enum_const_value { type_name_index, const_name_index } => e.tag == 101,
        element_value_data::class_info_index(i) => e.tag == 99,
        element_value_data::annotation_value(a) => e.tag == 64 && wf_annotation(a),
        element_value_data::array_value { num_values, values } => e.tag == 91 && values@.len()
            == num_values && wf_ev_seq(values@),
    }
}

pub open spec fn wf_ev_seq(s: Seq<element_value>) -> bool
    decreases s,
{
    if s.len() == 0 {
        true
    } else {
        wf_ev_seq(s.drop_last()) && wf_ev(s.last())
    }
}

/// An annotation holds exactly as many name-value pairs as its count field
/// says, each value well formed.
pub open spec fn wf_annotation(a: annotation) -> bool
    decreases a,
{
    a.element_value_pairs@.len() == a.num_element_value_pairs && wf_evpair_seq(
        a.element_value_pairs@,
    )
}

pub open spec fn wf_evpair_seq(s: Seq<element_value_pair>) -> bool
    decreases s,
{
    if s.len() == 0 {
        true
    } else {
        wf_evpair_seq(s.drop_last()) && wf_evpair(s.last())
    }
}

pub open spec fn wf_evpair(p: element_value_pair) -> bool
    decreases p,
{
    wf_ev(p.value)
}

pub open spec fn wf_annotation_seq(s: Seq<annotation>) -> bool
    decreases s,
{
    if s.len() == 0 {
        true
    } else {
        wf_annotation_seq(s.drop_last()) && wf_annotation(s.last())
    }
}

pub proof fn lemma_wf_ev_seq_push(s: Seq<element_value>, x: element_value)
    ensures
        wf_ev_seq(s.push(x)) == (wf_ev_seq(s) && wf_ev(x)),
{
    assert(s.push(x).drop_last() =~= s);
    assert(s.push(x).last() == x);
}

pub proof fn lemma_wf_evpair_seq_push(s: Seq<element_value_pair>, x: element_value_pair)
    ensures
        wf_evpair_seq(s.push(x)) == (wf_evpair_seq(s) && wf_evpair(x)),
{
    assert(s.push(x).drop_last() =~= s);
    assert(s.push(x).last() == x);
}

pub proof fn lemma_wf_annotation_seq_push(s: Seq<annotation>, x: annotation)
    ensures
        wf_annotation_seq(s.push(x)) == (wf_annotation_seq(s) && wf_annotation(x)),
{
    assert(s.push(x).drop_last() =~= s);
    assert(s.push(x).last() == x);
}

/// The byte image of one element value: its tag, then the payload the tag
/// selects.
pub open spec fn enc_ev(e: element_value) -> Seq<u8>
    decreases e,
{
    seq![e.tag] + enc_ev_data(e.value)
}

/// The byte image of an element value's payload.
pub open spec fn enc_ev_data(d: element_value_data) -> Seq<u8>
    decreases d,
{
    match d {
        element_value_data::const_value_index(i) => be16(i),
        element_value_data::enum_const_value { type_name_index, const_name_index } => be16(
            type_name_index,
        ) + be16(const_name_index),
        element_value_data::class_info_index(i) => be16(i),
        element_value_data::annotation_value(a) => enc_annotation(a),
        element_value_data::array_value { num_values, values } => be16(num_values) + enc_ev_seq(
            values@,
        ),
    }
}

/// The byte image of a run of element values.
pub open spec fn enc_ev_seq(s: Seq<element_value>) -> Seq<u8>
    decreases s,
{
    if s.len() == 0 {
        Seq::empty()
    } else {
        enc_ev_seq(s.drop_last()) + enc_ev(s.last())
    }
}

/// The byte image of one annotation: type index, pair count, then the pairs.
pub open spec fn enc_annotation(a: annotation) -> Seq<u8>
    decreases a,
{
    be16(a.type_index) + be16(a.num_element_value_pairs) + enc_evpair_seq(a.element_value_pairs@)
}

/// The byte image of a run of element-value pairs.
pub open spec fn enc_evpair_seq(s: Seq<element_value_pair>) -> Seq<u8>
    decreases s,
{
    if s.len() == 0 {
        Seq::empty()
    } else {
        enc_evpair_seq(s.drop_last()) + enc_evpair(s.last())
    }
}

/// The byte image of one element-value pair.
pub open spec fn enc_evpair(p: element_value_pair) -> Seq<u8>
    decreases p,
{
    be16(p.element_name_index) + enc_ev(p.value)
}

pub proof fn lemma_enc_ev_seq_push(s: Seq<element_value>, x: element_value)
    ensures
        enc_ev_seq(s.push(x)) == enc_ev_seq(s) + enc_ev(x),
{
    assert(s.push(x).drop_last() =~= s);
    assert(s.push(x).last() == x);
}

pub proof fn lemma_enc_evpair_seq_push(s: Seq<element_value_pair>, x: element_value_pair)
    ensures
        enc_evpair_seq(s.push(x)) == enc_evpair_seq(s) + enc_evpair(x),
{
    assert(s.push(x).drop_last() =~= s);
    assert(s.push(x).last() == x);
}

/// The tag characters that select a one-index constant payload:
/// `B C D F I J S Z s`.
pub open spec fn is_const_ev_tag(tag: u8) -> bool {
    tag == 66 || tag == 67 || tag == 68 || tag == 70 || tag == 73 || tag == 74 || tag == 83 || tag
        == 90 || tag == 115
}

/// Where one element value starting at `pos` ends; a tag outside the closed
/// set is no element value.
pub open spec fn parse_ev(b: Seq<u8>, pos: int) -> Option<int>
    decreases b.len() - pos, 0int,
{
    if pos < 0 || pos + 1 > b.len() {
        None
    } else {
        let tag = b[pos];
        if is_const_ev_tag(tag) {
            if pos + 3 <= b.len() {
                Some(pos + 3)
            } else {
                None
            }
        } else if tag == 101 {  // 'e'
            if pos + 5 <= b.len() {
                Some(pos + 5)
            } else {
                None
            }
        } else if tag == 99 {  // 'c'
            if pos + 3 <= b.len() {
                Some(pos + 3)
            } else {
                None
            }
        } else if tag == 64 {  // '@'
            parse_annotation(b, pos + 1)
        } else if tag == 91 {  // '['
            if pos + 3 <= b.len() {
                parse_ev_seq(b, pos + 3, be16_value(b.subrange(pos + 1, pos + 3)) as nat)
            } else {
                None
            }
        } else {
            None
        }
    }
}

/// Where a run of `n` element values starting at `pos` ends.
pub open spec fn parse_ev_seq(b: Seq<u8>, pos: int, n: nat) -> Option<int>
    decreases b.len() - pos, 1int,
{
    if pos < 0 || pos > b.len() {
        None
    } else if n == 0 {
        Some(pos)
    } else {
        match parse_ev(b, pos) {
            None => None,
            Some(end) => {
                if end <= pos || end > b.len() {
                    None
                } else {
                    parse_ev_seq(b, end, (n - 1) as nat)
                }
            },
        }
    }
}

/// Where one annotation starting at `pos` ends.
pub open spec fn parse_annotation(b: Seq<u8>, pos: int) -> Option<int>
    decreases b.len() - pos, 0int,
{
    if pos < 0 || pos + 4 > b.len() {
        None
    } else {
        parse_evpair_seq(b, pos + 4, be16_value(b.subrange(pos + 2, pos + 4)) as nat)
    }
}

/// Where a run of `n` element-value pairs starting at `pos` ends.
pub open spec fn parse_evpair_seq(b: Seq<u8>, pos: int, n: nat) -> Option<int>
    decreases b.len() - pos, 2int,
{
    if pos < 0 || pos > b.len() {
        None
    } else if n == 0 {
        Some(pos)
    } else if pos + 2 > b.len() {
        None
    } else {
        match parse_ev(b, pos + 2) {
            None => None,
            Some(end) => {
                if end <= pos + 2 || end > b.len() {
                    None
                } else {
                    parse_evpair_seq(b, end, (n - 1) as nat)
                }
            },
        }
    }
}

impl element_value {
    /// Decodes one element value at `pos`; the tag character selects the
    /// payload, and a tag outside the closed set is a format fault.
    pub fn new(b: &Vec<u8>, pos: usize) -> (r: Result<(element_value, usize), ClassLoadingError>)
        ensures
            r matches Ok(t) ==> {
                &&& parse_ev(b@, pos as int) == Some(t.1 as int)
                &&& pos < t.1 <= b@.len()
                &&& enc_ev(t.0) == b@.subrange(pos as int, t.1 as int)
                &&& wf_ev(t.0)
            },
            r is Err ==> parse_ev(b@, pos as int) is None && r == Err::<
                (element_value, usize),
                _,
            >(ClassLoadingError::ClassFormatError),
            parse_ev(b@, pos as int) is Some ==> r is Ok,
        decreases b@.len() - pos,
    {
        let (tag, p1) = read_u8(b, pos)?;
        if tag == 66 || tag == 67 || tag == 68 || tag == 70 || tag == 73 || tag == 74 || tag == 83
            || tag == 90 || tag == 115 {
            let (i, end) = read_u16(b, p1)?;
            let e = element_value { tag, value: element_value_data::const_value_index(i) };
            proof {
                lemma_subrange_join(b@, pos as int, p1 as int, end as int);
            }
            Ok((e, end))
        } else if tag == 101 {  // 'e'
            let (type_name_index, p2) = read_u16(b, p1)?;
            let (const_name_index, end) = read_u16(b, p2)?;
            let e = element_value {
                tag,
                value: element_value_data::enum_const_value { type_name_index, const_name_index },
            };
            proof {
                lemma_subrange_join(b@, p1 as int, p2 as int, end as int);
                lemma_subrange_join(b@, pos as int, p1 as int, end as int);
            }
            Ok((e, end))
        } else if tag == 99 {  // 'c'
            let (i, end) = read_u16(b, p1)?;
            let e = element_value { tag, value: element_value_data::class_info_index(i) };
            proof {
                lemma_subrange_join(b@, pos as int, p1 as int, end as int);
            }
            Ok((e, end))
        } else if tag == 64 {  // '@'
            let (a, end) = annotation::new(b, p1)?;
            let e = element_value { tag, value: element_value_data::annotation_value(a) };
            proof {
                lemma_subrange_join(b@, pos as int, p1 as int, end as int);
            }
            Ok((e, end))
        } else if tag == 91 {  // '['
            let (num_values, p2) = read_u16(b, p1)?;
            proof {
                lemma_be16_value(num_values);
            }
            let mut values: Vec<element_value> = Vec::new();
            let mut cur: usize = p2;
            let mut i: u16 = 0;
            proof {
                assert(enc_ev_seq(values@) =~= b@.subrange(p2 as int, p2 as int));
            }
            while i < num_values
                invariant
                    p2 <= cur <= b@.len(),
                    pos + 3 == p2 <= b@.len(),
                    b@[pos as int] == 91,
                    be16_value(b@.subrange(pos + 1, pos + 3)) == num_values,
                    i <= num_values,
                    values@.len() == i,
                    wf_ev_seq(values@),
                    enc_ev_seq(values@) == b@.subrange(p2 as int, cur as int),
                    parse_ev_seq(b@, cur as int, (num_values - i) as nat) == parse_ev_seq(
                        b@,
                        p2 as int,
                        num_values as nat,
                    ),
                decreases num_values - i,
            {
                let (item, end) = match element_value::new(b, cur) {
                    Ok(t) => t,
                    Err(e) => {
                        proof {
                            assert(parse_ev_seq(b@, cur as int, (num_values - i) as nat) is None);
                            assert(b@[pos as int] == 91);
                            assert(pos + 3 <= b@.len());
                            assert(be16_value(b@.subrange(pos + 1, pos + 3)) == num_values);
                            assert(parse_ev(b@, pos as int) == parse_ev_seq(
                                b@,
                                p2 as int,
                                num_values as nat,
                            ));
                        }
                        return Err(e);
                    },
                };
                let ghost gitem = item;
                let ghost prev = values@;
                values.push(item);
                proof {
                    lemma_enc_ev_seq_push(prev, gitem);
                    lemma_wf_ev_seq_push(prev, gitem);
                    lemma_subrange_join(b@, p2 as int, cur as int, end as int);
                }
                cur = end;
                i = i + 1;
            }
            let e = element_value {
                tag,
                value: element_value_data::array_value { num_values, values },
            };
            proof {
                lemma_subrange_join(b@, p1 as int, p2 as int, cur as int);
                lemma_subrange_join(b@, pos as int, p1 as int, cur as int);
            }
            Ok((e, cur))
        } else {
            Err(ClassLoadingError::ClassFormatError)
        }
    }
}

impl annotation {
    /// Decodes one annotation at `pos`: type index, pair count, then that
    /// many name-value pairs.
    pub fn new(b: &Vec<u8>, pos: usize) -> (r: Result<(annotation, usize), ClassLoadingError>)
        ensures
            r matches Ok(t) ==> {
                &&& parse_annotation(b@, pos as int) == Some(t.1 as int)
                &&& pos < t.1 <= b@.len()
                &&& enc_annotation(t.0) == b@.subrange(pos as int, t.1 as int)
                &&& wf_annotation(t.0)
            },
            r is Err ==> parse_annotation(b@, pos as int) is None && r == Err::<
                (annotation, usize),
                _,
            >(ClassLoadingError::ClassFormatError),
            parse_annotation(b@, pos as int) is Some ==> r is Ok,
        decreases b@.len() - pos,
    {
        let (type_index, p1) = read_u16(b, pos)?;
        let (num_element_value_pairs, p2) = read_u16(b, p1)?;
        proof {
            lemma_be16_value(num_element_value_pairs);
            lemma_subrange_join(b@, pos as int, p1 as int, p2 as int);
        }
        let mut element_value_pairs: Vec<element_value_pair> = Vec::new();
        let mut cur: usize = p2;
        let mut i: u16 = 0;
        proof {
            assert(enc_evpair_seq(element_value_pairs@) =~= b@.subrange(p2 as int, p2 as int));
        }
        while i < num_element_value_pairs
            invariant
                p2 <= cur <= b@.len(),
                pos + 4 == p2 <= b@.len(),
                be16_value(b@.subrange(pos + 2, pos + 4)) == num_element_value_pairs,
                i <= num_element_value_pairs,
                element_value_pairs@.len() == i,
                wf_evpair_seq(element_value_pairs@),
                enc_evpair_seq(element_value_pairs@) == b@.subrange(p2 as int, cur as int),
                parse_evpair_seq(b@, cur as int, (num_element_value_pairs - i) as nat)
                    == parse_evpair_seq(b@, p2 as int, num_element_value_pairs as nat),
            decreases num_element_value_pairs - i,
        {
            let (element_name_index, q1) = match read_u16(b, cur) {
                Ok(t) => t,
                Err(e) => {
                    proof {
                        assert(parse_evpair_seq(
                            b@,
                            cur as int,
                            (num_element_value_pairs - i) as nat,
                        ) is None);
                        assert(parse_annotation(b@, pos as int) == parse_evpair_seq(
                            b@,
                            p2 as int,
                            num_element_value_pairs as nat,
                        ));
                    }
                    return Err(e);
                },
            };
            let (value, end) = match element_value::new(b, q1) {
                Ok(t) => t,
                Err(e) => {
                    proof {
                        assert(parse_evpair_seq(
                            b@,
                            cur as int,
                            (num_element_value_pairs - i) as nat,
                        ) is None);
                        assert(parse_annotation(b@, pos as int) == parse_evpair_seq(
                            b@,
                            p2 as int,
                            num_element_value_pairs as nat,
                        ));
                    }
                    return Err(e);
                },
            };
            let pair = element_value_pair { element_name_index, value };
            let ghost gpair = pair;
            let ghost prev = element_value_pairs@;
            element_value_pairs.push(pair);
            proof {
                lemma_enc_evpair_seq_push(prev, gpair);
                lemma_wf_evpair_seq_push(prev, gpair);
                lemma_subrange_join(b@, cur as int, q1 as int, end as int);
                lemma_subrange_join(b@, p2 as int, cur as int, end as int);
            }
            cur = end;
            i = i + 1;
        }
        let a = annotation { type_index, num_element_value_pairs, element_value_pairs };
        proof {
            lemma_subrange_join(b@, pos as int, p2 as int, cur as int);
        }
        Ok((a, cur))
    }
}

/// Appends the byte image of one element value.
pub fn write_ev(out: &mut Vec<u8>, e: &element_value)
    ensures
        final(out)@ == old(out)@ + enc_ev(*e),
    decreases *e,
{
    write_u8(out, e.tag);
    write_ev_data(out, &e.value);
}

/// Appends the byte image of an element value's payload.
pub fn write_ev_data(out: &mut Vec<u8>, d: &element_value_data)
    ensures
        final(out)@ == old(out)@ + enc_ev_data(*d),
    decreases *d,
{
    match d {
        element_value_data::const_value_index(i) => {
            write_u16(out, *i);
        },
        element_value_data::enum_const_value { type_name_index, const_name_index } => {
            write_u16(out, *type_name_index);
            write_u16(out, *const_name_index);
        },
        element_value_data::class_info_index(i) => {
            write_u16(out, *i);
        },
        element_value_data::annotation_value(a) => {
            write_annotation(out, a);
        },
        element_value_data::array_value { num_values, values } => {
            write_u16(out, *num_values);
            write_ev_seq(out, values);
        },
    }
}

/// Appends the byte image of a run of element values.
pub fn write_ev_seq(out: &mut Vec<u8>, s: &Vec<element_value>)
    ensures
        final(out)@ == old(out)@ + enc_ev_seq(s@),
    decreases s@,
{
    proof {
        assert(enc_ev_seq(s@.subrange(0, 0)) =~= Seq::<u8>::empty());
        assert(out@ =~= out@ + enc_ev_seq(s@.subrange(0, 0)));
    }
    let mut i: usize = 0;
    while i < s.len()
        invariant
            i <= s@.len(),
            out@ == old(out)@ + enc_ev_seq(s@.subrange(0, i as int)),
        decreases s@.len() - i,
    {
        write_ev(out, &s[i]);
        proof {
            assert(s@.subrange(0, i + 1) =~= s@.subrange(0, i as int).push(s@[i as int]));
            lemma_enc_ev_seq_push(s@.subrange(0, i as int), s@[i as int]);
        }
        i = i + 1;
    }
    proof {
        assert(s@.subrange(0, s@.len() as int) =~= s@);
    }
}

/// Appends the byte image of one annotation.
pub fn write_annotation(out: &mut Vec<u8>, a: &annotation)
    ensures
        final(out)@ == old(out)@ + enc_annotation(*a),
    decreases *a,
{
    write_u16(out, a.type_index);
    write_u16(out, a.num_element_value_pairs);
    write_evpair_seq(out, &a.element_value_pairs);
}

/// Appends the byte image of a run of element-value pairs.
pub fn write_evpair_seq(out: &mut Vec<u8>, s: &Vec<element_value_pair>)
    ensures
        final(out)@ == old(out)@ + enc_evpair_seq(s@),
    decreases s@,
{
    proof {
        assert(enc_evpair_seq(s@.subrange(0, 0)) =~= Seq::<u8>::empty());
        assert(out@ =~= out@ + enc_evpair_seq(s@.subrange(0, 0)));
    }
    let mut i: usize = 0;
    while i < s.len()
        invariant
            i <= s@.len(),
            out@ == old(out)@ + enc_evpair_seq(s@.subrange(0, i as int)),
        decreases s@.len() - i,
    {
        write_evpair(out, &s[i]);
        proof {
            assert(s@.subrange(0, i + 1) =~= s@.subrange(0, i as int).push(s@[i as int]));
            lemma_enc_evpair_seq_push(s@.subrange(0, i as int), s@[i as int]);
        }
        i = i + 1;
    }
    proof {
        assert(s@.subrange(0, s@.len() as int) =~= s@);
    }
}

/// Appends the byte image of one element-value pair.
pub fn write_evpair(out: &mut Vec<u8>, p: &element_value_pair)
    ensures
        final(out)@ == old(out)@ + enc_evpair(*p),
    decreases *p,
{
    write_u16(out, p.element_name_index);
    write_ev(out, &p.value);
}

/// The byte image of a run of annotations.
pub open spec fn enc_annotation_seq(s: Seq<annotation>) -> Seq<u8> {
    enc_list(s, |a: annotation| enc_annotation(a))
}

/// Where a run of `n` annotations starting at `pos` ends.
pub open spec fn parse_annotation_seq(b: Seq<u8>, pos: int, n: nat) -> Option<int> {
    parse_list(b, pos, n, |bb: Seq<u8>, p: int| parse_annotation(bb, p))
}

/// Decodes a run of `n` annotations starting at `pos`.
pub fn read_annotation_seq(b: &Vec<u8>, pos: usize, n: u16) -> (r: Result<
    (Vec<annotation>, usize),
    ClassLoadingError,
>)
    requires
        pos <= b@.len(),
    ensures
        r matches Ok(t) ==> {
            &&& parse_annotation_seq(b@, pos as int, n as nat) == Some(t.1 as int)
            &&& pos <= t.1 <= b@.len()
            &&& enc_annotation_seq(t.0@) == b@.subrange(pos as int, t.1 as int)
            &&& t.0@.len() == n
            &&& wf_annotation_seq(t.0@)
        },
        r is Err ==> parse_annotation_seq(b@, pos as int, n as nat) is None && r == Err::<
            (Vec<annotation>, usize),
            _,
        >(ClassLoadingError::ClassFormatError),
        parse_annotation_seq(b@, pos as int, n as nat) is Some ==> r is Ok,
{
    let mut v: Vec<annotation> = Vec::new();
    let mut cur: usize = pos;
    let mut i: u16 = 0;
    proof {
        assert(enc_annotation_seq(v@) =~= b@.subrange(pos as int, pos as int));
    }
    while i < n
        invariant
            pos <= cur <= b@.len(),
            i <= n,
            v@.len() == i,
            wf_annotation_seq(v@),
            enc_annotation_seq(v@) == b@.subrange(pos as int, cur as int),
            parse_annotation_seq(b@, cur as int, (n - i) as nat) == parse_annotation_seq(
                b@,
                pos as int,
                n as nat,
            ),
        decreases n - i,
    {
        let (item, end) = match annotation::new(b, cur) {
            Ok(t) => t,
            Err(e) => {
                return Err(e);
            },
        };
        let ghost gitem = item;
        let ghost prev = v@;
        v.push(item);
        proof {
            lemma_enc_list_push(prev, gitem, |a: annotation| enc_annotation(a));
            lemma_wf_annotation_seq_push(prev, gitem);
            lemma_subrange_join(b@, pos as int, cur as int, end as int);
        }
        cur = end;
        i = i + 1;
    }
    Ok((v, cur))
}

/// Appends the byte image of a run of annotations.
pub fn write_annotation_seq(out: &mut Vec<u8>, s: &Vec<annotation>)
    ensures
        final(out)@ == old(out)@ + enc_annotation_seq(s@),
{
    proof {
        assert(enc_annotation_seq(s@.subrange(0, 0)) =~= Seq::<u8>::empty());
        assert(out@ =~= out@ + enc_annotation_seq(s@.subrange(0, 0)));
    }
    let mut i: usize = 0;
    while i < s.len()
        invariant
            i <= s@.len(),
            out@ == old(out)@ + enc_annotation_seq(s@.subrange(0, i as int)),
        decreases s@.len() - i,
    {
        write_annotation(out, &s[i]);
        proof {
            assert(s@.subrange(0, i + 1) =~= s@.subrange(0, i as int).push(s@[i as int]));
            lemma_enc_list_push(s@.subrange(0, i as int), s@[i as int], |a: annotation| enc_annotation(a));
        }
        i = i + 1;
    }
    proof {
        assert(s@.subrange(0, s@.len() as int) =~= s@);
    }
}

// ---------------------------------------------------------------------------
// Fixed-size tables
// ---------------------------------------------------------------------------

/// The byte image of one exception-table record.
pub open spec fn enc_exception(e: exception_info) -> Seq<u8> {
    be16(e.start_pc) + be16(e.end_pc) + be16(e.handler_pc) + be16(e.catch_type)
}

/// The byte image of one inner-class record.
pub open spec fn enc_inner_class(c: inner_class) -> Seq<u8> {
    be16(c.inner_class_info_index) + be16(c.outer_class_info_index) + be16(c.inner_name_index)
        + be16(c.inner_class_access_flags)
}

/// The byte image of one line-number record.
pub open spec fn enc_line_number(e: line_number_table_entry) -> Seq<u8> {
    be16(e.start_pc) + be16(e.line_number)
}

/// The byte image of one local-variable record.
pub open spec fn enc_local_variable(e: local_variable_table_entry) -> Seq<u8> {
    be16(e.start_pc) + be16(e.length) + be16(e.name_index) + be16(e.descriptor_index) + be16(
        e.index,
    )
}

/// The byte image of one local-variable-type record.
pub open spec fn enc_local_variable_type(e: local_variable_type_table_entry) -> Seq<u8> {
    be16(e.start_pc) + be16(e.length) + be16(e.name_index) + be16(e.signature_index) + be16(e.index)
}

/// The byte image of a run of 16-bit fields.
pub open spec fn enc_u16_seq(s: Seq<u16>) -> Seq<u8> {
    enc_list(s, |x: u16| be16(x))
}

/// Decodes a run of `n` 16-bit fields starting at `pos`.
pub fn read_u16_seq(b: &Vec<u8>, pos: usize, n: u16) -> (r: Result<
    (Vec<u16>, usize),
    ClassLoadingError,
>)
    requires
        pos <= b@.len(),
    ensures
        r matches Ok(t) ==> {
            &&& pos + 2 * n <= b@.len()
            &&& t.1 == pos + 2 * n
            &&& enc_u16_seq(t.0@) == b@.subrange(pos as int, t.1 as int)
            &&& t.0@.len() == n
        },
        r is Err ==> pos + 2 * n > b@.len() && r == Err::<(Vec<u16>, usize), _>(
            ClassLoadingError::ClassFormatError,
        ),
        pos + 2 * n <= b@.len() ==> r is Ok,
{
    let mut v: Vec<u16> = Vec::new();
    let mut cur: usize = pos;
    let mut i: u16 = 0;
    proof {
        assert(enc_u16_seq(v@) =~= b@.subrange(pos as int, pos as int));
    }
    while i < n
        invariant
            pos <= cur <= b@.len(),
            i <= n,
            cur == pos + 2 * i,
            v@.len() == i,
            enc_u16_seq(v@) == b@.subrange(pos as int, cur as int),
        decreases n - i,
    {
        let (x, end) = match read_u16(b, cur) {
            Ok(t) => t,
            Err(e) => {
                return Err(e);
            },
        };
        let ghost prev = v@;
        v.push(x);
        proof {
            lemma_enc_list_push(prev, x, |y: u16| be16(y));
            lemma_subrange_join(b@, pos as int, cur as int, end as int);
        }
        cur = end;
        i = i + 1;
    }
    Ok((v, cur))
}

/// Appends the byte image of a run of 16-bit fields.
pub fn write_u16_seq(out: &mut Vec<u8>, s: &Vec<u16>)
    ensures
        final(out)@ == old(out)@ + enc_u16_seq(s@),
{
    proof {
        assert(enc_u16_seq(s@.subrange(0, 0)) =~= Seq::<u8>::empty());
        assert(out@ =~= out@ + enc_u16_seq(s@.subrange(0, 0)));
    }
    let mut i: usize = 0;
    while i < s.len()
        invariant
            i <= s@.len(),
            out@ == old(out)@ + enc_u16_seq(s@.subrange(0, i as int)),
        decreases s@.len() - i,
    {
        write_u16(out, s[i]);
        proof {
            assert(s@.subrange(0, i + 1) =~= s@.subrange(0, i as int).push(s@[i as int]));
            lemma_enc_list_push(s@.subrange(0, i as int), s@[i as int], |y: u16| be16(y));
        }
        i = i + 1;
    }
    proof {
        assert(s@.subrange(0, s@.len() as int) =~= s@);
    }
}

/// Decodes a run of `n` exception-table records starting at `pos`.
pub fn read_exception_list(b: &Vec<u8>, pos: usize, n: u16) -> (r: Result<
    (Vec<exception_info>, usize),
    ClassLoadingError,
>)
    requires
        pos <= b@.len(),
    ensures
        r matches Ok(t) ==> {
            &&& pos + 8 * n <= b@.len()
            &&& t.1 == pos + 8 * n
            &&& enc_list(t.0@, |e: exception_info| enc_exception(e)) == b@.subrange(
                pos as int,
                t.1 as int,
            )
            &&& t.0@.len() == n
        },
        r is Err ==> pos + 8 * n > b@.len() && r == Err::<(Vec<exception_info>, usize), _>(
            ClassLoadingError::ClassFormatError,
        ),
        pos + 8 * n <= b@.len() ==> r is Ok,
{
    let mut v: Vec<exception_info> = Vec::new();
    let mut cur: usize = pos;
    let mut i: u16 = 0;
    proof {
        assert(enc_list(v@, |e: exception_info| enc_exception(e)) =~= b@.subrange(
            pos as int,
            pos as int,
        ));
    }
    while i < n
        invariant
            pos <= cur <= b@.len(),
            i <= n,
            cur == pos + 8 * i,
            v@.len() == i,
            enc_list(v@, |e: exception_info| enc_exception(e)) == b@.subrange(
                pos as int,
                cur as int,
            ),
        decreases n - i,
    {
        let (start_pc, q1) = match read_u16(b, cur) {
            Ok(t) => t,
            Err(e) => {
                return Err(e);
            },
        };
        let (end_pc, q2) = match read_u16(b, q1) {
            Ok(t) => t,
            Err(e) => {
                return Err(e);
            },
        };
        let (handler_pc, q3) = match read_u16(b, q2) {
            Ok(t) => t,
            Err(e) => {
                return Err(e);
            },
        };
        let (catch_type, end) = match read_u16(b, q3) {
            Ok(t) => t,
            Err(e) => {
                return Err(e);
            },
        };
        let rec = exception_info { start_pc, end_pc, handler_pc, catch_type };
        let ghost prev = v@;
        v.push(rec);
        proof {
            lemma_subrange_join(b@, q2 as int, q3 as int, end as int);
            lemma_subrange_join(b@, q1 as int, q2 as int, end as int);
            lemma_subrange_join(b@, cur as int, q1 as int, end as int);
            lemma_enc_list_push(prev, rec, |e: exception_info| enc_exception(e));
            lemma_subrange_join(b@, pos as int, cur as int, end as int);
        }
        cur = end;
        i = i + 1;
    }
    Ok((v, cur))
}

/// Appends the byte image of a run of exception-table records.
pub fn write_exception_list(out: &mut Vec<u8>, s: &Vec<exception_info>)
    ensures
        final(out)@ == old(out)@ + enc_list(s@, |e: exception_info| enc_exception(e)),
{
    proof {
        assert(enc_list(s@.subrange(0, 0), |e: exception_info| enc_exception(e)) =~= Seq::<
            u8,
        >::empty());
        assert(out@ =~= out@ + enc_list(s@.subrange(0, 0), |e: exception_info| enc_exception(e)));
    }
    let mut i: usize = 0;
    while i < s.len()
        invariant
            i <= s@.len(),
            out@ == old(out)@ + enc_list(
                s@.subrange(0, i as int),
                |e: exception_info| enc_exception(e),
            ),
        decreases s@.len() - i,
    {
        write_u16(out, s[i].start_pc);
        write_u16(out, s[i].end_pc);
        write_u16(out, s[i].handler_pc);
        write_u16(out, s[i].catch_type);
        proof {
            assert(s@.subrange(0, i + 1) =~= s@.subrange(0, i as int).push(s@[i as int]));
            lemma_enc_list_push(s@.subrange(0, i as int), s@[i as int], |e: exception_info| enc_exception(e));
        }
        i = i + 1;
    }
    proof {
        assert(s@.subrange(0, s@.len() as int) =~= s@);
    }
}

/// Decodes a run of `n` inner-class records starting at `pos`.
pub fn read_inner_class_list(b: &Vec<u8>, pos: usize, n: u16) -> (r: Result<
    (Vec<inner_class>, usize),
    ClassLoadingError,
>)
    requires
        pos <= b@.len(),
    ensures
        r matches Ok(t) ==> {
            &&& pos + 8 * n <= b@.len()
            &&& t.1 == pos + 8 * n
            &&& enc_list(t.0@, |c: inner_class| enc_inner_class(c)) == b@.subrange(
                pos as int,
                t.1 as int,
            )
            &&& t.0@.len() == n
        },
        r is Err ==> pos + 8 * n > b@.len() && r == Err::<(Vec<inner_class>, usize), _>(
            ClassLoadingError::ClassFormatError,
        ),
        pos + 8 * n <= b@.len() ==> r is Ok,
{
    let mut v: Vec<inner_class> = Vec::new();
    let mut cur: usize = pos;
    let mut i: u16 = 0;
    proof {
        assert(enc_list(v@, |c: inner_class| enc_inner_class(c)) =~= b@.subrange(
            pos as int,
            pos as int,
        ));
    }
    while i < n
        invariant
            pos <= cur <= b@.len(),
            i <= n,
            cur == pos + 8 * i,
            v@.len() == i,
            enc_list(v@, |c: inner_class| enc_inner_class(c)) == b@.subrange(pos as int, cur as int),
        decreases n - i,
    {
        let (inner_class_info_index, q1) = match read_u16(b, cur) {
            Ok(t) => t,
            Err(e) => {
                return Err(e);
            },
        };
        let (outer_class_info_index, q2) = match read_u16(b, q1) {
            Ok(t) => t,
            Err(e) => {
                return Err(e);
            },
        };
        let (inner_name_index, q3) = match read_u16(b, q2) {
            Ok(t) => t,
            Err(e) => {
                return Err(e);
            },
        };
        let (inner_class_access_flags, end) = match read_u16(b, q3) {
            Ok(t) => t,
            Err(e) => {
                return Err(e);
            },
        };
        let rec = inner_class {
            inner_class_info_index,
            outer_class_info_index,
            inner_name_index,
            inner_class_access_flags,
        };
        let ghost prev = v@;
        v.push(rec);
        proof {
            lemma_subrange_join(b@, q2 as int, q3 as int, end as int);
            lemma_subrange_join(b@, q1 as int, q2 as int, end as int);
            lemma_subrange_join(b@, cur as int, q1 as int, end as int);
            lemma_enc_list_push(prev, rec, |c: inner_class| enc_inner_class(c));
            lemma_subrange_join(b@, pos as int, cur as int, end as int);
        }
        cur = end;
        i = i + 1;
    }
    Ok((v, cur))
}

/// Appends the byte image of a run of inner-class records.
pub fn write_inner_class_list(out: &mut Vec<u8>, s: &Vec<inner_class>)
    ensures
        final(out)@ == old(out)@ + enc_list(s@, |c: inner_class| enc_inner_class(c)),
{
    proof {
        assert(enc_list(s@.subrange(0, 0), |c: inner_class| enc_inner_class(c)) =~= Seq::<
            u8,
        >::empty());
        assert(out@ =~= out@ + enc_list(s@.subrange(0, 0), |c: inner_class| enc_inner_class(c)));
    }
    let mut i: usize = 0;
    while i < s.len()
        invariant
            i <= s@.len(),
            out@ == old(out)@ + enc_list(
                s@.subrange(0, i as int),
                |c: inner_class| enc_inner_class(c),
            ),
        decreases s@.len() - i,
    {
        write_u16(out, s[i].inner_class_info_index);
        write_u16(out, s[i].outer_class_info_index);
        write_u16(out, s[i].inner_name_index);
        write_u16(out, s[i].inner_class_access_flags);
        proof {
            assert(s@.subrange(0, i + 1) =~= s@.subrange(0, i as int).push(s@[i as int]));
            lemma_enc_list_push(s@.subrange(0, i as int), s@[i as int], |c: inner_class| enc_inner_class(c));
        }
        i = i + 1;
    }
    proof {
        assert(s@.subrange(0, s@.len() as int) =~= s@);
    }
}

/// Decodes a run of `n` line-number records starting at `pos`.
pub fn read_line_number_list(b: &Vec<u8>, pos: usize, n: u16) -> (r: Result<
    (Vec<line_number_table_entry>, usize),
    ClassLoadingError,
>)
    requires
        pos <= b@.len(),
    ensures
        r matches Ok(t) ==> {
            &&& pos + 4 * n <= b@.len()
            &&& t.1 == pos + 4 * n
            &&& enc_list(t.0@, |e: line_number_table_entry| enc_line_number(e)) == b@.subrange(
                pos as int,
                t.1 as int,
            )
            &&& t.0@.len() == n
        },
        r is Err ==> pos + 4 * n > b@.len() && r == Err::<
            (Vec<line_number_table_entry>, usize),
            _,
        >(ClassLoadingError::ClassFormatError),
        pos + 4 * n <= b@.len() ==> r is Ok,
{
    let mut v: Vec<line_number_table_entry> = Vec::new();
    let mut cur: usize = pos;
    let mut i: u16 = 0;
    proof {
        assert(enc_list(v@, |e: line_number_table_entry| enc_line_number(e)) =~= b@.subrange(
            pos as int,
            pos as int,
        ));
    }
    while i < n
        invariant
            pos <= cur <= b@.len(),
            i <= n,
            cur == pos + 4 * i,
            v@.len() == i,
            enc_list(v@, |e: line_number_table_entry| enc_line_number(e)) == b@.subrange(
                pos as int,
                cur as int,
            ),
        decreases n - i,
    {
        let (start_pc, q1) = match read_u16(b, cur) {
            Ok(t) => t,
            Err(e) => {
                return Err(e);
            },
        };
        let (line_number, end) = match read_u16(b, q1) {
            Ok(t) => t,
            Err(e) => {
                return Err(e);
            },
        };
        let rec = line_number_table_entry { start_pc, line_number };
        let ghost prev = v@;
        v.push(rec);
        proof {
            lemma_subrange_join(b@, cur as int, q1 as int, end as int);
            lemma_enc_list_push(prev, rec, |e: line_number_table_entry| enc_line_number(e));
            lemma_subrange_join(b@, pos as int, cur as int, end as int);
        }
        cur = end;
        i = i + 1;
    }
    Ok((v, cur))
}

/// Appends the byte image of a run of line-number records.
pub fn write_line_number_list(out: &mut Vec<u8>, s: &Vec<line_number_table_entry>)
    ensures
        final(out)@ == old(out)@ + enc_list(s@, |e: line_number_table_entry| enc_line_number(e)),
{
    proof {
        assert(enc_list(s@.subrange(0, 0), |e: line_number_table_entry| enc_line_number(e)) =~= Seq::<
            u8,
        >::empty());
        assert(out@ =~= out@ + enc_list(
            s@.subrange(0, 0),
            |e: line_number_table_entry| enc_line_number(e),
        ));
    }
    let mut i: usize = 0;
    while i < s.len()
        invariant
            i <= s@.len(),
            out@ == old(out)@ + enc_list(
                s@.subrange(0, i as int),
                |e: line_number_table_entry| enc_line_number(e),
            ),
        decreases s@.len() - i,
    {
        write_u16(out, s[i].start_pc);
        write_u16(out, s[i].line_number);
        proof {
            assert(s@.subrange(0, i + 1) =~= s@.subrange(0, i as int).push(s@[i as int]));
            lemma_enc_list_push(
                s@.subrange(0, i as int),
                s@[i as int],
                |e: line_number_table_entry| enc_line_number(e),
            );
        }
        i = i + 1;
    }
    proof {
        assert(s@.subrange(0, s@.len() as int) =~= s@);
    }
}

/// Decodes a run of `n` local-variable records starting at `pos`.
pub fn read_local_variable_list(b: &Vec<u8>, pos: usize, n: u16) -> (r: Result<
    (Vec<local_variable_table_entry>, usize),
    ClassLoadingError,
>)
    requires
        pos <= b@.len(),
    ensures
        r matches Ok(t) ==> {
            &&& pos + 10 * n <= b@.len()
            &&& t.1 == pos + 10 * n
            &&& enc_list(t.0@, |e: local_variable_table_entry| enc_local_variable(e))
                == b@.subrange(pos as int, t.1 as int)
            &&& t.0@.len() == n
        },
        r is Err ==> pos + 10 * n > b@.len() && r == Err::<
            (Vec<local_variable_table_entry>, usize),
            _,
        >(ClassLoadingError::ClassFormatError),
        pos + 10 * n <= b@.len() ==> r is Ok,
{
    let mut v: Vec<local_variable_table_entry> = Vec::new();
    let mut cur: usize = pos;
    let mut i: u16 = 0;
    proof {
        assert(enc_list(v@, |e: local_variable_table_entry| enc_local_variable(e)) =~= b@.subrange(
            pos as int,
            pos as int,
        ));
    }
    while i < n
        invariant
            pos <= cur <= b@.len(),
            i <= n,
            cur == pos + 10 * i,
            v@.len() == i,
            enc_list(v@, |e: local_variable_table_entry| enc_local_variable(e)) == b@.subrange(
                pos as int,
                cur as int,
            ),
        decreases n - i,
    {
        let (start_pc, q1) = match read_u16(b, cur) {
            Ok(t) => t,
            Err(e) => {
                return Err(e);
            },
        };
        let (length, q2) = match read_u16(b, q1) {
            Ok(t) => t,
            Err(e) => {
                return Err(e);
            },
        };
        let (name_index, q3) = match read_u16(b, q2) {
            Ok(t) => t,
            Err(e) => {
                return Err(e);
            },
        };
        let (descriptor_index, q4) = match read_u16(b, q3) {
            Ok(t) => t,
            Err(e) => {
                return Err(e);
            },
        };
        let (index, end) = match read_u16(b, q4) {
            Ok(t) => t,
            Err(e) => {
                return Err(e);
            },
        };
        let rec = local_variable_table_entry { start_pc, length, name_index, descriptor_index, index };
        let ghost prev = v@;
        v.push(rec);
        proof {
            lemma_subrange_join(b@, q3 as int, q4 as int, end as int);
            lemma_subrange_join(b@, q2 as int, q3 as int, end as int);
            lemma_subrange_join(b@, q1 as int, q2 as int, end as int);
            lemma_subrange_join(b@, cur as int, q1 as int, end as int);
            lemma_enc_list_push(prev, rec, |e: local_variable_table_entry| enc_local_variable(e));
            lemma_subrange_join(b@, pos as int, cur as int, end as int);
        }
        cur = end;
        i = i + 1;
    }
    Ok((v, cur))
}

/// Appends the byte image of a run of local-variable records.
pub fn write_local_variable_list(out: &mut Vec<u8>, s: &Vec<local_variable_table_entry>)
    ensures
        final(out)@ == old(out)@ + enc_list(
            s@,
            |e: local_variable_table_entry| enc_local_variable(e),
        ),
{
    proof {
        assert(enc_list(s@.subrange(0, 0), |e: local_variable_table_entry| enc_local_variable(e))
            =~= Seq::<u8>::empty());
        assert(out@ =~= out@ + enc_list(
            s@.subrange(0, 0),
            |e: local_variable_table_entry| enc_local_variable(e),
        ));
    }
    let mut i: usize = 0;
    while i < s.len()
        invariant
            i <= s@.len(),
            out@ == old(out)@ + enc_list(
                s@.subrange(0, i as int),
                |e: local_variable_table_entry| enc_local_variable(e),
            ),
        decreases s@.len() - i,
    {
        write_u16(out, s[i].start_pc);
        write_u16(out, s[i].length);
        write_u16(out, s[i].name_index);
        write_u16(out, s[i].descriptor_index);
        write_u16(out, s[i].index);
        proof {
            assert(s@.subrange(0, i + 1) =~= s@.subrange(0, i as int).push(s@[i as int]));
            lemma_enc_list_push(
                s@.subrange(0, i as int),
                s@[i as int],
                |e: local_variable_table_entry| enc_local_variable(e),
            );
        }
        i = i + 1;
    }
    proof {
        assert(s@.subrange(0, s@.len() as int) =~= s@);
    }
}

/// Decodes a run of `n` local-variable-type records starting at `pos`.
pub fn read_local_variable_type_list(b: &Vec<u8>, pos: usize, n: u16) -> (r: Result<
    (Vec<local_variable_type_table_entry>, usize),
    ClassLoadingError,
>)
    requires
        pos <= b@.len(),
    ensures
        r matches Ok(t) ==> {
            &&& pos + 10 * n <= b@.len()
            &&& t.1 == pos + 10 * n
            &&& enc_list(t.0@, |e: local_variable_type_table_entry| enc_local_variable_type(e))
                == b@.subrange(pos as int, t.1 as int)
            &&& t.0@.len() == n
        },
        r is Err ==> pos + 10 * n > b@.len() && r == Err::<
            (Vec<local_variable_type_table_entry>, usize),
            _,
        >(ClassLoadingError::ClassFormatError),
        pos + 10 * n <= b@.len() ==> r is Ok,
{
    let mut v: Vec<local_variable_type_table_entry> = Vec::new();
    let mut cur: usize = pos;
    let mut i: u16 = 0;
    proof {
        assert(enc_list(v@, |e: local_variable_type_table_entry| enc_local_variable_type(e))
            =~= b@.subrange(pos as int, pos as int));
    }
    while i < n
        invariant
            pos <= cur <= b@.len(),
            i <= n,
            cur == pos + 10 * i,
            v@.len() == i,
            enc_list(v@, |e: local_variable_type_table_entry| enc_local_variable_type(e))
                == b@.subrange(pos as int, cur as int),
        decreases n - i,
    {
        let (start_pc, q1) = match read_u16(b, cur) {
            Ok(t) => t,
            Err(e) => {
                return Err(e);
            },
        };
        let (length, q2) = match read_u16(b, q1) {
            Ok(t) => t,
            Err(e) => {
                return Err(e);
            },
        };
        let (name_index, q3) = match read_u16(b, q2) {
            Ok(t) => t,
            Err(e) => {
                return Err(e);
            },
        };
        let (signature_index, q4) = match read_u16(b, q3) {
            Ok(t) => t,
            Err(e) => {
                return Err(e);
            },
        };
        let (index, end) = match read_u16(b, q4) {
            Ok(t) => t,
            Err(e) => {
                return Err(e);
            },
        };
        let rec = local_variable_type_table_entry {
            start_pc,
            length,
            name_index,
            signature_index,
            index,
        };
        let ghost prev = v@;
        v.push(rec);
        proof {
            lemma_subrange_join(b@, q3 as int, q4 as int, end as int);
            lemma_subrange_join(b@, q2 as int, q3 as int, end as int);
            lemma_subrange_join(b@, q1 as int, q2 as int, end as int);
            lemma_subrange_join(b@, cur as int, q1 as int, end as int);
            lemma_enc_list_push(
                prev,
                rec,
                |e: local_variable_type_table_entry| enc_local_variable_type(e),
            );
            lemma_subrange_join(b@, pos as int, cur as int, end as int);
        }
        cur = end;
        i = i + 1;
    }
    Ok((v, cur))
}

/// Appends the byte image of a run of local-variable-type records.
pub fn write_local_variable_type_list(out: &mut Vec<u8>, s: &Vec<local_variable_type_table_entry>)
    ensures
        final(out)@ == old(out)@ + enc_list(
            s@,
            |e: local_variable_type_table_entry| enc_local_variable_type(e),
        ),
{
    proof {
        assert(enc_list(
            s@.subrange(0, 0),
            |e: local_variable_type_table_entry| enc_local_variable_type(e),
        ) =~= Seq::<u8>::empty());
        assert(out@ =~= out@ + enc_list(
            s@.subrange(0, 0),
            |e: local_variable_type_table_entry| enc_local_variable_type(e),
        ));
    }
    let mut i: usize = 0;
    while i < s.len()
        invariant
            i <= s@.len(),
            out@ == old(out)@ + enc_list(
                s@.subrange(0, i as int),
                |e: local_variable_type_table_entry| enc_local_variable_type(e),
            ),
        decreases s@.len() - i,
    {
        write_u16(out, s[i].start_pc);
        write_u16(out, s[i].length);
        write_u16(out, s[i].name_index);
        write_u16(out, s[i].signature_index);
        write_u16(out, s[i].index);
        proof {
            assert(s@.subrange(0, i + 1) =~= s@.subrange(0, i as int).push(s@[i as int]));
            lemma_enc_list_push(
                s@.subrange(0, i as int),
                s@[i as int],
                |e: local_variable_type_table_entry| enc_local_variable_type(e),
            );
        }
        i = i + 1;
    }
    proof {
        assert(s@.subrange(0, s@.len() as int) =~= s@);
    }
}

// ---------------------------------------------------------------------------
// Bootstrap methods and parameter annotations
// ---------------------------------------------------------------------------

/// A bootstrap-method record holds exactly as many arguments as its count
/// field says.
pub open spec fn wf_bootstrap(m: bootstrap_method) -> bool {
    m.bootstrap_arguments@.len() == m.num_bootstrap_arguments
}

pub open spec fn wf_bootstrap_seq(s: Seq<bootstrap_method>) -> bool {
    forall|i: int| 0 <= i < s.len() ==> wf_bootstrap(#[trigger] s[i])
}

/// A per-parameter annotation table holds exactly as many annotations as
/// its count field says, each well formed.
pub open spec fn wf_annotation_list_rec(al: annotation_list) -> bool {
    al.annotations@.len() == al.num_annotations && wf_annotation_seq(al.annotations@)
}

pub open spec fn wf_param_annotation_seq(s: Seq<annotation_list>) -> bool {
    forall|i: int| 0 <= i < s.len() ==> wf_annotation_list_rec(#[trigger] s[i])
}

/// The byte image of one bootstrap-method record.
pub open spec fn enc_bootstrap(m: bootstrap_method) -> Seq<u8> {
    be16(m.bootstrap_method_ref) + be16(m.num_bootstrap_arguments) + enc_u16_seq(
        m.bootstrap_arguments@,
    )
}

/// Where one bootstrap-method record starting at `pos` ends.
pub open spec fn parse_bootstrap(b: Seq<u8>, pos: int) -> Option<int> {
    if pos < 0 || pos + 4 > b.len() {
        None
    } else {
        let n = be16_value(b.subrange(pos + 2, pos + 4));
        if pos + 4 + 2 * n <= b.len() {
            Some(pos + 4 + 2 * n)
        } else {
            None
        }
    }
}

pub open spec fn enc_bootstrap_seq(s: Seq<bootstrap_method>) -> Seq<u8> {
    enc_list(s, |m: bootstrap_method| enc_bootstrap(m))
}

pub open spec fn parse_bootstrap_seq(b: Seq<u8>, pos: int, n: nat) -> Option<int> {
    parse_list(b, pos, n, |bb: Seq<u8>, p: int| parse_bootstrap(bb, p))
}

/// Decodes one bootstrap-method record at `pos`.
pub fn read_bootstrap(b: &Vec<u8>, pos: usize) -> (r: Result<
    (bootstrap_method, usize),
    ClassLoadingError,
>)
    ensures
        r matches Ok(t) ==> {
            &&& parse_bootstrap(b@, pos as int) == Some(t.1 as int)
            &&& pos < t.1 <= b@.len()
            &&& enc_bootstrap(t.0) == b@.subrange(pos as int, t.1 as int)
            &&& wf_bootstrap(t.0)
        },
        r is Err ==> parse_bootstrap(b@, pos as int) is None && r == Err::<
            (bootstrap_method, usize),
            _,
        >(ClassLoadingError::ClassFormatError),
        parse_bootstrap(b@, pos as int) is Some ==> r is Ok,
{
    let (bootstrap_method_ref, p1) = read_u16(b, pos)?;
    let (num_bootstrap_arguments, p2) = read_u16(b, p1)?;
    proof {
        lemma_be16_value(num_bootstrap_arguments);
    }
    let (bootstrap_arguments, end) = read_u16_seq(b, p2, num_bootstrap_arguments)?;
    let m = bootstrap_method { bootstrap_method_ref, num_bootstrap_arguments, bootstrap_arguments };
    proof {
        lemma_subrange_join(b@, p1 as int, p2 as int, end as int);
        lemma_subrange_join(b@, pos as int, p1 as int, end as int);
    }
    Ok((m, end))
}

/// Decodes a run of `n` bootstrap-method records starting at `pos`.
pub fn read_bootstrap_seq(b: &Vec<u8>, pos: usize, n: u16) -> (r: Result<
    (Vec<bootstrap_method>, usize),
    ClassLoadingError,
>)
    requires
        pos <= b@.len(),
    ensures
        r matches Ok(t) ==> {
            &&& parse_bootstrap_seq(b@, pos as int, n as nat) == Some(t.1 as int)
            &&& pos <= t.1 <= b@.len()
            &&& enc_bootstrap_seq(t.0@) == b@.subrange(pos as int, t.1 as int)
            &&& t.0@.len() == n
            &&& wf_bootstrap_seq(t.0@)
        },
        r is Err ==> parse_bootstrap_seq(b@, pos as int, n as nat) is None && r == Err::<
            (Vec<bootstrap_method>, usize),
            _,
        >(ClassLoadingError::ClassFormatError),
        parse_bootstrap_seq(b@, pos as int, n as nat) is Some ==> r is Ok,
{
    let mut v: Vec<bootstrap_method> = Vec::new();
    let mut cur: usize = pos;
    let mut i: u16 = 0;
    proof {
        assert(enc_bootstrap_seq(v@) =~= b@.subrange(pos as int, pos as int));
    }
    while i < n
        invariant
            pos <= cur <= b@.len(),
            i <= n,
            v@.len() == i,
            wf_bootstrap_seq(v@),
            enc_bootstrap_seq(v@) == b@.subrange(pos as int, cur as int),
            parse_bootstrap_seq(b@, cur as int, (n - i) as nat) == parse_bootstrap_seq(
                b@,
                pos as int,
                n as nat,
            ),
        decreases n - i,
    {
        let (item, end) = match read_bootstrap(b, cur) {
            Ok(t) => t,
            Err(e) => {
                return Err(e);
            },
        };
        let ghost gitem = item;
        let ghost prev = v@;
        v.push(item);
        proof {
            lemma_enc_list_push(prev, gitem, |m: bootstrap_method| enc_bootstrap(m));
            lemma_subrange_join(b@, pos as int, cur as int, end as int);
        }
        cur = end;
        i = i + 1;
    }
    Ok((v, cur))
}

/// Appends the byte image of a run of bootstrap-method records.
pub fn write_bootstrap_seq(out: &mut Vec<u8>, s: &Vec<bootstrap_method>)
    ensures
        final(out)@ == old(out)@ + enc_bootstrap_seq(s@),
{
    proof {
        assert(enc_bootstrap_seq(s@.subrange(0, 0)) =~= Seq::<u8>::empty());
        assert(out@ =~= out@ + enc_bootstrap_seq(s@.subrange(0, 0)));
    }
    let mut i: usize = 0;
    while i < s.len()
        invariant
            i <= s@.len(),
            out@ == old(out)@ + enc_bootstrap_seq(s@.subrange(0, i as int)),
        decreases s@.len() - i,
    {
        write_u16(out, s[i].bootstrap_method_ref);
        write_u16(out, s[i].num_bootstrap_arguments);
        write_u16_seq(out, &s[i].bootstrap_arguments);
        proof {
            assert(s@.subrange(0, i + 1) =~= s@.subrange(0, i as int).push(s@[i as int]));
            lemma_enc_list_push(s@.subrange(0, i as int), s@[i as int], |m: bootstrap_method| enc_bootstrap(m));
        }
        i = i + 1;
    }
    proof {
        assert(s@.subrange(0, s@.len() as int) =~= s@);
    }
}

/// The byte image of one per-parameter annotation table.
pub open spec fn enc_annotation_list_rec(al: annotation_list) -> Seq<u8> {
    be16(al.num_annotations) + enc_annotation_seq(al.annotations@)
}

/// Where one per-parameter annotation table starting at `pos` ends.
pub open spec fn parse_annotation_list_rec(b: Seq<u8>, pos: int) -> Option<int> {
    if pos < 0 || pos + 2 > b.len() {
        None
    } else {
        parse_annotation_seq(b, pos + 2, be16_value(b.subrange(pos, pos + 2)) as nat)
    }
}

pub open spec fn enc_param_annotations(s: Seq<annotation_list>) -> Seq<u8> {
    enc_list(s, |al: annotation_list| enc_annotation_list_rec(al))
}

pub open spec fn parse_param_annotations(b: Seq<u8>, pos: int, n: nat) -> Option<int> {
    parse_list(b, pos, n, |bb: Seq<u8>, p: int| parse_annotation_list_rec(bb, p))
}

/// Decodes one per-parameter annotation table at `pos`.
pub fn read_annotation_list_rec(b: &Vec<u8>, pos: usize) -> (r: Result<
    (annotation_list, usize),
    ClassLoadingError,
>)
    ensures
        r matches Ok(t) ==> {
            &&& parse_annotation_list_rec(b@, pos as int) == Some(t.1 as int)
            &&& pos < t.1 <= b@.len()
            &&& enc_annotation_list_rec(t.0) == b@.subrange(pos as int, t.1 as int)
            &&& wf_annotation_list_rec(t.0)
        },
        r is Err ==> parse_annotation_list_rec(b@, pos as int) is None && r == Err::<
            (annotation_list, usize),
            _,
        >(ClassLoadingError::ClassFormatError),
        parse_annotation_list_rec(b@, pos as int) is Some ==> r is Ok,
{
    let (num_annotations, p1) = read_u16(b, pos)?;
    proof {
        lemma_be16_value(num_annotations);
    }
    let (annotations, end) = read_annotation_seq(b, p1, num_annotations)?;
    let al = annotation_list { num_annotations, annotations };
    proof {
        lemma_subrange_join(b@, pos as int, p1 as int, end as int);
    }
    Ok((al, end))
}

/// Decodes `n` per-parameter annotation tables starting at `pos`.
pub fn read_param_annotations(b: &Vec<u8>, pos: usize, n: u8) -> (r: Result<
    (Vec<annotation_list>, usize),
    ClassLoadingError,
>)
    requires
        pos <= b@.len(),
    ensures
        r matches Ok(t) ==> {
            &&& parse_param_annotations(b@, pos as int, n as nat) == Some(t.1 as int)
            &&& pos <= t.1 <= b@.len()
            &&& enc_param_annotations(t.0@) == b@.subrange(pos as int, t.1 as int)
            &&& t.0@.len() == n
            &&& wf_param_annotation_seq(t.0@)
        },
        r is Err ==> parse_param_annotations(b@, pos as int, n as nat) is None && r == Err::<
            (Vec<annotation_list>, usize),
            _,
        >(ClassLoadingError::ClassFormatError),
        parse_param_annotations(b@, pos as int, n as nat) is Some ==> r is Ok,
{
    let mut v: Vec<annotation_list> = Vec::new();
    let mut cur: usize = pos;
    let mut i: u8 = 0;
    proof {
        assert(enc_param_annotations(v@) =~= b@.subrange(pos as int, pos as int));
    }
    while i < n
        invariant
            pos <= cur <= b@.len(),
            i <= n,
            v@.len() == i,
            wf_param_annotation_seq(v@),
            enc_param_annotations(v@) == b@.subrange(pos as int, cur as int),
            parse_param_annotations(b@, cur as int, (n - i) as nat) == parse_param_annotations(
                b@,
                pos as int,
                n as nat,
            ),
        decreases n - i,
    {
        let (item, end) = match read_annotation_list_rec(b, cur) {
            Ok(t) => t,
            Err(e) => {
                return Err(e);
            },
        };
        let ghost gitem = item;
        let ghost prev = v@;
        v.push(item);
        proof {
            lemma_enc_list_push(prev, gitem, |al: annotation_list| enc_annotation_list_rec(al));
            lemma_subrange_join(b@, pos as int, cur as int, end as int);
        }
        cur = end;
        i = i + 1;
    }
    Ok((v, cur))
}

/// Appends the byte image of `n` per-parameter annotation tables.
pub fn write_param_annotations(out: &mut Vec<u8>, s: &Vec<annotation_list>)
    ensures
        final(out)@ == old(out)@ + enc_param_annotations(s@),
{
    proof {
        assert(enc_param_annotations(s@.subrange(0, 0)) =~= Seq::<u8>::empty());
        assert(out@ =~= out@ + enc_param_annotations(s@.subrange(0, 0)));
    }
    let mut i: usize = 0;
    while i < s.len()
        invariant
            i <= s@.len(),
            out@ == old(out)@ + enc_param_annotations(s@.subrange(0, i as int)),
        decreases s@.len() - i,
    {
        write_u16(out, s[i].num_annotations);
        write_annotation_seq(out, &s[i].annotations);
        proof {
            assert(s@.subrange(0, i + 1) =~= s@.subrange(0, i as int).push(s@[i as int]));
            lemma_enc_list_push(
                s@.subrange(0, i as int),
                s@[i as int],
                |al: annotation_list| enc_annotation_list_rec(al),
            );
        }
        i = i + 1;
    }
    proof {
        assert(s@.subrange(0, s@.len() as int) =~= s@);
    }
}

// ---------------------------------------------------------------------------
// Attributes
// ---------------------------------------------------------------------------

/// An attribute's decoded shape is the one its name selects: each of the
/// twenty known names yields its own variant, with every table exactly as
/// long as its count field says and every nested record well formed, and
/// any other name yields the opaque fallback holding exactly the stored
/// length's bytes, never a fault.
pub open spec fn wf_attr_data(
    texts: Seq<Option<Seq<char>>>,
    name: Seq<char>,
    alen: u32,
    d: attribute_info_Data,
) -> bool
    decreases d,
{
    if name == "ConstantValue"@ {
        d is ConstantValue_attribute
    } else if name == "Code"@ {
        match d {
            attribute_info_Data::Code_attribute {
                max_stack,
                max_locals,
                code_length,
                code,
                exception_table_length,
                exception_table,
                attributes_count,
                attributes,
            } => code@.len() == code_length && exception_table@.len() == exception_table_length
                && attributes@.len() == attributes_count && wf_attr_seq(texts, attributes@),
            _ => false,
        }
    } else if name == "StackMapTable"@ {
        match d {
            attribute_info_Data::StackMapTable_attribute { number_of_entries, entries } => entries@.len()
                == number_of_entries && wf_frame_seq(entries@),
            _ => false,
        }
    } else if name == "Exceptions"@ {
        match d {
            attribute_info_Data::Exceptions_attribute {
                number_of_exceptions,
                exception_index_table,
            } => exception_index_table@.len() == number_of_exceptions,
            _ => false,
        }
    } else if name == "InnerClasses"@ {
        match d {
            attribute_info_Data::InnerClasses_attribute { number_of_classes, classes } => classes@.len()
                == number_of_classes,
            _ => false,
        }
    } else if name == "EnclosingMethod"@ {
        d is EnclosingMethod_attribute
    } else if name == "Synthetic"@ {
        d is Synthetic_attribute
    } else if name == "Signature"@ {
        d is Signature_attribute
    } else if name == "SourceFile"@ {
        d is SourceFile_attribute
    } else if name == "SourceDebugExtension"@ {
        match d {
            attribute_info_Data::SourceDebugExtension { debug_extension } => debug_extension@.len()
                == alen,
            _ => false,
        }
    } else if name == "LineNumberTable"@ {
        match d {
            attribute_info_Data::LineNumberTable_attribute {
                line_number_table_length,
                line_number_table,
            } => line_number_table@.len() == line_number_table_length,
            _ => false,
        }
    } else if name == "LocalVariableTable"@ {
        match d {
            attribute_info_Data::LocalVariableTable_attribute {
                local_variable_table_length,
                local_variable_table,
            } => local_variable_table@.len() == local_variable_table_length,
            _ => false,
        }
    } else if name == "LocalVariableTypeTable"@ {
        match d {
            attribute_info_Data::LocalVariableTypeTable_attribute {
                local_variable_type_table_length,
                local_variable_type_table,
            } => local_variable_type_table@.len() == local_variable_type_table_length,
            _ => false,
        }
    } else if name == "Deprecated"@ {
        d is Deprecated_attribute
    } else if name == "RuntimeVisibleAnnotations"@ {
        match d {
            attribute_info_Data::RuntimeVisibleAnnotations_attribute {
                num_annotations,
                annotations,
            } => annotations@.len() == num_annotations && wf_annotation_seq(annotations@),
            _ => false,
        }
    } else if name == "RuntimeInvisibleAnnotations"@ {
        match d {
            attribute_info_Data::RuntimeInvisibleAnnotations_attribute {
                num_annotations,
                annotations,
            } => annotations@.len() == num_annotations && wf_annotation_seq(annotations@),
            _ => false,
        }
    } else if name == "RuntimeVisibleParameterAnnotations"@ {
        match d {
            attribute_info_Data::RuntimeVisibleParameterAnnotations_attribute {
                num_parameters,
                parameter_annotations,
            } => parameter_annotations@.len() == num_parameters && wf_param_annotation_seq(
                parameter_annotations@,
            ),
            _ => false,
        }
    } else if name == "RuntimeInvisibleParameterAnnotations"@ {
        match d {
            attribute_info_Data::RuntimeInvisibleParameterAnnotations_attribute {
                num_parameters,
                parameter_annotations,
            } => parameter_annotations@.len() == num_parameters && wf_param_annotation_seq(
                parameter_annotations@,
            ),
            _ => false,
        }
    } else if name == "AnnotationDefault"@ {
        match d {
            attribute_info_Data::AnnotationDefault_attribute { default_value } => wf_ev(
                default_value,
            ),
            _ => false,
        }
    } else if name == "BootstrapMethods"@ {
        match d {
            attribute_info_Data::BootstrapMethods_attribute {
                num_bootstrap_methods,
                bootstrap_methods,
            } => bootstrap_methods@.len() == num_bootstrap_methods && wf_bootstrap_seq(
                bootstrap_methods@,
            ),
            _ => false,
        }
    } else {
        match d {
            attribute_info_Data::Unknown_attribute { info } => info@.len() == alen,
            _ => false,
        }
    }
}

/// An attribute's name index refers to a pool text, and its shape is the
/// one that text selects.
pub open spec fn wf_attribute(texts: Seq<Option<Seq<char>>>, a: attribute_info) -> bool
    decreases a,
{
    text_at(texts, a.attribute_name_index as int) matches Some(name) && wf_attr_data(
        texts,
        name,
        a.attribute_length,
        a.info,
    )
}

pub open spec fn wf_attr_seq(texts: Seq<Option<Seq<char>>>, s: Seq<attribute_info>) -> bool
    decreases s,
{
    if s.len() == 0 {
        true
    } else {
        wf_attr_seq(texts, s.drop_last()) && wf_attribute(texts, s.last())
    }
}

pub proof fn lemma_wf_attr_seq_push(
    texts: Seq<Option<Seq<char>>>,
    s: Seq<attribute_info>,
    x: attribute_info,
)
    ensures
        wf_attr_seq(texts, s.push(x)) == (wf_attr_seq(texts, s) && wf_attribute(texts, x)),
{
    assert(s.push(x).drop_last() =~= s);
    assert(s.push(x).last() == x);
}

/// The byte image of one attribute: name index, length field, then the body.
pub open spec fn enc_attribute(a: attribute_info) -> Seq<u8>
    decreases a,
{
    be16(a.attribute_name_index) + be32(a.attribute_length) + enc_attr_data(a.info)
}

/// The byte image of an attribute's body, by shape.
pub open spec fn enc_attr_data(d: attribute_info_Data) -> Seq<u8>
    decreases d,
{
    match d {
        attribute_info_Data::ConstantValue_attribute { constantvalue_index } => be16(
            constantvalue_index,
        ),
        attribute_info_Data::Code_attribute {
            max_stack,
            max_locals,
            code_length,
            code,
            exception_table_length,
            exception_table,
            attributes_count,
            attributes,
        } => be16(max_stack) + be16(max_locals) + be32(code_length) + code@ + be16(
            exception_table_length,
        ) + enc_list(exception_table@, |e: exception_info| enc_exception(e)) + be16(
            attributes_count,
        ) + enc_attr_seq(attributes@),
        attribute_info_Data::StackMapTable_attribute { number_of_entries, entries } => be16(
            number_of_entries,
        ) + enc_frame_list(entries@),
        attribute_info_Data::Exceptions_attribute {
            number_of_exceptions,
            exception_index_table,
        } => be16(number_of_exceptions) + enc_u16_seq(exception_index_table@),
        attribute_info_Data::InnerClasses_attribute { number_of_classes, classes } => be16(
            number_of_classes,
        ) + enc_list(classes@, |c: inner_class| enc_inner_class(c)),
        attribute_info_Data::EnclosingMethod_attribute { class_index, method_index } => be16(
            class_index,
        ) + be16(method_index),
        attribute_info_Data::Synthetic_attribute => Seq::empty(),
        attribute_info_Data::Signature_attribute { signature_index } => be16(signature_index),
        attribute_info_Data::SourceFile_attribute { sourcefile_index } => be16(sourcefile_index),
        attribute_info_Data::SourceDebugExtension { debug_extension } => debug_extension@,
        attribute_info_Data::LineNumberTable_attribute {
            line_number_table_length,
            line_number_table,
        } => be16(line_number_table_length) + enc_list(
            line_number_table@,
            |e: line_number_table_entry| enc_line_number(e),
        ),
        attribute_info_Data::LocalVariableTable_attribute {
            local_variable_table_length,
            local_variable_table,
        } => be16(local_variable_table_length) + enc_list(
            local_variable_table@,
            |e: local_variable_table_entry| enc_local_variable(e),
        ),
        attribute_info_Data::LocalVariableTypeTable_attribute {
            local_variable_type_table_length,
            local_variable_type_table,
        } => be16(local_variable_type_table_length) + enc_list(
            local_variable_type_table@,
            |e: local_variable_type_table_entry| enc_local_variable_type(e),
        ),
        attribute_info_Data::Deprecated_attribute => Seq::empty(),
        attribute_info_Data::RuntimeVisibleAnnotations_attribute {
            num_annotations,
            annotations,
        } => be16(num_annotations) + enc_annotation_seq(annotations@),
        attribute_info_Data::RuntimeInvisibleAnnotations_attribute {
            num_annotations,
            annotations,
        } => be16(num_annotations) + enc_annotation_seq(annotations@),
        attribute_info_Data::RuntimeVisibleParameterAnnotations_attribute {
            num_parameters,
            parameter_annotations,
        } => seq![num_parameters] + enc_param_annotations(parameter_annotations@),
        attribute_info_Data::RuntimeInvisibleParameterAnnotations_attribute {
            num_parameters,
            parameter_annotations,
        } => seq![num_parameters] + enc_param_annotations(parameter_annotations@),
        attribute_info_Data::AnnotationDefault_attribute { default_value } => enc_ev(
            default_value,
        ),
        attribute_info_Data::BootstrapMethods_attribute {
            num_bootstrap_methods,
            bootstrap_methods,
        } => be16(num_bootstrap_methods) + enc_bootstrap_seq(bootstrap_methods@),
        attribute_info_Data::RuntimeVisibleTypeAnnotations {  } => Seq::empty(),
        attribute_info_Data::RuntimeInvisibleTypeAnnotations {  } => Seq::empty(),
        attribute_info_Data::Unknown_attribute { info } => info@,
    }
}

/// The byte image of a run of attributes.
pub open spec fn enc_attr_seq(s: Seq<attribute_info>) -> Seq<u8>
    decreases s,
{
    if s.len() == 0 {
        Seq::empty()
    } else {
        enc_attr_seq(s.drop_last()) + enc_attribute(s.last())
    }
}

pub proof fn lemma_enc_attr_seq_push(s: Seq<attribute_info>, x: attribute_info)
    ensures
        enc_attr_seq(s.push(x)) == enc_attr_seq(s) + enc_attribute(x),
{
    assert(s.push(x).drop_last() =~= s);
    assert(s.push(x).last() == x);
}

/// Where one attribute starting at `pos` ends: six header bytes, then the
/// body selected by the attribute's name, a text lookup in the pool.
pub open spec fn parse_attribute(b: Seq<u8>, texts: Seq<Option<Seq<char>>>, pos: int) -> Option<int>
    decreases b.len() - pos, 0int,
{
    if pos < 0 || pos + 6 > b.len() {
        None
    } else {
        let ni = be16_value(b.subrange(pos, pos + 2));
        let alen = be32_value(b.subrange(pos + 2, pos + 6));
        match text_at(texts, ni) {
            None => None,
            Some(name) => parse_attr_body(b, texts, pos + 6, alen, name),
        }
    }
}

/// Where an attribute body starting at `pos` ends, given the attribute's
/// name and stored length; an unrecognized name spans exactly the stored
/// length, opaquely.
pub open spec fn parse_attr_body(
    b: Seq<u8>,
    texts: Seq<Option<Seq<char>>>,
    pos: int,
    alen: int,
    name: Seq<char>,
) -> Option<
    int,
>
    decreases b.len() - pos, 0int,
{
    if pos < 0 || pos > b.len() {
        None
    } else if name == "ConstantValue"@ {
        if pos + 2 <= b.len() {
            Some(pos + 2)
        } else {
            None
        }
    } else if name == "Code"@ {
        if pos + 8 > b.len() {
            None
        } else {
            let cl = be32_value(b.subrange(pos + 4, pos + 8));
            if pos + 8 + cl > b.len() {
                None
            } else {
                let pe = pos + 8 + cl;
                if pe + 2 > b.len() {
                    None
                } else {
                    let etl = be16_value(b.subrange(pe, pe + 2));
                    if pe + 2 + 8 * etl > b.len() {
                        None
                    } else {
                        let pa = pe + 2 + 8 * etl;
                        if pa + 2 > b.len() {
                            None
                        } else {
                            let ac = be16_value(b.subrange(pa, pa + 2));
                            parse_attr_list(b, texts, pa + 2, ac as nat)
                        }
                    }
                }
            }
        }
    } else if name == "StackMapTable"@ {
        if pos + 2 <= b.len() {
            parse_frame_list(b, pos + 2, be16_value(b.subrange(pos, pos + 2)) as nat)
        } else {
            None
        }
    } else if name == "Exceptions"@ {
        if pos + 2 <= b.len() && pos + 2 + 2 * be16_value(b.subrange(pos, pos + 2)) <= b.len() {
            Some(pos + 2 + 2 * be16_value(b.subrange(pos, pos + 2)))
        } else {
            None
        }
    } else if name == "InnerClasses"@ {
        if pos + 2 <= b.len() && pos + 2 + 8 * be16_value(b.subrange(pos, pos + 2)) <= b.len() {
            Some(pos + 2 + 8 * be16_value(b.subrange(pos, pos + 2)))
        } else {
            None
        }
    } else if name == "EnclosingMethod"@ {
        if pos + 4 <= b.len() {
            Some(pos + 4)
        } else {
            None
        }
    } else if name == "Synthetic"@ {
        Some(pos)
    } else if name == "Signature"@ {
        if pos + 2 <= b.len() {
            Some(pos + 2)
        } else {
            None
        }
    } else if name == "SourceFile"@ {
        if pos + 2 <= b.len() {
            Some(pos + 2)
        } else {
            None
        }
    } else if name == "SourceDebugExtension"@ {
        if 0 <= alen && pos + alen <= b.len() {
            Some(pos + alen)
        } else {
            None
        }
    } else if name == "LineNumberTable"@ {
        if pos + 2 <= b.len() && pos + 2 + 4 * be16_value(b.subrange(pos, pos + 2)) <= b.len() {
            Some(pos + 2 + 4 * be16_value(b.subrange(pos, pos + 2)))
        } else {
            None
        }
    } else if name == "LocalVariableTable"@ {
        if pos + 2 <= b.len() && pos + 2 + 10 * be16_value(b.subrange(pos, pos + 2)) <= b.len() {
            Some(pos + 2 + 10 * be16_value(b.subrange(pos, pos + 2)))
        } else {
            None
        }
    } else if name == "LocalVariableTypeTable"@ {
        if pos + 2 <= b.len() && pos + 2 + 10 * be16_value(b.subrange(pos, pos + 2)) <= b.len() {
            Some(pos + 2 + 10 * be16_value(b.subrange(pos, pos + 2)))
        } else {
            None
        }
    } else if name == "Deprecated"@ {
        Some(pos)
    } else if name == "RuntimeVisibleAnnotations"@ {
        if pos + 2 <= b.len() {
            parse_annotation_seq(b, pos + 2, be16_value(b.subrange(pos, pos + 2)) as nat)
        } else {
            None
        }
    } else if name == "RuntimeInvisibleAnnotations"@ {
        if pos + 2 <= b.len() {
            parse_annotation_seq(b, pos + 2, be16_value(b.subrange(pos, pos + 2)) as nat)
        } else {
            None
        }
    } else if name == "RuntimeVisibleParameterAnnotations"@ {
        if pos + 1 <= b.len() {
            parse_param_annotations(b, pos + 1, b[pos] as nat)
        } else {
            None
        }
    } else if name == "RuntimeInvisibleParameterAnnotations"@ {
        if pos + 1 <= b.len() {
            parse_param_annotations(b, pos + 1, b[pos] as nat)
        } else {
            None
        }
    } else if name == "AnnotationDefault"@ {
        parse_ev(b, pos)
    } else if name == "BootstrapMethods"@ {
        if pos + 2 <= b.len() {
            parse_bootstrap_seq(b, pos + 2, be16_value(b.subrange(pos, pos + 2)) as nat)
        } else {
            None
        }
    } else {
        if 0 <= alen && pos + alen <= b.len() {
            Some(pos + alen)
        } else {
            None
        }
    }
}

/// Where a run of `n` attributes starting at `pos` ends.
pub open spec fn parse_attr_list(b: Seq<u8>, texts: Seq<Option<Seq<char>>>, pos: int, n: nat) -> Option<int>
    decreases b.len() - pos, 1int,
{
    if pos < 0 || pos > b.len() {
        None
    } else if n == 0 {
        Some(pos)
    } else {
        match parse_attribute(b, texts, pos) {
            None => None,
            Some(end) => {
                if end <= pos || end > b.len() {
                    None
                } else {
                    parse_attr_list(b, texts, end, (n - 1) as nat)
                }
            },
        }
    }
}

impl attribute_info {
    /// Decodes one attribute at `pos`: the name index must refer to a text
    /// entry of the pool, else the stream is malformed.
    pub fn new(b: &Vec<u8>, pos: usize, constant_pool: &ConstantPool) -> (r: Result<
        (attribute_info, usize),
        ClassLoadingError,
    >)
        ensures
            r matches Ok(t) ==> {
                &&& parse_attribute(b@, constant_pool.texts(), pos as int) == Some(t.1 as int)
                &&& pos + 6 <= t.1 <= b@.len()
                &&& enc_attribute(t.0) == b@.subrange(pos as int, t.1 as int)
                &&& wf_attribute(constant_pool.texts(), t.0)
            },
            r is Err ==> parse_attribute(b@, constant_pool.texts(), pos as int) is None && r == Err::<
                (attribute_info, usize),
                _,
            >(ClassLoadingError::ClassFormatError),
            parse_attribute(b@, constant_pool.texts(), pos as int) is Some ==> r is Ok,
        decreases b@.len() - pos, 0int,
    {
        let (attribute_name_index, p1) = read_u16(b, pos)?;
        let (attribute_length, p2) = read_u32(b, p1)?;
        proof {
            lemma_be16_value(attribute_name_index);
            lemma_be32_value(attribute_length);
            assert(text_at(constant_pool.texts(), attribute_name_index as int)
                == constant_pool.spec_text(attribute_name_index as int));
        }
        let name = match constant_pool.get_string_entry(attribute_name_index) {
            Some(s) => s,
            None => {
                return Err(ClassLoadingError::ClassFormatError);
            },
        };
        let (info, end) = parse_info(b, p2, constant_pool, attribute_length, name)?;
        let a = attribute_info { attribute_name_index, attribute_length, info };
        proof {
            lemma_subrange_join(b@, p1 as int, p2 as int, end as int);
            lemma_subrange_join(b@, pos as int, p1 as int, end as int);
        }
        Ok((a, end))
    }

    /// The decoded shape.
    pub fn get_data(&self) -> (r: &attribute_info_Data)
        ensures
            r == self.info,
    {
        &self.info
    }
}

/// Decodes an attribute body at `pos`, dispatching on the attribute's name;
/// an unrecognized name is preserved verbatim as an opaque blob.
#[verifier::rlimit(50)]
fn parse_info(
    b: &Vec<u8>,
    pos: usize,
    constant_pool: &ConstantPool,
    attribute_length: u32,
    name: &String,
) -> (r: Result<(attribute_info_Data, usize), ClassLoadingError>)
    requires
        pos <= b@.len(),
    ensures
        r matches Ok(t) ==> {
            &&& parse_attr_body(
                b@,
                constant_pool.texts(),
                pos as int,
                attribute_length as int,
                name@,
            ) == Some(t.1 as int)
            &&& pos <= t.1 <= b@.len()
            &&& enc_attr_data(t.0) == b@.subrange(pos as int, t.1 as int)
            &&& wf_attr_data(constant_pool.texts(), name@, attribute_length, t.0)
        },
        r is Err ==> parse_attr_body(
            b@,
            constant_pool.texts(),
            pos as int,
            attribute_length as int,
            name@,
        ) is None && r == Err::<(attribute_info_Data, usize), _>(
            ClassLoadingError::ClassFormatError,
        ),
        parse_attr_body(b@, constant_pool.texts(), pos as int, attribute_length as int, name@)
            is Some ==> r is Ok,
    decreases b@.len() - pos, 1int,
{
    if str_eq(name.as_str(), "ConstantValue") {
        let (constantvalue_index, end) = read_u16(b, pos)?;
        Ok((attribute_info_Data::ConstantValue_attribute { constantvalue_index }, end))
    } else if str_eq(name.as_str(), "Code") {
        let (max_stack, p1) = read_u16(b, pos)?;
        let (max_locals, p2) = read_u16(b, p1)?;
        let (code_length, p3) = read_u32(b, p2)?;
        proof {
            lemma_be32_value(code_length);
        }
        let (code, p4) = read_vec(b, p3, code_length as usize)?;
        let (exception_table_length, p5) = read_u16(b, p4)?;
        proof {
            lemma_be16_value(exception_table_length);
        }
        let (exception_table, p6) = read_exception_list(b, p5, exception_table_length)?;
        let (attributes_count, p7) = read_u16(b, p6)?;
        proof {
            lemma_be16_value(attributes_count);
        }
        let (attributes, end) = read_attributes(b, p7, attributes_count, constant_pool)?;
        let d = attribute_info_Data::Code_attribute {
            max_stack,
            max_locals,
            code_length,
            code,
            exception_table_length,
            exception_table,
            attributes_count,
            attributes,
        };
        proof {
            lemma_subrange_join(b@, p6 as int, p7 as int, end as int);
            lemma_subrange_join(b@, p5 as int, p6 as int, end as int);
            lemma_subrange_join(b@, p4 as int, p5 as int, end as int);
            lemma_subrange_join(b@, p3 as int, p4 as int, end as int);
            lemma_subrange_join(b@, p2 as int, p3 as int, end as int);
            lemma_subrange_join(b@, p1 as int, p2 as int, end as int);
            lemma_subrange_join(b@, pos as int, p1 as int, end as int);
        }
        Ok((d, end))
    } else if str_eq(name.as_str(), "StackMapTable") {
        let (number_of_entries, p1) = read_u16(b, pos)?;
        proof {
            lemma_be16_value(number_of_entries);
        }
        let (entries, end) = read_frame_list(b, p1, number_of_entries)?;
        proof {
            lemma_subrange_join(b@, pos as int, p1 as int, end as int);
        }
        Ok((attribute_info_Data::StackMapTable_attribute { number_of_entries, entries }, end))
    } else if str_eq(name.as_str(), "Exceptions") {
        let (number_of_exceptions, p1) = read_u16(b, pos)?;
        proof {
            lemma_be16_value(number_of_exceptions);
        }
        let (exception_index_table, end) = read_u16_seq(b, p1, number_of_exceptions)?;
        proof {
            lemma_subrange_join(b@, pos as int, p1 as int, end as int);
        }
        Ok(
            (
                attribute_info_Data::Exceptions_attribute {
                    number_of_exceptions,
                    exception_index_table,
                },
                end,
            ),
        )
    } else if str_eq(name.as_str(), "InnerClasses") {
        let (number_of_classes, p1) = read_u16(b, pos)?;
        proof {
            lemma_be16_value(number_of_classes);
        }
        let (classes, end) = read_inner_class_list(b, p1, number_of_classes)?;
        proof {
            lemma_subrange_join(b@, pos as int, p1 as int, end as int);
        }
        Ok((attribute_info_Data::InnerClasses_attribute { number_of_classes, classes }, end))
    } else if str_eq(name.as_str(), "EnclosingMethod") {
        let (class_index, p1) = read_u16(b, pos)?;
        let (method_index, end) = read_u16(b, p1)?;
        proof {
            lemma_subrange_join(b@, pos as int, p1 as int, end as int);
        }
        Ok((attribute_info_Data::EnclosingMethod_attribute { class_index, method_index }, end))
    } else if str_eq(name.as_str(), "Synthetic") {
        proof {
            assert(enc_attr_data(attribute_info_Data::Synthetic_attribute) =~= b@.subrange(
                pos as int,
                pos as int,
            ));
        }
        Ok((attribute_info_Data::Synthetic_attribute, pos))
    } else if str_eq(name.as_str(), "Signature") {
        let (signature_index, end) = read_u16(b, pos)?;
        Ok((attribute_info_Data::Signature_attribute { signature_index }, end))
    } else if str_eq(name.as_str(), "SourceFile") {
        let (sourcefile_index, end) = read_u16(b, pos)?;
        Ok((attribute_info_Data::SourceFile_attribute { sourcefile_index }, end))
    } else if str_eq(name.as_str(), "SourceDebugExtension") {
        let (debug_extension, end) = read_vec(b, pos, attribute_length as usize)?;
        Ok((attribute_info_Data::SourceDebugExtension { debug_extension }, end))
    } else if str_eq(name.as_str(), "LineNumberTable") {
        let (line_number_table_length, p1) = read_u16(b, pos)?;
        proof {
            lemma_be16_value(line_number_table_length);
        }
        let (line_number_table, end) = read_line_number_list(b, p1, line_number_table_length)?;
        proof {
            lemma_subrange_join(b@, pos as int, p1 as int, end as int);
        }
        Ok(
            (
                attribute_info_Data::LineNumberTable_attribute {
                    line_number_table_length,
                    line_number_table,
                },
                end,
            ),
        )
    } else if str_eq(name.as_str(), "LocalVariableTable") {
        let (local_variable_table_length, p1) = read_u16(b, pos)?;
        proof {
            lemma_be16_value(local_variable_table_length);
        }
        let (local_variable_table, end) = read_local_variable_list(
            b,
            p1,
            local_variable_table_length,
        )?;
        proof {
            lemma_subrange_join(b@, pos as int, p1 as int, end as int);
        }
        Ok(
            (
                attribute_info_Data::LocalVariableTable_attribute {
                    local_variable_table_length,
                    local_variable_table,
                },
                end,
            ),
        )
    } else if str_eq(name.as_str(), "LocalVariableTypeTable") {
        let (local_variable_type_table_length, p1) = read_u16(b, pos)?;
        proof {
            lemma_be16_value(local_variable_type_table_length);
        }
        let (local_variable_type_table, end) = read_local_variable_type_list(
            b,
            p1,
            local_variable_type_table_length,
        )?;
        proof {
            lemma_subrange_join(b@, pos as int, p1 as int, end as int);
        }
        Ok(
            (
                attribute_info_Data::LocalVariableTypeTable_attribute {
                    local_variable_type_table_length,
                    local_variable_type_table,
                },
                end,
            ),
        )
    } else if str_eq(name.as_str(), "Deprecated") {
        proof {
            assert(enc_attr_data(attribute_info_Data::Deprecated_attribute) =~= b@.subrange(
                pos as int,
                pos as int,
            ));
        }
        Ok((attribute_info_Data::Deprecated_attribute, pos))
    } else if str_eq(name.as_str(), "RuntimeVisibleAnnotations") {
        let (num_annotations, p1) = read_u16(b, pos)?;
        proof {
            lemma_be16_value(num_annotations);
        }
        let (annotations, end) = read_annotation_seq(b, p1, num_annotations)?;
        proof {
            lemma_subrange_join(b@, pos as int, p1 as int, end as int);
        }
        Ok(
            (
                attribute_info_Data::RuntimeVisibleAnnotations_attribute {
                    num_annotations,
                    annotations,
                },
                end,
            ),
        )
    } else if str_eq(name.as_str(), "RuntimeInvisibleAnnotations") {
        let (num_annotations, p1) = read_u16(b, pos)?;
        proof {
            lemma_be16_value(num_annotations);
        }
        let (annotations, end) = read_annotation_seq(b, p1, num_annotations)?;
        proof {
            lemma_subrange_join(b@, pos as int, p1 as int, end as int);
        }
        Ok(
            (
                attribute_info_Data::RuntimeInvisibleAnnotations_attribute {
                    num_annotations,
                    annotations,
                },
                end,
            ),
        )
    } else if str_eq(name.as_str(), "RuntimeVisibleParameterAnnotations") {
        let (num_parameters, p1) = read_u8(b, pos)?;
        let (parameter_annotations, end) = read_param_annotations(b, p1, num_parameters)?;
        proof {
            lemma_subrange_join(b@, pos as int, p1 as int, end as int);
        }
        Ok(
            (
                attribute_info_Data::RuntimeVisibleParameterAnnotations_attribute {
                    num_parameters,
                    parameter_annotations,
                },
                end,
            ),
        )
    } else if str_eq(name.as_str(), "RuntimeInvisibleParameterAnnotations") {
        let (num_parameters, p1) = read_u8(b, pos)?;
        let (parameter_annotations, end) = read_param_annotations(b, p1, num_parameters)?;
        proof {
            lemma_subrange_join(b@, pos as int, p1 as int, end as int);
        }
        Ok(
            (
                attribute_info_Data::RuntimeInvisibleParameterAnnotations_attribute {
                    num_parameters,
                    parameter_annotations,
                },
                end,
            ),
        )
    } else if str_eq(name.as_str(), "AnnotationDefault") {
        let (default_value, end) = element_value::new(b, pos)?;
        Ok((attribute_info_Data::AnnotationDefault_attribute { default_value }, end))
    } else if str_eq(name.as_str(), "BootstrapMethods") {
        let (num_bootstrap_methods, p1) = read_u16(b, pos)?;
        proof {
            lemma_be16_value(num_bootstrap_methods);
        }
        let (bootstrap_methods, end) = read_bootstrap_seq(b, p1, num_bootstrap_methods)?;
        proof {
            lemma_subrange_join(b@, pos as int, p1 as int, end as int);
        }
        Ok(
            (
                attribute_info_Data::BootstrapMethods_attribute {
                    num_bootstrap_methods,
                    bootstrap_methods,
                },
                end,
            ),
        )
    } else {
        let (info, end) = read_vec(b, pos, attribute_length as usize)?;
        Ok((attribute_info_Data::Unknown_attribute { info }, end))
    }
}

/// Decodes a run of `length` attributes starting at `pos`.
pub fn read_attributes(b: &Vec<u8>, pos: usize, length: u16, constant_pool: &ConstantPool) -> (r:
    Result<(Vec<attribute_info>, usize), ClassLoadingError>)
    requires
        pos <= b@.len(),
    ensures
        r matches Ok(t) ==> {
            &&& parse_attr_list(b@, constant_pool.texts(), pos as int, length as nat) == Some(t.1 as int)
            &&& pos <= t.1 <= b@.len()
            &&& enc_attr_seq(t.0@) == b@.subrange(pos as int, t.1 as int)
            &&& t.0@.len() == length
            &&& wf_attr_seq(constant_pool.texts(), t.0@)
        },
        r is Err ==> parse_attr_list(b@, constant_pool.texts(), pos as int, length as nat) is None && r
            == Err::<(Vec<attribute_info>, usize), _>(ClassLoadingError::ClassFormatError),
        parse_attr_list(b@, constant_pool.texts(), pos as int, length as nat) is Some ==> r is Ok,
    decreases b@.len() - pos, 1int,
{
    let mut v: Vec<attribute_info> = Vec::new();
    let mut cur: usize = pos;
    let mut i: u16 = 0;
    proof {
        assert(enc_attr_seq(v@) =~= b@.subrange(pos as int, pos as int));
    }
    while i < length
        invariant
            pos <= cur <= b@.len(),
            i <= length,
            v@.len() == i,
            wf_attr_seq(constant_pool.texts(), v@),
            enc_attr_seq(v@) == b@.subrange(pos as int, cur as int),
            parse_attr_list(b@, constant_pool.texts(), cur as int, (length - i) as nat)
                == parse_attr_list(b@, constant_pool.texts(), pos as int, length as nat),
        decreases length - i,
    {
        let (item, end) = match attribute_info::new(b, cur, constant_pool) {
            Ok(t) => t,
            Err(e) => {
                return Err(e);
            },
        };
        let ghost gitem = item;
        let ghost prev = v@;
        v.push(item);
        proof {
            lemma_enc_attr_seq_push(prev, gitem);
            lemma_wf_attr_seq_push(constant_pool.texts(), prev, gitem);
            lemma_subrange_join(b@, pos as int, cur as int, end as int);
        }
        cur = end;
        i = i + 1;
    }
    Ok((v, cur))
}

/// Appends the byte image of one attribute.
pub fn write_attribute(out: &mut Vec<u8>, a: &attribute_info)
    ensures
        final(out)@ == old(out)@ + enc_attribute(*a),
    decreases *a,
{
    write_u16(out, a.attribute_name_index);
    write_u32(out, a.attribute_length);
    write_attr_data(out, &a.info);
    proof {
        assert(out@ =~= old(out)@ + enc_attribute(*a));
    }
}

/// Appends the byte image of an attribute body.
pub fn write_attr_data(out: &mut Vec<u8>, d: &attribute_info_Data)
    ensures
        final(out)@ == old(out)@ + enc_attr_data(*d),
    decreases *d,
{
    match d {
        attribute_info_Data::ConstantValue_attribute { constantvalue_index } => {
            write_u16(out, *constantvalue_index);
        },
        attribute_info_Data::Code_attribute {
            max_stack,
            max_locals,
            code_length,
            code,
            exception_table_length,
            exception_table,
            attributes_count,
            attributes,
        } => {
            write_u16(out, *max_stack);
            write_u16(out, *max_locals);
            write_u32(out, *code_length);
            write_bytes(out, code);
            write_u16(out, *exception_table_length);
            write_exception_list(out, exception_table);
            write_u16(out, *attributes_count);
            write_attr_seq(out, attributes);
        },
        attribute_info_Data::StackMapTable_attribute { number_of_entries, entries } => {
            write_u16(out, *number_of_entries);
            write_frame_list(out, entries);
        },
        attribute_info_Data::Exceptions_attribute {
            number_of_exceptions,
            exception_index_table,
        } => {
            write_u16(out, *number_of_exceptions);
            write_u16_seq(out, exception_index_table);
        },
        attribute_info_Data::InnerClasses_attribute { number_of_classes, classes } => {
            write_u16(out, *number_of_classes);
            write_inner_class_list(out, classes);
        },
        attribute_info_Data::EnclosingMethod_attribute { class_index, method_index } => {
            write_u16(out, *class_index);
            write_u16(out, *method_index);
        },
        attribute_info_Data::Synthetic_attribute => {},
        attribute_info_Data::Signature_attribute { signature_index } => {
            write_u16(out, *signature_index);
        },
        attribute_info_Data::SourceFile_attribute { sourcefile_index } => {
            write_u16(out, *sourcefile_index);
        },
        attribute_info_Data::SourceDebugExtension { debug_extension } => {
            write_bytes(out, debug_extension);
        },
        attribute_info_Data::LineNumberTable_attribute {
            line_number_table_length,
            line_number_table,
        } => {
            write_u16(out, *line_number_table_length);
            write_line_number_list(out, line_number_table);
        },
        attribute_info_Data::LocalVariableTable_attribute {
            local_variable_table_length,
            local_variable_table,
        } => {
            write_u16(out, *local_variable_table_length);
            write_local_variable_list(out, local_variable_table);
        },
        attribute_info_Data::LocalVariableTypeTable_attribute {
            local_variable_type_table_length,
            local_variable_type_table,
        } => {
            write_u16(out, *local_variable_type_table_length);
            write_local_variable_type_list(out, local_variable_type_table);
        },
        attribute_info_Data::Deprecated_attribute => {},
        attribute_info_Data::RuntimeVisibleAnnotations_attribute {
            num_annotations,
            annotations,
        } => {
            write_u16(out, *num_annotations);
            write_annotation_seq(out, annotations);
        },
        attribute_info_Data::RuntimeInvisibleAnnotations_attribute {
            num_annotations,
            annotations,
        } => {
            write_u16(out, *num_annotations);
            write_annotation_seq(out, annotations);
        },
        attribute_info_Data::RuntimeVisibleParameterAnnotations_attribute {
            num_parameters,
            parameter_annotations,
        } => {
            write_u8(out, *num_parameters);
            write_param_annotations(out, parameter_annotations);
        },
        attribute_info_Data::RuntimeInvisibleParameterAnnotations_attribute {
            num_parameters,
            parameter_annotations,
        } => {
            write_u8(out, *num_parameters);
            write_param_annotations(out, parameter_annotations);
        },
        attribute_info_Data::AnnotationDefault_attribute { default_value } => {
            write_ev(out, default_value);
        },
        attribute_info_Data::BootstrapMethods_attribute {
            num_bootstrap_methods,
            bootstrap_methods,
        } => {
            write_u16(out, *num_bootstrap_methods);
            write_bootstrap_seq(out, bootstrap_methods);
        },
        attribute_info_Data::RuntimeVisibleTypeAnnotations {  } => {},
        attribute_info_Data::RuntimeInvisibleTypeAnnotations {  } => {},
        attribute_info_Data::Unknown_attribute { info } => {
            write_bytes(out, info);
        },
    }
    proof {
        assert(out@ =~= old(out)@ + enc_attr_data(*d));
    }
}

/// Appends the byte image of a run of attributes.
pub fn write_attr_seq(out: &mut Vec<u8>, s: &Vec<attribute_info>)
    ensures
        final(out)@ == old(out)@ + enc_attr_seq(s@),
    decreases s@,
{
    proof {
        assert(enc_attr_seq(s@.subrange(0, 0)) =~= Seq::<u8>::empty());
        assert(out@ =~= out@ + enc_attr_seq(s@.subrange(0, 0)));
    }
    let mut i: usize = 0;
    while i < s.len()
        invariant
            i <= s@.len(),
            out@ == old(out)@ + enc_attr_seq(s@.subrange(0, i as int)),
        decreases s@.len() - i,
    {
        write_attribute(out, &s[i]);
        proof {
            assert(s@.subrange(0, i + 1) =~= s@.subrange(0, i as int).push(s@[i as int]));
            lemma_enc_attr_seq_push(s@.subrange(0, i as int), s@[i as int]);
        }
        i = i + 1;
    }
    proof {
        assert(s@.subrange(0, s@.len() as int) =~= s@);
    }
}

} // verus!
