//! The per-class constant pool: a 1-indexed table of typed constants.
//!
//! An 8-byte constant (`CONSTANT_Long_info` or `CONSTANT_Double_info`)
//! occupies its own slot and leaves the following slot permanently unused;
//! slot 0 is never used.  Text entries keep both their raw modified-UTF-8
//! bytes (so that re-encoding reproduces the stream exactly) and the decoded
//! string.

use vstd::prelude::*;
use vstd::slice::slice_subrange;
use vstd::slice::slice_to_vec;

use crate::class_file::ClassLoadingError;
use crate::codec::be16;
use crate::codec::be32;
use crate::codec::be64;
use crate::codec::bits_of_i32;
use crate::codec::bits_of_i64;
use crate::codec::i32_from_bits;
use crate::codec::i64_from_bits;
use crate::codec::lemma_i32_bits_roundtrip;
use crate::codec::lemma_i64_bits_roundtrip;
use crate::codec::be16_value;
use crate::codec::lemma_be16_value;
use crate::codec::lemma_subrange_join;
use crate::codec::read_u16;
use crate::codec::read_u32;
use crate::codec::read_u64;
use crate::codec::read_u8;
use crate::codec::write_u16;
use crate::codec::write_u32;
use crate::codec::write_u64;
use crate::codec::write_u8;
use crate::codec::i32_to_bits;
use crate::codec::i64_to_bits;

verus! {

/// What `cesu8::from_java_cesu8` decodes a modified-UTF-8 byte string to,
/// `None` where it rejects the bytes.  The result is a function of the bytes
/// alone.
pub uninterp spec fn decoded_text(bytes: Seq<u8>) -> Option<Seq<char>>;

/// Relies on `cesu8::from_java_cesu8`: decodes Java's modified UTF-8 into a
/// string.  That decoder also passes plain UTF-8 through unchanged, so some
/// byte strings outside strict modified UTF-8 are accepted too; the name
/// `decoded_text` stands for whatever the call returns.
#[verifier::external_body]
fn decode_modified_utf8(bytes: &Vec<u8>) -> (r: Option<String>)
    ensures
        r matches Some(s) ==> decoded_text(bytes@) == Some(s@),
        r is None <==> decoded_text(bytes@) is None,
{
    match cesu8::from_java_cesu8(bytes.as_slice()) {
        Ok(text) => Some(text.into_owned()),
        Err(_) => None,
    }
}

/// One constant-pool entry, tagged as in the class-file format.
#[derive(Debug)]
pub enum cp_info {
    /// `name_index` -> constant_pool index of a `CONSTANT_Utf8_info` holding a class name.
    CONSTANT_Class_info { name_index: u16 },
    CONSTANT_Fieldref_info { class_index: u16, name_and_type_index: u16 },
    CONSTANT_Methodref_info { class_index: u16, name_and_type_index: u16 },
    CONSTANT_InterfaceMethodref_info { class_index: u16, name_and_type_index: u16 },
    CONSTANT_String_info { string_index: u16 },
    CONSTANT_Integer_info { bytes: i32 },
    /// The raw bits of an IEEE 754 single; kept uninterpreted.
    CONSTANT_Float_info { bits: u32 },
    CONSTANT_Long_info { value: i64 },
    /// The raw bits of an IEEE 754 double; kept uninterpreted.
    CONSTANT_Double_info { bits: u64 },
    CONSTANT_NameAndType_info { name_index: u16, descriptor_index: u16 },
    /// `bytes` -> the raw modified-UTF-8 bytes; `text` -> their decoding.
    CONSTANT_Utf8_info { bytes: Vec<u8>, text: String },
}

/// The byte image of one entry: its tag followed by its fields.
pub open spec fn enc_cp_entry(e: cp_info) -> Seq<u8> {
    match e {
        cp_info::CONSTANT_Class_info { name_index } => seq![7u8] + be16(name_index),
        cp_info::CONSTANT_Fieldref_info { class_index, name_and_type_index } => seq![9u8] + be16(
            class_index,
        ) + be16(name_and_type_index),
        cp_info::CONSTANT_Methodref_info { class_index, name_and_type_index } => seq![10u8] + be16(
            class_index,
        ) + be16(name_and_type_index),
        cp_info::CONSTANT_InterfaceMethodref_info { class_index, name_and_type_index } => seq![
            11u8,
        ] + be16(class_index) + be16(name_and_type_index),
        cp_info::CONSTANT_String_info { string_index } => seq![8u8] + be16(string_index),
        cp_info::CONSTANT_Integer_info { bytes } => seq![3u8] + be32(bits_of_i32(bytes)),
        cp_info::CONSTANT_Float_info { bits } => seq![4u8] + be32(bits),
        cp_info::CONSTANT_Long_info { value } => seq![5u8] + be64(bits_of_i64(value)),
        cp_info::CONSTANT_Double_info { bits } => seq![6u8] + be64(bits),
        cp_info::CONSTANT_NameAndType_info { name_index, descriptor_index } => seq![12u8] + be16(
            name_index,
        ) + be16(descriptor_index),
        cp_info::CONSTANT_Utf8_info { bytes, text } => seq![1u8] + be16(bytes@.len() as u16)
            + bytes@,
    }
}

/// An entry is well formed when a text entry's decoded string matches its raw
/// bytes and its length fits the 16-bit length field.
pub open spec fn wf_cp_entry(e: cp_info) -> bool {
    match e {
        cp_info::CONSTANT_Utf8_info { bytes, text } => bytes@.len() <= 0xFFFF && decoded_text(
            bytes@,
        ) == Some(text@),
        _ => true,
    }
}

/// How many pool slots an entry with this leading tag occupies.
pub open spec fn slot_width(tag: u8) -> nat {
    if tag == 5 || tag == 6 {
        2
    } else {
        1
    }
}

/// Where a single entry starting at `pos` ends, or `None` where the bytes do
/// not form an entry: an unknown tag, a truncated stream, or text bytes
/// outside the modified-UTF-8 encoding.
pub open spec fn parse_cp_entry(b: Seq<u8>, pos: int) -> Option<int> {
    if pos < 0 || pos + 1 > b.len() {
        None
    } else {
        let tag = b[pos];
        if tag == 7 || tag == 8 {
            if pos + 3 <= b.len() {
                Some(pos + 3)
            } else {
                None
            }
        } else if tag == 9 || tag == 10 || tag == 11 || tag == 12 {
            if pos + 5 <= b.len() {
                Some(pos + 5)
            } else {
                None
            }
        } else if tag == 3 || tag == 4 {
            if pos + 5 <= b.len() {
                Some(pos + 5)
            } else {
                None
            }
        } else if tag == 5 || tag == 6 {
            if pos + 9 <= b.len() {
                Some(pos + 9)
            } else {
                None
            }
        } else if tag == 1 {
            if pos + 3 <= b.len() {
                let n = be16_value(b.subrange(pos + 1, pos + 3));
                if pos + 3 + n <= b.len() && decoded_text(b.subrange(pos + 3, pos + 3 + n))
                    is Some {
                    Some(pos + 3 + n)
                } else {
                    None
                }
            } else {
                None
            }
        } else {
            None
        }
    }
}

/// A run of pool slots: `None` slots (the phantom second slot of an 8-byte
/// constant) contribute no bytes.
pub open spec fn enc_cp_slot(s: Option<cp_info>) -> Seq<u8> {
    match s {
        Some(e) => enc_cp_entry(e),
        None => Seq::empty(),
    }
}

/// The byte image of a slot table, in slot order.
pub open spec fn enc_cp_slots(s: Seq<Option<cp_info>>) -> Seq<u8>
    decreases s.len(),
{
    if s.len() == 0 {
        Seq::empty()
    } else {
        enc_cp_slots(s.drop_last()) + enc_cp_slot(s.last())
    }
}

pub proof fn lemma_enc_cp_slots_push(s: Seq<Option<cp_info>>, x: Option<cp_info>)
    ensures
        enc_cp_slots(s.push(x)) == enc_cp_slots(s) + enc_cp_slot(x),
{
    assert(s.push(x).drop_last() =~= s);
    assert(s.push(x).last() == x);
}

/// Where a run of entries filling `remaining` slots ends, walking entries in
/// order and honouring the double-slot rule; `None` where any entry is
/// malformed or the widths do not add up to `remaining` exactly.
pub open spec fn parse_cp_list(b: Seq<u8>, pos: int, remaining: nat) -> Option<int>
    decreases remaining,
{
    if remaining == 0 {
        Some(pos)
    } else {
        match parse_cp_entry(b, pos) {
            None => None,
            Some(end) => {
                let w = slot_width(b[pos]);
                if w > remaining {
                    None
                } else if end <= pos {
                    None
                } else {
                    parse_cp_list(b, end, (remaining - w) as nat)
                }
            },
        }
    }
}

/// The slot table has the format's shape: slot 0 unused, every 8-byte
/// constant followed by exactly one unused slot, unused slots only there.
pub open spec fn wf_cp_slots(s: Seq<Option<cp_info>>) -> bool {
    &&& s.len() >= 1
    &&& s[0] is None
    &&& forall|i: int|
        1 <= i < s.len() && s[i] is None ==> (s[i - 1] matches Some(e) && (e is CONSTANT_Long_info
            || e is CONSTANT_Double_info))
    &&& forall|i: int|
        0 <= i < s.len() && (#[trigger] s[i] matches Some(e) && (e is CONSTANT_Long_info
            || e is CONSTANT_Double_info)) ==> i + 1 < s.len() && s[i + 1] is None
    &&& forall|i: int|
        0 <= i < s.len() ==> match #[trigger] s[i] {
            Some(e) => wf_cp_entry(e),
            None => true,
        }
}

/// The text at index `i` of a slot-indexed text table, `None` where the
/// index is out of range or the slot holds no text.
pub open spec fn text_at(texts: Seq<Option<Seq<char>>>, i: int) -> Option<Seq<char>> {
    if 0 <= i < texts.len() {
        texts[i]
    } else {
        None
    }
}

/// The class-name index at slot `i` of a slot-indexed table of class
/// references, `None` where the slot holds no class reference.
pub open spec fn cref_at(crefs: Seq<Option<u16>>, i: int) -> Option<u16> {
    if 0 <= i < crefs.len() {
        crefs[i]
    } else {
        None
    }
}

/// The decoded text of each slot of a pool encoded at `pos`, in slot order,
/// excluding the unused slot 0; slots that hold no text are `None`.
pub open spec fn texts_of(b: Seq<u8>, pos: int, remaining: nat) -> Seq<Option<Seq<char>>>
    decreases remaining,
{
    if remaining == 0 {
        Seq::empty()
    } else {
        match parse_cp_entry(b, pos) {
            None => Seq::empty(),
            Some(end) => {
                let w = slot_width(b[pos]);
                if w > remaining || end <= pos {
                    Seq::empty()
                } else {
                    let this = if b[pos] == 1 {
                        seq![decoded_text(b.subrange(pos + 3, end))]
                    } else if w == 2 {
                        seq![None, None]
                    } else {
                        seq![None]
                    };
                    this + texts_of(b, end, (remaining - w) as nat)
                }
            },
        }
    }
}

/// The class-name index held by each slot of a pool encoded at `pos`, in
/// slot order, excluding the unused slot 0; slots that are not class
/// references are `None`.
pub open spec fn crefs_of(b: Seq<u8>, pos: int, remaining: nat) -> Seq<Option<u16>>
    decreases remaining,
{
    if remaining == 0 {
        Seq::empty()
    } else {
        match parse_cp_entry(b, pos) {
            None => Seq::empty(),
            Some(end) => {
                let w = slot_width(b[pos]);
                if w > remaining || end <= pos {
                    Seq::empty()
                } else {
                    let this = if b[pos] == 7 {
                        seq![Some(be16_value(b.subrange(pos + 1, pos + 3)) as u16)]
                    } else if w == 2 {
                        seq![None, None]
                    } else {
                        seq![None]
                    };
                    this + crefs_of(b, end, (remaining - w) as nat)
                }
            },
        }
    }
}

/// The text held by one slot.
pub open spec fn slot_text(s: Option<cp_info>) -> Option<Seq<char>> {
    match s {
        Some(cp_info::CONSTANT_Utf8_info { bytes, text }) => Some(text@),
        _ => None,
    }
}

/// The class-name index held by one slot.
pub open spec fn slot_cref(s: Option<cp_info>) -> Option<u16> {
    match s {
        Some(cp_info::CONSTANT_Class_info { name_index }) => Some(name_index),
        _ => None,
    }
}

/// The text of every slot of a slot table, in slot order.
pub open spec fn slots_texts(s: Seq<Option<cp_info>>) -> Seq<Option<Seq<char>>> {
    Seq::new(s.len(), |i: int| slot_text(s[i]))
}

/// The class-name index of every slot of a slot table, in slot order.
pub open spec fn slots_crefs(s: Seq<Option<cp_info>>) -> Seq<Option<u16>> {
    Seq::new(s.len(), |i: int| slot_cref(s[i]))
}

/// The leading byte of an entry's image is its tag, and it determines the
/// entry's variant; a text entry's image carries its raw bytes after the
/// three header bytes, and a class reference carries its name index.
pub proof fn lemma_cp_entry_tag(e: cp_info)
    ensures
        enc_cp_entry(e).len() >= 1,
        enc_cp_entry(e)[0] == 1 <==> e is CONSTANT_Utf8_info,
        enc_cp_entry(e)[0] == 7 <==> e is CONSTANT_Class_info,
        enc_cp_entry(e)[0] == 5 <==> e is CONSTANT_Long_info,
        enc_cp_entry(e)[0] == 6 <==> e is CONSTANT_Double_info,
        e matches cp_info::CONSTANT_Utf8_info { bytes, text } ==> enc_cp_entry(e).len() == 3
            + bytes@.len() && enc_cp_entry(e).subrange(3, enc_cp_entry(e).len() as int) =~= bytes@,
        e matches cp_info::CONSTANT_Class_info { name_index } ==> enc_cp_entry(e).len() == 3
            && be16_value(enc_cp_entry(e).subrange(1, 3)) == name_index,
{
    match e {
        cp_info::CONSTANT_Class_info { name_index } => {
            lemma_be16_value(name_index);
            assert(enc_cp_entry(e).subrange(1, 3) =~= be16(name_index));
        },
        _ => {},
    }
}

/// A 1-indexed table of constants; some slots are intentionally unused.
#[derive(Debug)]
pub struct ConstantPool(pub Vec<Option<cp_info>>);

impl ConstantPool {
    /// The slot table, including unused slots.
    pub open spec fn slots(self) -> Seq<Option<cp_info>> {
        self.0@
    }

    /// The decoded text held by the entry at `i`, where that entry is a text
    /// entry.
    pub open spec fn spec_text(self, i: int) -> Option<Seq<char>> {
        if 0 <= i < self.slots().len() {
            match self.slots()[i] {
                Some(cp_info::CONSTANT_Utf8_info { bytes, text }) => Some(text@),
                _ => None,
            }
        } else {
            None
        }
    }

    /// The class-name index held by the entry at `i`, where that entry is a
    /// class reference.
    pub open spec fn spec_class_ref(self, i: int) -> Option<u16> {
        if 0 <= i < self.slots().len() {
            match self.slots()[i] {
                Some(cp_info::CONSTANT_Class_info { name_index }) => Some(name_index),
                _ => None,
            }
        } else {
            None
        }
    }

    /// The text of every slot, in slot order.
    pub open spec fn texts(self) -> Seq<Option<Seq<char>>> {
        slots_texts(self.slots())
    }

    /// The class-name index of every slot, in slot order.
    pub open spec fn class_refs(self) -> Seq<Option<u16>> {
        slots_crefs(self.slots())
    }

    /// The entry at `index`, or `None` where the index is out of range or the
    /// slot is unused.
    pub fn get_entry(&self, index: u16) -> (r: Option<&cp_info>)
        ensures
            match r {
                Some(e) => index < self.slots().len() && self.slots()[index as int] == Some(*e),
                None => index >= self.slots().len() || self.slots()[index as int] is None,
            },
    {
        if (index as usize) < self.0.len() {
            match &self.0[index as usize] {
                Some(e) => Some(e),
                None => None,
            }
        } else {
            None
        }
    }

    /// The decoded text at `index`, or `None` unless that entry is a text
    /// entry.
    pub fn get_string_entry(&self, index: u16) -> (r: Option<&String>)
        ensures
            match r {
                Some(s) => self.spec_text(index as int) == Some(s@),
                None => self.spec_text(index as int) is None,
            },
    {
        match self.get_entry(index) {
            Some(cp_info::CONSTANT_Utf8_info { bytes, text }) => Some(text),
            _ => None,
        }
    }
}

impl cp_info {
    /// Decodes one entry at `pos`: the tag byte selects the shape; a tag
    /// outside the closed set is a format fault, never defaulted.
    pub fn new(b: &Vec<u8>, pos: usize) -> (r: Result<(cp_info, usize), ClassLoadingError>)
        ensures
            r matches Ok(t) ==> {
                &&& parse_cp_entry(b@, pos as int) == Some(t.1 as int)
                &&& pos <= t.1 <= b@.len()
                &&& enc_cp_entry(t.0) == b@.subrange(pos as int, t.1 as int)
                &&& wf_cp_entry(t.0)
                &&& slot_width(b@[pos as int]) == 2 <==> (t.0 is CONSTANT_Long_info
                    || t.0 is CONSTANT_Double_info)
            },
            r is Err ==> parse_cp_entry(b@, pos as int) is None && r == Err::<
                (cp_info, usize),
                _,
            >(ClassLoadingError::ClassFormatError),
            parse_cp_entry(b@, pos as int) is Some ==> r is Ok,
    {
        let (tag, p1) = read_u8(b, pos)?;
        match tag {
            7 => {
                let (name_index, end) = read_u16(b, p1)?;
                proof {
                    lemma_subrange_join(b@, pos as int, p1 as int, end as int);
                }
                Ok((cp_info::CONSTANT_Class_info { name_index }, end))
            },
            8 => {
                let (string_index, end) = read_u16(b, p1)?;
                proof {
                    lemma_subrange_join(b@, pos as int, p1 as int, end as int);
                }
                Ok((cp_info::CONSTANT_String_info { string_index }, end))
            },
            9 => {
                let (class_index, p2) = read_u16(b, p1)?;
                let (name_and_type_index, end) = read_u16(b, p2)?;
                proof {
                    lemma_subrange_join(b@, p1 as int, p2 as int, end as int);
                    lemma_subrange_join(b@, pos as int, p1 as int, end as int);
                }
                Ok((cp_info::CONSTANT_Fieldref_info { class_index, name_and_type_index }, end))
            },
            10 => {
                let (class_index, p2) = read_u16(b, p1)?;
                let (name_and_type_index, end) = read_u16(b, p2)?;
                proof {
                    lemma_subrange_join(b@, p1 as int, p2 as int, end as int);
                    lemma_subrange_join(b@, pos as int, p1 as int, end as int);
                }
                Ok((cp_info::CONSTANT_Methodref_info { class_index, name_and_type_index }, end))
            },
            11 => {
                let (class_index, p2) = read_u16(b, p1)?;
                let (name_and_type_index, end) = read_u16(b, p2)?;
                proof {
                    lemma_subrange_join(b@, p1 as int, p2 as int, end as int);
                    lemma_subrange_join(b@, pos as int, p1 as int, end as int);
                }
                Ok(
                    (
                        cp_info::CONSTANT_InterfaceMethodref_info {
                            class_index,
                            name_and_type_index,
                        },
                        end,
                    ),
                )
            },
            12 => {
                let (name_index, p2) = read_u16(b, p1)?;
                let (descriptor_index, end) = read_u16(b, p2)?;
                proof {
                    lemma_subrange_join(b@, p1 as int, p2 as int, end as int);
                    lemma_subrange_join(b@, pos as int, p1 as int, end as int);
                }
                Ok((cp_info::CONSTANT_NameAndType_info { name_index, descriptor_index }, end))
            },
            3 => {
                let (bits, end) = read_u32(b, p1)?;
                let value = i32_from_bits(bits);
                proof {
                    lemma_subrange_join(b@, pos as int, p1 as int, end as int);
                    lemma_i32_bits_roundtrip(value);
                    assert(bits_of_i32(value) == bits);
                }
                Ok((cp_info::CONSTANT_Integer_info { bytes: value }, end))
            },
            4 => {
                let (bits, end) = read_u32(b, p1)?;
                proof {
                    lemma_subrange_join(b@, pos as int, p1 as int, end as int);
                }
                Ok((cp_info::CONSTANT_Float_info { bits }, end))
            },
            5 => {
                let (bits, end) = read_u64(b, p1)?;
                let value = i64_from_bits(bits);
                proof {
                    lemma_subrange_join(b@, pos as int, p1 as int, end as int);
                    lemma_i64_bits_roundtrip(value);
                    assert(bits_of_i64(value) == bits);
                }
                Ok((cp_info::CONSTANT_Long_info { value }, end))
            },
            6 => {
                let (bits, end) = read_u64(b, p1)?;
                proof {
                    lemma_subrange_join(b@, pos as int, p1 as int, end as int);
                }
                Ok((cp_info::CONSTANT_Double_info { bits }, end))
            },
            1 => {
                let (length, p2) = read_u16(b, p1)?;
                if b.len() < length as usize || p2 > b.len() - length as usize {
                    return Err(ClassLoadingError::ClassFormatError);
                }
                let end = p2 + length as usize;
                let raw = slice_to_vec(slice_subrange(b.as_slice(), p2, end));
                assert(raw@ == b@.subrange(p2 as int, end as int));
                proof {
                    assert(be16_value(b@.subrange(p1 as int, p2 as int)) == length) by {
                        assert(be16(length) == b@.subrange(p1 as int, p2 as int));
                        assert(be16(length)[0] * 0x100 + be16(length)[1] == length);
                    }
                }
                match decode_modified_utf8(&raw) {
                    Some(text) => {
                        proof {
                            lemma_subrange_join(b@, p1 as int, p2 as int, end as int);
                            lemma_subrange_join(b@, pos as int, p1 as int, end as int);
                            assert(be16(raw@.len() as u16) == be16(length));
                        }
                        Ok((cp_info::CONSTANT_Utf8_info { bytes: raw, text }, end))
                    },
                    None => Err(ClassLoadingError::ClassFormatError),
                }
            },
            _ => Err(ClassLoadingError::ClassFormatError),
        }
    }
}

/// Reads `constant_pool_count - 1` slots' worth of entries starting at `pos`,
/// honouring the double-slot rule; a count of zero cannot describe a pool and
/// is a format fault.
#[verifier::rlimit(100)]
pub fn read_constant_pool(b: &Vec<u8>, pos: usize, constant_pool_count: u16) -> (r: Result<
    (ConstantPool, usize),
    ClassLoadingError,
>)
    requires
        pos <= b@.len(),
    ensures
        r matches Ok(t) ==> {
            &&& constant_pool_count >= 1
            &&& parse_cp_list(b@, pos as int, (constant_pool_count - 1) as nat) == Some(t.1 as int)
            &&& pos <= t.1 <= b@.len()
            &&& enc_cp_slots(t.0.slots()) == b@.subrange(pos as int, t.1 as int)
            &&& wf_cp_slots(t.0.slots())
            &&& t.0.slots().len() == constant_pool_count
            &&& t.0.texts() == seq![None::<Seq<char>>] + texts_of(
                b@,
                pos as int,
                (constant_pool_count - 1) as nat,
            )
            &&& t.0.class_refs() == seq![None::<u16>] + crefs_of(
                b@,
                pos as int,
                (constant_pool_count - 1) as nat,
            )
        },
        r is Err ==> (constant_pool_count == 0 || parse_cp_list(
            b@,
            pos as int,
            (constant_pool_count - 1) as nat,
        ) is None) && r == Err::<(ConstantPool, usize), _>(ClassLoadingError::ClassFormatError),
        constant_pool_count >= 1 && parse_cp_list(
            b@,
            pos as int,
            (constant_pool_count - 1) as nat,
        ) is Some ==> r is Ok,
{
    if constant_pool_count == 0 {
        return Err(ClassLoadingError::ClassFormatError);
    }
    let mut pool: Vec<Option<cp_info>> = Vec::new();
    pool.push(None);
    let mut remaining: u16 = constant_pool_count - 1;
    let mut cur: usize = pos;
    proof {
        assert(pool@ =~= Seq::empty().push(None::<cp_info>));
        lemma_enc_cp_slots_push(Seq::empty(), None);
        assert(enc_cp_slots(pool@) =~= b@.subrange(pos as int, pos as int));
        assert(slots_texts(pool@) =~= seq![None::<Seq<char>>]);
        assert(slots_crefs(pool@) =~= seq![None::<u16>]);
    }
    while remaining > 0
        invariant
            pos <= cur <= b@.len(),
            pool@.len() + remaining == constant_pool_count,
            enc_cp_slots(pool@) == b@.subrange(pos as int, cur as int),
            wf_cp_slots(pool@),
            parse_cp_list(b@, cur as int, remaining as nat) == parse_cp_list(
                b@,
                pos as int,
                (constant_pool_count - 1) as nat,
            ),
            seq![None::<Seq<char>>] + texts_of(b@, pos as int, (constant_pool_count - 1) as nat)
                == slots_texts(pool@) + texts_of(b@, cur as int, remaining as nat),
            seq![None::<u16>] + crefs_of(b@, pos as int, (constant_pool_count - 1) as nat)
                == slots_crefs(pool@) + crefs_of(b@, cur as int, remaining as nat),
            forall|i: int|
                0 <= i < pool@.len() && (#[trigger] pool@[i] matches Some(e) && (
                e is CONSTANT_Long_info || e is CONSTANT_Double_info)) ==> i + 1 < pool@.len(),
        decreases remaining,
    {
        let (info, end) = match cp_info::new(b, cur) {
            Ok(t) => t,
            Err(e) => {
                return Err(e);
            },
        };
        let ghost prev = pool@;
        let ghost ginfo = info;
        let ghost remaining_before = remaining;
        let double = match &info {
            cp_info::CONSTANT_Long_info { .. } => true,
            cp_info::CONSTANT_Double_info { .. } => true,
            _ => false,
        };
        if double {
            if remaining == 1 {
                return Err(ClassLoadingError::ClassFormatError);
            }
            pool.push(Some(info));
            pool.push(None);
            remaining = remaining - 2;
        } else {
            pool.push(Some(info));
            remaining = remaining - 1;
        }
        proof {
            lemma_enc_cp_slots_push(prev, Some(ginfo));
            if double {
                lemma_enc_cp_slots_push(prev.push(Some(ginfo)), None);
                assert(pool@ =~= prev.push(Some(ginfo)).push(None));
            } else {
                assert(pool@ =~= prev.push(Some(ginfo)));
            }
            assert(enc_cp_slot(None) =~= Seq::<u8>::empty());
            lemma_subrange_join(b@, pos as int, cur as int, end as int);
            assert(enc_cp_slots(pool@) =~= b@.subrange(pos as int, end as int));
            lemma_cp_entry_tag(ginfo);
            assert(enc_cp_entry(ginfo)[0] == b@[cur as int]);
            if ginfo is CONSTANT_Utf8_info {
                assert(enc_cp_entry(ginfo).subrange(3, enc_cp_entry(ginfo).len() as int)
                    =~= b@.subrange(cur + 3, end as int));
                assert(slot_text(Some(ginfo)) == decoded_text(b@.subrange(cur + 3, end as int)));
            }
            if ginfo is CONSTANT_Class_info {
                assert(enc_cp_entry(ginfo).subrange(1, 3) =~= b@.subrange(cur + 1, cur + 3));
            }
            let tx = if b@[cur as int] == 1 {
                seq![decoded_text(b@.subrange(cur + 3, end as int))]
            } else if double {
                seq![None::<Seq<char>>, None::<Seq<char>>]
            } else {
                seq![None::<Seq<char>>]
            };
            let cx = if b@[cur as int] == 7 {
                seq![Some(be16_value(b@.subrange(cur + 1, cur + 3)) as u16)]
            } else if double {
                seq![None::<u16>, None::<u16>]
            } else {
                seq![None::<u16>]
            };
            assert(texts_of(b@, cur as int, remaining_before as nat) == tx + texts_of(
                b@,
                end as int,
                remaining as nat,
            ));
            assert(crefs_of(b@, cur as int, remaining_before as nat) == cx + crefs_of(
                b@,
                end as int,
                remaining as nat,
            ));
            assert(slots_texts(pool@) =~= slots_texts(prev) + tx);
            assert(slots_crefs(pool@) =~= slots_crefs(prev) + cx);
            assert(slots_texts(pool@) + texts_of(b@, end as int, remaining as nat) =~= slots_texts(
                prev,
            ) + texts_of(b@, cur as int, remaining_before as nat));
            assert(slots_crefs(pool@) + crefs_of(b@, end as int, remaining as nat) =~= slots_crefs(
                prev,
            ) + crefs_of(b@, cur as int, remaining_before as nat));
        }
        cur = end;
    }
    proof {
        assert(parse_cp_list(b@, cur as int, 0) == Some(cur as int));
        assert(texts_of(b@, cur as int, 0) =~= Seq::<Option<Seq<char>>>::empty());
        assert(crefs_of(b@, cur as int, 0) =~= Seq::<Option<u16>>::empty());
        assert(slots_texts(pool@) + texts_of(b@, cur as int, 0) =~= slots_texts(pool@));
        assert(slots_crefs(pool@) + crefs_of(b@, cur as int, 0) =~= slots_crefs(pool@));
    }
    Ok((ConstantPool(pool), cur))
}

/// Appends the byte image of one entry.
pub fn write_cp_entry(out: &mut Vec<u8>, e: &cp_info)
    ensures
        final(out)@ == old(out)@ + enc_cp_entry(*e),
{
    match e {
        cp_info::CONSTANT_Class_info { name_index } => {
            write_u8(out, 7);
            write_u16(out, *name_index);
        },
        cp_info::CONSTANT_Fieldref_info { class_index, name_and_type_index } => {
            write_u8(out, 9);
            write_u16(out, *class_index);
            write_u16(out, *name_and_type_index);
        },
        cp_info::CONSTANT_Methodref_info { class_index, name_and_type_index } => {
            write_u8(out, 10);
            write_u16(out, *class_index);
            write_u16(out, *name_and_type_index);
        },
        cp_info::CONSTANT_InterfaceMethodref_info { class_index, name_and_type_index } => {
            write_u8(out, 11);
            write_u16(out, *class_index);
            write_u16(out, *name_and_type_index);
        },
        cp_info::CONSTANT_String_info { string_index } => {
            write_u8(out, 8);
            write_u16(out, *string_index);
        },
        cp_info::CONSTANT_Integer_info { bytes } => {
            write_u8(out, 3);
            write_u32(out, i32_to_bits(*bytes));
        },
        cp_info::CONSTANT_Float_info { bits } => {
            write_u8(out, 4);
            write_u32(out, *bits);
        },
        cp_info::CONSTANT_Long_info { value } => {
            write_u8(out, 5);
            write_u64(out, i64_to_bits(*value));
        },
        cp_info::CONSTANT_Double_info { bits } => {
            write_u8(out, 6);
            write_u64(out, *bits);
        },
        cp_info::CONSTANT_NameAndType_info { name_index, descriptor_index } => {
            write_u8(out, 12);
            write_u16(out, *name_index);
            write_u16(out, *descriptor_index);
        },
        cp_info::CONSTANT_Utf8_info { bytes, text } => {
            write_u8(out, 1);
            write_u16(out, bytes.len() as u16);
            let ghost head = old(out)@ + seq![1u8] + be16(bytes@.len() as u16);
            proof {
                assert(out@ =~= head + bytes@.subrange(0, 0));
            }
            let mut i: usize = 0;
            while i < bytes.len()
                invariant
                    i <= bytes@.len(),
                    out@ == head + bytes@.subrange(0, i as int),
                decreases bytes@.len() - i,
            {
                out.push(bytes[i]);
                proof {
                    assert(bytes@.subrange(0, i + 1) =~= bytes@.subrange(0, i as int).push(
                        bytes@[i as int],
                    ));
                    assert(out@ =~= head + bytes@.subrange(0, i + 1));
                }
                i = i + 1;
            }
            proof {
                assert(bytes@.subrange(0, bytes@.len() as int) =~= bytes@);
                assert(out@ =~= old(out)@ + enc_cp_entry(*e));
            }
        },
    }
}

/// Appends the byte image of a slot table; unused slots contribute nothing.
pub fn write_cp_slots(out: &mut Vec<u8>, pool: &ConstantPool)
    ensures
        final(out)@ == old(out)@ + enc_cp_slots(pool.slots()),
{
    proof {
        assert(enc_cp_slots(pool.slots().subrange(0, 0)) =~= Seq::<u8>::empty());
        assert(out@ =~= out@ + enc_cp_slots(pool.slots().subrange(0, 0)));
    }
    let mut i: usize = 0;
    while i < pool.0.len()
        invariant
            i <= pool.slots().len(),
            out@ == old(out)@ + enc_cp_slots(pool.slots().subrange(0, i as int)),
        decreases pool.slots().len() - i,
    {
        match &pool.0[i] {
            Some(e) => write_cp_entry(out, e),
            None => (),
        }
        proof {
            assert(pool.slots().subrange(0, i + 1) =~= pool.slots().subrange(0, i as int).push(
                pool.slots()[i as int],
            ));
            lemma_enc_cp_slots_push(pool.slots().subrange(0, i as int), pool.slots()[i as int]);
        }
        i = i + 1;
    }
    proof {
        assert(pool.slots().subrange(0, pool.slots().len() as int) =~= pool.slots());
    }
}

} // verus!
