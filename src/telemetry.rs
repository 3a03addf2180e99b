use vstd::prelude::*;

use crate::base40::{
    base40_alphabet, base40_chars, base40_decode, base40_encode, base40_value,
    lemma_base40_round_trip, lemma_value_in_range, BASE40_MAX,
};
use crate::config::{
    field_of_name, has_field, has_type, type_model, type_of_id, Config, PacketType,
};
use crate::constants::{
    TELEMETRY_BYTES_PER_FIELD, TELEMETRY_FIELD_COUNT, TELEMETRY_FIELD_TYPE, TELEMETRY_MAX_FIELDS,
    TELEMETRY_MIN_BYTES,
};
use crate::crc32::{crc32, crc32_spec, lemma_crc32_single_bit_flip};
use crate::error::TelemError;

verus! {

/// A field value. A 32-bit float is held as its IEEE-754 bit pattern.
#[derive(Debug, Clone, PartialEq, Eq)]
pub enum TelemField {
    Int32(i32),
    UInt32(u32),
    Float32(u32),
    Base40Str(String),
}

/// The semantic type of a field.
#[derive(Debug, Clone, Copy, PartialEq, Eq)]
pub enum TelemFieldType {
    Int32,
    UInt32,
    Float32,
    Base40Str,
}

// ---------------------------------------------------------------------------
// Field layout: big-endian 4-byte slots
// ---------------------------------------------------------------------------

/// The big-endian 32-bit word made of four bytes.
pub open spec fn be_u32(a: u8, b: u8, c: u8, d: u8) -> u32 {
    ((a as u32) << 24u32) | ((b as u32) << 16u32) | ((c as u32) << 8u32) | (d as u32)
}

/// The four big-endian bytes of a 32-bit word.
pub open spec fn be_bytes(v: u32) -> Seq<u8> {
    seq![
        ((v >> 24u32) & 0xffu32) as u8,
        ((v >> 16u32) & 0xffu32) as u8,
        ((v >> 8u32) & 0xffu32) as u8,
        (v & 0xffu32) as u8,
    ]
}

/// The word stored in the field at index `i` (4-byte units).
pub open spec fn field_u32(data: Seq<u8>, i: int) -> u32 {
    be_u32(data[4 * i], data[4 * i + 1], data[4 * i + 2], data[4 * i + 3])
}

/// `data` with the field at index `i` replaced by the bytes of `v`.
pub open spec fn with_field(data: Seq<u8>, i: int, v: u32) -> Seq<u8> {
    data.subrange(0, 4 * i) + be_bytes(v) + data.subrange(4 * i + 4, data.len() as int)
}

/// The signed value of a 32-bit two's-complement word.
pub open spec fn i32_of_bits(v: u32) -> int {
    if v < 0x8000_0000 {
        v as int
    } else {
        v - 0x1_0000_0000
    }
}

/// The two's-complement word of a signed value.
pub open spec fn bits_of_i32(x: i32) -> u32 {
    if x >= 0 {
        x as u32
    } else {
        (x + 0x1_0000_0000) as u32
    }
}

/// The word that writing `f` stores, if it can be written.
pub open spec fn field_bits(f: TelemField) -> Option<u32> {
    match f {
        TelemField::Int32(x) => Some(bits_of_i32(x)),
        TelemField::UInt32(x) => Some(x),
        TelemField::Float32(x) => Some(x),
        TelemField::Base40Str(s) => if s@.len() <= 6 && base40_alphabet(s@) {
            Some(base40_value(s@) as u32)
        } else {
            None
        },
    }
}

/// `r` is the outcome of reading the field at `index` of `data` as `ty`.
pub open spec fn field_read(
    data: Seq<u8>,
    index: usize,
    ty: TelemFieldType,
    r: Result<TelemField, TelemError>,
) -> bool {
    if index * 4 + 4 > data.len() {
        r == Err::<TelemField, TelemError>(TelemError::InvalidFieldId(index, data.len() as usize))
    } else {
        let v = field_u32(data, index as int);
        match ty {
            TelemFieldType::UInt32 => r == Ok::<TelemField, TelemError>(TelemField::UInt32(v)),
            TelemFieldType::Int32 => r matches Ok(TelemField::Int32(x)) && x as int == i32_of_bits(
                v,
            ),
            TelemFieldType::Float32 => r == Ok::<TelemField, TelemError>(TelemField::Float32(v)),
            TelemFieldType::Base40Str => if v > BASE40_MAX {
                r == Err::<TelemField, TelemError>(TelemError::Base40Decode)
            } else {
                r matches Ok(TelemField::Base40Str(s)) && s@ == base40_chars(v as nat)
            },
        }
    }
}

proof fn lemma_be_round_trip(v: u32)
    ensures
        be_u32(
            ((v >> 24u32) & 0xffu32) as u8,
            ((v >> 16u32) & 0xffu32) as u8,
            ((v >> 8u32) & 0xffu32) as u8,
            (v & 0xffu32) as u8,
        ) == v,
{
    assert(be_u32(
        ((v >> 24u32) & 0xffu32) as u8,
        ((v >> 16u32) & 0xffu32) as u8,
        ((v >> 8u32) & 0xffu32) as u8,
        (v & 0xffu32) as u8,
    ) == v) by (bit_vector);
}

/// Writing a word into a field and reading the field back gives the word;
/// the other fields keep their bytes.
pub proof fn lemma_with_field(data: Seq<u8>, i: int, v: u32)
    requires
        0 <= i,
        4 * i + 4 <= data.len(),
    ensures
        with_field(data, i, v).len() == data.len(),
        field_u32(with_field(data, i, v), i) == v,
        forall|j: int|
            0 <= j < data.len() && !(4 * i <= j < 4 * i + 4) ==> #[trigger] with_field(
                data,
                i,
                v,
            )[j] == data[j],
{
    lemma_be_round_trip(v);
}

fn read_u32(data: &[u8], index: usize) -> (r: u32)
    requires
        index * 4 + 4 <= data@.len(),
    ensures
        r == field_u32(data@, index as int),
{
    let n = data.len();
    assert(n == data@.len());
    let o = index * 4;
    ((data[o] as u32) << 24) | ((data[o + 1] as u32) << 16) | ((data[o + 2] as u32) << 8) | (data[o
        + 3] as u32)
}

fn write_u32(data: &mut Vec<u8>, index: usize, v: u32)
    requires
        index * 4 + 4 <= old(data)@.len(),
    ensures
        final(data)@ == with_field(old(data)@, index as int, v),
{
    let n = data.len();
    assert(n == old(data)@.len());
    let o = index * 4;
    data.set(o, ((v >> 24) & 0xff) as u8);
    data.set(o + 1, ((v >> 16) & 0xff) as u8);
    data.set(o + 2, ((v >> 8) & 0xff) as u8);
    data.set(o + 3, (v & 0xff) as u8);
    assert(final(data)@ =~= with_field(old(data)@, index as int, v));
}

fn i32_from_bits(v: u32) -> (x: i32)
    ensures
        x as int == i32_of_bits(v),
{
    if v < 0x8000_0000 {
        v as i32
    } else {
        ((v - 0x8000_0000) as i32) - 0x7FFF_FFFF - 1
    }
}

fn i32_to_bits(x: i32) -> (v: u32)
    ensures
        v == bits_of_i32(x),
{
    if x >= 0 {
        x as u32
    } else {
        ((x + 0x7FFF_FFFF + 1) as u32) + 0x8000_0000
    }
}

fn read_field_raw(data: &[u8], field_id: usize, field_ty: TelemFieldType) -> (r: Result<
    TelemField,
    TelemError,
>)
    ensures
        field_read(data@, field_id, field_ty, r),
{
    if field_id >= data.len() / TELEMETRY_BYTES_PER_FIELD {
        return Err(TelemError::InvalidFieldId(field_id, data.len()));
    }
    let v = read_u32(data, field_id);
    match field_ty {
        TelemFieldType::UInt32 => Ok(TelemField::UInt32(v)),
        TelemFieldType::Int32 => Ok(TelemField::Int32(i32_from_bits(v))),
        TelemFieldType::Float32 => Ok(TelemField::Float32(v)),
        TelemFieldType::Base40Str => match base40_decode(v) {
            Some(s) => Ok(TelemField::Base40Str(s)),
            None => Err(TelemError::Base40Decode),
        },
    }
}

// ---------------------------------------------------------------------------
// Byte stuffing
// ---------------------------------------------------------------------------

/// The payload that a COBS frame decodes to, read up to its first zero byte;
/// `None` where the stuffing is malformed.
pub uninterp spec fn cobs_decoded(frame: Seq<u8>) -> Option<Seq<u8>>;

/// Relies on cobs::decode_in_place: decodes the frame in place, up to its first
/// zero byte, and returns the length of the payload now at the front of the
/// buffer. The buffer keeps its length.
#[verifier::external_body]
fn cobs_decode_in_place(buf: &mut Vec<u8>) -> (r: Result<usize, ()>)
    ensures
        final(buf)@.len() == old(buf)@.len(),
        r is Err <==> cobs_decoded(old(buf)@) is None,
        r matches Ok(n) ==> n <= old(buf)@.len() && cobs_decoded(old(buf)@) == Some(
            final(buf)@.subrange(0, n as int),
        ),
{
    cobs::decode_in_place(buf)
}

/// Relies on cobs::encode_vec, and on cobs::decode_in_place undoing it: the
/// stuffed bytes are longer than the payload, and with the zero terminator
/// appended they decode back to it.
#[verifier::external_body]
fn cobs_encode(payload: &[u8]) -> (r: Vec<u8>)
    requires
        0 < payload@.len() < 254,
    ensures
        r@.len() > payload@.len(),
        cobs_decoded(r@.push(0u8)) == Some(payload@),
{
    cobs::encode_vec(payload)
}

// ---------------------------------------------------------------------------
// Validation
// ---------------------------------------------------------------------------

/// The type id stored in a payload.
pub open spec fn type_id_of(p: Seq<u8>) -> usize {
    field_u32(p, TELEMETRY_FIELD_TYPE as int) as usize
}

/// The structural checks of an unstuffed payload, in order: the declared
/// count must match the length, then the stored checksum must match.
pub open spec fn structure_check(p: Seq<u8>) -> Result<(), TelemError> {
    if (field_u32(p, 0) as int + 1) * 4 != p.len() {
        Err(TelemError::LengthError)
    } else if crc32_spec(p.subrange(0, p.len() - 4)) != field_u32(p, p.len() / 4 - 1) {
        Err(TelemError::CrcError)
    } else {
        Ok(())
    }
}

/// The outcome of validating an unstuffed payload against the registry: the
/// schema it is bound to, or the first check that fails.
pub open spec fn payload_check(p: Seq<u8>, cfg: Config) -> Result<PacketType, TelemError> {
    if p.len() < TELEMETRY_MIN_BYTES {
        Err(TelemError::MissingBytes(p.len() as usize))
    } else if !has_type(cfg, type_id_of(p)) {
        Err(TelemError::PkgTypeNotFound(type_id_of(p)))
    } else {
        match structure_check(p) {
            Ok(_) => Ok(type_of_id(cfg, type_id_of(p))),
            Err(e) => Err(e),
        }
    }
}

/// Whether the frame holds its zero delimiter.
pub open spec fn has_delimiter(frame: Seq<u8>) -> bool {
    exists|i: int| 0 <= i < frame.len() && frame[i] == 0
}

/// The outcome of decoding a stuffed frame: the payload and its schema, or
/// the first check that fails. A frame without its delimiter is malformed.
pub open spec fn frame_check(frame: Seq<u8>, cfg: Config) -> Result<
    (Seq<u8>, PacketType),
    TelemError,
> {
    if frame.len() < TELEMETRY_MIN_BYTES {
        Err(TelemError::MissingBytes(frame.len() as usize))
    } else if !has_delimiter(frame) {
        Err(TelemError::CobsError)
    } else {
        match cobs_decoded(frame) {
            None => Err(TelemError::CobsError),
            Some(p) => match payload_check(p, cfg) {
                Ok(t) => Ok((p, t)),
                Err(e) => Err(e),
            },
        }
    }
}

/// A validated packet bound to the schema of its type.
#[derive(Debug)]
pub struct TelemetryPacket {
    data: Vec<u8>,
    cfg: PacketType,
}

impl View for TelemetryPacket {
    type V = Seq<u8>;

    closed spec fn view(&self) -> Seq<u8> {
        self.data@
    }
}

impl TelemetryPacket {
    /// The schema the packet is bound to.
    pub closed spec fn schema(&self) -> PacketType {
        self.cfg
    }

    /// Decodes a stuffed frame: checks its size and its zero delimiter,
    /// unstuffs it, and validates the payload.
    pub fn from(bytes: Vec<u8>, config: &Config) -> (r: Result<Self, TelemError>)
        ensures
            match frame_check(bytes@, *config) {
                Ok((p, t)) => r matches Ok(pkt) && pkt@ == p && type_model(pkt.schema()) == type_model(t),
                Err(e) => r matches Err(e2) && e2 == e,
            },
    {
        if bytes.len() < TELEMETRY_MIN_BYTES {
            return Err(TelemError::MissingBytes(bytes.len()));
        }
        let mut i: usize = 0;
        while i < bytes.len() && bytes[i] != 0
            invariant
                i <= bytes@.len(),
                forall|j: int| 0 <= j < i ==> bytes@[j] != 0,
            decreases bytes@.len() - i,
        {
            i += 1;
        }
        if i == bytes.len() {
            return Err(TelemError::CobsError);
        }
        let mut bytes = bytes;
        match cobs_decode_in_place(&mut bytes) {
            Err(_) => Err(TelemError::CobsError),
            Ok(n) => {
                bytes.truncate(n);
                Self::from_unstuffed(bytes, config)
            },
        }
    }

    /// Validates an unstuffed payload (at least the five mandatory fields)
    /// and binds it to the schema of its type.
    pub fn from_unstuffed(bytes: Vec<u8>, config: &Config) -> (r: Result<Self, TelemError>)
        ensures
            match payload_check(bytes@, *config) {
                Ok(t) => r matches Ok(pkt) && pkt@ == bytes@ && type_model(pkt.schema()) == type_model(t),
                Err(e) => r matches Err(e2) && e2 == e,
            },
    {
        if bytes.len() < TELEMETRY_MIN_BYTES {
            return Err(TelemError::MissingBytes(bytes.len()));
        }
        let type_id = read_u32(bytes.as_slice(), TELEMETRY_FIELD_TYPE);
        let cfg_ty = match config.get_type(type_id as usize) {
            Ok(t) => t,
            Err(e) => {
                return Err(e);
            },
        };
        let pkg = TelemetryPacket { data: bytes, cfg: cfg_ty.duplicate() };
        match pkg.check_package() {
            Ok(()) => Ok(pkg),
            Err(e) => Err(e),
        }
    }

    /// The packet's bytes.
    pub fn get_raw(&self) -> (r: &[u8])
        ensures
            r@ == self@,
    {
        self.data.as_slice()
    }

    fn check_package(&self) -> (r: Result<(), TelemError>)
        requires
            self.data@.len() >= TELEMETRY_MIN_BYTES,
        ensures
            r == structure_check(self.data@),
    {
        let n_fields = read_u32(self.data.as_slice(), TELEMETRY_FIELD_COUNT);
        let len = self.data.len();
        if (n_fields as u64 + 1) * 4 != len as u64 {
            return Err(TelemError::LengthError);
        }
        let end = len - TELEMETRY_BYTES_PER_FIELD;
        let computed_crc = crc32(vstd::slice::slice_subrange(self.data.as_slice(), 0, end));
        let real_crc = read_u32(self.data.as_slice(), end / TELEMETRY_BYTES_PER_FIELD);
        if real_crc != computed_crc {
            return Err(TelemError::CrcError);
        }
        Ok(())
    }

    /// Reads a field by its name in the bound schema.
    pub fn read_field(&self, field_name: &str) -> (r: Result<TelemField, TelemError>)
        ensures
            !has_field(self.schema(), field_name@) ==> (r matches Err(TelemError::FieldNotFound(n))
                && n@ == field_name@),
            has_field(self.schema(), field_name@) ==> field_read(
                self@,
                field_of_name(self.schema(), field_name@).index,
                field_of_name(self.schema(), field_name@).ty,
                r,
            ),
    {
        match self.cfg.get_field(field_name) {
            Ok(field) => self.read_field_by_id(field.index, field.ty),
            Err(e) => Err(e),
        }
    }

    /// Reads the field at an absolute index as the given type.
    pub fn read_field_by_id(&self, field_id: usize, field_ty: TelemFieldType) -> (r: Result<
        TelemField,
        TelemError,
    >)
        ensures
            field_read(self@, field_id, field_ty, r),
    {
        read_field_raw(self.data.as_slice(), field_id, field_ty)
    }
}

// ---------------------------------------------------------------------------
// Build path
// ---------------------------------------------------------------------------

/// The first `n` fields of a fresh packet: the declared count in field 0
/// (where there is a field 0), zeros everywhere else.
pub open spec fn initial_fields(n: nat) -> Seq<u8> {
    Seq::new(n * 4, |i: int| if i == 3 { n as u8 } else { 0u8 })
}

/// A packet under construction. Field writes do not touch the checksum:
/// `update_checksum` must run after the last one.
#[derive(Debug)]
pub struct PacketBuilder {
    data: Vec<u8>,
}

impl View for PacketBuilder {
    type V = Seq<u8>;

    closed spec fn view(&self) -> Seq<u8> {
        self.data@
    }
}

impl PacketBuilder {
    /// Whole fields, at least the checksum field and at most the maximum.
    pub open spec fn wf(&self) -> bool {
        self@.len() % 4 == 0 && 4 <= self@.len() <= 252
    }

    /// A packet of `n_fields` declared fields plus the checksum field, the
    /// checksum computed over everything before it.
    pub fn new(n_fields: usize) -> (r: Result<PacketBuilder, TelemError>)
        ensures
            n_fields > TELEMETRY_MAX_FIELDS <==> r is Err,
            r matches Err(e) ==> e == TelemError::InvalidNumberOfFields(n_fields),
            r matches Ok(b) ==> {
                &&& b.wf()
                &&& b@.len() == (n_fields + 1) * 4
                &&& b@.subrange(0, n_fields * 4) == initial_fields(n_fields as nat)
                &&& field_u32(b@, n_fields as int) == crc32_spec(b@.subrange(0, n_fields * 4))
            },
    {
        if n_fields > TELEMETRY_MAX_FIELDS {
            return Err(TelemError::InvalidNumberOfFields(n_fields));
        }
        let len = n_fields * TELEMETRY_BYTES_PER_FIELD;
        let mut data: Vec<u8> = Vec::new();
        let mut i: usize = 0;
        while i < len
            invariant
                len == n_fields * 4,
                n_fields <= 62,
                i <= len,
                data@ =~= initial_fields(n_fields as nat).subrange(0, i as int),
            decreases len - i,
        {
            if i == 3 {
                data.push(n_fields as u8);
            } else {
                data.push(0);
            }
            i += 1;
        }
        let crc = crc32(data.as_slice());
        let ghost body = data@;
        data.push(0);
        data.push(0);
        data.push(0);
        data.push(0);
        assert(data@.subrange(0, len as int) =~= body);
        write_u32(&mut data, n_fields, crc);
        proof {
            lemma_with_field(body + seq![0u8, 0u8, 0u8, 0u8], n_fields as int, crc);
            assert(data@.subrange(0, len as int) =~= body);
        }
        Ok(PacketBuilder { data })
    }

    /// Writes a value into the field at an absolute index. A compact string
    /// is written through its base-40 code.
    pub fn write_field(&mut self, field_id: usize, value: &TelemField) -> (r: Result<
        (),
        TelemError,
    >)
        ensures
            final(self)@.len() == old(self)@.len(),
            field_id * 4 + 4 > old(self)@.len() ==> r == Err::<(), TelemError>(
                TelemError::InvalidFieldId(field_id, old(self)@.len() as usize),
            ) && final(self)@ == old(self)@,
            field_id * 4 + 4 <= old(self)@.len() ==> match field_bits(*value) {
                None => r == Err::<(), TelemError>(TelemError::Base40Encode) && final(self)@ == old(
                    self,
                )@,
                Some(v) => r == Ok::<(), TelemError>(()) && final(self)@ == with_field(
                    old(self)@,
                    field_id as int,
                    v,
                ),
            },
    {
        if field_id >= self.data.len() / TELEMETRY_BYTES_PER_FIELD {
            return Err(TelemError::InvalidFieldId(field_id, self.data.len()));
        }
        let v = match value {
            TelemField::Int32(x) => i32_to_bits(*x),
            TelemField::UInt32(x) => *x,
            TelemField::Float32(x) => *x,
            TelemField::Base40Str(s) => match base40_encode(s.as_str()) {
                Some(v) => v,
                None => {
                    return Err(TelemError::Base40Encode);
                },
            },
        };
        write_u32(&mut self.data, field_id, v);
        proof {
            lemma_with_field(old(self)@, field_id as int, v);
        }
        Ok(())
    }

    /// Recomputes the checksum over every field before the last one and
    /// stores it in the last one.
    pub fn update_checksum(&mut self)
        requires
            old(self).wf(),
        ensures
            final(self)@ == with_field(
                old(self)@,
                old(self)@.len() / 4 - 1,
                crc32_spec(old(self)@.subrange(0, old(self)@.len() - 4)),
            ),
    {
        let end = self.data.len() - TELEMETRY_BYTES_PER_FIELD;
        let crc = crc32(vstd::slice::slice_subrange(self.data.as_slice(), 0, end));
        write_u32(&mut self.data, end / TELEMETRY_BYTES_PER_FIELD, crc);
    }

    /// The packet's bytes.
    pub fn get_raw(&self) -> (r: &[u8])
        ensures
            r@ == self@,
    {
        self.data.as_slice()
    }

    /// The packet stuffed for the wire, with its zero terminator.
    pub fn to_frame(&self) -> (r: Vec<u8>)
        requires
            self.wf(),
        ensures
            cobs_decoded(r@) == Some(self@),
            r@.len() > self@.len() + 1,
            r@.last() == 0,
    {
        let mut frame = cobs_encode(self.data.as_slice());
        frame.push(0);
        frame
    }
}

// ---------------------------------------------------------------------------
// Laws
// ---------------------------------------------------------------------------

/// The kind of value that a field value is.
pub open spec fn kind_of(f: TelemField) -> TelemFieldType {
    match f {
        TelemField::Int32(_) => TelemFieldType::Int32,
        TelemField::UInt32(_) => TelemFieldType::UInt32,
        TelemField::Float32(_) => TelemFieldType::Float32,
        TelemField::Base40Str(_) => TelemFieldType::Base40Str,
    }
}

/// A finished packet (its declared count matches its size, its checksum is
/// current, and the registry knows its type) decodes from its stuffed frame
/// to the same bytes: checksum validation succeeds, and the packet is bound
/// to the schema of its type.
pub proof fn lemma_frame_round_trip(p: Seq<u8>, frame: Seq<u8>, cfg: Config)
    requires
        p.len() >= 20,
        field_u32(p, 0) as int * 4 + 4 == p.len(),
        field_u32(p, p.len() / 4 - 1) == crc32_spec(p.subrange(0, p.len() - 4)),
        has_type(cfg, type_id_of(p)),
        cobs_decoded(frame) == Some(p),
        frame.len() > p.len() + 1,
        frame.last() == 0,
    ensures
        frame_check(frame, cfg) == Ok::<(Seq<u8>, PacketType), TelemError>(
            (p, type_of_id(cfg, type_id_of(p))),
        ),
{
    assert(frame[frame.len() - 1] == 0);
}

/// A value written into a field reads back unchanged as its own kind, also
/// after the checksum in the last field is rewritten. A compact string must
/// not end in the separator, which encodes as digit 0, like the padding
/// above the most significant digit.
pub proof fn lemma_write_read(p: Seq<u8>, i: usize, f: TelemField, crc: u32)
    requires
        p.len() % 4 == 0,
        i * 4 + 8 <= p.len(),
        field_bits(f) is Some,
        f matches TelemField::Base40Str(s) ==> s@.len() == 0 || s@.last() != '-',
    ensures
        field_read(
            with_field(with_field(p, i as int, field_bits(f).unwrap()), p.len() / 4 - 1, crc),
            i,
            kind_of(f),
            Ok(f),
        ),
{
    let v = field_bits(f).unwrap();
    let q1 = with_field(p, i as int, v);
    lemma_with_field(p, i as int, v);
    let q2 = with_field(q1, p.len() / 4 - 1, crc);
    lemma_with_field(q1, p.len() / 4 - 1, crc);
    assert(q2[4 * i] == q1[4 * i]);
    assert(q2[4 * i + 1] == q1[4 * i + 1]);
    assert(q2[4 * i + 2] == q1[4 * i + 2]);
    assert(q2[4 * i + 3] == q1[4 * i + 3]);
    assert(field_u32(q2, i as int) == v);
    match f {
        TelemField::Base40Str(s) => {
            lemma_value_in_range(s@);
            lemma_base40_round_trip(s@);
        },
        _ => {},
    }
}

/// The whole round trip: a payload field of a finished packet is written,
/// the checksum is recomputed and the packet is stuffed; decoding the frame
/// then succeeds, with checksum validation, and the field reads back as the
/// value written.
pub proof fn lemma_build_decode_round_trip(
    p: Seq<u8>,
    i: usize,
    f: TelemField,
    frame: Seq<u8>,
    cfg: Config,
)
    requires
        p.len() >= 20,
        field_u32(p, 0) as int * 4 + 4 == p.len(),
        has_type(cfg, type_id_of(p)),
        4 <= i,
        i * 4 + 8 <= p.len(),
        field_bits(f) is Some,
        f matches TelemField::Base40Str(s) ==> s@.len() == 0 || s@.last() != '-',
        ({
            let q1 = with_field(p, i as int, field_bits(f).unwrap());
            let q = with_field(q1, p.len() / 4 - 1, crc32_spec(q1.subrange(0, p.len() - 4)));
            cobs_decoded(frame) == Some(q) && frame.len() > q.len() + 1 && frame.last() == 0
        }),
    ensures
        ({
            let q1 = with_field(p, i as int, field_bits(f).unwrap());
            let q = with_field(q1, p.len() / 4 - 1, crc32_spec(q1.subrange(0, p.len() - 4)));
            &&& frame_check(frame, cfg) == Ok::<(Seq<u8>, PacketType), TelemError>(
                (q, type_of_id(cfg, type_id_of(p))),
            )
            &&& field_read(q, i, kind_of(f), Ok(f))
        }),
{
    let v = field_bits(f).unwrap();
    let last = p.len() / 4 - 1;
    let q1 = with_field(p, i as int, v);
    lemma_with_field(p, i as int, v);
    let crc = crc32_spec(q1.subrange(0, p.len() - 4));
    let q = with_field(q1, last, crc);
    lemma_with_field(q1, last, crc);
    assert(q.subrange(0, p.len() - 4) =~= q1.subrange(0, p.len() - 4));
    assert(q[0] == p[0] && q[1] == p[1] && q[2] == p[2] && q[3] == p[3]);
    assert(q[8] == p[8] && q[9] == p[9] && q[10] == p[10] && q[11] == p[11]);
    assert(field_u32(q, 0) == field_u32(p, 0));
    assert(type_id_of(q) == type_id_of(p));
    lemma_frame_round_trip(q, frame, cfg);
    lemma_write_read(p, i, f, crc);
}

/// A packet as built, with at least the four header fields, passes the
/// structural checks: its declared count matches its size and its trailing
/// checksum covers everything before it.
pub proof fn lemma_fresh_packet_valid(d: Seq<u8>, n: nat)
    requires
        4 <= n <= 62,
        d.len() == (n + 1) * 4,
        d.subrange(0, (n * 4) as int) == initial_fields(n),
        field_u32(d, n as int) == crc32_spec(d.subrange(0, (n * 4) as int)),
    ensures
        structure_check(d) == Ok::<(), TelemError>(()),
{
    let y = n as u8;
    assert(d[0] == d.subrange(0, (n * 4) as int)[0]);
    assert(d[1] == d.subrange(0, (n * 4) as int)[1]);
    assert(d[2] == d.subrange(0, (n * 4) as int)[2]);
    assert(d[3] == d.subrange(0, (n * 4) as int)[3]);
    assert(be_u32(0u8, 0u8, 0u8, y) == y as u32) by (bit_vector);
    assert(d.len() / 4 - 1 == n);
}

proof fn lemma_be_u32_injective(a0: u8, a1: u8, a2: u8, a3: u8, b0: u8, b1: u8, b2: u8, b3: u8)
    requires
        be_u32(a0, a1, a2, a3) == be_u32(b0, b1, b2, b3),
    ensures
        a0 == b0 && a1 == b1 && a2 == b2 && a3 == b3,
{
    assert(a0 == b0 && a1 == b1 && a2 == b2 && a3 == b3) by (bit_vector)
        requires
            ((a0 as u32) << 24u32) | ((a1 as u32) << 16u32) | ((a2 as u32) << 8u32) | (a3 as u32)
                == ((b0 as u32) << 24u32) | ((b1 as u32) << 16u32) | ((b2 as u32) << 8u32) | (
            b3 as u32),
    ;
}

/// Flipping any single bit of a payload that passes the structural checks
/// makes them fail: with the length error when the bit lies in the declared
/// count, and with the checksum error anywhere else.
pub proof fn lemma_single_bit_tamper(p: Seq<u8>, q: Seq<u8>, k: int, j: u8)
    requires
        p.len() >= TELEMETRY_MIN_BYTES,
        structure_check(p) == Ok::<(), TelemError>(()),
        q.len() == p.len(),
        0 <= k < p.len(),
        j < 8,
        q[k] == p[k] ^ (1u8 << j),
        forall|i: int| 0 <= i < p.len() && i != k ==> q[i] == p[i],
    ensures
        k < 4 ==> structure_check(q) == Err::<(), TelemError>(TelemError::LengthError),
        k >= 4 ==> structure_check(q) == Err::<(), TelemError>(TelemError::CrcError),
{
    let len = p.len() as int;
    let x = p[k];
    assert(x != x ^ (1u8 << j)) by (bit_vector)
        requires
            j < 8u8,
    ;
    if k < 4 {
        if field_u32(q, 0) == field_u32(p, 0) {
            lemma_be_u32_injective(q[0], q[1], q[2], q[3], p[0], p[1], p[2], p[3]);
        }
    } else {
        assert(field_u32(q, 0) == field_u32(p, 0));
        assert(len % 4 == 0);
        let last = len / 4 - 1;
        assert(4 * last == len - 4);
        if k < len - 4 {
            let body_p = p.subrange(0, len - 4);
            let body_q = q.subrange(0, len - 4);
            lemma_crc32_single_bit_flip(body_p, body_q, k, j);
            assert(field_u32(q, last) == field_u32(p, last));
        } else {
            assert(q.subrange(0, len - 4) =~= p.subrange(0, len - 4));
            if field_u32(q, last) == field_u32(p, last) {
                lemma_be_u32_injective(
                    q[4 * last],
                    q[4 * last + 1],
                    q[4 * last + 2],
                    q[4 * last + 3],
                    p[4 * last],
                    p[4 * last + 1],
                    p[4 * last + 2],
                    p[4 * last + 3],
                );
            }
        }
    }
}

/// Once its type is known, a payload whose length disagrees with its
/// declared count fails with the length error, before the checksum is looked at.
pub proof fn lemma_length_mismatch(p: Seq<u8>, cfg: Config)
    requires
        p.len() >= TELEMETRY_MIN_BYTES,
        has_type(cfg, type_id_of(p)),
        (field_u32(p, 0) as int + 1) * 4 != p.len(),
    ensures
        payload_check(p, cfg) == Err::<PacketType, TelemError>(TelemError::LengthError),
{
}

/// A payload whose type id no schema has fails with the unknown-type error,
/// before its length or checksum is looked at.
pub proof fn lemma_unknown_type(p: Seq<u8>, cfg: Config)
    requires
        p.len() >= TELEMETRY_MIN_BYTES,
        !has_type(cfg, type_id_of(p)),
    ensures
        payload_check(p, cfg) == Err::<PacketType, TelemError>(
            TelemError::PkgTypeNotFound(type_id_of(p)),
        ),
{
}

} // verus!
