use std::marker::PhantomData;
use vstd::prelude::*;

verus! {

/// Identifies the value type that a dictionary entry holds.
#[derive(Debug, Copy, Clone, PartialEq, Eq, Structural)]
pub enum TypeId {
    CUSTOM,
    BOOL,
    I8,
    I16,
    I32,
    U8,
    U16,
    U32,
    F32,
    F64,
}

/// Locates some data in a datagram, which must be extracted to type `T` to be processed.
#[derive(Debug, Copy)]
pub struct Field<T: DType> {
    /// marks the type of the designated value
    pub dtype: PhantomData<T>,
    /// start byte index of the object
    pub byte: usize,
    /// start bit index in the start byte
    pub bit: u8,
    /// length of the object: the native byte width of its type for the codec
    pub bitlen: usize,
}

impl<T: DType> Clone for Field<T> {
    fn clone(&self) -> (r: Self)
        ensures
            r == *self,
    {
        *self
    }
}

impl<T: DType> Default for Field<T> {
    fn default() -> (r: Self)
        ensures
            r.byte == 0,
            r.bit == 0,
            r.bitlen == 0,
    {
        Field { dtype: PhantomData, byte: 0, bit: 0, bitlen: 0 }
    }
}

impl<T: DType> Field<T> {
    /// The field may be read or written as a `T` in a buffer of `len` bytes:
    /// it starts on a byte boundary, its length is the native byte width of
    /// `T`, and it fits.
    pub open spec fn accepts_spec(&self, len: nat) -> bool {
        &&& self.bit == 0
        &&& self.bitlen == T::width()
        &&& self.byte + T::width() <= len
    }

    /// The value that the field designates in `data`.
    pub open spec fn load(&self, data: Seq<u8>) -> T {
        T::decode(data.subrange(self.byte as int, self.byte + T::width()))
    }

    /// `data` with the bytes of the field replaced by the encoding of `v`.
    pub open spec fn store(&self, data: Seq<u8>, v: T) -> Seq<u8> {
        data.take(self.byte as int) + T::encode(v) + data.skip(self.byte + T::width())
    }

    /// build a Field from its content
    pub fn new(byte: usize, bit: u8, bitlen: usize) -> (r: Self)
        ensures
            r.byte == byte,
            r.bit == bit,
            r.bitlen == bitlen,
    {
        Field { dtype: PhantomData, byte, bit, bitlen }
    }

    /// Tells whether `get` and `set` accept this field on a buffer of `len` bytes.
    pub fn accepts(&self, len: usize) -> (r: bool)
        ensures
            r == self.accepts_spec(len as nat),
    {
        let w = T::size();
        self.bit == 0 && self.bitlen == w && w <= len && self.byte <= len - w
    }

    /// extract the value pointed by the field in the given byte array
    pub fn get(&self, data: &[u8]) -> (r: T)
        requires
            self.accepts_spec(data@.len()),
        ensures
            r == self.load(data@),
    {
        T::from_dfield(self, data)
    }

    /// dump the given value to the place pointed by the field in the byte array
    pub fn set(&self, data: &mut [u8], value: T)
        requires
            self.accepts_spec(old(data)@.len()),
        ensures
            final(data)@ == self.store(old(data)@, value),
    {
        value.to_dfield(self, data)
    }
}

/// A value type with a fixed-width little-endian representation in the domain image.
pub trait DType: Sized + Copy {
    /// Width of the representation, in bytes.
    spec fn width() -> nat;

    /// The type tag that dictionaries use for this type.
    spec fn spec_id() -> TypeId;

    /// Little-endian representation of a value.
    spec fn encode(v: Self) -> Seq<u8>;

    /// Value represented by `width()` bytes.
    spec fn decode(b: Seq<u8>) -> Self;

    /// Every value is represented on exactly `width()` bytes and is recovered from them.
    proof fn lemma_decode_encode(v: Self)
        ensures
            Self::encode(v).len() == Self::width(),
            Self::decode(Self::encode(v)) == v,
    ;

    fn id() -> (r: TypeId)
        ensures
            r == Self::spec_id(),
    ;

    fn size() -> (r: usize)
        ensures
            r as nat == Self::width(),
    ;

    fn from_dfield(field: &Field<Self>, data: &[u8]) -> (r: Self)
        requires
            field.bit == 0,
            field.bitlen == Self::width(),
            field.byte + Self::width() <= data@.len(),
        ensures
            r == Self::decode(data@.subrange(field.byte as int, field.byte + Self::width())),
    ;

    fn to_dfield(&self, field: &Field<Self>, data: &mut [u8])
        requires
            field.bit == 0,
            field.bitlen == Self::width(),
            field.byte + Self::width() <= old(data)@.len(),
        ensures
            final(data)@ == old(data)@.take(field.byte as int) + Self::encode(*self) + old(
                data,
            )@.skip(field.byte + Self::width()),
    ;
}

impl DType for u8 {
    open spec fn width() -> nat {
        1
    }

    open spec fn spec_id() -> TypeId {
        TypeId::U8
    }

    open spec fn encode(v: u8) -> Seq<u8> {
        seq![v]
    }

    open spec fn decode(b: Seq<u8>) -> u8 {
        b[0]
    }

    proof fn lemma_decode_encode(v: u8) {
    }

    fn id() -> (r: TypeId) {
        TypeId::U8
    }

    fn size() -> (r: usize) {
        1
    }

    fn from_dfield(field: &Field<u8>, data: &[u8]) -> (r: u8) {
        data[field.byte]
    }

    fn to_dfield(&self, field: &Field<u8>, data: &mut [u8]) {
        data[field.byte] = *self;
        assert(data@ =~= old(data)@.take(field.byte as int) + seq![*self] + old(data)@.skip(
            field.byte + 1,
        ));
    }
}

/// Little-endian bytes of a 16-bit word.
pub open spec fn le16(v: u16) -> Seq<u8> {
    seq![(v & 0xff) as u8, (v >> 8) as u8]
}

/// 16-bit word of two little-endian bytes.
pub open spec fn from_le16(b: Seq<u8>) -> u16 {
    (b[0] as u16) | ((b[1] as u16) << 8)
}

/// Little-endian bytes of a 32-bit word.
pub open spec fn le32(v: u32) -> Seq<u8> {
    seq![(v & 0xff) as u8, ((v >> 8) & 0xff) as u8, ((v >> 16) & 0xff) as u8, (v >> 24) as u8]
}

/// 32-bit word of four little-endian bytes.
pub open spec fn from_le32(b: Seq<u8>) -> u32 {
    (b[0] as u32) | ((b[1] as u32) << 8) | ((b[2] as u32) << 16) | ((b[3] as u32) << 24)
}

proof fn lemma_le16(v: u16)
    ensures
        le16(v).len() == 2,
        from_le16(le16(v)) == v,
{
    assert(((v & 0xff) as u8 as u16) | (((v >> 8) as u8 as u16) << 8) == v) by (bit_vector);
}

proof fn lemma_le32(v: u32)
    ensures
        le32(v).len() == 4,
        from_le32(le32(v)) == v,
{
    assert(((v & 0xff) as u8 as u32) | ((((v >> 8) & 0xff) as u8 as u32) << 8) | ((((v >> 16)
        & 0xff) as u8 as u32) << 16) | (((v >> 24) as u8 as u32) << 24) == v) by (bit_vector);
}

fn read_le16(data: &[u8], at: usize) -> (r: u16)
    requires
        at + 2 <= data@.len(),
    ensures
        r == from_le16(data@.subrange(at as int, at + 2)),
{
    (data[at] as u16) | ((data[at + 1] as u16) << 8)
}

fn write_le16(data: &mut [u8], at: usize, v: u16)
    requires
        at + 2 <= old(data)@.len(),
    ensures
        final(data)@ == old(data)@.take(at as int) + le16(v) + old(data)@.skip(at + 2),
{
    data[at] = (v & 0xff) as u8;
    data[at + 1] = (v >> 8) as u8;
    assert(data@ =~= old(data)@.take(at as int) + le16(v) + old(data)@.skip(at + 2));
}

fn read_le32(data: &[u8], at: usize) -> (r: u32)
    requires
        at + 4 <= data@.len(),
    ensures
        r == from_le32(data@.subrange(at as int, at + 4)),
{
    (data[at] as u32) | ((data[at + 1] as u32) << 8) | ((data[at + 2] as u32) << 16) | ((
    data[at + 3] as u32) << 24)
}

fn write_le32(data: &mut [u8], at: usize, v: u32)
    requires
        at + 4 <= old(data)@.len(),
    ensures
        final(data)@ == old(data)@.take(at as int) + le32(v) + old(data)@.skip(at + 4),
{
    data[at] = (v & 0xff) as u8;
    data[at + 1] = ((v >> 8) & 0xff) as u8;
    data[at + 2] = ((v >> 16) & 0xff) as u8;
    data[at + 3] = (v >> 24) as u8;
    assert(data@ =~= old(data)@.take(at as int) + le32(v) + old(data)@.skip(at + 4));
}

impl DType for i8 {
    open spec fn width() -> nat {
        1
    }

    open spec fn spec_id() -> TypeId {
        TypeId::I8
    }

    open spec fn encode(v: i8) -> Seq<u8> {
        seq![v as u8]
    }

    open spec fn decode(b: Seq<u8>) -> i8 {
        b[0] as i8
    }

    proof fn lemma_decode_encode(v: i8) {
        assert(v as u8 as i8 == v) by (bit_vector);
    }

    fn id() -> (r: TypeId) {
        TypeId::I8
    }

    fn size() -> (r: usize) {
        1
    }

    fn from_dfield(field: &Field<i8>, data: &[u8]) -> (r: i8) {
        data[field.byte] as i8
    }

    fn to_dfield(&self, field: &Field<i8>, data: &mut [u8]) {
        data[field.byte] = *self as u8;
        assert(data@ =~= old(data)@.take(field.byte as int) + seq![*self as u8] + old(data)@.skip(
            field.byte + 1,
        ));
    }
}

impl DType for bool {
    open spec fn width() -> nat {
        1
    }

    open spec fn spec_id() -> TypeId {
        TypeId::BOOL
    }

    open spec fn encode(v: bool) -> Seq<u8> {
        seq![if v { 1u8 } else { 0u8 }]
    }

    open spec fn decode(b: Seq<u8>) -> bool {
        b[0] != 0
    }

    proof fn lemma_decode_encode(v: bool) {
    }

    fn id() -> (r: TypeId) {
        TypeId::BOOL
    }

    fn size() -> (r: usize) {
        1
    }

    fn from_dfield(field: &Field<bool>, data: &[u8]) -> (r: bool) {
        data[field.byte] != 0
    }

    fn to_dfield(&self, field: &Field<bool>, data: &mut [u8]) {
        let b: u8 = if *self { 1 } else { 0 };
        data[field.byte] = b;
        assert(data@ =~= old(data)@.take(field.byte as int) + seq![b] + old(data)@.skip(
            field.byte + 1,
        ));
    }
}

impl DType for u16 {
    open spec fn width() -> nat {
        2
    }

    open spec fn spec_id() -> TypeId {
        TypeId::U16
    }

    open spec fn encode(v: u16) -> Seq<u8> {
        le16(v)
    }

    open spec fn decode(b: Seq<u8>) -> u16 {
        from_le16(b)
    }

    proof fn lemma_decode_encode(v: u16) {
        lemma_le16(v);
    }

    fn id() -> (r: TypeId) {
        TypeId::U16
    }

    fn size() -> (r: usize) {
        2
    }

    fn from_dfield(field: &Field<u16>, data: &[u8]) -> (r: u16) {
        read_le16(data, field.byte)
    }

    fn to_dfield(&self, field: &Field<u16>, data: &mut [u8]) {
        write_le16(data, field.byte, *self)
    }
}

impl DType for i16 {
    open spec fn width() -> nat {
        2
    }

    open spec fn spec_id() -> TypeId {
        TypeId::I16
    }

    open spec fn encode(v: i16) -> Seq<u8> {
        le16(v as u16)
    }

    open spec fn decode(b: Seq<u8>) -> i16 {
        from_le16(b) as i16
    }

    proof fn lemma_decode_encode(v: i16) {
        lemma_le16(v as u16);
        assert(v as u16 as i16 == v) by (bit_vector);
    }

    fn id() -> (r: TypeId) {
        TypeId::I16
    }

    fn size() -> (r: usize) {
        2
    }

    fn from_dfield(field: &Field<i16>, data: &[u8]) -> (r: i16) {
        read_le16(data, field.byte) as i16
    }

    fn to_dfield(&self, field: &Field<i16>, data: &mut [u8]) {
        write_le16(data, field.byte, *self as u16)
    }
}

impl DType for u32 {
    open spec fn width() -> nat {
        4
    }

    open spec fn spec_id() -> TypeId {
        TypeId::U32
    }

    open spec fn encode(v: u32) -> Seq<u8> {
        le32(v)
    }

    open spec fn decode(b: Seq<u8>) -> u32 {
        from_le32(b)
    }

    proof fn lemma_decode_encode(v: u32) {
        lemma_le32(v);
    }

    fn id() -> (r: TypeId) {
        TypeId::U32
    }

    fn size() -> (r: usize) {
        4
    }

    fn from_dfield(field: &Field<u32>, data: &[u8]) -> (r: u32) {
        read_le32(data, field.byte)
    }

    fn to_dfield(&self, field: &Field<u32>, data: &mut [u8]) {
        write_le32(data, field.byte, *self)
    }
}

impl DType for i32 {
    open spec fn width() -> nat {
        4
    }

    open spec fn spec_id() -> TypeId {
        TypeId::I32
    }

    open spec fn encode(v: i32) -> Seq<u8> {
        le32(v as u32)
    }

    open spec fn decode(b: Seq<u8>) -> i32 {
        from_le32(b) as i32
    }

    proof fn lemma_decode_encode(v: i32) {
        lemma_le32(v as u32);
        assert(v as u32 as i32 == v) by (bit_vector);
    }

    fn id() -> (r: TypeId) {
        TypeId::I32
    }

    fn size() -> (r: usize) {
        4
    }

    fn from_dfield(field: &Field<i32>, data: &[u8]) -> (r: i32) {
        read_le32(data, field.byte) as i32
    }

    fn to_dfield(&self, field: &Field<i32>, data: &mut [u8]) {
        write_le32(data, field.byte, *self as u32)
    }
}

/// Reading a field just written gives back the written value, whatever the
/// buffer held before, for every field that the codec accepts.
pub proof fn lemma_get_after_set<T: DType>(field: Field<T>, data: Seq<u8>, v: T)
    requires
        field.accepts_spec(data.len()),
    ensures
        field.store(data, v).len() == data.len(),
        field.load(field.store(data, v)) == v,
{
    T::lemma_decode_encode(v);
    let stored = field.store(data, v);
    assert(stored.subrange(field.byte as int, field.byte + T::width()) =~= T::encode(v));
}

/// Writing a field leaves every byte outside it unchanged.
pub proof fn lemma_set_is_local<T: DType>(field: Field<T>, data: Seq<u8>, v: T, i: int)
    requires
        field.accepts_spec(data.len()),
        0 <= i < data.len(),
        !(field.byte <= i < field.byte + T::width()),
    ensures
        field.store(data, v)[i] == data[i],
{
    T::lemma_decode_encode(v);
}

} // verus!
