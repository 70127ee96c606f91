//! Values that are stored under a key, and their serialized form.
//!
//! Numbers are big-endian. A value starts with a 32-bit tag:
//!
//! ```text
//! image            tag 0, length (8 bytes), the image
//! log record       tag 1, the record:
//!   of PostgreSQL    tag 0, will_init (1 byte), length (8 bytes), the record
//!   of another kind  a tag other than 0, then what that kind holds
//! ```
use bytes::Bytes;
use vstd::prelude::*;
use vstd::slice::slice_subrange;
use crate::buffers;
use crate::wire;

verus! {

/// A log record from which a page can be brought up to date.
#[derive(Clone, Debug, PartialEq, Eq)]
pub enum NeonWalRecord {
    /// A record of PostgreSQL, as it stands in the log.
    Postgres {
        /// The record rebuilds the page from nothing.
        will_init: bool,
        rec: Bytes,
    },
    /// A record of another kind, in its serialized form.
    Encoded {
        /// The record rebuilds the page from nothing.
        will_init: bool,
        encoding: Bytes,
    },
}

/// What is stored under a key at a position.
#[derive(Clone, Debug, PartialEq, Eq)]
pub enum Value {
    /// The whole page.
    Image(Bytes),
    /// A change to the page.
    WalRecord(NeonWalRecord),
}

// --- Model -------------------------------------------------------------------

/// Contents of a value.
#[verifier::ext_equal]
pub enum ValueState {
    Image { image: Seq<u8> },
    Postgres { will_init: bool, rec: Seq<u8> },
    Encoded { will_init: bool, encoding: Seq<u8> },
}

impl View for Value {
    type V = ValueState;

    open spec fn view(&self) -> ValueState {
        match *self {
            Value::Image(image) => ValueState::Image { image: buffers::bytes_contents(image) },
            Value::WalRecord(NeonWalRecord::Postgres { will_init, rec }) => ValueState::Postgres {
                will_init,
                rec: buffers::bytes_contents(rec),
            },
            Value::WalRecord(NeonWalRecord::Encoded { will_init, encoding }) =>
            ValueState::Encoded { will_init, encoding: buffers::bytes_contents(encoding) },
        }
    }
}

impl ValueState {
    /// The value needs no older value beneath it.
    pub open spec fn will_init(self) -> bool {
        match self {
            ValueState::Image { .. } => true,
            ValueState::Postgres { will_init, .. } => will_init,
            ValueState::Encoded { will_init, .. } => will_init,
        }
    }

    /// A record of another kind is known by its tag.
    pub open spec fn well_formed(self) -> bool {
        match self {
            ValueState::Encoded { encoding, .. } => encoding.len() >= 4 && wire::be_u32_at(
                encoding,
                0,
            ) != 0,
            _ => true,
        }
    }

    /// The serialized form.
    pub open spec fn serialized(self) -> Seq<u8> {
        match self {
            ValueState::Image { image } => wire::be_u32_bytes(0) + wire::be_u64_bytes(
                image.len() as int,
            ) + image,
            ValueState::Postgres { will_init, rec } => wire::be_u32_bytes(1) + wire::be_u32_bytes(0)
                + seq![if will_init { 1u8 } else { 0u8 }] + wire::be_u64_bytes(rec.len() as int)
                + rec,
            ValueState::Encoded { encoding, .. } => wire::be_u32_bytes(1) + encoding,
        }
    }
}

/// The value whose serialized form the bytes are, if they are one. Of a record
/// of another kind they do not say whether it rebuilds the page; that is
/// `will_init`.
pub open spec fn deserialized(b: Seq<u8>, will_init: bool) -> Option<ValueState> {
    if b.len() < 4 {
        None
    } else if wire::be_u32_at(b, 0) == 0 {
        if b.len() >= 12 && b.len() == 12 + wire::be_u64_at(b, 4) {
            Some(ValueState::Image { image: b.skip(12) })
        } else {
            None
        }
    } else if wire::be_u32_at(b, 0) == 1 && b.len() >= 8 {
        if wire::be_u32_at(b, 4) != 0 {
            Some(ValueState::Encoded { will_init, encoding: b.skip(4) })
        } else if b.len() >= 17 && b[8] <= 1 && b.len() == 17 + wire::be_u64_at(b, 9) {
            Some(ValueState::Postgres { will_init: b[8] == 1, rec: b.skip(17) })
        } else {
            None
        }
    } else {
        None
    }
}

// --- Operations --------------------------------------------------------------

/// Appends a length and the bytes themselves.
fn push_bytes(buf: &mut Vec<u8>, bytes: &Bytes)
    ensures
        final(buf)@ == old(buf)@ + (wire::be_u64_bytes(
            buffers::bytes_contents(*bytes).len() as int,
        ) + buffers::bytes_contents(*bytes)),
{
    let s = buffers::as_slice(bytes);
    wire::push_be_u64(buf, s.len() as u64);
    buf.extend_from_slice(s);
}

impl NeonWalRecord {
    /// Whether the record rebuilds the page from nothing.
    pub fn will_init(&self) -> (r: bool)
        ensures
            r == Value::WalRecord(*self)@.will_init(),
    {
        match self {
            NeonWalRecord::Postgres { will_init, .. } => *will_init,
            NeonWalRecord::Encoded { will_init, .. } => *will_init,
        }
    }
}

impl Value {
    /// Whether the value needs no older value beneath it.
    pub fn will_init(&self) -> (r: bool)
        ensures
            r == self@.will_init(),
    {
        match self {
            Value::Image(_) => true,
            Value::WalRecord(rec) => rec.will_init(),
        }
    }

    /// Size of the serialized form, or `None` where 64 bits do not hold it.
    pub fn serialized_size(&self) -> (r: Option<u64>)
        ensures
            match r {
                Some(n) => n == self@.serialized().len(),
                None => self@.serialized().len() > u64::MAX,
            },
    {
        match self {
            Value::Image(image) => (buffers::as_slice(image).len() as u64).checked_add(12),
            Value::WalRecord(NeonWalRecord::Postgres { rec, .. }) => (buffers::as_slice(
                rec,
            ).len() as u64).checked_add(17),
            Value::WalRecord(NeonWalRecord::Encoded { encoding, .. }) => (buffers::as_slice(
                encoding,
            ).len() as u64).checked_add(4),
        }
    }

    /// Appends the serialized form to `buf`.
    pub fn ser_into(&self, buf: &mut Vec<u8>)
        ensures
            final(buf)@ == old(buf)@ + self@.serialized(),
    {
        match self {
            Value::Image(image) => {
                wire::push_be_u32(buf, 0);
                push_bytes(buf, image);
            },
            Value::WalRecord(NeonWalRecord::Postgres { will_init, rec }) => {
                wire::push_be_u32(buf, 1);
                wire::push_be_u32(buf, 0);
                buf.push(
                    if *will_init {
                        1
                    } else {
                        0
                    },
                );
                push_bytes(buf, rec);
            },
            Value::WalRecord(NeonWalRecord::Encoded { encoding, .. }) => {
                wire::push_be_u32(buf, 1);
                buf.extend_from_slice(buffers::as_slice(encoding));
            },
        }
    }

    /// Reads a value back from its serialized form. `will_init` is what is
    /// known of a record whose kind is not known here; it plays no part in the
    /// other values.
    pub fn des(bytes: &[u8], will_init: bool) -> (r: Option<Value>)
        ensures
            match r {
                Some(v) => deserialized(bytes@, will_init) == Some(v@),
                None => deserialized(bytes@, will_init) is None,
            },
    {
        let n: usize = bytes.len();
        if n < 4 {
            return None;
        }
        let tag: u32 = wire::read_be_u32(bytes, 0);
        if tag == 0 {
            if n < 12 || (n - 12) as u64 != wire::read_be_u64(bytes, 4) {
                return None;
            }
            let image = buffers::copy_of(slice_subrange(bytes, 12, n));
            Some(Value::Image(image))
        } else if tag == 1 && n >= 8 {
            let record_tag: u32 = wire::read_be_u32(bytes, 4);
            if record_tag != 0 {
                let encoding = buffers::copy_of(slice_subrange(bytes, 4, n));
                return Some(Value::WalRecord(NeonWalRecord::Encoded { will_init, encoding }));
            }
            if n < 17 || bytes[8] > 1 || (n - 17) as u64 != wire::read_be_u64(bytes, 9) {
                return None;
            }
            let rec = buffers::copy_of(slice_subrange(bytes, 17, n));
            Some(Value::WalRecord(NeonWalRecord::Postgres { will_init: bytes[8] == 1, rec }))
        } else {
            None
        }
    }
}

// --- Laws --------------------------------------------------------------------

/// What was serialized is read back.
pub proof fn law_value_round_trip(v: ValueState)
    requires
        v.well_formed(),
        v.serialized().len() <= u64::MAX,
    ensures
        deserialized(v.serialized(), v.will_init()) == Some(v),
{
    let b = v.serialized();
    wire::lemma_be_u32_bytes(0);
    wire::lemma_be_u32_bytes(1);
    match v {
        ValueState::Image { image } => {
            assert(b.subrange(4, 12) =~= wire::be_u64_bytes(image.len() as int));
            wire::lemma_be_u64_bytes(b, 4, image.len() as int);
            assert(b.skip(12) =~= image);
        },
        ValueState::Postgres { will_init, rec } => {
            assert(b.subrange(9, 17) =~= wire::be_u64_bytes(rec.len() as int));
            wire::lemma_be_u64_bytes(b, 9, rec.len() as int);
            assert(b.skip(17) =~= rec);
        },
        ValueState::Encoded { encoding, .. } => {
            assert(b.skip(4) =~= encoding);
            assert(wire::be_u32_at(b, 4) == wire::be_u32_at(encoding, 0));
        },
    }
}

/// Each byte of a serialized image: a tag of 0, the length, and the image.
pub proof fn law_image_layout(image: Seq<u8>)
    requires
        image.len() <= u64::MAX,
    ensures
        ({
            let b = (ValueState::Image { image }).serialized();
            &&& b.len() == 12 + image.len()
            &&& b[0] == 0 && b[1] == 0 && b[2] == 0 && b[3] == 0
            &&& wire::be_u64_at(b, 4) == image.len()
            &&& forall|i: int| 0 <= i < image.len() ==> #[trigger] b[12 + i] == image[i]
        }),
{
    let b = (ValueState::Image { image }).serialized();
    wire::law_bytes_spell_the_number(wire::be_u32_bytes(0), image, image.len() as int);
    assert(b =~= wire::be_u32_bytes(0) + wire::be_u64_bytes(image.len() as int) + image);
}

/// Each byte of a serialized record of PostgreSQL: a tag of 1, a tag of 0, a
/// byte that says whether it rebuilds the page, the length, and the record.
pub proof fn law_postgres_record_layout(will_init: bool, rec: Seq<u8>)
    requires
        rec.len() <= u64::MAX,
    ensures
        ({
            let b = (ValueState::Postgres { will_init, rec }).serialized();
            &&& b.len() == 17 + rec.len()
            &&& b[0] == 0 && b[1] == 0 && b[2] == 0 && b[3] == 1
            &&& b[4] == 0 && b[5] == 0 && b[6] == 0 && b[7] == 0
            &&& b[8] == (if will_init {
                1
            } else {
                0int
            })
            &&& wire::be_u64_at(b, 9) == rec.len()
            &&& forall|i: int| 0 <= i < rec.len() ==> #[trigger] b[17 + i] == rec[i]
        }),
{
    let b = (ValueState::Postgres { will_init, rec }).serialized();
    let head = wire::be_u32_bytes(1) + wire::be_u32_bytes(0) + seq![
        if will_init {
            1u8
        } else {
            0u8
        },
    ];
    wire::law_bytes_spell_the_number(head, rec, rec.len() as int);
    assert(b =~= head + wire::be_u64_bytes(rec.len() as int) + rec);
}

/// A record of another kind stands behind its tag as it is.
pub proof fn law_encoded_record_layout(will_init: bool, encoding: Seq<u8>)
    ensures
        ({
            let b = (ValueState::Encoded { will_init, encoding }).serialized();
            &&& b.len() == 4 + encoding.len()
            &&& b[0] == 0 && b[1] == 0 && b[2] == 0 && b[3] == 1
            &&& forall|i: int| 0 <= i < encoding.len() ==> #[trigger] b[4 + i] == encoding[i]
        }),
{
}

/// Images and records of PostgreSQL are well-formed whatever they hold; a record
/// of another kind is where it starts with four bytes that are not all 0.
pub proof fn law_well_formed_values(v: ValueState)
    ensures
        v is Image || v is Postgres ==> v.well_formed(),
        v matches ValueState::Encoded { encoding, .. } ==> (v.well_formed() <==> encoding.len() >= 4
            && (encoding[0] != 0 || encoding[1] != 0 || encoding[2] != 0 || encoding[3] != 0)),
{
}

/// Bytes are read as a value only where they are its serialized form. Together
/// with the round trip, this leaves one reading for all bytes.
pub proof fn law_only_serialized_forms_are_read(b: Seq<u8>, will_init: bool)
    requires
        b.len() <= u64::MAX,
    ensures
        deserialized(b, will_init) matches Some(v) ==> v.serialized() == b && v.well_formed() && (
        v is Encoded ==> v.will_init() == will_init),
{
    match deserialized(b, will_init) {
        Some(v) => {
            wire::law_big_endian(b, 0);
            assert(b.take(4) =~= wire::be_u32_bytes(wire::be_u32_at(b, 0))) by {
                lemma_be_u32_unique(b.take(4), wire::be_u32_at(b, 0));
            }
            match v {
                ValueState::Image { image } => {
                    lemma_be_u64_unique(b.subrange(4, 12), wire::be_u64_at(b, 4));
                    assert(v.serialized() =~= b);
                },
                ValueState::Postgres { will_init: w, rec } => {
                    lemma_be_u32_unique(b.subrange(4, 8), wire::be_u32_at(b, 4));
                    lemma_be_u64_unique(b.subrange(9, 17), wire::be_u64_at(b, 9));
                    assert(v.serialized() =~= b);
                },
                ValueState::Encoded { encoding, .. } => {
                    assert(v.serialized() =~= b);
                    assert(wire::be_u32_at(encoding, 0) == wire::be_u32_at(b, 4));
                },
            }
        },
        None => {},
    }
}

/// Four bytes are those of the number that they spell.
proof fn lemma_be_u32_unique(s: Seq<u8>, x: int)
    requires
        s.len() == 4,
        wire::be_u32_at(s, 0) == x,
    ensures
        s == wire::be_u32_bytes(x),
{
    wire::law_big_endian(s, 0);
    assert(x / 0x100_0000 == x / 0x100 / 0x100 / 0x100);
    assert(x / 0x1_0000 == x / 0x100 / 0x100);
    assert(s =~= wire::be_u32_bytes(x));
}

/// Eight bytes are those of the number that they spell.
proof fn lemma_be_u64_unique(s: Seq<u8>, x: int)
    requires
        s.len() == 8,
        wire::be_u64_at(s, 0) == x,
    ensures
        s == wire::be_u64_bytes(x),
{
    wire::law_big_endian(s, 0);
    lemma_be_u32_unique(s.take(4), wire::be_u32_at(s, 0));
    assert(wire::be_u32_at(s.skip(4), 0) == wire::be_u32_at(s, 4));
    lemma_be_u32_unique(s.skip(4), wire::be_u32_at(s, 4));
    assert(s =~= s.take(4) + s.skip(4));
}

/// An image needs nothing beneath it, and a record says for itself.
pub proof fn law_will_init_of_each_value(v: ValueState)
    ensures
        v.will_init() <==> {
            ||| v is Image
            ||| v matches ValueState::Postgres { will_init, .. } && will_init
            ||| v matches ValueState::Encoded { will_init, .. } && will_init
        },
{
}

/// The state that a contract speaks of is what the value holds.
pub proof fn law_value_state_is_its_contents(bytes: Bytes, w: bool)
    ensures
        Value::Image(bytes)@ == (ValueState::Image { image: buffers::bytes_contents(bytes) }),
        Value::WalRecord(NeonWalRecord::Postgres { will_init: w, rec: bytes })@ == (
        ValueState::Postgres { will_init: w, rec: buffers::bytes_contents(bytes) }),
        Value::WalRecord(NeonWalRecord::Encoded { will_init: w, encoding: bytes })@ == (
        ValueState::Encoded { will_init: w, encoding: buffers::bytes_contents(bytes) }),
{
}

} // verus!
