//! The fixed-width binary layout of one record, and the conversions between
//! a record and the bytes of its slot.
use vstd::prelude::*;

verus! {

/// Width in bytes of each of the two text fields of a slot.
pub const FIELD_SIZE: usize = 32;

/// Width in bytes of the identifier at the start of a slot.
pub const ID_SIZE: usize = 8;

/// Width in bytes of one encoded record.
pub const ROW_SIZE: usize = 72;

/// A record: an identifier and two byte strings.
#[derive(Clone, Debug, PartialEq, Eq)]
pub struct Record {
    pub id: u64,
    pub username: Vec<u8>,
    pub email: Vec<u8>,
}

/// The mathematical value of a record.
pub struct RecordView {
    pub id: u64,
    pub username: Seq<u8>,
    pub email: Seq<u8>,
}

impl View for Record {
    type V = RecordView;

    open spec fn view(&self) -> RecordView {
        RecordView { id: self.id, username: self.username@, email: self.email@ }
    }
}

/// A record in its fixed-width form: each text field zero-padded.
struct Row {
    id: u64,
    username: [u8; 32],
    email: [u8; 32],
}

/// The eight bytes of `x`, least significant first.
pub open spec fn u64_le_bytes(x: u64) -> Seq<u8> {
    seq![
        x as u8,
        (x >> 8u64) as u8,
        (x >> 16u64) as u8,
        (x >> 24u64) as u8,
        (x >> 32u64) as u8,
        (x >> 40u64) as u8,
        (x >> 48u64) as u8,
        (x >> 56u64) as u8,
    ]
}

/// The integer whose little-endian bytes are the first eight of `b`.
pub open spec fn le_u64(b: Seq<u8>) -> u64
    recommends
        b.len() >= 8,
{
    (b[0] as u64) | ((b[1] as u64) << 8u64) | ((b[2] as u64) << 16u64) | ((b[3] as u64)
        << 24u64) | ((b[4] as u64) << 32u64) | ((b[5] as u64) << 40u64) | ((b[6] as u64)
        << 48u64) | ((b[7] as u64) << 56u64)
}

/// A text field as stored: the first `FIELD_SIZE` bytes of `s`, followed by
/// zero bytes up to `FIELD_SIZE`.
pub open spec fn pad_field(s: Seq<u8>) -> Seq<u8> {
    Seq::new(FIELD_SIZE as nat, |i: int| if i < s.len() { s[i] } else { 0u8 })
}

/// The bytes of `f` before its first zero byte (all of `f` if it has none).
pub open spec fn until_zero(f: Seq<u8>) -> Seq<u8>
    decreases f.len(),
{
    if f.len() == 0 || f[0] == 0 {
        seq![]
    } else {
        seq![f[0]] + until_zero(f.drop_first())
    }
}

/// No byte of `s` is zero.
pub open spec fn zero_free(s: Seq<u8>) -> bool {
    forall|i: int| 0 <= i < s.len() ==> s[i] != 0
}

/// A record that survives encoding unchanged: fields fit their width and hold
/// no zero byte, which would read back as padding.
pub open spec fn exact_record(r: RecordView) -> bool {
    &&& r.username.len() <= FIELD_SIZE
    &&& r.email.len() <= FIELD_SIZE
    &&& zero_free(r.username)
    &&& zero_free(r.email)
}

/// The bytes of the slot that holds `r`.
pub open spec fn encode_spec(r: RecordView) -> Seq<u8> {
    u64_le_bytes(r.id) + pad_field(r.username) + pad_field(r.email)
}

/// The record that a slot's bytes hold.
pub open spec fn decode_spec(b: Seq<u8>) -> RecordView {
    RecordView {
        id: le_u64(b.take(ID_SIZE as int)),
        username: until_zero(b.subrange(ID_SIZE as int, (ID_SIZE + FIELD_SIZE) as int)),
        email: until_zero(b.subrange((ID_SIZE + FIELD_SIZE) as int, ROW_SIZE as int)),
    }
}

/// The record that a store holds after appending `r`: `r` as its slot
/// encodes it, with over-long fields cut to `FIELD_SIZE` bytes and each
/// field ending at its first zero byte.
pub open spec fn stored(r: RecordView) -> RecordView {
    decode_spec(encode_spec(r))
}

/// Relies on `bincode::serialize` of the tuple (id, username, email): with
/// bincode's default functions an integer takes its fixed width, little
/// endian, an array is its elements in order with no length prefix, and
/// serialising these types does not fail.
#[verifier::external_body]
fn serialize_row(row: &Row) -> (r: Vec<u8>)
    ensures
        r@ == u64_le_bytes(row.id) + row.username@ + row.email@,
{
    bincode::serialize(&(row.id, row.username, row.email)).unwrap_or_default()
}

/// Relies on `bincode::deserialize` of the tuple (id, username, email) from
/// a slice: it reads the same layout that `serialize_row` writes, and it fails
/// only when the slice is too short.
#[verifier::external_body]
fn deserialize_row(bytes: &[u8]) -> (r: Option<Row>)
    requires
        bytes@.len() == ROW_SIZE,
    ensures
        r is Some,
        r->Some_0.id == le_u64(bytes@.take(ID_SIZE as int)),
        r->Some_0.username@ == bytes@.subrange(ID_SIZE as int, (ID_SIZE + FIELD_SIZE) as int),
        r->Some_0.email@ == bytes@.subrange((ID_SIZE + FIELD_SIZE) as int, ROW_SIZE as int),
{
    match bincode::deserialize::<(u64, [u8; 32], [u8; 32])>(bytes) {
        Ok((id, username, email)) => Some(Row { id, username, email }),
        Err(_) => None,
    }
}

/// `until_zero(f)` is the prefix of `f` of length `n` when that prefix is
/// zero-free and ends at a zero byte or at the end of `f`.
pub proof fn lemma_until_zero_prefix(f: Seq<u8>, n: int)
    requires
        0 <= n <= f.len(),
        zero_free(f.take(n)),
        n == f.len() || f[n] == 0,
    ensures
        until_zero(f) == f.take(n),
    decreases n,
{
    if n == 0 {
        assert(f.take(0) =~= seq![]);
    } else {
        assert(f.take(n)[0] == f[0]);
        let g = f.drop_first();
        assert(zero_free(g.take(n - 1))) by {
            assert forall|i: int| 0 <= i < n - 1 implies #[trigger] g.take(n - 1)[i] != 0 by {
                assert(f.take(n)[i + 1] == g[i]);
            }
        }
        lemma_until_zero_prefix(g, n - 1);
        assert(f.take(n) =~= seq![f[0]] + g.take(n - 1));
    }
}

/// A field padded to `FIELD_SIZE` reads back as the original bytes.
pub proof fn lemma_field_round_trip(s: Seq<u8>)
    requires
        s.len() <= FIELD_SIZE,
        zero_free(s),
    ensures
        until_zero(pad_field(s)) == s,
{
    let f = pad_field(s);
    assert(f.take(s.len() as int) =~= s);
    lemma_until_zero_prefix(f, s.len() as int);
}

/// Reading the little-endian bytes of an integer gives the integer back.
pub proof fn lemma_le_round_trip(x: u64)
    ensures
        le_u64(u64_le_bytes(x)) == x,
{
    assert(((x as u8) as u64) | ((((x >> 8u64) as u8) as u64) << 8u64) | ((((x >> 16u64) as u8)
        as u64) << 16u64) | ((((x >> 24u64) as u8) as u64) << 24u64) | ((((x >> 32u64) as u8)
        as u64) << 32u64) | ((((x >> 40u64) as u8) as u64) << 40u64) | ((((x >> 48u64) as u8)
        as u64) << 48u64) | ((((x >> 56u64) as u8) as u64) << 56u64) == x) by (bit_vector);
}

/// Decoding the slot that encodes a record yields that record, whenever its
/// fields fit their width and hold no zero byte.
pub proof fn lemma_round_trip(r: RecordView)
    requires
        exact_record(r),
    ensures
        decode_spec(encode_spec(r)) == r,
        stored(r) == r,
{
    let b = encode_spec(r);
    assert(b.take(ID_SIZE as int) =~= u64_le_bytes(r.id));
    assert(b.subrange(ID_SIZE as int, (ID_SIZE + FIELD_SIZE) as int) =~= pad_field(r.username));
    assert(b.subrange((ID_SIZE + FIELD_SIZE) as int, ROW_SIZE as int) =~= pad_field(r.email));
    lemma_le_round_trip(r.id);
    lemma_field_round_trip(r.username);
    lemma_field_round_trip(r.email);
}

/// The fixed-width field that stores `s`: its first `FIELD_SIZE` bytes,
/// zero-padded.
fn to_field(s: &Vec<u8>) -> (f: [u8; 32])
    ensures
        f@ == pad_field(s@),
{
    let mut f = [0u8; 32];
    let n: usize = if s.len() < FIELD_SIZE { s.len() } else { FIELD_SIZE };
    let mut i: usize = 0;
    while i < n
        invariant
            n <= s@.len(),
            n <= FIELD_SIZE,
            i <= n,
            f@.len() == FIELD_SIZE,
            forall|j: int| 0 <= j < FIELD_SIZE ==> f@[j] == (if j < i { s@[j] } else { 0u8 }),
        decreases n - i,
    {
        f[i] = s[i];
        i = i + 1;
    }
    assert(f@ =~= pad_field(s@));
    f
}

/// The text held by a stored field: its bytes before the first zero byte.
fn from_field(f: &[u8; 32]) -> (s: Vec<u8>)
    ensures
        s@ == until_zero(f@),
{
    let mut s: Vec<u8> = Vec::new();
    let mut i: usize = 0;
    while i < FIELD_SIZE && f[i] != 0
        invariant
            i <= FIELD_SIZE,
            f@.len() == FIELD_SIZE,
            s@ == f@.take(i as int),
            zero_free(s@),
        decreases FIELD_SIZE - i,
    {
        s.push(f[i]);
        i = i + 1;
        assert(s@ =~= f@.take(i as int));
    }
    proof {
        lemma_until_zero_prefix(f@, i as int);
    }
    s
}

/// Encodes a record into the bytes of one slot. A text field longer than
/// `FIELD_SIZE` keeps its first `FIELD_SIZE` bytes.
pub fn encode(record: &Record) -> (bytes: Vec<u8>)
    ensures
        bytes@ == encode_spec(record@),
        bytes@.len() == ROW_SIZE,
{
    let row = Row { id: record.id, username: to_field(&record.username), email: to_field(&record.email) };
    serialize_row(&row)
}

/// Decodes the bytes of one slot into the record they hold.
pub fn decode(bytes: &[u8]) -> (record: Record)
    requires
        bytes@.len() == ROW_SIZE,
    ensures
        record@ == decode_spec(bytes@),
{
    match deserialize_row(bytes) {
        Some(row) => Record { id: row.id, username: from_field(&row.username), email: from_field(&row.email) },
        None => Record { id: 0, username: Vec::new(), email: Vec::new() },
    }
}

} // verus!
