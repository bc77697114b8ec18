//! Typed message model.
//!
//! Only the two frame kinds the pipeline inspects are decoded structurally:
//! a RowDescription (the columns of a result set) and a DataRow (one row of
//! cells). Every other tag passes through opaque. A cell is either NULL,
//! written on the wire with length -1, or a byte string of declared length.

use vstd::prelude::*;

verus! {

use crate::codec::{Frame, ProxyError};
use crate::wire::{be16, be16_val, be32, be32_val, lemma_be32_of_val, read_be16, read_be32,
    push_be16, push_be32};
use vstd::slice::{slice_subrange, slice_to_vec};

/// Frame tag of a RowDescription.
pub const TAG_ROW_DESCRIPTION: u8 = 84;

/// Frame tag of a DataRow.
pub const TAG_DATA_ROW: u8 = 68;

/// The wire's NULL sentinel: a cell length of -1 as an unsigned word.
pub const NULL_LENGTH: u32 = 0xFFFF_FFFF;

/// A 16-bit wire word reinterpreted as a signed value.
pub open spec fn u16_as_i16(v: u16) -> i16 {
    if v < 0x8000 {
        v as i16
    } else {
        (v - 0x10000) as i16
    }
}

/// A 32-bit wire word reinterpreted as a signed value.
pub open spec fn u32_as_i32(v: u32) -> i32 {
    if v < 0x8000_0000 {
        v as i32
    } else {
        (v - 0x1_0000_0000) as i32
    }
}

/// Reinterprets a 16-bit wire word as signed.
pub fn dec_i16(v: u16) -> (r: i16)
    ensures
        r == u16_as_i16(v),
{
    if v < 0x8000 {
        v as i16
    } else {
        ((v as i32) - 0x10000) as i16
    }
}

/// Reinterprets a 32-bit wire word as signed.
pub fn dec_i32(v: u32) -> (r: i32)
    ensures
        r == u32_as_i32(v),
{
    if v < 0x8000_0000 {
        v as i32
    } else {
        ((v as i64) - 0x1_0000_0000) as i32
    }
}

/// Mathematical model of one column of a result set.
pub struct FieldModel {
    pub name: Seq<u8>,
    pub table_oid: u32,
    pub column_index: i16,
    pub type_oid: u32,
    pub type_len: i16,
    pub type_modifier: i32,
    pub format_code: i16,
}

/// One column of a result set, as the RowDescription frame carries it: the
/// column name and six numeric attributes, all preserved verbatim.
pub struct FieldDescription {
    pub name: Vec<u8>,
    pub table_oid: u32,
    pub column_index: i16,
    pub type_oid: u32,
    pub type_len: i16,
    pub type_modifier: i32,
    pub format_code: i16,
}

impl View for FieldDescription {
    type V = FieldModel;

    open spec fn view(&self) -> FieldModel {
        FieldModel {
            name: self.name@,
            table_oid: self.table_oid,
            column_index: self.column_index,
            type_oid: self.type_oid,
            type_len: self.type_len,
            type_modifier: self.type_modifier,
            format_code: self.format_code,
        }
    }
}

/// The ordered columns of a result set. Bound from its arrival until the
/// next RowDescription on the same connection.
pub struct RowDescription {
    pub fields: Vec<FieldDescription>,
}

impl View for RowDescription {
    type V = Seq<FieldModel>;

    open spec fn view(&self) -> Seq<FieldModel> {
        Seq::new(self.fields@.len(), |i: int| self.fields@[i]@)
    }
}

/// One row of cells. A cell is `None` for the wire's NULL, else its bytes.
pub struct DataRow {
    pub values: Vec<Option<Vec<u8>>>,
}

impl View for DataRow {
    type V = Seq<Option<Seq<u8>>>;

    open spec fn view(&self) -> Seq<Option<Seq<u8>>> {
        Seq::new(
            self.values@.len(),
            |i: int|
                match self.values@[i] {
                    Some(v) => Some(v@),
                    None => None,
                },
        )
    }
}

/// The first NUL byte at or after `pos`.
pub open spec fn first_nul_from(b: Seq<u8>, pos: int) -> Option<int>
    decreases b.len() - pos,
{
    if pos < 0 || pos >= b.len() {
        None
    } else if b[pos] == 0 {
        Some(pos)
    } else {
        first_nul_from(b, pos + 1)
    }
}

/// One field record at `pos`: a NUL-terminated name and 18 fixed bytes.
pub open spec fn spec_field_at(b: Seq<u8>, pos: int) -> Option<(FieldModel, int)> {
    match first_nul_from(b, pos) {
        None => None,
        Some(z) => if z + 19 <= b.len() {
            Some(
                (
                    FieldModel {
                        name: b.subrange(pos, z),
                        table_oid: be32_val(b.subrange(z + 1, z + 5)) as u32,
                        column_index: u16_as_i16(be16_val(b.subrange(z + 5, z + 7)) as u16),
                        type_oid: be32_val(b.subrange(z + 7, z + 11)) as u32,
                        type_len: u16_as_i16(be16_val(b.subrange(z + 11, z + 13)) as u16),
                        type_modifier: u32_as_i32(be32_val(b.subrange(z + 13, z + 17)) as u32),
                        format_code: u16_as_i16(be16_val(b.subrange(z + 17, z + 19)) as u16),
                    },
                    z + 19,
                ),
            )
        } else {
            None
        },
    }
}

/// `n` field records starting at `pos`, and the position after them.
pub open spec fn spec_fields_from(b: Seq<u8>, pos: int, n: nat) -> Option<(Seq<FieldModel>, int)>
    decreases n,
{
    if n == 0 {
        Some((Seq::empty(), pos))
    } else {
        match spec_field_at(b, pos) {
            None => None,
            Some((f, p2)) => match spec_fields_from(b, p2, (n - 1) as nat) {
                None => None,
                Some((fs, p3)) => Some((seq![f] + fs, p3)),
            },
        }
    }
}

/// A whole RowDescription payload: a 16-bit field count, that many field
/// records, nothing after them.
pub open spec fn spec_parse_row_description(b: Seq<u8>) -> Option<Seq<FieldModel>> {
    if b.len() < 2 {
        None
    } else {
        match spec_fields_from(b, 2, be16_val(b.subrange(0, 2)) as nat) {
            None => None,
            Some((fs, p)) => if p == b.len() {
                Some(fs)
            } else {
                None
            },
        }
    }
}

/// One cell at `pos`: a 32-bit length, then that many bytes, or NULL.
pub open spec fn spec_cell_at(b: Seq<u8>, pos: int) -> Option<(Option<Seq<u8>>, int)> {
    if pos < 0 || pos + 4 > b.len() {
        None
    } else {
        let raw = be32_val(b.subrange(pos, pos + 4));
        if raw == NULL_LENGTH {
            Some((None, pos + 4))
        } else if raw > 0x7FFF_FFFF {
            None
        } else if pos + 4 + raw <= b.len() {
            Some((Some(b.subrange(pos + 4, pos + 4 + raw)), pos + 4 + raw))
        } else {
            None
        }
    }
}

/// `n` cells starting at `pos`, and the position after them.
pub open spec fn spec_cells_from(b: Seq<u8>, pos: int, n: nat) -> Option<
    (Seq<Option<Seq<u8>>>, int),
>
    decreases n,
{
    if n == 0 {
        Some((Seq::empty(), pos))
    } else {
        match spec_cell_at(b, pos) {
            None => None,
            Some((c, p2)) => match spec_cells_from(b, p2, (n - 1) as nat) {
                None => None,
                Some((cs, p3)) => Some((seq![c] + cs, p3)),
            },
        }
    }
}

/// A whole DataRow payload: a 16-bit cell count, that many cells, nothing
/// after them.
pub open spec fn spec_parse_data_row(b: Seq<u8>) -> Option<Seq<Option<Seq<u8>>>> {
    if b.len() < 2 {
        None
    } else {
        match spec_cells_from(b, 2, be16_val(b.subrange(0, 2)) as nat) {
            None => None,
            Some((cs, p)) => if p == b.len() {
                Some(cs)
            } else {
                None
            },
        }
    }
}

/// The wire form of one cell: NULL as length -1, else the length and bytes.
pub open spec fn cell_bytes(c: Option<Seq<u8>>) -> Seq<u8> {
    match c {
        None => be32(NULL_LENGTH),
        Some(v) => be32(v.len() as u32) + v,
    }
}

pub open spec fn cells_bytes(cs: Seq<Option<Seq<u8>>>) -> Seq<u8>
    decreases cs.len(),
{
    if cs.len() == 0 {
        Seq::empty()
    } else {
        cell_bytes(cs[0]) + cells_bytes(cs.drop_first())
    }
}

/// The canonical wire form of a DataRow payload, lengths recomputed from
/// the cells it actually carries.
pub open spec fn data_row_bytes(cs: Seq<Option<Seq<u8>>>) -> Seq<u8> {
    be16(cs.len() as u16) + cells_bytes(cs)
}

/// A row the encoder can frame: the count fits 16 bits and each cell's
/// length is a non-negative 32-bit value.
pub open spec fn data_row_wf(cs: Seq<Option<Seq<u8>>>) -> bool {
    &&& cs.len() <= 0xFFFF
    &&& forall|i: int|
        0 <= i < cs.len() ==> ((#[trigger] cs[i]) matches Some(v) ==> v.len() <= 0x7FFF_FFFF)
}

/// Finds the first NUL byte at or after `from`.
fn find_nul(b: &[u8], from: usize) -> (r: Option<usize>)
    requires
        from <= b@.len(),
    ensures
        match r {
            Some(z) => first_nul_from(b@, from as int) == Some(z as int) && from <= z < b@.len(),
            None => first_nul_from(b@, from as int) is None,
        },
{
    let mut i = from;
    while i < b.len()
        invariant
            from <= i <= b@.len(),
            first_nul_from(b@, from as int) == first_nul_from(b@, i as int),
        decreases b@.len() - i,
    {
        if b[i] == 0 {
            return Some(i);
        }
        i += 1;
    }
    None
}

/// Decodes a RowDescription payload, or `None` when it is not structured as
/// one.
pub fn parse_row_description(payload: &[u8]) -> (r: Option<RowDescription>)
    ensures
        match r {
            Some(d) => spec_parse_row_description(payload@) == Some(d@),
            None => spec_parse_row_description(payload@) is None,
        },
{
    if payload.len() < 2 {
        return None;
    }
    let n = read_be16(payload[0], payload[1]);
    proof {
        assert(seq![payload@[0], payload@[1]] =~= payload@.subrange(0, 2));
    }
    let mut fields: Vec<FieldDescription> = Vec::new();
    let mut pos: usize = 2;
    let mut k: usize = 0;
    while k < n as usize
        invariant
            payload@.len() >= 2,
            n == be16_val(payload@.subrange(0, 2)),
            k <= n,
            pos <= payload@.len(),
            fields@.len() == k,
            match spec_fields_from(payload@, pos as int, (n - k) as nat) {
                Some((fs, p)) => spec_fields_from(payload@, 2, n as nat) == Some(
                    (Seq::new(fields@.len(), |i: int| fields@[i]@) + fs, p),
                ),
                None => spec_fields_from(payload@, 2, n as nat) is None,
            },
        decreases n - k,
    {
        let z = match find_nul(payload, pos) {
            Some(z) => z,
            None => {
                return None;
            },
        };
        if payload.len() - z < 19 {
            return None;
        }
        let name: Vec<u8> = slice_to_vec(slice_subrange(payload, pos, z));
        let table_oid = read_be32(payload[z + 1], payload[z + 2], payload[z + 3], payload[z + 4]);
        let column_index = dec_i16(read_be16(payload[z + 5], payload[z + 6]));
        let type_oid = read_be32(payload[z + 7], payload[z + 8], payload[z + 9], payload[z + 10]);
        let type_len = dec_i16(read_be16(payload[z + 11], payload[z + 12]));
        let type_modifier = dec_i32(
            read_be32(payload[z + 13], payload[z + 14], payload[z + 15], payload[z + 16]),
        );
        let format_code = dec_i16(read_be16(payload[z + 17], payload[z + 18]));
        proof {
            assert(seq![payload@[z + 1], payload@[z + 2], payload@[z + 3], payload@[z + 4]]
                =~= payload@.subrange(z as int + 1, z as int + 5));
            assert(seq![payload@[z + 5], payload@[z + 6]] =~= payload@.subrange(
                z as int + 5,
                z as int + 7,
            ));
            assert(seq![payload@[z + 7], payload@[z + 8], payload@[z + 9], payload@[z + 10]]
                =~= payload@.subrange(z as int + 7, z as int + 11));
            assert(seq![payload@[z + 11], payload@[z + 12]] =~= payload@.subrange(
                z as int + 11,
                z as int + 13,
            ));
            assert(seq![payload@[z + 13], payload@[z + 14], payload@[z + 15], payload@[z + 16]]
                =~= payload@.subrange(z as int + 13, z as int + 17));
            assert(seq![payload@[z + 17], payload@[z + 18]] =~= payload@.subrange(
                z as int + 17,
                z as int + 19,
            ));
        }
        let field = FieldDescription {
            name,
            table_oid,
            column_index,
            type_oid,
            type_len,
            type_modifier,
            format_code,
        };
        let ghost old_fields = fields@;
        fields.push(field);
        pos = z + 19;
        k += 1;
        proof {
            assert(Seq::new(fields@.len(), |i: int| fields@[i]@) =~= Seq::new(
                old_fields.len(),
                |i: int| old_fields[i]@,
            ) + seq![field@]);
            match spec_fields_from(payload@, pos as int, (n - k) as nat) {
                Some(r) => {
                    let fs = r.0;
                    assert((Seq::new(old_fields.len(), |i: int| old_fields[i]@) + (seq![field@]
                        + fs)) =~= (Seq::new(fields@.len(), |i: int| fields@[i]@) + fs));
                },
                None => {},
            }
        }
    }
    if pos != payload.len() {
        return None;
    }
    let d = RowDescription { fields };
    proof {
        assert(spec_fields_from(payload@, 2, n as nat) == Some(
            (
                Seq::new(d.fields@.len(), |i: int| d.fields@[i]@) + Seq::<FieldModel>::empty(),
                pos as int,
            ),
        ));
        assert(Seq::new(d.fields@.len(), |i: int| d.fields@[i]@) + Seq::<FieldModel>::empty()
            =~= d@);
    }
    Some(d)
}

/// Decodes a DataRow payload, or `None` when it is not structured as one.
pub fn parse_data_row(payload: &[u8]) -> (r: Option<DataRow>)
    ensures
        match r {
            Some(d) => spec_parse_data_row(payload@) == Some(d@) && data_row_wf(d@),
            None => spec_parse_data_row(payload@) is None,
        },
{
    if payload.len() < 2 {
        return None;
    }
    let n = read_be16(payload[0], payload[1]);
    proof {
        assert(seq![payload@[0], payload@[1]] =~= payload@.subrange(0, 2));
    }
    let mut values: Vec<Option<Vec<u8>>> = Vec::new();
    let mut pos: usize = 2;
    let mut k: usize = 0;
    while k < n as usize
        invariant
            payload@.len() >= 2,
            n == be16_val(payload@.subrange(0, 2)),
            k <= n,
            pos <= payload@.len(),
            values@.len() == k,
            forall|i: int|
                0 <= i < values@.len() ==> ((#[trigger] values@[i]) matches Some(v) ==> v@.len()
                    <= 0x7FFF_FFFF),
            match spec_cells_from(payload@, pos as int, (n - k) as nat) {
                Some((cs, p)) => spec_cells_from(payload@, 2, n as nat) == Some(
                    (
                        Seq::new(
                            values@.len(),
                            |i: int|
                                match values@[i] {
                                    Some(v) => Some(v@),
                                    None => None,
                                },
                        ) + cs,
                        p,
                    ),
                ),
                None => spec_cells_from(payload@, 2, n as nat) is None,
            },
        decreases n - k,
    {
        if payload.len() - pos < 4 {
            return None;
        }
        let raw = read_be32(payload[pos], payload[pos + 1], payload[pos + 2], payload[pos + 3]);
        proof {
            assert(seq![payload@[pos as int], payload@[pos + 1], payload@[pos + 2], payload@[pos
                + 3]] =~= payload@.subrange(pos as int, pos as int + 4));
        }
        let cell: Option<Vec<u8>>;
        if raw == NULL_LENGTH {
            cell = None;
            pos = pos + 4;
        } else if raw > 0x7FFF_FFFF {
            return None;
        } else if (raw as usize) <= payload.len() - (pos + 4) {
            let v = slice_to_vec(slice_subrange(payload, pos + 4, pos + 4 + raw as usize));
            cell = Some(v);
            pos = pos + 4 + raw as usize;
        } else {
            return None;
        }
        let ghost old_values = values@;
        let ghost cm: Option<Seq<u8>> = match &cell {
            Some(v) => Some(v@),
            None => None,
        };
        values.push(cell);
        k += 1;
        proof {
            let view_of = |vs: Seq<Option<Vec<u8>>>|
                Seq::new(
                    vs.len(),
                    |i: int|
                        match vs[i] {
                            Some(v) => Some(v@),
                            None => None,
                        },
                );
            assert(view_of(values@) =~= view_of(old_values) + seq![cm]);
            match spec_cells_from(payload@, pos as int, (n - k) as nat) {
                Some(r) => {
                    let cs = r.0;
                    assert((view_of(old_values) + (seq![cm] + cs)) =~= (view_of(values@) + cs));
                },
                None => {},
            }
        }
    }
    if pos != payload.len() {
        return None;
    }
    let d = DataRow { values };
    proof {
        assert(spec_cells_from(payload@, 2, n as nat) == Some(
            (d@ + Seq::<Option<Seq<u8>>>::empty(), pos as int),
        ));
        assert(d@ + Seq::<Option<Seq<u8>>>::empty() =~= d@);
    }
    Some(d)
}

/// Appends the canonical wire form of a row's cells to `out`, recomputing
/// every length from the bytes each cell actually holds.
pub fn encode_data_row(out: &mut Vec<u8>, row: &DataRow)
    requires
        data_row_wf(row@),
    ensures
        final(out)@ == old(out)@ + data_row_bytes(row@),
{
    push_be16(out, row.values.len() as u16);
    let mut k: usize = 0;
    while k < row.values.len()
        invariant
            data_row_wf(row@),
            k <= row@.len(),
            row@.len() == row.values@.len(),
            out@ == old(out)@ + be16(row@.len() as u16) + cells_bytes(row@.take(k as int)),
        decreases row@.len() - k,
    {
        let ghost done = row@.take(k as int);
        match &row.values[k] {
            None => {
                push_be32(out, NULL_LENGTH);
            },
            Some(v) => {
                push_be32(out, v.len() as u32);
                out.extend_from_slice(v.as_slice());
            },
        }
        k += 1;
        proof {
            lemma_cells_bytes_snoc(done, row@[k - 1]);
            assert(done.push(row@[k - 1]) =~= row@.take(k as int));
        }
    }
    proof {
        assert(row@.take(row@.len() as int) =~= row@);
    }
}

/// Appending one cell to a row appends its wire form to the row's wire form.
pub proof fn lemma_cells_bytes_snoc(cs: Seq<Option<Seq<u8>>>, c: Option<Seq<u8>>)
    ensures
        cells_bytes(cs.push(c)) =~= cells_bytes(cs) + cell_bytes(c),
    decreases cs.len(),
{
    if cs.len() == 0 {
        assert(cs.push(c).drop_first() =~= Seq::<Option<Seq<u8>>>::empty());
        assert(cs.push(c)[0] == c);
        assert(cells_bytes(cs.push(c)) =~= cell_bytes(c) + cells_bytes(
            Seq::<Option<Seq<u8>>>::empty(),
        ));
        assert(cells_bytes(cs.push(c)) =~= cells_bytes(cs) + cell_bytes(c));
    } else {
        assert(cs.push(c).drop_first() =~= cs.drop_first().push(c));
        lemma_cells_bytes_snoc(cs.drop_first(), c);
        assert(cs.push(c)[0] == cs[0]);
        assert(cells_bytes(cs.push(c)) =~= cell_bytes(cs[0]) + (cells_bytes(cs.drop_first())
            + cell_bytes(c)));
        assert(cell_bytes(cs[0]) + (cells_bytes(cs.drop_first()) + cell_bytes(c)) =~= (cell_bytes(
            cs[0],
        ) + cells_bytes(cs.drop_first())) + cell_bytes(c));
    }
}

/// Decoding a DataRow payload and re-encoding the cells reproduces the
/// payload byte for byte: the format is free of redundancy, so a row whose
/// cells were not touched re-emits exactly as it arrived.
pub proof fn lemma_data_row_exact(b: Seq<u8>)
    requires
        spec_parse_data_row(b) is Some,
    ensures
        data_row_bytes(spec_parse_data_row(b)->Some_0) =~= b,
{
    let n = be16_val(b.subrange(0, 2)) as nat;
    let cs = spec_parse_data_row(b)->Some_0;
    lemma_cells_from_exact(b, 2, n);
    crate::wire::lemma_be16_of_val(b.subrange(0, 2));
    let r = spec_cells_from(b, 2, n)->Some_0;
    assert(r.0.len() == n) by {
        lemma_cells_from_count(b, 2, n);
    }
    assert(be16(cs.len() as u16) =~= b.subrange(0, 2));
    assert(b =~= b.subrange(0, 2) + b.subrange(2, b.len() as int));
}

/// The cells parsed from `[pos, p)` re-encode to exactly `b[pos..p)`.
proof fn lemma_cells_from_exact(b: Seq<u8>, pos: int, n: nat)
    requires
        0 <= pos <= b.len(),
        spec_cells_from(b, pos, n) is Some,
    ensures
        ({
            let (cs, p) = spec_cells_from(b, pos, n)->Some_0;
            pos <= p <= b.len() && cells_bytes(cs) =~= b.subrange(pos, p)
        }),
    decreases n,
{
    if n == 0 {
        assert(b.subrange(pos, pos) =~= Seq::empty());
    } else {
        let (c, p2) = spec_cell_at(b, pos)->Some_0;
        lemma_cells_from_exact(b, p2, (n - 1) as nat);
        let (cs2, p3) = spec_cells_from(b, p2, (n - 1) as nat)->Some_0;
        lemma_cell_at_exact(b, pos);
        assert(cells_bytes(seq![c] + cs2) =~= cell_bytes(c) + cells_bytes(cs2)) by {
            assert((seq![c] + cs2).drop_first() =~= cs2);
        }
        assert(b.subrange(pos, p3) =~= b.subrange(pos, p2) + b.subrange(p2, p3));
    }
}

/// One parsed cell re-encodes to exactly the bytes it was read from.
proof fn lemma_cell_at_exact(b: Seq<u8>, pos: int)
    requires
        spec_cell_at(b, pos) is Some,
    ensures
        ({
            let (c, p2) = spec_cell_at(b, pos)->Some_0;
            pos <= p2 <= b.len() && pos + 4 <= p2 && cell_bytes(c) =~= b.subrange(pos, p2)
        }),
{
    let raw = be32_val(b.subrange(pos, pos + 4));
    lemma_be32_of_val(b.subrange(pos, pos + 4));
    if raw == NULL_LENGTH {
        assert(cell_bytes(None) =~= b.subrange(pos, pos + 4));
    } else {
        let (c, p2) = spec_cell_at(b, pos)->Some_0;
        let v = b.subrange(pos + 4, pos + 4 + raw);
        assert(v.len() == raw);
        assert(be32(v.len() as u32) =~= b.subrange(pos, pos + 4));
        assert(cell_bytes(c) =~= b.subrange(pos, pos + 4) + b.subrange(pos + 4, pos + 4 + raw));
        assert(b.subrange(pos, p2) =~= b.subrange(pos, pos + 4) + b.subrange(pos + 4, p2));
    }
}

/// A frame sorted into the typed message model: only the two inspected
/// kinds are decoded structurally; every other tag stays an opaque frame.
pub enum Message {
    RowDescription(RowDescription),
    DataRow(DataRow),
    Opaque(Frame),
}

/// Whether a tag belongs to the inspection set.
pub open spec fn tag_is_inspected(tag: Option<u8>) -> bool {
    tag == Some(TAG_ROW_DESCRIPTION) || tag == Some(TAG_DATA_ROW)
}

/// The classifier: a pure function from a frame to its typed message.
/// A frame outside the inspection set always classifies as `Opaque`,
/// unchanged; an inspected frame classifies if and only if its payload
/// decodes, and fails with `MalformedFrame` otherwise.
pub fn classify(frame: Frame) -> (r: Result<Message, ProxyError>)
    ensures
        match r {
            Ok(m) => match m {
                Message::RowDescription(d) => frame@.tag == Some(TAG_ROW_DESCRIPTION)
                    && spec_parse_row_description(frame@.payload) == Some(d@),
                Message::DataRow(d) => frame@.tag == Some(TAG_DATA_ROW) && spec_parse_data_row(
                    frame@.payload,
                ) == Some(d@),
                Message::Opaque(f) => f@ == frame@ && !tag_is_inspected(frame@.tag),
            },
            Err(e) => e == ProxyError::MalformedFrame && (frame@.tag == Some(TAG_ROW_DESCRIPTION)
                ==> spec_parse_row_description(frame@.payload) is None) && (frame@.tag == Some(
                TAG_DATA_ROW,
            ) ==> spec_parse_data_row(frame@.payload) is None) && tag_is_inspected(frame@.tag),
        },
{
    let is_t = match frame.tag {
        Some(t) => t == TAG_ROW_DESCRIPTION,
        None => false,
    };
    let is_d = match frame.tag {
        Some(t) => t == TAG_DATA_ROW,
        None => false,
    };
    if is_t {
        match parse_row_description(frame.payload.as_slice()) {
            Some(d) => Ok(Message::RowDescription(d)),
            None => Err(ProxyError::MalformedFrame),
        }
    } else if is_d {
        match parse_data_row(frame.payload.as_slice()) {
            Some(d) => Ok(Message::DataRow(d)),
            None => Err(ProxyError::MalformedFrame),
        }
    } else {
        Ok(Message::Opaque(frame))
    }
}

/// A successful parse of `n` field records yields exactly `n` fields.
pub proof fn lemma_fields_from_count(b: Seq<u8>, pos: int, n: nat)
    requires
        spec_fields_from(b, pos, n) is Some,
    ensures
        spec_fields_from(b, pos, n)->Some_0.0.len() == n,
    decreases n,
{
    if n > 0 {
        let (f, p2) = spec_field_at(b, pos)->Some_0;
        lemma_fields_from_count(b, p2, (n - 1) as nat);
    }
}

/// A parsed RowDescription has at most 65535 fields: the count is 16 bits.
pub proof fn lemma_row_description_count(b: Seq<u8>)
    requires
        spec_parse_row_description(b) is Some,
    ensures
        spec_parse_row_description(b)->Some_0.len() <= 0xFFFF,
{
    let n = be16_val(b.subrange(0, 2)) as nat;
    crate::wire::lemma_be16_of_val(b.subrange(0, 2));
    lemma_fields_from_count(b, 2, n);
}

/// A successful parse of `n` cells yields exactly `n` cells.
pub proof fn lemma_cells_from_count(b: Seq<u8>, pos: int, n: nat)
    requires
        spec_cells_from(b, pos, n) is Some,
    ensures
        spec_cells_from(b, pos, n)->Some_0.0.len() == n,
    decreases n,
{
    if n > 0 {
        let (c, p2) = spec_cell_at(b, pos)->Some_0;
        lemma_cells_from_count(b, p2, (n - 1) as nat);
    }
}

} // verus!
