//! Record codecs: each domain record type maps a sequence of its records to
//! a column batch plus dataset metadata, and maps them back.
use vstd::prelude::*;
use vstd::string::StrSliceExecFns;
use crate::batch::{
    all_non_nullable, field_names, lookup, metadata_view, field_types, strings_view, Column, ColumnBatch, ColumnData, DataType,
    Field, Schema,
};
use crate::fixed_point::{
    ascii_chars, digit_byte, nat_digits, pow10, unsigned_text, Price, Quantity, MAX_PRECISION,
};
use crate::identifiers::InstrumentId;

verus! {

/// Why records could not be mapped to or from columns.
#[derive(Clone, Copy, Debug, PartialEq, Eq, Structural)]
pub enum CodecError {
    /// The records do not share what the dataset metadata records once for
    /// all of them (instrument, precisions), or a precision exceeds the
    /// largest.
    EncodingError,
    /// A required metadata key is absent, or its value cannot be read.
    MissingMetadata,
    /// The columns are not the ones the record type declares, or differ in
    /// length.
    FormatError,
}

/// A quote: best bid and ask, with their sizes, for one instrument.
#[derive(Debug)]
pub struct QuoteTick {
    pub instrument_id: InstrumentId,
    pub bid: Price,
    pub ask: Price,
    pub bid_size: Quantity,
    pub ask_size: Quantity,
    pub ts_event: u64,
    pub ts_init: u64,
}

/// A quote as a mathematical value.
pub struct QuoteData {
    pub instrument_id: Seq<char>,
    pub bid: Price,
    pub ask: Price,
    pub bid_size: Quantity,
    pub ask_size: Quantity,
    pub ts_event: u64,
    pub ts_init: u64,
}

impl View for QuoteTick {
    type V = QuoteData;

    open spec fn view(&self) -> QuoteData {
        QuoteData {
            instrument_id: self.instrument_id@,
            bid: self.bid,
            ask: self.ask,
            bid_size: self.bid_size,
            ask_size: self.ask_size,
            ts_event: self.ts_event,
            ts_init: self.ts_init,
        }
    }
}

pub open spec fn quotes_view(v: Seq<QuoteTick>) -> Seq<QuoteData> {
    v.map_values(|q: QuoteTick| q@)
}

/// The quotes share one instrument, one price precision and one size
/// precision, each at most the largest precision. No quotes are consistent.
pub open spec fn consistent_quotes(s: Seq<QuoteData>) -> bool {
    s.len() >= 1 ==> {
        &&& s[0].bid.precision <= MAX_PRECISION
        &&& s[0].bid_size.precision <= MAX_PRECISION
        &&& forall|i: int|
            0 <= i < s.len() ==> {
                &&& (#[trigger] s[i]).instrument_id == s[0].instrument_id
                &&& s[i].bid.precision == s[0].bid.precision
                &&& s[i].ask.precision == s[0].bid.precision
                &&& s[i].bid_size.precision == s[0].bid_size.precision
                &&& s[i].ask_size.precision == s[0].bid_size.precision
            }
    }
}

/// The instrument that quote metadata records: that of the first quote,
/// empty when there are none.
pub open spec fn shared_instrument(s: Seq<QuoteData>) -> Seq<char> {
    if s.len() == 0 {
        Seq::empty()
    } else {
        s[0].instrument_id
    }
}

/// The price precision that quote metadata records; `0` when there are no
/// quotes.
pub open spec fn shared_price_precision(s: Seq<QuoteData>) -> u8 {
    if s.len() == 0 {
        0
    } else {
        s[0].bid.precision
    }
}

/// The size precision that quote metadata records; `0` when there are no
/// quotes.
pub open spec fn shared_size_precision(s: Seq<QuoteData>) -> u8 {
    if s.len() == 0 {
        0
    } else {
        s[0].bid_size.precision
    }
}

/// The metadata text of a precision.
pub open spec fn precision_text(p: nat) -> Seq<char> {
    ascii_chars(unsigned_text(p, 0))
}

pub open spec fn digit_char_value(c: char) -> int {
    c as int - '0' as int
}

pub open spec fn is_digit_char(c: char) -> bool {
    '0' <= c && c <= '9'
}

/// The precision that metadata text gives: one or two decimal digits
/// standing for at most the largest precision.
pub open spec fn precision_of(t: Seq<char>) -> Option<u8> {
    if t.len() == 1 && is_digit_char(t[0]) {
        Some(digit_char_value(t[0]) as u8)
    } else if t.len() == 2 && is_digit_char(t[0]) && is_digit_char(t[1]) && 10 * digit_char_value(
        t[0],
    ) + digit_char_value(t[1]) <= MAX_PRECISION {
        Some((10 * digit_char_value(t[0]) + digit_char_value(t[1])) as u8)
    } else {
        None
    }
}

/// The column types of a quote batch, in order.
pub open spec fn quote_field_types() -> Seq<DataType> {
    seq![
        DataType::Int64,
        DataType::Int64,
        DataType::UInt64,
        DataType::UInt64,
        DataType::UInt64,
        DataType::UInt64,
    ]
}

/// The field names of a quote batch, in order.
pub open spec fn quote_field_names() -> Seq<Seq<char>> {
    seq!["bid"@, "ask"@, "bid_size"@, "ask_size"@, "ts_event"@, "ts_init"@]
}

/// The field names of a batch of values, in order.
pub open spec fn value_field_names() -> Seq<Seq<char>> {
    seq!["a"@, "b"@, "d"@]
}

/// The metadata that a quote batch carries.
pub open spec fn quote_metadata(s: Seq<QuoteData>) -> Seq<(Seq<char>, Seq<char>)> {
    seq![
        ("instrument_id"@, shared_instrument(s)),
        ("price_precision"@, precision_text(shared_price_precision(s) as nat)),
        ("qty_precision"@, precision_text(shared_size_precision(s) as nat)),
    ]
}

/// The columns of a quote batch: raw bid, raw ask, raw bid size, raw ask
/// size, event time, initialisation time.
pub open spec fn quote_columns(s: Seq<QuoteData>) -> Seq<ColumnData> {
    seq![
        ColumnData::Int64(s.map_values(|q: QuoteData| q.bid.raw)),
        ColumnData::Int64(s.map_values(|q: QuoteData| q.ask.raw)),
        ColumnData::UInt64(s.map_values(|q: QuoteData| q.bid_size.raw)),
        ColumnData::UInt64(s.map_values(|q: QuoteData| q.ask_size.raw)),
        ColumnData::UInt64(s.map_values(|q: QuoteData| q.ts_event)),
        ColumnData::UInt64(s.map_values(|q: QuoteData| q.ts_init)),
    ]
}

/// The columns are those of a quote batch, all of one length.
pub open spec fn quote_columns_ok(c: Seq<ColumnData>) -> bool {
    &&& c.len() == 6
    &&& c[0] is Int64
    &&& c[1] is Int64
    &&& c[2] is UInt64
    &&& c[3] is UInt64
    &&& c[4] is UInt64
    &&& c[5] is UInt64
    &&& c[1].len() == c[0].len()
    &&& c[2].len() == c[0].len()
    &&& c[3].len() == c[0].len()
    &&& c[4].len() == c[0].len()
    &&& c[5].len() == c[0].len()
}

/// Quotes rebuilt row by row from quote columns and the metadata constants.
pub open spec fn quote_rows(id: Seq<char>, pp: u8, qp: u8, c: Seq<ColumnData>) -> Seq<QuoteData> {
    Seq::new(
        c[0].len(),
        |i: int|
            QuoteData {
                instrument_id: id,
                bid: Price { raw: c[0]->Int64_0[i], precision: pp },
                ask: Price { raw: c[1]->Int64_0[i], precision: pp },
                bid_size: Quantity { raw: c[2]->UInt64_0[i], precision: qp },
                ask_size: Quantity { raw: c[3]->UInt64_0[i], precision: qp },
                ts_event: c[4]->UInt64_0[i],
                ts_init: c[5]->UInt64_0[i],
            },
    )
}

/// Quotes decoded from metadata and columns: metadata is read first.
pub open spec fn decode_quotes(md: Seq<(Seq<char>, Seq<char>)>, c: Seq<ColumnData>) -> Result<
    Seq<QuoteData>,
    CodecError,
> {
    let id = lookup(md, "instrument_id"@);
    let pp = lookup(md, "price_precision"@);
    let qp = lookup(md, "qty_precision"@);
    if id is None || pp is None || qp is None {
        Err(CodecError::MissingMetadata)
    } else if precision_of(pp->0) is None || precision_of(qp->0) is None {
        Err(CodecError::MissingMetadata)
    } else if !quote_columns_ok(c) {
        Err(CodecError::FormatError)
    } else {
        Ok(quote_rows(id->0, precision_of(pp->0)->0, precision_of(qp->0)->0, c))
    }
}

/// Reads one or two decimal digits standing for at most the largest
/// precision.
fn read_precision(t: &String) -> (r: Option<u8>)
    ensures
        r == precision_of(t@),
{
    let s = t.as_str();
    let n = s.unicode_len();
    if n == 1 {
        let c = s.get_char(0);
        if '0' <= c && c <= '9' {
            return Some((c as u32 - '0' as u32) as u8);
        }
    } else if n == 2 {
        let c0 = s.get_char(0);
        let c1 = s.get_char(1);
        if '0' <= c0 && c0 <= '9' && '0' <= c1 && c1 <= '9' {
            let v = 10 * (c0 as u32 - '0' as u32) + (c1 as u32 - '0' as u32);
            if v <= MAX_PRECISION as u32 {
                return Some(v as u8);
            }
        }
    }
    None
}

/// Metadata text of a precision.
fn write_precision(p: u8) -> (r: String)
    requires
        p <= MAX_PRECISION,
    ensures
        r@ == precision_text(p as nat),
{
    Quantity::from_raw(p as u64, 0).to_text()
}

proof fn lemma_precision_text(p: nat)
    requires
        p <= MAX_PRECISION,
    ensures
        precision_of(precision_text(p)) == Some(p as u8),
{
    assert(pow10(0) == 1);
    assert(p / 1 == p);
    let t = unsigned_text(p, 0);
    assert(t == nat_digits(p));
    if p < 10 {
        assert(t == seq![digit_byte(p)]);
    } else {
        assert(nat_digits(p / 10) == seq![digit_byte(p / 10)]);
        assert(t == seq![digit_byte(p / 10), digit_byte(p % 10)]);
        assert(p == 10 * (p / 10) + p % 10);
    }
}

/// Quotes mapped to columns and metadata and back are the quotes that were
/// mapped, field for field, including raw integers and precisions.
pub proof fn lemma_quote_round_trip(s: Seq<QuoteData>)
    requires
        consistent_quotes(s),
    ensures
        decode_quotes(quote_metadata(s), quote_columns(s)) == Ok::<Seq<QuoteData>, CodecError>(s),
{
    reveal_strlit("instrument_id");
    reveal_strlit("price_precision");
    reveal_strlit("qty_precision");
    let id = shared_instrument(s);
    let pp = shared_price_precision(s);
    let qp = shared_size_precision(s);
    let md = quote_metadata(s);
    assert(md.drop_last().drop_last() =~= seq![md[0]]);
    assert(md.drop_last().drop_last().drop_last() =~= seq![]);
    assert("instrument_id"@[0] != "qty_precision"@[0]);
    assert("instrument_id"@[0] != "price_precision"@[0]);
    assert("price_precision"@[0] != "qty_precision"@[0]);
    assert(md.drop_last().last() == md[1]);
    assert(md.drop_last().drop_last().last() == md[0]);
    assert(lookup(md.drop_last().drop_last(), "instrument_id"@) == Some(id));
    assert(lookup(md.drop_last(), "price_precision"@) == Some(precision_text(pp as nat)));
    assert(lookup(md.drop_last(), "instrument_id"@) == Some(id));
    assert(lookup(md, "qty_precision"@) == Some(precision_text(qp as nat)));
    assert(lookup(md, "price_precision"@) == Some(precision_text(pp as nat)));
    assert(lookup(md, "instrument_id"@) == Some(id));
    lemma_precision_text(pp as nat);
    lemma_precision_text(qp as nat);
    let c = quote_columns(s);
    let rows = quote_rows(id, pp, qp, c);
    assert(rows =~= s) by {
        assert forall|i: int| 0 <= i < s.len() implies #[trigger] rows[i] == s[i] by {
            assert(s[i].instrument_id == s[0].instrument_id);
        }
    }
}

impl QuoteTick {
    /// Maps quotes to a batch of six columns (raw bid, raw ask, raw bid
    /// size, raw ask size, event time, initialisation time) and a schema
    /// whose metadata records the instrument and the two precisions once.
    pub fn to_batch(records: &Vec<QuoteTick>) -> (r: Result<(Schema, ColumnBatch), CodecError>)
        ensures
            match r {
                Ok((schema, batch)) => {
                    &&& consistent_quotes(quotes_view(records@))
                    &&& field_types(schema.fields@) == quote_field_types()
                    &&& field_names(schema.fields@) == quote_field_names()
                    &&& all_non_nullable(schema.fields@)
                    &&& metadata_view(schema.metadata@) == quote_metadata(quotes_view(records@))
                    &&& batch@ == quote_columns(quotes_view(records@))
                    &&& batch.wf()
                },
                Err(e) => e == CodecError::EncodingError && !consistent_quotes(
                    quotes_view(records@),
                ),
            },
    {
        let ghost s = quotes_view(records@);
        proof {
            reveal_strlit("");
        }
        let (id, pp, qp) = if records.len() == 0 {
            (InstrumentId::from(""), 0u8, 0u8)
        } else {
            let first = &records[0];
            assert(s[0] == first@);
            (first.instrument_id.clone(), first.bid.precision, first.bid_size.precision)
        };
        assert(id@ == shared_instrument(s));
        assert(pp == shared_price_precision(s) && qp == shared_size_precision(s));
        if pp > MAX_PRECISION || qp > MAX_PRECISION {
            return Err(CodecError::EncodingError);
        }
        let mut bid: Vec<i64> = Vec::new();
        let mut ask: Vec<i64> = Vec::new();
        let mut bid_size: Vec<u64> = Vec::new();
        let mut ask_size: Vec<u64> = Vec::new();
        let mut ts_event: Vec<u64> = Vec::new();
        let mut ts_init: Vec<u64> = Vec::new();
        let mut i: usize = 0;
        while i < records.len()
            invariant
                s == quotes_view(records@),
                id@ == shared_instrument(s),
                pp == shared_price_precision(s),
                qp == shared_size_precision(s),
                pp <= MAX_PRECISION,
                qp <= MAX_PRECISION,
                i <= s.len(),
                forall|j: int|
                    0 <= j < i ==> {
                        &&& (#[trigger] s[j]).instrument_id == id@
                        &&& s[j].bid.precision == pp
                        &&& s[j].ask.precision == pp
                        &&& s[j].bid_size.precision == qp
                        &&& s[j].ask_size.precision == qp
                    },
                bid@ == s.take(i as int).map_values(|q: QuoteData| q.bid.raw),
                ask@ == s.take(i as int).map_values(|q: QuoteData| q.ask.raw),
                bid_size@ == s.take(i as int).map_values(|q: QuoteData| q.bid_size.raw),
                ask_size@ == s.take(i as int).map_values(|q: QuoteData| q.ask_size.raw),
                ts_event@ == s.take(i as int).map_values(|q: QuoteData| q.ts_event),
                ts_init@ == s.take(i as int).map_values(|q: QuoteData| q.ts_init),
            decreases s.len() - i,
        {
            let q = &records[i];
            assert(s[i as int] == q@);
            if !(q.instrument_id == id) || q.bid.precision != pp
                || q.ask.precision != pp || q.bid_size.precision != qp || q.ask_size.precision
                != qp {
                return Err(CodecError::EncodingError);
            }
            bid.push(q.bid.raw);
            ask.push(q.ask.raw);
            bid_size.push(q.bid_size.raw);
            ask_size.push(q.ask_size.raw);
            ts_event.push(q.ts_event);
            ts_init.push(q.ts_init);
            i = i + 1;
            assert(bid@ =~= s.take(i as int).map_values(|q: QuoteData| q.bid.raw));
            assert(ask@ =~= s.take(i as int).map_values(|q: QuoteData| q.ask.raw));
            assert(bid_size@ =~= s.take(i as int).map_values(|q: QuoteData| q.bid_size.raw));
            assert(ask_size@ =~= s.take(i as int).map_values(|q: QuoteData| q.ask_size.raw));
            assert(ts_event@ =~= s.take(i as int).map_values(|q: QuoteData| q.ts_event));
            assert(ts_init@ =~= s.take(i as int).map_values(|q: QuoteData| q.ts_init));
        }
        assert(s.take(s.len() as int) =~= s);
        let mut fields: Vec<Field> = Vec::new();
        fields.push(Field::new("bid", DataType::Int64, false));
        fields.push(Field::new("ask", DataType::Int64, false));
        fields.push(Field::new("bid_size", DataType::UInt64, false));
        fields.push(Field::new("ask_size", DataType::UInt64, false));
        fields.push(Field::new("ts_event", DataType::UInt64, false));
        fields.push(Field::new("ts_init", DataType::UInt64, false));
        assert(field_types(fields@) =~= quote_field_types());
        assert(field_names(fields@) =~= quote_field_names());
        let mut schema = Schema::from_fields(fields);
        assert(metadata_view(schema.metadata@) =~= seq![]);
        schema.insert_metadata("instrument_id", id.to_string());
        schema.insert_metadata("price_precision", write_precision(pp));
        schema.insert_metadata("qty_precision", write_precision(qp));
        assert(metadata_view(schema.metadata@) =~= quote_metadata(s));
        let mut columns: Vec<Column> = Vec::new();
        columns.push(Column::Int64(bid));
        columns.push(Column::Int64(ask));
        columns.push(Column::UInt64(bid_size));
        columns.push(Column::UInt64(ask_size));
        columns.push(Column::UInt64(ts_event));
        columns.push(Column::UInt64(ts_init));
        let batch = ColumnBatch { columns };
        assert(batch@ =~= quote_columns(s));
        Ok((schema, batch))
    }

    /// Rebuilds quotes from a batch and the metadata of its schema.
    pub fn from_batch(schema: &Schema, batch: &ColumnBatch) -> (r: Result<
        Vec<QuoteTick>,
        CodecError,
    >)
        ensures
            match r {
                Ok(v) => decode_quotes(metadata_view(schema.metadata@), batch@) == Ok::<
                    Seq<QuoteData>,
                    CodecError,
                >(quotes_view(v@)),
                Err(e) => decode_quotes(metadata_view(schema.metadata@), batch@) == Err::<
                    Seq<QuoteData>,
                    CodecError,
                >(e),
            },
    {
        let ghost md = metadata_view(schema.metadata@);
        let ghost c = batch@;
        let id_text = match schema.metadata_value("instrument_id") {
            Some(t) => t,
            None => return Err(CodecError::MissingMetadata),
        };
        let pp_text = match schema.metadata_value("price_precision") {
            Some(t) => t,
            None => return Err(CodecError::MissingMetadata),
        };
        let qp_text = match schema.metadata_value("qty_precision") {
            Some(t) => t,
            None => return Err(CodecError::MissingMetadata),
        };
        let pp = match read_precision(&pp_text) {
            Some(p) => p,
            None => return Err(CodecError::MissingMetadata),
        };
        let qp = match read_precision(&qp_text) {
            Some(p) => p,
            None => return Err(CodecError::MissingMetadata),
        };
        if batch.columns.len() != 6 {
            return Err(CodecError::FormatError);
        }
        assert(forall|j: int| 0 <= j < 6 ==> c[j] == (#[trigger] batch.columns@[j])@);
        let bid = match &batch.columns[0] {
            Column::Int64(v) => v,
            _ => return Err(CodecError::FormatError),
        };
        let ask = match &batch.columns[1] {
            Column::Int64(v) => v,
            _ => return Err(CodecError::FormatError),
        };
        let bid_size = match &batch.columns[2] {
            Column::UInt64(v) => v,
            _ => return Err(CodecError::FormatError),
        };
        let ask_size = match &batch.columns[3] {
            Column::UInt64(v) => v,
            _ => return Err(CodecError::FormatError),
        };
        let ts_event = match &batch.columns[4] {
            Column::UInt64(v) => v,
            _ => return Err(CodecError::FormatError),
        };
        let ts_init = match &batch.columns[5] {
            Column::UInt64(v) => v,
            _ => return Err(CodecError::FormatError),
        };
        let n = bid.len();
        if ask.len() != n || bid_size.len() != n || ask_size.len() != n || ts_event.len() != n
            || ts_init.len() != n {
            return Err(CodecError::FormatError);
        }
        let instrument_id = InstrumentId::from(id_text.as_str());
        let ghost rows = quote_rows(id_text@, pp, qp, c);
        let mut out: Vec<QuoteTick> = Vec::new();
        let mut i: usize = 0;
        while i < n
            invariant
                i <= n,
                n == c[0].len(),
                quote_columns_ok(c),
                c[0] == ColumnData::Int64(bid@),
                c[1] == ColumnData::Int64(ask@),
                c[2] == ColumnData::UInt64(bid_size@),
                c[3] == ColumnData::UInt64(ask_size@),
                c[4] == ColumnData::UInt64(ts_event@),
                c[5] == ColumnData::UInt64(ts_init@),
                instrument_id@ == id_text@,
                rows == quote_rows(id_text@, pp, qp, c),
                quotes_view(out@) == rows.take(i as int),
            decreases n - i,
        {
            let q = QuoteTick {
                instrument_id: instrument_id.clone(),
                bid: Price { raw: bid[i], precision: pp },
                ask: Price { raw: ask[i], precision: pp },
                bid_size: Quantity { raw: bid_size[i], precision: qp },
                ask_size: Quantity { raw: ask_size[i], precision: qp },
                ts_event: ts_event[i],
                ts_init: ts_init[i],
            };
            let ghost prev = out@;
            out.push(q);
            assert(quotes_view(out@) =~= quotes_view(prev).push(q@));
            assert(quotes_view(out@) =~= rows.take(i + 1));
            i = i + 1;
        }
        assert(rows.take(n as int) =~= rows);
        Ok(out)
    }
}

/// The nested part of a [`Value`].
#[derive(Debug)]
pub struct InnerValue {
    pub c: String,
}

/// A record of an unsigned integer, a flag and a nested string.
#[derive(Debug)]
pub struct Value {
    pub a: u64,
    pub b: bool,
    pub d: InnerValue,
}

/// A [`Value`] as a mathematical value.
pub struct ValueData {
    pub a: u64,
    pub b: bool,
    pub c: Seq<char>,
}

impl View for Value {
    type V = ValueData;

    open spec fn view(&self) -> ValueData {
        ValueData { a: self.a, b: self.b, c: self.d.c@ }
    }
}

pub open spec fn values_view(v: Seq<Value>) -> Seq<ValueData> {
    v.map_values(|x: Value| x@)
}

/// The columns of a batch of values: `a`, `b`, then `d.c`.
pub open spec fn value_columns(s: Seq<ValueData>) -> Seq<ColumnData> {
    seq![
        ColumnData::UInt64(s.map_values(|x: ValueData| x.a)),
        ColumnData::Boolean(s.map_values(|x: ValueData| x.b)),
        ColumnData::Utf8(s.map_values(|x: ValueData| x.c)),
    ]
}

/// The column types of a batch of values, in order.
pub open spec fn value_field_types() -> Seq<DataType> {
    seq![DataType::UInt64, DataType::Boolean, DataType::Utf8]
}

/// Values decoded from columns.
pub open spec fn decode_values(c: Seq<ColumnData>) -> Result<Seq<ValueData>, CodecError> {
    if c.len() == 3 && c[0] is UInt64 && c[1] is Boolean && c[2] is Utf8 && c[1].len()
        == c[0].len() && c[2].len() == c[0].len() {
        Ok(
            Seq::new(
                c[0].len(),
                |i: int| ValueData { a: c[0]->UInt64_0[i], b: c[1]->Boolean_0[i], c: c[2]->Utf8_0[i] },
            ),
        )
    } else {
        Err(CodecError::FormatError)
    }
}

/// Values mapped to columns and back are the values that were mapped.
pub proof fn lemma_value_round_trip(s: Seq<ValueData>)
    ensures
        decode_values(value_columns(s)) == Ok::<Seq<ValueData>, CodecError>(s),
{
    let c = value_columns(s);
    let rows = Seq::new(
        c[0].len(),
        |i: int| ValueData { a: c[0]->UInt64_0[i], b: c[1]->Boolean_0[i], c: c[2]->Utf8_0[i] },
    );
    assert(rows =~= s);
}

impl Value {
    /// Maps values to a batch of three columns: `a`, `b` and `d.c`.
    pub fn to_batch(records: &Vec<Value>) -> (r: (Schema, ColumnBatch))
        ensures
            field_types(r.0.fields@) == value_field_types(),
            field_names(r.0.fields@) == value_field_names(),
            all_non_nullable(r.0.fields@),
            r.0.metadata@.len() == 0,
            r.1@ == value_columns(values_view(records@)),
            r.1.wf(),
    {
        let ghost s = values_view(records@);
        let mut a: Vec<u64> = Vec::new();
        let mut b: Vec<bool> = Vec::new();
        let mut d: Vec<String> = Vec::new();
        let mut i: usize = 0;
        while i < records.len()
            invariant
                s == values_view(records@),
                i <= s.len(),
                a@ == s.take(i as int).map_values(|x: ValueData| x.a),
                b@ == s.take(i as int).map_values(|x: ValueData| x.b),
                strings_view(d@) == s.take(i as int).map_values(|x: ValueData| x.c),
            decreases s.len() - i,
        {
            let x = &records[i];
            assert(s[i as int] == x@);
            a.push(x.a);
            b.push(x.b);
            let ghost prev = d@;
            let c = x.d.c.clone();
            d.push(c);
            assert(strings_view(d@) =~= strings_view(prev).push(x@.c));
            i = i + 1;
            assert(a@ =~= s.take(i as int).map_values(|x: ValueData| x.a));
            assert(b@ =~= s.take(i as int).map_values(|x: ValueData| x.b));
            assert(strings_view(d@) =~= s.take(i as int).map_values(|x: ValueData| x.c));
        }
        assert(s.take(s.len() as int) =~= s);
        let mut fields: Vec<Field> = Vec::new();
        fields.push(Field::new("a", DataType::UInt64, false));
        fields.push(Field::new("b", DataType::Boolean, false));
        fields.push(Field::new("d", DataType::Utf8, false));
        assert(field_types(fields@) =~= value_field_types());
        assert(field_names(fields@) =~= value_field_names());
        let schema = Schema::from_fields(fields);
        let mut columns: Vec<Column> = Vec::new();
        columns.push(Column::UInt64(a));
        columns.push(Column::Boolean(b));
        columns.push(Column::Utf8(d));
        let batch = ColumnBatch { columns };
        assert(batch@ =~= value_columns(s));
        (schema, batch)
    }

    /// Rebuilds values from a batch of the three columns `a`, `b`, `d.c`.
    pub fn from_batch(batch: &ColumnBatch) -> (r: Result<Vec<Value>, CodecError>)
        ensures
            match r {
                Ok(v) => decode_values(batch@) == Ok::<Seq<ValueData>, CodecError>(
                    values_view(v@),
                ),
                Err(e) => decode_values(batch@) == Err::<Seq<ValueData>, CodecError>(e),
            },
    {
        let ghost c = batch@;
        if batch.columns.len() != 3 {
            return Err(CodecError::FormatError);
        }
        assert(forall|j: int| 0 <= j < 3 ==> c[j] == (#[trigger] batch.columns@[j])@);
        let a = match &batch.columns[0] {
            Column::UInt64(v) => v,
            _ => return Err(CodecError::FormatError),
        };
        let b = match &batch.columns[1] {
            Column::Boolean(v) => v,
            _ => return Err(CodecError::FormatError),
        };
        let d = match &batch.columns[2] {
            Column::Utf8(v) => v,
            _ => return Err(CodecError::FormatError),
        };
        let n = a.len();
        if b.len() != n || d.len() != n {
            return Err(CodecError::FormatError);
        }
        let ghost rows = decode_values(c)->Ok_0;
        let mut out: Vec<Value> = Vec::new();
        let mut i: usize = 0;
        while i < n
            invariant
                i <= n,
                n == a@.len(),
                c.len() == 3,
                c[0] == ColumnData::UInt64(a@),
                c[1] == ColumnData::Boolean(b@),
                c[2] == ColumnData::Utf8(strings_view(d@)),
                b@.len() == n,
                d@.len() == n,
                decode_values(c) is Ok,
                rows == decode_values(c)->Ok_0,
                values_view(out@) == rows.take(i as int),
            decreases n - i,
        {
            let x = Value { a: a[i], b: b[i], d: InnerValue { c: d[i].clone() } };
            let ghost prev = out@;
            out.push(x);
            assert(values_view(out@) =~= values_view(prev).push(x@));
            assert(values_view(out@) =~= rows.take(i + 1));
            i = i + 1;
        }
        assert(rows.take(n as int) =~= rows);
        Ok(out)
    }
}

/// Rebuilds records of one type from a batch and the schema it came with.
/// Each record type states, over the schema's metadata and the batch's
/// columns, which records a successful decode gives and which error a
/// failed one gives.
pub trait DecodeFromChunk: Sized {
    /// `v` is what decoding metadata `md` and columns `c` gives.
    spec fn decodes_to(md: Seq<(Seq<char>, Seq<char>)>, c: Seq<ColumnData>, v: Seq<Self>) -> bool;

    /// `e` is the error that decoding metadata `md` and columns `c` gives.
    spec fn fails_with(md: Seq<(Seq<char>, Seq<char>)>, c: Seq<ColumnData>, e: CodecError) -> bool;

    fn decode(schema: &Schema, chunk: &ColumnBatch) -> (r: Result<Vec<Self>, CodecError>)
        ensures
            match r {
                Ok(v) => Self::decodes_to(metadata_view(schema.metadata@), chunk@, v@),
                Err(e) => Self::fails_with(metadata_view(schema.metadata@), chunk@, e),
            },
    ;
}

impl DecodeFromChunk for QuoteTick {
    open spec fn decodes_to(
        md: Seq<(Seq<char>, Seq<char>)>,
        c: Seq<ColumnData>,
        v: Seq<QuoteTick>,
    ) -> bool {
        decode_quotes(md, c) == Ok::<Seq<QuoteData>, CodecError>(quotes_view(v))
    }

    open spec fn fails_with(md: Seq<(Seq<char>, Seq<char>)>, c: Seq<ColumnData>, e: CodecError) -> bool {
        decode_quotes(md, c) == Err::<Seq<QuoteData>, CodecError>(e)
    }

    fn decode(schema: &Schema, chunk: &ColumnBatch) -> (r: Result<Vec<QuoteTick>, CodecError>) {
        QuoteTick::from_batch(schema, chunk)
    }
}

impl DecodeFromChunk for Value {
    open spec fn decodes_to(
        md: Seq<(Seq<char>, Seq<char>)>,
        c: Seq<ColumnData>,
        v: Seq<Value>,
    ) -> bool {
        decode_values(c) == Ok::<Seq<ValueData>, CodecError>(values_view(v))
    }

    open spec fn fails_with(md: Seq<(Seq<char>, Seq<char>)>, c: Seq<ColumnData>, e: CodecError) -> bool {
        decode_values(c) == Err::<Seq<ValueData>, CodecError>(e)
    }

    fn decode(schema: &Schema, chunk: &ColumnBatch) -> (r: Result<Vec<Value>, CodecError>) {
        Value::from_batch(chunk)
    }
}

} // verus!
