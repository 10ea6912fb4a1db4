//! Streaming ingestion of quotes from delimited text: bytes arrive in
//! buffers of any size, complete lines are parsed as soon as their newline
//! arrives, and a line cut by a buffer boundary waits for the rest.
use vstd::prelude::*;
use crate::fixed_point::{decimal_value, is_decimal, Price, Quantity, MAX_PRECISION};
use crate::identifiers::InstrumentId;
use crate::records::{QuoteData, QuoteTick, quotes_view};

verus! {

/// The ASCII byte that ends a line.
pub const NEWLINE: u8 = 10;

/// The ASCII byte that separates the fields of a line.
pub const COMMA: u8 = 44;

/// Nanoseconds since the Unix epoch of the UTC date and time that chrono
/// reads from `text` with the strftime `pattern`, if it reads one that fits
/// an `i64`.
pub uninterp spec fn datetime_nanos_of(text: Seq<u8>, pattern: Seq<char>) -> Option<i64>;

/// Relies on `chrono::NaiveDateTime::parse_from_str` to read a date and time
/// with a strftime pattern, and on `DateTime::timestamp_nanos_opt` for its
/// nanoseconds since the epoch in UTC; both depend on their arguments alone.
#[verifier::external_body]
fn parse_datetime_nanos(text: &[u8], pattern: &str) -> (r: Option<i64>)
    ensures
        r == datetime_nanos_of(text@, pattern@),
{
    let s = std::str::from_utf8(text).ok()?;
    let dt = chrono::NaiveDateTime::parse_from_str(s, pattern).ok()?;
    dt.and_utc().timestamp_nanos_opt()
}

/// The pieces of `t` that end with `sep`, without it, and what follows the
/// last `sep`.
pub open spec fn split_on(t: Seq<u8>, sep: u8) -> (Seq<Seq<u8>>, Seq<u8>)
    decreases t.len(),
{
    if t.len() == 0 {
        (seq![], seq![])
    } else {
        let (done, cur) = split_on(t.drop_last(), sep);
        if t.last() == sep {
            (done.push(cur), seq![])
        } else {
            (done, cur.push(t.last()))
        }
    }
}

/// The comma-separated fields of a line.
pub open spec fn fields_of(line: Seq<u8>) -> Seq<Seq<u8>> {
    split_on(line, COMMA).0.push(split_on(line, COMMA).1)
}

/// The text is a price at precision `p` that fits the raw integer type.
pub open spec fn price_ok(t: Seq<u8>, p: nat) -> bool {
    is_decimal(t, p) && i64::MIN <= decimal_value(t, p) <= i64::MAX
}

/// Nanoseconds since the epoch as a timestamp, when not before the epoch.
pub open spec fn timestamp_of(nanos: Option<i64>) -> Option<u64> {
    match nanos {
        Some(n) => if n >= 0 {
            Some(n as u64)
        } else {
            None
        },
        None => None,
    }
}

/// What ingestion fixes for every quote it reads.
#[derive(Debug)]
pub struct IngestConfig {
    /// The instrument of every quote.
    pub instrument_id: InstrumentId,
    /// The precision at which bid and ask are read.
    pub price_precision: u8,
    /// Bid and ask size of every quote; the text holds none.
    pub size: Quantity,
}

/// The configuration as mathematical values.
pub struct IngestSettings {
    pub instrument_id: Seq<char>,
    pub price_precision: u8,
    pub size: Quantity,
}

impl View for IngestConfig {
    type V = IngestSettings;

    open spec fn view(&self) -> IngestSettings {
        IngestSettings {
            instrument_id: self.instrument_id@,
            price_precision: self.price_precision,
            size: self.size,
        }
    }
}

/// A line that could not be read: its 1-based row and the 0-based column of
/// the first field that is malformed or missing.
#[derive(Clone, Copy, Debug, PartialEq, Eq, Structural)]
pub struct ParseError {
    pub row: usize,
    pub column: usize,
}

/// The quote that the fields `timestamp,bid,ask` of a line give (further
/// fields are ignored), where `nanos` is what the timestamp field reads as,
/// or the column of the first bad field.
pub open spec fn quote_from(nanos: Option<i64>, f: Seq<Seq<u8>>, cfg: IngestSettings) -> Result<
    QuoteData,
    usize,
> {
    let p = cfg.price_precision as nat;
    if timestamp_of(nanos) is None {
        Err(0)
    } else if f.len() < 2 || !price_ok(f[1], p) {
        Err(1)
    } else if f.len() < 3 || !price_ok(f[2], p) {
        Err(2)
    } else {
        let ts = timestamp_of(nanos)->0;
        Ok(
            QuoteData {
                instrument_id: cfg.instrument_id,
                bid: Price { raw: decimal_value(f[1], p) as i64, precision: cfg.price_precision },
                ask: Price { raw: decimal_value(f[2], p) as i64, precision: cfg.price_precision },
                bid_size: cfg.size,
                ask_size: cfg.size,
                ts_event: ts,
                ts_init: ts,
            },
        )
    }
}

/// The quote that a line of text gives, its timestamp read with the
/// pattern `%Y%m%d %H%M%S%f`, or the column of its first bad field.
pub open spec fn parse_line(line: Seq<u8>, cfg: IngestSettings) -> Result<QuoteData, usize> {
    let f = fields_of(line);
    quote_from(datetime_nanos_of(f[0], "%Y%m%d %H%M%S%f"@), f, cfg)
}

/// The quotes of the lines, in order, or the error of the first line that
/// cannot be read.
pub open spec fn parse_lines(lines: Seq<Seq<u8>>, cfg: IngestSettings) -> Result<
    Seq<QuoteData>,
    ParseError,
>
    decreases lines.len(),
{
    if lines.len() == 0 {
        Ok(seq![])
    } else {
        match parse_lines(lines.drop_last(), cfg) {
            Err(e) => Err(e),
            Ok(prev) => match parse_line(lines.last(), cfg) {
                Ok(q) => Ok(prev.push(q)),
                Err(c) => Err(ParseError { row: lines.len() as usize, column: c }),
            },
        }
    }
}

/// Every line of `t`: the complete ones, then the unterminated rest if it is
/// not empty.
pub open spec fn all_lines(t: Seq<u8>) -> Seq<Seq<u8>> {
    let (done, rest) = split_on(t, NEWLINE);
    if rest.len() == 0 {
        done
    } else {
        done.push(rest)
    }
}

pub open spec fn bytes_view(v: Seq<Vec<u8>>) -> Seq<Seq<u8>> {
    v.map_values(|x: Vec<u8>| x@)
}

/// Splits a line into its comma-separated fields.
pub fn split_fields(line: &Vec<u8>) -> (r: Vec<Vec<u8>>)
    ensures
        bytes_view(r@) == fields_of(line@),
{
    let mut done: Vec<Vec<u8>> = Vec::new();
    let mut cur: Vec<u8> = Vec::new();
    let mut i: usize = 0;
    while i < line.len()
        invariant
            i <= line@.len(),
            (bytes_view(done@), cur@) == split_on(line@.take(i as int), COMMA),
        decreases line@.len() - i,
    {
        let b = line[i];
        assert(line@.take(i + 1).drop_last() =~= line@.take(i as int));
        if b == COMMA {
            let ghost prev = done@;
            let piece = cur;
            done.push(piece);
            assert(bytes_view(done@) =~= bytes_view(prev).push(piece@));
            cur = Vec::new();
        } else {
            cur.push(b);
        }
        i = i + 1;
    }
    assert(line@.take(line@.len() as int) =~= line@);
    let ghost prev = done@;
    let last = cur;
    done.push(last);
    assert(bytes_view(done@) =~= bytes_view(prev).push(last@));
    done
}

/// Builds a quote from the fields of a line and what its timestamp field
/// reads as.
pub fn quote_from_fields(nanos: Option<i64>, f: &Vec<Vec<u8>>, cfg: &IngestConfig) -> (r: Result<
    QuoteTick,
    usize,
>)
    requires
        cfg.price_precision <= MAX_PRECISION,
    ensures
        match r {
            Ok(q) => quote_from(nanos, bytes_view(f@), cfg@) == Ok::<QuoteData, usize>(q@),
            Err(c) => quote_from(nanos, bytes_view(f@), cfg@) == Err::<QuoteData, usize>(c),
        },
{
    let ghost fv = bytes_view(f@);
    let ts: u64 = match nanos {
        Some(n) => if n >= 0 {
            n as u64
        } else {
            return Err(0);
        },
        None => return Err(0),
    };
    if f.len() < 2 {
        return Err(1);
    }
    assert(f@[1]@ == fv[1]);
    let bid = match Price::from_text(f[1].as_slice(), cfg.price_precision) {
        Ok(p) => p,
        Err(_) => return Err(1),
    };
    if f.len() < 3 {
        return Err(2);
    }
    assert(f@[2]@ == fv[2]);
    let ask = match Price::from_text(f[2].as_slice(), cfg.price_precision) {
        Ok(p) => p,
        Err(_) => return Err(2),
    };
    Ok(
        QuoteTick {
            instrument_id: cfg.instrument_id.clone(),
            bid,
            ask,
            bid_size: cfg.size,
            ask_size: cfg.size,
            ts_event: ts,
            ts_init: ts,
        },
    )
}

/// Reads one line as a quote.
fn read_line(line: &Vec<u8>, cfg: &IngestConfig) -> (r: Result<QuoteTick, usize>)
    requires
        cfg.price_precision <= MAX_PRECISION,
    ensures
        match r {
            Ok(q) => parse_line(line@, cfg@) == Ok::<QuoteData, usize>(q@),
            Err(c) => parse_line(line@, cfg@) == Err::<QuoteData, usize>(c),
        },
{
    let f = split_fields(line);
    assert(f@[0]@ == fields_of(line@)[0]);
    let nanos = parse_datetime_nanos(f[0].as_slice(), "%Y%m%d %H%M%S%f");
    quote_from_fields(nanos, &f, cfg)
}

/// Reads quotes from text fed to it in buffers of any size.
pub struct QuoteIngestor {
    config: IngestConfig,
    pending: Vec<u8>,
    records: Vec<QuoteTick>,
    fed: Ghost<Seq<u8>>,
}

impl QuoteIngestor {
    /// All bytes fed so far.
    pub closed spec fn text(&self) -> Seq<u8> {
        self.fed@
    }

    pub closed spec fn settings(&self) -> IngestSettings {
        self.config@
    }

    /// The unterminated rest of the text is held back, and every complete
    /// line has been read into a quote.
    pub closed spec fn wf(&self) -> bool {
        &&& self.config.price_precision <= MAX_PRECISION
        &&& self.pending@ == split_on(self.fed@, NEWLINE).1
        &&& self.records@.len() == split_on(self.fed@, NEWLINE).0.len()
        &&& parse_lines(split_on(self.fed@, NEWLINE).0, self.config@) == Ok::<
            Seq<QuoteData>,
            ParseError,
        >(quotes_view(self.records@))
    }

    /// An ingestor that has been fed nothing.
    pub fn new(config: IngestConfig) -> (r: QuoteIngestor)
        requires
            config.price_precision <= MAX_PRECISION,
            config.size.precision <= MAX_PRECISION,
        ensures
            r.wf(),
            r.text() == Seq::<u8>::empty(),
            r.settings() == config@,
    {
        let r = QuoteIngestor {
            config,
            pending: Vec::new(),
            records: Vec::new(),
            fed: Ghost(Seq::empty()),
        };
        assert(quotes_view(r.records@) =~= seq![]);
        r
    }

    /// Number of complete lines read so far.
    pub fn rows_read(&self) -> (r: usize)
        requires
            self.wf(),
        ensures
            r == split_on(self.text(), NEWLINE).0.len(),
    {
        self.records.len()
    }

    /// Feeds the next bytes of the text. Every line that they complete is
    /// read; the ingestor is given back unless one of those lines cannot be,
    /// which ends the run with the error of the first such line.
    pub fn feed(self, data: &[u8]) -> (r: Result<QuoteIngestor, ParseError>)
        requires
            self.wf(),
            split_on(self.text(), NEWLINE).0.len() + data@.len() < usize::MAX,
        ensures
            r is Ok ==> {
                &&& r->Ok_0.wf()
                &&& r->Ok_0.text() == self.text() + data@
                &&& r->Ok_0.settings() == self.settings()
            },
            r is Err ==> parse_lines(split_on(self.text() + data@, NEWLINE).0, self.settings())
                == Err::<Seq<QuoteData>, ParseError>(r->Err_0),
    {
        let ghost t0 = self.text();
        let ghost s0 = self.settings();
        let mut this = self;
        let ghost start = this.fed@;
        let ghost cfg = this.config@;
        assert(t0 == start && s0 == cfg);
        let mut i: usize = 0;
        assert(data@.take(0) =~= seq![]);
        assert(start + data@.take(0) =~= start);
        while i < data.len()
            invariant
                i <= data@.len(),
                this.config.price_precision <= MAX_PRECISION,
                cfg == this.config@,
                t0 == start,
                s0 == cfg,
                t0 == self.text(),
                s0 == self.settings(),
                split_on(start, NEWLINE).0.len() + data@.len() < usize::MAX,
                split_on(start + data@.take(i as int), NEWLINE).0.len() <= split_on(
                    start,
                    NEWLINE,
                ).0.len() + i,
                this.pending@ == split_on(start + data@.take(i as int), NEWLINE).1,
                this.records@.len() == split_on(start + data@.take(i as int), NEWLINE).0.len(),
                parse_lines(split_on(start + data@.take(i as int), NEWLINE).0, cfg) == Ok::<
                    Seq<QuoteData>,
                    ParseError,
                >(quotes_view(this.records@)),
            decreases data@.len() - i,
        {
            let b = data[i];
            let ghost t = start + data@.take(i as int);
            let ghost t2 = start + data@.take(i + 1);
            assert(t2.drop_last() =~= t);
            assert(t2.last() == b);
            let ghost lines = split_on(t, NEWLINE).0;
            if b == NEWLINE {
                assert(split_on(t2, NEWLINE).0 == lines.push(this.pending@));
                assert(split_on(t2, NEWLINE).0.drop_last() =~= lines);
                match read_line(&this.pending, &this.config) {
                    Ok(q) => {
                        let ghost prev = this.records@;
                        this.records.push(q);
                        assert(quotes_view(this.records@) =~= quotes_view(prev).push(q@));
                        this.pending = Vec::new();
                    },
                    Err(c) => {
                        let e = ParseError { row: this.records.len() + 1, column: c };
                        proof {
                            let l2 = split_on(t2, NEWLINE).0;
                            assert(l2.last() == this.pending@);
                            assert(parse_line(this.pending@, cfg) == Err::<QuoteData, usize>(c));
                            assert(parse_lines(l2, cfg) == Err::<Seq<QuoteData>, ParseError>(e));
                            let rest = data@.skip(i + 1);
                            assert(t2 + rest =~= start + data@);
                            lemma_split_grows(t2, rest, NEWLINE);
                            let full = split_on(start + data@, NEWLINE).0;
                            let m = split_on(t2, NEWLINE).0.len() as int;
                            assert(full.take(m) == l2);
                            lemma_parse_prefix_err(full, m, cfg);
                            assert(parse_lines(full, cfg) == Err::<Seq<QuoteData>, ParseError>(e));
                        }
                        assert(parse_lines(split_on(t0 + data@, NEWLINE).0, s0) == Err::<
                            Seq<QuoteData>,
                            ParseError,
                        >(e));
                        return Err(e);
                    },
                }
            } else {
                this.pending.push(b);
            }
            i = i + 1;
        }
        assert(data@.take(data@.len() as int) =~= data@);
        this.fed = Ghost(start + data@);
        Ok(this)
    }

    /// Ends the text: the unterminated rest, if not empty, is read as the
    /// last line, and all quotes are handed out in order.
    pub fn finish(self) -> (r: Result<Vec<QuoteTick>, ParseError>)
        requires
            self.wf(),
            split_on(self.text(), NEWLINE).0.len() < usize::MAX,
        ensures
            match r {
                Ok(v) => parse_lines(all_lines(self.text()), self.settings()) == Ok::<
                    Seq<QuoteData>,
                    ParseError,
                >(quotes_view(v@)),
                Err(e) => parse_lines(all_lines(self.text()), self.settings()) == Err::<
                    Seq<QuoteData>,
                    ParseError,
                >(e),
            },
    {
        let QuoteIngestor { config, pending, mut records, fed } = self;
        let ghost lines = split_on(fed@, NEWLINE).0;
        if pending.len() == 0 {
            return Ok(records);
        }
        assert(all_lines(fed@).drop_last() =~= lines);
        match read_line(&pending, &config) {
            Ok(q) => {
                let ghost prev = records@;
                records.push(q);
                assert(quotes_view(records@) =~= quotes_view(prev).push(q@));
                Ok(records)
            },
            Err(c) => Err(ParseError { row: records.len() + 1, column: c }),
        }
    }
}

proof fn lemma_split_grows(t: Seq<u8>, u: Seq<u8>, sep: u8)
    ensures
        split_on(t + u, sep).0.len() >= split_on(t, sep).0.len(),
        split_on(t + u, sep).0.take(split_on(t, sep).0.len() as int) == split_on(t, sep).0,
    decreases u.len(),
{
    let n = split_on(t, sep).0.len() as int;
    if u.len() == 0 {
        assert(t + u =~= t);
        assert(split_on(t, sep).0.take(n) =~= split_on(t, sep).0);
    } else {
        lemma_split_grows(t, u.drop_last(), sep);
        assert((t + u).drop_last() =~= t + u.drop_last());
        let d = split_on(t + u.drop_last(), sep).0;
        let c = split_on(t + u.drop_last(), sep).1;
        assert(d.push(c).take(n) =~= d.take(n));
    }
}

/// Lines after the first one that cannot be read leave its error as it is.
proof fn lemma_parse_prefix_err(lines: Seq<Seq<u8>>, m: int, cfg: IngestSettings)
    requires
        0 <= m <= lines.len(),
        parse_lines(lines.take(m), cfg) is Err,
    ensures
        parse_lines(lines, cfg) == parse_lines(lines.take(m), cfg),
    decreases lines.len(),
{
    if m == lines.len() {
        assert(lines.take(m) =~= lines);
    } else {
        assert(lines.drop_last().take(m) =~= lines.take(m));
        lemma_parse_prefix_err(lines.drop_last(), m, cfg);
    }
}

proof fn lemma_parse_good_prefix(lines: Seq<Seq<u8>>, j: int, cfg: IngestSettings)
    requires
        0 <= j <= lines.len(),
        forall|i: int| 0 <= i < j ==> parse_line(#[trigger] lines[i], cfg) is Ok,
    ensures
        parse_lines(lines.take(j), cfg) is Ok,
        parse_lines(lines.take(j), cfg)->Ok_0.len() == j,
    decreases j,
{
    if j > 0 {
        lemma_parse_good_prefix(lines, j - 1, cfg);
        assert(lines.take(j).drop_last() =~= lines.take(j - 1));
        assert(lines.take(j).last() == lines[j - 1]);
    }
}

/// A run over lines of which one cannot be read yields no quotes at all:
/// its result is the error of the first such line, with that line's row
/// (counted from one) and the column of its first bad field, whatever the
/// lines before and after it hold.
pub proof fn lemma_first_bad_line_ends_run(lines: Seq<Seq<u8>>, j: int, cfg: IngestSettings)
    requires
        0 <= j < lines.len(),
        forall|i: int| 0 <= i < j ==> parse_line(#[trigger] lines[i], cfg) is Ok,
        parse_line(lines[j], cfg) is Err,
    ensures
        parse_lines(lines, cfg) == Err::<Seq<QuoteData>, ParseError>(
            ParseError { row: (j + 1) as usize, column: parse_line(lines[j], cfg)->Err_0 },
        ),
{
    lemma_parse_good_prefix(lines, j, cfg);
    assert(lines.take(j + 1).drop_last() =~= lines.take(j));
    assert(lines.take(j + 1).last() == lines[j]);
    lemma_parse_prefix_err(lines, j + 1, cfg);
}

} // verus!
