use tick_columnar::fixed_point::{Price, Quantity};
use tick_columnar::identifiers::InstrumentId;
use tick_columnar::ingest::{quote_from_fields, split_fields, IngestConfig, ParseError, QuoteIngestor};
use tick_columnar::records::QuoteTick;

fn config() -> IngestConfig {
    IngestConfig {
        instrument_id: InstrumentId::from("EUR/USD.SIM"),
        price_precision: 5,
        size: Quantity::from_raw(100_000, 0),
    }
}

fn ingest(text: &[u8], buffer: usize) -> Result<Vec<QuoteTick>, ParseError> {
    let mut ing = QuoteIngestor::new(config());
    for chunk in text.chunks(buffer) {
        ing = ing.feed(chunk)?;
    }
    ing.finish()
}

const TEXT: &[u8] = b"20200101 170014590,1.12183,1.12203\n20200101 170015000,1.12184,1.12204\n20200102 000000000,1.2,1.3\n";

#[test]
fn reads_quotes_from_text() {
    let quotes = ingest(TEXT, 1024).unwrap();
    assert_eq!(quotes.len(), 3);
    assert_eq!(quotes[0].ts_event, 1_577_898_014_000_000_590);
    assert_eq!(quotes[0].ts_init, quotes[0].ts_event);
    assert_eq!(quotes[0].bid, Price::from_raw(112183, 5));
    assert_eq!(quotes[0].ask, Price::from_raw(112203, 5));
    assert_eq!(quotes[0].bid_size, Quantity::from_raw(100_000, 0));
    assert_eq!(quotes[0].ask_size, Quantity::from_raw(100_000, 0));
    assert_eq!(quotes[0].instrument_id, InstrumentId::from("EUR/USD.SIM"));
    assert_eq!(quotes[2].ts_event, 1_577_923_200_000_000_000);
    assert_eq!(quotes[2].bid, Price::from_raw(120000, 5));
}

#[test]
fn buffer_size_does_not_change_the_quotes() {
    let whole = ingest(TEXT, TEXT.len()).unwrap();
    for buffer in [1, 2, 7, 39, 40] {
        let parts = ingest(TEXT, buffer).unwrap();
        assert_eq!(parts.len(), whole.len());
        for (a, b) in parts.iter().zip(whole.iter()) {
            assert_eq!(a.bid, b.bid);
            assert_eq!(a.ask, b.ask);
            assert_eq!(a.ts_event, b.ts_event);
        }
    }
}

#[test]
fn last_line_without_newline_is_read() {
    let quotes = ingest(b"20200101 170014590,1.1,1.2\n20200101 170014591,1.3,1.4", 5).unwrap();
    assert_eq!(quotes.len(), 2);
    assert_eq!(quotes[1].ask, Price::from_raw(140000, 5));
    assert_eq!(ingest(b"", 4).unwrap().len(), 0);
}

#[test]
fn bad_timestamp_in_row_three_fails_the_run() {
    let text = b"20200101 170014590,1.1,1.2\n20200101 170014591,1.3,1.4\n2020-01-01 17:00,1.5,1.6\n20200101 170014593,1.7,1.8\n";
    for buffer in [3, 16, 1000] {
        let mut ing = QuoteIngestor::new(config());
        let mut result = Ok(());
        for chunk in text.chunks(buffer) {
            match ing.feed(chunk) {
                Ok(next) => ing = next,
                Err(e) => {
                    result = Err(e);
                    break;
                }
            }
        }
        // The run ends with the error: no quote of rows one and two is handed out.
        assert_eq!(result, Err(ParseError { row: 3, column: 0 }));
    }
}

#[test]
fn bad_prices_name_their_column() {
    let bid = ingest(b"20200101 170014590,1.1,1.2\n20200101 170014590,abc,1.2\n", 8);
    assert_eq!(bid.unwrap_err(), ParseError { row: 2, column: 1 });
    let ask = ingest(b"20200101 170014590,1.1,1.234567\n", 8);
    assert_eq!(ask.unwrap_err(), ParseError { row: 1, column: 2 });
    let missing = ingest(b"20200101 170014590,1.1", 8);
    assert_eq!(missing.unwrap_err(), ParseError { row: 1, column: 2 });
    let before_epoch = ingest(b"19691231 235959000,1.1,1.2\n", 8);
    assert_eq!(before_epoch.unwrap_err(), ParseError { row: 1, column: 0 });
}

#[test]
fn rows_read_counts_complete_lines() {
    let ing = QuoteIngestor::new(config());
    let ing = ing.feed(b"20200101 170014590,1.1,1.2\n2020").unwrap();
    assert_eq!(ing.rows_read(), 1);
    let ing = ing.feed(b"0101 170014590,1.1,1.2\n").unwrap();
    assert_eq!(ing.rows_read(), 2);
    assert_eq!(ing.finish().unwrap().len(), 2);
}

#[test]
fn fields_split_at_commas() {
    let f = split_fields(&b"a,,bc,".to_vec());
    assert_eq!(f, vec![b"a".to_vec(), b"".to_vec(), b"bc".to_vec(), b"".to_vec()]);
    assert_eq!(split_fields(&Vec::new()), vec![Vec::<u8>::new()]);
}

#[test]
fn quote_built_from_fields_and_timestamp() {
    let f = split_fields(&b"ignored,1.5,1.25,extra".to_vec());
    let q = quote_from_fields(Some(42), &f, &config()).unwrap();
    assert_eq!(q.ts_event, 42);
    assert_eq!(q.ts_init, 42);
    assert_eq!(q.bid, Price::from_raw(150000, 5));
    assert_eq!(q.ask, Price::from_raw(125000, 5));
    assert_eq!(quote_from_fields(None, &f, &config()).unwrap_err(), 0);
    assert_eq!(quote_from_fields(Some(-1), &f, &config()).unwrap_err(), 0);
    let short = split_fields(&b"t,1.5".to_vec());
    assert_eq!(quote_from_fields(Some(1), &short, &config()).unwrap_err(), 2);
}
