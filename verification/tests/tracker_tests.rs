use hitbtc::decimal::Decimal;
use hitbtc::message::ClientEnvelope;
use hitbtc::message::ClientError;
use hitbtc::message::ClientMessage;
use hitbtc::message::GetSymbol;
use hitbtc::message::Order;
use hitbtc::message::Reply;
use hitbtc::message::SnapshotOrderbook;
use hitbtc::message::UpdateOrderbook;
use hitbtc::token::Token;
use hitbtc::tracker::BookError;
use hitbtc::tracker::Direction;
use hitbtc::tracker::Error;
use hitbtc::tracker::RenderDecision;
use hitbtc::tracker::Side;
use hitbtc::tracker::Tracker;
use hitbtc::tracker::cmpcolor;
use hitbtc::tracker::decide;

fn order(price: &str, size: &str) -> Order {
    Order { price: price.to_string(), size: size.to_string() }
}

fn orders(pairs: &[(&str, &str)]) -> Vec<Order> {
    pairs.iter().map(|(p, s)| order(p, s)).collect()
}

fn dec(mantissa: u64, exponent: i8) -> Decimal {
    Decimal { mantissa, exponent }
}

/// A tracker with precision (2, 2) and the baseline snapshot of the
/// scenario: bid (100.00, 1.5), ask (100.50, 2.0).
fn baseline_tracker(byvol: bool) -> Tracker {
    let mut t = Tracker::new(byvol);
    t.set_precision(-2, -2);
    let r = t
        .on_snapshot(&orders(&[("100.00", "1.5")]), &orders(&[("100.50", "2.0")]))
        .unwrap();
    assert!(r.is_some());
    t
}

#[test]
fn snapshot_baseline_line() {
    let mut t = Tracker::new(false);
    t.set_precision(-2, -2);
    let r = t
        .on_snapshot(&orders(&[("100.00", "1.5")]), &orders(&[("100.50", "2.0")]))
        .unwrap();
    let d = r.expect("a snapshot with both sides resting emits a baseline line");
    match d {
        RenderDecision::Snapshot { bid_price, bid_size, ask_price, ask_size } => {
            assert_eq!(bid_price, dec(10000, -2));
            assert_eq!(bid_size, dec(150, -2));
            assert_eq!(ask_price, dec(10050, -2));
            assert_eq!(ask_size, dec(200, -2));
            // the line carries the prices as written on the wire
            assert_eq!(bid_price.render(), "100.00");
            assert_eq!(ask_price.render(), "100.50");
        }
        other => panic!("expected the baseline decision, got {other:?}"),
    }
}

#[test]
fn zero_size_update_empties_bid_side_and_suppresses_output() {
    let mut t = baseline_tracker(false);
    let r = t.on_update(&orders(&[("100.00", "0")]), &vec![]).unwrap();
    assert_eq!(r, None, "an empty side suppresses the line");
    // repopulating the bid side is still suppressed: the side was empty before
    let r2 = t.on_update(&orders(&[("99.00", "1.0")]), &vec![]).unwrap();
    assert_eq!(r2, None);
    // with both sides resting before and after, a price change renders again
    let r3 = t.on_update(&orders(&[("99.50", "1.0")]), &vec![]).unwrap();
    assert!(r3.is_some());
}

#[test]
fn rising_best_bid_renders_up() {
    let mut t = baseline_tracker(false);
    let r = t.on_update(&orders(&[("100.25", "1.0")]), &vec![]).unwrap();
    match r.expect("a best-price change emits a line") {
        RenderDecision::Prices { bid_price, bid_dir, ask_price, ask_dir, .. } => {
            assert_eq!(bid_price, dec(10025, -2));
            assert_eq!(bid_price.render(), "100.25");
            assert_eq!(bid_dir, Direction::Up);
            assert_eq!(ask_price, dec(10050, -2));
            assert_eq!(ask_dir, Direction::Flat);
        }
        other => panic!("expected the price branch, got {other:?}"),
    }
}

#[test]
fn volume_mode_size_change_renders_volume_branch() {
    let mut t = baseline_tracker(true);
    let r = t.on_update(&orders(&[("100.00", "2.0")]), &vec![]).unwrap();
    match r.expect("a best-size change emits a line in volume mode") {
        RenderDecision::Volumes { bid_size, bid_size_dir, bid_price, ask_price, ask_size, ask_size_dir } => {
            assert_eq!(bid_size, dec(200, -2));
            assert_eq!(bid_size_dir, Direction::Up);
            assert_eq!(bid_price, dec(10000, -2));
            assert_eq!(ask_price, dec(10050, -2));
            assert_eq!(ask_size, dec(200, -2));
            assert_eq!(ask_size_dir, Direction::Flat);
        }
        other => panic!("expected the volume branch, got {other:?}"),
    }
}

#[test]
fn size_change_without_volume_mode_is_silent() {
    let mut t = baseline_tracker(false);
    let r = t.on_update(&orders(&[("100.00", "2.0")]), &vec![]).unwrap();
    assert_eq!(r, None);
}

#[test]
fn unchanged_top_of_book_is_silent() {
    let mut t = baseline_tracker(true);
    // a level behind the top changes nothing visible
    let r = t.on_update(&orders(&[("99.00", "5.0")]), &vec![]).unwrap();
    assert_eq!(r, None);
}

#[test]
fn ask_size_direction_compares_old_against_new() {
    // falling ask size renders as up, the exchange's mirror convention
    let before = Some((10050u64, 200u64));
    let after = Some((10050u64, 100u64));
    let bid = Some((10000u64, 150u64));
    let r = decide(bid, before, bid, after, true, -2, -2);
    match r.expect("a size change emits in volume mode") {
        RenderDecision::Volumes { ask_size_dir, .. } => {
            assert_eq!(ask_size_dir, Direction::Up);
        }
        other => panic!("expected the volume branch, got {other:?}"),
    }
}

#[test]
fn suppression_with_empty_ask_side_from_the_start() {
    let mut t = Tracker::new(false);
    t.set_precision(-2, -2);
    // a snapshot with an empty ask side: valid, but no baseline line
    let r = t.on_snapshot(&orders(&[("100.00", "1.5")]), &vec![]).unwrap();
    assert_eq!(r, None);
    // and no update can render while the ask side stays empty
    let r2 = t.on_update(&orders(&[("200.00", "9.9")]), &vec![]).unwrap();
    assert_eq!(r2, None);
}

#[test]
fn update_before_precision_fails() {
    let mut t = Tracker::new(false);
    let r = t.on_update(&orders(&[("1", "1")]), &vec![]);
    assert_eq!(r, Err(BookError::MissingPrecision));
    let r2 = t.on_snapshot(&orders(&[("1", "1")]), &vec![]);
    assert_eq!(r2, Err(BookError::MissingPrecision));
}

#[test]
fn update_before_snapshot_fails() {
    let mut t = Tracker::new(false);
    t.set_precision(-2, -2);
    let r = t.on_update(&orders(&[("1", "1")]), &vec![]);
    assert_eq!(r, Err(BookError::MissingSnapshot));
}

#[test]
fn malformed_entry_is_reported_with_side_and_index() {
    let mut t = baseline_tracker(false);
    let r = t.on_update(&orders(&[("100.00", "1.0"), ("oops", "1.0")]), &vec![]);
    assert_eq!(r, Err(BookError::MalformedDecimal { side: Side::Bid, index: 1 }));
    let r2 = t.on_update(&vec![], &orders(&[("100.125", "1.0")]));
    assert_eq!(r2, Err(BookError::MalformedDecimal { side: Side::Ask, index: 0 }));
    // the failed updates left the book untouched
    let r3 = t.on_update(&orders(&[("100.25", "1.0")]), &vec![]).unwrap();
    match r3.unwrap() {
        RenderDecision::Prices { bid_dir, .. } => assert_eq!(bid_dir, Direction::Up),
        other => panic!("expected the price branch, got {other:?}"),
    }
}

#[test]
fn cmpcolor_directions() {
    assert_eq!(cmpcolor(2, 1), Direction::Up);
    assert_eq!(cmpcolor(1, 2), Direction::Down);
    assert_eq!(cmpcolor(2, 2), Direction::Flat);
}

fn get_symbol(tick_size: &str, quantity_increment: &str) -> ClientEnvelope {
    ClientEnvelope::Reply {
        result: Reply::GetSymbol(GetSymbol {
            base_currency: Token::try_from("XMR").unwrap(),
            quote_currency: Token::try_from("BTC").unwrap(),
            quantity_increment: quantity_increment.to_string(),
            tick_size: tick_size.to_string(),
            take_liquidity_rate: "0.001".to_string(),
            provide_liquidity_rate: "0.0001".to_string(),
            fee_currency: Token::try_from("BTC").unwrap(),
        }),
        id: 1,
    }
}

#[test]
fn handle_get_symbol_reply_sets_precision() {
    let mut t = Tracker::new(false);
    let r = t.handle(get_symbol("0.01", "0.001"));
    assert_eq!(r, Ok(None));
    assert_eq!(t.precision, Some((-2, -3)));
}

#[test]
fn handle_bad_tick_size() {
    let mut t = Tracker::new(false);
    assert_eq!(t.handle(get_symbol("0.02", "0.001")), Err(Error::BadTickSize));
    assert_eq!(t.precision, None);
    assert_eq!(
        t.handle(get_symbol("0.01", "5")),
        Err(Error::BadQuantityIncrement)
    );
    assert_eq!(t.precision, None);
}

#[test]
fn handle_bool_reply_is_ignored() {
    let mut t = Tracker::new(false);
    let r = t.handle(ClientEnvelope::Reply { result: Reply::Bool(true), id: 2 });
    assert_eq!(r, Ok(None));
    assert_eq!(t.precision, None);
}

#[test]
fn handle_server_error_propagates() {
    let mut t = Tracker::new(false);
    let r = t.handle(ClientEnvelope::Error {
        error: ClientError { message: "subscription rejected".to_string(), code: 429 },
        id: Some(2),
    });
    assert_eq!(
        r,
        Err(Error::Server { message: "subscription rejected".to_string(), code: 429 })
    );
}

#[test]
fn handle_passes_data_messages_through() {
    let mut t = Tracker::new(false);
    let msg = ClientMessage::UpdateOrderbook(UpdateOrderbook {
        ask: vec![],
        bid: orders(&[("100.00", "0")]),
        symbol: Token::try_from("XMRBTC").unwrap(),
    });
    let r = t.handle(ClientEnvelope::Message(msg)).unwrap();
    assert!(r.is_some());
}

#[test]
fn update_book_dispatches_on_message_kind() {
    let mut t = Tracker::new(false);
    t.set_precision(-2, -2);
    let symbol = Token::try_from("XMRBTC").unwrap();
    let snap = ClientMessage::SnapshotOrderbook(SnapshotOrderbook {
        ask: orders(&[("100.50", "2.0")]),
        bid: orders(&[("100.00", "1.5")]),
        symbol,
    });
    let r = t.update_book(snap).unwrap();
    assert!(matches!(r, Some(RenderDecision::Snapshot { .. })));
    let up = ClientMessage::UpdateOrderbook(UpdateOrderbook {
        ask: vec![],
        bid: orders(&[("100.25", "1.0")]),
        symbol,
    });
    let r2 = t.update_book(up).unwrap();
    assert!(matches!(r2, Some(RenderDecision::Prices { .. })));
}

#[test]
fn snapshot_application_is_idempotent() {
    let mut t = Tracker::new(false);
    t.set_precision(-2, -2);
    let bids = orders(&[("100.00", "1.5"), ("99.50", "3.0")]);
    let asks = orders(&[("100.50", "2.0")]);
    let first = t.on_snapshot(&bids, &asks).unwrap();
    let bids_once = t.book.bids.entries();
    let asks_once = t.book.asks.entries();
    let second = t.on_snapshot(&bids, &asks).unwrap();
    assert_eq!(first, second);
    assert_eq!(t.book.bids.entries(), bids_once);
    assert_eq!(t.book.asks.entries(), asks_once);
}
