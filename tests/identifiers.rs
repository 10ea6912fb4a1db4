use tick_columnar::identifiers::{
    client_id_eq, client_id_free, client_id_hash, client_order_id_eq, client_order_id_free,
    client_order_id_hash, venue_order_id_eq, venue_order_id_free, venue_order_id_hash, ClientId,
    ClientOrderId, InstrumentId, VenueOrderId,
};

#[test]
fn client_id_test_equality() {
    let id1 = ClientId::from("BINANCE");
    let id2 = ClientId::from("FTX");

    assert_eq!(id1, id1);
    assert_ne!(id1, id2);
}

#[test]
fn client_id_test_string_reprs() {
    let id = ClientId::from("BINANCE");

    assert_eq!(id.to_string(), "BINANCE");
    assert_eq!(format!("{}", id.to_string()), "BINANCE");
}

#[test]
fn test_client_id_free() {
    let id = ClientId::from("BINANCE");

    client_id_free(id); // No panic
}

#[test]
fn client_order_id_test_equality() {
    let id1 = ClientOrderId::from("O-20200814-102234-001-001-1");
    let id2 = ClientOrderId::from("O-20200814-102234-001-001-2");

    assert_eq!(id1, id1);
    assert_ne!(id1, id2);
}

#[test]
fn client_order_id_test_string_reprs() {
    let id = ClientOrderId::from("O-20200814-102234-001-001-1");

    assert_eq!(id.to_string(), "O-20200814-102234-001-001-1");
    assert_eq!(format!("{}", id.to_string()), "O-20200814-102234-001-001-1");
}

#[test]
fn test_client_order_id_free() {
    let id = ClientOrderId::from("O-20200814-102234-001-001-1");

    client_order_id_free(id); // No panic
}

#[test]
fn venue_order_id_test_equality() {
    let id1 = VenueOrderId::from("001");
    let id2 = VenueOrderId::from("002");

    assert_eq!(id1, id1);
    assert_ne!(id1, id2);
    assert_eq!(id1.to_string(), "001")
}

#[test]
fn venue_order_id_test_string_reprs() {
    let id = VenueOrderId::from("001");

    assert_eq!(id.to_string(), "001");
    assert_eq!(format!("{}", id.to_string()), "001");
}

#[test]
fn test_venue_order_id() {
    let id = VenueOrderId::from("001");

    venue_order_id_free(id); // No panic
}

#[test]
fn identifier_eq_gives_one_or_zero() {
    assert_eq!(client_id_eq(&ClientId::from("BINANCE"), &ClientId::from("BINANCE")), 1);
    assert_eq!(client_id_eq(&ClientId::from("BINANCE"), &ClientId::from("FTX")), 0);
    assert_eq!(client_order_id_eq(&ClientOrderId::from("O-1"), &ClientOrderId::from("O-1")), 1);
    assert_eq!(client_order_id_eq(&ClientOrderId::from("O-1"), &ClientOrderId::from("O-2")), 0);
    assert_eq!(venue_order_id_eq(&VenueOrderId::from("001"), &VenueOrderId::from("001")), 1);
    assert_eq!(venue_order_id_eq(&VenueOrderId::from("001"), &VenueOrderId::from("002")), 0);
}

#[test]
fn identifier_hash_follows_text() {
    let a = client_id_hash(&ClientId::from("BINANCE"));
    let b = client_id_hash(&ClientId::from("BINANCE"));
    let c = client_id_hash(&ClientId::from("FTX"));
    assert_eq!(a, b);
    assert_ne!(a, c);
    assert_eq!(
        client_order_id_hash(&ClientOrderId::from("O-1")),
        client_order_id_hash(&ClientOrderId::from("O-1"))
    );
    assert_ne!(
        venue_order_id_hash(&VenueOrderId::from("001")),
        venue_order_id_hash(&VenueOrderId::from("002"))
    );
}

#[test]
fn identifier_clone_keeps_text() {
    let id = InstrumentId::from("EUR/USD.SIM");
    let copy = id.clone();
    assert_eq!(copy, id);
    assert_eq!(copy.to_string(), "EUR/USD.SIM");
}
