//! String-backed identifiers: compared by value, hashed by value, and
//! rendered back as the text they were made from.
use vstd::prelude::*;

verus! {

/// The value of `std::hash::BuildHasher::hash_one` over a
/// `BuildHasherDefault<DefaultHasher>` for a string.
pub uninterp spec fn default_hash_of(s: Seq<char>) -> u64;

/// Relies on `std::hash::BuildHasher::hash_one` with a `DefaultHasher`
/// made by `Default`: every such hasher starts from the same state, so the
/// hash depends on the text alone.
#[verifier::external_body]
fn hash_str(s: &str) -> (r: u64)
    ensures
        r == default_hash_of(s@),
{
    std::hash::BuildHasher::hash_one(
        &std::hash::BuildHasherDefault::<std::collections::hash_map::DefaultHasher>::default(),
        s,
    )
}

/// Identifier of a client (a venue account or a data client).
#[derive(Debug, Hash)]
pub struct ClientId {
    value: String,
}

impl View for ClientId {
    type V = Seq<char>;

    closed spec fn view(&self) -> Seq<char> {
        self.value@
    }
}

impl ClientId {
    /// Makes an identifier holding the given text.
    pub fn from(s: &str) -> (r: ClientId)
        ensures
            r@ == s@,
    {
        ClientId { value: s.to_string() }
    }

    /// The text of the identifier.
    pub fn to_string(&self) -> (r: String)
        ensures
            r@ == self@,
    {
        self.value.clone()
    }
}

impl PartialEq for ClientId {
    fn eq(&self, other: &ClientId) -> (r: bool) {
        self.value == other.value
    }
}

impl vstd::std_specs::cmp::PartialEqSpecImpl for ClientId {
    open spec fn obeys_eq_spec() -> bool {
        true
    }

    open spec fn eq_spec(&self, other: &ClientId) -> bool {
        self@ == other@
    }
}

impl Eq for ClientId {}

impl Clone for ClientId {
    fn clone(&self) -> (r: ClientId)
        ensures
            r@ == self@,
    {
        ClientId { value: self.value.clone() }
    }
}

/// Releases an identifier.
pub fn client_id_free(client_id: ClientId) {
}

/// `1` when both identifiers hold the same text, else `0`.
pub fn client_id_eq(lhs: &ClientId, rhs: &ClientId) -> (r: u8)
    ensures
        r == (if lhs@ == rhs@ { 1u8 } else { 0u8 }),
{
    if lhs.value == rhs.value { 1 } else { 0 }
}

/// Hash of the identifier's text: identifiers with equal text hash equally.
pub fn client_id_hash(client_id: &ClientId) -> (r: u64)
    ensures
        r == default_hash_of(client_id@),
{
    hash_str(client_id.value.as_str())
}

/// Identifier that a client gives to one of its orders.
#[derive(Debug, Hash)]
pub struct ClientOrderId {
    value: String,
}

impl View for ClientOrderId {
    type V = Seq<char>;

    closed spec fn view(&self) -> Seq<char> {
        self.value@
    }
}

impl ClientOrderId {
    /// Makes an identifier holding the given text.
    pub fn from(s: &str) -> (r: ClientOrderId)
        ensures
            r@ == s@,
    {
        ClientOrderId { value: s.to_string() }
    }

    /// The text of the identifier.
    pub fn to_string(&self) -> (r: String)
        ensures
            r@ == self@,
    {
        self.value.clone()
    }
}

impl PartialEq for ClientOrderId {
    fn eq(&self, other: &ClientOrderId) -> (r: bool) {
        self.value == other.value
    }
}

impl vstd::std_specs::cmp::PartialEqSpecImpl for ClientOrderId {
    open spec fn obeys_eq_spec() -> bool {
        true
    }

    open spec fn eq_spec(&self, other: &ClientOrderId) -> bool {
        self@ == other@
    }
}

impl Eq for ClientOrderId {}

impl Clone for ClientOrderId {
    fn clone(&self) -> (r: ClientOrderId)
        ensures
            r@ == self@,
    {
        ClientOrderId { value: self.value.clone() }
    }
}

/// Releases an identifier.
pub fn client_order_id_free(client_order_id: ClientOrderId) {
}

/// `1` when both identifiers hold the same text, else `0`.
pub fn client_order_id_eq(lhs: &ClientOrderId, rhs: &ClientOrderId) -> (r: u8)
    ensures
        r == (if lhs@ == rhs@ { 1u8 } else { 0u8 }),
{
    if lhs.value == rhs.value { 1 } else { 0 }
}

/// Hash of the identifier's text: identifiers with equal text hash equally.
pub fn client_order_id_hash(client_order_id: &ClientOrderId) -> (r: u64)
    ensures
        r == default_hash_of(client_order_id@),
{
    hash_str(client_order_id.value.as_str())
}

/// Identifier that a trading venue gives to an order.
#[derive(Debug, Hash)]
pub struct VenueOrderId {
    value: String,
}

impl View for VenueOrderId {
    type V = Seq<char>;

    closed spec fn view(&self) -> Seq<char> {
        self.value@
    }
}

impl VenueOrderId {
    /// Makes an identifier holding the given text.
    pub fn from(s: &str) -> (r: VenueOrderId)
        ensures
            r@ == s@,
    {
        VenueOrderId { value: s.to_string() }
    }

    /// The text of the identifier.
    pub fn to_string(&self) -> (r: String)
        ensures
            r@ == self@,
    {
        self.value.clone()
    }
}

impl PartialEq for VenueOrderId {
    fn eq(&self, other: &VenueOrderId) -> (r: bool) {
        self.value == other.value
    }
}

impl vstd::std_specs::cmp::PartialEqSpecImpl for VenueOrderId {
    open spec fn obeys_eq_spec() -> bool {
        true
    }

    open spec fn eq_spec(&self, other: &VenueOrderId) -> bool {
        self@ == other@
    }
}

impl Eq for VenueOrderId {}

impl Clone for VenueOrderId {
    fn clone(&self) -> (r: VenueOrderId)
        ensures
            r@ == self@,
    {
        VenueOrderId { value: self.value.clone() }
    }
}

/// Releases an identifier.
pub fn venue_order_id_free(venue_order_id: VenueOrderId) {
}

/// `1` when both identifiers hold the same text, else `0`.
pub fn venue_order_id_eq(lhs: &VenueOrderId, rhs: &VenueOrderId) -> (r: u8)
    ensures
        r == (if lhs@ == rhs@ { 1u8 } else { 0u8 }),
{
    if lhs.value == rhs.value { 1 } else { 0 }
}

/// Hash of the identifier's text: identifiers with equal text hash equally.
pub fn venue_order_id_hash(venue_order_id: &VenueOrderId) -> (r: u64)
    ensures
        r == default_hash_of(venue_order_id@),
{
    hash_str(venue_order_id.value.as_str())
}

/// Identifier of a traded instrument, such as `EUR/USD.SIM`.
#[derive(Debug, Hash)]
pub struct InstrumentId {
    value: String,
}

impl View for InstrumentId {
    type V = Seq<char>;

    closed spec fn view(&self) -> Seq<char> {
        self.value@
    }
}

impl InstrumentId {
    /// Makes an identifier holding the given text.
    pub fn from(s: &str) -> (r: InstrumentId)
        ensures
            r@ == s@,
    {
        InstrumentId { value: s.to_string() }
    }

    /// The text of the identifier.
    pub fn to_string(&self) -> (r: String)
        ensures
            r@ == self@,
    {
        self.value.clone()
    }
}

impl PartialEq for InstrumentId {
    fn eq(&self, other: &InstrumentId) -> (r: bool) {
        self.value == other.value
    }
}

impl vstd::std_specs::cmp::PartialEqSpecImpl for InstrumentId {
    open spec fn obeys_eq_spec() -> bool {
        true
    }

    open spec fn eq_spec(&self, other: &InstrumentId) -> bool {
        self@ == other@
    }
}

impl Eq for InstrumentId {}

impl Clone for InstrumentId {
    fn clone(&self) -> (r: InstrumentId)
        ensures
            r@ == self@,
    {
        InstrumentId { value: self.value.clone() }
    }
}

} // verus!
