//! Wiring of the Ethereum client: which node it talks to, and which headers it sends.
use vstd::prelude::*;
use vstd::utf8::encode_utf8;

use http::header::InvalidHeaderValue;
use http::{HeaderMap, HeaderName, HeaderValue};

use crate::types::L1ChainId;

verus! {

/// `http::HeaderMap`. Of its contents only what [`header_contents`] names is spoken of.
#[verifier::external_type_specification]
#[verifier::external_body]
#[verifier::reject_recursive_types(T)]
pub struct ExHeaderMap<T>(http::HeaderMap<T>);

/// `http::HeaderValue`. Nothing inside a value is visible.
#[verifier::external_type_specification]
#[verifier::external_body]
pub struct ExHeaderValue(http::HeaderValue);

/// `http::header::InvalidHeaderValue`, the error of `http::HeaderValue::from_str`. Nothing inside it is
/// visible.
#[verifier::external_type_specification]
#[verifier::external_body]
pub struct ExInvalidHeaderValue(http::header::InvalidHeaderValue);

/// The headers of a map: for each name its values, in the order in which they were added.
pub uninterp spec fn header_contents(map: HeaderMap<HeaderValue>) -> Map<Seq<char>, Seq<Seq<u8>>>;

/// Name of one header that carries an API key.
pub const GOOGLE_API_KEY_HEADER: &'static str = "x-goog-api-key";

/// Name of the other header that carries an API key.
pub const API_KEY_HEADER: &'static str = "x-api-key";

/// The character may stand in the name of a header: a small letter, a digit or a hyphen. (Names with
/// other symbols exist, but are of no use here.)
pub open spec fn is_name_char(c: char) -> bool {
    'a' <= c <= 'z' || '0' <= c <= '9' || c == '-'
}

/// The text may be the name of a header: it is made of such characters, is not empty, and is no longer
/// than a name may be.
pub open spec fn is_header_name(text: Seq<char>) -> bool {
    &&& 0 < text.len() < 0x1_0000
    &&& forall|i: int| 0 <= i < text.len() ==> is_name_char(#[trigger] text[i])
}

/// The byte may stand in the value of a header: no control character but a tab.
pub open spec fn is_value_byte(byte: u8) -> bool {
    byte >= 32 && byte != 127 || byte == 9
}

/// The text may be the value of a header.
pub open spec fn is_header_value(text: Seq<char>) -> bool {
    forall|i: int| 0 <= i < encode_utf8(text).len() ==> is_value_byte(#[trigger] encode_utf8(text)[i])
}

/// An empty map, made by `http::HeaderMap::new`.
#[verifier::external_body]
fn no_headers() -> (headers: HeaderMap<HeaderValue>)
    ensures
        header_contents(headers) =~= Map::empty(),
{
    HeaderMap::new()
}

/// Puts a header into the map with `http::HeaderMap::insert`, its name and its value given as texts.
///
/// The value, made of its text by `http::HeaderValue::from_str`, has the bytes of the text. If one of these
/// may not stand in a value, and only then, `from_str` fails, and the map stays as it was. Otherwise the
/// value takes the place of all values that the name had.
///
/// `http::HeaderName::from_static`, which makes the name, panics where the text is no valid name. `insert`
/// panics where its hash table would have to grow beyond 2^15 slots. A table of that size grows only once
/// it is three quarters full, or, after many collisions, one fifth full: with fewer names than that it
/// never has to.
#[verifier::external_body]
fn insert_header(map: &mut HeaderMap<HeaderValue>, name: &'static str, value: &str) -> (inserted: Result<
    (),
    InvalidHeaderValue,
>)
    requires
        is_header_name(name@),
        header_contents(*old(map)).dom().finite(),
        header_contents(*old(map)).dom().len() < 6_553,
    ensures
        inserted is Ok <==> is_header_value(value@),
        inserted is Ok ==> header_contents(*final(map)) == header_contents(*old(map)).insert(
            name@,
            seq![encode_utf8(value@)],
        ),
        inserted is Err ==> header_contents(*final(map)) == header_contents(*old(map)),
{
    let value = HeaderValue::from_str(value)?;
    map.insert(HeaderName::from_static(name), value);
    Ok(())
}

/// Why the client cannot be wired.
#[derive(Clone, Copy, Debug, PartialEq, Eq, Structural)]
pub enum WiringError {
    /// The API key cannot be sent in a header.
    InvalidApiKey,
}

/// How the client is to be made.
pub struct ClientConfig {
    /// Node that the client talks to.
    pub l1_rpc_url: String,
    /// Network that the node belongs to.
    pub l1_chain_id: L1ChainId,
    /// Headers that the client sends with every request, if any.
    pub headers: Option<HeaderMap<HeaderValue>>,
}

/// Wiring layer for Ethereum client.
pub struct QueryEthClientLayer {
    pub l1_chain_id: L1ChainId,
    pub l1_rpc_url: String,
    pub google_api_key: Option<String>,
}

/// The headers that carry an API key: it is sent under both names in use, to satisfy different gateways.
pub open spec fn api_key_headers(key: Seq<char>) -> Map<Seq<char>, Seq<Seq<u8>>> {
    map![
        GOOGLE_API_KEY_HEADER@ => seq![encode_utf8(key)],
        API_KEY_HEADER@ => seq![encode_utf8(key)],
    ]
}

proof fn lemma_header_names()
    ensures
        is_header_name(GOOGLE_API_KEY_HEADER@),
        is_header_name(API_KEY_HEADER@),
        GOOGLE_API_KEY_HEADER@ != API_KEY_HEADER@,
{
    reveal_strlit("x-goog-api-key");
    reveal_strlit("x-api-key");
}

/// The headers that carry an API key.
fn headers_for_key(key: &str) -> (headers: Result<HeaderMap<HeaderValue>, WiringError>)
    ensures
        match headers {
            Ok(headers) => is_header_value(key@) && header_contents(headers) == api_key_headers(key@),
            Err(error) => !is_header_value(key@) && error == WiringError::InvalidApiKey,
        },
{
    proof {
        lemma_header_names();
    }
    let mut headers = no_headers();
    if insert_header(&mut headers, GOOGLE_API_KEY_HEADER, key).is_err() {
        return Err(WiringError::InvalidApiKey);
    }
    if insert_header(&mut headers, API_KEY_HEADER, key).is_err() {
        return Err(WiringError::InvalidApiKey);
    }
    assert(header_contents(headers) =~= api_key_headers(key@));
    Ok(headers)
}

impl QueryEthClientLayer {
    pub fn new(l1_chain_id: L1ChainId, l1_rpc_url: String, google_api_key: Option<String>) -> (layer: Self)
        ensures
            layer == (QueryEthClientLayer { l1_chain_id, l1_rpc_url, google_api_key }),
    {
        QueryEthClientLayer { l1_chain_id, l1_rpc_url, google_api_key }
    }

    /// The same layer with an API key.
    pub fn with_google_api_key<K: Into<String>>(self, key: K) -> (layer: Self)
        ensures
            layer.l1_chain_id == self.l1_chain_id,
            layer.l1_rpc_url == self.l1_rpc_url,
            layer.google_api_key is Some,
            call_ensures(K::into, (key,), layer.google_api_key->0),
    {
        QueryEthClientLayer {
            l1_chain_id: self.l1_chain_id,
            l1_rpc_url: self.l1_rpc_url,
            google_api_key: Some(key.into()),
        }
    }

    /// Name of the layer.
    pub fn layer_name(&self) -> (name: &'static str)
        ensures
            name@ == "query_eth_client_layer"@,
    {
        "query_eth_client_layer"
    }

    /// How the client is to be made: with the headers that carry the API key where there is one, which
    /// fails if it cannot be sent in a header, and else without headers.
    pub fn wire(self) -> (config: Result<ClientConfig, WiringError>)
        ensures
            match config {
                Ok(config) => {
                    &&& config.l1_rpc_url == self.l1_rpc_url
                    &&& config.l1_chain_id == self.l1_chain_id
                    &&& match (self.google_api_key, config.headers) {
                        (Some(key), Some(headers)) => is_header_value(key@) && header_contents(headers)
                            == api_key_headers(key@),
                        (None, None) => true,
                        _ => false,
                    }
                },
                Err(error) => {
                    &&& error == WiringError::InvalidApiKey
                    &&& self.google_api_key is Some
                    &&& !is_header_value(self.google_api_key->0@)
                },
            },
    {
        let headers = match &self.google_api_key {
            Some(key) => match headers_for_key(key.as_str()) {
                Ok(headers) => Some(headers),
                Err(error) => {
                    return Err(error);
                },
            },
            None => None,
        };
        Ok(ClientConfig { l1_rpc_url: self.l1_rpc_url, l1_chain_id: self.l1_chain_id, headers })
    }
}

/// An API key is sent under both names with the same value, and nothing else is sent.
pub proof fn law_key_is_sent_under_both_names(key: Seq<char>)
    ensures
        api_key_headers(key).dom() == set![GOOGLE_API_KEY_HEADER@, API_KEY_HEADER@],
        api_key_headers(key)[GOOGLE_API_KEY_HEADER@] == seq![encode_utf8(key)],
        api_key_headers(key)[API_KEY_HEADER@] == seq![encode_utf8(key)],
        GOOGLE_API_KEY_HEADER@ != API_KEY_HEADER@,
{
    lemma_header_names();
    assert(api_key_headers(key).dom() =~= set![GOOGLE_API_KEY_HEADER@, API_KEY_HEADER@]);
}

/// A key of printable ASCII characters can always be sent.
pub proof fn law_printable_keys_can_be_sent(key: Seq<char>)
    requires
        forall|i: int| 0 <= i < key.len() ==> ' ' <= #[trigger] key[i] <= '~',
    ensures
        is_header_value(key),
{
    assert(vstd::utf8::is_ascii_chars(key));
    vstd::utf8::is_ascii_chars_encode_utf8(key);
}

/// The two names under which an API key is sent.
pub proof fn law_header_names(key: Seq<char>)
    ensures
        api_key_headers(key).dom() == set!["x-goog-api-key"@, "x-api-key"@],
        api_key_headers(key)["x-goog-api-key"@] == seq![encode_utf8(key)],
        api_key_headers(key)["x-api-key"@] == seq![encode_utf8(key)],
{
    law_key_is_sent_under_both_names(key);
}

/// A key of ASCII characters can be sent if and only if it holds no control character but tabs.
pub proof fn law_control_characters_cannot_be_sent(key: Seq<char>)
    requires
        vstd::utf8::is_ascii_chars(key),
    ensures
        is_header_value(key) <==> forall|i: int|
            0 <= i < key.len() ==> (' ' <= #[trigger] key[i] <= '~') || key[i] == '\t',
{
    vstd::utf8::is_ascii_chars_encode_utf8(key);
    if is_header_value(key) {
        assert forall|i: int| 0 <= i < key.len() implies (' ' <= #[trigger] key[i] <= '~') || key[i]
            == '\t' by {
            assert(is_value_byte(encode_utf8(key)[i]));
        }
    }
}

} // verus!
