//! How a miner reaches a server: the addresses to ask, and the websocket handshake.

use crate::miner::{base64_text, basic_authorization, Miner};
use crate::text::{decimal, lemma_decimal_round_trip, parse_u64, parsed_u64, push_decimal};
use vstd::prelude::*;
use vstd::utf8::encode_utf8;

verus! {

/// How long to wait before a server is tried again, in seconds.
pub const RETRY_SECS: u64 = 3;

/// What came of asking a server for its time.
#[derive(Debug)]
pub enum TimestampReply {
    /// No answer.
    Unreachable,
    /// An answer whose body could not be read.
    NoBody,
    /// The body of the answer.
    Body(String),
}

/// Why a server is to be tried again.
#[derive(Clone, Copy, Debug, PartialEq, Eq, Structural)]
pub enum Retry {
    Restarting,
    EmptyBody,
    BadTimestamp,
}

/// Why no handshake can be made with a server.
#[derive(Clone, Copy, Debug, PartialEq, Eq, Structural)]
pub enum UrlError {
    /// The address of the server is no URL.
    Unparsable,
    /// The address of the server names no host.
    NoHost,
}

/// The time that a server gave, or why to try again.
pub open spec fn timestamp_of(reply: TimestampReply) -> Result<u64, Retry> {
    match reply {
        TimestampReply::Unreachable => Err(Retry::Restarting),
        TimestampReply::NoBody => Err(Retry::EmptyBody),
        TimestampReply::Body(body) => match parsed_u64(body@) {
            Some(timestamp) => Ok(timestamp),
            None => Err(Retry::BadTimestamp),
        },
    }
}

/// Where a server is asked for its time.
pub open spec fn timestamp_address(server: Seq<char>) -> Seq<char> {
    "http://"@ + server + "/timestamp"@
}

/// The websocket address of a server. It ends in a slash.
pub open spec fn websocket_base(server: Seq<char>) -> Seq<char> {
    let base = "ws://"@ + server;
    if base.last() == '/' {
        base
    } else {
        base.push('/')
    }
}

/// The websocket address of a server, with the time that it gave.
pub open spec fn websocket_address(server: Seq<char>, timestamp: u64) -> Seq<char> {
    websocket_base(server) + "?timestamp="@ + decimal(timestamp as nat)
}

/// Reads what came of asking a server for its time.
pub fn read_timestamp(reply: &TimestampReply) -> (timestamp: Result<u64, Retry>)
    ensures
        timestamp == timestamp_of(*reply),
{
    match reply {
        TimestampReply::Unreachable => Err(Retry::Restarting),
        TimestampReply::NoBody => Err(Retry::EmptyBody),
        TimestampReply::Body(body) => match parse_u64(body.as_str()) {
            Some(timestamp) => Ok(timestamp),
            None => Err(Retry::BadTimestamp),
        },
    }
}

impl Retry {
    /// What to tell the user.
    pub open spec fn text(self) -> Seq<char> {
        match self {
            Retry::Restarting => "Server restarting, trying again in 3 seconds..."@,
            Retry::EmptyBody => "Server response body for /timestamp is empty, contact admin."@,
            Retry::BadTimestamp =>
                "Server response body for /timestamp failed to parse, contact admin."@,
        }
    }

    /// What to tell the user.
    pub fn message(&self) -> (message: &'static str)
        ensures
            message@ == self.text(),
    {
        match self {
            Retry::Restarting => "Server restarting, trying again in 3 seconds...",
            Retry::EmptyBody => "Server response body for /timestamp is empty, contact admin.",
            Retry::BadTimestamp =>
                "Server response body for /timestamp failed to parse, contact admin.",
        }
    }
}

impl UrlError {
    /// What to tell the user.
    pub open spec fn text(self) -> Seq<char> {
        match self {
            UrlError::Unparsable => "Failed to parse server url"@,
            UrlError::NoHost => "Invalid host in server url"@,
        }
    }

    /// What to tell the user.
    pub fn message(&self) -> (message: &'static str)
        ensures
            message@ == self.text(),
    {
        match self {
            UrlError::Unparsable => "Failed to parse server url",
            UrlError::NoHost => "Invalid host in server url",
        }
    }
}

/// Where to ask a server for its time.
pub fn timestamp_url(server: &str) -> (url: String)
    ensures
        url@ == timestamp_address(server@),
{
    let mut url = "http://".to_owned();
    url.append(server);
    url.append("/timestamp");
    url
}

/// The websocket address of a server, with the time that it gave.
pub fn websocket_url(server: &str, timestamp: u64) -> (url: String)
    ensures
        url@ == websocket_address(server@, timestamp),
{
    let mut url = "ws://".to_owned();
    url.append(server);
    proof {
        reveal_strlit("ws://");
        reveal_strlit("/");
    }
    let length = url.as_str().unicode_len();
    if url.as_str().get_char(length - 1) != '/' {
        url.append("/");
    }
    assert(url@ =~= websocket_base(server@));
    url.append("?timestamp=");
    push_decimal(&mut url, timestamp);
    url
}

/// A URL in its normal form, and its host.
#[derive(Debug)]
pub struct UrlParts {
    pub text: String,
    pub host: Option<String>,
}

impl View for UrlParts {
    type V = (Seq<char>, Option<Seq<char>>);

    open spec fn view(&self) -> (Seq<char>, Option<Seq<char>>) {
        (
            self.text@,
            match self.host {
                Some(host) => Some(host@),
                None => None,
            },
        )
    }
}

/// The normal form and the host of the URL that `url::Url::parse` reads from a text, if it accepts
/// the text.
pub uninterp spec fn url_parts(text: Seq<char>) -> Option<(Seq<char>, Option<Seq<char>>)>;

/// Calls `url::Url::parse` and turns the URL into its text and its host, as `Url::to_string` and
/// `Url::host_str` give them. Whether the text is accepted, and what becomes of it, depends on the
/// text alone.
#[verifier::external_body]
fn parse_url(text: &str) -> (parts: Option<UrlParts>)
    ensures
        match parts {
            Some(parts) => url_parts(text@) == Some(parts@),
            None => url_parts(text@) is None,
        },
{
    match url::Url::parse(text) {
        Ok(url) => Some(
            UrlParts { text: url.to_string(), host: url.host_str().map(|host| host.to_string()) },
        ),
        Err(_) => None,
    }
}

/// Calls `tokio_tungstenite::tungstenite::handshake::client::generate_key`, which encodes 16 random
/// bytes in base64.
#[verifier::external_body]
fn random_key() -> (key: String)
    ensures
        is_websocket_key(key@),
{
    tokio_tungstenite::tungstenite::handshake::client::generate_key()
}

/// A websocket key is the base64 encoding of 16 bytes.
pub open spec fn is_websocket_key(key: Seq<char>) -> bool {
    exists|bytes: Seq<u8>| bytes.len() == 16 && key == #[trigger] base64_text(bytes)
}

/// One header of a request.
#[derive(Debug)]
pub struct Header {
    pub name: &'static str,
    pub value: String,
}

impl View for Header {
    type V = (Seq<char>, Seq<char>);

    open spec fn view(&self) -> (Seq<char>, Seq<char>) {
        (self.name@, self.value@)
    }
}

/// The request that opens a websocket.
#[derive(Debug)]
pub struct Handshake {
    pub method: &'static str,
    pub uri: String,
    pub headers: Vec<Header>,
}

/// What a request holds.
pub struct Request {
    pub method: Seq<char>,
    pub uri: Seq<char>,
    pub headers: Seq<(Seq<char>, Seq<char>)>,
}

impl View for Handshake {
    type V = Request;

    open spec fn view(&self) -> Request {
        Request {
            method: self.method@,
            uri: self.uri@,
            headers: self.headers@.map_values(|header: Header| header@),
        }
    }
}

/// The request to the server at `uri`, on `host`.
pub open spec fn handshake_request(
    uri: Seq<char>,
    host: Seq<char>,
    authorization: Seq<char>,
    key: Seq<char>,
) -> Request {
    Request {
        method: "GET"@,
        uri,
        headers: seq![
            ("Sec-Websocket-Key"@, key),
            ("Host"@, host),
            ("Upgrade"@, "websocket"@),
            ("Connection"@, "upgrade"@),
            ("Sec-Websocket-Version"@, "13"@),
            ("Authorization"@, authorization),
        ],
    }
}

/// Whether `handshake` is what comes of a URL that is made of `parts`.
pub open spec fn is_handshake(
    parts: Option<(Seq<char>, Option<Seq<char>>)>,
    authorization: Seq<char>,
    key: Seq<char>,
    handshake: Result<Handshake, UrlError>,
) -> bool {
    match parts {
        None => handshake == Err::<Handshake, UrlError>(UrlError::Unparsable),
        Some((_, None)) => handshake == Err::<Handshake, UrlError>(UrlError::NoHost),
        Some((uri, Some(host))) => handshake matches Ok(handshake) && handshake@
            == handshake_request(uri, host, authorization, key),
    }
}

/// Whether `request` is the one to the server at `uri`, on `host`, for the miner with this address,
/// with some websocket key.
pub open spec fn is_request_for(
    uri: Seq<char>,
    host: Seq<char>,
    address: Seq<char>,
    request: Request,
) -> bool {
    exists|key: Seq<char>| #[trigger]
        is_websocket_key(key) && request == handshake_request(
            uri,
            host,
            basic_authorization(address),
            key,
        )
}

/// Makes the request to a server whose URL has been read.
pub fn assemble(parts: Option<UrlParts>, authorization: String, key: String) -> (handshake: Result<
    Handshake,
    UrlError,
>)
    ensures
        is_handshake(
            match parts {
                Some(parts) => Some(parts@),
                None => None,
            },
            authorization@,
            key@,
            handshake,
        ),
{
    let parts = match parts {
        Some(parts) => parts,
        None => {
            return Err(UrlError::Unparsable);
        },
    };
    let host = match parts.host {
        Some(host) => host,
        None => {
            return Err(UrlError::NoHost);
        },
    };
    let ghost texts = (parts.text@, host@, authorization@, key@);
    let mut headers: Vec<Header> = Vec::new();
    headers.push(Header { name: "Sec-Websocket-Key", value: key });
    headers.push(Header { name: "Host", value: host });
    headers.push(Header { name: "Upgrade", value: "websocket".to_owned() });
    headers.push(Header { name: "Connection", value: "upgrade".to_owned() });
    headers.push(Header { name: "Sec-Websocket-Version", value: "13".to_owned() });
    headers.push(Header { name: "Authorization", value: authorization });
    let handshake = Handshake { method: "GET", uri: parts.text, headers };
    assert(handshake@.headers =~= handshake_request(texts.0, texts.1, texts.2, texts.3).headers);
    Ok(handshake)
}

/// Makes the request that opens a websocket to `server` for `miner`, with the time that the server
/// gave.
pub fn open_handshake(miner: &Miner, server: &str, timestamp: u64) -> (handshake: Result<
    Handshake,
    UrlError,
>)
    ensures
        exists|key: Seq<char>| #[trigger]
            is_websocket_key(key) && is_handshake(
                url_parts(websocket_address(server@, timestamp)),
                basic_authorization(miner.address()),
                key,
                handshake,
            ),
{
    let url = websocket_url(server, timestamp);
    let parts = parse_url(url.as_str());
    let key = random_key();
    let ghost key_text = key@;
    let handshake = assemble(parts, miner.authorization(), key);
    assert(is_websocket_key(key_text));
    handshake
}

/// What to do once a server has been asked for its time.
#[derive(Debug)]
pub enum Dial {
    /// Wait, and ask again.
    Wait(Retry),
    /// The server gave this time: open a websocket.
    Connect(u64, Handshake),
    /// The server gave this time, but its address is of no use: give up.
    GiveUp(u64, UrlError),
}

/// Decides what to do about a server that has been asked for its time.
pub fn dial(miner: &Miner, server: &str, reply: &TimestampReply) -> (step: Dial)
    ensures
        match timestamp_of(*reply) {
            Err(retry) => step == Dial::Wait(retry),
            Ok(timestamp) => exists|key: Seq<char>| #[trigger]
                is_websocket_key(key) && match step {
                    Dial::Wait(_) => false,
                    Dial::Connect(given, handshake) => given == timestamp && is_handshake(
                        url_parts(websocket_address(server@, timestamp)),
                        basic_authorization(miner.address()),
                        key,
                        Ok(handshake),
                    ),
                    Dial::GiveUp(given, error) => given == timestamp && is_handshake(
                        url_parts(websocket_address(server@, timestamp)),
                        basic_authorization(miner.address()),
                        key,
                        Err(error),
                    ),
                },
        },
{
    match read_timestamp(reply) {
        Err(retry) => Dial::Wait(retry),
        Ok(timestamp) => match open_handshake(miner, server, timestamp) {
            Ok(handshake) => Dial::Connect(timestamp, handshake),
            Err(error) => Dial::GiveUp(timestamp, error),
        },
    }
}

/// How many seconds to wait before a server is asked again: a connection that could not be made is
/// waited for, one that has ended is made anew at once.
pub fn redial_after(failed: bool) -> (secs: u64)
    ensures
        secs == (if failed {
            RETRY_SECS
        } else {
            0
        }),
{
    if failed {
        RETRY_SECS
    } else {
        0
    }
}

/// A server is reached without encryption only: its addresses begin as such addresses do, and name
/// the server as it was given.
pub proof fn lemma_addresses_are_plain(server: Seq<char>, timestamp: u64)
    ensures
        timestamp_address(server).take(7 + server.len() as int) == "http://"@ + server,
        websocket_address(server, timestamp).take(5 + server.len() as int) == "ws://"@ + server,
        "http://"@.len() == 7,
        "ws://"@.len() == 5,
{
    reveal_strlit("http://");
    reveal_strlit("ws://");
    assert(timestamp_address(server).take(7 + server.len() as int) =~= "http://"@ + server);
    assert(websocket_address(server, timestamp).take(5 + server.len() as int) =~= "ws://"@
        + server);
}

/// The websocket address of a server begins and ends as such an address does, and names the server
/// as it was given.
pub proof fn lemma_websocket_base(server: Seq<char>)
    ensures
        "ws://"@ + server == websocket_base(server).take(5 + server.len() as int),
        websocket_base(server).last() == '/',
        websocket_base(server).len() <= 6 + server.len(),
        server.len() > 0 && server.last() == '/' ==> websocket_base(server) == "ws://"@ + server,
{
    reveal_strlit("ws://");
    assert("ws://"@ + server =~= websocket_base(server).take(5 + server.len() as int));
}

/// The time that a server gave is what its websocket address ends in, and can be read back there.
pub proof fn lemma_timestamp_is_sent_back(server: Seq<char>, timestamp: u64)
    ensures
        ({
            let prefix = websocket_base(server) + "?timestamp="@;
            let address = websocket_address(server, timestamp);
            &&& prefix.len() <= address.len()
            &&& address.take(prefix.len() as int) == prefix
            &&& parsed_u64(address.skip(prefix.len() as int)) == Some(timestamp)
        }),
{
    let prefix = websocket_base(server) + "?timestamp="@;
    let address = websocket_address(server, timestamp);
    lemma_decimal_round_trip(timestamp);
    assert(address.take(prefix.len() as int) =~= prefix);
    assert(address.skip(prefix.len() as int) =~= decimal(timestamp as nat));
}

/// Every request names the miner, the host and the key: it has six headers, whose names do not depend
/// on the server, and it is for the URI as it is given.
pub proof fn lemma_request_names_the_miner(
    uri: Seq<char>,
    host: Seq<char>,
    authorization: Seq<char>,
    key: Seq<char>,
)
    ensures
        ({
            let request = handshake_request(uri, host, authorization, key);
            &&& request.method == "GET"@
            &&& request.uri == uri
            &&& request.headers.len() == 6
            &&& request.headers[0] == ("Sec-Websocket-Key"@, key)
            &&& request.headers[1] == ("Host"@, host)
            &&& request.headers[2] == ("Upgrade"@, "websocket"@)
            &&& request.headers[3] == ("Connection"@, "upgrade"@)
            &&& request.headers[4] == ("Sec-Websocket-Version"@, "13"@)
            &&& request.headers[5] == ("Authorization"@, authorization)
            &&& request.headers.contains(("Authorization"@, authorization))
            &&& request.headers.contains(("Host"@, host))
            &&& request.headers.contains(("Sec-Websocket-Key"@, key))
        }),
{
    let request = handshake_request(uri, host, authorization, key);
    assert(request.headers.contains(request.headers[0]));
    assert(request.headers.contains(request.headers[1]));
    assert(request.headers.contains(request.headers[5]));
}

/// Two requests differ in what their arguments differ in, and in nothing else.
pub proof fn lemma_requests_differ_in_arguments(
    uri1: Seq<char>,
    host1: Seq<char>,
    authorization1: Seq<char>,
    key1: Seq<char>,
    uri2: Seq<char>,
    host2: Seq<char>,
    authorization2: Seq<char>,
    key2: Seq<char>,
)
    ensures
        ({
            let a = handshake_request(uri1, host1, authorization1, key1);
            let b = handshake_request(uri2, host2, authorization2, key2);
            &&& a.headers.len() == b.headers.len()
            &&& forall|i: int|
                0 <= i < a.headers.len() ==> (#[trigger] a.headers[i]).0 == b.headers[i].0
            &&& forall|i: int|
                0 <= i < a.headers.len() && i != 0 && i != 1 && i != 5 ==> (
                #[trigger] a.headers[i]).1 == b.headers[i].1
            &&& a == b ==> uri1 == uri2 && host1 == host2 && authorization1 == authorization2
                && key1 == key2
        }),
{
    lemma_request_names_the_miner(uri1, host1, authorization1, key1);
    lemma_request_names_the_miner(uri2, host2, authorization2, key2);
}

/// What is made of the parts of a URL: an error where there is no URL or where it has no host, and
/// otherwise the request to that URL, with the key, the host and the authorization in its headers.
pub proof fn lemma_request_is_assembled(
    parts: Option<UrlParts>,
    authorization: String,
    key: String,
    handshake: Result<Handshake, UrlError>,
)
    requires
        call_ensures(assemble, (parts, authorization, key), handshake),
    ensures
        handshake == Err::<Handshake, UrlError>(UrlError::Unparsable) <==> parts is None,
        handshake == Err::<Handshake, UrlError>(UrlError::NoHost) <==> (parts matches Some(parts)
            && parts.host is None),
        handshake matches Ok(handshake) ==> (parts matches Some(parts) && parts.host matches Some(
            host,
        ) && {
            &&& handshake.method@ == "GET"@
            &&& handshake.uri@ == parts.text@
            &&& handshake.headers@.len() == 6
            &&& handshake.headers@[0].name@ == "Sec-Websocket-Key"@
            &&& handshake.headers@[0].value@ == key@
            &&& handshake.headers@[1].name@ == "Host"@
            &&& handshake.headers@[1].value@ == host@
            &&& handshake.headers@[2].name@ == "Upgrade"@
            &&& handshake.headers@[2].value@ == "websocket"@
            &&& handshake.headers@[3].name@ == "Connection"@
            &&& handshake.headers@[3].value@ == "upgrade"@
            &&& handshake.headers@[4].name@ == "Sec-Websocket-Version"@
            &&& handshake.headers@[4].value@ == "13"@
            &&& handshake.headers@[5].name@ == "Authorization"@
            &&& handshake.headers@[5].value@ == authorization@
        }),
{
    if let Ok(handshake) = handshake {
        let parts = parts->0;
        let host = parts.host->0;
        lemma_request_names_the_miner(parts.text@, host@, authorization@, key@);
        assert(handshake@ == handshake_request(parts.text@, host@, authorization@, key@));
        lemma_headers_of(handshake);
    }
}

/// The headers of a request, one by one.
proof fn lemma_headers_of(handshake: Handshake)
    ensures
        handshake@.headers.len() == handshake.headers@.len(),
        forall|i: int|
            0 <= i < handshake.headers@.len() ==> (#[trigger] handshake@.headers[i])
                == handshake.headers@[i]@,
        handshake@.headers.len() == 6 ==> handshake@.headers[0] == handshake.headers@[0]@
            && handshake@.headers[1] == handshake.headers@[1]@ && handshake@.headers[2]
            == handshake.headers@[2]@ && handshake@.headers[3] == handshake.headers@[3]@
            && handshake@.headers[4] == handshake.headers@[4]@ && handshake@.headers[5]
            == handshake.headers@[5]@,
{
}

/// The websocket address of a server is its name after `ws://`, a slash unless it ends in one, and
/// the time in decimal as the one thing that is asked for. Where it is asked for its time is its
/// name between `http://` and `/timestamp`.
pub proof fn lemma_addresses_of_a_server(server: Seq<char>, timestamp: u64)
    ensures
        websocket_address(server, timestamp) == "ws://"@ + server + (if server.len() == 0
            || server.last() == '/' {
            Seq::empty()
        } else {
            seq!['/']
        }) + "?timestamp="@ + decimal(timestamp as nat),
        timestamp_address(server) == "http://"@ + server + "/timestamp"@,
{
    reveal_strlit("ws://");
    let base = "ws://"@ + server;
    if server.len() == 0 {
        assert(base =~= "ws://"@);
    } else {
        assert(base.last() == server.last());
    }
    assert(websocket_base(server) =~= base + (if server.len() == 0 || server.last() == '/' {
        Seq::empty()
    } else {
        seq!['/']
    }));
}

/// The addresses that are made for a server.
pub proof fn lemma_urls_of_a_server(server: &str, timestamp: u64, ask: String, open: String)
    requires
        call_ensures(timestamp_url, (server,), ask),
        call_ensures(websocket_url, (server, timestamp), open),
    ensures
        ask@ == "http://"@ + server@ + "/timestamp"@,
        open@ == "ws://"@ + server@ + (if server@.len() == 0 || server@.last() == '/' {
            Seq::empty()
        } else {
            seq!['/']
        }) + "?timestamp="@ + decimal(timestamp as nat),
{
    lemma_addresses_of_a_server(server@, timestamp);
}

/// A websocket is opened to the address of the server with its time, wherever that is a URL with a
/// host, and the request names the miner by its own address.
pub proof fn lemma_handshake_with_a_server(
    miner: &Miner,
    server: &str,
    timestamp: u64,
    handshake: Result<Handshake, UrlError>,
)
    requires
        call_ensures(open_handshake, (miner, server, timestamp), handshake),
    ensures
        ({
            let address = "ws://"@ + server@ + (if server@.len() == 0 || server@.last() == '/' {
                Seq::empty()
            } else {
                seq!['/']
            }) + "?timestamp="@ + decimal(timestamp as nat);
            match url_parts(address) {
                None => handshake == Err::<Handshake, UrlError>(UrlError::Unparsable),
                Some((_, None)) => handshake == Err::<Handshake, UrlError>(UrlError::NoHost),
                Some((uri, Some(host))) => handshake matches Ok(handshake) && {
                    &&& handshake.method@ == "GET"@
                    &&& handshake.uri@ == uri
                    &&& handshake.headers@.len() == 6
                    &&& handshake.headers@[0].name@ == "Sec-Websocket-Key"@
                    &&& is_websocket_key(handshake.headers@[0].value@)
                    &&& handshake.headers@[1]@ == ("Host"@, host)
                    &&& handshake.headers@[2]@ == ("Upgrade"@, "websocket"@)
                    &&& handshake.headers@[3]@ == ("Connection"@, "upgrade"@)
                    &&& handshake.headers@[4]@ == ("Sec-Websocket-Version"@, "13"@)
                    &&& handshake.headers@[5].name@ == "Authorization"@
                    &&& handshake.headers@[5].value@ == "Basic "@ + base64_text(
                        encode_utf8(miner.address() + ":"@),
                    )
                },
            }
        }),
{
    lemma_addresses_of_a_server(server@, timestamp);
    let parts = url_parts(websocket_address(server@, timestamp));
    let authorization = basic_authorization(miner.address());
    let key = choose|key: Seq<char>| #[trigger]
        is_websocket_key(key) && is_handshake(parts, authorization, key, handshake);
    if let Ok(handshake) = handshake {
        let found = parts->0;
        let (uri, host) = (found.0, found.1->0);
        lemma_request_names_the_miner(uri, host, authorization, key);
        lemma_headers_of(handshake);
    }
}

/// What a reply is taken for: a server that does not answer is starting again, an answer that cannot
/// be read is empty, and a body is the time if it spells a number.
pub proof fn lemma_replies(reply: &TimestampReply, timestamp: Result<u64, Retry>)
    requires
        call_ensures(read_timestamp, (reply,), timestamp),
    ensures
        timestamp == Err::<u64, Retry>(Retry::Restarting) <==> reply is Unreachable,
        timestamp == Err::<u64, Retry>(Retry::EmptyBody) <==> reply is NoBody,
        timestamp == Err::<u64, Retry>(Retry::BadTimestamp) <==> (reply
            matches TimestampReply::Body(body) && parsed_u64(body@) is None),
        timestamp matches Ok(timestamp) ==> (reply matches TimestampReply::Body(body)
            && parsed_u64(body@) == Some(timestamp)),
{
}

/// A server is dialled with the time that it gave, or else the reply tells why to wait.
pub proof fn lemma_dialling(
    miner: &Miner,
    server: &str,
    reply: &TimestampReply,
    step: Dial,
)
    requires
        call_ensures(dial, (miner, server, reply), step),
    ensures
        step is Wait <==> !(reply matches TimestampReply::Body(body) && parsed_u64(body@) is Some),
        reply is Unreachable ==> step == Dial::Wait(Retry::Restarting),
        reply is NoBody ==> step == Dial::Wait(Retry::EmptyBody),
        reply matches TimestampReply::Body(body) ==> match parsed_u64(body@) {
            None => step == Dial::Wait(Retry::BadTimestamp),
            Some(timestamp) => match url_parts(websocket_address(server@, timestamp)) {
                None => step == Dial::GiveUp(timestamp, UrlError::Unparsable),
                Some((_, None)) => step == Dial::GiveUp(timestamp, UrlError::NoHost),
                Some((uri, Some(host))) => step matches Dial::Connect(given, handshake) && {
                    &&& given == timestamp
                    &&& handshake.uri@ == uri
                    &&& handshake.headers@.len() == 6
                    &&& handshake.headers@[1]@ == ("Host"@, host)
                    &&& handshake.headers@[5]@ == (
                        "Authorization"@,
                        basic_authorization(miner.address()),
                    )
                },
            },
        },
{
    if let Dial::Connect(timestamp, handshake) = step {
        let parts = url_parts(websocket_address(server@, timestamp));
        let authorization = basic_authorization(miner.address());
        let key = choose|key: Seq<char>| #[trigger]
            is_websocket_key(key) && is_handshake(parts, authorization, key, Ok(handshake));
        let found = parts->0;
        let (uri, host) = (found.0, found.1->0);
        lemma_request_names_the_miner(uri, host, authorization, key);
        lemma_headers_of(handshake);
    }
}

/// Three seconds are waited after a connection that could not be made, and none after one that has
/// ended.
pub proof fn lemma_wait_before_the_next(failed: bool, secs: u64)
    requires
        call_ensures(redial_after, (failed,), secs),
    ensures
        failed ==> secs == 3,
        !failed ==> secs == 0,
{
}

/// What the user is told, for each reason.
pub proof fn lemma_reasons_in_words(
    retry: &Retry,
    retry_message: &'static str,
    error: &UrlError,
    error_message: &'static str,
)
    requires
        call_ensures(Retry::message, (retry,), retry_message),
        call_ensures(UrlError::message, (error,), error_message),
    ensures
        *retry == Retry::Restarting ==> retry_message@
            == "Server restarting, trying again in 3 seconds..."@,
        *retry == Retry::EmptyBody ==> retry_message@
            == "Server response body for /timestamp is empty, contact admin."@,
        *retry == Retry::BadTimestamp ==> retry_message@
            == "Server response body for /timestamp failed to parse, contact admin."@,
        *error == UrlError::Unparsable ==> error_message@ == "Failed to parse server url"@,
        *error == UrlError::NoHost ==> error_message@ == "Invalid host in server url"@,
{
}

} // verus!
