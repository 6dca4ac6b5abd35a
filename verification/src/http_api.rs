//! Decision logic of the protocol client: request URL and header
//! construction, session-token state, classification of responses, and
//! delivery of decoded frames to a caller-supplied handler.
use crate::codec::{decode_all, CodecError, Decoded};
use vstd::prelude::*;
use vstd::string::*;

verus! {

/// Media type of every request and response body.
pub const PROTOBUF_MEDIA_TYPE: &'static str = "application/x-protobuf";

/// Name of the header that echoes the session token.
pub const STREAM_ID_HEADER: &'static str = "Mesos-Stream-Id";

/// Status code that makes a one-shot call a success.
pub const STATUS_ACCEPTED: u16 = 202;

/// Status code that makes a subscribe handshake a success.
pub const STATUS_OK: u16 = 200;

/// A failure of the protocol client.
#[derive(Debug)]
pub enum Error {
    /// The transport failed before any response arrived; carries a
    /// description of the failure.
    Io(String),
    /// The server answered with an unexpected status; carries that exact
    /// status code and a diagnostic rendering of the response.
    Status(u16, String),
    /// A frame or message could not be decoded.
    Serialization(CodecError),
}

/// Caller-supplied reactions to the event stream. Implementations must bear
/// repeated calls from the dispatcher's execution context, which is distinct
/// from the caller's.
pub trait HttpHandler {
    /// One decoded event's payload bytes.
    fn on_event(&self, event: Vec<u8>);

    /// One failure; the stream goes on after it.
    fn on_error(&self, error: Error);
}

/// The protocol client's own state: the endpoint path fixed at construction,
/// and the optional session token captured by a successful subscribe
/// handshake and echoed on every later request.
pub struct HttpApi {
    endpoint: String,
    mesos_stream_id: Option<String>,
}

impl HttpApi {
    /// The endpoint path every request goes to.
    pub closed spec fn spec_endpoint(&self) -> Seq<char> {
        self.endpoint@
    }

    /// The session token held, if any.
    pub closed spec fn spec_stream_id(&self) -> Option<Seq<char>> {
        match self.mesos_stream_id {
            Some(ref s) => Some(s@),
            None => None,
        }
    }

    /// A client for the given endpoint path, holding no session token.
    pub fn new(endpoint: &str) -> (r: Result<HttpApi, Error>)
        ensures
            (r matches Ok(api) && api.spec_endpoint() == endpoint@ && api.spec_stream_id()
                is None),
    {
        Ok(HttpApi { endpoint: String::from_str(endpoint), mesos_stream_id: None })
    }

    /// The URL of a request to the destination `to`: scheme, destination,
    /// then the endpoint path.
    pub fn request_url(&self, to: &str) -> (r: String)
        ensures
            r@ == "http://"@ + to@ + self.spec_endpoint(),
    {
        let mut url = String::from_str("http://");
        url.append(to);
        url.append(self.endpoint.as_str());
        url
    }

    /// The headers of every request: the media type as both `Accept` and
    /// `Content-Type`, and the session token under its header exactly when
    /// one is held.
    pub fn request_headers(&self) -> (r: Vec<(String, String)>)
        ensures
            r@.len() == (if self.spec_stream_id() is Some {
                3int
            } else {
                2int
            }),
            r@[0].0@ == "Accept"@ && r@[0].1@ == PROTOBUF_MEDIA_TYPE@,
            r@[1].0@ == "Content-Type"@ && r@[1].1@ == PROTOBUF_MEDIA_TYPE@,
            self.spec_stream_id() matches Some(id) ==> r@[2].0@ == STREAM_ID_HEADER@ && r@[2].1@
                == id,
    {
        let mut headers: Vec<(String, String)> = Vec::new();
        headers.push((String::from_str("Accept"), String::from_str(PROTOBUF_MEDIA_TYPE)));
        headers.push((String::from_str("Content-Type"), String::from_str(PROTOBUF_MEDIA_TYPE)));
        if let Some(id) = &self.mesos_stream_id {
            headers.push((String::from_str(STREAM_ID_HEADER), id.clone()));
        }
        headers
    }

    /// Classify a one-shot call's response: the accepted status alone is
    /// success; every other status - the plain OK status included - is a
    /// status error carrying that exact code and the response's diagnostic
    /// rendering.
    pub fn send_outcome(&self, status: u16, detail: String) -> (r: Result<(), Error>)
        ensures
            r is Ok <==> status == STATUS_ACCEPTED,
            status != STATUS_ACCEPTED ==> (r matches Err(e) && e == Error::Status(status, detail)),
    {
        if status == STATUS_ACCEPTED {
            Ok(())
        } else {
            Err(Error::Status(status, detail))
        }
    }

    /// Apply a subscribe handshake's response to the client: on the OK
    /// status the session token is captured when the response carries one
    /// and kept as it was otherwise, and the caller may hand the open body
    /// to the dispatcher; on any other status nothing changes and a status
    /// error carrying that exact code comes back.
    pub fn subscribe_outcome(&mut self, status: u16, stream_id: Option<String>, detail: String) -> (r:
        Result<(), Error>)
        ensures
            final (self).spec_endpoint() == old(self).spec_endpoint(),
            r is Ok <==> status == STATUS_OK,
            status == STATUS_OK ==> final (self).spec_stream_id() == (match stream_id {
                Some(id) => Some(id@),
                None => old(self).spec_stream_id(),
            }),
            status != STATUS_OK ==> final (self).spec_stream_id() == old(self).spec_stream_id()
                && (r matches Err(e) && e == Error::Status(status, detail)),
    {
        if status == STATUS_OK {
            if let Some(id) = stream_id {
                self.mesos_stream_id = Some(id);
            }
            Ok(())
        } else {
            Err(Error::Status(status, detail))
        }
    }
}

/// Deliver everything a complete buffer of the streaming body holds to the
/// handler, in input order: each payload to `on_event`, each failure to
/// `on_error`, and after a failure the delivery goes on with the frames that
/// follow it.
pub fn dispatch_buffer<H: HttpHandler>(input: &Vec<u8>, handler: &H) {
    let items = decode_all(input);
    let mut i: usize = 0;
    while i < items.len()
        invariant
            i <= items@.len(),
        decreases items@.len() - i,
    {
        match &items[i] {
            Decoded::Frame(payload) => handler.on_event(payload.clone()),
            Decoded::Fail(e) => handler.on_error(Error::Serialization(*e)),
            Decoded::NeedMore => (),
            Decoded::End => (),
        }
        i = i + 1;
    }
}

} // verus!
