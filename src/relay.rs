use vstd::prelude::*;

use crate::codec::{json_bytes, parse_json_bytes, parsed_json_bytes, write_json};
use crate::error::{refusal, refuse, APIError, BAD_GATEWAY, INTERNAL_SERVER_ERROR};
use crate::json::{Json, JsonV};
use crate::policy::{is_streaming, stream_key};
use crate::stream::{line_events, stops, client_events, last_usage_event, strip_usage, usage_name, views, StreamReassembler};
use crate::usage::{extract_tokens, token_count};

verus! {

/// What is kept of an exchange for the usage log: the response (the whole
/// buffered one, or the streamed event that reported usage) and its token
/// count.
#[derive(Debug, PartialEq)]
pub struct LogRecord {
    pub response: Json,
    pub tokens: Option<i32>,
}

/// A buffered upstream response, as the client gets it and as it is logged.
#[derive(Debug, PartialEq)]
pub struct BufferedReply {
    pub client_body: Vec<u8>,
    pub record: LogRecord,
}

/// Whether an upstream status is a success (2xx). Any other status is
/// passed on to the client with a generic message.
pub fn check_upstream_status(status: u16) -> (r: Result<(), APIError>)
    ensures
        r is Ok <==> 200 <= status <= 299,
        r matches Err(e) ==> e == refusal(status, "Upstream service error"),
{
    if 200 <= status && status <= 299 {
        Ok(())
    } else {
        Err(refuse(status, "Upstream service error"))
    }
}

/// The answer to a request whose upstream could not be reached.
pub fn upstream_unreachable() -> (e: APIError)
    ensures
        e == refusal(BAD_GATEWAY, "Failed to connect to upstream service"),
{
    refuse(BAD_GATEWAY, "Failed to connect to upstream service")
}

/// Reads a buffered upstream body: the client gets the response without its
/// `usage` member, and the log keeps the whole response and its token
/// count. A body that is not JSON is answered with 502.
pub fn buffered_reply(body: &[u8]) -> (r: Result<BufferedReply, APIError>)
    ensures
        match parsed_json_bytes(body@) {
            Some(doc) => r matches Ok(reply) && reply.client_body@ == json_bytes(strip_usage(doc))
                && reply.record.response@ == doc && match reply.record.tokens {
                Some(n) => token_count(doc, false) == Some(n as int),
                None => token_count(doc, false) is None,
            },
            None => r matches Err(e) && e == refusal(BAD_GATEWAY, "Invalid response from upstream service"),
        },
{
    let doc = match parse_json_bytes(body) {
        Some(d) => d,
        None => {
            return Err(
                refuse(BAD_GATEWAY, "Invalid response from upstream service"),
            );
        },
    };
    let mut client = doc.copy();
    client.remove_member(&usage_name());
    let client_body = match write_json(&client) {
        Ok(b) => b,
        Err(_) => {
            return Err(
                refuse(INTERNAL_SERVER_ERROR, "Failed to serialize response"),
            );
        },
    };
    let tokens = extract_tokens(&doc, false);
    Ok(BufferedReply { client_body, record: LogRecord { response: doc, tokens } })
}

/// The line that the client gets for a streamed event: its JSON text and a
/// newline.
pub fn encode_event(event: &Json) -> (r: Option<Vec<u8>>)
    ensures
        r matches Some(b) && b@ == json_bytes(event@).push(10),
{
    match write_json(event) {
        Ok(mut b) => {
            b.push(10);
            Some(b)
        },
        Err(_) => None,
    }
}

/// What a streamed exchange leaves for the log: the last event that
/// reported usage and its token count, or nothing if no event did.
pub fn stream_log_record(stream: &StreamReassembler) -> (r: Option<LogRecord>)
    requires
        stream.wf(),
    ensures
        match last_usage_event(stream.events()) {
            Some(d) => r matches Some(rec) && rec.response@ == d && match rec.tokens {
                Some(n) => token_count(d, true) == Some(n as int),
                None => token_count(d, true) is None,
            },
            None => r is None,
        },
{
    match stream.usage_event() {
        Some(event) => {
            let tokens = extract_tokens(event, true);
            Some(LogRecord { response: event.copy(), tokens })
        },
        None => None,
    }
}

/// Where an exchange with the upstream stands.
#[derive(Debug, PartialEq, Clone, Copy)]
pub enum Phase {
    /// The filtered request is on its way upstream.
    Dispatched,
    /// Upstream answered with success and streams its response.
    Streaming,
    /// Upstream answered with success and sends its response whole.
    Buffered,
    /// The response has been handed to the client.
    Completed,
    /// Upstream could not be reached.
    UpstreamUnreachable,
    /// Upstream refused the request or sent a body that is not JSON.
    UpstreamError,
}

/// One relayed request, from its dispatch upstream to its completion.
pub struct Exchange {
    request: Json,
    streaming: bool,
    phase: Phase,
    events: StreamReassembler,
}

impl Exchange {
    pub closed spec fn phase(&self) -> Phase {
        self.phase
    }

    pub closed spec fn request_doc(&self) -> JsonV {
        self.request@
    }

    pub closed spec fn streams(&self) -> bool {
        self.streaming
    }

    /// The lines read so far from a streamed response.
    pub closed spec fn stream_lines(&self) -> Seq<Seq<u8>> {
        self.events.taken_lines()
    }

    /// The events read so far from a streamed response.
    pub open spec fn events(&self) -> Seq<JsonV> {
        line_events(self.stream_lines())
    }

    pub closed spec fn wf(&self) -> bool {
        &&& self.events.wf()
        &&& self.streaming == (self.request@.member(stream_key()) == Some(JsonV::Bool(true)))
    }

    /// An exchange for a filtered request that is being sent upstream; it
    /// streams when the request's `stream` member is `true`.
    pub fn dispatched(request: Json) -> (r: Exchange)
        ensures
            r.wf(),
            r.phase() == Phase::Dispatched,
            r.request_doc() == request@,
            r.streams() == (request@.member(stream_key()) == Some(JsonV::Bool(true))),
            r.events() == Seq::<JsonV>::empty(),
    {
        let streaming = is_streaming(&request);
        Exchange { request, streaming, phase: Phase::Dispatched, events: StreamReassembler::new() }
    }

    pub fn request(&self) -> (r: &Json)
        ensures
            r@ == self.request_doc(),
    {
        &self.request
    }

    pub fn is_streaming(&self) -> (r: bool)
        ensures
            r == self.streams(),
    {
        self.streaming
    }

    /// Whether a streamed response has sent its end marker.
    pub fn stream_stopped(&self) -> (r: bool)
        requires
            self.wf(),
        ensures
            r == stops(self.stream_lines()),
    {
        self.events.stopped()
    }

    pub fn phase_now(&self) -> (r: Phase)
        ensures
            r == self.phase(),
    {
        self.phase
    }

    /// Upstream could not be reached: the client gets 502.
    pub fn upstream_failed(&mut self) -> (e: APIError)
        requires
            old(self).phase() == Phase::Dispatched,
        ensures
            final(self).phase() == Phase::UpstreamUnreachable,
            e == refusal(BAD_GATEWAY, "Failed to connect to upstream service"),
            final(self).request_doc() == old(self).request_doc(),
            final(self).wf() == old(self).wf(),
    {
        self.phase = Phase::UpstreamUnreachable;
        upstream_unreachable()
    }

    /// Upstream answered with `status`: on success the response is read as
    /// a stream or whole, as the request asked; any other status is passed
    /// on to the client.
    pub fn upstream_answered(&mut self, status: u16) -> (r: Result<(), APIError>)
        requires
            old(self).phase() == Phase::Dispatched,
        ensures
            r is Ok <==> 200 <= status <= 299,
            r is Ok ==> final(self).phase() == if old(self).streams() {
                Phase::Streaming
            } else {
                Phase::Buffered
            },
            r matches Err(e) ==> e == refusal(status, "Upstream service error")
                && final(self).phase() == Phase::UpstreamError,
            final(self).request_doc() == old(self).request_doc(),
            final(self).streams() == old(self).streams(),
            final(self).events() == old(self).events(),
            final(self).wf() == old(self).wf(),
    {
        match check_upstream_status(status) {
            Ok(()) => {
                self.phase = if self.streaming {
                    Phase::Streaming
                } else {
                    Phase::Buffered
                };
                Ok(())
            },
            Err(e) => {
                self.phase = Phase::UpstreamError;
                Err(e)
            },
        }
    }

    /// A chunk of a streamed response: the events that it completes, as the
    /// client sees them, in order.
    pub fn chunk(&mut self, bytes: &[u8]) -> (r: Vec<Json>)
        requires
            old(self).wf(),
            old(self).phase() == Phase::Streaming,
        ensures
            final(self).wf(),
            final(self).phase() == Phase::Streaming,
            final(self).request_doc() == old(self).request_doc(),
            client_events(final(self).events()) == client_events(old(self).events()) + views(r@),
    {
        self.events.feed(bytes)
    }

    /// The end of a streamed response: the event of its unterminated last
    /// line, if any, and what the log keeps of the exchange.
    pub fn end_of_stream(&mut self) -> (r: (Vec<Json>, Option<LogRecord>))
        requires
            old(self).wf(),
            old(self).phase() == Phase::Streaming,
        ensures
            final(self).wf(),
            final(self).phase() == Phase::Completed,
            final(self).request_doc() == old(self).request_doc(),
            client_events(final(self).events()) == client_events(old(self).events()) + views(r.0@),
            match last_usage_event(final(self).events()) {
                Some(d) => r.1 matches Some(rec) && rec.response@ == d && match rec.tokens {
                    Some(n) => token_count(d, true) == Some(n as int),
                    None => token_count(d, true) is None,
                },
                None => r.1 is None,
            },
    {
        let last = self.events.finish();
        self.phase = Phase::Completed;
        let record = stream_log_record(&self.events);
        (last, record)
    }

    /// The whole body of a buffered response: what the client gets and what
    /// the log keeps, or the error that the client gets.
    pub fn body(&mut self, body: &[u8]) -> (r: Result<BufferedReply, APIError>)
        requires
            old(self).phase() == Phase::Buffered,
        ensures
            final(self).phase() == if r is Ok {
                Phase::Completed
            } else {
                Phase::UpstreamError
            },
            final(self).request_doc() == old(self).request_doc(),
            final(self).wf() == old(self).wf(),
            match parsed_json_bytes(body@) {
                Some(doc) => r matches Ok(reply) && reply.client_body@ == json_bytes(strip_usage(doc))
                    && reply.record.response@ == doc && match reply.record.tokens {
                    Some(n) => token_count(doc, false) == Some(n as int),
                    None => token_count(doc, false) is None,
                },
                None => r matches Err(e) && e == refusal(BAD_GATEWAY, "Invalid response from upstream service"),
            },
    {
        let r = buffered_reply(body);
        self.phase = if r.is_ok() {
            Phase::Completed
        } else {
            Phase::UpstreamError
        };
        r
    }
}

} // verus!
