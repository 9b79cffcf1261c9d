use vstd::prelude::*;

use crate::codec::{decode_lossy, lossy_text, parse_json_text, parsed_json};
use crate::json::{Json, JsonV};
use crate::json::lemma_without_lookup;
use crate::text::{lemma_split_nonempty, split_on, trim, trim_bounds, trim_end, trim_start};

verus! {

/// The prefix of a server-sent-events data line.
pub open spec fn data_prefix() -> Seq<char> {
    seq!['d', 'a', 't', 'a', ':', ' ']
}

/// The payload that marks the end of a stream.
pub open spec fn done_marker() -> Seq<char> {
    seq!['[', 'D', 'O', 'N', 'E', ']']
}

pub open spec fn usage_key() -> Seq<char> {
    seq!['u', 's', 'a', 'g', 'e']
}

/// The member under which the upstream provider reports a stream's usage.
pub open spec fn provider_key() -> Seq<char> {
    seq!['x', '_', 'g', 'r', 'o', 'q']
}

pub open spec fn newline() -> u8 {
    10
}

/// What a complete line of a stream asks for.
pub enum LineAction {
    Skip,
    Stop,
    Emit(JsonV),
}

/// A trimmed line without its optional `data: ` prefix.
pub open spec fn payload_of(t: Seq<char>) -> Seq<char> {
    if t.len() >= 6 && t.subrange(0, 6) == data_prefix() {
        t.subrange(6, t.len() as int)
    } else {
        t
    }
}

pub open spec fn ascii_only(bytes: Seq<u8>) -> bool {
    forall|i: int| 0 <= i < bytes.len() ==> #[trigger] bytes[i] < 128
}

/// The characters that ASCII bytes stand for.
pub open spec fn ascii_chars(bytes: Seq<u8>) -> Seq<char> {
    Seq::new(bytes.len(), |i: int| bytes[i] as char)
}

/// The text of a line: each ASCII byte is its character, and any other
/// line is decoded lossily as UTF-8.
pub open spec fn decoded(line: Seq<u8>) -> Seq<char> {
    if ascii_only(line) {
        ascii_chars(line)
    } else {
        lossy_text(line)
    }
}

/// A blank line is skipped, the end marker stops the stream, a payload that
/// parses as a JSON object is an event, and any other line is skipped.
pub open spec fn line_action(line: Seq<u8>) -> LineAction {
    let t = trim(decoded(line));
    if t.len() == 0 {
        LineAction::Skip
    } else if payload_of(t) == done_marker() {
        LineAction::Stop
    } else {
        match parsed_json(payload_of(t)) {
            Some(d) => if d is Object {
                LineAction::Emit(d)
            } else {
                LineAction::Skip
            },
            None => LineAction::Skip,
        }
    }
}

/// Whether one of the lines is the end marker.
pub open spec fn stops(lines: Seq<Seq<u8>>) -> bool
    decreases lines.len(),
{
    lines.len() > 0 && (stops(lines.drop_last()) || line_action(lines.last()) is Stop)
}

/// The events that the lines carry, in order, up to the end marker.
pub open spec fn line_events(lines: Seq<Seq<u8>>) -> Seq<JsonV>
    decreases lines.len(),
{
    if lines.len() == 0 {
        Seq::empty()
    } else {
        let before = line_events(lines.drop_last());
        if stops(lines.drop_last()) {
            before
        } else {
            match line_action(lines.last()) {
                LineAction::Emit(d) => before.push(d),
                _ => before,
            }
        }
    }
}

/// The events of a whole stream, its unterminated last line included.
pub open spec fn stream_events(bytes: Seq<u8>) -> Seq<JsonV> {
    line_events(split_on(bytes, newline()))
}

/// An event as the client sees it: without its `usage` member.
pub open spec fn strip_usage(d: JsonV) -> JsonV {
    d.without_member(usage_key())
}

pub open spec fn client_events(events: Seq<JsonV>) -> Seq<JsonV> {
    events.map_values(|d: JsonV| strip_usage(d))
}

pub open spec fn views(docs: Seq<Json>) -> Seq<JsonV> {
    docs.map_values(|j: Json| j@)
}

/// Whether an event carries the provider's usage report.
pub open spec fn carries_usage(d: JsonV) -> bool {
    d.member2(provider_key(), usage_key()) is Some
}

/// The last event that carries a usage report.
pub open spec fn last_usage_event(events: Seq<JsonV>) -> Option<JsonV>
    decreases events.len(),
{
    if events.len() == 0 {
        None
    } else if carries_usage(events.last()) {
        Some(events.last())
    } else {
        last_usage_event(events.drop_last())
    }
}

/// Lines joined into one stream, each followed by a newline.
pub open spec fn framed(lines: Seq<Seq<u8>>) -> Seq<u8>
    decreases lines.len(),
{
    if lines.len() == 0 {
        Seq::empty()
    } else {
        framed(lines.drop_last()) + lines.last().push(newline())
    }
}

pub open spec fn single_lines(lines: Seq<Seq<u8>>) -> bool {
    forall|i: int| 0 <= i < lines.len() ==> !(#[trigger] lines[i]).contains(newline())
}

/// The event that a line carries.
pub open spec fn event_of(line: Seq<u8>) -> JsonV {
    match line_action(line) {
        LineAction::Emit(d) => d,
        _ => JsonV::Null,
    }
}

/// The line `data: [DONE]`.
pub open spec fn done_line() -> Seq<u8> {
    seq![100u8, 97u8, 116u8, 97u8, 58u8, 32u8, 91u8, 68u8, 79u8, 78u8, 69u8, 93u8]
}

proof fn lemma_split_plain(l: Seq<u8>)
    requires
        !l.contains(newline()),
    ensures
        split_on(l, newline()) == seq![l],
    decreases l.len(),
{
    if l.len() > 0 {
        assert(!l.drop_last().contains(newline())) by {
            if l.drop_last().contains(newline()) {
                let k = choose|k: int| 0 <= k < l.len() - 1 && l.drop_last()[k] == newline();
                assert(l[k] == newline());
            }
        }
        lemma_split_plain(l.drop_last());
        assert(l.last() != newline()) by {
            assert(l[l.len() - 1] == l.last());
        }
        assert(l.drop_last().push(l.last()) =~= l);
        assert(seq![l.drop_last()].update(0, l.drop_last().push(l.last())) =~= seq![l]);
    } else {
        assert(l =~= Seq::<u8>::empty());
    }
}

proof fn lemma_split_after_line(l: Seq<u8>, r: Seq<u8>)
    requires
        !l.contains(newline()),
    ensures
        split_on(l.push(newline()) + r, newline()) == seq![l] + split_on(r, newline()),
    decreases r.len(),
{
    let x = l.push(newline()) + r;
    if r.len() == 0 {
        assert(x =~= l.push(newline()));
        assert(x.drop_last() =~= l);
        lemma_split_plain(l);
        assert(split_on(r, newline()) =~= seq![Seq::<u8>::empty()]);
        assert(seq![l].push(Seq::<u8>::empty()) =~= seq![l] + seq![Seq::<u8>::empty()]);
    } else {
        lemma_split_after_line(l, r.drop_last());
        lemma_split_nonempty(r.drop_last(), newline());
        assert(x.drop_last() =~= l.push(newline()) + r.drop_last());
        assert(x.last() == r.last());
        let p = split_on(r.drop_last(), newline());
        if r.last() == newline() {
            assert((seq![l] + p).push(Seq::<u8>::empty()) =~= seq![l] + p.push(Seq::<u8>::empty()));
        } else {
            assert((seq![l] + p).update(p.len() as int, (seq![l] + p).last().push(r.last()))
                =~= seq![l] + p.update(p.len() - 1, p.last().push(r.last())));
        }
    }
}

proof fn lemma_split_framed(lines: Seq<Seq<u8>>, rest: Seq<u8>)
    requires
        single_lines(lines),
    ensures
        split_on(framed(lines) + rest, newline()) == lines + split_on(rest, newline()),
    decreases lines.len(),
{
    if lines.len() == 0 {
        assert(framed(lines) + rest =~= rest);
        assert(lines + split_on(rest, newline()) =~= split_on(rest, newline()));
    } else {
        let l = lines.last();
        let before = lines.drop_last();
        assert(single_lines(before)) by {
            assert forall|i: int| 0 <= i < before.len() implies !(#[trigger] before[i]).contains(
                newline(),
            ) by {
                assert(before[i] == lines[i]);
            }
        }
        assert(!l.contains(newline())) by {
            assert(lines[lines.len() - 1] == l);
        }
        assert(framed(lines) + rest =~= framed(before) + (l.push(newline()) + rest));
        lemma_split_framed(before, l.push(newline()) + rest);
        lemma_split_after_line(l, rest);
        assert(before + (seq![l] + split_on(rest, newline())) =~= lines + split_on(
            rest,
            newline(),
        ));
    }
}

proof fn lemma_events_after_stop(a: Seq<Seq<u8>>, b: Seq<Seq<u8>>)
    requires
        stops(a),
    ensures
        stops(a + b),
        line_events(a + b) == line_events(a),
    decreases b.len(),
{
    if b.len() == 0 {
        assert(a + b =~= a);
    } else {
        lemma_events_after_stop(a, b.drop_last());
        assert((a + b).drop_last() =~= a + b.drop_last());
    }
}

proof fn lemma_events_skip(before: Seq<Seq<u8>>, bad: Seq<u8>, after: Seq<Seq<u8>>)
    requires
        line_action(bad) is Skip,
    ensures
        stops(before.push(bad) + after) == stops(before + after),
        line_events(before.push(bad) + after) == line_events(before + after),
    decreases after.len(),
{
    if after.len() == 0 {
        assert(before.push(bad) + after =~= before.push(bad));
        assert(before + after =~= before);
        assert(before.push(bad).drop_last() =~= before);
    } else {
        lemma_events_skip(before, bad, after.drop_last());
        assert((before.push(bad) + after).drop_last() =~= before.push(bad) + after.drop_last());
        assert((before + after).drop_last() =~= before + after.drop_last());
        assert((before.push(bad) + after).last() == after.last());
        assert((before + after).last() == after.last());
    }
}

proof fn lemma_all_events(lines: Seq<Seq<u8>>)
    requires
        forall|i: int| 0 <= i < lines.len() ==> line_action(#[trigger] lines[i]) is Emit,
    ensures
        !stops(lines),
        line_events(lines) == lines.map_values(|l: Seq<u8>| event_of(l)),
    decreases lines.len(),
{
    if lines.len() > 0 {
        let before = lines.drop_last();
        assert forall|i: int| 0 <= i < before.len() implies line_action(#[trigger] before[i]) is Emit by {
            assert(before[i] == lines[i]);
        }
        lemma_all_events(before);
        assert(line_action(lines[lines.len() - 1]) is Emit);
        assert(lines.map_values(|l: Seq<u8>| event_of(l)) =~= before.map_values(
            |l: Seq<u8>| event_of(l),
        ).push(event_of(lines.last())));
    } else {
        assert(lines.map_values(|l: Seq<u8>| event_of(l)) =~= Seq::<JsonV>::empty());
    }
}

proof fn lemma_empty_line_skipped()
    ensures
        line_action(Seq::empty()) is Skip,
{
    let e = Seq::<u8>::empty();
    assert(ascii_chars(e) =~= Seq::<char>::empty());
    assert(decoded(e) =~= Seq::<char>::empty());
    assert(trim(decoded(e)) =~= Seq::<char>::empty());
}

proof fn lemma_done_line_stops()
    ensures
        line_action(done_line()) is Stop,
        !done_line().contains(newline()),
{
    let d = done_line();
    assert(d[0] == 100u8 && d[1] == 97u8 && d[2] == 116u8 && d[3] == 97u8 && d[4] == 58u8 && d[5]
        == 32u8 && d[6] == 91u8 && d[7] == 68u8 && d[8] == 79u8 && d[9] == 78u8 && d[10] == 69u8
        && d[11] == 93u8);
    assert(ascii_only(d));
    let t = ascii_chars(d);
    assert(t =~= seq!['d', 'a', 't', 'a', ':', ' ', '[', 'D', 'O', 'N', 'E', ']']);
    assert(trim_start(t) == t);
    assert(trim_end(t) == t);
    assert(t.subrange(0, 6) =~= data_prefix());
    assert(t.subrange(6, 12) =~= done_marker());
    assert(!d.contains(newline())) by {
        if d.contains(newline()) {
            let k = choose|k: int| 0 <= k < d.len() && d[k] == newline();
        }
    }
}

/// However a stream of N complete lines, each carrying an event, is cut into
/// chunks, once its bytes have arrived the events read are exactly those N,
/// in order, and none that the client sees has a `usage` member; ending the
/// stream adds nothing.
pub proof fn lemma_framed_events(lines: Seq<Seq<u8>>)
    requires
        single_lines(lines),
        forall|i: int| 0 <= i < lines.len() ==> line_action(#[trigger] lines[i]) is Emit,
    ensures
        line_events(split_on(framed(lines), newline()).drop_last()) == lines.map_values(
            |l: Seq<u8>| event_of(l),
        ),
        stream_events(framed(lines)) == lines.map_values(|l: Seq<u8>| event_of(l)),
        forall|i: int|
            0 <= i < lines.len() ==> (#[trigger] client_events(stream_events(framed(lines)))[i]).member(
                usage_key(),
            ) is None,
{
    lemma_split_framed(lines, Seq::empty());
    assert(framed(lines) + Seq::<u8>::empty() =~= framed(lines));
    let pieces = lines + split_on(Seq::<u8>::empty(), newline());
    assert(pieces =~= lines.push(Seq::<u8>::empty()));
    assert(pieces.drop_last() =~= lines);
    lemma_all_events(lines);
    lemma_empty_line_skipped();
    let events = stream_events(framed(lines));
    assert forall|i: int| 0 <= i < lines.len() implies (#[trigger] client_events(events)[i]).member(
        usage_key(),
    ) is None by {
        match events[i] {
            JsonV::Object(e) => {
                lemma_without_lookup(e, usage_key(), usage_key());
            },
            _ => {},
        }
    }
}

/// The line `data: [DONE]` ends the stream: whatever bytes follow it, the
/// events are those of the lines before it, whether or not the stream has
/// ended.
pub proof fn lemma_end_marker_stops(lines: Seq<Seq<u8>>, rest: Seq<u8>)
    requires
        single_lines(lines),
    ensures
        line_events(split_on(framed(lines.push(done_line())) + rest, newline()).drop_last())
            == line_events(lines),
        stream_events(framed(lines.push(done_line())) + rest) == line_events(lines),
{
    lemma_done_line_stops();
    let with_done = lines.push(done_line());
    assert(single_lines(with_done)) by {
        assert forall|i: int| 0 <= i < with_done.len() implies !(#[trigger] with_done[i]).contains(
            newline(),
        ) by {
            if i < lines.len() {
                assert(with_done[i] == lines[i]);
            }
        }
    }
    lemma_split_framed(with_done, rest);
    lemma_split_nonempty(rest, newline());
    let tail = split_on(rest, newline());
    assert(with_done.drop_last() =~= lines);
    assert(stops(with_done));
    assert(line_events(with_done) == line_events(lines));
    assert((with_done + tail).drop_last() =~= with_done + tail.drop_last());
    lemma_events_after_stop(with_done, tail.drop_last());
    lemma_events_after_stop(with_done, tail);
}

/// A last line without a newline is read when the stream ends, and not
/// before.
pub proof fn lemma_trailing_line_read(lines: Seq<Seq<u8>>, last: Seq<u8>)
    requires
        single_lines(lines),
        !last.contains(newline()),
    ensures
        line_events(split_on(framed(lines) + last, newline()).drop_last()) == line_events(lines),
        stream_events(framed(lines) + last) == line_events(lines.push(last)),
        !stops(lines) ==> (line_action(last) matches LineAction::Emit(d) ==> stream_events(
            framed(lines) + last,
        ) == line_events(lines).push(d)),
{
    lemma_split_framed(lines, last);
    lemma_split_plain(last);
    assert(lines + seq![last] =~= lines.push(last));
    assert(lines.push(last).drop_last() =~= lines);
}

/// A line whose payload is not JSON does not end the stream: the events are
/// those of the same stream without that line.
pub proof fn lemma_malformed_line_skipped(before: Seq<Seq<u8>>, bad: Seq<u8>, rest: Seq<u8>)
    requires
        single_lines(before),
        !bad.contains(newline()),
        trim(decoded(bad)).len() > 0,
        payload_of(trim(decoded(bad))) != done_marker(),
        parsed_json(payload_of(trim(decoded(bad)))) is None,
    ensures
        stream_events(framed(before.push(bad)) + rest) == stream_events(framed(before) + rest),
        line_events(split_on(framed(before.push(bad)) + rest, newline()).drop_last())
            == line_events(split_on(framed(before) + rest, newline()).drop_last()),
{
    let with_bad = before.push(bad);
    assert(single_lines(with_bad)) by {
        assert forall|i: int| 0 <= i < with_bad.len() implies !(#[trigger] with_bad[i]).contains(
            newline(),
        ) by {
            if i < before.len() {
                assert(with_bad[i] == before[i]);
            }
        }
    }
    lemma_split_framed(with_bad, rest);
    lemma_split_framed(before, rest);
    lemma_split_nonempty(rest, newline());
    let tail = split_on(rest, newline());
    lemma_events_skip(before, bad, tail);
    lemma_events_skip(before, bad, tail.drop_last());
    assert((with_bad + tail).drop_last() =~= with_bad + tail.drop_last());
    assert((before + tail).drop_last() =~= before + tail.drop_last());
}

/// The outcome of reading one complete line.
#[derive(Debug, PartialEq)]
pub enum LineOutcome {
    Skip,
    Stop,
    Event(Json),
}

impl View for LineOutcome {
    type V = LineAction;

    open spec fn view(&self) -> LineAction {
        match self {
            LineOutcome::Skip => LineAction::Skip,
            LineOutcome::Stop => LineAction::Stop,
            LineOutcome::Event(j) => LineAction::Emit(j@),
        }
    }
}

pub(crate) fn usage_name() -> (r: String)
    ensures
        r@ == usage_key(),
{
    let s = String::from_str("usage");
    proof {
        reveal_strlit("usage");
    }
    s
}

pub(crate) fn provider_name() -> (r: String)
    ensures
        r@ == provider_key(),
{
    let s = String::from_str("x_groq");
    proof {
        reveal_strlit("x_groq");
    }
    s
}

/// Whether `chars[from..to]` begins with `data: `.
fn has_data_prefix(chars: &[char], from: usize, to: usize) -> (r: bool)
    requires
        from <= to <= chars@.len(),
    ensures
        r == (to - from >= 6 && chars@.subrange(from as int, from + 6) == data_prefix()),
{
    if to - from < 6 {
        return false;
    }
    let ghost w = chars@.subrange(from as int, from + 6);
    assert(w[0] == chars@[from as int] && w[1] == chars@[from + 1] && w[2] == chars@[from + 2]
        && w[3] == chars@[from + 3] && w[4] == chars@[from + 4] && w[5] == chars@[from + 5]);
    let r = chars[from] == 'd' && chars[from + 1] == 'a' && chars[from + 2] == 't' && chars[from
        + 3] == 'a' && chars[from + 4] == ':' && chars[from + 5] == ' ';
    if r {
        assert(w =~= data_prefix());
    }
    r
}

/// Whether `chars[from..to]` is the end marker `[DONE]`.
fn is_done_marker(chars: &[char], from: usize, to: usize) -> (r: bool)
    requires
        from <= to <= chars@.len(),
    ensures
        r == (chars@.subrange(from as int, to as int) == done_marker()),
{
    let ghost w = chars@.subrange(from as int, to as int);
    if to - from != 6 {
        assert(w.len() != done_marker().len());
        return false;
    }
    assert(w[0] == chars@[from as int] && w[1] == chars@[from + 1] && w[2] == chars@[from + 2]
        && w[3] == chars@[from + 3] && w[4] == chars@[from + 4] && w[5] == chars@[from + 5]);
    let r = chars[from] == '[' && chars[from + 1] == 'D' && chars[from + 2] == 'O' && chars[from
        + 3] == 'N' && chars[from + 4] == 'E' && chars[from + 5] == ']';
    if r {
        assert(w =~= done_marker());
    }
    r
}

/// The text of a line.
fn decode_line(line: &[u8]) -> (r: Vec<char>)
    ensures
        r@ == decoded(line@),
{
    let mut i: usize = 0;
    while i < line.len()
        invariant
            i <= line@.len(),
            forall|k: int| 0 <= k < i ==> #[trigger] line@[k] < 128,
        decreases line@.len() - i,
    {
        if line[i] >= 128 {
            return decode_lossy(line);
        }
        i = i + 1;
    }
    let mut chars: Vec<char> = Vec::new();
    let mut j: usize = 0;
    while j < line.len()
        invariant
            j <= line@.len(),
            chars@ == ascii_chars(line@).subrange(0, j as int),
        decreases line@.len() - j,
    {
        chars.push(line[j] as char);
        assert(chars@ =~= ascii_chars(line@).subrange(0, j + 1));
        j = j + 1;
    }
    assert(chars@ =~= ascii_chars(line@));
    chars
}

/// Reads one complete line (without its newline): decodes it, trims it,
/// takes off a `data: ` prefix, and recognises the end marker or parses the
/// payload.
pub fn classify_line(line: &[u8]) -> (r: LineOutcome)
    ensures
        r@ == line_action(line@),
{
    let text = decode_line(line);
    let chars = text.as_slice();
    let (a, b) = trim_bounds(chars, 0, text.len());
    assert(text@.subrange(0, text@.len() as int) =~= text@);
    let ghost t = text@.subrange(a as int, b as int);
    if a == b {
        return LineOutcome::Skip;
    }
    let prefixed = has_data_prefix(chars, a, b);
    let p: usize = if prefixed {
        a + 6
    } else {
        a
    };
    if b - a >= 6 {
        assert(t.subrange(0, 6) =~= text@.subrange(a as int, a + 6));
        assert(t.subrange(6, t.len() as int) =~= text@.subrange(a + 6, b as int));
    }
    assert(text@.subrange(p as int, b as int) == payload_of(t));
    if is_done_marker(chars, p, b) {
        return LineOutcome::Stop;
    }
    match parse_json_text(&chars[p..b]) {
        Some(doc) => match doc {
            Json::Object(_) => LineOutcome::Event(doc),
            _ => LineOutcome::Skip,
        },
        None => LineOutcome::Skip,
    }
}

/// Rebuilds the events of a streamed response from byte chunks, whatever
/// their boundaries: a line is read once its newline has arrived, and the
/// unterminated remainder when the stream ends.
pub struct StreamReassembler {
    line: Vec<u8>,
    stopped: bool,
    finished: bool,
    usage_event: Option<Json>,
    seen: Ghost<Seq<u8>>,
}

impl StreamReassembler {
    /// The bytes taken in so far.
    pub closed spec fn seen(&self) -> Seq<u8> {
        self.seen@
    }

    /// Whether the stream has ended.
    pub closed spec fn finished(&self) -> bool {
        self.finished
    }

    /// The lines read so far.
    pub open spec fn taken_lines(&self) -> Seq<Seq<u8>> {
        let pieces = split_on(self.seen(), newline());
        if self.finished() {
            pieces
        } else {
            pieces.drop_last()
        }
    }

    /// The events read so far, as upstream sent them.
    pub open spec fn events(&self) -> Seq<JsonV> {
        line_events(self.taken_lines())
    }

    pub closed spec fn wf(&self) -> bool {
        &&& self.stopped == stops(self.taken_lines())
        &&& (!self.finished && !self.stopped) ==> self.line@ == split_on(
            self.seen@,
            newline(),
        ).last()
        &&& match self.usage_event {
            Some(j) => last_usage_event(self.events()) == Some(j@),
            None => last_usage_event(self.events()) is None,
        }
    }

    pub fn new() -> (r: StreamReassembler)
        ensures
            r.wf(),
            r.seen() == Seq::<u8>::empty(),
            !r.finished(),
            r.events() == Seq::<JsonV>::empty(),
    {
        let r = StreamReassembler {
            line: Vec::new(),
            stopped: false,
            finished: false,
            usage_event: None,
            seen: Ghost(Seq::empty()),
        };
        assert(r.taken_lines() =~= Seq::<Seq<u8>>::empty());
        r
    }

    /// Whether the end marker has been read: nothing after it is read.
    pub fn stopped(&self) -> (r: bool)
        requires
            self.wf(),
        ensures
            r == stops(self.taken_lines()),
    {
        self.stopped
    }

    /// The last event read so far that carries a usage report, as upstream
    /// sent it.
    pub fn usage_event(&self) -> (r: Option<&Json>)
        requires
            self.wf(),
        ensures
            match r {
                Some(j) => last_usage_event(self.events()) == Some(j@),
                None => last_usage_event(self.events()) is None,
            },
    {
        match &self.usage_event {
            Some(j) => Some(j),
            None => None,
        }
    }

    /// Takes in an event: keeps it if it reports usage, and hands the
    /// client's copy to `out`.
    fn accept(&mut self, doc: Json, out: &mut Vec<Json>)
        ensures
            final(self).line == old(self).line,
            final(self).stopped == old(self).stopped,
            final(self).finished == old(self).finished,
            final(self).seen == old(self).seen,
            final(out)@.len() == old(out)@.len() + 1,
            final(out)@.subrange(0, old(out)@.len() as int) == old(out)@,
            final(out)@.last()@ == strip_usage(doc@),
            carries_usage(doc@) ==> (final(self).usage_event matches Some(u) && u@ == doc@),
            !carries_usage(doc@) ==> final(self).usage_event == old(self).usage_event,
    {
        let provider = provider_name();
        let usage = usage_name();
        let reports = match doc.get(&provider) {
            Some(x) => x.get(&usage).is_some(),
            None => false,
        };
        if reports {
            self.usage_event = Some(doc.copy());
        }
        let mut client = doc;
        client.remove_member(&usage);
        out.push(client);
        assert(out@.subrange(0, out@.len() - 1) =~= old(out)@);
    }

    /// Reads the line that has just been completed.
    fn close_line(&mut self, out: &mut Vec<Json>)
        requires
            !old(self).stopped,
        ensures
            final(self).finished == old(self).finished,
            final(self).seen == old(self).seen,
            final(self).line@ == Seq::<u8>::empty(),
            final(self).stopped == (line_action(old(self).line@) is Stop),
            match line_action(old(self).line@) {
                LineAction::Emit(d) => {
                    &&& final(out)@.len() == old(out)@.len() + 1
                    &&& final(out)@.subrange(0, old(out)@.len() as int) == old(out)@
                    &&& final(out)@.last()@ == strip_usage(d)
                    &&& carries_usage(d) ==> (final(self).usage_event matches Some(u) && u@ == d)
                    &&& !carries_usage(d) ==> final(self).usage_event == old(self).usage_event
                },
                _ => final(out)@ == old(out)@ && final(self).usage_event == old(self).usage_event,
            },
    {
        match classify_line(self.line.as_slice()) {
            LineOutcome::Skip => {},
            LineOutcome::Stop => {
                self.stopped = true;
            },
            LineOutcome::Event(doc) => {
                self.accept(doc, out);
            },
        }
        self.line = Vec::new();
    }

    /// Takes in one byte of the stream.
    fn take_byte(&mut self, b: u8, out: &mut Vec<Json>)
        requires
            old(self).wf(),
            !old(self).finished(),
        ensures
            final(self).wf(),
            !final(self).finished(),
            final(self).seen() == old(self).seen().push(b),
            final(out)@.len() >= old(out)@.len(),
            final(out)@.subrange(0, old(out)@.len() as int) == old(out)@,
            client_events(final(self).events()) == client_events(old(self).events()) + views(
                final(out)@.subrange(old(out)@.len() as int, final(out)@.len() as int),
            ),
    {
        let ghost s0 = self.seen@;
        let ghost s1 = s0.push(b);
        let ghost pieces0 = split_on(s0, newline());
        let ghost taken0 = pieces0.drop_last();
        let ghost events0 = line_events(taken0);
        let ghost out0 = out@;
        proof {
            lemma_split_nonempty(s0, newline());
            assert(s1.drop_last() =~= s0);
        }
        self.seen = Ghost(s1);
        if b == 10 {
            let ghost taken1 = split_on(s1, newline()).drop_last();
            assert(taken1 =~= taken0.push(pieces0.last()));
            assert(taken1.drop_last() =~= taken0);
            let ghost was_stopped = self.stopped;
            if !self.stopped {
                self.close_line(out);
            }
            assert(split_on(s1, newline()).last() == Seq::<u8>::empty());
            proof {
                let ev1 = line_events(taken1);
                if !was_stopped {
                    match line_action(pieces0.last()) {
                        LineAction::Emit(d) => {
                            assert(ev1 == events0.push(d));
                            assert(ev1.drop_last() =~= events0);
                        },
                        _ => {
                            assert(ev1 == events0);
                        },
                    }
                } else {
                    assert(ev1 == events0);
                }
            }
        } else {
            assert(split_on(s1, newline()).drop_last() =~= taken0);
            if !self.stopped {
                self.line.push(b);
                assert(self.line@ =~= split_on(s1, newline()).last());
            }
        }
        proof {
            let added = out@.subrange(out0.len() as int, out@.len() as int);
            if out@.len() == out0.len() {
                assert(added =~= Seq::<Json>::empty());
                assert(views(added) =~= Seq::<JsonV>::empty());
                assert(client_events(self.events()) =~= client_events(events0) + views(added));
            } else {
                assert(added =~= seq![out@.last()]);
                assert(views(added) =~= seq![out@.last()@]);
                let d = self.events().last();
                assert(self.events() =~= events0.push(d));
                assert(client_events(self.events()) =~= client_events(events0) + views(added));
            }
        }
    }

    /// Takes in a chunk of the stream and returns, in order, the events
    /// that its completed lines carry, as the client sees them. After the
    /// end marker, or once the stream has ended, nothing more is read.
    pub fn feed(&mut self, chunk: &[u8]) -> (r: Vec<Json>)
        requires
            old(self).wf(),
        ensures
            final(self).wf(),
            final(self).finished() == old(self).finished(),
            final(self).seen() == if old(self).finished() {
                old(self).seen()
            } else {
                old(self).seen() + chunk@
            },
            client_events(final(self).events()) == client_events(old(self).events()) + views(r@),
    {
        let mut out: Vec<Json> = Vec::new();
        if self.finished {
            assert(views(out@) =~= Seq::<JsonV>::empty());
            assert(client_events(self.events()) =~= client_events(self.events()) + views(out@));
            return out;
        }
        let ghost seen0 = self.seen();
        let ghost base = client_events(self.events());
        let mut j: usize = 0;
        assert(chunk@.subrange(0, 0) =~= Seq::<u8>::empty());
        assert(seen0 + chunk@.subrange(0, 0) =~= seen0);
        assert(base + views(out@) =~= base);
        while j < chunk.len()
            invariant
                j <= chunk@.len(),
                self.wf(),
                !self.finished(),
                self.seen() == seen0 + chunk@.subrange(0, j as int),
                client_events(self.events()) == base + views(out@),
            decreases chunk@.len() - j,
        {
            let ghost out0 = out@;
            self.take_byte(chunk[j], &mut out);
            proof {
                assert(seen0 + chunk@.subrange(0, j + 1) =~= (seen0 + chunk@.subrange(
                    0,
                    j as int,
                )).push(chunk@[j as int]));
                assert(out@ =~= out0 + out@.subrange(out0.len() as int, out@.len() as int));
                assert(views(out@) =~= views(out0) + views(
                    out@.subrange(out0.len() as int, out@.len() as int),
                ));
            }
            j = j + 1;
        }
        assert(chunk@.subrange(0, chunk@.len() as int) =~= chunk@);
        out
    }

    /// Ends the stream: reads the unterminated last line, unless the end
    /// marker came before, and returns the event it carries, if any, as
    /// the client sees it.
    pub fn finish(&mut self) -> (r: Vec<Json>)
        requires
            old(self).wf(),
        ensures
            final(self).wf(),
            final(self).finished(),
            final(self).seen() == old(self).seen(),
            client_events(final(self).events()) == client_events(old(self).events()) + views(r@),
    {
        let mut out: Vec<Json> = Vec::new();
        assert(views(out@) =~= Seq::<JsonV>::empty());
        if self.finished {
            assert(client_events(self.events()) =~= client_events(self.events()) + views(out@));
            return out;
        }
        let ghost pieces = split_on(self.seen@, newline());
        let ghost events0 = self.events();
        proof {
            lemma_split_nonempty(self.seen@, newline());
            assert(pieces =~= pieces.drop_last().push(pieces.last()));
        }
        let ghost was_stopped = self.stopped;
        if !self.stopped {
            self.close_line(&mut out);
        }
        self.finished = true;
        proof {
            let ev1 = line_events(pieces);
            if !was_stopped {
                match line_action(pieces.last()) {
                    LineAction::Emit(d) => {
                        assert(ev1 == events0.push(d));
                        assert(ev1.drop_last() =~= events0);
                    },
                    _ => {
                        assert(ev1 == events0);
                    },
                }
            } else {
                assert(ev1 == events0);
            }
        }
        proof {
            if out@.len() == 0 {
                assert(client_events(self.events()) =~= client_events(events0) + views(out@));
            } else {
                assert(out@ =~= seq![out@.last()]);
                assert(views(out@) =~= seq![out@.last()@]);
                assert(self.events() =~= events0.push(self.events().last()));
                assert(client_events(self.events()) =~= client_events(events0) + views(out@));
            }
        }
        out
    }
}

} // verus!
