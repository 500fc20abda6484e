use vstd::prelude::*;

use crate::json::{json_str_member, json_string_member, opt_chars};
use crate::search::{
    find_subslice, first_match, lemma_first_match_from, lemma_first_match_unique, occurs_at,
};
use crate::text::{
    char_index, find_char, lines, rskip_ws, skip_ws, string_of, strip_cr, trim, trim_start,
};

verus! {

/// What the chat loop receives from the stream.
#[derive(Debug, PartialEq, Eq)]
pub enum Frame {
    Token(String),
    Error(String),
    Done,
}

/// A frame as the contracts see it.
pub enum FrameView {
    Token(Seq<char>),
    Error(Seq<char>),
    Done,
}

impl View for Frame {
    type V = FrameView;

    open spec fn view(&self) -> FrameView {
        match self {
            Frame::Token(s) => FrameView::Token(s@),
            Frame::Error(s) => FrameView::Error(s@),
            Frame::Done => FrameView::Done,
        }
    }
}

/// After this frame the stream says nothing more.
pub open spec fn is_terminal(f: FrameView) -> bool {
    !(f is Token)
}

/// The views of a sequence of frames.
pub open spec fn frames_view(v: Seq<Frame>) -> Seq<FrameView> {
    v.map_values(|f: Frame| f@)
}

/// The optional view of an optional frame.
pub open spec fn opt_frame_view(o: Option<Frame>) -> Option<FrameView> {
    match o {
        Some(f) => Some(f@),
        None => None,
    }
}

impl Frame {
    /// `Error` and `Done` end the stream.
    pub fn is_terminal(&self) -> (r: bool)
        ensures
            r == is_terminal(self@),
    {
        !matches!(self, Frame::Token(_))
    }
}

/// The field name that starts a data line.
pub open spec fn data_prefix() -> Seq<char> {
    seq!['d', 'a', 't', 'a', ':']
}

/// The payload of an SSE line: the text after `data:` (leading whitespace of
/// the line ignored), trimmed; `None` for other lines and empty payloads.
pub open spec fn data_payload(line: Seq<char>) -> Option<Seq<char>> {
    let t = trim_start(line);
    if t.len() >= 5 && t.take(5) == data_prefix() {
        let d = trim(t.skip(5));
        if d.len() > 0 {
            Some(d)
        } else {
            None
        }
    } else {
        None
    }
}

/// The frame announced by the members of a payload: its string `type`, its
/// string `value` and its string `message`, each when it has one. `chunk`
/// and `token` carry the `value` (no frame without one), `error` carries the
/// `message` or "stream error", `done` ends the turn; any other `type`, or
/// none, gives no frame.
pub open spec fn member_frame(
    ty: Option<Seq<char>>,
    value: Option<Seq<char>>,
    message: Option<Seq<char>>,
) -> Option<FrameView> {
    match ty {
        Some(t) => if t == "chunk"@ || t == "token"@ {
            match value {
                Some(v) => Some(FrameView::Token(v)),
                None => None,
            }
        } else if t == "error"@ {
            match message {
                Some(m) => Some(FrameView::Error(m)),
                None => Some(FrameView::Error("stream error"@)),
            }
        } else if t == "done"@ {
            Some(FrameView::Done)
        } else {
            None
        },
        None => None,
    }
}

/// The frame a JSON payload announces by its `type`, `value` and `message`
/// members.
pub open spec fn payload_frame(d: Seq<char>) -> Option<FrameView> {
    member_frame(
        json_string_member(d, "type"@),
        json_string_member(d, "value"@),
        json_string_member(d, "message"@),
    )
}

/// The frame one line of an SSE block gives, if any.
pub open spec fn line_frame(line: Seq<char>) -> Option<FrameView> {
    match data_payload(line) {
        Some(d) => payload_frame(d),
        None => None,
    }
}

/// The frames of a run of lines, up to and including the first terminal one.
pub open spec fn frames_of_lines(ls: Seq<Seq<char>>) -> Seq<FrameView>
    decreases ls.len(),
{
    if ls.len() == 0 {
        seq![]
    } else {
        match line_frame(ls[0]) {
            None => frames_of_lines(ls.drop_first()),
            Some(f) => if is_terminal(f) {
                seq![f]
            } else {
                seq![f] + frames_of_lines(ls.drop_first())
            },
        }
    }
}

/// The frames of one SSE block, given its text.
pub open spec fn text_frames(text: Seq<char>) -> Seq<FrameView> {
    frames_of_lines(lines(text))
}


/// The frame announced by a payload whose `type`, `value` and `message`
/// members are these.
pub fn frame_of_members(ty: Option<String>, value: Option<String>, message: Option<String>) -> (r:
    Option<Frame>)
    ensures
        opt_frame_view(r) == member_frame(opt_chars(ty), opt_chars(value), opt_chars(message)),
{
    match ty {
        Some(t) => {
            if t == "chunk".to_owned() || t == "token".to_owned() {
                match value {
                    Some(v) => Some(Frame::Token(v)),
                    None => None,
                }
            } else if t == "error".to_owned() {
                match message {
                    Some(m) => Some(Frame::Error(m)),
                    None => Some(Frame::Error("stream error".to_owned())),
                }
            } else if t == "done".to_owned() {
                Some(Frame::Done)
            } else {
                None
            }
        },
        None => None,
    }
}

/// The frame a JSON payload announces.
pub fn payload_frame_of(d: &String) -> (r: Option<Frame>)
    ensures
        opt_frame_view(r) == payload_frame(d@),
{
    let data = d.as_str();
    let ty = json_str_member(data, "type");
    let value = json_str_member(data, "value");
    let message = json_str_member(data, "message");
    frame_of_members(ty, value, message)
}

/// The frame the line `text[from..to]` gives, if any.
pub fn line_frame_of(text: &Vec<char>, from: usize, to: usize) -> (r: Option<Frame>)
    requires
        from <= to <= text@.len(),
    ensures
        opt_frame_view(r) == line_frame(text@.subrange(from as int, to as int)),
{
    let ghost line = text@.subrange(from as int, to as int);
    let s = skip_ws(text, from, to);
    assert(trim_start(line) =~= text@.subrange(s as int, to as int));
    if to - s >= 5 && text[s] == 'd' && text[s + 1] == 'a' && text[s + 2] == 't' && text[s + 3]
        == 'a' && text[s + 4] == ':' {
        let ghost t = trim_start(line);
        assert(t.take(5) =~= data_prefix());
        let d0 = skip_ws(text, s + 5, to);
        let d1 = rskip_ws(text, d0, to);
        assert(t.skip(5) =~= text@.subrange(s + 5, to as int));
        assert(trim_start(t.skip(5)) =~= text@.subrange(d0 as int, to as int));
        assert(trim(t.skip(5)) =~= text@.subrange(d0 as int, d1 as int));
        if d1 > d0 {
            let data = string_of(text, d0, d1);
            payload_frame_of(&data)
        } else {
            None
        }
    } else {
        proof {
            let t = trim_start(line);
            if t.len() >= 5 {
                assert(t.take(5)[0] == text@[s as int]);
                assert(t.take(5)[1] == text@[s + 1]);
                assert(t.take(5)[2] == text@[s + 2]);
                assert(t.take(5)[3] == text@[s + 3]);
                assert(t.take(5)[4] == text@[s + 4]);
                assert(t.take(5) != data_prefix());
            }
        }
        None
    }
}

/// The frames of one SSE block of text: one per announcing data line, up to
/// and including the first `Error` or `Done`.
pub fn text_frames_of(text: &Vec<char>) -> (r: Vec<Frame>)
    ensures
        frames_view(r@) == text_frames(text@),
{
    let n = text.len();
    let mut out: Vec<Frame> = Vec::new();
    let mut p: usize = 0;
    assert(text@.subrange(0, n as int) =~= text@);
    loop
        invariant
            p <= n == text@.len(),
            text_frames(text@) == frames_view(out@) + frames_of_lines(
                lines(text@.subrange(p as int, n as int)),
            ),
        decreases n - p,
    {
        let ghost rest = text@.subrange(p as int, n as int);
        if p == n {
            assert(lines(rest) =~= Seq::<Seq<char>>::empty());
            assert(frames_view(out@) + Seq::<FrameView>::empty() =~= frames_view(out@));
            return out;
        }
        let e = find_char(text, p, n, '\n');
        let lend = if e < n && e > p && text[e - 1] == '\r' {
            e - 1
        } else {
            e
        };
        let ghost line = text@.subrange(p as int, lend as int);
        let ghost tail = text@.subrange(
            if e < n {
                e + 1
            } else {
                n as int
            },
            n as int,
        );
        assert(lines(rest) =~= seq![line] + lines(tail)) by {
            assert(char_index(rest, '\n') == e - p);
            if e < n {
                assert(rest.take(e - p) =~= text@.subrange(p as int, e as int));
                assert(strip_cr(rest.take(e - p)) =~= line);
                assert(rest.skip(e - p + 1) =~= tail);
            } else {
                assert(rest =~= line);
                assert(tail =~= Seq::<char>::empty());
                assert(lines(tail) =~= Seq::<Seq<char>>::empty());
            }
        }
        let lf = line_frame_of(text, p, lend);
        let ghost before = frames_view(out@);
        assert((seq![line] + lines(tail)).drop_first() =~= lines(tail));
        assert((seq![line] + lines(tail))[0] == line);
        match lf {
            Some(f) => {
                let term = f.is_terminal();
                let ghost fv = f@;
                out.push(f);
                assert(frames_view(out@) =~= before.push(fv));
                if term {
                    assert(before + seq![fv] =~= before.push(fv));
                    return out;
                }
                assert(before + (seq![fv] + frames_of_lines(lines(tail))) =~= before.push(fv)
                    + frames_of_lines(lines(tail)));
            },
            None => {},
        }
        if e >= n {
            assert(frames_of_lines(lines(tail)) =~= Seq::<FrameView>::empty());
            assert(frames_view(out@) + Seq::<FrameView>::empty() =~= frames_view(out@));
            return out;
        }
        p = e + 1;
    }
}


/// The text `String::from_utf8_lossy` makes of `bytes`.
pub uninterp spec fn utf8_lossy(bytes: Seq<u8>) -> Seq<char>;

/// Decodes `bytes` with `String::from_utf8_lossy` and collects its
/// characters. The contract names the result and states, as std documents,
/// that valid UTF-8 decodes to its characters; how invalid sequences are
/// replaced is left unsaid.
#[verifier::external_body]
fn decode_utf8_lossy(bytes: &[u8]) -> (r: Vec<char>)
    ensures
        r@ == utf8_lossy(bytes@),
        vstd::utf8::valid_utf8(bytes@) ==> r@ == vstd::utf8::decode_utf8(bytes@),
{
    String::from_utf8_lossy(bytes).chars().collect()
}

/// The blank line that ends an SSE block: two line feeds.
pub open spec fn block_separator() -> Seq<u8> {
    seq![10u8, 10u8]
}

/// The frames of the block of bytes `block`.
pub open spec fn block_frames(block: Seq<u8>) -> Seq<FrameView> {
    text_frames(utf8_lossy(block))
}

/// The frames end the stream.
pub open spec fn ends_terminal(fs: Seq<FrameView>) -> bool {
    fs.len() > 0 && is_terminal(fs.last())
}

/// Decoding of the buffered bytes `buf`: the frames of every complete block
/// (a block ends at the first blank line), in order, up to and including
/// the first terminal frame; the bytes left over; whether a terminal frame
/// was reached.
pub open spec fn drain(buf: Seq<u8>) -> (Seq<FrameView>, Seq<u8>, bool)
    decreases buf.len(),
{
    match first_match(buf, block_separator()) {
        None => (seq![], buf, false),
        Some(i) => {
            proof {
                lemma_first_match_from(buf, block_separator(), 0);
            }
            let fs = block_frames(buf.take(i));
            if ends_terminal(fs) {
                (fs, buf.skip(i + 2), true)
            } else {
                let r = drain(buf.skip(i + 2));
                (fs + r.0, r.1, r.2)
            }
        },
    }
}

/// Incremental decoder of the server-sent event stream: bytes go in as they
/// arrive, frames come out once their block is complete.
pub struct SseDecoder {
    pending: Vec<u8>,
    finished: bool,
}

impl SseDecoder {
    /// The bytes received and not yet decoded.
    pub closed spec fn pending(&self) -> Seq<u8> {
        self.pending@
    }

    /// A terminal frame was given out.
    pub closed spec fn finished(&self) -> bool {
        self.finished
    }

    pub fn new() -> (r: SseDecoder)
        ensures
            r.pending() == Seq::<u8>::empty(),
            !r.finished(),
    {
        SseDecoder { pending: Vec::new(), finished: false }
    }

    /// Whether a terminal frame was given out.
    pub fn is_finished(&self) -> (r: bool)
        ensures
            r == self.finished(),
    {
        self.finished
    }

    /// Takes the next bytes of the stream and gives out the frames of the
    /// blocks they complete. Once a terminal frame is out, nothing more is.
    pub fn feed(&mut self, chunk: &[u8]) -> (frames: Vec<Frame>)
        ensures
            old(self).finished() ==> frames@.len() == 0,
            old(self).finished() ==> final(self).pending() == old(self).pending(),
            old(self).finished() ==> final(self).finished(),
            !old(self).finished() ==> frames_view(frames@) == drain(old(self).pending() + chunk@).0,
            !old(self).finished() ==> final(self).pending() == drain(old(self).pending() + chunk@).1,
            !old(self).finished() ==> final(self).finished() == drain(old(self).pending() + chunk@).2,
    {
        if self.finished {
            return Vec::new();
        }
        let mut i: usize = 0;
        while i < chunk.len()
            invariant
                i <= chunk@.len(),
                self.pending@ == old(self).pending@ + chunk@.take(i as int),
                !self.finished,
            decreases chunk@.len() - i,
        {
            self.pending.push(chunk[i]);
            assert(chunk@.take(i + 1) =~= chunk@.take(i as int).push(chunk@[i as int]));
            i = i + 1;
        }
        assert(chunk@.take(chunk@.len() as int) =~= chunk@);
        let ghost start = self.pending@;
        let sep: Vec<u8> = vec![10u8, 10u8];
        assert(sep@ =~= block_separator());
        let mut out: Vec<Frame> = Vec::new();
        loop
            invariant_except_break
                drain(start) == (
                    frames_view(out@) + drain(self.pending@).0,
                    drain(self.pending@).1,
                    drain(self.pending@).2,
                ),
                !self.finished,
            invariant
                sep@ == block_separator(),
            ensures
                drain(start) == (frames_view(out@), self.pending@, self.finished),
            decreases self.pending@.len(),
        {
            let ghost buf = self.pending@;
            let plen = self.pending.len();
            match find_subslice(self.pending.as_slice(), sep.as_slice()) {
                None => {
                    assert(frames_view(out@) + Seq::<FrameView>::empty() =~= frames_view(out@));
                    break;
                },
                Some(idx) => {
                    let tail = self.pending.split_off(idx + 2);
                    self.pending.truncate(idx);
                    assert(self.pending@ =~= buf.take(idx as int));
                    let text = decode_utf8_lossy(self.pending.as_slice());
                    self.pending = tail;
                    let mut fs = text_frames_of(&text);
                    let ghost before = frames_view(out@);
                    let ghost fsv = frames_view(fs@);
                    let term = fs.len() > 0 && fs[fs.len() - 1].is_terminal();
                    out.append(&mut fs);
                    assert(frames_view(out@) =~= before + fsv);
                    assert(term == ends_terminal(fsv));
                    if term {
                        self.finished = true;
                        break;
                    }
                    assert(before + (fsv + drain(tail@).0) =~= (before + fsv) + drain(tail@).0);
                },
            }
        }
        out
    }

    /// The stream closed: a `Done` is owed unless a terminal frame is out.
    pub fn end_of_stream(&mut self) -> (r: Option<Frame>)
        ensures
            r is Some <==> !old(self).finished(),
            r matches Some(f) ==> f@ == FrameView::Done,
            final(self).finished(),
            final(self).pending() == old(self).pending(),
    {
        if self.finished {
            None
        } else {
            self.finished = true;
            Some(Frame::Done)
        }
    }
}

/// Where the transport cuts the byte stream does not change what is decoded:
/// decoding `x` and then, from what was left over, `more`, gives the frames,
/// the leftover bytes and the end state that decoding `x + more` at once
/// gives. Once `x` alone reaches a terminal frame, `x + more` yields exactly
/// the same frames and also ends.
pub proof fn lemma_drain_split(x: Seq<u8>, more: Seq<u8>)
    ensures
        drain(x).2 ==> drain(x + more).0 == drain(x).0 && drain(x + more).2,
        !drain(x).2 ==> drain(x + more).0 == drain(x).0 + drain(drain(x).1 + more).0,
        !drain(x).2 ==> drain(x + more).1 == drain(drain(x).1 + more).1,
        !drain(x).2 ==> drain(x + more).2 == drain(drain(x).1 + more).2,
    decreases x.len(),
{
    let sep = block_separator();
    lemma_first_match_from(x, sep, 0);
    match first_match(x, sep) {
        None => {
            assert(drain(x).0 + drain(x + more).0 =~= drain(x + more).0);
        },
        Some(i) => {
            let xm = x + more;
            assert(xm.subrange(i, i + 2) =~= x.subrange(i, i + 2));
            assert forall|j: int| 0 <= j < i implies !occurs_at(xm, sep, j) by {
                assert(!occurs_at(x, sep, j));
                assert(xm.subrange(j, j + 2) =~= x.subrange(j, j + 2));
            }
            lemma_first_match_unique(xm, sep, i);
            assert(xm.take(i) =~= x.take(i));
            assert(xm.skip(i + 2) =~= x.skip(i + 2) + more);
            let fs = block_frames(x.take(i));
            if !ends_terminal(fs) {
                lemma_drain_split(x.skip(i + 2), more);
                let r = drain(x.skip(i + 2));
                if !r.2 {
                    assert(fs + (r.0 + drain(r.1 + more).0) =~= (fs + r.0) + drain(
                        r.1 + more,
                    ).0);
                }
            }
        },
    }
}

/// Feeding two pieces one after the other gives the frames, the leftover
/// bytes and the end state of feeding both at once.
pub proof fn lemma_feed_split(pending: Seq<u8>, a: Seq<u8>, b: Seq<u8>)
    ensures
        drain(pending + a).2 ==> drain(pending + (a + b)).0 == drain(pending + a).0,
        drain(pending + a).2 ==> drain(pending + (a + b)).2,
        !drain(pending + a).2 ==> drain(pending + (a + b)).0 == drain(pending + a).0 + drain(
            drain(pending + a).1 + b,
        ).0,
        !drain(pending + a).2 ==> drain(pending + (a + b)).1 == drain(drain(pending + a).1 + b).1,
        !drain(pending + a).2 ==> drain(pending + (a + b)).2 == drain(drain(pending + a).1 + b).2,
{
    assert(pending + (a + b) =~= (pending + a) + b);
    lemma_drain_split(pending + a, b);
}


/// Only the last frame of the run may end the turn.
pub open spec fn ends_at_most_at_last(fs: Seq<FrameView>) -> bool {
    forall|k: int| 0 <= k < fs.len() - 1 ==> !is_terminal(#[trigger] fs[k])
}

proof fn lemma_frames_of_lines_shape(ls: Seq<Seq<char>>)
    ensures
        ends_at_most_at_last(frames_of_lines(ls)),
    decreases ls.len(),
{
    if ls.len() > 0 {
        lemma_frames_of_lines_shape(ls.drop_first());
        let rest = frames_of_lines(ls.drop_first());
        match line_frame(ls[0]) {
            None => {},
            Some(f) => if !is_terminal(f) {
                let fs = seq![f] + rest;
                assert forall|k: int| 0 <= k < fs.len() - 1 implies !is_terminal(#[trigger] fs[k]) by {
                    if k > 0 {
                        assert(fs[k] == rest[k - 1]);
                    }
                }
            },
        }
    }
}

/// A turn ends once: of the frames decoded from a buffer, only the last may
/// be an `Error` or `Done`, and decoding stops exactly when it is one.
pub proof fn lemma_drain_ends_once(buf: Seq<u8>)
    ensures
        ends_at_most_at_last(drain(buf).0),
        drain(buf).2 <==> ends_terminal(drain(buf).0),
    decreases buf.len(),
{
    lemma_first_match_from(buf, block_separator(), 0);
    match first_match(buf, block_separator()) {
        None => {},
        Some(i) => {
            let fs = block_frames(buf.take(i));
            lemma_frames_of_lines_shape(lines(utf8_lossy(buf.take(i))));
            if !ends_terminal(fs) {
                lemma_drain_ends_once(buf.skip(i + 2));
                let r = drain(buf.skip(i + 2));
                let all = fs + r.0;
                assert forall|k: int| 0 <= k < all.len() - 1 implies !is_terminal(#[trigger] all[k]) by {
                    if k < fs.len() {
                        assert(all[k] == fs[k]);
                        if k == fs.len() - 1 {
                            assert(!is_terminal(fs.last()));
                        }
                    } else {
                        assert(all[k] == r.0[k - fs.len()]);
                    }
                }
                if r.0.len() > 0 {
                    assert(all.last() == r.0.last());
                } else {
                    assert(all =~= fs);
                }
            }
        },
    }
}

/// What a decoder holding `pending`, finished or not, hands out when the
/// chunks are fed to it one after another, each as `SseDecoder::feed` takes
/// it: the frames of every call in order, the bytes left pending at the end
/// and whether the stream finished. A finished decoder takes nothing more.
pub open spec fn feed_all(pending: Seq<u8>, finished: bool, chunks: Seq<Seq<u8>>) -> (
    Seq<FrameView>,
    Seq<u8>,
    bool,
)
    decreases chunks.len(),
{
    if chunks.len() == 0 || finished {
        (seq![], pending, finished)
    } else {
        let d = drain(pending + chunks[0]);
        let r = feed_all(d.1, d.2, chunks.drop_first());
        (d.0 + r.0, r.1, r.2)
    }
}

/// However a stream is cut into chunks, feeding the chunks one by one gives
/// the frames and the end state that the whole of it gives at once, and,
/// while no terminal frame has come, the same bytes pending.
pub proof fn lemma_feed_all_cuts(pending: Seq<u8>, chunks: Seq<Seq<u8>>)
    requires
        chunks.len() > 0,
    ensures
        feed_all(pending, false, chunks).0 == drain(pending + chunks.flatten()).0,
        feed_all(pending, false, chunks).2 == drain(pending + chunks.flatten()).2,
        !feed_all(pending, false, chunks).2 ==> feed_all(pending, false, chunks).1 == drain(
            pending + chunks.flatten(),
        ).1,
    decreases chunks.len(),
{
    let c0 = chunks[0];
    let rest = chunks.drop_first();
    let d = drain(pending + c0);
    assert(chunks.flatten() == c0 + rest.flatten());
    assert(pending + chunks.flatten() =~= (pending + c0) + rest.flatten());
    lemma_drain_split(pending + c0, rest.flatten());
    if d.2 {
        assert(feed_all(d.1, d.2, rest) == (Seq::<FrameView>::empty(), d.1, true));
        assert(d.0 + Seq::<FrameView>::empty() =~= d.0);
    } else if rest.len() == 0 {
        assert(rest.flatten() =~= Seq::<u8>::empty());
        assert((pending + c0) + rest.flatten() =~= pending + c0);
        assert(feed_all(d.1, d.2, rest) == (Seq::<FrameView>::empty(), d.1, false));
        assert(d.0 + Seq::<FrameView>::empty() =~= d.0);
    } else {
        lemma_feed_all_cuts(d.1, rest);
    }
}

/// Two ways of cutting the same bytes into chunks give the same frames, the
/// same end state and, while the stream is open, the same pending bytes.
pub proof fn lemma_feed_all_same_bytes(
    pending: Seq<u8>,
    chunks: Seq<Seq<u8>>,
    other: Seq<Seq<u8>>,
)
    requires
        chunks.len() > 0,
        other.len() > 0,
        chunks.flatten() == other.flatten(),
    ensures
        feed_all(pending, false, chunks).0 == feed_all(pending, false, other).0,
        feed_all(pending, false, chunks).2 == feed_all(pending, false, other).2,
        !feed_all(pending, false, chunks).2 ==> feed_all(pending, false, chunks).1 == feed_all(
            pending,
            false,
            other,
        ).1,
{
    lemma_feed_all_cuts(pending, chunks);
    lemma_feed_all_cuts(pending, other);
}

} // verus!
