//! The wire-protocol codec: a tagged message type (`Frame`), its exact
//! byte encoding, and an incremental parser that distinguishes complete,
//! incomplete and malformed input.

use vstd::pervasive::unreached;
use vstd::prelude::*;
use vstd::string::StringExecFns;
use vstd::utf8::*;

verus! {

/// What keeps a buffer from yielding a frame: more bytes are needed, or
/// the bytes already read can never begin a valid encoding.
#[derive(Debug)]
pub enum FrameError {
    Incomplete,
    Other(String),
}

impl FrameError {
    /// A human-readable description of the error.
    pub fn message(&self) -> String {
        match self {
            FrameError::Incomplete => String::from_str("incomplete frame"),
            FrameError::Other(s) => s.clone(),
        }
    }
}

/// Builds the protocol-violation variant of `FrameError`.
fn proto_err(msg: &str) -> (r: FrameError)
    ensures
        r is Other,
{
    FrameError::Other(String::from_str(msg))
}

/// Relies on `String::from_utf8`: returns the bytes as a `String`
/// exactly when they are valid UTF-8, decoded per the UTF-8 model.
#[verifier::external_body]
pub(crate) fn bytes_to_string(b: Vec<u8>) -> (r: Option<String>)
    ensures
        match r {
            Some(s) => valid_utf8(b@) && s@ == decode_utf8(b@),
            None => !valid_utf8(b@),
        },
{
    match String::from_utf8(b) {
        Ok(s) => Some(s),
        Err(_) => None,
    }
}

/// One self-delimiting unit of the wire protocol.
#[derive(Debug, PartialEq)]
pub enum Frame {
    Simple(String),
    Error(String),
    Integer(u64),
    Bulk(Vec<u8>),
    Null,
    Array(Vec<Frame>),
}

/// The mathematical shape of a `Frame`: strings as character sequences,
/// payloads as byte sequences, arrays as sequences of nested models.
pub enum FrameModel {
    Simple(Seq<char>),
    Error(Seq<char>),
    Integer(u64),
    Bulk(Seq<u8>),
    Null,
    Array(Seq<FrameModel>),
}

impl Frame {
    /// The model of this frame.
    pub open spec fn model(self) -> FrameModel
        decreases self,
    {
        match self {
            Frame::Simple(s) => FrameModel::Simple(s@),
            Frame::Error(s) => FrameModel::Error(s@),
            Frame::Integer(n) => FrameModel::Integer(n),
            Frame::Bulk(b) => FrameModel::Bulk(b@),
            Frame::Null => FrameModel::Null,
            Frame::Array(v) => FrameModel::Array(models_from(v@, 0)),
        }
    }
}

/// The models of the frames of `s` from index `i` on.
pub open spec fn models_from(s: Seq<Frame>, i: int) -> Seq<FrameModel>
    decreases s, s.len() - i,
{
    if i < 0 || i >= s.len() {
        Seq::empty()
    } else {
        seq![s[i].model()] + models_from(s, i + 1)
    }
}

/// The byte pair that terminates every line of the protocol.
pub open spec fn crlf() -> Seq<u8> {
    seq![13u8, 10u8]
}

/// The shortest decimal digit string for `n` (no leading zeros).
pub open spec fn dec_bytes(n: nat) -> Seq<u8>
    decreases n,
{
    if n < 10 {
        seq![(48 + n) as u8]
    } else {
        dec_bytes(n / 10).push((48 + n % 10) as u8)
    }
}

/// The exact wire encoding of a frame model.
pub open spec fn frame_bytes(m: FrameModel) -> Seq<u8>
    decreases m, 0int,
{
    match m {
        FrameModel::Simple(s) => seq![43u8] + encode_utf8(s) + crlf(),
        FrameModel::Error(s) => seq![45u8] + encode_utf8(s) + crlf(),
        FrameModel::Integer(n) => seq![58u8] + dec_bytes(n as nat) + crlf(),
        FrameModel::Bulk(b) => seq![36u8] + dec_bytes(b.len()) + crlf() + b + crlf(),
        FrameModel::Null => seq![36u8, 45u8, 49u8, 13u8, 10u8],
        FrameModel::Array(items) => seq![42u8] + dec_bytes(items.len()) + crlf() + frames_bytes(
            items,
            0,
        ),
    }
}

/// The concatenated encodings of the models of `items` from index `i` on.
pub open spec fn frames_bytes(items: Seq<FrameModel>, i: int) -> Seq<u8>
    decreases items, items.len() - i,
{
    if i < 0 || i >= items.len() {
        Seq::empty()
    } else {
        frame_bytes(items[i]) + frames_bytes(items, i + 1)
    }
}

/// True of an ASCII decimal digit byte.
pub open spec fn is_digit(b: u8) -> bool {
    48 <= b <= 57
}

/// True when `s` is entirely decimal digit bytes.
pub open spec fn all_digits(s: Seq<u8>) -> bool {
    forall|i: int| 0 <= i < s.len() ==> is_digit(s[i])
}

/// The numeric value of a digit string, most significant digit first.
pub open spec fn dec_value(s: Seq<u8>) -> nat
    decreases s.len(),
{
    if s.len() == 0 {
        0
    } else {
        (dec_value(s.drop_last()) * 10 + (s.last() - 48)) as nat
    }
}

/// True when `s` is a digit string whose value a `u64` can hold.
pub open spec fn good_decimal(s: Seq<u8>) -> bool {
    s.len() > 0 && all_digits(s) && dec_value(s) <= u64::MAX
}

/// The index of the first CR of a CRLF pair at or after `pos`, if any.
pub open spec fn find_crlf(bytes: Seq<u8>, pos: int) -> Option<int>
    decreases bytes.len() - pos,
{
    if pos < 0 || pos + 1 >= bytes.len() {
        None
    } else if bytes[pos] == 13 && bytes[pos + 1] == 10 {
        Some(pos)
    } else {
        find_crlf(bytes, pos + 1)
    }
}

/// What parsing one frame at a position yields: the frame's model and
/// the position just past it, or a verdict that the bytes so far are a
/// prefix of some encoding (`Incomplete`), or that they can never begin
/// one (`Malformed`).
pub enum ParseStep {
    Complete(FrameModel, int),
    Incomplete,
    Malformed,
}

/// What parsing a run of `n` consecutive frames yields.
pub enum ListStep {
    Complete(Seq<FrameModel>, int),
    Incomplete,
    Malformed,
}

/// Parses one frame of `bytes` starting at `pos`.
pub open spec fn parse_at(bytes: Seq<u8>, pos: int) -> ParseStep
    decreases bytes.len() - pos, 0int,
{
    if pos < 0 || pos >= bytes.len() {
        ParseStep::Incomplete
    } else {
        let tag = bytes[pos];
        if tag == 43 || tag == 45 {
            match find_crlf(bytes, pos + 1) {
                Some(e) => {
                    let content = bytes.subrange(pos + 1, e);
                    if valid_utf8(content) {
                        let s = decode_utf8(content);
                        ParseStep::Complete(
                            if tag == 43 {
                                FrameModel::Simple(s)
                            } else {
                                FrameModel::Error(s)
                            },
                            e + 2,
                        )
                    } else {
                        ParseStep::Malformed
                    }
                },
                None => ParseStep::Incomplete,
            }
        } else if tag == 58 {
            match find_crlf(bytes, pos + 1) {
                Some(e) => {
                    let content = bytes.subrange(pos + 1, e);
                    if good_decimal(content) {
                        ParseStep::Complete(
                            FrameModel::Integer(dec_value(content) as u64),
                            e + 2,
                        )
                    } else {
                        ParseStep::Malformed
                    }
                },
                None => ParseStep::Incomplete,
            }
        } else if tag == 36 {
            if pos + 1 >= bytes.len() {
                ParseStep::Incomplete
            } else if bytes[pos + 1] == 45 {
                match find_crlf(bytes, pos + 1) {
                    Some(e) => if bytes.subrange(pos + 1, e) == seq![45u8, 49u8] {
                        ParseStep::Complete(FrameModel::Null, e + 2)
                    } else {
                        ParseStep::Malformed
                    },
                    None => ParseStep::Incomplete,
                }
            } else {
                match find_crlf(bytes, pos + 1) {
                    Some(e) => {
                        let content = bytes.subrange(pos + 1, e);
                        if good_decimal(content) {
                            let n = dec_value(content);
                            if e + 2 + n + 2 > bytes.len() {
                                ParseStep::Incomplete
                            } else if bytes[e + 2 + n] == 13 && bytes[e + 2 + n + 1] == 10 {
                                ParseStep::Complete(
                                    FrameModel::Bulk(bytes.subrange(e + 2, e + 2 + n)),
                                    e + 2 + n + 2,
                                )
                            } else {
                                ParseStep::Malformed
                            }
                        } else {
                            ParseStep::Malformed
                        }
                    },
                    None => ParseStep::Incomplete,
                }
            }
        } else if tag == 42 {
            match find_crlf(bytes, pos + 1) {
                Some(e) => {
                    let content = bytes.subrange(pos + 1, e);
                    if good_decimal(content) {
                        if pos < e + 2 <= bytes.len() {
                            match parse_list(bytes, e + 2, dec_value(content)) {
                                ListStep::Complete(items, e2) => ParseStep::Complete(
                                    FrameModel::Array(items),
                                    e2,
                                ),
                                ListStep::Incomplete => ParseStep::Incomplete,
                                ListStep::Malformed => ParseStep::Malformed,
                            }
                        } else {
                            ParseStep::Malformed
                        }
                    } else {
                        ParseStep::Malformed
                    }
                },
                None => ParseStep::Incomplete,
            }
        } else {
            ParseStep::Malformed
        }
    }
}

/// Parses `n` consecutive frames of `bytes` starting at `pos`.
pub open spec fn parse_list(bytes: Seq<u8>, pos: int, n: nat) -> ListStep
    decreases bytes.len() - pos, 1 + n,
{
    if n == 0 {
        ListStep::Complete(Seq::empty(), pos)
    } else {
        match parse_at(bytes, pos) {
            ParseStep::Complete(f, p2) => {
                if pos < p2 <= bytes.len() {
                    match parse_list(bytes, p2, (n - 1) as nat) {
                        ListStep::Complete(items, e) => ListStep::Complete(seq![f] + items, e),
                        ListStep::Incomplete => ListStep::Incomplete,
                        ListStep::Malformed => ListStep::Malformed,
                    }
                } else {
                    ListStep::Malformed
                }
            },
            ParseStep::Incomplete => ListStep::Incomplete,
            ParseStep::Malformed => ListStep::Malformed,
        }
    }
}

/// True when no CRLF pair occurs anywhere in `s`.
pub open spec fn no_crlf(s: Seq<u8>) -> bool {
    forall|i: int| 0 <= i < s.len() - 1 ==> !(#[trigger] s[i] == 13 && s[i + 1] == 10)
}

/// A status or error text is well formed when its UTF-8 encoding holds
/// no CRLF pair: the pair would end the line early on the wire.
pub open spec fn text_wf(s: Seq<char>) -> bool {
    no_crlf(encode_utf8(s))
}

/// A frame model the wire can carry: texts hold no CRLF pair, and
/// lengths and counts fit the decimal fields.
pub open spec fn frame_wf(m: FrameModel) -> bool
    decreases m, 0int,
{
    match m {
        FrameModel::Simple(s) => text_wf(s),
        FrameModel::Error(s) => text_wf(s),
        FrameModel::Integer(_) => true,
        FrameModel::Bulk(b) => b.len() <= u64::MAX,
        FrameModel::Null => true,
        FrameModel::Array(items) => items.len() <= u64::MAX && frames_wf(items, 0),
    }
}

/// Well-formedness of the models of `items` from index `i` on.
pub open spec fn frames_wf(items: Seq<FrameModel>, i: int) -> bool
    decreases items, items.len() - i,
{
    if i < 0 || i >= items.len() {
        true
    } else {
        frame_wf(items[i]) && frames_wf(items, i + 1)
    }
}

/// The concatenated encodings of the first `k` models of `items`.
pub open spec fn frames_bytes_upto(items: Seq<FrameModel>, k: int) -> Seq<u8>
    decreases k,
{
    if k <= 0 {
        Seq::empty()
    } else {
        frames_bytes_upto(items, k - 1) + frame_bytes(items[k - 1])
    }
}

/// The encodings of all of `items` split as a done part and a rest.
pub proof fn lemma_frames_bytes_split(items: Seq<FrameModel>, k: int)
    requires
        0 <= k <= items.len(),
    ensures
        frames_bytes(items, 0) == frames_bytes_upto(items, k) + frames_bytes(items, k),
    decreases k,
{
    if k == 0 {
        assert(frames_bytes_upto(items, 0) + frames_bytes(items, 0) =~= frames_bytes(items, 0));
    } else {
        lemma_frames_bytes_split(items, k - 1);
        assert(frames_bytes(items, k - 1) == frame_bytes(items[k - 1]) + frames_bytes(items, k));
        assert(frames_bytes_upto(items, k) + frames_bytes(items, k) =~= frames_bytes_upto(
            items,
            k - 1,
        ) + (frame_bytes(items[k - 1]) + frames_bytes(items, k)));
    }
}

/// Length and element values of `models_from`.
pub proof fn lemma_models_from_props(s: Seq<Frame>, i: int)
    requires
        0 <= i <= s.len(),
    ensures
        models_from(s, i).len() == s.len() - i,
        forall|j: int| i <= j < s.len() ==> models_from(s, i)[j - i] == (#[trigger] s[j]).model(),
    decreases s.len() - i,
{
    if i < s.len() {
        lemma_models_from_props(s, i + 1);
        assert forall|j: int| i <= j < s.len() implies models_from(s, i)[j - i] == (#[trigger] s[
            j
        ]).model() by {
            assert(models_from(s, i) == seq![s[i].model()] + models_from(s, i + 1));
            if j > i {
                assert(models_from(s, i)[j - i] == models_from(s, i + 1)[j - (i + 1)]);
            } else {
                assert((seq![s[i].model()] + models_from(s, i + 1))[0] == s[i].model());
            }
        }
    }
}

/// The models of a run with its first frame removed.
pub proof fn lemma_models_remove_first(s: Seq<Frame>)
    requires
        s.len() > 0,
    ensures
        models_from(s.remove(0), 0) == models_from(s, 0).drop_first(),
{
    lemma_models_from_props(s, 0);
    lemma_models_from_props(s.remove(0), 0);
    assert forall|j: int| 0 <= j < s.len() - 1 implies models_from(s.remove(0), 0)[j]
        == models_from(s, 0).drop_first()[j] by {
        assert(models_from(s.remove(0), 0)[j - 0] == (s.remove(0))[j].model());
        assert(models_from(s, 0)[(j + 1) - 0] == s[j + 1].model());
        assert((s.remove(0))[j] == s[j + 1]);
    }
    assert(models_from(s.remove(0), 0) =~= models_from(s, 0).drop_first());
}

/// The model of a frame appended to a run of frames.
pub proof fn lemma_models_push(s: Seq<Frame>, f: Frame)
    ensures
        models_from(s.push(f), 0) == models_from(s, 0).push(f.model()),
{
    lemma_models_from_props(s, 0);
    lemma_models_from_props(s.push(f), 0);
    assert forall|j: int| 0 <= j < s.len() + 1 implies models_from(s.push(f), 0)[j]
        == models_from(s, 0).push(f.model())[j] by {
        assert(models_from(s.push(f), 0)[j - 0] == (s.push(f))[j].model());
        if j < s.len() {
            assert(models_from(s, 0)[j - 0] == s[j].model());
        }
    }
    assert(models_from(s.push(f), 0) =~= models_from(s, 0).push(f.model()));
}

/// Appends every byte of `b` to `out`.
pub fn push_bytes(out: &mut Vec<u8>, b: &[u8])
    ensures
        final(out)@ == old(out)@ + b@,
{
    let ghost out0 = out@;
    let mut i: usize = 0;
    while i < b.len()
        invariant
            i <= b.len(),
            out@ == out0 + b@.subrange(0, i as int),
        decreases b.len() - i,
    {
        out.push(b[i]);
        i = i + 1;
        assert(out0 + b@.subrange(0, i - 1) + seq![b@[i - 1]] =~= out0 + b@.subrange(0, i as int));
    }
    assert(out0 + b@.subrange(0, b@.len() as int) =~= out0 + b@);
}

/// Appends a CRLF pair to `out`.
pub fn push_crlf(out: &mut Vec<u8>)
    ensures
        final(out)@ == old(out)@ + crlf(),
{
    let ghost out0 = out@;
    out.push(13);
    out.push(10);
    assert(out@ =~= out0 + crlf());
}

/// Appends the decimal digits of `n` to `out`.
pub fn push_decimal(out: &mut Vec<u8>, n: u64)
    ensures
        final(out)@ == old(out)@ + dec_bytes(n as nat),
    decreases n,
{
    let ghost out0 = out@;
    if n < 10 {
        out.push((48 + n) as u8);
        assert(out@ =~= out0 + dec_bytes(n as nat));
    } else {
        push_decimal(out, n / 10);
        out.push((48 + n % 10) as u8);
        assert(out@ =~= out0 + dec_bytes(n as nat));
    }
}

/// The text a frame renders to: texts as themselves, numbers in
/// decimal, UTF-8 payloads decoded and other payloads abbreviated,
/// `Null` as `(nil)`, and arrays joined with spaces.
pub open spec fn rendered(m: FrameModel) -> Seq<char>
    decreases m, 0int,
{
    match m {
        FrameModel::Simple(s) => s,
        FrameModel::Error(s) => "error: "@ + s,
        FrameModel::Integer(n) => decode_utf8(dec_bytes(n as nat)),
        FrameModel::Bulk(b) => if valid_utf8(b) {
            decode_utf8(b)
        } else {
            "(binary)"@
        },
        FrameModel::Null => "(nil)"@,
        FrameModel::Array(items) => rendered_items(items, 0),
    }
}

/// The renderings of `items` from index `i` on, space-separated.
pub open spec fn rendered_items(items: Seq<FrameModel>, i: int) -> Seq<char>
    decreases items, items.len() - i,
{
    if i < 0 || i >= items.len() {
        Seq::empty()
    } else if i == 0 {
        rendered(items[0]) + rendered_items(items, 1)
    } else {
        " "@ + rendered(items[i]) + rendered_items(items, i + 1)
    }
}

/// The renderings of the first `k` of `items`, space-separated.
pub open spec fn rendered_upto(items: Seq<FrameModel>, k: int) -> Seq<char>
    decreases k,
{
    if k <= 0 {
        Seq::empty()
    } else if k == 1 {
        rendered(items[0])
    } else {
        rendered_upto(items, k - 1) + " "@ + rendered(items[k - 1])
    }
}

/// The whole rendering split as a done part and a rest.
proof fn lemma_rendered_split(items: Seq<FrameModel>, k: int)
    requires
        0 <= k <= items.len(),
    ensures
        rendered_items(items, 0) == rendered_upto(items, k) + rendered_items(items, k),
    decreases k,
{
    if k == 0 {
        assert(rendered_upto(items, 0) + rendered_items(items, 0) =~= rendered_items(items, 0));
    } else if k == 1 {
        assert(rendered_items(items, 0) == rendered(items[0]) + rendered_items(items, 1));
        assert(rendered_upto(items, 1) + rendered_items(items, 1) =~= rendered(items[0])
            + rendered_items(items, 1));
    } else {
        lemma_rendered_split(items, k - 1);
        assert(rendered_items(items, k - 1) == " "@ + rendered(items[k - 1]) + rendered_items(
            items,
            k,
        ));
        assert(rendered_upto(items, k) + rendered_items(items, k) =~= rendered_upto(items, k - 1)
            + (" "@ + rendered(items[k - 1]) + rendered_items(items, k)));
    }
}

/// A byte string below 128 everywhere is valid UTF-8.
proof fn lemma_ascii_bytes_valid_utf8(b: Seq<u8>)
    requires
        forall|i: int| 0 <= i < b.len() ==> (#[trigger] b[i]) < 128,
    ensures
        valid_utf8(b),
{
    broadcast use vstd::utf8::encode_utf8_valid_utf8, vstd::utf8::is_ascii_chars_encode_utf8;

    let cs = Seq::new(b.len(), |i: int| b[i] as char);
    assert forall|i: int| 0 <= i < cs.len() implies '\0' <= #[trigger] cs[i] <= '\u{7f}' by {
        assert(b[i] < 128);
    }
    assert(is_ascii_chars(cs));
    assert(encode_utf8(cs) =~= b) by {
        assert forall|i: int| 0 <= i < b.len() implies #[trigger] encode_utf8(cs)[i] == b[i] by {
            assert(encode_utf8(cs)[i] == cs[i] as u8);
        }
    }
    assert(valid_utf8(encode_utf8(cs)));
}

/// Appends the rendering of `f` to `out`.
#[verifier::loop_isolation(false)]
fn render_into(f: &Frame, out: &mut String)
    ensures
        final(out)@ == old(out)@ + rendered(f.model()),
    decreases f,
{
    let ghost out0 = out@;
    match f {
        Frame::Simple(s) => {
            out.append(s.as_str());
            assert(out@ == out0 + rendered(f.model()));
        },
        Frame::Error(s) => {
            out.append("error: ");
            out.append(s.as_str());
            assert(out@ =~= out0 + rendered(f.model()));
        },
        Frame::Integer(n) => {
            let mut digits: Vec<u8> = Vec::new();
            push_decimal(&mut digits, *n);
            proof {
                lemma_dec_bytes_digits(*n as nat);
            }
            match bytes_to_string(digits) {
                Some(s) => {
                    out.append(s.as_str());
                    assert(out@ == out0 + rendered(f.model()));
                },
                None => {
                    proof {
                        lemma_ascii_bytes_valid_utf8(dec_bytes(*n as nat));
                    }
                    assert(false);
                },
            }
        },
        Frame::Bulk(b) => {
            let copy = copy_range(b, 0, b.len());
            proof {
                assert(copy@ =~= b@);
            }
            match bytes_to_string(copy) {
                Some(s) => {
                    out.append(s.as_str());
                    assert(out@ == out0 + rendered(f.model()));
                },
                None => {
                    out.append("(binary)");
                    assert(out@ == out0 + rendered(f.model()));
                },
            }
        },
        Frame::Null => {
            out.append("(nil)");
            assert(out@ == out0 + rendered(f.model()));
        },
        Frame::Array(v) => {
            let ghost items = models_from(v@, 0);
            proof {
                lemma_models_from_props(v@, 0);
                assert forall|j: int| 0 <= j < v@.len() implies #[trigger] items[j] == v@[
                    j
                ].model() by {
                    assert(models_from(v@, 0)[j - 0] == v@[j].model());
                }
            }
            let mut i: usize = 0;
            while i < v.len()
                invariant
                    i <= v.len(),
                    items == models_from(v@, 0),
                    items.len() == v@.len(),
                    forall|j: int| 0 <= j < v@.len() ==> #[trigger] items[j] == v@[j].model(),
                    out@ == out0 + rendered_upto(items, i as int),
                decreases v.len() - i,
            {
                proof {
                    assert(decreases_to!(*f => v@[i as int]));
                }
                if i > 0 {
                    out.append(" ");
                }
                render_into(&v[i], out);
                i = i + 1;
                assert(out@ =~= out0 + rendered_upto(items, i as int));
            }
            proof {
                lemma_rendered_split(items, items.len() as int);
                assert(rendered_items(items, items.len() as int) =~= Seq::<char>::empty());
                assert(rendered_upto(items, items.len() as int) =~= rendered_items(items, 0));
            }
            assert(out@ =~= out0 + rendered(f.model()));
        },
    }
}

/// Appends the exact wire encoding of `f` to `out`.
#[verifier::loop_isolation(false)]
pub fn encode_into(f: &Frame, out: &mut Vec<u8>)
    ensures
        final(out)@ == old(out)@ + frame_bytes(f.model()),
    decreases f,
{
    let ghost out0 = out@;
    match f {
        Frame::Simple(s) => {
            out.push(43);
            push_bytes(out, s.as_str().as_bytes());
            push_crlf(out);
            assert(out@ =~= out0 + frame_bytes(f.model()));
        },
        Frame::Error(s) => {
            out.push(45);
            push_bytes(out, s.as_str().as_bytes());
            push_crlf(out);
            assert(out@ =~= out0 + frame_bytes(f.model()));
        },
        Frame::Integer(n) => {
            out.push(58);
            push_decimal(out, *n);
            push_crlf(out);
            assert(out@ =~= out0 + frame_bytes(f.model()));
        },
        Frame::Bulk(b) => {
            out.push(36);
            push_decimal(out, b.len() as u64);
            push_crlf(out);
            push_bytes(out, b.as_slice());
            push_crlf(out);
            assert(out@ =~= out0 + frame_bytes(f.model()));
        },
        Frame::Null => {
            out.push(36);
            out.push(45);
            out.push(49);
            push_crlf(out);
            assert(out@ =~= out0 + frame_bytes(f.model()));
        },
        Frame::Array(v) => {
            let ghost items = models_from(v@, 0);
            proof {
                lemma_models_from_props(v@, 0);
                assert forall|j: int| 0 <= j < v@.len() implies #[trigger] items[j] == v@[
                    j
                ].model() by {
                    assert(models_from(v@, 0)[j - 0] == v@[j].model());
                }
            }
            out.push(42);
            push_decimal(out, v.len() as u64);
            push_crlf(out);
            let ghost base = out@;
            let mut i: usize = 0;
            while i < v.len()
                invariant
                    i <= v.len(),
                    items == models_from(v@, 0),
                    items.len() == v@.len(),
                    forall|j: int| 0 <= j < v@.len() ==> #[trigger] items[j] == v@[j].model(),
                    base == out0 + seq![42u8] + dec_bytes(v@.len() as nat) + crlf(),
                    out@ == base + frames_bytes_upto(items, i as int),
                decreases v.len() - i,
            {
                proof {
                    assert(*v == f->Array_0);
                    assert(decreases_to!(*f => f->Array_0));
                    assert(decreases_to!(*v => v@));
                    assert(decreases_to!(v@ => v@[i as int]));
                    assert(decreases_to!(*f => v@[i as int]));
                }
                encode_into(&v[i], out);
                i = i + 1;
                assert(out@ =~= base + frames_bytes_upto(items, i as int));
            }
            proof {
                lemma_frames_bytes_split(items, items.len() as int);
                assert(frames_bytes(items, items.len() as int) =~= Seq::<u8>::empty());
                assert(frames_bytes_upto(items, items.len() as int) =~= frames_bytes(items, 0));
            }
            assert(out@ =~= out0 + frame_bytes(f.model()));
        },
    }
}

/// Reads the byte at the cursor and advances past it.
pub fn get_u8(src: &Vec<u8>, pos: &mut usize) -> (r: Result<u8, FrameError>)
    ensures
        match r {
            Ok(b) => *old(pos) < src@.len() && b == src@[*old(pos) as int] && *final(pos) == *old(
                pos) + 1,
            Err(e) => e is Incomplete && *old(pos) >= src@.len() && *final(pos) == *old(pos),
        },
{
    if *pos < src.len() {
        let b = src[*pos];
        *pos = *pos + 1;
        Ok(b)
    } else {
        Err(FrameError::Incomplete)
    }
}

/// Reads the byte at `pos` without advancing.
pub fn peek_u8(src: &Vec<u8>, pos: usize) -> (r: Result<u8, FrameError>)
    ensures
        match r {
            Ok(b) => pos < src@.len() && b == src@[pos as int],
            Err(e) => e is Incomplete && pos >= src@.len(),
        },
{
    if pos < src.len() {
        Ok(src[pos])
    } else {
        Err(FrameError::Incomplete)
    }
}

/// Advances the cursor by `n` bytes if that many remain.
pub fn skip(src: &Vec<u8>, pos: &mut usize, n: usize) -> (r: Result<(), FrameError>)
    requires
        *old(pos) <= src@.len(),
    ensures
        match r {
            Ok(()) => *old(pos) + n <= src@.len() && *final(pos) == *old(pos) + n,
            Err(e) => e is Incomplete && *old(pos) + n > src@.len() && *final(pos) == *old(pos),
        },
{
    if src.len() - *pos < n {
        Err(FrameError::Incomplete)
    } else {
        *pos = *pos + n;
        Ok(())
    }
}

/// Finds the CRLF pair that ends the line beginning at the cursor.
/// Returns the index just past the line's content and leaves the cursor
/// past the pair; without a full pair the buffer is incomplete.
#[verifier::loop_isolation(false)]
pub fn get_line(src: &Vec<u8>, pos: &mut usize) -> (r: Result<usize, FrameError>)
    requires
        *old(pos) <= src@.len(),
    ensures
        match r {
            Ok(e) => find_crlf(src@, *old(pos) as int) == Some(e as int) && *old(pos) <= e && e + 2
                == *final(pos) && *final(pos) <= src@.len(),
            Err(err) => err is Incomplete && find_crlf(src@, *old(pos) as int) is None && *final(
                pos) == *old(pos),
        },
{
    let start = *pos;
    let mut i: usize = start;
    while src.len() >= 2 && i < src.len() - 1
        invariant
            *pos == start,
            start <= i <= src.len(),
            find_crlf(src@, start as int) == find_crlf(src@, i as int),
        decreases src@.len() - i,
    {
        if src[i] == 13 && src[i + 1] == 10 {
            *pos = i + 2;
            return Ok(i);
        }
        i = i + 1;
    }
    Err(FrameError::Incomplete)
}

/// Copies the bytes of `src` in `[from, to)` into a fresh buffer.
pub(crate) fn copy_range(src: &Vec<u8>, from: usize, to: usize) -> (r: Vec<u8>)
    requires
        from <= to <= src@.len(),
    ensures
        r@ == src@.subrange(from as int, to as int),
{
    let mut r: Vec<u8> = Vec::new();
    let mut i: usize = from;
    while i < to
        invariant
            from <= i <= to <= src@.len(),
            r@ == src@.subrange(from as int, i as int),
        decreases to - i,
    {
        r.push(src[i]);
        i = i + 1;
        assert(r@ =~= src@.subrange(from as int, i as int));
    }
    r
}

/// `dec_value` never shrinks when more digits follow.
proof fn lemma_dec_value_prefix_le(s: Seq<u8>, k: int)
    requires
        0 <= k <= s.len(),
        all_digits(s),
    ensures
        dec_value(s.subrange(0, k)) <= dec_value(s),
    decreases s.len(),
{
    if k == s.len() {
        assert(s.subrange(0, k) =~= s);
    } else {
        let t = s.drop_last();
        assert(all_digits(t));
        assert(s.subrange(0, k) =~= t.subrange(0, k));
        lemma_dec_value_prefix_le(t, k);
        assert(dec_value(s) == dec_value(t) * 10 + (s.last() - 48));
    }
}

/// Reads one line and parses it as an unsigned decimal.
#[verifier::loop_isolation(false)]
pub fn get_decimal(src: &Vec<u8>, pos: &mut usize) -> (r: Result<u64, FrameError>)
    requires
        *old(pos) <= src@.len(),
    ensures
        match r {
            Ok(v) => find_crlf(src@, *old(pos) as int) matches Some(e) && good_decimal(
                src@.subrange(*old(pos) as int, e),
            ) && v == dec_value(src@.subrange(*old(pos) as int, e)) && *old(pos) <= e && *final(
                pos) == e + 2 && *final(pos) <= src@.len(),
            Err(err) => match err {
                FrameError::Incomplete => find_crlf(src@, *old(pos) as int) is None,
                FrameError::Other(_) => find_crlf(src@, *old(pos) as int) matches Some(e)
                    && !good_decimal(src@.subrange(*old(pos) as int, e)),
            },
        },
{
    let start = *pos;
    let e = match get_line(src, pos) {
        Ok(e) => e,
        Err(err) => {
            return Err(err);
        },
    };
    let ghost content = src@.subrange(start as int, e as int);
    let mut acc: u64 = 0;
    let mut i: usize = start;
    if i == e {
        return Err(proto_err("protocol error; empty decimal"));
    }
    while i < e
        invariant
            start <= i <= e <= src@.len(),
            content == src@.subrange(start as int, e as int),
            all_digits(content.subrange(0, i - start)),
            acc == dec_value(content.subrange(0, i - start)),
        decreases e - i,
    {
        let b = src[i];
        assert(b == content[i - start]);
        if b < 48 || b > 57 {
            assert(!is_digit(content[i - start]));
            return Err(proto_err("protocol error; invalid decimal"));
        }
        let d = (b - 48) as u64;
        if acc > (u64::MAX - d) / 10 {
            proof {
                let p1 = content.subrange(0, i - start + 1);
                assert(p1.drop_last() =~= content.subrange(0, i - start));
                assert(p1.last() == content[i - start]);
                assert(dec_value(p1) == acc * 10 + d);
                assert(acc * 10 + d > u64::MAX) by (nonlinear_arith)
                    requires
                        acc > (u64::MAX - d) / 10,
                        0 <= d <= 9,
                ;
                if all_digits(content) {
                    lemma_dec_value_prefix_le(content, i - start + 1);
                    assert(dec_value(content) > u64::MAX);
                }
            }
            return Err(proto_err("protocol error; decimal overflow"));
        }
        proof {
            let p1 = content.subrange(0, i - start + 1);
            assert(p1.drop_last() =~= content.subrange(0, i - start));
            assert(p1.last() == content[i - start]);
            assert(acc * 10 + d <= u64::MAX) by (nonlinear_arith)
                requires
                    acc <= (u64::MAX - d) / 10,
                    0 <= d <= 9,
            ;
        }
        acc = acc * 10 + d;
        i = i + 1;
    }
    proof {
        assert(content.subrange(0, e - start) =~= content);
    }
    Ok(acc)
}

/// The digit string of `n` is nonempty, all digits, and reads back as `n`.
pub proof fn lemma_dec_bytes_digits(n: nat)
    ensures
        dec_bytes(n).len() >= 1,
        all_digits(dec_bytes(n)),
        dec_value(dec_bytes(n)) == n,
    decreases n,
{
    if n < 10 {
        let s = dec_bytes(n);
        assert(s.drop_last() =~= Seq::<u8>::empty());
        assert(dec_value(s) == (dec_value(s.drop_last()) * 10 + (s.last() - 48)) as nat);
    } else {
        lemma_dec_bytes_digits(n / 10);
        let x = dec_bytes(n / 10);
        let s = dec_bytes(n);
        assert(s == x.push((48 + n % 10) as u8));
        assert(s.drop_last() =~= x);
        assert(s.last() == (48 + n % 10) as u8);
        assert(dec_value(s) == (dec_value(x) * 10 + (s.last() - 48)) as nat);
        assert(forall|i: int| 0 <= i < s.len() - 1 ==> s[i] == x[i]);
        assert(all_digits(s));
    }
}

/// A CRLF pair at `e`, with none earlier, is the one `find_crlf` finds.
proof fn lemma_find_crlf_at(bytes: Seq<u8>, pos: int, e: int)
    requires
        0 <= pos <= e,
        e + 2 <= bytes.len(),
        bytes[e] == 13,
        bytes[e + 1] == 10,
        forall|i: int| pos <= i < e - 1 ==> !(#[trigger] bytes[i] == 13 && bytes[i + 1] == 10),
    ensures
        find_crlf(bytes, pos) == Some(e),
    decreases e - pos,
{
    if pos == e {
    } else {
        if pos == e - 1 {
            assert(bytes[pos + 1] == 13);
        }
        lemma_find_crlf_at(bytes, pos + 1, e);
    }
}

/// With no CRLF pair anywhere after `pos`, `find_crlf` finds nothing.
proof fn lemma_find_crlf_none(bytes: Seq<u8>, pos: int)
    requires
        forall|i: int| pos <= i < bytes.len() - 1 ==> !(#[trigger] bytes[i] == 13 && bytes[i + 1]
            == 10),
    ensures
        find_crlf(bytes, pos) is None,
    decreases bytes.len() - pos,
{
    if 0 <= pos && pos + 1 < bytes.len() {
        lemma_find_crlf_none(bytes, pos + 1);
    }
}

/// Every encoding is at least three bytes: a tag, then at least a CRLF.
pub proof fn lemma_frame_bytes_len(m: FrameModel)
    ensures
        frame_bytes(m).len() >= 3,
{
    match m {
        FrameModel::Simple(s) => {},
        FrameModel::Error(s) => {},
        FrameModel::Integer(n) => {
            lemma_dec_bytes_digits(n as nat);
        },
        FrameModel::Bulk(b) => {
            lemma_dec_bytes_digits(b.len());
        },
        FrameModel::Null => {},
        FrameModel::Array(items) => {
            lemma_dec_bytes_digits(items.len());
        },
    }
}

/// Parsing at the start of an encoded well-formed frame yields exactly
/// that frame, whatever surrounds the encoding.
pub proof fn lemma_parse_of_encode(bytes: Seq<u8>, pos: int, m: FrameModel)
    requires
        frame_wf(m),
        0 <= pos,
        pos + frame_bytes(m).len() <= bytes.len(),
        bytes.subrange(pos, pos + frame_bytes(m).len() as int) == frame_bytes(m),
    ensures
        parse_at(bytes, pos) == ParseStep::Complete(m, pos + frame_bytes(m).len()),
    decreases m, 0int,
{
    broadcast use vstd::utf8::encode_utf8_valid_utf8, vstd::utf8::encode_utf8_decode_utf8;

    let enc = frame_bytes(m);
    let le = enc.len() as int;
    assert forall|i: int| 0 <= i < le implies bytes[pos + i] == enc[i] by {
        assert(bytes.subrange(pos, pos + le)[i] == bytes[pos + i]);
    }
    match m {
        FrameModel::Simple(s) => {
            lemma_parse_text_line(bytes, pos, encode_utf8(s), 43);
            let eu = encode_utf8(s);
            let e = pos + 1 + eu.len();
            assert(bytes.subrange(pos + 1, e) == eu);
            assert(valid_utf8(eu));
            assert(decode_utf8(eu) == s);
            assert(parse_at(bytes, pos) == ParseStep::Complete(FrameModel::Simple(s), e + 2));
        },
        FrameModel::Error(s) => {
            lemma_parse_text_line(bytes, pos, encode_utf8(s), 45);
            let eu = encode_utf8(s);
            let e = pos + 1 + eu.len();
            assert(bytes.subrange(pos + 1, e) == eu);
            assert(valid_utf8(eu));
            assert(decode_utf8(eu) == s);
            assert(parse_at(bytes, pos) == ParseStep::Complete(FrameModel::Error(s), e + 2));
        },
        FrameModel::Integer(n) => {
            let db = dec_bytes(n as nat);
            lemma_dec_bytes_digits(n as nat);
            assert(bytes[pos + 0] == enc[0]);
            let k = db.len() as int;
            let e = pos + 1 + k;
            assert forall|i: int| pos + 1 <= i < e - 1 implies !(#[trigger] bytes[i] == 13
                && bytes[i + 1] == 10) by {
                assert(bytes[pos + (i - pos)] == enc[i - pos]);
                assert(enc[i - pos] == db[i - pos - 1]);
                assert(is_digit(db[i - pos - 1]));
            }
            assert(bytes[pos + (1 + k)] == enc[1 + k]);
            assert(bytes[pos + (1 + k + 1)] == enc[1 + k + 1]);
            lemma_find_crlf_at(bytes, pos + 1, e);
            assert(bytes.subrange(pos + 1, e) =~= db) by {
                assert forall|i: int| 0 <= i < k implies bytes.subrange(pos + 1, e)[i] == db[
                    i
                ] by {
                    assert(bytes[pos + (i + 1)] == enc[i + 1]);
                }
            }
            assert(parse_at(bytes, pos) == ParseStep::Complete(m, pos + frame_bytes(m).len()));
        },
        FrameModel::Bulk(b) => {
            let db = dec_bytes(b.len());
            lemma_dec_bytes_digits(b.len());
            assert(bytes[pos + 0] == enc[0]);
            let k = db.len() as int;
            let e = pos + 1 + k;
            assert(bytes[pos + 1] == enc[1]);
            assert(enc[1] == db[0]);
            assert(is_digit(db[0]));
            assert forall|i: int| pos + 1 <= i < e - 1 implies !(#[trigger] bytes[i] == 13
                && bytes[i + 1] == 10) by {
                assert(bytes[pos + (i - pos)] == enc[i - pos]);
                assert(enc[i - pos] == db[i - pos - 1]);
                assert(is_digit(db[i - pos - 1]));
            }
            assert(bytes[pos + (1 + k)] == enc[1 + k]);
            assert(bytes[pos + (1 + k + 1)] == enc[1 + k + 1]);
            lemma_find_crlf_at(bytes, pos + 1, e);
            assert(bytes.subrange(pos + 1, e) =~= db) by {
                assert forall|i: int| 0 <= i < k implies bytes.subrange(pos + 1, e)[i] == db[
                    i
                ] by {
                    assert(bytes[pos + (i + 1)] == enc[i + 1]);
                }
            }
            let n = b.len() as int;
            assert(bytes[pos + (1 + k + 2 + n)] == enc[1 + k + 2 + n]);
            assert(bytes[pos + (1 + k + 2 + n + 1)] == enc[1 + k + 2 + n + 1]);
            assert(enc[1 + k + 2 + n] == 13);
            assert(enc[1 + k + 2 + n + 1] == 10);
            assert(bytes[e + 2 + n] == 13);
            assert(bytes[e + 2 + n + 1] == 10);
            assert(bytes.subrange(e + 2, e + 2 + n) =~= b) by {
                assert forall|i: int| 0 <= i < n implies bytes.subrange(e + 2, e + 2 + n)[i] == b[
                    i
                ] by {
                    assert(bytes[pos + (1 + k + 2 + i)] == enc[1 + k + 2 + i]);
                    assert(enc[1 + k + 2 + i] == b[i]);
                }
            }
            assert(parse_at(bytes, pos) == ParseStep::Complete(m, pos + frame_bytes(m).len()));
        },
        FrameModel::Null => {
            assert(bytes[pos + 0] == enc[0]);
            assert(bytes[pos + 1] == enc[1]);
            assert(bytes[pos + 2] == enc[2]);
            assert(bytes[pos + 3] == enc[3]);
            assert(bytes[pos + 4] == enc[4]);
            let e = pos + 3;
            assert forall|i: int| pos + 1 <= i < e - 1 implies !(#[trigger] bytes[i] == 13
                && bytes[i + 1] == 10) by {
                assert(bytes[pos + 1] == 45);
            }
            lemma_find_crlf_at(bytes, pos + 1, e);
            assert(bytes.subrange(pos + 1, e) =~= seq![45u8, 49u8]);
            assert(parse_at(bytes, pos) == ParseStep::Complete(m, pos + frame_bytes(m).len()));
        },
        FrameModel::Array(items) => {
            let db = dec_bytes(items.len());
            lemma_dec_bytes_digits(items.len());
            assert(bytes[pos + 0] == enc[0]);
            let k = db.len() as int;
            let e = pos + 1 + k;
            assert forall|i: int| pos + 1 <= i < e - 1 implies !(#[trigger] bytes[i] == 13
                && bytes[i + 1] == 10) by {
                assert(bytes[pos + (i - pos)] == enc[i - pos]);
                assert(enc[i - pos] == db[i - pos - 1]);
                assert(is_digit(db[i - pos - 1]));
            }
            assert(bytes[pos + (1 + k)] == enc[1 + k]);
            assert(bytes[pos + (1 + k + 1)] == enc[1 + k + 1]);
            lemma_find_crlf_at(bytes, pos + 1, e);
            assert(bytes.subrange(pos + 1, e) =~= db) by {
                assert forall|i: int| 0 <= i < k implies bytes.subrange(pos + 1, e)[i] == db[
                    i
                ] by {
                    assert(bytes[pos + (i + 1)] == enc[i + 1]);
                }
            }
            let fb = frames_bytes(items, 0);
            assert(bytes.subrange(e + 2, e + 2 + fb.len() as int) =~= fb) by {
                assert forall|i: int| 0 <= i < fb.len() implies bytes.subrange(
                    e + 2,
                    e + 2 + fb.len() as int,
                )[i] == fb[i] by {
                    assert(bytes[pos + (1 + k + 2 + i)] == enc[1 + k + 2 + i]);
                    assert(enc[1 + k + 2 + i] == fb[i]);
                }
            }
            lemma_parse_list_of_encodings(bytes, e + 2, items, 0);
            assert(items.subrange(0, items.len() as int) =~= items);
            assert(parse_at(bytes, pos) == ParseStep::Complete(m, pos + frame_bytes(m).len()));
        },
    }
}

/// Shared argument for the `+` and `-` lines: the encoded text decodes
/// back and the line ends at the encoding's own CRLF.
proof fn lemma_parse_text_line(bytes: Seq<u8>, pos: int, eu: Seq<u8>, tag: u8)
    requires
        no_crlf(eu),
        0 <= pos,
        tag == 43 || tag == 45,
        pos + 1 + eu.len() + 2 <= bytes.len(),
        bytes.subrange(pos, pos + 1 + eu.len() + 2) == seq![tag] + eu + crlf(),
    ensures
        find_crlf(bytes, pos + 1) == Some(pos + 1 + eu.len()),
        bytes.subrange(pos + 1, pos + 1 + eu.len() as int) == eu,
        bytes[pos] == tag,
{
    let enc = seq![tag] + eu + crlf();
    let k = eu.len() as int;
    let le = 1 + k + 2;
    assert forall|i: int| 0 <= i < le implies bytes[pos + i] == enc[i] by {
        assert(bytes.subrange(pos, pos + le)[i] == bytes[pos + i]);
    }
    assert(bytes[pos + 0] == enc[0]);
    let e = pos + 1 + k;
    assert forall|i: int| pos + 1 <= i < e - 1 implies !(#[trigger] bytes[i] == 13 && bytes[i + 1]
        == 10) by {
        assert(bytes[pos + (i - pos)] == enc[i - pos]);
        assert(bytes[pos + (i - pos + 1)] == enc[i - pos + 1]);
        assert(enc[i - pos] == eu[i - pos - 1]);
        assert(enc[i - pos + 1] == eu[(i - pos - 1) + 1]);
        assert(!(eu[i - pos - 1] == 13 && eu[(i - pos - 1) + 1] == 10));
    }
    assert(bytes[pos + (1 + k)] == enc[1 + k]);
    assert(bytes[pos + (1 + k + 1)] == enc[1 + k + 1]);
    assert(enc[1 + k] == 13);
    assert(enc[1 + k + 1] == 10);
    lemma_find_crlf_at(bytes, pos + 1, e);
    assert(bytes.subrange(pos + 1, e) =~= eu) by {
        assert forall|i: int| 0 <= i < k implies bytes.subrange(pos + 1, e)[i] == eu[i] by {
            assert(bytes[pos + (i + 1)] == enc[i + 1]);
            assert(enc[i + 1] == eu[i]);
        }
    }
}

/// Parsing at a run of encoded well-formed frames yields exactly those
/// frames, one after the other.
pub proof fn lemma_parse_list_of_encodings(
    bytes: Seq<u8>,
    pos: int,
    items: Seq<FrameModel>,
    j: int,
)
    requires
        0 <= j <= items.len(),
        frames_wf(items, j),
        0 <= pos,
        pos + frames_bytes(items, j).len() <= bytes.len(),
        bytes.subrange(pos, pos + frames_bytes(items, j).len() as int) == frames_bytes(items, j),
    ensures
        parse_list(bytes, pos, (items.len() - j) as nat) == ListStep::Complete(
            items.subrange(j, items.len() as int),
            pos + frames_bytes(items, j).len(),
        ),
    decreases items, items.len() - j,
{
    let whole = frames_bytes(items, j);
    let lw = whole.len() as int;
    assert forall|i: int| 0 <= i < lw implies bytes[pos + i] == whole[i] by {
        assert(bytes.subrange(pos, pos + lw)[i] == bytes[pos + i]);
    }
    if j == items.len() {
        assert(items.subrange(j, items.len() as int) =~= Seq::<FrameModel>::empty());
    } else {
        let fb = frame_bytes(items[j]);
        let rest = frames_bytes(items, j + 1);
        assert(whole == fb + rest);
        assert(bytes.subrange(pos, pos + fb.len() as int) =~= fb) by {
            assert forall|i: int| 0 <= i < fb.len() implies bytes.subrange(
                pos,
                pos + fb.len() as int,
            )[i] == fb[i] by {
                assert(bytes[pos + i] == whole[i]);
            }
        }
        lemma_parse_of_encode(bytes, pos, items[j]);
        lemma_frame_bytes_len(items[j]);
        let p2 = pos + fb.len() as int;
        assert(bytes.subrange(p2, p2 + rest.len() as int) =~= rest) by {
            assert forall|i: int| 0 <= i < rest.len() implies bytes.subrange(
                p2,
                p2 + rest.len() as int,
            )[i] == rest[i] by {
                assert(bytes[pos + (fb.len() + i)] == whole[fb.len() + i]);
            }
        }
        lemma_parse_list_of_encodings(bytes, p2, items, j + 1);
        assert(seq![items[j]] + items.subrange(j + 1, items.len() as int) =~= items.subrange(
            j,
            items.len() as int,
        ));
    }
}

/// Parsing where the buffer holds only a proper prefix of an encoded
/// well-formed frame reports `Incomplete`, never `Malformed`.
pub proof fn lemma_prefix_incomplete(bytes: Seq<u8>, pos: int, m: FrameModel)
    requires
        frame_wf(m),
        0 <= pos <= bytes.len(),
        bytes.len() - pos < frame_bytes(m).len(),
        bytes.subrange(pos, bytes.len() as int) == frame_bytes(m).subrange(
            0,
            bytes.len() - pos,
        ),
    ensures
        parse_at(bytes, pos) == ParseStep::Incomplete,
    decreases m, 0int,
{
    let enc = frame_bytes(m);
    let le = enc.len() as int;
    let rem = bytes.len() - pos;
    assert forall|i: int| 0 <= i < rem implies bytes[pos + i] == enc[i] by {
        assert(bytes.subrange(pos, bytes.len() as int)[i] == bytes[pos + i]);
        assert(enc.subrange(0, rem)[i] == enc[i]);
    }
    if rem == 0 {
    } else {
        assert(bytes[pos + 0] == enc[0]);
        match m {
            FrameModel::Simple(s) => {
                lemma_prefix_text_line(bytes, pos, encode_utf8(s), 43);
            },
            FrameModel::Error(s) => {
                lemma_prefix_text_line(bytes, pos, encode_utf8(s), 45);
            },
            FrameModel::Integer(n) => {
                let db = dec_bytes(n as nat);
                lemma_dec_bytes_digits(n as nat);
                let k = db.len() as int;
                lemma_prefix_header_no_crlf(bytes, pos, db, enc, rem);
                lemma_find_crlf_none(bytes, pos + 1);
            },
            FrameModel::Bulk(b) => {
                let db = dec_bytes(b.len());
                lemma_dec_bytes_digits(b.len());
                let k = db.len() as int;
                if rem >= 2 {
                    assert(bytes[pos + 1] == enc[1]);
                    assert(enc[1] == db[0]);
                    assert(is_digit(db[0]));
                }
                if rem < 1 + k + 2 {
                    lemma_prefix_header_no_crlf(bytes, pos, db, enc, rem);
                    lemma_find_crlf_none(bytes, pos + 1);
                } else {
                    let e = pos + 1 + k;
                    assert forall|i: int| pos + 1 <= i < e - 1 implies !(#[trigger] bytes[i] == 13
                        && bytes[i + 1] == 10) by {
                        assert(bytes[pos + (i - pos)] == enc[i - pos]);
                        assert(enc[i - pos] == db[i - pos - 1]);
                        assert(is_digit(db[i - pos - 1]));
                    }
                    assert(bytes[pos + (1 + k)] == enc[1 + k]);
                    assert(bytes[pos + (1 + k + 1)] == enc[1 + k + 1]);
                    lemma_find_crlf_at(bytes, pos + 1, e);
                    assert(bytes.subrange(pos + 1, e) =~= db) by {
                        assert forall|i: int| 0 <= i < k implies bytes.subrange(pos + 1, e)[i]
                            == db[i] by {
                            assert(bytes[pos + (i + 1)] == enc[i + 1]);
                        }
                    }
                    assert(e + 2 + b.len() + 2 == pos + le);
                }
            },
            FrameModel::Null => {
                if rem >= 2 {
                    assert(bytes[pos + 1] == enc[1]);
                    assert forall|i: int| pos + 1 <= i < bytes.len() - 1 implies !(
                    #[trigger] bytes[i] == 13 && bytes[i + 1] == 10) by {
                        let j = i - pos;
                        assert(bytes[pos + j] == enc[j]);
                        assert(bytes[pos + (j + 1)] == enc[j + 1]);
                    }
                    lemma_find_crlf_none(bytes, pos + 1);
                }
            },
            FrameModel::Array(items) => {
                let db = dec_bytes(items.len());
                lemma_dec_bytes_digits(items.len());
                let k = db.len() as int;
                if rem < 1 + k + 2 {
                    lemma_prefix_header_no_crlf(bytes, pos, db, enc, rem);
                    lemma_find_crlf_none(bytes, pos + 1);
                } else {
                    let e = pos + 1 + k;
                    assert forall|i: int| pos + 1 <= i < e - 1 implies !(#[trigger] bytes[i] == 13
                        && bytes[i + 1] == 10) by {
                        assert(bytes[pos + (i - pos)] == enc[i - pos]);
                        assert(enc[i - pos] == db[i - pos - 1]);
                        assert(is_digit(db[i - pos - 1]));
                    }
                    assert(bytes[pos + (1 + k)] == enc[1 + k]);
                    assert(bytes[pos + (1 + k + 1)] == enc[1 + k + 1]);
                    lemma_find_crlf_at(bytes, pos + 1, e);
                    assert(bytes.subrange(pos + 1, e) =~= db) by {
                        assert forall|i: int| 0 <= i < k implies bytes.subrange(pos + 1, e)[i]
                            == db[i] by {
                            assert(bytes[pos + (i + 1)] == enc[i + 1]);
                        }
                    }
                    let fb = frames_bytes(items, 0);
                    assert(bytes.subrange(e + 2, bytes.len() as int) =~= fb.subrange(
                        0,
                        bytes.len() - (e + 2),
                    )) by {
                        assert forall|i: int| 0 <= i < bytes.len() - (e + 2) implies #[trigger] (
                        bytes.subrange(e + 2, bytes.len() as int)[i]) == fb.subrange(
                            0,
                            bytes.len() - (e + 2),
                        )[i] by {
                            assert(bytes[pos + (1 + k + 2 + i)] == enc[1 + k + 2 + i]);
                            assert(enc[1 + k + 2 + i] == fb[i]);
                        }
                    }
                    lemma_list_prefix_incomplete(bytes, e + 2, items, 0);
                }
            },
        }
    }
}

/// A truncated `+` or `-` line never shows a CRLF pair.
proof fn lemma_prefix_text_line(bytes: Seq<u8>, pos: int, eu: Seq<u8>, tag: u8)
    requires
        no_crlf(eu),
        0 <= pos < bytes.len(),
        bytes.len() - pos < 1 + eu.len() + 2,
        bytes.subrange(pos, bytes.len() as int) == (seq![tag] + eu + crlf()).subrange(
            0,
            bytes.len() - pos,
        ),
    ensures
        find_crlf(bytes, pos + 1) is None,
{
    let enc = seq![tag] + eu + crlf();
    let k = eu.len() as int;
    let rem = bytes.len() - pos;
    assert forall|i: int| 0 <= i < rem implies bytes[pos + i] == enc[i] by {
        assert(bytes.subrange(pos, bytes.len() as int)[i] == bytes[pos + i]);
        assert(enc.subrange(0, rem)[i] == enc[i]);
    }
    assert forall|i: int| pos + 1 <= i < bytes.len() - 1 implies !(#[trigger] bytes[i] == 13
        && bytes[i + 1] == 10) by {
        let j = i - pos;
        assert(bytes[pos + j] == enc[j]);
        assert(bytes[pos + (j + 1)] == enc[j + 1]);
        if j == 1 + k {
            assert(j + 1 < rem);
            assert(rem < 3 + k);
        } else if 1 <= j && j + 1 <= k {
            assert(enc[j] == eu[j - 1]);
            assert(enc[j + 1] == eu[(j - 1) + 1]);
            assert(!(eu[j - 1] == 13 && eu[(j - 1) + 1] == 10));
        } else if j == k && k >= 1 {
            assert(enc[j + 1] == 13);
        }
    }
    lemma_find_crlf_none(bytes, pos + 1);
}

/// A truncated decimal header line never shows a CRLF pair.
proof fn lemma_prefix_header_no_crlf(bytes: Seq<u8>, pos: int, db: Seq<u8>, enc: Seq<u8>, rem: int)
    requires
        all_digits(db),
        0 <= pos < bytes.len(),
        rem == bytes.len() - pos,
        rem < 1 + db.len() + 2,
        enc.len() >= 1 + db.len() + 2,
        forall|i: int| 0 <= i < rem ==> bytes[pos + i] == enc[i],
        forall|i: int| 0 <= i < db.len() ==> enc[1 + i] == db[i],
        enc[1 + db.len() as int] == 13,
    ensures
        forall|i: int| pos + 1 <= i < bytes.len() - 1 ==> !(#[trigger] bytes[i] == 13 && bytes[i
            + 1] == 10),
        find_crlf(bytes, pos + 1) is None,
{
    let k = db.len() as int;
    assert forall|i: int| pos + 1 <= i < bytes.len() - 1 implies !(#[trigger] bytes[i] == 13
        && bytes[i + 1] == 10) by {
        let j = i - pos;
        assert(bytes[pos + j] == enc[j]);
        assert(bytes[pos + (j + 1)] == enc[j + 1]);
        if 1 <= j && j <= k {
            assert(enc[j] == db[j - 1]);
            assert(is_digit(db[j - 1]));
        } else if j == 1 + k {
            assert(j + 1 < rem);
            assert(rem < 3 + k);
        }
    }
    lemma_find_crlf_none(bytes, pos + 1);
}

/// Parsing a run whose buffer holds only a proper prefix of the run's
/// encodings reports `Incomplete`.
pub proof fn lemma_list_prefix_incomplete(
    bytes: Seq<u8>,
    pos: int,
    items: Seq<FrameModel>,
    j: int,
)
    requires
        0 <= j <= items.len(),
        frames_wf(items, j),
        0 <= pos <= bytes.len(),
        bytes.len() - pos < frames_bytes(items, j).len(),
        bytes.subrange(pos, bytes.len() as int) == frames_bytes(items, j).subrange(
            0,
            bytes.len() - pos,
        ),
    ensures
        parse_list(bytes, pos, (items.len() - j) as nat) == ListStep::Incomplete,
    decreases items, items.len() - j,
{
    let whole = frames_bytes(items, j);
    let rem = bytes.len() - pos;
    assert forall|i: int| 0 <= i < rem implies bytes[pos + i] == whole[i] by {
        assert(bytes.subrange(pos, bytes.len() as int)[i] == bytes[pos + i]);
        assert(whole.subrange(0, rem)[i] == whole[i]);
    }
    assert(j < items.len());
    let fb = frame_bytes(items[j]);
    let rest = frames_bytes(items, j + 1);
    assert(whole == fb + rest);
    lemma_frame_bytes_len(items[j]);
    if rem < fb.len() {
        assert(bytes.subrange(pos, bytes.len() as int) =~= fb.subrange(0, rem)) by {
            assert forall|i: int| 0 <= i < rem implies bytes.subrange(pos, bytes.len() as int)[i]
                == fb.subrange(0, rem)[i] by {
                assert(bytes[pos + i] == whole[i]);
            }
        }
        lemma_prefix_incomplete(bytes, pos, items[j]);
    } else {
        assert(bytes.subrange(pos, pos + fb.len() as int) =~= fb) by {
            assert forall|i: int| 0 <= i < fb.len() implies bytes.subrange(
                pos,
                pos + fb.len() as int,
            )[i] == fb[i] by {
                assert(bytes[pos + i] == whole[i]);
            }
        }
        lemma_parse_of_encode(bytes, pos, items[j]);
        let p2 = pos + fb.len() as int;
        assert(bytes.subrange(p2, bytes.len() as int) =~= rest.subrange(0, bytes.len() - p2)) by {
            assert forall|i: int| 0 <= i < bytes.len() - p2 implies bytes.subrange(
                p2,
                bytes.len() as int,
            )[i] == rest.subrange(0, bytes.len() - p2)[i] by {
                assert(bytes[pos + (fb.len() + i)] == whole[fb.len() + i]);
            }
        }
        lemma_list_prefix_incomplete(bytes, p2, items, j + 1);
    }
}

/// Round trip: parsing the encoding of any well-formed frame model
/// yields that model back, consuming the whole encoding.
pub proof fn lemma_round_trip(m: FrameModel)
    requires
        frame_wf(m),
    ensures
        parse_at(frame_bytes(m), 0) == ParseStep::Complete(m, frame_bytes(m).len() as int),
{
    let enc = frame_bytes(m);
    assert(enc.subrange(0, enc.len() as int) =~= enc);
    lemma_parse_of_encode(enc, 0, m);
}

/// Truncating a valid encoding anywhere short of its end parses as
/// `Incomplete`, never `Malformed`.
pub proof fn lemma_incomplete_on_truncation(m: FrameModel, k: int)
    requires
        frame_wf(m),
        0 <= k < frame_bytes(m).len(),
    ensures
        parse_at(frame_bytes(m).subrange(0, k), 0) == ParseStep::Incomplete,
{
    let enc = frame_bytes(m);
    let cut = enc.subrange(0, k);
    assert(cut.subrange(0, k) =~= cut);
    lemma_prefix_incomplete(cut, 0, m);
}

/// While a run of frames is consumed one by one, the whole run's
/// outcome is the already-consumed models `done` joined with whatever
/// parsing the remaining `rem` frames from `cur` yields.
pub open spec fn list_resumes(
    bytes: Seq<u8>,
    p0: int,
    n: nat,
    done: Seq<FrameModel>,
    cur: int,
    rem: nat,
) -> bool {
    parse_list(bytes, p0, n) == (match parse_list(bytes, cur, rem) {
        ListStep::Complete(items, e) => ListStep::Complete(done + items, e),
        ListStep::Incomplete => ListStep::Incomplete,
        ListStep::Malformed => ListStep::Malformed,
    })
}

/// A run resumes trivially at its own start.
proof fn lemma_list_init(bytes: Seq<u8>, p0: int, n: nat)
    ensures
        list_resumes(bytes, p0, n, Seq::empty(), p0, n),
{
    match parse_list(bytes, p0, n) {
        ListStep::Complete(items, e) => {
            assert(Seq::<FrameModel>::empty() + items =~= items);
        },
        _ => {},
    }
}

/// Consuming one complete frame keeps the run's resumption.
proof fn lemma_list_step(
    bytes: Seq<u8>,
    p0: int,
    n: nat,
    done: Seq<FrameModel>,
    cur: int,
    rem: nat,
)
    requires
        list_resumes(bytes, p0, n, done, cur, rem),
        rem > 0,
        parse_at(bytes, cur) is Complete,
        cur < parse_at(bytes, cur)->Complete_1 <= bytes.len(),
    ensures
        list_resumes(
            bytes,
            p0,
            n,
            done.push(parse_at(bytes, cur)->Complete_0),
            parse_at(bytes, cur)->Complete_1,
            (rem - 1) as nat,
        ),
{
    let f = parse_at(bytes, cur)->Complete_0;
    let p2 = parse_at(bytes, cur)->Complete_1;
    match parse_list(bytes, p2, (rem - 1) as nat) {
        ListStep::Complete(items, e) => {
            assert(done + (seq![f] + items) =~= done.push(f) + items);
        },
        _ => {},
    }
}

/// A run with nothing left to consume is complete at the cursor.
proof fn lemma_list_done(bytes: Seq<u8>, p0: int, n: nat, done: Seq<FrameModel>, cur: int)
    requires
        list_resumes(bytes, p0, n, done, cur, 0),
    ensures
        parse_list(bytes, p0, n) == ListStep::Complete(done, cur),
{
    assert(done + Seq::<FrameModel>::empty() =~= done);
}

impl Frame {
    /// Scans one frame at the cursor without building it: reports where
    /// it ends, that more bytes are needed, or that the bytes are not a
    /// valid encoding.
    #[verifier::loop_isolation(false)]
    pub fn check(src: &Vec<u8>, pos: &mut usize) -> (r: Result<(), FrameError>)
        requires
            *old(pos) <= src@.len(),
        ensures
            match r {
                Ok(()) => parse_at(src@, *old(pos) as int) matches ParseStep::Complete(m, p) && p
                    == *final(pos) as int && *old(pos) < *final(pos) <= src@.len(),
                Err(err) => match err {
                    FrameError::Incomplete => parse_at(src@, *old(pos) as int) is Incomplete,
                    FrameError::Other(_) => parse_at(src@, *old(pos) as int) is Malformed,
                },
            },
        decreases src@.len() - *old(pos),
    {
        let start = *pos;
        let tag = match get_u8(src, pos) {
            Ok(b) => b,
            Err(err) => {
                return Err(err);
            },
        };
        if tag == 43 || tag == 45 {
            let e = match get_line(src, pos) {
                Ok(e) => e,
                Err(err) => {
                    return Err(err);
                },
            };
            let content = copy_range(src, start + 1, e);
            match bytes_to_string(content) {
                Some(_) => Ok(()),
                None => Err(proto_err("protocol error; invalid string data")),
            }
        } else if tag == 58 {
            match get_decimal(src, pos) {
                Ok(_) => Ok(()),
                Err(err) => Err(err),
            }
        } else if tag == 36 {
            let b = match peek_u8(src, *pos) {
                Ok(b) => b,
                Err(err) => {
                    return Err(err);
                },
            };
            if b == 45 {
                let e = match get_line(src, pos) {
                    Ok(e) => e,
                    Err(err) => {
                        return Err(err);
                    },
                };
                if e == start + 3 && src[start + 2] == 49 {
                    proof {
                        assert(src@.subrange(start + 1, e as int) =~= seq![45u8, 49u8]);
                    }
                    Ok(())
                } else {
                    proof {
                        if src@.subrange(start + 1, e as int) == seq![45u8, 49u8] {
                            assert(src@.subrange(start + 1, e as int).len() == 2);
                            assert(src@.subrange(start + 1, e as int)[1] == 49);
                        }
                    }
                    Err(proto_err("protocol error; invalid bulk marker"))
                }
            } else {
                let n = match get_decimal(src, pos) {
                    Ok(n) => n,
                    Err(err) => {
                        return Err(err);
                    },
                };
                let rem = src.len() - *pos;
                if rem < 2 || ((rem - 2) as u64) < n {
                    Err(FrameError::Incomplete)
                } else {
                    let nu = n as usize;
                    if src[*pos + nu] == 13 && src[*pos + nu + 1] == 10 {
                        *pos = *pos + nu + 2;
                        Ok(())
                    } else {
                        Err(proto_err("protocol error; missing bulk terminator"))
                    }
                }
            }
        } else if tag == 42 {
            let n = match get_decimal(src, pos) {
                Ok(n) => n,
                Err(err) => {
                    return Err(err);
                },
            };
            let ghost p1 = *pos as int;
            let ghost mut done: Seq<FrameModel> = Seq::empty();
            proof {
                lemma_list_init(src@, p1, n as nat);
            }
            let mut i: u64 = 0;
            while i < n
                invariant
                    i <= n,
                    start < p1 <= *pos as int,
                    *pos <= src@.len(),
                    list_resumes(src@, p1, n as nat, done, *pos as int, (n - i) as nat),
                decreases n - i,
            {
                let ghost cur = *pos as int;
                match Frame::check(src, pos) {
                    Ok(()) => {},
                    Err(err) => {
                        return Err(err);
                    },
                }
                proof {
                    lemma_list_step(src@, p1, n as nat, done, cur, (n - i) as nat);
                    done = done.push(parse_at(src@, cur)->Complete_0);
                }
                i = i + 1;
            }
            proof {
                lemma_list_done(src@, p1, n as nat, done, *pos as int);
            }
            Ok(())
        } else {
            Err(proto_err("protocol error; invalid frame type"))
        }
    }

    /// Builds the frame at the cursor and advances past it. Callers
    /// first establish with `check` that a complete frame is present.
    #[verifier::loop_isolation(false)]
    pub fn parse(src: &Vec<u8>, pos: &mut usize) -> (f: Frame)
        requires
            *old(pos) <= src@.len(),
            parse_at(src@, *old(pos) as int) is Complete,
        ensures
            parse_at(src@, *old(pos) as int) == ParseStep::Complete(
                f.model(),
                *final(pos) as int,
            ),
            *old(pos) < *final(pos) <= src@.len(),
        decreases src@.len() - *old(pos),
    {
        let start = *pos;
        let tag = match get_u8(src, pos) {
            Ok(b) => b,
            Err(_) => {
                return unreached();
            },
        };
        if tag == 43 || tag == 45 {
            let e = match get_line(src, pos) {
                Ok(e) => e,
                Err(_) => {
                    return unreached();
                },
            };
            let content = copy_range(src, start + 1, e);
            match bytes_to_string(content) {
                Some(s) => if tag == 43 {
                    Frame::Simple(s)
                } else {
                    Frame::Error(s)
                },
                None => unreached(),
            }
        } else if tag == 58 {
            match get_decimal(src, pos) {
                Ok(v) => Frame::Integer(v),
                Err(_) => unreached(),
            }
        } else if tag == 36 {
            let b = match peek_u8(src, *pos) {
                Ok(b) => b,
                Err(_) => {
                    return unreached();
                },
            };
            if b == 45 {
                match get_line(src, pos) {
                    Ok(_) => Frame::Null,
                    Err(_) => unreached(),
                }
            } else {
                let n = match get_decimal(src, pos) {
                    Ok(n) => n,
                    Err(_) => {
                        return unreached();
                    },
                };
                let rem = src.len() - *pos;
                if rem < 2 || ((rem - 2) as u64) < n {
                    return unreached();
                }
                let nu = n as usize;
                let data = copy_range(src, *pos, *pos + nu);
                if src[*pos + nu] == 13 && src[*pos + nu + 1] == 10 {
                    *pos = *pos + nu + 2;
                    Frame::Bulk(data)
                } else {
                    unreached()
                }
            }
        } else if tag == 42 {
            let n = match get_decimal(src, pos) {
                Ok(n) => n,
                Err(_) => {
                    return unreached();
                },
            };
            let ghost p1 = *pos as int;
            let ghost mut done: Seq<FrameModel> = Seq::empty();
            proof {
                lemma_list_init(src@, p1, n as nat);
                lemma_models_from_props(Seq::<Frame>::empty(), 0);
                assert(models_from(Seq::<Frame>::empty(), 0) =~= Seq::<FrameModel>::empty());
            }
            let mut frames: Vec<Frame> = Vec::new();
            let mut i: u64 = 0;
            while i < n
                invariant
                    i <= n,
                    start < p1 <= *pos as int,
                    *pos <= src@.len(),
                    frames@.len() == i,
                    done == models_from(frames@, 0),
                    list_resumes(src@, p1, n as nat, done, *pos as int, (n - i) as nat),
                decreases n - i,
            {
                let ghost cur = *pos as int;
                let fi = Frame::parse(src, pos);
                proof {
                    lemma_list_step(src@, p1, n as nat, done, cur, (n - i) as nat);
                    lemma_models_push(frames@, fi);
                    done = done.push(parse_at(src@, cur)->Complete_0);
                }
                frames.push(fi);
                i = i + 1;
            }
            proof {
                lemma_list_done(src@, p1, n as nat, done, *pos as int);
            }
            Frame::Array(frames)
        } else {
            unreached()
        }
    }

    /// A human-readable rendering of this frame, for error texts and
    /// logs: status and error texts as themselves, numbers in decimal,
    /// payloads decoded when they are UTF-8, and array elements
    /// separated by spaces.
    pub fn render(&self) -> (out: String)
        ensures
            out@ == rendered(self.model()),
    {
        let mut out = String::new();
        render_into(self, &mut out);
        out
    }

    /// The message for a reply that fits no expected shape.
    pub fn to_err(self) -> (msg: String)
        ensures
            msg@ == "unexpected frame: "@ + rendered(self.model()),
    {
        let mut msg = String::from_str("unexpected frame: ");
        render_into(&self, &mut msg);
        msg
    }

    /// Wraps a status text as a `Simple` frame.
    pub fn from_string(s: String) -> (f: Frame)
        ensures
            f.model() == FrameModel::Simple(s@),
    {
        Frame::Simple(s)
    }

    /// The exact wire encoding of this frame.
    pub fn encode(&self) -> (out: Vec<u8>)
        ensures
            out@ == frame_bytes(self.model()),
    {
        let mut out: Vec<u8> = Vec::new();
        encode_into(self, &mut out);
        out
    }
}

} // verus!
