//! The wire codec: message values, their encoding onto CRLF-framed lines,
//! and the resumable token-based decoder.

use vstd::prelude::*;

verus! {

use vstd::string::StrSliceExecFns;
use vstd::string::StringExecFns;
use crate::error::Error;
use crate::text::{dec_str_of, int_str_of, opt_int_of, str_eq, i64_to_string, usize_to_string, parse_i32, parse_i64, find_space, lemma_find_space, find_space_index, trim_spec, str_trim};

// ---------------------------------------------------------------------------
// Message values and their mathematical views
// ---------------------------------------------------------------------------

/// The leading word of a wire error: absent, the canonical `ERR`, or a named
/// error class.
#[derive(Clone, Debug)]
pub enum ErrorPrefix {
    Empty,
    Canonical,
    Named(String),
}

/// A wire message: the sole currency crossing the protocol boundary.
#[derive(Debug)]
pub enum Message {
    SimpleString(String),
    Error { prefix: ErrorPrefix, message: String },
    Integer(i64),
    BulkString(String),
    Array(Vec<Message>),
    Nil,
}

/// The view of an [`ErrorPrefix`]: its text as a character sequence.
#[verifier::ext_equal]
pub enum PrefixView {
    Empty,
    Canonical,
    Named(Seq<char>),
}

/// The view of a [`Message`], over character sequences and unbounded integers.
#[verifier::ext_equal]
pub enum MessageView {
    SimpleString(Seq<char>),
    Error { prefix: PrefixView, message: Seq<char> },
    Integer(int),
    BulkString(Seq<char>),
    Array(Seq<MessageView>),
    Nil,
}

impl View for ErrorPrefix {
    type V = PrefixView;

    open spec fn view(&self) -> PrefixView {
        match self {
            ErrorPrefix::Empty => PrefixView::Empty,
            ErrorPrefix::Canonical => PrefixView::Canonical,
            ErrorPrefix::Named(s) => PrefixView::Named(s@),
        }
    }
}

impl View for Message {
    type V = MessageView;

    open spec fn view(&self) -> MessageView
        decreases *self,
    {
        match self {
            Message::SimpleString(s) => MessageView::SimpleString(s@),
            Message::Error { prefix, message } => MessageView::Error {
                prefix: prefix@,
                message: message@,
            },
            Message::Integer(i) => MessageView::Integer(*i as int),
            Message::BulkString(s) => MessageView::BulkString(s@),
            Message::Array(elements) => MessageView::Array(message_views(elements@)),
            Message::Nil => MessageView::Nil,
        }
    }
}

/// The views of a sequence of messages, element by element.
pub open spec fn message_views(s: Seq<Message>) -> Seq<MessageView>
    decreases s,
{
    if s.len() == 0 {
        Seq::empty()
    } else {
        message_views(s.drop_last()).push(s.last()@)
    }
}

/// `message_views` maps the view over the sequence pointwise.
pub broadcast proof fn lemma_message_views(s: Seq<Message>)
    ensures
        (#[trigger] message_views(s)).len() == s.len(),
        forall|i: int| 0 <= i < s.len() ==> message_views(s)[i] == s[i]@,
    decreases s,
{
    if s.len() > 0 {
        lemma_message_views(s.drop_last());
        assert(message_views(s) == message_views(s.drop_last()).push(s.last()@));
        assert forall|i: int| 0 <= i < s.len() implies message_views(s)[i] == s[i]@ by {
            if i < s.len() - 1 {
                assert(message_views(s)[i] == message_views(s.drop_last())[i]);
                assert(s.drop_last()[i] == s[i]);
            } else {
                assert(message_views(s)[i] == s.last()@);
            }
        }
    } else {
        assert(message_views(s).len() == 0);
    }
}


// ---------------------------------------------------------------------------
// Equality and duplication, verified against the views
// ---------------------------------------------------------------------------

impl ErrorPrefix {
    /// Whether two prefixes denote the same text class.
    pub fn eq_val(&self, other: &ErrorPrefix) -> (r: bool)
        ensures
            r == (self@ == other@),
    {
        match (self, other) {
            (ErrorPrefix::Empty, ErrorPrefix::Empty) => true,
            (ErrorPrefix::Canonical, ErrorPrefix::Canonical) => true,
            (ErrorPrefix::Named(a), ErrorPrefix::Named(b)) => *a == *b,
            _ => false,
        }
    }

    /// A fresh prefix with the same view.
    pub fn duplicate(&self) -> (r: ErrorPrefix)
        ensures
            r@ == self@,
    {
        match self {
            ErrorPrefix::Empty => ErrorPrefix::Empty,
            ErrorPrefix::Canonical => ErrorPrefix::Canonical,
            ErrorPrefix::Named(s) => ErrorPrefix::Named(s.clone()),
        }
    }
}

impl Message {
    /// Deep equality of message values.
    pub fn eq_val(&self, other: &Message) -> (r: bool)
        ensures
            r == (self@ == other@),
        decreases *self,
    {
        match (self, other) {
            (Message::SimpleString(a), Message::SimpleString(b)) => *a == *b,
            (
                Message::Error { prefix: ap, message: am },
                Message::Error { prefix: bp, message: bm },
            ) => ap.eq_val(bp) && *am == *bm,
            (Message::Integer(a), Message::Integer(b)) => *a == *b,
            (Message::BulkString(a), Message::BulkString(b)) => *a == *b,
            (Message::Array(xs), Message::Array(ys)) => {
                if xs.len() != ys.len() {
                    proof {
                        lemma_message_views(xs@);
                        lemma_message_views(ys@);
                        assert(self@->Array_0.len() != other@->Array_0.len());
                    }
                    false
                } else {
                    let mut k: usize = 0;
                    let mut all_eq = true;
                    while k < xs.len()
                        invariant
                            0 <= k <= xs@.len(),
                            xs@.len() == ys@.len(),
                            self == Message::Array(*xs),
                            other == Message::Array(*ys),
                            all_eq == (forall|i: int| 0 <= i < k ==> xs@[i]@ == #[trigger] ys@[i]@),
                        decreases xs@.len() - k,
                    {
                        proof {
                            assert(*xs == self->Array_0);
                            assert(decreases_to!(*self => self->Array_0));
                            assert(decreases_to!(*xs => xs@));
                            assert(decreases_to!(xs@ => xs@[k as int]));
                        }
                        let this_eq = xs[k].eq_val(&ys[k]);
                        all_eq = all_eq && this_eq;
                        k += 1;
                    }
                    proof {
                        broadcast use lemma_message_views;

                        let va = message_views(xs@);
                        let vb = message_views(ys@);
                        if all_eq {
                            assert(va =~= vb);
                        } else {
                            assert(va != vb) by {
                                let i = choose|i: int|
                                    0 <= i < xs@.len() && xs@[i]@ != #[trigger] ys@[i]@;
                                assert(va[i] != vb[i]);
                            }
                        }
                    }
                    all_eq
                }
            },
            (Message::Nil, Message::Nil) => true,
            _ => false,
        }
    }

    /// A fresh message with the same view.
    pub fn duplicate(&self) -> (r: Message)
        ensures
            r@ == self@,
        decreases *self,
    {
        match self {
            Message::SimpleString(s) => Message::SimpleString(s.clone()),
            Message::Error { prefix, message } => Message::Error {
                prefix: prefix.duplicate(),
                message: message.clone(),
            },
            Message::Integer(i) => Message::Integer(*i),
            Message::BulkString(s) => Message::BulkString(s.clone()),
            Message::Array(elements) => {
                let mut out: Vec<Message> = Vec::new();
                let mut k: usize = 0;
                while k < elements.len()
                    invariant
                        0 <= k <= elements@.len(),
                        self == Message::Array(*elements),
                        out@.len() == k,
                        forall|i: int| 0 <= i < k ==> out@[i]@ == #[trigger] elements@[i]@,
                    decreases elements@.len() - k,
                {
                    proof {
                        assert(*elements == self->Array_0);
                        assert(decreases_to!(*self => self->Array_0));
                        assert(decreases_to!(*elements => elements@));
                        assert(decreases_to!(elements@ => elements@[k as int]));
                    }
                    let piece = elements[k].duplicate();
                    out.push(piece);
                    k += 1;
                }
                proof {
                    broadcast use lemma_message_views;

                    assert(message_views(out@) =~= message_views(elements@));
                }
                Message::Array(out)
            },
            Message::Nil => Message::Nil,
        }
    }
}

impl Clone for Message {
    fn clone(&self) -> (r: Self)
        ensures
            r@ == self@,
    {
        self.duplicate()
    }
}

impl PartialEq for ErrorPrefix {
    fn eq(&self, other: &Self) -> (r: bool) {
        self.eq_val(other)
    }
}

impl vstd::std_specs::cmp::PartialEqSpecImpl for ErrorPrefix {
    open spec fn obeys_eq_spec() -> bool {
        true
    }

    open spec fn eq_spec(&self, other: &Self) -> bool {
        self@ == other@
    }
}

impl PartialEq for Message {
    fn eq(&self, other: &Self) -> (r: bool) {
        self.eq_val(other)
    }
}

impl vstd::std_specs::cmp::PartialEqSpecImpl for Message {
    open spec fn obeys_eq_spec() -> bool {
        true
    }

    open spec fn eq_spec(&self, other: &Self) -> bool {
        self@ == other@
    }
}

// ---------------------------------------------------------------------------
// Encoding
// ---------------------------------------------------------------------------

/// The CRLF line terminator.
pub open spec fn crlf() -> Seq<char> {
    seq!['\r', '\n']
}

/// The text of an error prefix.
pub open spec fn prefix_text(p: PrefixView) -> Seq<char> {
    match p {
        PrefixView::Empty => Seq::empty(),
        PrefixView::Canonical => seq!['E', 'R', 'R'],
        PrefixView::Named(s) => s,
    }
}

/// The wire encoding of a message.
pub open spec fn encode_spec(m: MessageView) -> Seq<char>
    decreases m,
{
    match m {
        MessageView::SimpleString(s) => seq!['+'] + s + crlf(),
        MessageView::Error { prefix, message } => seq!['-'] + prefix_text(prefix) + seq![' ']
            + message + crlf(),
        MessageView::Integer(i) => seq![':'] + int_str_of(i) + crlf(),
        MessageView::BulkString(s) => seq!['$'] + dec_str_of(s.len()) + crlf() + s + crlf(),
        MessageView::Array(elements) => seq!['*'] + dec_str_of(elements.len()) + crlf()
            + encode_seq_spec(elements),
        MessageView::Nil => seq!['$', '-', '1', '\r', '\n'],
    }
}

/// The concatenated encodings of a sequence of messages.
pub open spec fn encode_seq_spec(s: Seq<MessageView>) -> Seq<char>
    decreases s,
{
    if s.len() == 0 {
        Seq::empty()
    } else {
        encode_seq_spec(s.drop_last()) + encode_spec(s.last())
    }
}

impl ErrorPrefix {
    /// The prefix's own text, as it appears on the wire.
    pub fn render(&self) -> (r: String)
        ensures
            r@ == prefix_text(self@),
    {
        match self {
            ErrorPrefix::Empty => String::new(),
            ErrorPrefix::Canonical => {
                let r = String::from_str("ERR");
                proof {
                    reveal_strlit("ERR");
                    assert(r@ =~= seq!['E', 'R', 'R']);
                }
                r
            },
            ErrorPrefix::Named(s) => s.clone(),
        }
    }

    /// Reads a prefix word: `ERR` is canonical, anything else is a named class.
    pub fn make(prefix: &str) -> (r: ErrorPrefix)
        ensures
            r@ == prefix_make_spec(prefix@),
    {
        proof {
            reveal_strlit("ERR");
            assert("ERR"@ =~= seq!['E', 'R', 'R']);
        }
        if str_eq(prefix, "ERR") {
            ErrorPrefix::Canonical
        } else {
            ErrorPrefix::Named(String::from_str(prefix))
        }
    }
}

/// The prefix a leading word denotes.
pub open spec fn prefix_make_spec(s: Seq<char>) -> PrefixView {
    if s == seq!['E', 'R', 'R'] {
        PrefixView::Canonical
    } else {
        PrefixView::Named(s)
    }
}

impl Message {
    /// Encodes the message for the wire.
    pub fn encode(&self) -> (r: String)
        ensures
            r@ == encode_spec(self@),
        decreases *self,
    {
        proof {
            reveal_strlit("+");
            reveal_strlit("-");
            reveal_strlit(":");
            reveal_strlit("$");
            reveal_strlit("*");
            reveal_strlit(" ");
            reveal_strlit("\r\n");
            reveal_strlit("$-1\r\n");
        }
        match self {
            Message::SimpleString(s) => {
                let mut r = String::from_str("+");
                r.append(s.as_str());
                r.append("\r\n");
                proof {
                    assert(r@ =~= seq!['+'] + s@ + crlf());
                }
                r
            },
            Message::Error { prefix, message } => {
                let mut r = String::from_str("-");
                r.append(prefix.render().as_str());
                r.append(" ");
                r.append(message.as_str());
                r.append("\r\n");
                proof {
                    assert(r@ =~= seq!['-'] + prefix_text(prefix@) + seq![' '] + message@
                        + crlf());
                }
                r
            },
            Message::Integer(i) => {
                let mut r = String::from_str(":");
                r.append(i64_to_string(*i).as_str());
                r.append("\r\n");
                proof {
                    assert(r@ =~= seq![':'] + int_str_of(*i as int) + crlf());
                }
                r
            },
            Message::BulkString(s) => {
                let mut r = String::from_str("$");
                r.append(usize_to_string(s.as_str().unicode_len()).as_str());
                r.append("\r\n");
                r.append(s.as_str());
                r.append("\r\n");
                proof {
                    assert(r@ =~= seq!['$'] + dec_str_of(s@.len()) + crlf() + s@ + crlf());
                }
                r
            },
            Message::Array(elements) => {
                let mut r = String::from_str("*");
                r.append(usize_to_string(elements.len()).as_str());
                r.append("\r\n");
                let ghost views = message_views(elements@);
                let ghost header = seq!['*'] + dec_str_of(views.len()) + crlf();
                proof {
                    broadcast use lemma_message_views;

                    assert(r@ =~= header);
                    assert(views.take(0) =~= Seq::<MessageView>::empty());
                }
                let mut k: usize = 0;
                while k < elements.len()
                    invariant
                        0 <= k <= elements@.len(),
                        views.len() == elements@.len(),
                        forall|i: int| 0 <= i < elements@.len() ==> views[i] == elements@[i]@,
                        header == seq!['*'] + dec_str_of(views.len()) + crlf(),
                        r@ == header + encode_seq_spec(views.take(k as int)),
                        self == Message::Array(*elements),
                    decreases elements@.len() - k,
                {
                    proof {
                        assert(*elements == self->Array_0);
                        assert(decreases_to!(*self => self->Array_0));
                        assert(decreases_to!(*elements => elements@));
                        assert(decreases_to!(elements@ => elements@[k as int]));
                    }
                    let piece = elements[k].encode();
                    r.append(piece.as_str());
                    proof {
                        broadcast use lemma_message_views;

                        assert(views.take(k + 1).drop_last() =~= views.take(k as int));
                        assert(views.take(k + 1).last() == views[k as int]);
                        assert(views[k as int] == elements@[k as int]@);
                    }
                    k += 1;
                }
                proof {
                    assert(views.take(views.len() as int) =~= views);
                }
                r
            },
            Message::Nil => {
                let r = String::from_str("$-1\r\n");
                proof {
                    assert(r@ =~= seq!['$', '-', '1', '\r', '\n']);
                }
                r
            },
        }
    }
}


// ---------------------------------------------------------------------------
// Reading errors and building messages
// ---------------------------------------------------------------------------

/// The message an error line (after its `-` tag) denotes.
pub open spec fn parse_error_spec(line: Seq<char>) -> MessageView {
    let ix = find_space(line);
    if ix >= 0 {
        MessageView::Error {
            prefix: prefix_make_spec(trim_spec(line.take(ix))),
            message: trim_spec(line.skip(ix)),
        }
    } else {
        MessageView::Error { prefix: PrefixView::Empty, message: trim_spec(line) }
    }
}

impl Message {
    /// Reads an error line: the first word up to a space is the prefix, the
    /// rest is the message; without a space the whole line is the message.
    pub fn parse_error(line: &str) -> (r: Message)
        ensures
            r@ == parse_error_spec(line@),
    {
        proof {
            lemma_find_space(line@);
        }
        match find_space_index(line) {
            Some(ix) => {
                let len = line.unicode_len();
                let prefix_part = line.substring_char(0, ix);
                let suffix = line.substring_char(ix, len);
                proof {
                    assert(prefix_part@ =~= line@.take(ix as int));
                    assert(suffix@ =~= line@.skip(ix as int));
                }
                Message::Error {
                    prefix: ErrorPrefix::make(str_trim(prefix_part)),
                    message: String::from_str(str_trim(suffix)),
                }
            },
            None => Message::Error {
                prefix: ErrorPrefix::Empty,
                message: String::from_str(str_trim(line)),
            },
        }
    }

    /// Wraps a vector of messages as an array message.
    pub fn make_array(xs: Vec<Message>) -> (r: Message)
        ensures
            r@ == MessageView::Array(message_views(xs@)),
    {
        Message::Array(xs)
    }

    /// Builds a bulk string from a declared size and raw text; the size `-1`
    /// denotes the nil value.
    pub fn make_bulk_string(size: i32, text: &str) -> (r: Message)
        ensures
            r@ == (if size == -1 {
                MessageView::Nil
            } else {
                MessageView::BulkString(text@)
            }),
    {
        if size == -1 {
            Message::Nil
        } else {
            Message::BulkString(String::from_str(text))
        }
    }

    /// An array of bulk strings, one for each of the given texts.
    pub fn make_bulk_array(xs: &[String]) -> (r: Message)
        ensures
            r@ == MessageView::Array(bulk_views(strings_views(xs@))),
    {
        let mut out: Vec<Message> = Vec::new();
        let mut k: usize = 0;
        while k < xs.len()
            invariant
                0 <= k <= xs@.len(),
                out@.len() == k,
                forall|i: int|
                    0 <= i < k ==> #[trigger] out@[i]@ == MessageView::BulkString(xs@[i]@),
            decreases xs@.len() - k,
        {
            let piece = String::from_str(vstd::slice::slice_index_get(xs, k).as_str());
            out.push(Message::BulkString(piece));
            k += 1;
        }
        proof {
            broadcast use lemma_message_views;

            assert(message_views(out@) =~= bulk_views(strings_views(xs@)));
        }
        Message::Array(out)
    }

    /// The content of a bulk string, if that is what the message is.
    pub fn try_as_bulk_string_content(&self) -> (r: Option<&str>)
        ensures
            match r {
                Some(t) => self@ matches MessageView::BulkString(c) && t@ == c,
                None => !(self@ is BulkString),
            },
    {
        match self {
            Message::BulkString(s) => Some(s.as_str()),
            _ => None,
        }
    }

    /// The elements of an array message, if that is what the message is.
    pub fn as_array_contents(&self) -> (r: Option<&Vec<Message>>)
        ensures
            match r {
                Some(v) => self@ matches MessageView::Array(es) && message_views(v@) == es,
                None => !(self@ is Array),
            },
    {
        match self {
            Message::Array(bs) => Some(bs),
            _ => None,
        }
    }

    /// The texts of a bulk array: an array whose elements are all bulk
    /// strings. Any other shape gives `None`.
    pub fn try_as_bulk_array(&self) -> (r: Option<Vec<&str>>)
        ensures
            match r {
                Some(ws) => {
                    &&& bulk_texts(self@) is Some
                    &&& strs_views(ws@) == bulk_texts(self@)->Some_0
                },
                None => bulk_texts(self@) is None,
            },
    {
        proof {
            broadcast use lemma_message_views;

        }
        match self {
            Message::Array(bs) => {
                let mut out: Vec<&str> = Vec::new();
                let mut k: usize = 0;
                while k < bs.len()
                    invariant
                        0 <= k <= bs@.len(),
                        out@.len() == k,
                        self == Message::Array(*bs),
                        forall|i: int| 0 <= i < k ==> #[trigger] bs@[i]@ is BulkString,
                        forall|i: int|
                            0 <= i < k ==> #[trigger] out@[i]@ == bs@[i]@->BulkString_0,
                    decreases bs@.len() - k,
                {
                    match bs[k].try_as_bulk_string_content() {
                        Some(t) => {
                            out.push(t);
                        },
                        None => {
                            proof {
                                broadcast use lemma_message_views;

                                assert(message_views(bs@)[k as int] == bs@[k as int]@);
                            }
                            return None;
                        },
                    }
                    k += 1;
                }
                proof {
                    broadcast use lemma_message_views;

                    let es = message_views(bs@);
                    assert(forall|i: int| 0 <= i < bs@.len() ==> #[trigger] es[i] == bs@[i]@);
                    assert(self@ == MessageView::Array(es));
                    assert(forall|i: int|
                        0 <= i < es.len() ==> (#[trigger] es[i]) is BulkString);
                    assert(bulk_texts(self@) is Some);
                    assert(strs_views(out@) =~= bulk_texts(self@)->Some_0);
                }
                Some(out)
            },
            _ => None,
        }
    }
}

/// The views of a sequence of strings.
pub open spec fn strings_views(s: Seq<String>) -> Seq<Seq<char>> {
    Seq::new(s.len(), |i: int| s[i]@)
}

/// The views of a sequence of string slices.
pub open spec fn strs_views(s: Seq<&str>) -> Seq<Seq<char>> {
    Seq::new(s.len(), |i: int| s[i]@)
}

/// Bulk-string message views, one for each text.
pub open spec fn bulk_views(ts: Seq<Seq<char>>) -> Seq<MessageView> {
    Seq::new(ts.len(), |i: int| MessageView::BulkString(ts[i]))
}

/// The texts of an array of bulk strings, or `None` for any other shape.
pub open spec fn bulk_texts(mv: MessageView) -> Option<Seq<Seq<char>>> {
    match mv {
        MessageView::Array(es) => if forall|i: int| 0 <= i < es.len() ==> (#[trigger] es[i]) is BulkString {
            Some(Seq::new(es.len(), |i: int| es[i]->BulkString_0))
        } else {
            None
        },
        _ => None,
    }
}

// ---------------------------------------------------------------------------
// Tokens
// ---------------------------------------------------------------------------

/// One framed line of input, read as far as its tag allows.
#[derive(Debug)]
pub enum Token {
    Literal(String),
    Trivial { parsed: Message, image: String },
    BulkString { parsed: i32, image: String },
    Array { parsed: i32, image: String },
}

/// The view of a [`Token`].
#[verifier::ext_equal]
pub enum TokenView {
    Literal(Seq<char>),
    Trivial { parsed: MessageView, image: Seq<char> },
    BulkString { parsed: int, image: Seq<char> },
    Array { parsed: int, image: Seq<char> },
}

impl View for Token {
    type V = TokenView;

    open spec fn view(&self) -> TokenView {
        match self {
            Token::Literal(image) => TokenView::Literal(image@),
            Token::Trivial { parsed, image } => TokenView::Trivial {
                parsed: parsed@,
                image: image@,
            },
            Token::BulkString { parsed, image } => TokenView::BulkString {
                parsed: *parsed as int,
                image: image@,
            },
            Token::Array { parsed, image } => TokenView::Array {
                parsed: *parsed as int,
                image: image@,
            },
        }
    }
}

/// The raw line a token was read from.
pub open spec fn raw_image_spec(t: TokenView) -> Seq<char> {
    match t {
        TokenView::Literal(image) => image,
        TokenView::Trivial { parsed, image } => image,
        TokenView::BulkString { parsed, image } => image,
        TokenView::Array { parsed, image } => image,
    }
}

/// Whether an integer fits an `i64`.
pub open spec fn fits_i64(n: int) -> bool {
    i64::MIN <= n <= i64::MAX
}

/// Whether an integer fits an `i32`.
pub open spec fn fits_i32(n: int) -> bool {
    i32::MIN <= n <= i32::MAX
}

/// The token a tagged line denotes: the tag is the first character, the rest
/// is its payload; a line whose payload does not parse stays a literal.
pub open spec fn token_of_line(line: Seq<char>) -> TokenView {
    if line.len() == 0 {
        TokenView::Literal(line)
    } else {
        let tag = line[0];
        let tail = line.drop_first();
        if tag == '+' {
            TokenView::Trivial { parsed: MessageView::SimpleString(tail), image: line }
        } else if tag == '-' {
            TokenView::Trivial { parsed: parse_error_spec(tail), image: line }
        } else if tag == ':' {
            match opt_int_of(tail) {
                Some(n) => if fits_i64(n) {
                    TokenView::Trivial { parsed: MessageView::Integer(n), image: line }
                } else {
                    TokenView::Literal(line)
                },
                None => TokenView::Literal(line),
            }
        } else if tag == '*' {
            match opt_int_of(tail) {
                Some(n) => if fits_i32(n) {
                    TokenView::Array { parsed: n, image: line }
                } else {
                    TokenView::Literal(line)
                },
                None => TokenView::Literal(line),
            }
        } else if tag == '$' {
            match opt_int_of(tail) {
                Some(n) => if fits_i32(n) {
                    TokenView::BulkString { parsed: n, image: line }
                } else {
                    TokenView::Literal(line)
                },
                None => TokenView::Literal(line),
            }
        } else {
            TokenView::Literal(line)
        }
    }
}

impl Token {
    /// The raw line this token was read from.
    pub fn raw_image(&self) -> (r: &str)
        ensures
            r@ == raw_image_spec(self@),
    {
        match self {
            Token::Literal(image) => image.as_str(),
            Token::Trivial { parsed: _, image } => image.as_str(),
            Token::BulkString { parsed: _, image } => image.as_str(),
            Token::Array { parsed: _, image } => image.as_str(),
        }
    }

    /// Reads one line into a token.
    pub fn parse(line: &str) -> (t: Token)
        ensures
            t@ == token_of_line(line@),
    {
        let len = line.unicode_len();
        if len == 0 {
            return Token::Literal(String::new());
        }
        let tag = line.get_char(0);
        let tail = line.substring_char(1, len);
        proof {
            assert(tail@ =~= line@.drop_first());
        }
        let image = String::from_str(line);
        if tag == '+' {
            Token::Trivial { parsed: Message::SimpleString(String::from_str(tail)), image }
        } else if tag == '-' {
            Token::Trivial { parsed: Message::parse_error(tail), image }
        } else if tag == ':' {
            match parse_i64(tail) {
                Ok(v) => Token::Trivial { parsed: Message::Integer(v), image },
                Err(_) => Token::Literal(image),
            }
        } else if tag == '*' {
            match parse_i32(tail) {
                Ok(v) => Token::Array { parsed: v, image },
                Err(_) => Token::Literal(image),
            }
        } else if tag == '$' {
            match parse_i32(tail) {
                Ok(v) => Token::BulkString { parsed: v, image },
                Err(_) => Token::Literal(image),
            }
        } else {
            Token::Literal(image)
        }
    }
}


// ---------------------------------------------------------------------------
// Parsing a token stream into a message
// ---------------------------------------------------------------------------

/// The views of a sequence of tokens.
pub open spec fn token_views(s: Seq<Token>) -> Seq<TokenView> {
    Seq::new(s.len(), |i: int| s[i]@)
}

/// Parses a prefix of the token stream into one message, with the number of
/// tokens consumed; `None` when no full message is recognizable yet.
pub open spec fn parse_msg_spec(ts: Seq<TokenView>) -> Option<(MessageView, int)>
    decreases ts, 0int,
{
    if ts.len() == 0 {
        None
    } else {
        match ts[0] {
            TokenView::Trivial { parsed, image } => Some((parsed, 1)),
            TokenView::BulkString { parsed: n, image } => if n == -1 {
                Some((MessageView::Nil, 1))
            } else if ts.len() >= 2 {
                Some((MessageView::BulkString(raw_image_spec(ts[1])), 2))
            } else {
                None
            },
            TokenView::Array { parsed: n, image } => if n >= 0 {
                let got = parse_array_spec(n, ts.drop_first());
                if got.0.len() == n {
                    Some((MessageView::Array(got.0), 1 + got.1))
                } else {
                    None
                }
            } else {
                Some((MessageView::Nil, 1))
            },
            TokenView::Literal(image) => None,
        }
    }
}

/// Parses up to `count` messages from the stream, returning what it read and
/// how many tokens that took; it stops early where no message parses.
pub open spec fn parse_array_spec(count: int, ts: Seq<TokenView>) -> (Seq<MessageView>, int)
    decreases ts, count + 1,
{
    if count <= 0 {
        (Seq::empty(), 0)
    } else {
        match parse_msg_spec(ts) {
            Some(got) => if 1 <= got.1 <= ts.len() {
                let rest = parse_array_spec(count - 1, ts.skip(got.1));
                (seq![got.0] + rest.0, got.1 + rest.1)
            } else {
                (Seq::empty(), 0)
            },
            None => (Seq::empty(), 0),
        }
    }
}

/// What a full parse consumes always lies between one token and the whole
/// stream.
pub proof fn lemma_parse_msg_used(ts: Seq<TokenView>)
    ensures
        match parse_msg_spec(ts) {
            Some(got) => 1 <= got.1 <= ts.len(),
            None => true,
        },
    decreases ts, 0int,
{
    if ts.len() > 0 {
        match ts[0] {
            TokenView::Array { parsed: n, image } => {
                if n >= 0 {
                    lemma_parse_array_used(n, ts.drop_first());
                }
            },
            _ => {},
        }
    }
}

pub proof fn lemma_parse_array_used(count: int, ts: Seq<TokenView>)
    ensures
        0 <= parse_array_spec(count, ts).1 <= ts.len(),
        parse_array_spec(count, ts).0.len() <= (if count >= 0 {
            count
        } else {
            0
        }),
    decreases ts, count + 1,
{
    if count > 0 {
        lemma_parse_msg_used(ts);
        match parse_msg_spec(ts) {
            Some(got) => {
                if 1 <= got.1 <= ts.len() {
                    lemma_parse_array_used(count - 1, ts.skip(got.1));
                }
            },
            None => {},
        }
    }
}

/// Parses one message from the front of the token slice. On success the
/// remainder slice follows the consumed tokens; on failure the input is
/// handed back unchanged.
pub fn parse_message<'a>(input: &'a [Token]) -> (r: (Result<Message, Error>, &'a [Token]))
    ensures
        ({
            let ts = token_views(input@);
            match r.0 {
                Ok(m) => {
                    &&& parse_msg_spec(ts) is Some
                    &&& m@ == parse_msg_spec(ts)->Some_0.0
                    &&& r.1@ == input@.skip(parse_msg_spec(ts)->Some_0.1)
                },
                Err(_) => parse_msg_spec(ts) is None && r.1@ == input@,
            }
        }),
    decreases input@.len(), 0int,
{
    proof {
        reveal_strlit("Expected more array elements");
        reveal_strlit("Will not parse token stream");
    }
    let len = input.len();
    if len == 0 {
        return (
            Err(Error::InvalidData(String::from_str("Will not parse token stream"))),
            input,
        );
    }
    let ghost ts = token_views(input@);
    match &input[0] {
        Token::Trivial { parsed, image: _ } => {
            let m = parsed.duplicate();
            (Ok(m), vstd::slice::slice_subrange(input, 1, len))
        },
        Token::BulkString { parsed, image: _ } => {
            if *parsed == -1 {
                (Ok(Message::Nil), vstd::slice::slice_subrange(input, 1, len))
            } else if len >= 2 {
                let contents = &input[1];
                let m = Message::make_bulk_string(*parsed, contents.raw_image());
                proof {
                    assert(ts[1] == input@[1]@);
                }
                (Ok(m), vstd::slice::slice_subrange(input, 2, len))
            } else {
                (
                    Err(Error::InvalidData(String::from_str("Will not parse token stream"))),
                    input,
                )
            }
        },
        Token::Array { parsed, image: _ } => {
            if *parsed >= 0 {
                let requested = *parsed as usize;
                let mut elements: Vec<Message> = Vec::new();
                let tail = vstd::slice::slice_subrange(input, 1, len);
                let remaining = parse_array(*parsed, tail, &mut elements);
                proof {
                    broadcast use lemma_message_views;

                    assert(token_views(tail@) =~= ts.drop_first());
                }
                if elements.len() == requested {
                    proof {
                        let got = parse_array_spec(*parsed as int, ts.drop_first());
                        lemma_parse_array_used(*parsed as int, ts.drop_first());
                        assert(message_views(elements@) == got.0);
                        assert(remaining@ =~= input@.skip(1 + got.1));
                    }
                    (Ok(Message::make_array(elements)), remaining)
                } else {
                    proof {
                        let got = parse_array_spec(*parsed as int, ts.drop_first());
                        assert(message_views(elements@) == got.0);
                        assert(got.0.len() != *parsed as int);
                    }
                    (
                        Err(Error::InvalidData(String::from_str("Expected more array elements"))),
                        input,
                    )
                }
            } else {
                (Ok(Message::Nil), vstd::slice::slice_subrange(input, 1, len))
            }
        },
        Token::Literal(_) => {
            (
                Err(Error::InvalidData(String::from_str("Will not parse token stream"))),
                input,
            )
        },
    }
}

/// Parses up to `count` messages, pushing them onto `output`; returns the
/// tokens left after the last message it could read.
fn parse_array<'a>(count: i32, input: &'a [Token], output: &mut Vec<Message>) -> (remaining: &'a [
    Token])
    requires
        count >= 0,
    ensures
        ({
            let got = parse_array_spec(count as int, token_views(input@));
            &&& message_views(final(output)@) == message_views(old(output)@) + got.0
            &&& remaining@ == input@.skip(got.1)
        }),
    decreases input@.len(), count + 1,
{
    let ghost ts = token_views(input@);
    if count == 0 {
        proof {
            broadcast use lemma_message_views;

            assert(message_views(output@) =~= message_views(output@)
                + parse_array_spec(0, ts).0);
            assert(input@.skip(0) =~= input@);
        }
        return input;
    }
    let (head, rest) = parse_message(input);
    match head {
        Ok(element) => {
            proof {
                lemma_parse_msg_used(ts);
            }
            output.push(element);
            let remaining = parse_array(count - 1, rest, output);
            proof {
                broadcast use lemma_message_views;

                let got0 = parse_msg_spec(ts)->Some_0;
                assert(token_views(rest@) =~= ts.skip(got0.1));
                assert(token_views(rest@) == ts.skip(got0.1));
                let tail_got = parse_array_spec(count - 1, ts.skip(got0.1));
                let got = parse_array_spec(count as int, ts);
                assert(got.0 == seq![got0.0] + tail_got.0);
                let mid = old(output)@.push(element);
                assert(message_views(final(output)@) == message_views(mid) + tail_got.0);
                assert(message_views(mid) =~= message_views(old(output)@).push(got0.0));
                assert(message_views(old(output)@).push(got0.0) + tail_got.0 =~= message_views(
                    old(output)@,
                ) + got.0);
                assert(message_views(final(output)@) =~= message_views(old(output)@) + got.0);
                assert(got.1 == got0.1 + tail_got.1);
                lemma_parse_array_used(count - 1, ts.skip(got0.1));
                assert(rest@.skip(tail_got.1) =~= input@.skip(got.1));
            }
            remaining
        },
        Err(_) => {
            proof {
                broadcast use lemma_message_views;

                assert(parse_array_spec(count as int, ts) == (Seq::<MessageView>::empty(), 0int));
                assert(message_views(output@) =~= message_views(output@)
                    + parse_array_spec(count as int, ts).0);
                assert(input@.skip(0) =~= input@);
            }
            input
        },
    }
}


// ---------------------------------------------------------------------------
// Whole phrases: splitting on CRLF and parsing in one step
// ---------------------------------------------------------------------------

/// The first position where the CRLF pair starts, or `-1` when absent.
pub open spec fn find_crlf(s: Seq<char>) -> int
    decreases s.len(),
{
    if s.len() < 2 {
        -1
    } else if s[0] == '\r' && s[1] == '\n' {
        0
    } else {
        let r = find_crlf(s.drop_first());
        if r < 0 {
            -1
        } else {
            1 + r
        }
    }
}

pub proof fn lemma_find_crlf(s: Seq<char>)
    ensures
        find_crlf(s) == -1 ==> forall|i: int|
            0 <= i < s.len() - 1 ==> !(#[trigger] s[i] == '\r' && s[i + 1] == '\n'),
        find_crlf(s) >= 0 ==> {
            &&& find_crlf(s) + 2 <= s.len()
            &&& s[find_crlf(s)] == '\r'
            &&& s[find_crlf(s) + 1] == '\n'
            &&& forall|i: int|
                0 <= i < find_crlf(s) ==> !(#[trigger] s[i] == '\r' && s[i + 1] == '\n')
        },
    decreases s.len(),
{
    if s.len() >= 2 && !(s[0] == '\r' && s[1] == '\n') {
        lemma_find_crlf(s.drop_first());
        assert(forall|i: int|
            1 <= i < s.len() ==> #[trigger] s[i] == s.drop_first()[i - 1]);
    }
}

/// The pieces of the sequence between CRLF separators, in order. A sequence
/// without a separator is one piece; a trailing separator yields a final
/// empty piece.
pub open spec fn split_crlf_spec(s: Seq<char>) -> Seq<Seq<char>>
    decreases s.len(),
{
    let i = find_crlf(s);
    if 0 <= i && i + 2 <= s.len() {
        seq![s.take(i)] + split_crlf_spec(s.skip(i + 2))
    } else {
        seq![s]
    }
}

/// Finds the first CRLF pair in a string.
fn find_crlf_index(s: &str) -> (r: Option<usize>)
    ensures
        match r {
            Some(i) => find_crlf(s@) == i,
            None => find_crlf(s@) == -1,
        },
{
    let len = s.unicode_len();
    if len < 2 {
        proof {
            lemma_find_crlf(s@);
            if find_crlf(s@) >= 0 {
                assert(find_crlf(s@) + 2 <= s@.len());
            }
        }
        return None;
    }
    let mut j: usize = 0;
    while j < len - 1
        invariant
            0 <= j <= len - 1,
            len == s@.len(),
            len >= 2,
            forall|i: int| 0 <= i < j ==> !(#[trigger] s@[i] == '\r' && s@[i + 1] == '\n'),
        decreases len - j,
    {
        if s.get_char(j) == '\r' && s.get_char(j + 1) == '\n' {
            proof {
                lemma_find_crlf(s@);
                if find_crlf(s@) == -1 {
                    assert(!(s@[j as int] == '\r' && s@[j + 1] == '\n'));
                }
                if find_crlf(s@) < j {
                    assert(!(s@[j as int] == '\r' && s@[j + 1] == '\n')) by {
                        assert(false) by {
                            assert(s@[find_crlf(s@)] == '\r' && s@[find_crlf(s@) + 1] == '\n');
                        }
                    }
                }
            }
            proof {
                lemma_find_crlf(s@);
                assert(find_crlf(s@) == j);
            }
            return Some(j);
        }
        j += 1;
    }
    proof {
        lemma_find_crlf(s@);
        if find_crlf(s@) >= 0 {
            assert(!(s@[find_crlf(s@)] == '\r' && s@[find_crlf(s@) + 1] == '\n'));
        }
    }
    None
}

/// Splits a string into the pieces between CRLF separators.
pub fn split_crlf(s: &str) -> (r: Vec<String>)
    ensures
        strings_views(r@) == split_crlf_spec(s@),
    decreases s@.len(),
{
    let len = s.unicode_len();
    match find_crlf_index(s) {
        Some(i) => {
            proof {
                lemma_find_crlf(s@);
            }
            let head = String::from_str(s.substring_char(0, i));
            let rest = s.substring_char(i + 2, len);
            proof {
                assert(head@ =~= s@.take(i as int));
                assert(rest@ =~= s@.skip(i + 2));
            }
            let mut out: Vec<String> = Vec::new();
            out.push(head);
            let mut tail_vec = split_crlf(rest);
            let ghost tail_views = strings_views(tail_vec@);
            while tail_vec.len() > 0
                invariant
                    out@.len() >= 1,
                    out@.len() + tail_vec@.len() == tail_views.len() + 1,
                    forall|i2: int|
                        0 <= i2 < tail_vec@.len() ==> #[trigger] tail_vec@[i2]@
                            == tail_views.index(i2 + out@.len() - 1),
                    out@[0]@ == s@.take(i as int),
                    forall|i2: int|
                        1 <= i2 < out@.len() ==> #[trigger] out@[i2]@ == tail_views.index(i2 - 1),
                decreases tail_vec@.len(),
            {
                let piece = tail_vec.remove(0);
                out.push(piece);
            }
            proof {
                assert(strings_views(out@) =~= split_crlf_spec(s@));
            }
            out
        },
        None => {
            proof {
                lemma_find_crlf(s@);
                if find_crlf(s@) >= 0 {
                    assert(find_crlf(s@) + 2 <= s@.len());
                }
            }
            let mut out: Vec<String> = Vec::new();
            out.push(String::from_str(s));
            proof {
                assert(strings_views(out@) =~= split_crlf_spec(s@));
            }
            out
        },
    }
}

/// The tokens of a whole phrase: one per CRLF-separated line.
pub open spec fn tokens_of_phrase(s: Seq<char>) -> Seq<TokenView> {
    split_crlf_spec(s).map_values(|line: Seq<char>| token_of_line(line))
}

/// The message a whole phrase denotes, if its tokens parse.
pub open spec fn parse_phrase_spec(s: Seq<char>) -> Option<MessageView> {
    match parse_msg_spec(tokens_of_phrase(s)) {
        Some(got) => Some(got.0),
        None => None,
    }
}

/// Splits a phrase on CRLF, reads each line as a token, and parses the
/// tokens into one message.
pub fn parse_message_phrase(phrase: &str) -> (r: Result<Message, Error>)
    ensures
        match r {
            Ok(m) => parse_phrase_spec(phrase@) == Some(m@),
            Err(_) => parse_phrase_spec(phrase@) is None,
        },
{
    let lines = split_crlf(phrase);
    let mut tokens: Vec<Token> = Vec::new();
    let mut k: usize = 0;
    while k < lines.len()
        invariant
            0 <= k <= lines@.len(),
            tokens@.len() == k,
            strings_views(lines@) == split_crlf_spec(phrase@),
            forall|i: int|
                0 <= i < k ==> #[trigger] tokens@[i]@ == token_of_line(lines@[i]@),
        decreases lines@.len() - k,
    {
        let t = Token::parse(lines[k].as_str());
        tokens.push(t);
        k += 1;
    }
    proof {
        assert(token_views(tokens@) =~= tokens_of_phrase(phrase@)) by {
            assert(forall|i: int|
                0 <= i < lines@.len() ==> #[trigger] lines@[i]@ == split_crlf_spec(phrase@)[i]);
        }
    }
    let (outcome, _rest) = parse_message(tokens.as_slice());
    outcome
}

// ---------------------------------------------------------------------------
// The resumable request reader
// ---------------------------------------------------------------------------

/// Buffers tokens read line by line until they form a whole message.
pub struct RequestState {
    tokens: Vec<Token>,
}

impl RequestState {
    /// An empty buffer.
    pub fn make() -> (r: RequestState)
        ensures
            r.buffered() == Seq::<TokenView>::empty(),
    {
        let r = RequestState { tokens: Vec::new() };
        proof {
            assert(r.buffered() =~= Seq::<TokenView>::empty());
        }
        r
    }

    /// The tokens buffered so far.
    pub closed spec fn buffered(&self) -> Seq<TokenView> {
        token_views(self.tokens@)
    }

    /// Adds one token read from the wire.
    pub fn add_token(&mut self, token: Token)
        ensures
            final(self).buffered() == old(self).buffered().push(token@),
    {
        self.tokens.push(token);
        proof {
            assert(token_views(self.tokens@) =~= token_views(old(self).tokens@).push(token@));
        }
    }

    /// Tries to parse the buffered tokens into one message; on success the
    /// consumed prefix leaves the buffer.
    pub fn try_parse_message(&mut self) -> (r: Option<Message>)
        ensures
            match r {
                Some(m) => {
                    &&& parse_msg_spec(old(self).buffered()) is Some
                    &&& m@ == parse_msg_spec(old(self).buffered())->Some_0.0
                    &&& final(self).buffered() == old(self).buffered().skip(
                        parse_msg_spec(old(self).buffered())->Some_0.1,
                    )
                },
                None => {
                    &&& parse_msg_spec(old(self).buffered()) is None
                    &&& final(self).buffered() == old(self).buffered()
                },
            },
    {
        let total = self.tokens.len();
        let (outcome, remaining) = parse_message(self.tokens.as_slice());
        let keep = remaining.len();
        match outcome {
            Ok(m) => {
                proof {
                    lemma_parse_msg_used(token_views(self.tokens@));
                }
                let used = total - keep;
                let mut dropped: usize = 0;
                while dropped < used
                    invariant
                        0 <= dropped <= used,
                        used <= old(self).tokens@.len(),
                        self.tokens@ == old(self).tokens@.skip(dropped as int),
                    decreases used - dropped,
                {
                    let _ = self.tokens.remove(0);
                    proof {
                        assert(old(self).tokens@.skip(dropped as int).remove(0) =~= old(
                            self,
                        ).tokens@.skip(dropped + 1));
                    }
                    dropped += 1;
                }
                proof {
                    let used_spec = parse_msg_spec(token_views(old(self).tokens@))->Some_0.1;
                    assert(token_views(old(self).tokens@.skip(used_spec)) =~= token_views(
                        old(self).tokens@,
                    ).skip(used_spec));
                }
                Some(m)
            },
            Err(_) => {
                proof {
                    assert(self.tokens@ == old(self).tokens@);
                }
                None
            },
        }
    }

    /// Whether the buffered stream is dead: a head line that read as no
    /// token begins no message, however many more lines arrive, so the
    /// connection should stop with an input error.
    pub fn failed(&self) -> (r: Option<Error>)
        ensures
            match r {
                Some(e) => {
                    &&& e is InvalidData
                    &&& self.buffered().len() > 0
                    &&& self.buffered()[0] is Literal
                },
                None => self.buffered().len() == 0 || !(self.buffered()[0] is Literal),
            },
    {
        proof {
            reveal_strlit("Will not parse token stream");
        }
        if self.tokens.len() > 0 {
            match &self.tokens[0] {
                Token::Literal(_) => {
                    return Some(
                        Error::InvalidData(String::from_str("Will not parse token stream")),
                    );
                },
                _ => {},
            }
        }
        None
    }

    /// An error message naming the tokens that could not be understood.
    pub fn as_unknown_command_error_message(&self) -> (r: Message)
        ensures
            r@ is Error,
            r@->prefix is Canonical,
    {
        proof {
            reveal_strlit("unknown command ");
        }
        let mut text = String::from_str("unknown command ");
        let mut k: usize = 0;
        while k < self.tokens.len()
            decreases self.tokens@.len() - k,
        {
            text.append(self.tokens[k].raw_image());
            k += 1;
        }
        Message::Error { prefix: ErrorPrefix::Canonical, message: text }
    }
}


// ---------------------------------------------------------------------------
// The codec round trip
// ---------------------------------------------------------------------------

/// The sequence holds no CRLF pair, so line framing cannot cut it.
pub open spec fn no_crlf(s: Seq<char>) -> bool {
    forall|i: int| 0 <= i < s.len() - 1 ==> !((#[trigger] s[i]) == '\r' && s[i + 1] == '\n')
}

/// A word with no whitespace at all, as an error prefix must be.
pub open spec fn plain_word(s: Seq<char>) -> bool {
    s.len() >= 1 && forall|i: int|
        0 <= i < s.len() ==> !crate::text::is_space_char(#[trigger] s[i])
}

/// Trimming the sequence changes nothing.
pub open spec fn trim_stable(s: Seq<char>) -> bool {
    crate::text::trim_spec(s) == s
}

/// The messages whose encoding reads back as the same value: payloads hold
/// no CRLF pair, error prefixes are words other than the canonical one,
/// error texts are trim-stable, and lengths fit the wire counters.
pub open spec fn wf_message(m: MessageView) -> bool
    decreases m,
{
    match m {
        MessageView::SimpleString(s) => no_crlf(s),
        MessageView::Error { prefix, message } => {
            &&& (match prefix {
                PrefixView::Canonical => true,
                PrefixView::Named(p) => plain_word(p) && p != seq!['E', 'R', 'R'],
                PrefixView::Empty => false,
            })
            &&& trim_stable(message)
            &&& no_crlf(message)
        },
        MessageView::Integer(i) => i64::MIN <= i <= i64::MAX,
        MessageView::BulkString(s) => no_crlf(s) && s.len() <= i32::MAX,
        MessageView::Array(es) => es.len() <= i32::MAX && (forall|i: int|
            0 <= i < es.len() ==> wf_message(#[trigger] es[i])),
        MessageView::Nil => true,
    }
}

/// The CRLF-separated lines a message encodes onto, in order.
pub open spec fn lines_of(m: MessageView) -> Seq<Seq<char>>
    decreases m,
{
    match m {
        MessageView::SimpleString(s) => seq![seq!['+'] + s],
        MessageView::Error { prefix, message } => seq![
            seq!['-'] + prefix_text(prefix) + seq![' '] + message,
        ],
        MessageView::Integer(i) => seq![seq![':'] + int_str_of(i)],
        MessageView::BulkString(s) => seq![seq!['$'] + dec_str_of(s.len()), s],
        MessageView::Array(es) => seq![seq!['*'] + dec_str_of(es.len())] + lines_of_seq(es),
        MessageView::Nil => seq![seq!['$', '-', '1']],
    }
}

/// The lines of a sequence of messages, concatenated.
pub open spec fn lines_of_seq(es: Seq<MessageView>) -> Seq<Seq<char>>
    decreases es,
{
    if es.len() == 0 {
        Seq::empty()
    } else {
        lines_of(es[0]) + lines_of_seq(es.drop_first())
    }
}

/// The tokens the lines read as.
pub open spec fn tokens_of_lines(ls: Seq<Seq<char>>) -> Seq<TokenView> {
    ls.map_values(|l: Seq<char>| token_of_line(l))
}

/// A numeral of plain digits reads back as its value.
proof fn lemma_dec_str_opt_int(n: nat)
    requires
        n <= i64::MAX,
    ensures
        opt_int_of(dec_str_of(n)) == Some(n as int),
{
    crate::text::lemma_dec_str_digits(n);
    crate::text::lemma_dec_str_val(n);
    let s = dec_str_of(n);
    assert(s[0] != '-' && s[0] != '+') by {
        assert(crate::text::is_digit(s[0]));
    }
}

/// Whatever a line reads as, its raw image is the line itself.
proof fn lemma_raw_image(l: Seq<char>)
    ensures
        raw_image_spec(token_of_line(l)) == l,
{
}

/// A well-formed error payload reads back as the same error.
proof fn lemma_parse_error_round(prefix: PrefixView, message: Seq<char>)
    requires
        wf_message((MessageView::Error { prefix, message })),
    ensures
        parse_error_spec(prefix_text(prefix) + seq![' '] + message) == (MessageView::Error {
            prefix,
            message,
        }),
{
    let p = prefix_text(prefix);
    let tail = p + seq![' '] + message;
    assert(p.len() >= 1) by {
        match prefix {
            PrefixView::Canonical => {},
            PrefixView::Named(w) => {},
            PrefixView::Empty => {},
        }
    }
    assert(forall|i: int| 0 <= i < p.len() ==> #[trigger] p[i] != ' ') by {
        match prefix {
            PrefixView::Canonical => {
                assert(p == seq!['E', 'R', 'R']);
            },
            PrefixView::Named(w) => {
                assert(forall|i: int|
                    0 <= i < w.len() ==> !crate::text::is_space_char(#[trigger] w[i]));
            },
            PrefixView::Empty => {},
        }
    }
    // the first space is the separator
    crate::text::lemma_find_space(tail);
    let fs = crate::text::find_space(tail);
    assert(tail[p.len() as int] == ' ');
    if fs == -1 {
        assert(tail[p.len() as int] != ' ');
        assert(false);
    }
    if fs < p.len() {
        assert(tail[fs] == ' ');
        assert(tail[fs] == p[fs]);
        assert(false);
    }
    if fs > p.len() {
        assert(tail[p.len() as int] != ' ');
        assert(false);
    }
    assert(fs == p.len());
    assert(tail.take(fs) =~= p);
    assert(tail.skip(fs) =~= seq![' '] + message);
    // the prefix word is already trimmed
    lemma_trim_id(p);
    // and the message loses only the separator space
    lemma_trim_space_prefix(message);
    match prefix {
        PrefixView::Canonical => {
            assert(prefix_make_spec(p) == PrefixView::Canonical);
        },
        PrefixView::Named(w) => {
            assert(prefix_make_spec(p) == PrefixView::Named(w));
        },
        PrefixView::Empty => {},
    }
}

/// A sequence with no whitespace at its ends trims to itself.
proof fn lemma_trim_id(s: Seq<char>)
    requires
        s.len() == 0 || (!crate::text::is_space_char(s[0]) && !crate::text::is_space_char(
            s.last(),
        )),
    ensures
        crate::text::trim_spec(s) == s,
{
    assert(crate::text::trim_start_count(s) == 0);
    assert(s.skip(0) =~= s);
    assert(crate::text::trim_end_count(s) == 0);
    assert(s.take(s.len() as int) =~= s);
}

/// Prepending the separator space to a trim-stable text trims back to the
/// text.
proof fn lemma_trim_space_prefix(msg: Seq<char>)
    requires
        trim_stable(msg),
    ensures
        crate::text::trim_spec(seq![' '] + msg) == msg,
{
    let padded = seq![' '] + msg;
    crate::text::lemma_trim_start_count(msg);
    crate::text::lemma_trim_end_count(msg);
    // a stable trim means no whitespace at either end
    let tsc = crate::text::trim_start_count(msg);
    let tec = crate::text::trim_end_count(crate::text::trim_spec(msg));
    assert(crate::text::trim_spec(msg).len() == msg.len());
    let rest0 = msg.skip(crate::text::trim_start_count(msg));
    crate::text::lemma_trim_end_count(rest0);
    assert(crate::text::trim_spec(msg).len() <= rest0.len() && rest0.len() <= msg.len());
    assert(tsc == 0);
    assert(rest0 =~= msg);
    assert(crate::text::trim_end_count(msg) == 0);
    assert(padded[0] == ' ');
    assert(padded.drop_first() =~= msg);
    assert(crate::text::trim_start_count(padded) == 1 + crate::text::trim_start_count(msg));
    let rest = padded.skip(1);
    assert(rest =~= msg);
    assert(crate::text::trim_spec(padded) == rest.take(
        rest.len() - crate::text::trim_end_count(rest),
    ));
    assert(msg.take(msg.len() as int) =~= msg);
}

/// Parsing the tokens of an encoded message consumes exactly its lines and
/// yields the message back.
pub proof fn lemma_parse_encoded(m: MessageView, rest: Seq<TokenView>)
    requires
        wf_message(m),
    ensures
        parse_msg_spec(tokens_of_lines(lines_of(m)) + rest) == Some(
            (m, lines_of(m).len() as int),
        ),
    decreases m, 0int,
{
    let ts = tokens_of_lines(lines_of(m)) + rest;
    match m {
        MessageView::SimpleString(s) => {
            let line = seq!['+'] + s;
            assert(ts[0] == token_of_line(line));
            assert(line.drop_first() =~= s);
            assert(ts.drop_first() =~= rest);
        },
        MessageView::Error { prefix, message } => {
            let line = seq!['-'] + (prefix_text(prefix) + seq![' '] + message);
            assert(lines_of(m) == seq![seq!['-'] + prefix_text(prefix) + seq![' '] + message]);
            assert(seq!['-'] + prefix_text(prefix) + seq![' '] + message =~= line);
            assert(ts[0] == token_of_line(line));
            assert(line[0] == '-');
            assert(line.drop_first() =~= prefix_text(prefix) + seq![' '] + message);
            lemma_parse_error_round(prefix, message);
            assert(ts.drop_first() =~= rest);
        },
        MessageView::Integer(i) => {
            let line = seq![':'] + int_str_of(i);
            assert(ts[0] == token_of_line(line));
            assert(line[0] == ':');
            assert(line.drop_first() =~= int_str_of(i));
            crate::text::lemma_int_str_val(i);
            assert(ts.drop_first() =~= rest);
        },
        MessageView::BulkString(s) => {
            let hdr = seq!['$'] + dec_str_of(s.len());
            assert(ts[0] == token_of_line(hdr));
            assert(hdr[0] == '$');
            assert(hdr.drop_first() =~= dec_str_of(s.len()));
            lemma_dec_str_opt_int(s.len());
            assert(ts[1] == token_of_line(s));
            lemma_raw_image(s);
            assert(ts.skip(2) =~= rest);
        },
        MessageView::Array(es) => {
            let hdr = seq!['*'] + dec_str_of(es.len());
            assert(ts[0] == token_of_line(hdr));
            assert(hdr[0] == '*');
            assert(hdr.drop_first() =~= dec_str_of(es.len()));
            lemma_dec_str_opt_int(es.len());
            assert(ts.drop_first() =~= tokens_of_lines(lines_of_seq(es)) + rest);
            lemma_parse_encoded_seq(es, rest);
            let got = parse_array_spec(es.len() as int, ts.drop_first());
            assert(got.0 == es && got.1 == lines_of_seq(es).len() as int);
            assert(lines_of(m).len() == 1 + lines_of_seq(es).len());
        },
        MessageView::Nil => {
            let line = seq!['$', '-', '1'];
            assert(ts[0] == token_of_line(line));
            assert(line[0] == '$');
            assert(line.drop_first() =~= seq!['-', '1']);
            assert(opt_int_of(seq!['-', '1']) == Some(-1)) by {
                let d = seq!['-', '1'].drop_first();
                assert(d =~= seq!['1']);
                assert(crate::text::is_digit_seq(d));
                assert(seq!['1'].drop_last() =~= Seq::<char>::empty());
                assert(crate::text::digits_val(Seq::<char>::empty()) == 0);
                assert(crate::text::digits_val(seq!['1']) == crate::text::digits_val(
                    Seq::<char>::empty(),
                ) * 10 + crate::text::digit_val('1'));
                assert(crate::text::digits_val(d) == 1);
            }
            assert(ts.drop_first() =~= rest);
        },
    }
}

/// Parsing the tokens of an encoded element list reads the elements back,
/// consuming exactly their lines.
pub proof fn lemma_parse_encoded_seq(es: Seq<MessageView>, rest: Seq<TokenView>)
    requires
        forall|i: int| 0 <= i < es.len() ==> wf_message(#[trigger] es[i]),
    ensures
        parse_array_spec(es.len() as int, tokens_of_lines(lines_of_seq(es)) + rest) == (
            es,
            lines_of_seq(es).len() as int,
        ),
    decreases es, 1int,
{
    let ts = tokens_of_lines(lines_of_seq(es)) + rest;
    if es.len() == 0 {
        assert(ts =~= rest);
        assert(parse_array_spec(0, rest) == (Seq::<MessageView>::empty(), 0int));
        assert(es =~= Seq::<MessageView>::empty());
    } else {
        let head = es[0];
        let tail = es.drop_first();
        let tail_ts = tokens_of_lines(lines_of_seq(tail)) + rest;
        assert(ts =~= tokens_of_lines(lines_of(head)) + tail_ts);
        lemma_parse_encoded(head, tail_ts);
        let used0 = lines_of(head).len() as int;
        assert(parse_msg_spec(ts) == Some((head, used0)));
        assert(lines_of(head).len() >= 1) by {
            match head {
                MessageView::SimpleString(_) => {},
                MessageView::Error { .. } => {},
                MessageView::Integer(_) => {},
                MessageView::BulkString(_) => {},
                MessageView::Array(_) => {},
                MessageView::Nil => {},
            }
        }
        assert(1 <= used0 <= ts.len());
        assert(ts.skip(used0) =~= tail_ts);
        assert(forall|i: int| 0 <= i < tail.len() ==> wf_message(#[trigger] tail[i]));
        lemma_parse_encoded_seq(tail, rest);
        let got_tail = parse_array_spec(es.len() - 1, tail_ts);
        assert(got_tail.0 == tail && got_tail.1 == lines_of_seq(tail).len() as int);
        let got = parse_array_spec(es.len() as int, ts);
        assert(got.0 == seq![head] + tail && got.1 == used0 + lines_of_seq(tail).len());
        assert(seq![head] + tail =~= es);
        assert(lines_of_seq(es).len() == lines_of(head).len() + lines_of_seq(tail).len());
    }
}


/// Concatenation keeps the no-pair property when the seam makes no pair.
proof fn lemma_no_crlf_concat(a: Seq<char>, b: Seq<char>)
    requires
        no_crlf(a),
        no_crlf(b),
        !(a.len() > 0 && b.len() > 0 && a.last() == '\r' && b[0] == '\n'),
    ensures
        no_crlf(a + b),
{
    let c = a + b;
    assert forall|i: int| 0 <= i < c.len() - 1 implies !((#[trigger] c[i]) == '\r' && c[i + 1]
        == '\n') by {
        if i < a.len() - 1 {
            assert(c[i] == a[i] && c[i + 1] == a[i + 1]);
        } else if i == a.len() - 1 {
            assert(c[i] == a.last() && c[i + 1] == b[0]);
        } else {
            assert(c[i] == b[i - a.len()] && c[i + 1] == b[i + 1 - a.len()]);
        }
    }
}

/// Decimal digits make no CRLF pair.
proof fn lemma_digits_no_crlf(s: Seq<char>)
    requires
        crate::text::is_digit_seq(s),
    ensures
        no_crlf(s),
{
    assert forall|i: int| 0 <= i < s.len() - 1 implies !((#[trigger] s[i]) == '\r' && s[i + 1]
        == '\n') by {
        assert(crate::text::is_digit(s[i]));
    }
}

/// Every line of a well-formed message is free of CRLF pairs.
proof fn lemma_lines_no_crlf(m: MessageView)
    requires
        wf_message(m),
    ensures
        forall|i: int| 0 <= i < lines_of(m).len() ==> no_crlf(#[trigger] lines_of(m)[i]),
    decreases m, 0int,
{
    match m {
        MessageView::SimpleString(s) => {
            lemma_no_crlf_concat(seq!['+'], s);
            assert(lines_of(m)[0] == seq!['+'] + s);
        },
        MessageView::Error { prefix, message } => {
            let p = prefix_text(prefix);
            assert(no_crlf(p)) by {
                match prefix {
                    PrefixView::Canonical => {
                        assert(forall|i: int|
                            0 <= i < p.len() - 1 ==> !((#[trigger] p[i]) == '\r' && p[i + 1]
                                == '\n'));
                    },
                    PrefixView::Named(w) => {
                        assert forall|i: int|
                            0 <= i < p.len() - 1 implies !((#[trigger] p[i]) == '\r' && p[i
                            + 1] == '\n') by {
                            assert(!crate::text::is_space_char(p[i]));
                        }
                    },
                    PrefixView::Empty => {},
                }
            }
            assert(p.len() > 0 ==> p.last() != '\r') by {
                match prefix {
                    PrefixView::Canonical => {},
                    PrefixView::Named(w) => {
                        if p.len() > 0 {
                            assert(!crate::text::is_space_char(p[p.len() - 1]));
                        }
                    },
                    PrefixView::Empty => {},
                }
            }
            lemma_no_crlf_concat(seq!['-'], p);
            lemma_no_crlf_concat(seq!['-'] + p, seq![' ']);
            lemma_no_crlf_concat(seq!['-'] + p + seq![' '], message);
            assert(lines_of(m)[0] == seq!['-'] + p + seq![' '] + message);
            assert(no_crlf(lines_of(m)[0]));
        },
        MessageView::Integer(i) => {
            crate::text::lemma_dec_str_digits(if i < 0 {
                (-i) as nat
            } else {
                i as nat
            });
            if i < 0 {
                lemma_digits_no_crlf(dec_str_of((-i) as nat));
                lemma_no_crlf_concat(seq!['-'], dec_str_of((-i) as nat));
                lemma_no_crlf_concat(seq![':'], seq!['-'] + dec_str_of((-i) as nat));
                assert(lines_of(m)[0] =~= seq![':'] + (seq!['-'] + dec_str_of((-i) as nat)));
                assert(no_crlf(lines_of(m)[0]));
            } else {
                lemma_digits_no_crlf(dec_str_of(i as nat));
                lemma_no_crlf_concat(seq![':'], dec_str_of(i as nat));
                assert(lines_of(m)[0] == seq![':'] + int_str_of(i));
                assert(no_crlf(lines_of(m)[0]));
            }
        },
        MessageView::BulkString(s) => {
            crate::text::lemma_dec_str_digits(s.len());
            lemma_digits_no_crlf(dec_str_of(s.len()));
            lemma_no_crlf_concat(seq!['$'], dec_str_of(s.len()));
            assert(lines_of(m)[0] == seq!['$'] + dec_str_of(s.len()));
            assert(lines_of(m)[1] == s);
        },
        MessageView::Array(es) => {
            crate::text::lemma_dec_str_digits(es.len());
            lemma_digits_no_crlf(dec_str_of(es.len()));
            lemma_no_crlf_concat(seq!['*'], dec_str_of(es.len()));
            lemma_lines_no_crlf_seq(es);
            assert forall|i: int|
                0 <= i < lines_of(m).len() implies no_crlf(#[trigger] lines_of(m)[i]) by {
                if i == 0 {
                    assert(lines_of(m)[0] == seq!['*'] + dec_str_of(es.len()));
                } else {
                    assert(lines_of(m)[i] == lines_of_seq(es)[i - 1]);
                }
            }
        },
        MessageView::Nil => {
            assert(no_crlf(seq!['$', '-', '1']));
            assert(lines_of(m)[0] == seq!['$', '-', '1']);
        },
    }
}

/// Every line of a well-formed element list is free of CRLF pairs.
proof fn lemma_lines_no_crlf_seq(es: Seq<MessageView>)
    requires
        forall|i: int| 0 <= i < es.len() ==> wf_message(#[trigger] es[i]),
    ensures
        forall|i: int|
            0 <= i < lines_of_seq(es).len() ==> no_crlf(#[trigger] lines_of_seq(es)[i]),
    decreases es, 1int,
{
    if es.len() > 0 {
        lemma_lines_no_crlf(es[0]);
        lemma_lines_no_crlf_seq(es.drop_first());
        assert forall|i: int|
            0 <= i < lines_of_seq(es).len() implies no_crlf(#[trigger] lines_of_seq(es)[i]) by {
            if i < lines_of(es[0]).len() {
                assert(lines_of_seq(es)[i] == lines_of(es[0])[i]);
            } else {
                assert(lines_of_seq(es)[i] == lines_of_seq(es.drop_first())[i - lines_of(
                    es[0],
                ).len()]);
            }
        }
    }
}

/// A CRLF after a pair-free piece is the first separator: splitting peels
/// the piece off.
proof fn lemma_split_piece(p: Seq<char>, rest: Seq<char>)
    requires
        no_crlf(p),
    ensures
        split_crlf_spec(p + crlf() + rest) == seq![p] + split_crlf_spec(rest),
{
    let s = p + crlf() + rest;
    lemma_find_crlf(s);
    let f = find_crlf(s);
    assert(s[p.len() as int] == '\r' && s[p.len() as int + 1] == '\n');
    if f == -1 {
        assert(!(s[p.len() as int] == '\r' && s[p.len() as int + 1] == '\n'));
        assert(false);
    }
    if f < p.len() {
        if f < p.len() - 1 {
            assert(s[f] == p[f] && s[f + 1] == p[f + 1]);
            assert(!(p[f] == '\r' && p[f + 1] == '\n'));
        } else {
            assert(s[f] == p[f] && s[f + 1] == '\r');
        }
        assert(false);
    }
    if f > p.len() {
        assert(!(s[p.len() as int] == '\r' && s[p.len() as int + 1] == '\n'));
        assert(false);
    }
    assert(f == p.len());
    assert(s.take(f) =~= p);
    assert(s.skip(f + 2) =~= rest);
}

/// The encoded elements, line-split with a suffix, are their lines followed
/// by the split of the suffix.
proof fn lemma_split_encoded(m: MessageView, suffix: Seq<char>)
    requires
        wf_message(m),
    ensures
        split_crlf_spec(encode_spec(m) + suffix) == lines_of(m) + split_crlf_spec(suffix),
    decreases m, 0int,
{
    lemma_lines_no_crlf(m);
    match m {
        MessageView::SimpleString(s) => {
            let line = seq!['+'] + s;
            assert(lines_of(m)[0] == line);
            assert(encode_spec(m) + suffix =~= line + crlf() + suffix);
            lemma_split_piece(line, suffix);
            assert(seq![line] =~= lines_of(m));
        },
        MessageView::Error { prefix, message } => {
            let line = seq!['-'] + prefix_text(prefix) + seq![' '] + message;
            assert(lines_of(m)[0] == line);
            assert(encode_spec(m) + suffix =~= line + crlf() + suffix);
            lemma_split_piece(line, suffix);
            assert(seq![line] =~= lines_of(m));
        },
        MessageView::Integer(i) => {
            let line = seq![':'] + int_str_of(i);
            assert(lines_of(m)[0] == line);
            assert(encode_spec(m) + suffix =~= line + crlf() + suffix);
            lemma_split_piece(line, suffix);
            assert(seq![line] =~= lines_of(m));
        },
        MessageView::BulkString(s) => {
            let hdr = seq!['$'] + dec_str_of(s.len());
            assert(lines_of(m)[0] == hdr);
            assert(lines_of(m)[1] == s);
            assert(encode_spec(m) + suffix =~= hdr + crlf() + (s + crlf() + suffix));
            lemma_split_piece(hdr, s + crlf() + suffix);
            lemma_split_piece(s, suffix);
            assert(seq![hdr] + (seq![s] + split_crlf_spec(suffix)) =~= lines_of(m)
                + split_crlf_spec(suffix));
        },
        MessageView::Array(es) => {
            let hdr = seq!['*'] + dec_str_of(es.len());
            assert(lines_of(m)[0] == hdr);
            assert(encode_spec(m) + suffix =~= hdr + crlf() + (encode_seq_spec(es) + suffix));
            lemma_split_piece(hdr, encode_seq_spec(es) + suffix);
            lemma_split_encoded_seq(es, suffix);
            assert(seq![hdr] + (lines_of_seq(es) + split_crlf_spec(suffix)) =~= lines_of(m)
                + split_crlf_spec(suffix));
        },
        MessageView::Nil => {
            let line = seq!['$', '-', '1'];
            assert(lines_of(m)[0] == line);
            assert(encode_spec(m) + suffix =~= line + crlf() + suffix);
            lemma_split_piece(line, suffix);
            assert(seq![line] =~= lines_of(m));
        },
    }
}

/// The element encodings concatenate head first.
proof fn lemma_encode_seq_head(es: Seq<MessageView>)
    requires
        es.len() > 0,
    ensures
        encode_seq_spec(es) == encode_spec(es[0]) + encode_seq_spec(es.drop_first()),
    decreases es,
{
    if es.len() == 1 {
        assert(es.drop_last() =~= Seq::<MessageView>::empty());
        assert(es.drop_first() =~= Seq::<MessageView>::empty());
        assert(encode_seq_spec(es) == encode_seq_spec(es.drop_last()) + encode_spec(es.last()));
        assert(encode_spec(es[0]) + encode_seq_spec(es.drop_first()) =~= encode_seq_spec(es));
    } else {
        lemma_encode_seq_head(es.drop_last());
        assert(es.drop_last()[0] == es[0]);
        assert(es.drop_last().drop_first() =~= es.drop_first().drop_last());
        assert(es.drop_first().last() == es.last());
        assert(encode_seq_spec(es) == encode_seq_spec(es.drop_last()) + encode_spec(es.last()));
        assert(encode_seq_spec(es.drop_last()) == encode_spec(es[0]) + encode_seq_spec(
            es.drop_first().drop_last(),
        ));
        assert(encode_seq_spec(es.drop_first()) == encode_seq_spec(es.drop_first().drop_last())
            + encode_spec(es.drop_first().last()));
        assert(encode_seq_spec(es) =~= encode_spec(es[0]) + encode_seq_spec(es.drop_first()));
    }
}

/// Splitting the encoded element list peels each element's lines in turn.
proof fn lemma_split_encoded_seq(es: Seq<MessageView>, suffix: Seq<char>)
    requires
        forall|i: int| 0 <= i < es.len() ==> wf_message(#[trigger] es[i]),
    ensures
        split_crlf_spec(encode_seq_spec(es) + suffix) == lines_of_seq(es) + split_crlf_spec(
            suffix,
        ),
    decreases es, 1int,
{
    if es.len() == 0 {
        assert(encode_seq_spec(es) + suffix =~= suffix);
        assert(lines_of_seq(es) + split_crlf_spec(suffix) =~= split_crlf_spec(suffix));
    } else {
        lemma_encode_seq_head(es);
        assert(encode_seq_spec(es) + suffix =~= encode_spec(es[0]) + (encode_seq_spec(
            es.drop_first(),
        ) + suffix));
        lemma_split_encoded(es[0], encode_seq_spec(es.drop_first()) + suffix);
        lemma_split_encoded_seq(es.drop_first(), suffix);
        assert(lines_of(es[0]) + (lines_of_seq(es.drop_first()) + split_crlf_spec(suffix))
            =~= lines_of_seq(es) + split_crlf_spec(suffix));
    }
}

/// The codec round trip: a well-formed message, encoded and read back as a
/// whole phrase, comes back unchanged.
pub proof fn lemma_codec_round_trip(m: MessageView)
    requires
        wf_message(m),
    ensures
        parse_phrase_spec(encode_spec(m)) == Some(m),
{
    let enc = encode_spec(m);
    assert(enc =~= enc + Seq::<char>::empty());
    lemma_split_encoded(m, Seq::empty());
    assert(split_crlf_spec(Seq::<char>::empty()) == seq![Seq::<char>::empty()]);
    assert(split_crlf_spec(enc) == lines_of(m) + seq![Seq::<char>::empty()]);
    let empty_line = Seq::<char>::empty();
    assert(token_of_line(empty_line) == TokenView::Literal(empty_line));
    assert(tokens_of_phrase(enc) =~= tokens_of_lines(lines_of(m)) + seq![
        TokenView::Literal(empty_line),
    ]);
    lemma_parse_encoded(m, seq![TokenView::Literal(empty_line)]);
}



/// A stream whose head token is no token at all stays unreadable whatever
/// arrives after it: the failure is permanent, not a lack of input.
pub proof fn lemma_literal_head_dead(ts: Seq<TokenView>, more: Seq<TokenView>)
    requires
        ts.len() > 0,
        ts[0] is Literal,
    ensures
        parse_msg_spec(ts + more) is None,
{
    assert((ts + more)[0] == ts[0]);
}

/// Decoder resumability: once the buffered tokens parse as a message, any
/// further tokens fed later leave that message and its extent unchanged, so
/// reading a stream in pieces decodes as reading it whole.
pub proof fn lemma_parse_prefix_stable(ts: Seq<TokenView>, more: Seq<TokenView>)
    requires
        parse_msg_spec(ts) is Some,
    ensures
        parse_msg_spec(ts + more) == parse_msg_spec(ts),
    decreases ts, 0int,
{
    let ext = ts + more;
    assert(ext[0] == ts[0]);
    match ts[0] {
        TokenView::Trivial { parsed, image } => {
            assert(ext.drop_first().take(0) =~= ts.drop_first().take(0));
        },
        TokenView::BulkString { parsed: n, image } => {
            if n != -1 {
                assert(ts.len() >= 2);
                assert(ext[1] == ts[1]);
            }
        },
        TokenView::Array { parsed: n, image } => {
            if n >= 0 {
                let got = parse_array_spec(n, ts.drop_first());
                assert(got.0.len() == n);
                assert(ext.drop_first() =~= ts.drop_first() + more);
                lemma_parse_array_prefix_stable(n, ts.drop_first(), more);
            }
        },
        TokenView::Literal(image) => {},
    }
}

/// A fully read element list is unchanged by further tokens.
pub proof fn lemma_parse_array_prefix_stable(
    count: int,
    ts: Seq<TokenView>,
    more: Seq<TokenView>,
)
    requires
        count >= 0,
        parse_array_spec(count, ts).0.len() == count,
    ensures
        parse_array_spec(count, ts + more) == parse_array_spec(count, ts),
    decreases ts, count + 1,
{
    if count > 0 {
        let head = parse_msg_spec(ts);
        match head {
            Some(got0) => {
                if 1 <= got0.1 <= ts.len() {
                    lemma_parse_prefix_stable(ts, more);
                    lemma_parse_msg_used(ts);
                    let rest = parse_array_spec(count - 1, ts.skip(got0.1));
                    assert(parse_array_spec(count, ts).0 == seq![got0.0] + rest.0);
                    assert(rest.0.len() == count - 1);
                    assert((ts + more).skip(got0.1) =~= ts.skip(got0.1) + more);
                    lemma_parse_array_prefix_stable(count - 1, ts.skip(got0.1), more);
                } else {
                    assert(parse_array_spec(count, ts).0.len() == 0);
                }
            },
            None => {
                assert(parse_array_spec(count, ts).0.len() == 0);
            },
        }
    } else {
        assert(parse_array_spec(0, ts) == (Seq::<MessageView>::empty(), 0int));
        assert(parse_array_spec(0, ts + more) == (Seq::<MessageView>::empty(), 0int));
    }
}

} // verus!
