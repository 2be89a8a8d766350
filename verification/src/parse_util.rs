//! Line-cursor utilities for the assembly parser.
//!
//! A [`Buffer`] is a read position inside one source line: the bytes still
//! to be consumed, the 1-based source row, and the byte column of the
//! cursor.  Every operation's meaning is stated by a matching spec
//! combinator over [`BufM`], the mathematical cursor, so the parser built
//! on top has an exact, compositional specification.  The implementations
//! assume one line only (no newline handling here).

use vstd::prelude::*;
use vstd::slice::{slice_subrange, slice_to_vec};

verus! {

/// A parse error position: optionally a (start, end) column pair.
pub type Span = Option<(usize, usize)>;

/// A structured parse failure: what was expected, and where.
#[derive(Clone, Debug, PartialEq)]
pub enum ParseError {
    Expected { msg: Vec<u8>, row: usize, span: Span },
}

/// The model of a [`ParseError`].
pub struct ParseErrorM {
    pub msg: Seq<u8>,
    pub row: int,
    pub span: Span,
}

impl DeepView for ParseError {
    type V = ParseErrorM;

    open spec fn deep_view(&self) -> ParseErrorM {
        match self {
            ParseError::Expected { msg, row, span } => ParseErrorM {
                msg: msg@,
                row: *row as int,
                span: *span,
            },
        }
    }
}

impl View for ParseError {
    type V = ParseErrorM;

    open spec fn view(&self) -> ParseErrorM {
        self.deep_view()
    }
}

/// Turns a value into an error span.
pub trait IntoSpan: Sized {
    /// The span this value denotes.
    spec fn spec_span(self) -> Span;

    /// Executes [`IntoSpan::spec_span`].
    fn into_span(self) -> (r: Span)
        ensures
            r == self.spec_span(),
    ;
}

impl IntoSpan for usize {
    open spec fn spec_span(self) -> Span {
        Some((self, self))
    }

    fn into_span(self) -> (r: Span) {
        Some((self, self))
    }
}

impl IntoSpan for (usize, usize) {
    open spec fn spec_span(self) -> Span {
        Some(self)
    }

    fn into_span(self) -> (r: Span) {
        Some(self)
    }
}

impl IntoSpan for Option<()> {
    open spec fn spec_span(self) -> Span {
        None
    }

    fn into_span(self) -> (r: Span) {
        None
    }
}

impl ParseError {
    /// An "expected ..." error at the given row and span.
    pub fn expected<Sp: IntoSpan>(msg: Vec<u8>, row: usize, span: Sp) -> (r: ParseError)
        ensures
            r.deep_view() == (ParseErrorM { msg: msg@, row: row as int, span: span.spec_span() }),
    {
        ParseError::Expected { msg, row, span: span.into_span() }
    }
}

/// A cursor into one source line.
#[derive(Clone, Copy, Debug, PartialEq)]
pub struct Buffer<'a> {
    pub text: &'a [u8],
    pub row: usize,
    pub col: usize,
}

/// The model of a [`Buffer`].
#[verifier::ext_equal]
pub struct BufM {
    pub text: Seq<u8>,
    pub row: int,
    pub col: int,
}

impl<'a> View for Buffer<'a> {
    type V = BufM;

    open spec fn view(&self) -> BufM {
        BufM { text: self.text@, row: self.row as int, col: self.col as int }
    }
}

/// The column arithmetic of this cursor cannot overflow the machine.
pub open spec fn buf_wf(b: BufM) -> bool {
    b.col + b.text.len() <= usize::MAX
}

/// The error "expected `msg`" at the cursor's position.
pub open spec fn berr(b: BufM, msg: Seq<u8>) -> ParseErrorM {
    ParseErrorM { msg, row: b.row as usize as int, span: Some((b.col as usize, b.col as usize)) }
}

/// `b` is an ASCII whitespace byte (space, tab, or one of the ASCII line
/// control bytes).
pub open spec fn is_ws(b: u8) -> bool {
    b == 32 || 9 <= b <= 13
}

/// The length of the whitespace prefix of `s`.
pub open spec fn ws_len(s: Seq<u8>) -> int
    decreases s.len(),
{
    if s.len() > 0 && is_ws(s[0]) {
        1 + ws_len(s.skip(1))
    } else {
        0
    }
}

/// The length of `s` without its trailing whitespace.
pub open spec fn kept_len(s: Seq<u8>) -> int
    decreases s.len(),
{
    if s.len() > 0 && is_ws(s.last()) {
        kept_len(s.drop_last())
    } else {
        s.len() as int
    }
}

/// The cursor moved `off` bytes forward (clamped to the text's end).
pub open spec fn badvance(b: BufM, off: int) -> BufM {
    let o = if off <= b.text.len() {
        off
    } else {
        b.text.len() as int
    };
    BufM { text: b.text.skip(o), row: b.row, col: b.col + o }
}

/// The cursor past its whitespace prefix.
pub open spec fn btrim_left(b: BufM) -> BufM {
    badvance(b, ws_len(b.text))
}

/// The cursor without trailing whitespace.
pub open spec fn btrim_right(b: BufM) -> BufM {
    BufM { text: b.text.take(kept_len(b.text)), ..b }
}

/// `p` starts `s`.
pub open spec fn is_prefix(p: Seq<u8>, s: Seq<u8>) -> bool {
    p.len() <= s.len() && s.take(p.len() as int) == p
}

/// `t` wrapped in double quotes.
pub open spec fn quoted(t: Seq<u8>) -> Seq<u8> {
    seq![34u8] + t + seq![34u8]
}

/// The bytes of the literal `"end of input"`.
pub open spec fn msg_end_of_input() -> Seq<u8> {
    seq![101u8, 110u8, 100u8, 32u8, 111u8, 102u8, 32u8, 105u8, 110u8, 112u8, 117u8, 116u8]
}

/// The bytes of the literal `"whitespace"`.
pub open spec fn msg_whitespace() -> Seq<u8> {
    seq![119u8, 104u8, 105u8, 116u8, 101u8, 115u8, 112u8, 97u8, 99u8, 101u8]
}

/// The bytes of the literal `"either "`.
pub open spec fn msg_either() -> Seq<u8> {
    seq![101u8, 105u8, 116u8, 104u8, 101u8, 114u8, 32u8]
}

/// The bytes of the literal `" or "`.
pub open spec fn msg_or_sep() -> Seq<u8> {
    seq![32u8, 111u8, 114u8, 32u8]
}

/// The bytes of the literal `"one of "`.
pub open spec fn msg_one_of() -> Seq<u8> {
    seq![111u8, 110u8, 101u8, 32u8, 111u8, 102u8, 32u8]
}

/// The bytes of the literal `", "`.
pub open spec fn msg_comma() -> Seq<u8> {
    seq![44u8, 32u8]
}

/// The bytes of the literal `", or "`.
pub open spec fn msg_comma_or() -> Seq<u8> {
    seq![44u8, 32u8, 111u8, 114u8, 32u8]
}

/// The bytes of the literal `"error parsing token: "`.
pub open spec fn msg_parse_prefix() -> Seq<u8> {
    seq![101u8, 114u8, 114u8, 111u8, 114u8, 32u8, 112u8, 97u8, 114u8, 115u8, 105u8, 110u8, 103u8, 32u8, 116u8, 111u8, 107u8, 101u8, 110u8, 58u8, 32u8]
}


/// The message of [`Buffer::parse_til`]'s error: the prefix and the
/// offending token.
pub open spec fn msg_parse_err(t: Seq<u8>) -> Seq<u8> {
    msg_parse_prefix() + t
}

/// Builds [`msg_end_of_input`].
fn build_end_of_input() -> (r: Vec<u8>)
    ensures
        r@ == msg_end_of_input(),
{
    let mut v: Vec<u8> = Vec::new();
    v.push(101);
    v.push(110);
    v.push(100);
    v.push(32);
    v.push(111);
    v.push(102);
    v.push(32);
    v.push(105);
    v.push(110);
    v.push(112);
    v.push(117);
    v.push(116);
    proof {
        assert(v@ =~= msg_end_of_input());
    }
    v
}

/// Builds [`msg_whitespace`].
fn build_whitespace() -> (r: Vec<u8>)
    ensures
        r@ == msg_whitespace(),
{
    let mut v: Vec<u8> = Vec::new();
    v.push(119);
    v.push(104);
    v.push(105);
    v.push(116);
    v.push(101);
    v.push(115);
    v.push(112);
    v.push(97);
    v.push(99);
    v.push(101);
    proof {
        assert(v@ =~= msg_whitespace());
    }
    v
}

/// Builds [`msg_either`].
fn build_either() -> (r: Vec<u8>)
    ensures
        r@ == msg_either(),
{
    let mut v: Vec<u8> = Vec::new();
    v.push(101);
    v.push(105);
    v.push(116);
    v.push(104);
    v.push(101);
    v.push(114);
    v.push(32);
    proof {
        assert(v@ =~= msg_either());
    }
    v
}

/// Builds [`msg_or_sep`].
fn build_or_sep() -> (r: Vec<u8>)
    ensures
        r@ == msg_or_sep(),
{
    let mut v: Vec<u8> = Vec::new();
    v.push(32);
    v.push(111);
    v.push(114);
    v.push(32);
    proof {
        assert(v@ =~= msg_or_sep());
    }
    v
}

/// Builds [`msg_one_of`].
fn build_one_of() -> (r: Vec<u8>)
    ensures
        r@ == msg_one_of(),
{
    let mut v: Vec<u8> = Vec::new();
    v.push(111);
    v.push(110);
    v.push(101);
    v.push(32);
    v.push(111);
    v.push(102);
    v.push(32);
    proof {
        assert(v@ =~= msg_one_of());
    }
    v
}

/// Builds [`msg_comma`].
fn build_comma() -> (r: Vec<u8>)
    ensures
        r@ == msg_comma(),
{
    let mut v: Vec<u8> = Vec::new();
    v.push(44);
    v.push(32);
    proof {
        assert(v@ =~= msg_comma());
    }
    v
}

/// Builds [`msg_comma_or`].
fn build_comma_or() -> (r: Vec<u8>)
    ensures
        r@ == msg_comma_or(),
{
    let mut v: Vec<u8> = Vec::new();
    v.push(44);
    v.push(32);
    v.push(111);
    v.push(114);
    v.push(32);
    proof {
        assert(v@ =~= msg_comma_or());
    }
    v
}

/// Builds [`msg_parse_prefix`].
fn build_parse_prefix() -> (r: Vec<u8>)
    ensures
        r@ == msg_parse_prefix(),
{
    let mut v: Vec<u8> = Vec::new();
    v.push(101);
    v.push(114);
    v.push(114);
    v.push(111);
    v.push(114);
    v.push(32);
    v.push(112);
    v.push(97);
    v.push(114);
    v.push(115);
    v.push(105);
    v.push(110);
    v.push(103);
    v.push(32);
    v.push(116);
    v.push(111);
    v.push(107);
    v.push(101);
    v.push(110);
    v.push(58);
    v.push(32);
    proof {
        assert(v@ =~= msg_parse_prefix());
    }
    v
}


/// Builds [`quoted`].
fn build_quoted(t: &[u8]) -> (r: Vec<u8>)
    ensures
        r@ == quoted(t@),
{
    let mut v: Vec<u8> = Vec::new();
    v.push(34);
    v.extend_from_slice(t);
    v.push(34);
    proof {
        assert(v@ =~= quoted(t@));
    }
    v
}

/// Builds [`msg_parse_err`].
fn build_parse_err(t: &[u8]) -> (r: Vec<u8>)
    ensures
        r@ == msg_parse_err(t@),
{
    let mut v = build_parse_prefix();
    v.extend_from_slice(t);
    proof {
        assert(v@ =~= msg_parse_err(t@));
    }
    v
}

/// Decides [`is_ws`].
fn ws_byte(b: u8) -> (r: bool)
    ensures
        r == is_ws(b),
{
    b == 32 || (9 <= b && b <= 13)
}

/// [`ws_len`] stays within the text.
pub proof fn lemma_ws_len_bounds(s: Seq<u8>)
    ensures
        0 <= ws_len(s) <= s.len(),
    decreases s.len(),
{
    if s.len() > 0 && is_ws(s[0]) {
        lemma_ws_len_bounds(s.skip(1));
    }
}

/// A whitespace-prefix count found by scanning is [`ws_len`].
proof fn lemma_ws_len_at(s: Seq<u8>, i: int)
    requires
        0 <= i <= s.len(),
        forall|j: int| 0 <= j < i ==> is_ws(#[trigger] s[j]),
        i == s.len() || !is_ws(s[i]),
    ensures
        ws_len(s) == i,
    decreases i,
{
    if i == 0 {
    } else {
        assert(is_ws(s[0]));
        lemma_ws_len_at(s.skip(1), i - 1);
    }
}

/// [`kept_len`] stays within the text.
pub proof fn lemma_kept_len_bounds(s: Seq<u8>)
    ensures
        0 <= kept_len(s) <= s.len(),
    decreases s.len(),
{
    if s.len() > 0 && is_ws(s.last()) {
        lemma_kept_len_bounds(s.drop_last());
    }
}

/// A kept length found by scanning backwards is [`kept_len`].
proof fn lemma_kept_len_at(s: Seq<u8>, j: int)
    requires
        0 <= j <= s.len(),
        forall|k: int| j <= k < s.len() ==> is_ws(#[trigger] s[k]),
        j == 0 || !is_ws(s[j - 1]),
    ensures
        kept_len(s) == j,
    decreases s.len(),
{
    if s.len() > 0 && is_ws(s.last()) {
        assert(j < s.len());
        lemma_kept_len_at(s.drop_last(), j);
    }
}

impl<'a> Buffer<'a> {
    /// The cursor moved `offset` bytes forward, clamped to the end of the
    /// text; the column advances by the same amount.
    pub fn advance(&self, offset: usize) -> (r: Buffer<'a>)
        requires
            buf_wf(self@),
        ensures
            r@ == badvance(self@, offset as int),
            buf_wf(r@),
    {
        let off = if offset <= self.text.len() {
            offset
        } else {
            self.text.len()
        };
        let r = Buffer {
            text: slice_subrange(self.text, off, self.text.len()),
            row: self.row,
            col: self.col + off,
        };
        proof {
            assert(r@.text =~= badvance(self@, offset as int).text);
            assert(r@ =~= badvance(self@, offset as int));
        }
        r
    }

    /// The cursor past its leading whitespace.
    pub fn trim_left(&self) -> (r: Buffer<'a>)
        requires
            buf_wf(self@),
        ensures
            r@ == btrim_left(self@),
            buf_wf(r@),
    {
        let n = self.text.len();
        let mut i: usize = 0;
        while i < n && ws_byte(self.text[i])
            invariant
                0 <= i <= n,
                n == self.text@.len(),
                forall|j: int| 0 <= j < i ==> is_ws(#[trigger] self.text@[j]),
            decreases n - i,
        {
            i += 1;
        }
        proof {
            lemma_ws_len_at(self.text@, i as int);
        }
        self.advance(i)
    }

    /// The cursor without trailing whitespace; the column does not move.
    pub fn trim_right(&self) -> (r: Buffer<'a>)
        ensures
            r@ == btrim_right(self@),
            buf_wf(self@) ==> buf_wf(r@),
    {
        proof {
            lemma_kept_len_bounds(self.text@);
        }
        let n = self.text.len();
        let mut j: usize = n;
        while j > 0 && ws_byte(self.text[j - 1])
            invariant
                0 <= j <= n,
                n == self.text@.len(),
                forall|k: int| j <= k < n ==> is_ws(#[trigger] self.text@[k]),
            decreases j,
        {
            j -= 1;
        }
        proof {
            lemma_kept_len_at(self.text@, j as int);
        }
        let r = Buffer { text: slice_subrange(self.text, 0, j), row: self.row, col: self.col };
        proof {
            assert(r@ =~= btrim_right(self@));
        }
        r
    }

    /// The cursor trimmed on both sides.
    pub fn trim(&self) -> (r: Buffer<'a>)
        requires
            buf_wf(self@),
        ensures
            r@ == btrim_right(btrim_left(self@)),
            buf_wf(r@),
    {
        self.trim_left().trim_right()
    }

    /// The error "expected `msg`" at this cursor's position.
    pub fn expected(&self, msg: Vec<u8>) -> (r: ParseError)
        ensures
            r.deep_view() == berr(self@, msg@),
    {
        ParseError::expected(msg, self.row, self.col)
    }
}

/// Succeeding exactly at the end of the line.
pub open spec fn bend(b: BufM) -> Result<BufM, ParseErrorM> {
    if b.text.len() == 0 {
        Ok(b)
    } else {
        Err(berr(b, msg_end_of_input()))
    }
}

/// Consuming at least one whitespace byte.
pub open spec fn bspace(b: BufM) -> Result<BufM, ParseErrorM> {
    if b.text.len() > 0 && is_ws(b.text[0]) {
        Ok(btrim_left(b))
    } else {
        Err(berr(b, msg_whitespace()))
    }
}

/// Whitespace, unless the line has ended.
pub open spec fn bspace_or_end(b: BufM) -> Result<BufM, ParseErrorM> {
    if b.text.len() == 0 {
        Ok(b)
    } else {
        bspace(b)
    }
}

/// Consuming the literal `t`.
pub open spec fn btoken(b: BufM, t: Seq<u8>) -> Result<BufM, ParseErrorM> {
    if is_prefix(t, b.text) {
        Ok(badvance(b, t.len() as int))
    } else {
        Err(berr(b, quoted(t)))
    }
}

impl<'a> Buffer<'a> {
    /// Succeeds only at the end of the line.
    pub fn end(&self) -> (r: Result<Buffer<'a>, ParseError>)
        ensures
            (match r {
                Ok(b) => bend(self@) == Ok::<BufM, ParseErrorM>(b@),
                Err(e) => bend(self@) == Err::<BufM, ParseErrorM>(e.deep_view()),
            }),
    {
        if self.text.len() == 0 {
            Ok(*self)
        } else {
            Err(self.expected(build_end_of_input()))
        }
    }

    /// Consumes at least one whitespace byte.
    pub fn space(&self) -> (r: Result<Buffer<'a>, ParseError>)
        requires
            buf_wf(self@),
        ensures
            (match r {
                Ok(b) => bspace(self@) == Ok::<BufM, ParseErrorM>(b@) && buf_wf(b@),
                Err(e) => bspace(self@) == Err::<BufM, ParseErrorM>(e.deep_view()),
            }),
    {
        if self.text.len() > 0 && ws_byte(self.text[0]) {
            Ok(self.trim_left())
        } else {
            Err(self.expected(build_whitespace()))
        }
    }

    /// Consumes whitespace, or succeeds at the end of the line.
    pub fn space_or_end(&self) -> (r: Result<Buffer<'a>, ParseError>)
        requires
            buf_wf(self@),
        ensures
            (match r {
                Ok(b) => bspace_or_end(self@) == Ok::<BufM, ParseErrorM>(b@) && buf_wf(b@),
                Err(e) => bspace_or_end(self@) == Err::<BufM, ParseErrorM>(e.deep_view()),
            }),
    {
        if self.text.len() == 0 {
            Ok(*self)
        } else {
            self.space()
        }
    }

    /// Whether the remaining text starts with `prefix`.
    pub fn starts_with(&self, prefix: &[u8]) -> (r: bool)
        ensures
            r == is_prefix(prefix@, self.text@),
    {
        let pn = prefix.len();
        if pn > self.text.len() {
            proof {
                assert(!is_prefix(prefix@, self.text@));
            }
            return false;
        }
        let mut i: usize = 0;
        while i < pn
            invariant
                0 <= i <= pn,
                pn == prefix@.len(),
                pn <= self.text@.len(),
                forall|j: int| 0 <= j < i ==> self.text@[j] == prefix@[j],
            decreases pn - i,
        {
            if self.text[i] != prefix[i] {
                proof {
                    assert(self.text@.take(pn as int)[i as int] != prefix@[i as int]);
                }
                return false;
            }
            i += 1;
        }
        proof {
            assert(self.text@.take(pn as int) =~= prefix@);
        }
        true
    }

    /// Consumes the literal `token`.
    pub fn token(&self, token: &[u8]) -> (r: Result<Buffer<'a>, ParseError>)
        requires
            buf_wf(self@),
        ensures
            (match r {
                Ok(b) => btoken(self@, token@) == Ok::<BufM, ParseErrorM>(b@) && buf_wf(b@),
                Err(e) => btoken(self@, token@) == Err::<BufM, ParseErrorM>(e.deep_view()),
            }),
    {
        if self.starts_with(token) {
            Ok(self.advance(token.len()))
        } else {
            Err(self.expected(build_quoted(token)))
        }
    }
}


/// A byte predicate used to delimit tokens: the spec side says which
/// bytes match, the exec side decides it.
pub trait BytePred: Sized {
    /// Which bytes the pattern matches.
    spec fn holds(b: u8) -> bool;

    /// Decides [`BytePred::holds`].
    fn test(b: u8) -> (r: bool)
        ensures
            r == Self::holds(b),
    ;
}

/// Matches ASCII whitespace.
pub struct WsPat;

/// Matches every byte that is not an ASCII digit.
pub struct NonDigitPat;

/// Matches every byte that is neither an ASCII digit nor a minus sign.
pub struct NonNumberPat;

impl BytePred for WsPat {
    open spec fn holds(b: u8) -> bool {
        is_ws(b)
    }

    fn test(b: u8) -> (r: bool) {
        ws_byte(b)
    }
}

impl BytePred for NonDigitPat {
    open spec fn holds(b: u8) -> bool {
        !crate::dec::is_digit(b)
    }

    fn test(b: u8) -> (r: bool) {
        !(48 <= b && b <= 57)
    }
}

impl BytePred for NonNumberPat {
    open spec fn holds(b: u8) -> bool {
        !(crate::dec::is_digit(b) || b == 45)
    }

    fn test(b: u8) -> (r: bool) {
        !((48 <= b && b <= 57) || b == 45)
    }
}

/// The length of the prefix of `s` before the first byte that `P`
/// matches (all of `s` when none does).
pub open spec fn scan_len<P: BytePred>(s: Seq<u8>) -> int
    decreases s.len(),
{
    if s.len() == 0 {
        0
    } else if P::holds(s[0]) {
        0
    } else {
        1 + scan_len::<P>(s.skip(1))
    }
}

/// A scan that stopped at `i` found [`scan_len`].
pub proof fn lemma_scan_len_at<P: BytePred>(s: Seq<u8>, i: int)
    requires
        0 <= i <= s.len(),
        forall|j: int| 0 <= j < i ==> !P::holds(#[trigger] s[j]),
        i == s.len() || P::holds(s[i]),
    ensures
        scan_len::<P>(s) == i,
    decreases i,
{
    if i > 0 {
        lemma_scan_len_at::<P>(s.skip(1), i - 1);
    }
}

/// The index of the first token in `toks` that starts the text, or -1.
pub open spec fn first_tok(text: Seq<u8>, toks: Seq<Seq<u8>>) -> int
    decreases toks.len(),
{
    if toks.len() == 0 {
        -1
    } else if is_prefix(toks[0], text) {
        0
    } else {
        let r = first_tok(text, toks.skip(1));
        if r == -1 {
            -1
        } else {
            r + 1
        }
    }
}

/// A left-to-right search that reached `k` matches [`first_tok`].
pub proof fn lemma_first_tok_at(text: Seq<u8>, toks: Seq<Seq<u8>>, k: int)
    requires
        0 <= k <= toks.len(),
        forall|j: int| 0 <= j < k ==> !is_prefix(#[trigger] toks[j], text),
        k == toks.len() || is_prefix(toks[k], text),
    ensures
        first_tok(text, toks) == (if k == toks.len() {
            -1
        } else {
            k
        }),
    decreases k,
{
    if k > 0 {
        lemma_first_tok_at(text, toks.skip(1), k - 1);
    } else {
        if toks.len() > 0 && k == toks.len() {
        }
    }
}

/// [`first_tok`] is -1 or an index into the list.
pub proof fn lemma_first_tok_range(text: Seq<u8>, toks: Seq<Seq<u8>>)
    ensures
        first_tok(text, toks) == -1 || 0 <= first_tok(text, toks) < toks.len(),
    decreases toks.len(),
{
    if toks.len() > 0 && !is_prefix(toks[0], text) {
        lemma_first_tok_range(text, toks.skip(1));
    }
}

/// The views of a list of byte strings.
pub open spec fn toks_m(tokens: Seq<&[u8]>) -> Seq<Seq<u8>> {
    tokens.map_values(|t: &[u8]| t@)
}

/// Each of `toks` wrapped in quotes, joined by `", "`.
pub open spec fn quoted_join(toks: Seq<Seq<u8>>) -> Seq<u8>
    decreases toks.len(),
{
    if toks.len() == 0 {
        Seq::empty()
    } else if toks.len() == 1 {
        quoted(toks[0])
    } else {
        quoted(toks[0]) + msg_comma() + quoted_join(toks.skip(1))
    }
}

/// Appending one token to a joined list appends a separator and the
/// quoted token.
proof fn lemma_quoted_join_push(toks: Seq<Seq<u8>>, t: Seq<u8>)
    requires
        toks.len() > 0,
    ensures
        quoted_join(toks.push(t)) == quoted_join(toks) + msg_comma() + quoted(t),
    decreases toks.len(),
{
    let p = toks.push(t);
    assert(p[0] == toks[0]);
    if toks.len() == 1 {
        assert(p.skip(1) =~= seq![t]);
        assert(quoted_join(p.skip(1)) == quoted(t));
        assert(quoted_join(p) == quoted(toks[0]) + msg_comma() + quoted(t));
    } else {
        assert(p.skip(1) =~= toks.skip(1).push(t));
        lemma_quoted_join_push(toks.skip(1), t);
        assert(quoted_join(p) == quoted(p[0]) + msg_comma() + quoted_join(toks.skip(1).push(t)));
        assert(quoted(toks[0]) + msg_comma() + (quoted_join(toks.skip(1)) + msg_comma()
            + quoted(t)) =~= (quoted(toks[0]) + msg_comma() + quoted_join(toks.skip(1)))
            + msg_comma() + quoted(t));
    }
}

/// The message of [`Buffer::first_token_of`]'s error, which names the
/// expected tokens.
pub open spec fn first_tok_msg(toks: Seq<Seq<u8>>) -> Seq<u8> {
    if toks.len() == 1 {
        quoted(toks[0])
    } else if toks.len() == 2 {
        msg_either() + quoted(toks[0]) + msg_or_sep() + quoted(toks[1])
    } else {
        msg_one_of() + quoted_join(toks.take(toks.len() - 1)) + msg_comma_or() + quoted(
            toks[toks.len() - 1],
        )
    }
}

/// What [`Buffer::first_token_of`] yields: the cursor past the first
/// matching token together with the matched bytes, or the error naming
/// every expected token.  An empty token list matches emptily.
pub open spec fn bfirst_token_of(b: BufM, toks: Seq<Seq<u8>>) -> Result<
    (BufM, Seq<u8>),
    ParseErrorM,
> {
    if toks.len() == 0 {
        Ok((b, Seq::empty()))
    } else {
        let k = first_tok(b.text, toks);
        if k == -1 {
            Err(berr(b, first_tok_msg(toks)))
        } else {
            Ok((badvance(b, toks[k].len() as int), toks[k]))
        }
    }
}

impl<'a> Buffer<'a> {
    /// Splits at the first byte the pattern matches: the text before it
    /// (possibly empty) and the cursor from it on.  Never fails.
    pub fn til<P: BytePred>(&self, _pat: P) -> (r: Result<(Buffer<'a>, &'a [u8]), ParseError>)
        requires
            buf_wf(self@),
        ensures
            (match r {
                Ok((b, m)) => {
                    &&& b@ == badvance(self@, scan_len::<P>(self.text@))
                    &&& m@ == self.text@.take(scan_len::<P>(self.text@))
                    &&& buf_wf(b@)
                },
                Err(e) => false,
            }),
    {
        let n = self.text.len();
        let mut i: usize = 0;
        while i < n && !P::test(self.text[i])
            invariant
                0 <= i <= n,
                n == self.text@.len(),
                forall|j: int| 0 <= j < i ==> !P::holds(#[trigger] self.text@[j]),
            decreases n - i,
        {
            i += 1;
        }
        proof {
            lemma_scan_len_at::<P>(self.text@, i as int);
        }
        let m = slice_subrange(self.text, 0, i);
        proof {
            assert(m@ =~= self.text@.take(i as int));
        }
        Ok((self.advance(i), m))
    }

    /// The first of `tokens` that starts the text, consumed; an error
    /// naming all of them when none does.  An empty list matches emptily.
    pub fn first_token_of(&self, tokens: &[&[u8]]) -> (r: Result<
        (Buffer<'a>, &'a [u8]),
        ParseError,
    >)
        requires
            buf_wf(self@),
        ensures
            (match r {
                Ok((b, m)) => bfirst_token_of(self@, toks_m(tokens@)) == Ok::<
                    (BufM, Seq<u8>),
                    ParseErrorM,
                >((b@, m@)) && buf_wf(b@),
                Err(e) => bfirst_token_of(self@, toks_m(tokens@)) == Err::<
                    (BufM, Seq<u8>),
                    ParseErrorM,
                >(e.deep_view()),
            }),
    {
        let n = tokens.len();
        if n == 0 {
            let m = slice_subrange(self.text, 0, 0);
            proof {
                assert(m@ =~= Seq::<u8>::empty());
            }
            return Ok((*self, m));
        }
        let mut k: usize = 0;
        while k < n
            invariant
                0 <= k <= n,
                n == tokens@.len(),
                buf_wf(self@),
                forall|j: int| 0 <= j < k ==> !is_prefix(toks_m(tokens@)[j], self.text@),
            decreases n - k,
        {
            if self.starts_with(tokens[k]) {
                proof {
                    lemma_first_tok_at(self.text@, toks_m(tokens@), k as int);
                    assert(is_prefix(tokens@[k as int]@, self.text@));
                }
                let t = tokens[k];
                let m = slice_subrange(self.text, 0, t.len());
                proof {
                    assert(m@ =~= self.text@.take(t@.len() as int));
                    assert(m@ =~= t@);
                }
                return Ok((self.advance(t.len()), m));
            }
            k += 1;
        }
        proof {
            lemma_first_tok_at(self.text@, toks_m(tokens@), n as int);
        }
        Err(self.first_token_err(tokens))
    }

    /// The error naming every token `first_token_of` would have accepted.
    fn first_token_err(&self, tokens: &[&[u8]]) -> (r: ParseError)
        requires
            tokens@.len() > 0,
        ensures
            r.deep_view() == berr(self@, first_tok_msg(toks_m(tokens@))),
    {
        let n = tokens.len();
        if n == 1 {
            self.expected(build_quoted(tokens[0]))
        } else if n == 2 {
            let mut msg = build_either();
            let mut q0 = build_quoted(tokens[0]);
            msg.append(&mut q0);
            let mut orp = build_or_sep();
            msg.append(&mut orp);
            let mut q1 = build_quoted(tokens[1]);
            msg.append(&mut q1);
            proof {
                assert(msg@ =~= first_tok_msg(toks_m(tokens@)));
            }
            self.expected(msg)
        } else {
            let mut joined = build_quoted(tokens[0]);
            let mut k: usize = 1;
            while k < n - 1
                invariant
                    1 <= k <= n - 1,
                    n == tokens@.len(),
                    n >= 3,
                    joined@ == quoted_join(toks_m(tokens@).take(k as int)),
                decreases n - k,
            {
                let ghost pre = toks_m(tokens@).take(k as int);
                let mut sep = build_comma();
                joined.append(&mut sep);
                let mut q = build_quoted(tokens[k]);
                joined.append(&mut q);
                proof {
                    lemma_quoted_join_push(pre, tokens@[k as int]@);
                    assert(toks_m(tokens@).take(k + 1 as int) =~= pre.push(tokens@[k as int]@));
                    assert(joined@ =~= quoted_join(pre) + msg_comma() + quoted(
                        tokens@[k as int]@,
                    ));
                }
                k += 1;
            }
            let mut msg = build_one_of();
            msg.append(&mut joined);
            let mut co = build_comma_or();
            msg.append(&mut co);
            let mut ql = build_quoted(tokens[n - 1]);
            msg.append(&mut ql);
            proof {
                assert(toks_m(tokens@).take(n - 1 as int) =~= toks_m(tokens@).take(
                    toks_m(tokens@).len() - 1,
                ));
                assert(msg@ =~= first_tok_msg(toks_m(tokens@)));
            }
            self.expected(msg)
        }
    }
}

/// What the `parse_til` family yields: the token before the first byte
/// the pattern matches, read as a decimal number in `[lo, hi]`, and the
/// cursor past it; or the parse error naming the token.
pub open spec fn bparse_til<P: BytePred>(b: BufM, signed: bool, lo: int, hi: int) -> Result<
    (BufM, int),
    ParseErrorM,
> {
    let k = scan_len::<P>(b.text);
    let m = b.text.take(k);
    match crate::dec::int_of_dec(m, signed) {
        Some(v) => if lo <= v <= hi {
            Ok((badvance(b, k), v))
        } else {
            Err(berr(b, msg_parse_err(m)))
        },
        None => Err(berr(b, msg_parse_err(m))),
    }
}

impl<'a> Buffer<'a> {
    /// Reads an unsigned decimal token delimited by the pattern.
    pub fn parse_til<P: BytePred>(&self, pat: P) -> (r: Result<(Buffer<'a>, usize), ParseError>)
        requires
            buf_wf(self@),
        ensures
            (match r {
                Ok((b, v)) => bparse_til::<P>(self@, false, 0, usize::MAX as int) == Ok::<
                    (BufM, int),
                    ParseErrorM,
                >((b@, v as int)) && buf_wf(b@),
                Err(e) => bparse_til::<P>(self@, false, 0, usize::MAX as int) == Err::<
                    (BufM, int),
                    ParseErrorM,
                >(e.deep_view()),
            }),
    {
        let (b, m) = match self.til(pat) {
            Ok(x) => x,
            Err(_) => {
                proof {
                    assert(false);
                }
                unreached()
            },
        };
        match crate::dec::parse_dec_u64(m) {
            Some(v) if v <= usize::MAX as u64 => Ok((b, v as usize)),
            _ => Err(self.expected(build_parse_err(m))),
        }
    }

    /// Reads an unsigned decimal token as a register or pool index.
    pub fn parse_til_u8<P: BytePred>(&self, pat: P) -> (r: Result<(Buffer<'a>, u8), ParseError>)
        requires
            buf_wf(self@),
        ensures
            (match r {
                Ok((b, v)) => bparse_til::<P>(self@, false, 0, u8::MAX as int) == Ok::<
                    (BufM, int),
                    ParseErrorM,
                >((b@, v as int)) && buf_wf(b@),
                Err(e) => bparse_til::<P>(self@, false, 0, u8::MAX as int) == Err::<
                    (BufM, int),
                    ParseErrorM,
                >(e.deep_view()),
            }),
    {
        let (b, m) = match self.til(pat) {
            Ok(x) => x,
            Err(_) => {
                proof {
                    assert(false);
                }
                unreached()
            },
        };
        match crate::dec::parse_dec_u64(m) {
            Some(v) if v <= u8::MAX as u64 => Ok((b, v as u8)),
            _ => Err(self.expected(build_parse_err(m))),
        }
    }

    /// Reads a signed decimal token as a short jump offset.
    pub fn parse_til_i8<P: BytePred>(&self, pat: P) -> (r: Result<(Buffer<'a>, i8), ParseError>)
        requires
            buf_wf(self@),
        ensures
            (match r {
                Ok((b, v)) => bparse_til::<P>(self@, true, i8::MIN as int, i8::MAX as int) == Ok::<
                    (BufM, int),
                    ParseErrorM,
                >((b@, v as int)) && buf_wf(b@),
                Err(e) => bparse_til::<P>(self@, true, i8::MIN as int, i8::MAX as int) == Err::<
                    (BufM, int),
                    ParseErrorM,
                >(e.deep_view()),
            }),
    {
        let (b, m) = match self.til(pat) {
            Ok(x) => x,
            Err(_) => {
                proof {
                    assert(false);
                }
                unreached()
            },
        };
        match crate::dec::parse_dec_i64(m) {
            Some(v) if i8::MIN as i64 <= v && v <= i8::MAX as i64 => Ok((b, v as i8)),
            _ => Err(self.expected(build_parse_err(m))),
        }
    }

    /// Reads a signed decimal token as a jump offset.
    pub fn parse_til_i16<P: BytePred>(&self, pat: P) -> (r: Result<(Buffer<'a>, i16), ParseError>)
        requires
            buf_wf(self@),
        ensures
            (match r {
                Ok((b, v)) => bparse_til::<P>(self@, true, i16::MIN as int, i16::MAX as int)
                    == Ok::<(BufM, int), ParseErrorM>((b@, v as int)) && buf_wf(b@),
                Err(e) => bparse_til::<P>(self@, true, i16::MIN as int, i16::MAX as int) == Err::<
                    (BufM, int),
                    ParseErrorM,
                >(e.deep_view()),
            }),
    {
        let (b, m) = match self.til(pat) {
            Ok(x) => x,
            Err(_) => {
                proof {
                    assert(false);
                }
                unreached()
            },
        };
        match crate::dec::parse_dec_i64(m) {
            Some(v) if i16::MIN as i64 <= v && v <= i16::MAX as i64 => Ok((b, v as i16)),
            _ => Err(self.expected(build_parse_err(m))),
        }
    }
}

} // verus!
