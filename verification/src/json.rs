//! A minimal JSON reader that never interprets a number.
//!
//! Numbers come back as the raw source text, so element data reaches the simulation
//! through integer parsing alone. Strings are borrowed slices of the source; escape
//! sequences are rejected, and so is nesting past `MAX_DEPTH`.

use vstd::prelude::*;
use vstd::string::StringSliceAdditionalSpecFns;
use vstd::utf8::*;

verus! {

/// Objects hold their members in source order, in a `Vec`.
#[derive(Debug)]
pub enum Json<'a> {
    Null,
    Bool(bool),
    /// The raw source slice. Never parsed as a float.
    Number(&'a str),
    String(&'a str),
    Array(Vec<Json<'a>>),
    Object(Vec<(&'a str, Json<'a>)>),
}

/// What a JSON value holds, with every piece of text as its bytes.
pub enum JsonView {
    Null,
    Bool(bool),
    Number(Seq<u8>),
    String(Seq<u8>),
    Array(Seq<JsonView>),
    Object(Seq<(Seq<u8>, JsonView)>),
}

pub open spec fn json_view<'a>(j: Json<'a>) -> JsonView
    decreases j,
{
    match j {
        Json::Null => JsonView::Null,
        Json::Bool(b) => JsonView::Bool(b),
        Json::Number(t) => JsonView::Number(t.spec_bytes()),
        Json::String(t) => JsonView::String(t.spec_bytes()),
        Json::Array(items) => JsonView::Array(items_view(items@)),
        Json::Object(members) => JsonView::Object(members_view(members@)),
    }
}

pub open spec fn items_view<'a>(items: Seq<Json<'a>>) -> Seq<JsonView>
    decreases items,
{
    if items.len() == 0 {
        Seq::empty()
    } else {
        items_view(items.drop_last()).push(json_view(items.last()))
    }
}

pub open spec fn members_view<'a>(members: Seq<(&'a str, Json<'a>)>) -> Seq<(Seq<u8>, JsonView)>
    decreases members,
{
    if members.len() == 0 {
        Seq::empty()
    } else {
        members_view(members.drop_last()).push((members.last().0.spec_bytes(), json_view(members.last().1)))
    }
}

impl<'a> View for Json<'a> {
    type V = JsonView;

    open spec fn view(&self) -> JsonView {
        json_view(*self)
    }
}

pub const MAX_DEPTH: u32 = 32;

#[derive(Clone, Copy, PartialEq, Eq, Structural, Debug)]
pub struct JsonError {
    pub kind: JsonErrorKind,
    /// Byte offset into the source where the problem was found.
    pub offset: usize,
}

#[derive(Clone, Copy, PartialEq, Eq, Structural, Debug)]
pub enum JsonErrorKind {
    UnexpectedEnd,
    UnexpectedByte,
    /// A string contained a backslash.
    EscapesUnsupported,
    UnterminatedString,
    MalformedNumber,
    TooDeep,
    TrailingData,
}

pub open spec fn err(kind: JsonErrorKind, offset: int) -> JsonError {
    JsonError { kind, offset: offset as usize }
}

pub open spec fn is_ws(c: u8) -> bool {
    c == 32 || c == 9 || c == 13 || c == 10
}

/// The first offset at or after `off` that is not whitespace.
pub open spec fn skip_ws(b: Seq<u8>, off: int) -> int
    decreases b.len() - off,
{
    if 0 <= off < b.len() && is_ws(b[off]) {
        skip_ws(b, off + 1)
    } else {
        off
    }
}

/// Scans string content from `i`; the content started at `start`. On success, the
/// offset of the closing quote.
pub open spec fn scan_string(b: Seq<u8>, i: int) -> Result<int, JsonError>
    decreases b.len() - i,
{
    if i < 0 || i >= b.len() {
        Err(err(JsonErrorKind::UnterminatedString, i))
    } else if b[i] == 34 {
        Ok(i)
    } else if b[i] == 92 {
        Err(err(JsonErrorKind::EscapesUnsupported, i))
    } else {
        scan_string(b, i + 1)
    }
}

/// A string at `off`: its content runs from `off + 1` up to the returned offset of
/// the closing quote.
pub open spec fn string_spec(b: Seq<u8>, off: int) -> Result<int, JsonError> {
    if off >= b.len() {
        Err(err(JsonErrorKind::UnexpectedEnd, off))
    } else if b[off] != 34 {
        Err(err(JsonErrorKind::UnexpectedByte, off))
    } else {
        scan_string(b, off + 1)
    }
}

/// A number at `off` (which holds `-` or a digit): on success, where it ends.
pub open spec fn number_spec(b: Seq<u8>, off: int) -> Result<int, JsonError> {
    let p = if off < b.len() && b[off] == 45 { off + 1 } else { off };
    let e = p + crate::fixed::digit_run(b, p);
    let has_point = e < b.len() && b[e] == 46;
    let f = if has_point { e + 1 + crate::fixed::digit_run(b, e + 1) } else { e };
    if e == p {
        Err(err(JsonErrorKind::MalformedNumber, e))
    } else if e - p > 1 && b[p] == 48 {
        Err(err(JsonErrorKind::MalformedNumber, e))
    } else if has_point && f == e + 1 {
        Err(err(JsonErrorKind::MalformedNumber, f))
    } else if f < b.len() && (b[f] == 101 || b[f] == 69) {
        Err(err(JsonErrorKind::MalformedNumber, f))
    } else {
        Ok(f)
    }
}

/// A literal word at `off`: on success, the offset after it.
pub open spec fn literal_spec(b: Seq<u8>, off: int, word: Seq<u8>) -> Result<int, JsonError> {
    if 0 <= off && off + word.len() <= b.len() && b.subrange(off, off + word.len()) == word {
        Ok(off + word.len())
    } else {
        Err(err(JsonErrorKind::UnexpectedByte, off))
    }
}

pub open spec fn word_true() -> Seq<u8> {
    seq![116u8, 114u8, 117u8, 101u8]
}

pub open spec fn word_false() -> Seq<u8> {
    seq![102u8, 97u8, 108u8, 115u8, 101u8]
}

pub open spec fn word_null() -> Seq<u8> {
    seq![110u8, 117u8, 108u8, 108u8]
}

/// One value starting exactly at `off`, nested `depth` deep: the value and the offset
/// after it.
pub open spec fn value_spec(b: Seq<u8>, off: int, depth: int) -> Result<(JsonView, int), JsonError>
    decreases b.len() - off, 0int,
{
    if depth > MAX_DEPTH {
        Err(err(JsonErrorKind::TooDeep, off))
    } else if off < 0 || off >= b.len() {
        Err(err(JsonErrorKind::UnexpectedEnd, off))
    } else {
        let c = b[off];
        if c == 123 {
            object_open(b, off + 1, depth)
        } else if c == 91 {
            array_open(b, off + 1, depth)
        } else if c == 34 {
            match scan_string(b, off + 1) {
                Ok(close) => Ok((JsonView::String(b.subrange(off + 1, close)), close + 1)),
                Err(e) => Err(e),
            }
        } else if c == 116 {
            match literal_spec(b, off, word_true()) {
                Ok(next) => Ok((JsonView::Bool(true), next)),
                Err(e) => Err(e),
            }
        } else if c == 102 {
            match literal_spec(b, off, word_false()) {
                Ok(next) => Ok((JsonView::Bool(false), next)),
                Err(e) => Err(e),
            }
        } else if c == 110 {
            match literal_spec(b, off, word_null()) {
                Ok(next) => Ok((JsonView::Null, next)),
                Err(e) => Err(e),
            }
        } else if c == 45 || crate::fixed::is_digit(c) {
            match number_spec(b, off) {
                Ok(end) => Ok((JsonView::Number(b.subrange(off, end)), end)),
                Err(e) => Err(e),
            }
        } else {
            Err(err(JsonErrorKind::UnexpectedByte, off))
        }
    }
}

/// An array whose `[` has been consumed; `off` is just after it.
pub open spec fn array_open(b: Seq<u8>, off: int, depth: int) -> Result<(JsonView, int), JsonError>
    decreases b.len() - off, 2int,
{
    let p = skip_ws(b, off);
    if p < off || p > b.len() {
        Err(err(JsonErrorKind::UnexpectedEnd, p))
    } else if 0 <= p < b.len() && b[p] == 93 {
        Ok((JsonView::Array(Seq::empty()), p + 1))
    } else {
        items_loop(b, p, depth, Seq::empty())
    }
}

/// The items of an array from `off`, after those already in `acc`.
pub open spec fn items_loop(b: Seq<u8>, off: int, depth: int, acc: Seq<JsonView>) -> Result<(JsonView, int), JsonError>
    decreases b.len() - off, 1int,
{
    let p = skip_ws(b, off);
    if p < off || p > b.len() {
        Err(err(JsonErrorKind::UnexpectedEnd, p))
    } else {
        match value_spec(b, p, depth + 1) {
            Err(e) => Err(e),
            Ok((v, q)) => {
                let r = skip_ws(b, q);
                if r < q || q <= off {
                    Err(err(JsonErrorKind::UnexpectedEnd, r))
                } else if r >= b.len() {
                    Err(err(JsonErrorKind::UnexpectedEnd, r))
                } else if b[r] == 44 {
                    items_loop(b, r + 1, depth, acc.push(v))
                } else if b[r] == 93 {
                    Ok((JsonView::Array(acc.push(v)), r + 1))
                } else {
                    Err(err(JsonErrorKind::UnexpectedByte, r))
                }
            },
        }
    }
}

/// An object whose `{` has been consumed; `off` is just after it.
pub open spec fn object_open(b: Seq<u8>, off: int, depth: int) -> Result<(JsonView, int), JsonError>
    decreases b.len() - off, 2int,
{
    let p = skip_ws(b, off);
    if p < off || p > b.len() {
        Err(err(JsonErrorKind::UnexpectedEnd, p))
    } else if 0 <= p < b.len() && b[p] == 125 {
        Ok((JsonView::Object(Seq::empty()), p + 1))
    } else {
        members_loop(b, p, depth, Seq::empty())
    }
}

/// The members of an object from `off`, after those already in `acc`.
pub open spec fn members_loop(b: Seq<u8>, off: int, depth: int, acc: Seq<(Seq<u8>, JsonView)>) -> Result<(JsonView, int), JsonError>
    decreases b.len() - off, 1int,
{
    let p = skip_ws(b, off);
    if p < off || p > b.len() {
        Err(err(JsonErrorKind::UnexpectedEnd, p))
    } else {
        match string_spec(b, p) {
            Err(e) => Err(e),
            Ok(close) => {
                let key = b.subrange(p + 1, close);
                let k = skip_ws(b, close + 1);
                if k >= b.len() {
                    Err(err(JsonErrorKind::UnexpectedEnd, k))
                } else if b[k] != 58 {
                    Err(err(JsonErrorKind::UnexpectedByte, k))
                } else {
                    let v_off = skip_ws(b, k + 1);
                    if v_off <= off || v_off > b.len() {
                        Err(err(JsonErrorKind::UnexpectedEnd, v_off))
                    } else {
                        match value_spec(b, v_off, depth + 1) {
                            Err(e) => Err(e),
                            Ok((v, q)) => {
                                let r = skip_ws(b, q);
                                if r < q || q <= off {
                                    Err(err(JsonErrorKind::UnexpectedEnd, r))
                                } else if r >= b.len() {
                                    Err(err(JsonErrorKind::UnexpectedEnd, r))
                                } else if b[r] == 44 {
                                    members_loop(b, r + 1, depth, acc.push((key, v)))
                                } else if b[r] == 125 {
                                    Ok((JsonView::Object(acc.push((key, v))), r + 1))
                                } else {
                                    Err(err(JsonErrorKind::UnexpectedByte, r))
                                }
                            },
                        }
                    }
                }
            },
        }
    }
}

/// The whole document: one value, with only whitespace around it.
pub open spec fn parse_spec(b: Seq<u8>) -> Result<JsonView, JsonError> {
    match value_spec(b, skip_ws(b, 0), 0) {
        Err(e) => Err(e),
        Ok((v, q)) => {
            let r = skip_ws(b, q);
            if r != b.len() {
                Err(err(JsonErrorKind::TrailingData, r))
            } else {
                Ok(v)
            }
        },
    }
}

proof fn lemma_skip_ws(b: Seq<u8>, off: int)
    requires
        0 <= off <= b.len(),
    ensures
        off <= skip_ws(b, off) <= b.len(),
        skip_ws(b, off) < b.len() ==> !is_ws(b[skip_ws(b, off)]),
        forall|k: int| off <= k < skip_ws(b, off) ==> is_ws(#[trigger] b[k]),
    decreases b.len() - off,
{
    if off < b.len() && is_ws(b[off]) {
        lemma_skip_ws(b, off + 1);
    }
}

proof fn lemma_boundary_at_ascii(bytes: Seq<u8>, i: int)
    requires
        valid_utf8(bytes),
        0 <= i <= bytes.len(),
        i < bytes.len() ==> bytes[i] <= 0x7f,
    ensures
        is_char_boundary(bytes, i),
{
    if i < bytes.len() {
        is_char_boundary_iff_not_is_continuation_byte(bytes, i);
    } else {
        is_char_boundary_start_end_of_seq(bytes);
    }
}

proof fn lemma_boundary_after_ascii(bytes: Seq<u8>, i: int)
    requires
        valid_utf8(bytes),
        0 <= i < bytes.len(),
        bytes[i] <= 0x7f,
    ensures
        is_char_boundary(bytes, i + 1),
    decreases bytes.len(),
{
    let l = length_of_first_scalar(bytes);
    let pop = pop_first_scalar(bytes);
    assert(1 <= l <= 4);
    assert(pop.len() == bytes.len() - l);
    if i == 0 {
        assert(l == 1);
        assert(is_char_boundary(pop, 0));
    } else {
        is_char_boundary_iff_not_is_continuation_byte(bytes, i);
        assert(is_char_boundary(bytes, i));
        assert(i - l >= 0);
        assert(pop[i - l] == bytes[i]);
        lemma_boundary_after_ascii(pop, i - l);
    }
}

proof fn lemma_boundary_in_tail(bytes: Seq<u8>, start: int, end: int)
    requires
        valid_utf8(bytes),
        0 <= start <= end <= bytes.len(),
        is_char_boundary(bytes, start),
        is_char_boundary(bytes, end),
    ensures
        valid_utf8(bytes.subrange(start, bytes.len() as int)),
        is_char_boundary(bytes.subrange(start, bytes.len() as int), end - start),
{
    let t = bytes.subrange(start, bytes.len() as int);
    valid_utf8_split(bytes, start);
    if end == bytes.len() {
        is_char_boundary_start_end_of_seq(t);
    } else {
        is_char_boundary_iff_not_is_continuation_byte(bytes, end);
        is_char_boundary_iff_not_is_continuation_byte(t, end - start);
    }
}

/// The part of `source` between two byte offsets that fall on character boundaries.
fn slice_str<'a>(source: &'a str, start: usize, end: usize) -> (r: &'a str)
    requires
        start <= end <= source.spec_bytes().len(),
        is_char_boundary(source.spec_bytes(), start as int),
        is_char_boundary(source.spec_bytes(), end as int),
    ensures
        r.spec_bytes() == source.spec_bytes().subrange(start as int, end as int),
{
    let ghost b = source.spec_bytes();
    proof {
        encode_utf8_valid_utf8(source@);
        lemma_boundary_in_tail(b, start as int, end as int);
    }
    let (_, tail) = source.split_at(start);
    proof {
        assert(tail.spec_bytes() == b.subrange(start as int, b.len() as int));
    }
    let (middle, _) = tail.split_at(end - start);
    proof {
        assert(middle.spec_bytes() =~= b.subrange(start as int, end as int));
    }
    middle
}

fn skip_whitespace(bytes: &[u8], off: usize) -> (r: usize)
    requires
        off <= bytes@.len(),
    ensures
        r == skip_ws(bytes@, off as int),
        off <= r <= bytes@.len(),
{
    proof {
        lemma_skip_ws(bytes@, off as int);
    }
    let mut i: usize = off;
    while i < bytes.len() && (bytes[i] == 32u8 || bytes[i] == 9u8 || bytes[i] == 13u8 || bytes[i] == 10u8)
        invariant
            off <= i <= bytes@.len(),
            skip_ws(bytes@, i as int) == skip_ws(bytes@, off as int),
        decreases bytes@.len() - i,
    {
        i = i + 1;
    }
    i
}

fn scan_string_exec(bytes: &[u8], start: usize) -> (r: Result<usize, JsonError>)
    requires
        start <= bytes@.len(),
    ensures
        match r {
            Ok(close) => scan_string(bytes@, start as int) == Ok::<int, JsonError>(close as int)
                && start <= close < bytes@.len() && bytes@[close as int] == 34,
            Err(e) => scan_string(bytes@, start as int) == Err::<int, JsonError>(e),
        },
{
    let mut i: usize = start;
    loop
        invariant
            start <= i <= bytes@.len(),
            scan_string(bytes@, i as int) == scan_string(bytes@, start as int),
        decreases bytes@.len() - i,
    {
        if i >= bytes.len() {
            return Err(JsonError { kind: JsonErrorKind::UnterminatedString, offset: i });
        }
        if bytes[i] == 34u8 {
            return Ok(i);
        }
        if bytes[i] == 92u8 {
            return Err(JsonError { kind: JsonErrorKind::EscapesUnsupported, offset: i });
        }
        i = i + 1;
    }
}

fn digit_run_exec(bytes: &[u8], start: usize) -> (r: usize)
    requires
        start <= bytes@.len(),
    ensures
        r == start + crate::fixed::digit_run(bytes@, start as int),
        start <= r <= bytes@.len(),
        forall|k: int| start <= k < r ==> crate::fixed::is_digit(#[trigger] bytes@[k]),
{
    proof {
        lemma_digit_run(bytes@, start as int);
    }
    let mut i: usize = start;
    while i < bytes.len() && 48u8 <= bytes[i] && bytes[i] <= 57u8
        invariant
            start <= i <= bytes@.len(),
            i + crate::fixed::digit_run(bytes@, i as int) == start + crate::fixed::digit_run(bytes@, start as int),
            forall|k: int| start <= k < i ==> crate::fixed::is_digit(#[trigger] bytes@[k]),
        decreases bytes@.len() - i,
    {
        i = i + 1;
    }
    i
}

proof fn lemma_digit_run(b: Seq<u8>, start: int)
    requires
        0 <= start <= b.len(),
    ensures
        0 <= crate::fixed::digit_run(b, start) <= b.len() - start,
    decreases b.len() - start,
{
    if start < b.len() && crate::fixed::is_digit(b[start]) {
        lemma_digit_run(b, start + 1);
    }
}

fn number_exec(bytes: &[u8], off: usize) -> (r: Result<usize, JsonError>)
    requires
        off < bytes@.len(),
    ensures
        match r {
            Ok(end) => number_spec(bytes@, off as int) == Ok::<int, JsonError>(end as int)
                && off < end <= bytes@.len() && bytes@[end - 1] <= 0x7f,
            Err(e) => number_spec(bytes@, off as int) == Err::<int, JsonError>(e),
        },
{
    let p: usize = if bytes[off] == 45u8 { off + 1 } else { off };
    let e: usize = digit_run_exec(bytes, p);
    if e == p {
        return Err(JsonError { kind: JsonErrorKind::MalformedNumber, offset: e });
    }
    if e - p > 1 && bytes[p] == 48u8 {
        return Err(JsonError { kind: JsonErrorKind::MalformedNumber, offset: e });
    }
    let mut f: usize = e;
    if e < bytes.len() && bytes[e] == 46u8 {
        f = digit_run_exec(bytes, e + 1);
        if f == e + 1 {
            return Err(JsonError { kind: JsonErrorKind::MalformedNumber, offset: f });
        }
    }
    if f < bytes.len() && (bytes[f] == 101u8 || bytes[f] == 69u8) {
        return Err(JsonError { kind: JsonErrorKind::MalformedNumber, offset: f });
    }
    Ok(f)
}

fn literal_exec(bytes: &[u8], off: usize, word: &[u8]) -> (r: Result<usize, JsonError>)
    requires
        off <= bytes@.len(),
    ensures
        match r {
            Ok(next) => literal_spec(bytes@, off as int, word@) == Ok::<int, JsonError>(next as int)
                && off < next <= bytes@.len() || (word@.len() == 0 && next == off),
            Err(e) => literal_spec(bytes@, off as int, word@) == Err::<int, JsonError>(e),
        },
{
    if word.len() > bytes.len() - off {
        return Err(JsonError { kind: JsonErrorKind::UnexpectedByte, offset: off });
    }
    let mut i: usize = 0;
    while i < word.len()
        invariant
            off + word@.len() <= bytes@.len(),
            bytes@.len() == bytes.len(),
            0 <= i <= word@.len(),
            forall|k: int| 0 <= k < i ==> bytes@[off + k] == word@[k],
        decreases word@.len() - i,
    {
        if bytes[off + i] != word[i] {
            proof {
                assert(bytes@.subrange(off as int, off + word@.len())[i as int] != word@[i as int]);
            }
            return Err(JsonError { kind: JsonErrorKind::UnexpectedByte, offset: off });
        }
        i = i + 1;
    }
    proof {
        assert(bytes@.subrange(off as int, off + word@.len()) =~= word@);
    }
    Ok(off + word.len())
}

proof fn lemma_items_view_push<'a>(items: Seq<Json<'a>>, v: Json<'a>)
    ensures
        items_view(items.push(v)) == items_view(items).push(json_view(v)),
{
    assert(items.push(v).drop_last() =~= items);
}

proof fn lemma_members_view_push<'a>(members: Seq<(&'a str, Json<'a>)>, key: &'a str, v: Json<'a>)
    ensures
        members_view(members.push((key, v))) == members_view(members).push((key.spec_bytes(), json_view(v))),
{
    assert(members.push((key, v)).drop_last() =~= members);
}

/// One value starting exactly at `off`.
fn value_exec<'a>(source: &'a str, bytes: &'a [u8], off: usize, depth: u32) -> (r: Result<(Json<'a>, usize), JsonError>)
    requires
        bytes@ == source.spec_bytes(),
        off <= bytes@.len(),
        depth <= MAX_DEPTH + 1,
    ensures
        match r {
            Ok((j, q)) => value_spec(bytes@, off as int, depth as int) == Ok::<(JsonView, int), JsonError>((j@, q as int))
                && off < q <= bytes@.len(),
            Err(e) => value_spec(bytes@, off as int, depth as int) == Err::<(JsonView, int), JsonError>(e),
        },
    decreases bytes@.len() - off, 0int,
{
    let ghost b = bytes@;
    proof {
        encode_utf8_valid_utf8(source@);
    }
    if depth > MAX_DEPTH {
        return Err(JsonError { kind: JsonErrorKind::TooDeep, offset: off });
    }
    if off >= bytes.len() {
        return Err(JsonError { kind: JsonErrorKind::UnexpectedEnd, offset: off });
    }
    let c: u8 = bytes[off];
    if c == 123u8 {
        return object_exec(source, bytes, off + 1, depth);
    }
    if c == 91u8 {
        return array_exec(source, bytes, off + 1, depth);
    }
    if c == 34u8 {
        match scan_string_exec(bytes, off + 1) {
            Ok(close) => {
                proof {
                    lemma_boundary_after_ascii(b, off as int);
                    lemma_boundary_at_ascii(b, close as int);
                }
                let text: &'a str = slice_str(source, off + 1, close);
                return Ok((Json::String(text), close + 1));
            },
            Err(e) => {
                return Err(e);
            },
        }
    }
    if c == 116u8 {
        let word: Vec<u8> = vec![116u8, 114u8, 117u8, 101u8];
        proof {
            assert(word@ =~= word_true());
        }
        match literal_exec(bytes, off, word.as_slice()) {
            Ok(next) => {
                return Ok((Json::Bool(true), next));
            },
            Err(e) => {
                return Err(e);
            },
        }
    }
    if c == 102u8 {
        let word: Vec<u8> = vec![102u8, 97u8, 108u8, 115u8, 101u8];
        proof {
            assert(word@ =~= word_false());
        }
        match literal_exec(bytes, off, word.as_slice()) {
            Ok(next) => {
                return Ok((Json::Bool(false), next));
            },
            Err(e) => {
                return Err(e);
            },
        }
    }
    if c == 110u8 {
        let word: Vec<u8> = vec![110u8, 117u8, 108u8, 108u8];
        proof {
            assert(word@ =~= word_null());
        }
        match literal_exec(bytes, off, word.as_slice()) {
            Ok(next) => {
                return Ok((Json::Null, next));
            },
            Err(e) => {
                return Err(e);
            },
        }
    }
    if c == 45u8 || (48u8 <= c && c <= 57u8) {
        match number_exec(bytes, off) {
            Ok(end) => {
                proof {
                    lemma_boundary_at_ascii(b, off as int);
                    lemma_boundary_after_ascii(b, end - 1);
                }
                let text: &'a str = slice_str(source, off, end);
                return Ok((Json::Number(text), end));
            },
            Err(e) => {
                return Err(e);
            },
        }
    }
    Err(JsonError { kind: JsonErrorKind::UnexpectedByte, offset: off })
}

/// An array whose `[` sits just before `off`.
fn array_exec<'a>(source: &'a str, bytes: &'a [u8], off: usize, depth: u32) -> (r: Result<(Json<'a>, usize), JsonError>)
    requires
        bytes@ == source.spec_bytes(),
        off <= bytes@.len(),
        depth <= MAX_DEPTH,
    ensures
        match r {
            Ok((j, q)) => array_open(bytes@, off as int, depth as int) == Ok::<(JsonView, int), JsonError>((j@, q as int))
                && off < q <= bytes@.len(),
            Err(e) => array_open(bytes@, off as int, depth as int) == Err::<(JsonView, int), JsonError>(e),
        },
    decreases bytes@.len() - off, 2int,
{
    let ghost b = bytes@;
    let p: usize = skip_whitespace(bytes, off);
    if p < bytes.len() && bytes[p] == 93u8 {
        proof {
            assert(items_view(Seq::<Json<'a>>::empty()) =~= Seq::<JsonView>::empty());
        }
        return Ok((Json::Array(Vec::new()), p + 1));
    }
    let mut items: Vec<Json<'a>> = Vec::new();
    let mut cur: usize = p;
    proof {
        assert(items_view(items@) =~= Seq::<JsonView>::empty());
    }
    loop
        invariant
            bytes@ == source.spec_bytes(),
            b == bytes@,
            off <= cur <= bytes@.len(),
            depth <= MAX_DEPTH,
            array_open(b, off as int, depth as int) == items_loop(b, cur as int, depth as int, items_view(items@)),
        decreases bytes@.len() - cur,
    {
        let v_off: usize = skip_whitespace(bytes, cur);
        match value_exec(source, bytes, v_off, depth + 1) {
            Err(e) => {
                return Err(e);
            },
            Ok((v, q)) => {
                let r: usize = skip_whitespace(bytes, q);
                if r >= bytes.len() {
                    return Err(JsonError { kind: JsonErrorKind::UnexpectedEnd, offset: r });
                }
                if bytes[r] == 44u8 {
                    proof {
                        lemma_items_view_push(items@, v);
                    }
                    items.push(v);
                    cur = r + 1;
                } else if bytes[r] == 93u8 {
                    proof {
                        lemma_items_view_push(items@, v);
                    }
                    items.push(v);
                    return Ok((Json::Array(items), r + 1));
                } else {
                    return Err(JsonError { kind: JsonErrorKind::UnexpectedByte, offset: r });
                }
            },
        }
    }
}

/// An object whose `{` sits just before `off`.
fn object_exec<'a>(source: &'a str, bytes: &'a [u8], off: usize, depth: u32) -> (r: Result<(Json<'a>, usize), JsonError>)
    requires
        bytes@ == source.spec_bytes(),
        off <= bytes@.len(),
        depth <= MAX_DEPTH,
    ensures
        match r {
            Ok((j, q)) => object_open(bytes@, off as int, depth as int) == Ok::<(JsonView, int), JsonError>((j@, q as int))
                && off < q <= bytes@.len(),
            Err(e) => object_open(bytes@, off as int, depth as int) == Err::<(JsonView, int), JsonError>(e),
        },
    decreases bytes@.len() - off, 2int,
{
    let ghost b = bytes@;
    proof {
        encode_utf8_valid_utf8(source@);
    }
    let p: usize = skip_whitespace(bytes, off);
    if p < bytes.len() && bytes[p] == 125u8 {
        proof {
            assert(members_view(Seq::<(&'a str, Json<'a>)>::empty()) =~= Seq::<(Seq<u8>, JsonView)>::empty());
        }
        return Ok((Json::Object(Vec::new()), p + 1));
    }
    let mut members: Vec<(&'a str, Json<'a>)> = Vec::new();
    let mut cur: usize = p;
    proof {
        assert(members_view(members@) =~= Seq::<(Seq<u8>, JsonView)>::empty());
    }
    loop
        invariant
            bytes@ == source.spec_bytes(),
            b == bytes@,
            valid_utf8(b),
            off <= cur <= bytes@.len(),
            depth <= MAX_DEPTH,
            object_open(b, off as int, depth as int) == members_loop(b, cur as int, depth as int, members_view(members@)),
        decreases bytes@.len() - cur,
    {
        let k_off: usize = skip_whitespace(bytes, cur);
        if k_off >= bytes.len() {
            return Err(JsonError { kind: JsonErrorKind::UnexpectedEnd, offset: k_off });
        }
        if bytes[k_off] != 34u8 {
            return Err(JsonError { kind: JsonErrorKind::UnexpectedByte, offset: k_off });
        }
        let close: usize = match scan_string_exec(bytes, k_off + 1) {
            Ok(close) => close,
            Err(e) => {
                return Err(e);
            },
        };
        proof {
            lemma_boundary_after_ascii(b, k_off as int);
            lemma_boundary_at_ascii(b, close as int);
        }
        let key: &'a str = slice_str(source, k_off + 1, close);
        let k: usize = skip_whitespace(bytes, close + 1);
        if k >= bytes.len() {
            return Err(JsonError { kind: JsonErrorKind::UnexpectedEnd, offset: k });
        }
        if bytes[k] != 58u8 {
            return Err(JsonError { kind: JsonErrorKind::UnexpectedByte, offset: k });
        }
        let v_off: usize = skip_whitespace(bytes, k + 1);
        match value_exec(source, bytes, v_off, depth + 1) {
            Err(e) => {
                return Err(e);
            },
            Ok((v, q)) => {
                let r: usize = skip_whitespace(bytes, q);
                if r >= bytes.len() {
                    return Err(JsonError { kind: JsonErrorKind::UnexpectedEnd, offset: r });
                }
                if bytes[r] == 44u8 {
                    proof {
                        lemma_members_view_push(members@, key, v);
                    }
                    members.push((key, v));
                    cur = r + 1;
                } else if bytes[r] == 125u8 {
                    proof {
                        lemma_members_view_push(members@, key, v);
                    }
                    members.push((key, v));
                    return Ok((Json::Object(members), r + 1));
                } else {
                    return Err(JsonError { kind: JsonErrorKind::UnexpectedByte, offset: r });
                }
            },
        }
    }
}

/// Reads one JSON document. Numbers stay raw text; strings are borrowed slices of
/// `source`.
pub fn parse<'a>(source: &'a str) -> (r: Result<Json<'a>, JsonError>)
    ensures
        match r {
            Ok(j) => parse_spec(source.spec_bytes()) == Ok::<JsonView, JsonError>(j@),
            Err(e) => parse_spec(source.spec_bytes()) == Err::<JsonView, JsonError>(e),
        },
{
    let bytes: &'a [u8] = source.as_bytes();
    let p: usize = skip_whitespace(bytes, 0);
    match value_exec(source, bytes, p, 0) {
        Err(e) => Err(e),
        Ok((v, q)) => {
            let r: usize = skip_whitespace(bytes, q);
            if r != bytes.len() {
                Err(JsonError { kind: JsonErrorKind::TrailingData, offset: r })
            } else {
                Ok(v)
            }
        },
    }
}

/// A member of an object value, by key bytes.
pub open spec fn jv_get(v: JsonView, key: Seq<u8>) -> Option<JsonView> {
    match v {
        JsonView::Object(members) => lookup(members, key),
        _ => None,
    }
}

pub open spec fn jv_str(v: JsonView) -> Option<Seq<u8>> {
    match v {
        JsonView::String(t) => Some(t),
        _ => None,
    }
}

pub open spec fn jv_array(v: JsonView) -> Option<Seq<JsonView>> {
    match v {
        JsonView::Array(items) => Some(items),
        _ => None,
    }
}

pub open spec fn jv_bool(v: JsonView) -> Option<bool> {
    match v {
        JsonView::Bool(b) => Some(b),
        _ => None,
    }
}

pub open spec fn jv_i32(v: JsonView) -> Option<i32> {
    match v {
        JsonView::Number(t) => as_i32_spec(t),
        _ => None,
    }
}

pub open spec fn jv_u8(v: JsonView) -> Option<u8> {
    match jv_i32(v) {
        Some(x) => if 0 <= x <= 255 { Some(x as u8) } else { None },
        None => None,
    }
}

pub open spec fn jv_fixed(v: JsonView) -> Option<crate::fixed::Fixed> {
    match v {
        JsonView::Number(t) => match crate::fixed::parse_spec(t) {
            Ok(f) => Some(f),
            Err(_) => None,
        },
        _ => None,
    }
}

/// The first member named `key`, in source order.
pub open spec fn lookup(members: Seq<(Seq<u8>, JsonView)>, key: Seq<u8>) -> Option<JsonView>
    decreases members.len(),
{
    if members.len() == 0 {
        None
    } else if members[0].0 == key {
        Some(members[0].1)
    } else {
        lookup(members.drop_first(), key)
    }
}

/// A whole number: an optional `-` or `+`, then digits only, within `i32`.
pub open spec fn as_i32_spec(t: Seq<u8>) -> Option<i32> {
    let negative = t.len() > 0 && t[0] == 45;
    let start: int = if t.len() > 0 && (t[0] == 45 || t[0] == 43) { 1 } else { 0 };
    let value = crate::fixed::digits_value(t, start, t.len() as int);
    let signed = if negative { -value } else { value };
    if start >= t.len() || exists|k: int| start <= k < t.len() && !crate::fixed::is_digit(#[trigger] t[k]) {
        None
    } else if value > 0x8000_0000 || signed > i32::MAX {
        None
    } else {
        Some(signed as i32)
    }
}

pub proof fn lemma_items_view_len<'a>(items: Seq<Json<'a>>)
    ensures
        items_view(items).len() == items.len(),
    decreases items.len(),
{
    if items.len() > 0 {
        lemma_items_view_len(items.drop_last());
    }
}

pub proof fn lemma_items_view_index<'a>(items: Seq<Json<'a>>, i: int)
    requires
        0 <= i < items.len(),
    ensures
        items_view(items).len() == items.len(),
        items_view(items)[i] == json_view(items[i]),
    decreases items.len(),
{
    if i < items.len() - 1 {
        lemma_items_view_index(items.drop_last(), i);
    } else {
        lemma_items_view_len(items.drop_last());
    }
}

proof fn lemma_members_view_index<'a>(members: Seq<(&'a str, Json<'a>)>, i: int)
    requires
        0 <= i < members.len(),
    ensures
        members_view(members).len() == members.len(),
        members_view(members)[i] == (members[i].0.spec_bytes(), json_view(members[i].1)),
    decreases members.len(),
{
    if i < members.len() - 1 {
        lemma_members_view_index(members.drop_last(), i);
    } else {
        lemma_members_view_len(members.drop_last());
    }
}

proof fn lemma_members_view_len<'a>(members: Seq<(&'a str, Json<'a>)>)
    ensures
        members_view(members).len() == members.len(),
    decreases members.len(),
{
    if members.len() > 0 {
        lemma_members_view_len(members.drop_last());
    }
}

proof fn lemma_lookup_skip(m: Seq<(Seq<u8>, JsonView)>, key: Seq<u8>, i: int)
    requires
        0 <= i <= m.len(),
        forall|k: int| 0 <= k < i ==> (#[trigger] m[k]).0 != key,
    ensures
        lookup(m, key) == lookup(m.subrange(i, m.len() as int), key),
    decreases i,
{
    if i > 0 {
        assert(m[0].0 != key);
        lemma_lookup_skip(m.drop_first(), key, i - 1);
        assert(m.drop_first().subrange(i - 1, m.drop_first().len() as int) =~= m.subrange(i, m.len() as int));
    } else {
        assert(m.subrange(0, m.len() as int) =~= m);
    }
}

/// Whether two strings hold the same bytes.
#[verifier::loop_isolation(false)]
pub fn str_eq(a: &str, b: &str) -> (r: bool)
    ensures
        r == (a.spec_bytes() == b.spec_bytes()),
{
    let x: &[u8] = a.as_bytes();
    let y: &[u8] = b.as_bytes();
    if x.len() != y.len() {
        proof {
            assert(x@.len() != y@.len());
        }
        return false;
    }
    let mut i: usize = 0;
    while i < x.len()
        invariant
            x@.len() == y@.len(),
            0 <= i <= x@.len(),
            forall|k: int| 0 <= k < i ==> x@[k] == y@[k],
        decreases x@.len() - i,
    {
        if x[i] != y[i] {
            proof {
                assert(x@[i as int] != y@[i as int]);
                assert(x@ != y@);
            }
            return false;
        }
        i = i + 1;
    }
    proof {
        assert(x@ =~= y@);
    }
    true
}

impl<'a> Json<'a> {
    /// Looks up an object member. `None` for a missing key or a non-object.
    #[verifier::loop_isolation(false)]
    pub fn get(&self, key: &str) -> (r: Option<&Json<'a>>)
        ensures
            match self@ {
                JsonView::Object(members) => match r {
                    Some(v) => lookup(members, key.spec_bytes()) == Some(v@),
                    None => lookup(members, key.spec_bytes()) is None,
                },
                _ => r is None,
            },
    {
        match self {
            Json::Object(members) => {
                let ghost m = members_view(members@);
                proof {
                    lemma_members_view_len(members@);
                }
                let mut i: usize = 0;
                while i < members.len()
                    invariant
                        m == members_view(members@),
                        m.len() == members@.len(),
                        0 <= i <= members@.len(),
                        forall|k: int| 0 <= k < i ==> (#[trigger] m[k]).0 != key.spec_bytes(),
                    decreases members@.len() - i,
                {
                    proof {
                        lemma_members_view_index(members@, i as int);
                    }
                    if str_eq(members[i].0, key) {
                        proof {
                            lemma_lookup_skip(m, key.spec_bytes(), i as int);
                            assert(m.subrange(i as int, m.len() as int)[0] == m[i as int]);
                            assert(m[i as int].0 == key.spec_bytes());
                            assert(lookup(m.subrange(i as int, m.len() as int), key.spec_bytes()) == Some(m[i as int].1));
                            assert(m[i as int].1 == json_view(members@[i as int].1));
                        }
                        return Some(&members[i].1);
                    }
                    i = i + 1;
                }
                proof {
                    lemma_lookup_skip(m, key.spec_bytes(), i as int);
                }
                None
            },
            _ => None,
        }
    }

    pub fn as_str(&self) -> (r: Option<&'a str>)
        ensures
            match self@ {
                JsonView::String(t) => r is Some && r.unwrap().spec_bytes() == t,
                _ => r is None,
            },
    {
        match self {
            Json::String(text) => Some(*text),
            _ => None,
        }
    }

    pub fn as_bool(&self) -> (r: Option<bool>)
        ensures
            match self@ {
                JsonView::Bool(b) => r == Some(b),
                _ => r is None,
            },
    {
        match self {
            Json::Bool(value) => Some(*value),
            _ => None,
        }
    }

    pub fn as_array(&self) -> (r: Option<&[Json<'a>]>)
        ensures
            match self@ {
                JsonView::Array(items) => r is Some && items_view(r.unwrap()@) == items,
                _ => r is None,
            },
    {
        match self {
            Json::Array(items) => Some(items.as_slice()),
            _ => None,
        }
    }

    /// The raw number text, for callers that want to interpret it themselves.
    pub fn as_number_str(&self) -> (r: Option<&'a str>)
        ensures
            match self@ {
                JsonView::Number(t) => r is Some && r.unwrap().spec_bytes() == t,
                _ => r is None,
            },
    {
        match self {
            Json::Number(text) => Some(*text),
            _ => None,
        }
    }

    /// Whole numbers only: a fractional value is not rounded, it is refused.
    pub fn as_i32(&self) -> (r: Option<i32>)
        ensures
            match self@ {
                JsonView::Number(t) => r == as_i32_spec(t),
                _ => r is None,
            },
    {
        let text: &str = match self.as_number_str() {
            Some(text) => text,
            None => {
                return None;
            },
        };
        text_as_i32(text.as_bytes())
    }

    pub fn as_u8(&self) -> (r: Option<u8>)
        ensures
            match self@ {
                JsonView::Number(t) => match as_i32_spec(t) {
                    Some(v) => if 0 <= v <= 255 { r == Some(v as u8) } else { r is None },
                    None => r is None,
                },
                _ => r is None,
            },
    {
        match self.as_i32() {
            Some(value) => {
                if 0 <= value && value <= 255 {
                    Some(value as u8)
                } else {
                    None
                }
            },
            None => None,
        }
    }

    /// Fixed-point, straight from the source text.
    pub fn as_fixed(&self) -> (r: Option<crate::fixed::Fixed>)
        ensures
            match self@ {
                JsonView::Number(t) => match crate::fixed::parse_spec(t) {
                    Ok(f) => r == Some(f),
                    Err(_) => r is None,
                },
                _ => r is None,
            },
    {
        let text: &str = match self.as_number_str() {
            Some(text) => text,
            None => {
                return None;
            },
        };
        match crate::fixed::Fixed::parse(text) {
            Ok(value) => Some(value),
            Err(_) => None,
        }
    }
}

/// `Json::as_i32` on the number's bytes.
#[verifier::loop_isolation(false)]
fn text_as_i32(t: &[u8]) -> (r: Option<i32>)
    ensures
        r == as_i32_spec(t@),
{
    let len: usize = t.len();
    let negative: bool = len > 0 && t[0] == 45u8;
    let start: usize = if len > 0 && (t[0] == 45u8 || t[0] == 43u8) { 1 } else { 0 };
    if start >= len {
        return None;
    }
    let mut i: usize = start;
    while i < len
        invariant
            len == t@.len(),
            start <= i <= len,
            forall|k: int| start <= k < i ==> crate::fixed::is_digit(#[trigger] t@[k]),
        decreases len - i,
    {
        if !(48u8 <= t[i] && t[i] <= 57u8) {
            proof {
                assert(!crate::fixed::is_digit(t@[i as int]));
            }
            return None;
        }
        i = i + 1;
    }
    let mut value: i64 = 0;
    let mut j: usize = start;
    while j < len
        invariant
            len == t@.len(),
            start <= j <= len,
            forall|k: int| start <= k < len ==> crate::fixed::is_digit(#[trigger] t@[k]),
            value == crate::fixed::digits_value(t@, start as int, j as int),
            0 <= value <= 0x8000_0000,
        decreases len - j,
    {
        value = value * 10 + (t[j] - 48u8) as i64;
        j = j + 1;
        if value > 0x8000_0000 {
            proof {
                crate::fixed::lemma_digits_value_monotone(t@, start as int, j as int, len as int);
                assert(crate::fixed::digits_value(t@, start as int, len as int) > 0x8000_0000);
                assert(!(exists|k: int| start <= k < t@.len() && !crate::fixed::is_digit(#[trigger] t@[k])));
            }
            return None;
        }
    }
    let signed: i64 = if negative { -value } else { value };
    if signed > i32::MAX as i64 {
        return None;
    }
    Some(signed as i32)
}


/// Structural equality: the same shape holding the same text.
#[verifier::loop_isolation(false)]
fn json_eq<'a>(a: &Json<'a>, b: &Json<'a>) -> (r: bool)
    ensures
        r == (a@ == b@),
    decreases a,
{
    match (a, b) {
        (Json::Null, Json::Null) => true,
        (Json::Bool(x), Json::Bool(y)) => *x == *y,
        (Json::Number(x), Json::Number(y)) => str_eq(x, y),
        (Json::String(x), Json::String(y)) => str_eq(x, y),
        (Json::Array(xs), Json::Array(ys)) => {
            proof {
                lemma_items_view_len(xs@);
                lemma_items_view_len(ys@);
            }
            if xs.len() != ys.len() {
                return false;
            }
            let mut i: usize = 0;
            while i < xs.len()
                invariant
                    i <= xs@.len(),
                    xs@.len() == ys@.len(),
                    items_view(xs@).len() == xs@.len(),
                    items_view(ys@).len() == ys@.len(),
                    forall|k: int| 0 <= k < i ==> #[trigger] items_view(xs@)[k] == items_view(ys@)[k],
                decreases xs@.len() - i,
            {
                proof {
                    lemma_items_view_index(xs@, i as int);
                    lemma_items_view_index(ys@, i as int);
                    assert(decreases_to!(xs => xs@));
                    assert(decreases_to!(xs@ => xs@[i as int]));
                }
                if !json_eq(&xs[i], &ys[i]) {
                    return false;
                }
                i = i + 1;
            }
            proof {
                assert(items_view(xs@) =~= items_view(ys@));
            }
            true
        },
        (Json::Object(xs), Json::Object(ys)) => {
            proof {
                lemma_members_view_len(xs@);
                lemma_members_view_len(ys@);
            }
            if xs.len() != ys.len() {
                return false;
            }
            let mut i: usize = 0;
            while i < xs.len()
                invariant
                    i <= xs@.len(),
                    xs@.len() == ys@.len(),
                    members_view(xs@).len() == xs@.len(),
                    members_view(ys@).len() == ys@.len(),
                    forall|k: int| 0 <= k < i ==> #[trigger] members_view(xs@)[k] == members_view(ys@)[k],
                decreases xs@.len() - i,
            {
                proof {
                    lemma_members_view_index(xs@, i as int);
                    lemma_members_view_index(ys@, i as int);
                    assert(decreases_to!(xs => xs@));
                    assert(decreases_to!(xs@ => xs@[i as int]));
                    assert(decreases_to!(xs@[i as int] => xs@[i as int].1));
                }
                if !str_eq(xs[i].0, ys[i].0) || !json_eq(&xs[i].1, &ys[i].1) {
                    return false;
                }
                i = i + 1;
            }
            proof {
                assert(members_view(xs@) =~= members_view(ys@));
            }
            true
        },
        _ => false,
    }
}

impl<'a> PartialEq for Json<'a> {
    fn eq(&self, other: &Self) -> (r: bool) {
        json_eq(self, other)
    }
}

impl<'a> vstd::std_specs::cmp::PartialEqSpecImpl for Json<'a> {
    open spec fn obeys_eq_spec() -> bool {
        true
    }

    open spec fn eq_spec(&self, other: &Self) -> bool {
        self@ == other@
    }
}

} // verus!
