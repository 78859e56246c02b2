//! The mathematical model of log-line parsing: what each token kind
//! extracts, how a whole format consumes a line, and how a projection
//! selects rows from the parsed result. The executable parser in
//! `log_parser` is proved equal to these functions.
use vstd::prelude::*;

use crate::log_parser::LogField;
use crate::log_parser::ParserElement;
use crate::log_parser::ParserError;

verus! {

/// The ASCII bytes the tokenizer dispatches on.
pub const SPACE: u8 = 32;

pub const QUOTE: u8 = 34;

pub const DASH: u8 = 45;

pub const OPEN_BRACKET: u8 = 91;

pub const BACKSLASH: u8 = 92;

pub const CLOSE_BRACKET: u8 = 93;

/// First index `i >= from` with `s[i] == b`, if any.
pub open spec fn find_byte(s: Seq<u8>, b: u8, from: int) -> Option<int>
    decreases s.len() - from,
{
    if from < 0 || from >= s.len() {
        None
    } else if s[from] == b {
        Some(from)
    } else {
        find_byte(s, b, from + 1)
    }
}

pub proof fn lemma_find_byte(s: Seq<u8>, b: u8, from: int)
    requires
        0 <= from,
    ensures
        match find_byte(s, b, from) {
            Some(i) => from <= i < s.len() && s[i] == b && (forall|j: int|
                from <= j < i ==> s[j] != b),
            None => forall|j: int| from <= j < s.len() ==> s[j] != b,
        },
    decreases s.len() - from,
{
    if from < s.len() && s[from] != b {
        lemma_find_byte(s, b, from + 1);
    }
}

pub proof fn lemma_find_byte_at(s: Seq<u8>, b: u8, from: int, i: int)
    requires
        0 <= from <= i < s.len(),
        s[i] == b,
        forall|j: int| from <= j < i ==> s[j] != b,
    ensures
        find_byte(s, b, from) == Some(i),
    decreases i - from,
{
    if from < i {
        lemma_find_byte_at(s, b, from + 1, i);
    }
}

pub proof fn lemma_find_byte_none(s: Seq<u8>, b: u8, from: int)
    requires
        0 <= from,
        forall|j: int| from <= j < s.len() ==> s[j] != b,
    ensures
        find_byte(s, b, from) is None,
    decreases s.len() - from,
{
    if from < s.len() {
        lemma_find_byte_none(s, b, from + 1);
    }
}

/// A quote that closes a quote-delimited field: either the very first byte
/// of the field's content, or a `"` not preceded by a backslash.
pub open spec fn unescaped_quote_at(s: Seq<u8>, j: int) -> bool {
    s[j] == QUOTE && (j == 0 || s[j - 1] != BACKSLASH)
}

/// First index `i >= from` of an unescaped quote in `s`, if any.
pub open spec fn find_close_quote(s: Seq<u8>, from: int) -> Option<int>
    decreases s.len() - from,
{
    if from < 0 || from >= s.len() {
        None
    } else if unescaped_quote_at(s, from) {
        Some(from)
    } else {
        find_close_quote(s, from + 1)
    }
}

pub proof fn lemma_find_close_quote(s: Seq<u8>, from: int)
    requires
        0 <= from,
    ensures
        match find_close_quote(s, from) {
            Some(i) => from <= i < s.len() && unescaped_quote_at(s, i) && (forall|j: int|
                from <= j < i ==> !unescaped_quote_at(s, j)),
            None => forall|j: int| from <= j < s.len() ==> !unescaped_quote_at(s, j),
        },
    decreases s.len() - from,
{
    if from < s.len() && !unescaped_quote_at(s, from) {
        lemma_find_close_quote(s, from + 1);
    }
}

pub proof fn lemma_find_close_quote_at(s: Seq<u8>, from: int, i: int)
    requires
        0 <= from <= i < s.len(),
        unescaped_quote_at(s, i),
        forall|j: int| from <= j < i ==> !unescaped_quote_at(s, j),
    ensures
        find_close_quote(s, from) == Some(i),
    decreases i - from,
{
    if from < i {
        lemma_find_close_quote_at(s, from + 1, i);
    }
}

pub proof fn lemma_find_close_quote_none(s: Seq<u8>, from: int)
    requires
        0 <= from,
        forall|j: int| from <= j < s.len() ==> !unescaped_quote_at(s, j),
    ensures
        find_close_quote(s, from) is None,
    decreases s.len() - from,
{
    if from < s.len() {
        lemma_find_close_quote_none(s, from + 1);
    }
}

/// Value and relative end position of a word read at the start of `s`:
/// everything up to the first space, or all of `s` when no space remains.
pub open spec fn spec_parse_word(s: Seq<u8>) -> (Seq<u8>, int) {
    match find_byte(s, SPACE, 0) {
        Some(i) => (s.subrange(0, i), i),
        None => (s, s.len() as int),
    }
}

/// A bracket-delimited field read at the start of `s`: the span strictly
/// between `[` and the next `]`. Error offsets are relative to `s`.
pub open spec fn spec_parse_bracket(s: Seq<u8>) -> Result<(Seq<u8>, int), ParserError> {
    if s[0] != OPEN_BRACKET {
        Err(ParserError::UnexpectedCharacter('[', s[0] as char, 0))
    } else {
        match find_byte(s, CLOSE_BRACKET, 0) {
            Some(i) => Ok((s.subrange(1, i), i + 1)),
            None => Err(ParserError::UnexpectedEndOfLine),
        }
    }
}

/// A quote-delimited field read at the start of `s`: the span strictly
/// between `"` and the next unescaped `"`. Error offsets are relative to `s`.
pub open spec fn spec_parse_quote(s: Seq<u8>) -> Result<(Seq<u8>, int), ParserError> {
    if s[0] != QUOTE {
        Err(ParserError::UnexpectedCharacter('"', s[0] as char, 0))
    } else {
        let content = s.subrange(1, s.len() as int);
        match find_close_quote(content, 0) {
            Some(q) => Ok((content.subrange(0, q), q + 2)),
            None => Err(ParserError::UnexpectedEndOfLine),
        }
    }
}

/// Dispatch on the token kind. `Computed` never reads input; the parse loop
/// skips such fields, so its arm here is never consulted.
pub open spec fn spec_parse_token(kind: ParserElement, s: Seq<u8>) -> Result<
    (Seq<u8>, int),
    ParserError,
> {
    match kind {
        ParserElement::Word => Ok(spec_parse_word(s)),
        ParserElement::BracketDelimited => spec_parse_bracket(s),
        ParserElement::QuoteDelimited => spec_parse_quote(s),
        ParserElement::Computed => Err(ParserError::UnexpectedEndOfLine),
    }
}

/// Output rows contributed by a field named `request` whose quoted content
/// is `content` and which started at absolute offset `pos`: the raw value
/// when a projection is bound, then the three computed sub-fields
/// (method, uri, http), each `-` when the content is exactly `-`.
pub open spec fn spec_request_entries(content: Seq<u8>, pos: int, has_proj: bool) -> Result<
    Seq<Seq<u8>>,
    ParserError,
> {
    let raw: Seq<Seq<u8>> = if has_proj {
        seq![content]
    } else {
        Seq::empty()
    };
    if content == seq![DASH] {
        Ok(raw + seq![content, content, content])
    } else {
        match find_byte(content, SPACE, 0) {
            Some(s1) => match find_byte(content, SPACE, s1 + 1) {
                Some(s2) => Ok(
                    raw + seq![
                        content.subrange(0, s1),
                        content.subrange(s1 + 1, s2),
                        content.subrange(s2 + 1, content.len() as int),
                    ],
                ),
                None => Err(
                    ParserError::UnexpectedCharacter(' ', '"', (pos + content.len()) as usize),
                ),
            },
            None => Err(ParserError::UnexpectedCharacter(' ', '"', (pos + content.len()) as usize)),
        }
    }
}

/// Shift a token error's relative offset to the absolute cursor position.
pub open spec fn spec_at_cursor(e: ParserError, pos: int) -> ParserError {
    match e {
        ParserError::UnexpectedCharacter(expected, got, off) => ParserError::UnexpectedCharacter(
            expected,
            got,
            (pos + off) as usize,
        ),
        ParserError::UnexpectedEndOfLine => ParserError::UnexpectedEndOfLine,
    }
}

/// One linear scan of `line` against `fields`, starting at field `id` with
/// the cursor at `pos` and the rows of `acc` already produced. Fields past
/// `max` are never touched. A field named `request` contributes its computed
/// sub-fields (and, under a projection, its raw value); `Computed` fields
/// consume nothing. After each consuming field exactly one space must
/// separate it from the next byte, if any.
pub open spec fn spec_parse_fields(
    fields: Seq<LogField>,
    has_proj: bool,
    max: int,
    line: Seq<u8>,
    id: int,
    pos: int,
    acc: Seq<Seq<u8>>,
) -> Result<Seq<Seq<u8>>, ParserError>
    decreases fields.len() - id,
{
    if id >= fields.len() || id > max {
        Ok(acc)
    } else if fields[id].element_type is Computed {
        spec_parse_fields(fields, has_proj, max, line, id + 1, pos, acc)
    } else if pos >= line.len() {
        Err(ParserError::UnexpectedEndOfLine)
    } else {
        match spec_parse_token(fields[id].element_type, line.subrange(pos, line.len() as int)) {
            Err(e) => Err(spec_at_cursor(e, pos)),
            Ok((value, consumed)) => {
                let entries: Result<Seq<Seq<u8>>, ParserError> = if fields[id].name@
                    == "request"@ {
                    spec_request_entries(value, pos, has_proj)
                } else {
                    Ok(seq![value])
                };
                match entries {
                    Err(e) => Err(e),
                    Ok(es) => {
                        let end = pos + consumed;
                        if end < line.len() && line[end] != SPACE {
                            Err(ParserError::UnexpectedCharacter(' ', line[end] as char, end as usize))
                        } else {
                            let next = if end + 1 <= line.len() {
                                end + 1
                            } else {
                                line.len() as int
                            };
                            spec_parse_fields(fields, has_proj, max, line, id + 1, next, acc + es)
                        }
                    },
                }
            },
        }
    }
}

/// First field of `fields` at or after `from` whose name is `name`.
pub open spec fn first_match_from(fields: Seq<LogField>, name: Seq<char>, from: int) -> Option<int>
    decreases fields.len() - from,
{
    if from < 0 || from >= fields.len() {
        None
    } else if fields[from].name@ == name {
        Some(from)
    } else {
        first_match_from(fields, name, from + 1)
    }
}

/// Position a requested field name resolves to: the first declared field
/// with that name, if any.
pub open spec fn spec_first_match(fields: Seq<LogField>, name: Seq<char>) -> Option<int> {
    first_match_from(fields, name, 0)
}

pub proof fn lemma_first_match_at(fields: Seq<LogField>, name: Seq<char>, from: int, i: int)
    requires
        0 <= from <= i < fields.len(),
        fields[i].name@ == name,
        forall|j: int| from <= j < i ==> fields[j].name@ != name,
    ensures
        first_match_from(fields, name, from) == Some(i),
    decreases i - from,
{
    if from < i {
        lemma_first_match_at(fields, name, from + 1, i);
    }
}

pub proof fn lemma_first_match_none(fields: Seq<LogField>, name: Seq<char>, from: int)
    requires
        0 <= from,
        forall|j: int| from <= j < fields.len() ==> fields[j].name@ != name,
    ensures
        first_match_from(fields, name, from) is None,
    decreases fields.len() - from,
{
    if from < fields.len() {
        lemma_first_match_none(fields, name, from + 1);
    }
}

pub proof fn lemma_first_match(fields: Seq<LogField>, name: Seq<char>, from: int)
    requires
        0 <= from,
    ensures
        match first_match_from(fields, name, from) {
            Some(i) => from <= i < fields.len() && fields[i].name@ == name && (forall|j: int|
                from <= j < i ==> fields[j].name@ != name),
            None => forall|j: int| from <= j < fields.len() ==> fields[j].name@ != name,
        },
    decreases fields.len() - from,
{
    if from < fields.len() && fields[from].name@ != name {
        lemma_first_match(fields, name, from + 1);
    }
}

/// Positions that a list of requested names resolves to, in request order;
/// a name that matches no field is dropped.
pub open spec fn spec_resolve(fields: Seq<LogField>, names: Seq<Seq<char>>) -> Seq<int>
    decreases names.len(),
{
    if names.len() == 0 {
        Seq::empty()
    } else {
        let rest = spec_resolve(fields, names.drop_last());
        match spec_first_match(fields, names.last()) {
            Some(i) => rest.push(i),
            None => rest,
        }
    }
}

/// The highest resolved position, or 0 when nothing resolved.
pub open spec fn spec_max_id(ids: Seq<int>) -> int
    decreases ids.len(),
{
    if ids.len() == 0 {
        0
    } else {
        let m = spec_max_id(ids.drop_last());
        if ids.last() > m {
            ids.last()
        } else {
            m
        }
    }
}

pub proof fn lemma_max_id(ids: Seq<int>)
    ensures
        spec_max_id(ids) >= 0,
        forall|k: int| 0 <= k < ids.len() ==> ids[k] <= spec_max_id(ids),
    decreases ids.len(),
{
    if ids.len() > 0 {
        lemma_max_id(ids.drop_last());
        assert(forall|k: int| 0 <= k < ids.len() - 1 ==> ids[k] == ids.drop_last()[k]);
    }
}

pub proof fn lemma_resolve_in_range(fields: Seq<LogField>, names: Seq<Seq<char>>)
    ensures
        forall|k: int|
            0 <= k < spec_resolve(fields, names).len() ==> 0 <= #[trigger] spec_resolve(
                fields,
                names,
            )[k] < fields.len(),
    decreases names.len(),
{
    if names.len() > 0 {
        lemma_resolve_in_range(fields, names.drop_last());
        lemma_first_match(fields, names.last(), 0);
        let rest = spec_resolve(fields, names.drop_last());
        let ids = spec_resolve(fields, names);
        match spec_first_match(fields, names.last()) {
            Some(i) => {
                assert(ids == rest.push(i));
                assert(forall|k: int| 0 <= k < rest.len() ==> ids[k] == rest[k]);
            },
            None => {
                assert(ids == rest);
            },
        }
    }
}

/// Selection of rows from a fully parsed result, in projection order.
pub open spec fn spec_select(full: Seq<Seq<u8>>, ids: Seq<int>) -> Seq<Seq<u8>> {
    ids.map_values(|i: int| full[i])
}

/// How many output rows one field contributes to a parse that reaches it.
pub open spec fn spec_pushes(f: LogField, has_proj: bool) -> int {
    if f.element_type is Computed {
        0
    } else if f.name@ == "request"@ {
        if has_proj {
            4
        } else {
            3
        }
    } else {
        1
    }
}

/// Total rows contributed by the fields with positions in `[from, to)`.
pub open spec fn spec_push_range(fields: Seq<LogField>, has_proj: bool, from: int, to: int) -> int
    decreases to - from,
{
    if from >= to {
        0
    } else {
        spec_pushes(fields[from], has_proj) + spec_push_range(fields, has_proj, from + 1, to)
    }
}

/// Row counts over adjacent ranges add up.
pub proof fn lemma_push_range_split(
    fields: Seq<LogField>,
    has_proj: bool,
    a: int,
    b: int,
    c: int,
)
    requires
        a <= b <= c,
    ensures
        spec_push_range(fields, has_proj, a, c) == spec_push_range(fields, has_proj, a, b)
            + spec_push_range(fields, has_proj, b, c),
    decreases b - a,
{
    if a < b {
        lemma_push_range_split(fields, has_proj, a + 1, b, c);
    }
}

/// Index one past the last field a parse bounded by `max` touches.
pub open spec fn spec_fields_end(fields: Seq<LogField>, max: int) -> int {
    if max + 1 <= fields.len() {
        max + 1
    } else {
        fields.len() as int
    }
}

/// A successful parse produces exactly the rows the touched fields push.
pub proof fn lemma_parse_fields_len(
    fields: Seq<LogField>,
    has_proj: bool,
    max: int,
    line: Seq<u8>,
    id: int,
    pos: int,
    acc: Seq<Seq<u8>>,
)
    requires
        0 <= id,
    ensures
        match spec_parse_fields(fields, has_proj, max, line, id, pos, acc) {
            Ok(full) => full.len() == acc.len() + spec_push_range(
                fields,
                has_proj,
                id,
                spec_fields_end(fields, max),
            ),
            Err(_) => true,
        },
    decreases fields.len() - id,
{
    let end = spec_fields_end(fields, max);
    if id >= fields.len() || id > max {
        assert(spec_push_range(fields, has_proj, id, end) == 0);
    } else if fields[id].element_type is Computed {
        lemma_parse_fields_len(fields, has_proj, max, line, id + 1, pos, acc);
    } else if pos >= line.len() {
    } else {
        match spec_parse_token(fields[id].element_type, line.subrange(pos, line.len() as int)) {
            Err(_) => {},
            Ok((value, consumed)) => {
                let entries: Result<Seq<Seq<u8>>, ParserError> = if fields[id].name@
                    == "request"@ {
                    spec_request_entries(value, pos, has_proj)
                } else {
                    Ok(seq![value])
                };
                match entries {
                    Err(_) => {},
                    Ok(es) => {
                        assert(es.len() == spec_pushes(fields[id], has_proj));
                        let step = pos + consumed;
                        if step < line.len() && line[step] != SPACE {
                        } else {
                            let next = if step + 1 <= line.len() {
                                step + 1
                            } else {
                                line.len() as int
                            };
                            lemma_parse_fields_len(
                                fields,
                                has_proj,
                                max,
                                line,
                                id + 1,
                                next,
                                acc + es,
                            );
                        }
                    },
                }
            },
        }
    }
}

/// Every projection index selects a row that a successful parse of the
/// projected prefix produces.
pub open spec fn spec_projection_safe(fields: Seq<LogField>, names: Seq<Seq<char>>) -> bool {
    let ids = spec_resolve(fields, names);
    forall|k: int|
        0 <= k < ids.len() ==> #[trigger] ids[k] < spec_push_range(
            fields,
            true,
            0,
            spec_fields_end(fields, spec_max_id(ids)),
        )
}

/// The byte sequences a vector of borrowed slices holds.
pub open spec fn views_of(v: Seq<&[u8]>) -> Seq<Seq<u8>> {
    Seq::new(v.len(), |i: int| v[i]@)
}

/// The character sequences a vector of owned strings holds.
pub open spec fn names_of(v: Seq<String>) -> Seq<Seq<char>> {
    Seq::new(v.len(), |i: int| v[i]@)
}

/// A field with the given name and token kind.
pub open spec fn field_is(f: LogField, name: Seq<char>, kind: ParserElement) -> bool {
    f.name@ == name && f.element_type == kind
}

/// The `common` format's ten fields, laid out starting at position `off`.
pub open spec fn spec_common_layout(s: Seq<LogField>, off: int) -> bool {
    &&& field_is(s[off + 0], "ip"@, ParserElement::Word)
    &&& field_is(s[off + 1], "rfc1413"@, ParserElement::Word)
    &&& field_is(s[off + 2], "username"@, ParserElement::Word)
    &&& field_is(s[off + 3], "time"@, ParserElement::BracketDelimited)
    &&& field_is(s[off + 4], "request"@, ParserElement::QuoteDelimited)
    &&& field_is(s[off + 5], "method"@, ParserElement::Computed)
    &&& field_is(s[off + 6], "uri"@, ParserElement::Computed)
    &&& field_is(s[off + 7], "http"@, ParserElement::Computed)
    &&& field_is(s[off + 8], "status"@, ParserElement::Word)
    &&& field_is(s[off + 9], "responsesize"@, ParserElement::Word)
}

/// The one-line diagnostic for a parse error. The byte offset carried by
/// `UnexpectedCharacter` is not rendered.
pub open spec fn spec_error_string(e: ParserError) -> Seq<char> {
    match e {
        ParserError::UnexpectedEndOfLine => "Unexpected end of line"@,
        ParserError::UnexpectedCharacter(expected, got, _position) =>
            "Unexpected character: expected '"@ + seq![expected] + "', got '"@ + seq![got] + "'"@,
    }
}

/// The complete behaviour of one `parse_line` call: scan the touched prefix
/// of the format, then either hand the rows back in declaration order or
/// select them by the resolved projection.
pub open spec fn spec_parse_line(
    fields: Seq<LogField>,
    ids: Option<Seq<int>>,
    max: int,
    line: Seq<u8>,
) -> Result<Seq<Seq<u8>>, ParserError> {
    match spec_parse_fields(fields, ids is Some, max, line, 0, 0, Seq::empty()) {
        Err(e) => Err(e),
        Ok(full) => Ok(
            match ids {
                Some(v) => spec_select(full, v),
                None => full,
            },
        ),
    }
}

} // verus!
