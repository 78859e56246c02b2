//! Field extraction from Apache/NCSA access-log lines: the catalog of the
//! four predefined formats and the line parser that walks a line byte by
//! byte, honouring an optional projection of field names.
use vstd::prelude::*;

use crate::model::find_byte;
use crate::model::find_close_quote;
use crate::model::BACKSLASH;
use crate::model::CLOSE_BRACKET;
use crate::model::DASH;
use crate::model::OPEN_BRACKET;
use crate::model::QUOTE;
use crate::model::SPACE;
use crate::model::lemma_find_byte;
use crate::model::lemma_find_byte_at;
use crate::model::lemma_find_byte_none;
use crate::model::lemma_find_close_quote_at;
use crate::model::lemma_find_close_quote_none;
use crate::model::lemma_first_match_at;
use crate::model::lemma_first_match_none;
use crate::model::lemma_parse_fields_len;
use crate::model::field_is;
use crate::model::names_of;
use crate::model::spec_common_layout;
use crate::model::spec_error_string;
use crate::model::spec_projection_safe;
use crate::model::views_of;
use crate::model::spec_fields_end;
use crate::model::spec_first_match;
use crate::model::spec_max_id;
use crate::model::spec_parse_bracket;
use crate::model::spec_parse_fields;
use crate::model::spec_parse_line;
use crate::model::spec_parse_quote;
use crate::model::spec_parse_token;
use crate::model::spec_parse_word;
use crate::model::spec_push_range;
use crate::model::spec_request_entries;
use crate::model::spec_resolve;
use crate::model::spec_select;
use crate::model::unescaped_quote_at;
use vstd::slice::slice_subrange;
use vstd::string::StringSliceAdditionalSpecFns;

verus! {

/// The strategy by which one field's text is carved out of a line.
#[derive(Clone, Copy, Debug, PartialEq, Eq)]
pub enum ParserElement {
    Word,
    BracketDelimited,
    QuoteDelimited,
    Computed,
}

/// A positioned parse failure: either the byte at an offset is not the one
/// the format demands (expected, actual, offset), or the line ended while a
/// field was still owed.
#[derive(Clone, Copy, Debug, PartialEq, Eq)]
pub enum ParserError {
    UnexpectedCharacter(char, char, usize),
    UnexpectedEndOfLine,
}

/// One field of a log format: its name and extraction strategy.
pub struct LogField {
    pub name: String,
    pub element_type: ParserElement,
}

/// Relies on memchr::memchr: returns the index of the first occurrence of
/// `needle` in `haystack`, or `None` when the byte does not occur.
pub assume_specification [ memchr::memchr ](needle: u8, haystack: &[u8]) -> (r: Option<usize>)
    ensures
        match r {
            Some(i) => i < haystack@.len() && haystack@[i as int] == needle && (forall|j: int|
                0 <= j < i ==> haystack@[j] != needle),
            None => forall|j: int| 0 <= j < haystack@.len() ==> haystack@[j] != needle,
        },
;

/// Whether two string slices hold the same characters.
pub fn str_eq(a: &str, b: &str) -> (r: bool)
    ensures
        r == (a@ == b@),
{
    proof {
        vstd::utf8::encode_utf8_decode_utf8(a@);
        vstd::utf8::encode_utf8_decode_utf8(b@);
    }
    let ab = a.as_bytes();
    let bb = b.as_bytes();
    if ab.len() != bb.len() {
        return false;
    }
    let mut i: usize = 0;
    while i < ab.len()
        invariant
            i <= ab@.len(),
            ab@.len() == bb@.len(),
            ab@ == a.spec_bytes(),
            bb@ == b.spec_bytes(),
            forall|j: int| 0 <= j < i ==> ab@[j] == bb@[j],
        decreases ab@.len() - i,
    {
        if ab[i] != bb[i] {
            return false;
        }
        i += 1;
    }
    proof {
        assert(a.spec_bytes() =~= b.spec_bytes());
    }
    true
}

impl ParserElement {
    /// A word runs to the next space, or to the end of the line.
    fn parse_word<'a>(&self, input: &'a [u8]) -> (r: Result<(&'a [u8], usize), ParserError>)
        ensures
            (r matches Ok((v, c)) && spec_parse_word(input@) == (v@, c as int) && c
                <= input@.len() && v@.len() <= input@.len()),
    {
        match memchr::memchr(SPACE, input) {
            Some(next_pos) => {
                proof {
                    lemma_find_byte_at(input@, SPACE, 0, next_pos as int);
                }
                Ok((slice_subrange(input, 0, next_pos), next_pos))
            },
            None => {
                proof {
                    lemma_find_byte_none(input@, SPACE, 0);
                }
                Ok((input, input.len()))
            },
        }
    }

    /// The value lies strictly between `[` and the next `]`.
    fn parse_bracket_delimited<'a>(&self, input: &'a [u8]) -> (r: Result<
        (&'a [u8], usize),
        ParserError,
    >)
        requires
            input@.len() > 0,
        ensures
            match r {
                Ok((v, c)) => spec_parse_bracket(input@) == Ok::<_, ParserError>((v@, c as int))
                    && c <= input@.len() && v@.len() <= input@.len(),
                Err(e) => spec_parse_bracket(input@) == Err::<(Seq<u8>, int), _>(e),
            },
    {
        if input[0] != OPEN_BRACKET {
            return Err(ParserError::UnexpectedCharacter('[', input[0] as char, 0));
        }
        match memchr::memchr(CLOSE_BRACKET, input) {
            Some(next_pos) => {
                proof {
                    lemma_find_byte_at(input@, CLOSE_BRACKET, 0, next_pos as int);
                }
                Ok((slice_subrange(input, 1, next_pos), next_pos + 1))
            },
            None => {
                proof {
                    lemma_find_byte_none(input@, CLOSE_BRACKET, 0);
                }
                Err(ParserError::UnexpectedEndOfLine)
            },
        }
    }

    /// Position of the first unescaped `"` in a quoted field's content: a
    /// quote ends the field unless the byte before it is a backslash.
    fn get_end_quote_pos(&self, input: &[u8]) -> (r: Result<usize, ParserError>)
        ensures
            match r {
                Ok(q) => find_close_quote(input@, 0) == Some(q as int) && q < input@.len(),
                Err(e) => e == ParserError::UnexpectedEndOfLine && find_close_quote(input@, 0)
                    is None,
            },
    {
        let mut cur_pos: usize = 0;
        loop
            invariant
                cur_pos <= input@.len(),
                forall|j: int| 0 <= j < cur_pos ==> !unescaped_quote_at(input@, j),
            decreases input@.len() - cur_pos,
        {
            let tail = slice_subrange(input, cur_pos, input.len());
            match memchr::memchr(QUOTE, tail) {
                Some(rel_pos) => {
                    let next_pos = cur_pos + rel_pos;
                    proof {
                        assert(forall|j: int|
                            cur_pos <= j < next_pos ==> input@[j] == tail@[j - cur_pos]);
                        assert(input@[next_pos as int] == tail@[rel_pos as int]);
                    }
                    if next_pos == 0 || input[next_pos - 1] != BACKSLASH {
                        proof {
                            assert(forall|j: int|
                                0 <= j < next_pos ==> !unescaped_quote_at(input@, j));
                            lemma_find_close_quote_at(input@, 0, next_pos as int);
                        }
                        return Ok(next_pos);
                    }
                    proof {
                        assert(forall|j: int|
                            0 <= j <= next_pos ==> !unescaped_quote_at(input@, j));
                    }
                    cur_pos = next_pos + 1;
                },
                None => {
                    proof {
                        assert(forall|j: int|
                            cur_pos <= j < input@.len() ==> input@[j] == tail@[j - cur_pos]);
                        assert(forall|j: int|
                            0 <= j < input@.len() ==> !unescaped_quote_at(input@, j));
                        lemma_find_close_quote_none(input@, 0);
                    }
                    return Err(ParserError::UnexpectedEndOfLine);
                },
            }
        }
    }

    /// The value lies strictly between `"` and the next unescaped `"`.
    fn parse_quote_delimited<'a>(&self, input: &'a [u8]) -> (r: Result<
        (&'a [u8], usize),
        ParserError,
    >)
        requires
            input@.len() > 0,
        ensures
            match r {
                Ok((v, c)) => spec_parse_quote(input@) == Ok::<_, ParserError>((v@, c as int))
                    && c <= input@.len() && v@.len() <= input@.len(),
                Err(e) => spec_parse_quote(input@) == Err::<(Seq<u8>, int), _>(e),
            },
    {
        if input[0] != QUOTE {
            return Err(ParserError::UnexpectedCharacter('"', input[0] as char, 0));
        }
        let content = slice_subrange(input, 1, input.len());
        match self.get_end_quote_pos(content) {
            Ok(end_quote) => Ok((slice_subrange(content, 0, end_quote), end_quote + 2)),
            Err(e) => Err(e),
        }
    }

    /// Read one input-consuming token at the start of `input`.
    fn parse<'a>(&self, input: &'a [u8]) -> (r: Result<(&'a [u8], usize), ParserError>)
        requires
            !(self is Computed),
            input@.len() > 0,
        ensures
            match r {
                Ok((v, c)) => spec_parse_token(*self, input@) == Ok::<_, ParserError>((
                    v@,
                    c as int,
                )) && c <= input@.len() && v@.len() <= input@.len(),
                Err(e) => spec_parse_token(*self, input@) == Err::<(Seq<u8>, int), _>(e) && (
                e matches ParserError::UnexpectedCharacter(_, _, off) ==> off == 0),
            },
    {
        // The precondition rules out `Computed`; its arm only completes
        // the match.
        match self {
            ParserElement::Word => self.parse_word(input),
            ParserElement::BracketDelimited => self.parse_bracket_delimited(input),
            ParserElement::QuoteDelimited => self.parse_quote_delimited(input),
            ParserElement::Computed => Err(ParserError::UnexpectedEndOfLine),
        }
    }
}

impl LogField {
    /// Field names of a format in declared order, `Computed` fields listed
    /// by their own names.
    pub fn get_names(format: &[LogField]) -> (r: Vec<String>)
        ensures
            r@.len() == format@.len(),
            forall|i: int| 0 <= i < format@.len() ==> r@[i]@ == format@[i].name@,
    {
        let mut names: Vec<String> = Vec::new();
        let mut i: usize = 0;
        while i < format.len()
            invariant
                i <= format@.len(),
                names@.len() == i,
                forall|j: int| 0 <= j < i ==> names@[j]@ == format@[j].name@,
            decreases format@.len() - i,
        {
            names.push(format[i].name.clone());
            i += 1;
        }
        names
    }

    /// The `common` format: ip, rfc1413, username, time, request (with its
    /// three computed sub-fields), status, responsesize.
    pub fn log_format_common() -> (r: Vec<LogField>)
        ensures
            r@.len() == 10,
            spec_common_layout(r@, 0),
    {
        let mut log_format: Vec<LogField> = Vec::new();
        log_format.push(LogField { name: "ip".to_owned(), element_type: ParserElement::Word });
        log_format.push(
            LogField { name: "rfc1413".to_owned(), element_type: ParserElement::Word },
        );
        log_format.push(
            LogField { name: "username".to_owned(), element_type: ParserElement::Word },
        );
        log_format.push(
            LogField { name: "time".to_owned(), element_type: ParserElement::BracketDelimited },
        );
        log_format.push(
            LogField { name: "request".to_owned(), element_type: ParserElement::QuoteDelimited },
        );
        log_format.push(
            LogField { name: "method".to_owned(), element_type: ParserElement::Computed },
        );
        log_format.push(LogField { name: "uri".to_owned(), element_type: ParserElement::Computed });
        log_format.push(
            LogField { name: "http".to_owned(), element_type: ParserElement::Computed },
        );
        log_format.push(LogField { name: "status".to_owned(), element_type: ParserElement::Word });
        log_format.push(
            LogField { name: "responsesize".to_owned(), element_type: ParserElement::Word },
        );
        log_format
    }

    /// The `vhost_common` format: a leading vhost field, then `common`.
    pub fn log_format_vhost_common() -> (r: Vec<LogField>)
        ensures
            r@.len() == 11,
            field_is(r@[0], "vhost"@, ParserElement::Word),
            spec_common_layout(r@, 1),
    {
        let mut log_format: Vec<LogField> = Vec::new();
        log_format.push(LogField { name: "vhost".to_owned(), element_type: ParserElement::Word });
        let mut rest = Self::log_format_common();
        log_format.append(&mut rest);
        log_format
    }

    /// The `combined` format: `common`, then quoted referer and useragent.
    pub fn log_format_combined() -> (r: Vec<LogField>)
        ensures
            r@.len() == 12,
            spec_common_layout(r@, 0),
            field_is(r@[10], "referer"@, ParserElement::QuoteDelimited),
            field_is(r@[11], "useragent"@, ParserElement::QuoteDelimited),
    {
        let mut log_format = Self::log_format_common();
        log_format.push(
            LogField { name: "referer".to_owned(), element_type: ParserElement::QuoteDelimited },
        );
        log_format.push(
            LogField { name: "useragent".to_owned(), element_type: ParserElement::QuoteDelimited },
        );
        log_format
    }

    /// The `combinedio` format: `combined`, then the input and output byte
    /// counts.
    pub fn log_format_combinedio() -> (r: Vec<LogField>)
        ensures
            r@.len() == 14,
            spec_common_layout(r@, 0),
            field_is(r@[10], "referer"@, ParserElement::QuoteDelimited),
            field_is(r@[11], "useragent"@, ParserElement::QuoteDelimited),
            field_is(r@[12], "input"@, ParserElement::Word),
            field_is(r@[13], "output"@, ParserElement::Word),
    {
        let mut log_format = Self::log_format_combined();
        log_format.push(LogField { name: "input".to_owned(), element_type: ParserElement::Word });
        log_format.push(LogField { name: "output".to_owned(), element_type: ParserElement::Word });
        log_format
    }
}

/// Position of the first format field whose name equals `name`, if any.
fn find_field(log_format: &[LogField], name: &String) -> (r: Option<usize>)
    ensures
        match r {
            Some(i) => spec_first_match(log_format@, name@) == Some(i as int),
            None => spec_first_match(log_format@, name@) is None,
        },
{
    let mut i: usize = 0;
    while i < log_format.len()
        invariant
            i <= log_format@.len(),
            forall|j: int| 0 <= j < i ==> log_format@[j].name@ != name@,
        decreases log_format@.len() - i,
    {
        if str_eq(name.as_str(), log_format[i].name.as_str()) {
            proof {
                lemma_first_match_at(log_format@, name@, 0, i as int);
            }
            return Some(i);
        }
        i += 1;
    }
    proof {
        lemma_first_match_none(log_format@, name@, 0);
    }
    None
}

/// Relies on std's `format!` with the `Display` impls for `char` and `str`:
/// literal pieces are copied verbatim and each char argument is written as
/// that single character.
#[verifier::external_body]
fn format_unexpected_character(expected: char, got: char) -> (r: String)
    ensures
        r@ == spec_error_string(ParserError::UnexpectedCharacter(expected, got, 0)),
{
    format!("Unexpected character: expected '{}', got '{}'", expected, got)
}

/// A parser bound to one format and, optionally, to a projection of field
/// names resolved against that format.
pub struct LineParser<'a> {
    pub log_format: &'a [LogField],
    pub field_ids: Option<Vec<usize>>,
    pub max_field_id: usize,
}

impl<'a> LineParser<'a> {
    /// The projection positions as mathematical integers.
    pub open spec fn spec_ids(&self) -> Option<Seq<int>> {
        match self.field_ids {
            Some(ids) => Some(ids@.map_values(|u: usize| u as int)),
            None => None,
        }
    }

    /// Every projection position selects a row that a successful parse of
    /// the touched prefix produces.
    pub open spec fn wf(&self) -> bool {
        match self.field_ids {
            Some(ids) => forall|k: int|
                0 <= k < ids@.len() ==> (#[trigger] ids@[k]) < spec_push_range(
                    self.log_format@,
                    true,
                    0,
                    spec_fields_end(self.log_format@, self.max_field_id as int),
                ),
            None => true,
        }
    }

    /// Bind a parser to a format and an optional projection. Requested
    /// names each resolve to the first field with that name; unresolved
    /// names are dropped, never an error.
    #[verifier::loop_isolation(false)]
    pub fn new(log_format: &'a [LogField], fields: Option<Vec<String>>) -> (r: LineParser<'a>)
        requires
            fields is None ==> log_format@.len() > 0,
            fields matches Some(v) ==> spec_projection_safe(log_format@, names_of(v@)),
        ensures
            r.log_format@ == log_format@,
            match fields {
                None => r.field_ids is None && r.max_field_id as int == log_format@.len() - 1,
                Some(v) => r.spec_ids() == Some(spec_resolve(log_format@, names_of(v@)))
                    && r.max_field_id as int == spec_max_id(
                    spec_resolve(log_format@, names_of(v@)),
                ),
            },
            r.wf(),
    {
        match fields {
            None => {
                let r = LineParser {
                    log_format,
                    field_ids: None,
                    max_field_id: log_format.len() - 1,
                };
                proof {
                    assert(r.field_ids is None);
                    assert(r.wf());
                }
                r
            },
            Some(v) => {
                let mut ids: Vec<usize> = Vec::new();
                let mut max_field_id: usize = 0;
                let mut k: usize = 0;
                while k < v.len()
                    invariant
                        k <= v@.len(),
                        ids@.map_values(|u: usize| u as int) == spec_resolve(
                            log_format@,
                            names_of(v@).take(k as int),
                        ),
                        max_field_id as int == spec_max_id(
                            spec_resolve(log_format@, names_of(v@).take(k as int)),
                        ),
                    decreases v@.len() - k,
                {
                    let ghost prev = spec_resolve(log_format@, names_of(v@).take(k as int));
                    let ghost names1 = names_of(v@).take(k as int + 1);
                    proof {
                        assert(names1.drop_last() =~= names_of(v@).take(k as int));
                        assert(names1.last() == v@[k as int]@);
                    }
                    match find_field(log_format, &v[k]) {
                        Some(i) => {
                            ids.push(i);
                            if i > max_field_id {
                                max_field_id = i;
                            }
                            proof {
                                assert(spec_resolve(log_format@, names1) == prev.push(i as int));
                                assert(ids@.map_values(|u: usize| u as int) =~= prev.push(
                                    i as int,
                                ));
                                assert(prev.push(i as int).drop_last() =~= prev);
                            }
                        },
                        None => {
                            proof {
                                assert(spec_resolve(log_format@, names1) == prev);
                            }
                        },
                    }
                    k += 1;
                }
                let r = LineParser { log_format, field_ids: Some(ids), max_field_id };
                proof {
                    assert(names_of(v@).take(v@.len() as int) =~= names_of(v@));
                    let resolved = spec_resolve(log_format@, names_of(v@));
                    assert(ids@.map_values(|u: usize| u as int) == resolved);
                    assert forall|k: int| 0 <= k < ids@.len() implies (#[trigger] ids@[k])
                        < spec_push_range(
                        log_format@,
                        true,
                        0,
                        spec_fields_end(log_format@, max_field_id as int),
                    ) by {
                        assert(resolved[k] == ids@[k] as int);
                    };
                    assert(r.wf());
                }
                r
            },
        }
    }

    /// Split the `request` field's quoted content at its first two spaces.
    fn get_computed_fields(field_match: &[u8], pos: usize) -> (r: Result<
        (usize, usize),
        ParserError,
    >)
        requires
            pos + field_match@.len() <= usize::MAX,
        ensures
            match r {
                Ok((first_space, second_space)) => find_byte(field_match@, SPACE, 0) == Some(
                    first_space as int,
                ) && find_byte(field_match@, SPACE, first_space as int + 1) == Some(
                    second_space as int,
                ),
                Err(e) => e == ParserError::UnexpectedCharacter(
                    ' ',
                    '"',
                    (pos + field_match@.len()) as usize,
                ) && (match find_byte(field_match@, SPACE, 0) {
                    Some(s1) => find_byte(field_match@, SPACE, s1 + 1) is None,
                    None => true,
                }),
            },
    {
        match memchr::memchr(SPACE, field_match) {
            Some(first_space) => {
                proof {
                    lemma_find_byte_at(field_match@, SPACE, 0, first_space as int);
                }
                let rest = slice_subrange(field_match, first_space + 1, field_match.len());
                match memchr::memchr(SPACE, rest) {
                    Some(p) => {
                        let second_space = first_space + 1 + p;
                        proof {
                            assert(forall|j: int|
                                first_space + 1 <= j < second_space ==> field_match@[j] == rest@[j
                                    - first_space - 1]);
                            assert(field_match@[second_space as int] == rest@[p as int]);
                            lemma_find_byte_at(
                                field_match@,
                                SPACE,
                                first_space as int + 1,
                                second_space as int,
                            );
                        }
                        Ok((first_space, second_space))
                    },
                    None => {
                        proof {
                            assert(forall|j: int|
                                first_space + 1 <= j < field_match@.len() ==> field_match@[j]
                                    == rest@[j - first_space - 1]);
                            lemma_find_byte_none(field_match@, SPACE, first_space as int + 1);
                        }
                        Err(
                            ParserError::UnexpectedCharacter(' ', '"', pos + field_match.len()),
                        )
                    },
                }
            },
            None => {
                proof {
                    lemma_find_byte_none(field_match@, SPACE, 0);
                }
                Err(ParserError::UnexpectedCharacter(' ', '"', pos + field_match.len()))
            },
        }
    }

    /// Parse the touched prefix of the line into rows in declaration order;
    /// the raw `request` value is kept only under a projection.
    #[verifier::loop_isolation(false)]
    fn get_parse_result<'b>(&self, input: &'b [u8]) -> (r: Result<Vec<&'b [u8]>, ParserError>)
        ensures
            match r {
                Ok(v) => spec_parse_fields(
                    self.log_format@,
                    self.field_ids is Some,
                    self.max_field_id as int,
                    input@,
                    0,
                    0,
                    Seq::empty(),
                ) == Ok::<_, ParserError>(views_of(v@)),
                Err(e) => spec_parse_fields(
                    self.log_format@,
                    self.field_ids is Some,
                    self.max_field_id as int,
                    input@,
                    0,
                    0,
                    Seq::empty(),
                ) == Err::<Seq<Seq<u8>>, _>(e),
            },
    {
        let ghost fields = self.log_format@;
        let ghost hp = self.field_ids is Some;
        let ghost max = self.max_field_id as int;
        let ghost line = input@;

        let mut pos: usize = 0;
        let mut result: Vec<&'b [u8]> = Vec::new();
        let mut id: usize = 0;
        proof {
            assert(views_of(result@) =~= Seq::<Seq<u8>>::empty());
        }

        while id < self.log_format.len() && id <= self.max_field_id
            invariant
                pos <= input@.len(),
                id <= self.log_format@.len(),
                spec_parse_fields(fields, hp, max, line, 0, 0, Seq::empty()) == spec_parse_fields(
                    fields,
                    hp,
                    max,
                    line,
                    id as int,
                    pos as int,
                    views_of(result@),
                ),
            decreases self.log_format@.len() - id,
        {
            let ghost dv0 = views_of(result@);
            let ghost pos0 = pos as int;
            let ghost id0 = id as int;
            let field = &self.log_format[id];

            if let ParserElement::Computed = field.element_type {
                proof {
                    assert(spec_parse_fields(fields, hp, max, line, id0, pos0, dv0)
                        == spec_parse_fields(fields, hp, max, line, id0 + 1, pos0, dv0));
                }
                id += 1;
                continue;
            }

            if pos >= input.len() {
                proof {
                    assert(spec_parse_fields(fields, hp, max, line, id0, pos0, dv0)
                        == Err::<Seq<Seq<u8>>, ParserError>(ParserError::UnexpectedEndOfLine));
                }
                return Err(ParserError::UnexpectedEndOfLine);
            }

            let tail = slice_subrange(input, pos, input.len());
            let (field_match, consumed) = match field.element_type.parse(tail) {
                Ok(vc) => vc,
                Err(e) => {
                    let abs_e = match e {
                        ParserError::UnexpectedCharacter(expected, got, off) =>
                            ParserError::UnexpectedCharacter(expected, got, pos + off),
                        ParserError::UnexpectedEndOfLine => ParserError::UnexpectedEndOfLine,
                    };
                    proof {
                        assert(spec_parse_fields(fields, hp, max, line, id0, pos0, dv0)
                            == Err::<Seq<Seq<u8>>, ParserError>(abs_e));
                    }
                    return Err(abs_e);
                },
            };

            let ghost entries: Result<Seq<Seq<u8>>, ParserError> = if fields[id0].name@
                == "request"@ {
                spec_request_entries(field_match@, pos0, hp)
            } else {
                Ok(seq![field_match@])
            };
            let is_req = str_eq(field.name.as_str(), "request");
            if is_req {
                if self.field_ids.is_some() {
                    result.push(field_match);
                }
                if field_match.len() == 1 && field_match[0] == DASH {
                    proof {
                        assert(field_match@ =~= seq![DASH]);
                    }
                    result.push(field_match);
                    result.push(field_match);
                    result.push(field_match);
                } else {
                    proof {
                        assert(field_match@ != seq![DASH]) by {
                            if field_match@ == seq![DASH] {
                                assert(field_match@.len() == 1);
                                assert(field_match@[0] == DASH);
                            }
                        }
                    }
                    match Self::get_computed_fields(field_match, pos) {
                        Ok((first_space, second_space)) => {
                            proof {
                                lemma_find_byte(field_match@, SPACE, 0);
                                lemma_find_byte(field_match@, SPACE, first_space as int + 1);
                            }
                            result.push(slice_subrange(field_match, 0, first_space));
                            result.push(
                                slice_subrange(field_match, first_space + 1, second_space),
                            );
                            result.push(
                                slice_subrange(field_match, second_space + 1, field_match.len()),
                            );
                        },
                        Err(e) => {
                            proof {
                                assert(spec_parse_fields(fields, hp, max, line, id0, pos0, dv0)
                                    == Err::<Seq<Seq<u8>>, ParserError>(e));
                            }
                            return Err(e);
                        },
                    }
                }
            } else {
                result.push(field_match);
            }
            proof {
                assert(entries is Ok);
                assert(views_of(result@) =~= dv0 + entries->Ok_0);
            }

            let end = pos + consumed;
            if end < input.len() {
                let c = input[end];
                if c != SPACE {
                    proof {
                        assert(spec_parse_fields(fields, hp, max, line, id0, pos0, dv0)
                            == Err::<Seq<Seq<u8>>, ParserError>(
                            ParserError::UnexpectedCharacter(' ', c as char, end as usize),
                        ));
                    }
                    return Err(ParserError::UnexpectedCharacter(' ', c as char, end));
                }
                pos = end + 1;
            } else {
                pos = input.len();
            }
            id += 1;
            proof {
                assert(spec_parse_fields(fields, hp, max, line, id0, pos0, dv0)
                    == spec_parse_fields(
                    fields,
                    hp,
                    max,
                    line,
                    id as int,
                    pos as int,
                    views_of(result@),
                ));
            }
        }
        proof {
            assert(spec_parse_fields(fields, hp, max, line, id as int, pos as int, views_of(result@))
                == Ok::<_, ParserError>(views_of(result@)));
        }
        Ok(result)
    }

    /// Parse one line: the touched prefix of the format is scanned, and the
    /// rows are handed back in declaration order, or selected and ordered by
    /// the projection when one is bound. Every returned slice borrows from
    /// `input`.
    #[verifier::loop_isolation(false)]
    pub fn parse_line<'b>(&self, input: &'b [u8]) -> (r: Result<Vec<&'b [u8]>, ParserError>)
        requires
            self.wf(),
        ensures
            match r {
                Ok(v) => spec_parse_line(
                    self.log_format@,
                    self.spec_ids(),
                    self.max_field_id as int,
                    input@,
                ) == Ok::<_, ParserError>(views_of(v@)),
                Err(e) => spec_parse_line(
                    self.log_format@,
                    self.spec_ids(),
                    self.max_field_id as int,
                    input@,
                ) == Err::<Seq<Seq<u8>>, _>(e),
            },
    {
        let result = match self.get_parse_result(input) {
            Ok(v) => v,
            Err(e) => {
                return Err(e);
            },
        };
        let ghost full = views_of(result@);
        match &self.field_ids {
            Some(field_ids) => {
                let ghost idsv = field_ids@.map_values(|u: usize| u as int);
                proof {
                    lemma_parse_fields_len(
                        self.log_format@,
                        true,
                        self.max_field_id as int,
                        input@,
                        0,
                        0,
                        Seq::empty(),
                    );
                }
                let mut selected_result: Vec<&'b [u8]> = Vec::new();
                let mut k: usize = 0;
                while k < field_ids.len()
                    invariant
                        k <= field_ids@.len(),
                        views_of(selected_result@) == spec_select(full, idsv.take(k as int)),
                    decreases field_ids@.len() - k,
                {
                    let i = field_ids[k];
                    proof {
                        assert(idsv[k as int] == i as int);
                        assert((i as int) < full.len());
                    }
                    let s = result[i];
                    let ghost prev = selected_result@;
                    selected_result.push(s);
                    proof {
                        let t = idsv.take(k as int + 1);
                        assert(selected_result@ == prev.push(s));
                        assert(s@ == full[i as int]);
                        assert forall|j: int| 0 <= j < selected_result@.len() implies views_of(
                            selected_result@,
                        )[j] == spec_select(full, t)[j] by {
                            assert(spec_select(full, t)[j] == full[t[j]]);
                            if j < k as int {
                                assert(views_of(prev)[j] == spec_select(
                                    full,
                                    idsv.take(k as int),
                                )[j]);
                            } else {
                                assert(selected_result@[j] == s);
                            }
                        };
                        assert(views_of(selected_result@) =~= spec_select(full, t));
                    }
                    k += 1;
                }
                proof {
                    assert(idsv.take(field_ids@.len() as int) =~= idsv);
                }
                Ok(selected_result)
            },
            None => Ok(result),
        }
    }

    /// Render a parse error as a one-line diagnostic; the byte offset an
    /// `UnexpectedCharacter` carries is not rendered.
    pub fn get_error_string(e: ParserError) -> (r: String)
        ensures
            r@ == spec_error_string(e),
    {
        match e {
            ParserError::UnexpectedEndOfLine => "Unexpected end of line".to_owned(),
            ParserError::UnexpectedCharacter(expected, got, _position) =>
                format_unexpected_character(expected, got),
        }
    }
}

} // verus!
