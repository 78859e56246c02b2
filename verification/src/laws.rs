//! Laws of the parsing model, stated and proved once for all inputs.
use vstd::prelude::*;

use crate::log_parser::LogField;
use crate::log_parser::ParserElement;
use crate::log_parser::ParserError;
use crate::model::field_is;
use crate::model::lemma_find_close_quote_at;
use crate::model::lemma_max_id;
use crate::model::lemma_push_range_split;
use crate::model::lemma_resolve_in_range;
use crate::model::spec_common_layout;
use crate::model::spec_max_id;
use crate::model::spec_parse_line;
use crate::model::spec_parse_word;
use crate::model::spec_projection_safe;
use crate::model::spec_push_range;
use crate::model::BACKSLASH;
use crate::model::CLOSE_BRACKET;
use crate::model::OPEN_BRACKET;
use crate::model::find_byte;
use crate::model::find_close_quote;
use crate::model::lemma_find_byte;
use crate::model::lemma_find_byte_at;
use crate::model::lemma_find_byte_none;
use crate::model::lemma_find_close_quote;
use crate::model::lemma_find_close_quote_none;
use crate::model::spec_fields_end;
use crate::model::spec_first_match;
use crate::model::spec_parse_bracket;
use crate::model::spec_parse_fields;
use crate::model::spec_parse_quote;
use crate::model::spec_request_entries;
use crate::model::spec_resolve;
use crate::model::unescaped_quote_at;
use crate::model::DASH;
use crate::model::QUOTE;
use crate::model::SPACE;

verus! {

/// A request field whose quoted content is exactly `-` contributes `-` for
/// each of the three computed sub-fields (after the raw value, when a
/// projection is bound).
pub proof fn lemma_dash_request(pos: int, has_proj: bool)
    ensures
        ({
            let dash = seq![DASH];
            let r = spec_request_entries(dash, pos, has_proj);
            &&& r is Ok
            &&& r->Ok_0.len() == if has_proj { 4int } else { 3int }
            &&& r->Ok_0[r->Ok_0.len() - 3] == dash
            &&& r->Ok_0[r->Ok_0.len() - 2] == dash
            &&& r->Ok_0[r->Ok_0.len() - 1] == dash
        }),
{
}

/// A request field whose quoted content holds fewer than two spaces (and is
/// not the bare `-`) fails with a character-expectation error referencing a
/// `"` context, positioned one past the content.
pub proof fn lemma_request_needs_two_spaces(content: Seq<u8>, pos: int, has_proj: bool)
    requires
        content != seq![DASH],
        forall|i: int, j: int|
            0 <= i < j < content.len() ==> !(content[i] == SPACE && content[j] == SPACE),
    ensures
        spec_request_entries(content, pos, has_proj) == Err::<Seq<Seq<u8>>, _>(
            ParserError::UnexpectedCharacter(' ', '"', (pos + content.len()) as usize),
        ),
{
    lemma_find_byte(content, SPACE, 0);
    match find_byte(content, SPACE, 0) {
        Some(s1) => {
            lemma_find_byte(content, SPACE, s1 + 1);
            match find_byte(content, SPACE, s1 + 1) {
                Some(s2) => {
                    assert(content[s1] == SPACE && content[s2] == SPACE && s1 < s2);
                },
                None => {},
            }
        },
        None => {},
    }
}

/// A quoted field ends at the first unescaped quote of its content, never
/// at a `"` preceded by `\`: the value runs exactly to that terminator, and
/// no earlier position of the content is an unescaped quote.
pub proof fn lemma_quote_terminates_at_first_unescaped(s: Seq<u8>)
    requires
        s.len() > 0,
        s[0] == QUOTE,
    ensures
        ({
            let content = s.subrange(1, s.len() as int);
            match spec_parse_quote(s) {
                Ok((v, c)) => {
                    &&& 0 <= v.len() < content.len()
                    &&& c == v.len() + 2
                    &&& v == content.subrange(0, v.len() as int)
                    &&& unescaped_quote_at(content, v.len() as int)
                    &&& forall|j: int| 0 <= j < v.len() ==> !unescaped_quote_at(content, j)
                },
                Err(e) => {
                    &&& e == ParserError::UnexpectedEndOfLine
                    &&& forall|j: int| 0 <= j < content.len() ==> !unescaped_quote_at(content, j)
                },
            }
        }),
{
    let content = s.subrange(1, s.len() as int);
    lemma_find_close_quote(content, 0);
}

/// A `[` whose remainder holds no `]` fails with `UnexpectedEndOfLine`.
pub proof fn lemma_bracket_missing_close(s: Seq<u8>)
    requires
        s.len() > 0,
        s[0] == OPEN_BRACKET,
        forall|j: int| 0 <= j < s.len() ==> s[j] != CLOSE_BRACKET,
    ensures
        spec_parse_bracket(s) == Err::<(Seq<u8>, int), _>(ParserError::UnexpectedEndOfLine),
{
    lemma_find_byte_none(s, CLOSE_BRACKET, 0);
}

/// A `"` whose remainder holds no unescaped `"` fails with
/// `UnexpectedEndOfLine`.
pub proof fn lemma_quote_missing_close(s: Seq<u8>)
    requires
        s.len() > 0,
        s[0] == QUOTE,
        forall|j: int|
            0 <= j < s.len() - 1 ==> !unescaped_quote_at(s.subrange(1, s.len() as int), j),
    ensures
        spec_parse_quote(s) == Err::<(Seq<u8>, int), _>(ParserError::UnexpectedEndOfLine),
{
    lemma_find_close_quote_none(s.subrange(1, s.len() as int), 0);
}

/// A line exhausted while an input-consuming field is still owed fails with
/// `UnexpectedEndOfLine` rather than reading past the end.
pub proof fn lemma_short_line(
    fields: Seq<LogField>,
    has_proj: bool,
    max: int,
    line: Seq<u8>,
    id: int,
    pos: int,
    acc: Seq<Seq<u8>>,
)
    requires
        0 <= id,
        pos >= line.len(),
        exists|j: int|
            id <= j < spec_fields_end(fields, max) && !((#[trigger] fields[j].element_type)
                is Computed),
    ensures
        spec_parse_fields(fields, has_proj, max, line, id, pos, acc) == Err::<Seq<Seq<u8>>, _>(
            ParserError::UnexpectedEndOfLine,
        ),
    decreases fields.len() - id,
{
    let j = choose|j: int|
        id <= j < spec_fields_end(fields, max) && !((#[trigger] fields[j].element_type)
            is Computed);
    if fields[id].element_type is Computed {
        lemma_short_line(fields, has_proj, max, line, id + 1, pos, acc);
    }
}

/// Projection resolution is order-preserving per requested name and
/// independent per occurrence: the resolved positions are exactly the first
/// matches of the requested names that match at all, kept in request order;
/// an unknown name is silently dropped, never an error.
pub proof fn lemma_resolution(fields: Seq<LogField>, names: Seq<Seq<char>>)
    ensures
        spec_resolve(fields, names) == names.filter(
            |n: Seq<char>| spec_first_match(fields, n) is Some,
        ).map_values(|n: Seq<char>| spec_first_match(fields, n)->Some_0),
    decreases names.len(),
{
    reveal(Seq::filter);
    let pred = |n: Seq<char>| spec_first_match(fields, n) is Some;
    let f = |n: Seq<char>| spec_first_match(fields, n)->Some_0;
    if names.len() == 0 {
        assert(names.filter(pred).map_values(f) =~= Seq::<int>::empty());
    } else {
        lemma_resolution(fields, names.drop_last());
        let rest = names.drop_last();
        let kept = names.filter(pred);
        match spec_first_match(fields, names.last()) {
            Some(i) => {
                assert(kept == rest.filter(pred).push(names.last()));
                assert(kept.map_values(f) =~= rest.filter(pred).map_values(f).push(i));
            },
            None => {
                assert(kept == rest.filter(pred));
            },
        }
    }
}

/// Binding any projection is safe against a format whose every prefix
/// produces at least as many rows as it has fields.
pub proof fn lemma_projection_safe_of_prefix_rows(fields: Seq<LogField>, names: Seq<Seq<char>>)
    requires
        forall|p: int| 0 <= p <= fields.len() ==> spec_push_range(fields, true, 0, p) >= p,
    ensures
        spec_projection_safe(fields, names),
{
    let ids = spec_resolve(fields, names);
    lemma_resolve_in_range(fields, names);
    lemma_max_id(ids);
    let end = spec_fields_end(fields, spec_max_id(ids));
    assert forall|k: int| 0 <= k < ids.len() implies #[trigger] ids[k] < spec_push_range(
        fields,
        true,
        0,
        end,
    ) by {
        assert(ids[k] < end);
        assert(spec_push_range(fields, true, 0, end) >= end);
    };
}

/// Rows produced by the prefixes of the ten `common` fields at `off`: each
/// prefix yields at least one row per field, the whole block exactly ten.
pub proof fn lemma_common_block_rows(fields: Seq<LogField>, off: int)
    requires
        0 <= off,
        off + 10 <= fields.len(),
        spec_common_layout(fields, off),
    ensures
        forall|p: int|
            off <= p <= off + 10 ==> #[trigger] spec_push_range(fields, true, off, p) >= p - off,
        spec_push_range(fields, true, off, off + 10) == 10,
{
    reveal_strlit("ip");
    reveal_strlit("rfc1413");
    reveal_strlit("username");
    reveal_strlit("time");
    reveal_strlit("request");
    reveal_strlit("status");
    reveal_strlit("responsesize");
    let hp = true;
    assert(spec_push_range(fields, hp, off, off) == 0);
    assert(spec_push_range(fields, hp, off + 1, off + 1) == 0);
    assert(spec_push_range(fields, hp, off + 2, off + 2) == 0);
    assert(spec_push_range(fields, hp, off + 3, off + 3) == 0);
    assert(spec_push_range(fields, hp, off + 4, off + 4) == 0);
    assert(spec_push_range(fields, hp, off + 5, off + 5) == 0);
    assert(spec_push_range(fields, hp, off + 6, off + 6) == 0);
    assert(spec_push_range(fields, hp, off + 7, off + 7) == 0);
    assert(spec_push_range(fields, hp, off + 8, off + 8) == 0);
    assert(spec_push_range(fields, hp, off + 9, off + 9) == 0);
    assert(spec_push_range(fields, hp, off + 10, off + 10) == 0);
    assert("request"@.len() == 7);
    assert(fields[off].name@ != "request"@) by {
        assert("ip"@.len() == 2);
    }
    assert(fields[off + 1].name@ != "request"@) by {
        assert("rfc1413"@[1] == 'f');
        assert("request"@[1] == 'e');
    }
    assert(fields[off + 2].name@ != "request"@) by {
        assert("username"@.len() == 8);
    }
    assert(fields[off + 3].name@ != "request"@) by {
        assert("time"@.len() == 4);
    }
    assert(fields[off + 8].name@ != "request"@) by {
        assert("status"@.len() == 6);
    }
    assert(fields[off + 9].name@ != "request"@) by {
        assert("responsesize"@.len() == 12);
    }
    assert(spec_push_range(fields, hp, off + 0, off + 1) == 1);
    assert(spec_push_range(fields, hp, off + 1, off + 2) == 1);
    assert(spec_push_range(fields, hp, off + 2, off + 3) == 1);
    assert(spec_push_range(fields, hp, off + 3, off + 4) == 1);
    assert(spec_push_range(fields, hp, off + 4, off + 5) == 4);
    assert(spec_push_range(fields, hp, off + 5, off + 6) == 0);
    assert(spec_push_range(fields, hp, off + 6, off + 7) == 0);
    assert(spec_push_range(fields, hp, off + 7, off + 8) == 0);
    assert(spec_push_range(fields, hp, off + 8, off + 9) == 1);
    assert(spec_push_range(fields, hp, off + 9, off + 10) == 1);
    lemma_push_range_split(fields, hp, off, off + 1, off + 2);
    lemma_push_range_split(fields, hp, off, off + 2, off + 3);
    lemma_push_range_split(fields, hp, off, off + 3, off + 4);
    lemma_push_range_split(fields, hp, off, off + 4, off + 5);
    lemma_push_range_split(fields, hp, off, off + 5, off + 6);
    lemma_push_range_split(fields, hp, off, off + 6, off + 7);
    lemma_push_range_split(fields, hp, off, off + 7, off + 8);
    lemma_push_range_split(fields, hp, off, off + 8, off + 9);
    lemma_push_range_split(fields, hp, off, off + 9, off + 10);
    assert(spec_push_range(fields, hp, off, off + 1) == 1);
    assert(spec_push_range(fields, hp, off, off + 2) == 2);
    assert(spec_push_range(fields, hp, off, off + 3) == 3);
    assert(spec_push_range(fields, hp, off, off + 4) == 4);
    assert(spec_push_range(fields, hp, off, off + 5) == 8);
    assert(spec_push_range(fields, hp, off, off + 6) == 8);
    assert(spec_push_range(fields, hp, off, off + 7) == 8);
    assert(spec_push_range(fields, hp, off, off + 8) == 8);
    assert(spec_push_range(fields, hp, off, off + 9) == 9);
    assert(spec_push_range(fields, hp, off, off + 10) == 10);
}

/// Any projection may be bound against the `common` format.
pub proof fn lemma_common_projection_safe(fields: Seq<LogField>, names: Seq<Seq<char>>)
    requires
        fields.len() == 10,
        spec_common_layout(fields, 0),
    ensures
        spec_projection_safe(fields, names),
{
    lemma_common_block_rows(fields, 0);
    lemma_projection_safe_of_prefix_rows(fields, names);
}

/// Any projection may be bound against the `vhost_common` format.
pub proof fn lemma_vhost_common_projection_safe(fields: Seq<LogField>, names: Seq<Seq<char>>)
    requires
        fields.len() == 11,
        field_is(fields[0], "vhost"@, ParserElement::Word),
        spec_common_layout(fields, 1),
    ensures
        spec_projection_safe(fields, names),
{
    reveal_strlit("vhost");
    reveal_strlit("request");
    lemma_common_block_rows(fields, 1);
    assert(spec_push_range(fields, true, 1, 1) == 0);
    assert(fields[0].name@ != "request"@) by {
        assert("vhost"@.len() == 5);
        assert("request"@.len() == 7);
    }
    assert(spec_push_range(fields, true, 0, 1) == 1);
    assert forall|p: int| 0 <= p <= fields.len() implies spec_push_range(fields, true, 0, p)
        >= p by {
        if p > 0 {
            lemma_push_range_split(fields, true, 0, 1, p);
            assert(spec_push_range(fields, true, 1, p) >= p - 1);
        }
    };
    lemma_projection_safe_of_prefix_rows(fields, names);
}

/// Any projection may be bound against the `combined` format.
pub proof fn lemma_combined_projection_safe(fields: Seq<LogField>, names: Seq<Seq<char>>)
    requires
        fields.len() == 12,
        spec_common_layout(fields, 0),
        field_is(fields[10], "referer"@, ParserElement::QuoteDelimited),
        field_is(fields[11], "useragent"@, ParserElement::QuoteDelimited),
    ensures
        spec_projection_safe(fields, names),
{
    reveal_strlit("referer");
    reveal_strlit("useragent");
    reveal_strlit("request");
    lemma_common_block_rows(fields, 0);
    assert("referer"@[2] == 'f' && "request"@[2] == 'q');
    assert("referer"@ != "request"@);
    assert("useragent"@.len() == 9 && "request"@.len() == 7);
    assert("useragent"@ != "request"@);
    assert(spec_push_range(fields, true, 11, 11) == 0);
    assert(spec_push_range(fields, true, 12, 12) == 0);
    assert(spec_push_range(fields, true, 10, 11) == 1);
    assert(spec_push_range(fields, true, 11, 12) == 1);
    assert forall|p: int| 0 <= p <= fields.len() implies spec_push_range(fields, true, 0, p)
        >= p by {
        if p > 10 {
            lemma_push_range_split(fields, true, 0, 10, p);
            if p == 12 {
                lemma_push_range_split(fields, true, 10, 11, 12);
            }
        }
    };
    lemma_projection_safe_of_prefix_rows(fields, names);
}

/// Any projection may be bound against the `combinedio` format.
pub proof fn lemma_combinedio_projection_safe(fields: Seq<LogField>, names: Seq<Seq<char>>)
    requires
        fields.len() == 14,
        spec_common_layout(fields, 0),
        field_is(fields[10], "referer"@, ParserElement::QuoteDelimited),
        field_is(fields[11], "useragent"@, ParserElement::QuoteDelimited),
        field_is(fields[12], "input"@, ParserElement::Word),
        field_is(fields[13], "output"@, ParserElement::Word),
    ensures
        spec_projection_safe(fields, names),
{
    reveal_strlit("referer");
    reveal_strlit("useragent");
    reveal_strlit("input");
    reveal_strlit("output");
    reveal_strlit("request");
    lemma_common_block_rows(fields, 0);
    assert("referer"@[2] == 'f' && "request"@[2] == 'q');
    assert("referer"@ != "request"@);
    assert("useragent"@.len() == 9 && "request"@.len() == 7);
    assert("useragent"@ != "request"@);
    assert(spec_push_range(fields, true, 11, 11) == 0);
    assert(spec_push_range(fields, true, 12, 12) == 0);
    assert(spec_push_range(fields, true, 13, 13) == 0);
    assert(spec_push_range(fields, true, 14, 14) == 0);
    assert(fields[12].name@ != "request"@) by {
        assert("input"@.len() == 5);
        assert("request"@.len() == 7);
    }
    assert(fields[13].name@ != "request"@) by {
        assert("output"@.len() == 6);
        assert("request"@.len() == 7);
    }
    assert(spec_push_range(fields, true, 10, 11) == 1);
    assert(spec_push_range(fields, true, 11, 12) == 1);
    assert(spec_push_range(fields, true, 12, 13) == 1);
    assert(spec_push_range(fields, true, 13, 14) == 1);
    lemma_push_range_split(fields, true, 10, 11, 12);
    lemma_push_range_split(fields, true, 10, 12, 13);
    lemma_push_range_split(fields, true, 10, 13, 14);
    assert(spec_push_range(fields, true, 10, 12) == 2);
    assert(spec_push_range(fields, true, 10, 13) == 3);
    assert(spec_push_range(fields, true, 10, 14) == 4);
    assert forall|p: int| 0 <= p <= fields.len() implies spec_push_range(fields, true, 0, p)
        >= p by {
        if p > 10 {
            lemma_push_range_split(fields, true, 0, 10, p);
        }
    };
    lemma_projection_safe_of_prefix_rows(fields, names);
}

/// No byte of `v` is `b`.
pub open spec fn no_byte(v: Seq<u8>, b: u8) -> bool {
    forall|j: int| 0 <= j < v.len() ==> v[j] != b
}

/// The bytes one consuming field writes for its value(s): the value in its
/// delimiters; a field named `request` writes its three sub-values inside
/// one pair of quotes.
pub open spec fn spec_token_bytes(f: LogField, vals: Seq<Seq<u8>>) -> Seq<u8> {
    if f.name@ == "request"@ {
        seq![QUOTE] + vals[0] + seq![SPACE] + vals[1] + seq![SPACE] + vals[2] + seq![QUOTE]
    } else {
        match f.element_type {
            ParserElement::BracketDelimited => seq![OPEN_BRACKET] + vals[0] + seq![CLOSE_BRACKET],
            ParserElement::QuoteDelimited => seq![QUOTE] + vals[0] + seq![QUOTE],
            _ => vals[0],
        }
    }
}

/// How many values of the list one field renders.
pub open spec fn spec_vals_used(f: LogField) -> int {
    if f.name@ == "request"@ {
        3
    } else {
        1
    }
}

/// A line rendered from a value list against the fields from `id` on:
/// each consuming field's token, consecutive consuming fields separated by
/// exactly one space; `Computed` fields render nothing.
pub open spec fn spec_render(fields: Seq<LogField>, vals: Seq<Seq<u8>>, id: int) -> Seq<u8>
    decreases fields.len() - id,
{
    if id < 0 || id >= fields.len() {
        Seq::empty()
    } else if fields[id].element_type is Computed {
        spec_render(fields, vals, id + 1)
    } else {
        let tok = spec_token_bytes(fields[id], vals);
        let rest = spec_render(fields, vals.skip(spec_vals_used(fields[id])), id + 1);
        if rest.len() == 0 {
            tok
        } else {
            tok + seq![SPACE] + rest
        }
    }
}

/// The value list fits the fields from `id` on: one value per consuming
/// field (three for `request`), each free of its own delimiter bytes, word
/// values non-empty, and no quoted value ending in a backslash.
pub open spec fn spec_render_ok(fields: Seq<LogField>, vals: Seq<Seq<u8>>, id: int) -> bool
    decreases fields.len() - id,
{
    if id < 0 || id >= fields.len() {
        vals.len() == 0
    } else if fields[id].element_type is Computed {
        spec_render_ok(fields, vals, id + 1)
    } else if fields[id].name@ == "request"@ {
        &&& fields[id].element_type is QuoteDelimited
        &&& vals.len() >= 3
        &&& no_byte(vals[0], SPACE)
        &&& no_byte(vals[1], SPACE)
        &&& no_byte(vals[0], QUOTE)
        &&& no_byte(vals[1], QUOTE)
        &&& no_byte(vals[2], QUOTE)
        &&& (vals[2].len() > 0 ==> vals[2][vals[2].len() - 1] != BACKSLASH)
        &&& spec_render_ok(fields, vals.skip(3), id + 1)
    } else {
        &&& vals.len() >= 1
        &&& (match fields[id].element_type {
            ParserElement::Word => vals[0].len() > 0 && no_byte(vals[0], SPACE),
            ParserElement::BracketDelimited => no_byte(vals[0], CLOSE_BRACKET),
            ParserElement::QuoteDelimited => no_byte(vals[0], QUOTE) && (vals[0].len() > 0
                ==> vals[0][vals[0].len() - 1] != BACKSLASH),
            ParserElement::Computed => false,
        })
        &&& spec_render_ok(fields, vals.skip(1), id + 1)
    }
}

/// Round trip: parsing a line rendered from a value list recovers exactly
/// those values, in order. Extraction boundaries are the inverse of joining
/// the values with their delimiters and single separating spaces.
#[verifier::rlimit(100)]
#[verifier::spinoff_prover]
pub proof fn lemma_render_round_trip(
    fields: Seq<LogField>,
    vals: Seq<Seq<u8>>,
    line: Seq<u8>,
    id: int,
    pos: int,
    acc: Seq<Seq<u8>>,
)
    requires
        0 <= id,
        0 <= pos <= line.len(),
        spec_render_ok(fields, vals, id),
        line.subrange(pos, line.len() as int) == spec_render(fields, vals, id),
    ensures
        spec_parse_fields(fields, false, fields.len() - 1, line, id, pos, acc) == Ok::<
            _,
            ParserError,
        >(acc + vals),
    decreases fields.len() - id,
{
    let rem = line.subrange(pos, line.len() as int);
    assert(forall|t: int| 0 <= t < rem.len() ==> line[pos + t] == rem[t]);
    if id >= fields.len() {
        assert(acc + vals =~= acc);
    } else if fields[id].element_type is Computed {
        lemma_render_round_trip(fields, vals, line, id + 1, pos, acc);
    } else {
        let tok = spec_token_bytes(fields[id], vals);
        let used = spec_vals_used(fields[id]);
        let rest = spec_render(fields, vals.skip(used), id + 1);
        assert(rem == if rest.len() == 0 {
            tok
        } else {
            tok + seq![SPACE] + rest
        });
        let is_request = fields[id].name@ == "request"@;
        let value: Seq<u8> = if is_request {
            vals[0] + seq![SPACE] + vals[1] + seq![SPACE] + vals[2]
        } else {
            vals[0]
        };
        let consumed: int = if is_request || !(fields[id].element_type is Word) {
            value.len() + 2int
        } else {
            value.len() as int
        };
        assert(tok.len() == consumed);
        assert(rem.len() >= tok.len());
        if is_request {
            assert(tok.len() > 0);
            assert(pos < line.len());
            assert(rem[0] == QUOTE);
            let content = rem.subrange(1, rem.len() as int);
            let ml = vals[0].len() as int;
            let ul = vals[1].len() as int;
            let hl = vals[2].len() as int;
            let q = ml + 1 + ul + 1 + hl;
            assert(forall|t: int| 0 <= t < q ==> content[t] == value[t]);
            assert(forall|t: int| 0 <= t < ml ==> value[t] == vals[0][t]);
            assert(value[ml] == SPACE);
            assert(forall|t: int| 0 <= t < ul ==> value[ml + 1 + t] == vals[1][t]);
            assert(value[ml + 1 + ul] == SPACE);
            assert(forall|t: int| 0 <= t < hl ==> value[ml + 2 + ul + t] == vals[2][t]);
            assert(content[q] == tok[q + 1]);
            assert(tok[q + 1] == QUOTE);
            assert(unescaped_quote_at(content, q));
            assert(forall|j: int| 0 <= j < q ==> content[j] != QUOTE);
            lemma_find_close_quote_at(content, 0, q);
            assert(content.subrange(0, q) =~= value);
            assert(spec_parse_quote(rem) == Ok::<_, ParserError>((value, q + 2)));
            // the computed split recovers the three sub-values
            assert(value.len() >= 2);
            assert(value != seq![DASH]);
            lemma_find_byte_at(value, SPACE, 0, ml);
            lemma_find_byte_at(value, SPACE, ml + 1, ml + 1 + ul);
            assert(value.subrange(0, ml) =~= vals[0]);
            assert(value.subrange(ml + 1, ml + 1 + ul) =~= vals[1]);
            assert(value.subrange(ml + 2 + ul, value.len() as int) =~= vals[2]);
            let es = seq![vals[0], vals[1], vals[2]];
            assert(spec_request_entries(value, pos, false) == Ok::<_, ParserError>(es)) by {
                assert(Seq::<Seq<u8>>::empty() + seq![
                    value.subrange(0, ml),
                    value.subrange(ml + 1, ml + 1 + ul),
                    value.subrange(ml + 2 + ul, value.len() as int),
                ] =~= es);
            }
            let end = pos + consumed;
            if rest.len() == 0 {
                assert(end == line.len());
                assert(line.subrange(end, line.len() as int) =~= spec_render(
                    fields,
                    vals.skip(3),
                    id + 1,
                ));
                lemma_render_round_trip(fields, vals.skip(3), line, id + 1, end, acc + es);
            } else {
                assert(rem[tok.len() as int] == SPACE);
                assert(line[end] == SPACE);
                assert(forall|t: int| 0 <= t < rest.len() ==> rem[tok.len() + 1 + t] == rest[t]);
                assert(line.subrange(end + 1, line.len() as int) =~= rest);
                lemma_render_round_trip(fields, vals.skip(3), line, id + 1, end + 1, acc + es);
            }
            assert(acc + es + vals.skip(3) =~= acc + vals);
        } else {
            let es = seq![vals[0]];
            match fields[id].element_type {
                ParserElement::Word => {
                    assert(tok == vals[0]);
                    assert(tok.len() > 0);
                    assert(pos < line.len());
                    if rest.len() == 0 {
                        assert(rem =~= vals[0]);
                        lemma_find_byte_none(rem, SPACE, 0);
                        assert(spec_parse_word(rem) == (rem, rem.len() as int));
                    } else {
                        assert(forall|t: int| 0 <= t < vals[0].len() ==> rem[t] == vals[0][t]);
                        assert(rem[vals[0].len() as int] == SPACE);
                        lemma_find_byte_at(rem, SPACE, 0, vals[0].len() as int);
                        assert(rem.subrange(0, vals[0].len() as int) =~= vals[0]);
                    }
                    assert(spec_parse_word(rem) == (value, consumed));
                },
                ParserElement::BracketDelimited => {
                    assert(tok.len() > 0);
                    assert(pos < line.len());
                    assert(rem[0] == OPEN_BRACKET);
                    let vl = vals[0].len() as int;
                    assert(forall|t: int| 0 <= t < vl ==> rem[1 + t] == vals[0][t]);
                    assert(rem[vl + 1] == tok[vl + 1]);
                    assert(tok[vl + 1] == CLOSE_BRACKET);
                    assert(forall|j: int| 0 <= j < vl + 1 ==> rem[j] != CLOSE_BRACKET);
                    lemma_find_byte_at(rem, CLOSE_BRACKET, 0, vl + 1);
                    assert(rem.subrange(1, vl + 1) =~= vals[0]);
                    assert(spec_parse_bracket(rem) == Ok::<_, ParserError>((value, consumed)));
                },
                ParserElement::QuoteDelimited => {
                    assert(tok.len() > 0);
                    assert(pos < line.len());
                    assert(rem[0] == QUOTE);
                    let content = rem.subrange(1, rem.len() as int);
                    let vl = vals[0].len() as int;
                    assert(forall|t: int| 0 <= t < vl ==> content[t] == vals[0][t]);
                    assert(content[vl] == tok[vl + 1]);
                    assert(tok[vl + 1] == QUOTE);
                    assert(unescaped_quote_at(content, vl));
                    assert(forall|j: int| 0 <= j < vl ==> content[j] != QUOTE);
                    lemma_find_close_quote_at(content, 0, vl);
                    assert(content.subrange(0, vl) =~= vals[0]);
                    assert(spec_parse_quote(rem) == Ok::<_, ParserError>((value, consumed)));
                },
                ParserElement::Computed => {},
            }
            let end = pos + consumed;
            if rest.len() == 0 {
                assert(end == line.len());
                assert(line.subrange(end, line.len() as int) =~= spec_render(
                    fields,
                    vals.skip(1),
                    id + 1,
                ));
                lemma_render_round_trip(fields, vals.skip(1), line, id + 1, end, acc + es);
            } else {
                assert(rem[tok.len() as int] == SPACE);
                assert(line[end] == SPACE);
                assert(forall|t: int| 0 <= t < rest.len() ==> rem[tok.len() + 1 + t] == rest[t]);
                assert(line.subrange(end + 1, line.len() as int) =~= rest);
                lemma_render_round_trip(fields, vals.skip(1), line, id + 1, end + 1, acc + es);
            }
            assert(acc + es + vals.skip(1) =~= acc + vals);
        }
    }
}

/// Round trip at the parser's interface: an unprojected parse of a
/// rendered line yields exactly the rendered values, in order.
pub proof fn lemma_render_parse_line(fields: Seq<LogField>, vals: Seq<Seq<u8>>, line: Seq<u8>)
    requires
        spec_render_ok(fields, vals, 0),
        line == spec_render(fields, vals, 0),
    ensures
        spec_parse_line(fields, None, fields.len() - 1, line) == Ok::<_, ParserError>(vals),
{
    assert(line.subrange(0, line.len() as int) =~= line);
    lemma_render_round_trip(fields, vals, line, 0, 0, Seq::empty());
    assert(Seq::<Seq<u8>>::empty() + vals =~= vals);
}

} // verus!
