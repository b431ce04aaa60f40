//! The search box: what an expression means, what was searched for before, and
//! what the box suggests.

use crate::order;
use crate::order::Ranked;
use crate::text;
use vstd::prelude::*;

verus! {

/// What a search expression asks for: the words to highlight and the query to run.
#[derive(Debug, PartialEq, Eq)]
pub struct SearchExpression {
    pub keywords: Vec<String>,
    pub query: String,
}

/// The terms that the query engine accepts: texts that are points in time, and texts that are
/// comparisons of a field.
pub struct AcceptedTerms {
    pub times: Vec<String>,
    pub fields: Vec<String>,
}

/// The parts that are not blank, trimmed.
pub open spec fn trimmed_terms(parts: Seq<Seq<char>>) -> Seq<Seq<char>>
    decreases parts.len(),
{
    if parts.len() == 0 {
        Seq::empty()
    } else {
        let before = trimmed_terms(parts.drop_last());
        let term = text::trim(parts.last());
        if term.len() > 0 {
            before.push(term)
        } else {
            before
        }
    }
}

/// The groups of terms in those parts that have any.
pub open spec fn term_groups(parts: Seq<Seq<char>>) -> Seq<Seq<Seq<char>>>
    decreases parts.len(),
{
    if parts.len() == 0 {
        Seq::empty()
    } else {
        let before = term_groups(parts.drop_last());
        let terms = trimmed_terms(text::split(parts.last(), '&'));
        if terms.len() > 0 {
            before.push(terms)
        } else {
            before
        }
    }
}

/// The groups of an expression: alternatives between bars, each of terms between ampersands.
pub open spec fn expression_groups(value: Seq<char>) -> Seq<Seq<Seq<char>>> {
    term_groups(text::split(value, '|'))
}

/// A character inside a quoted literal.
pub open spec fn escaped_char(c: char) -> Seq<char> {
    if c == '\\' || c == '"' {
        seq!['\\', c]
    } else {
        seq![c]
    }
}

/// Text inside a quoted literal: quotes and backslashes have a backslash before them.
pub open spec fn escaped(value: Seq<char>) -> Seq<char>
    decreases value.len(),
{
    if value.len() == 0 {
        Seq::empty()
    } else {
        escaped(value.drop_last()) + escaped_char(value.last())
    }
}

/// Text as a quoted literal of the query language.
pub open spec fn quoted(value: Seq<char>) -> Seq<char> {
    seq!['"'] + escaped(value) + seq!['"']
}

/// The comparison that a term in the prefix form `t:` stands for when its point in time, or
/// the first of its two, is made of `count` words.
pub open spec fn time_term(
    words: Seq<Seq<char>>,
    count: nat,
    times: Seq<Seq<char>>,
) -> Option<Seq<char>> {
    if count > words.len() {
        None
    } else {
        let start = text::join(words.take(count as int), " "@);
        let end = text::join(words.skip(count as int), " "@);
        if !times.contains(start) {
            None
        } else if count == words.len() {
            Some("time>="@ + quoted(start))
        } else if words.len() - count > 2 || !times.contains(end) {
            None
        } else {
            Some("(time>="@ + quoted(start) + " and time<="@ + quoted(end) + ")"@)
        }
    }
}

/// The words of a term in the prefix form `t:`, if it has that form.
pub open spec fn time_words(value: Seq<char>) -> Option<Seq<Seq<char>>> {
    if value.len() >= 2 && text::lower_char(value[0]) == 't' && value[1] == ':' {
        let words = text::words(value.skip(2));
        if 1 <= words.len() <= 4 {
            Some(words)
        } else {
            None
        }
    } else {
        None
    }
}

/// The comparison that a term in the prefix form `t:` stands for. A point in time of two
/// words is looked for before one of a single word.
pub open spec fn time_shorthand(value: Seq<char>, times: Seq<Seq<char>>) -> Option<Seq<char>> {
    match time_words(value) {
        Some(words) => match time_term(words, 2, times) {
            Some(query) => Some(query),
            None => time_term(words, 1, times),
        },
        None => None,
    }
}

/// The term begins like a comparison of a field.
pub open spec fn has_field_prefix(value: Seq<char>) -> bool {
    let lower = text::lower(text::trim_start(value));
    ||| text::starts_with(lower, "level="@)
    ||| text::starts_with(lower, "level!="@)
    ||| text::starts_with(lower, "lvl="@)
    ||| text::starts_with(lower, "priority="@)
    ||| text::starts_with(lower, "pid="@)
    ||| text::starts_with(lower, "pid!="@)
    ||| text::starts_with(lower, "pid>"@)
    ||| text::starts_with(lower, "pid<"@)
    ||| text::starts_with(lower, "tid="@)
    ||| text::starts_with(lower, "tid!="@)
    ||| text::starts_with(lower, "tid>"@)
    ||| text::starts_with(lower, "tid<"@)
    ||| text::starts_with(lower, "tag:"@)
    ||| text::starts_with(lower, "tag="@)
    ||| text::starts_with(lower, "tag!="@)
    ||| text::starts_with(lower, "tag~"@)
    ||| text::starts_with(lower, "tag!~"@)
    ||| text::starts_with(lower, "msg:"@)
    ||| text::starts_with(lower, "msg="@)
    ||| text::starts_with(lower, "msg!="@)
    ||| text::starts_with(lower, "msg~"@)
    ||| text::starts_with(lower, "msg!~"@)
    ||| text::starts_with(lower, "message:"@)
    ||| text::starts_with(lower, "text:"@)
    ||| text::starts_with(lower, "is:"@)
}

/// The term is a comparison of a field.
pub open spec fn is_structured(value: Seq<char>, fields: Seq<Seq<char>>) -> bool {
    has_field_prefix(value) && fields.contains(value)
}

/// The term is text to look for.
pub open spec fn is_keyword(
    value: Seq<char>,
    times: Seq<Seq<char>>,
    fields: Seq<Seq<char>>,
) -> bool {
    time_shorthand(value, times) is None && !is_structured(value, fields)
}

/// The query of one term.
pub open spec fn term_query(
    value: Seq<char>,
    times: Seq<Seq<char>>,
    fields: Seq<Seq<char>>,
) -> Seq<char> {
    match time_shorthand(value, times) {
        Some(query) => query,
        None => if is_structured(value, fields) {
            value
        } else {
            quoted(value)
        },
    }
}

/// The query of a group: all of its terms, in brackets where there are several.
pub open spec fn group_query(
    terms: Seq<Seq<char>>,
    times: Seq<Seq<char>>,
    fields: Seq<Seq<char>>,
) -> Seq<char> {
    let all = text::join(
        terms.map_values(|term: Seq<char>| term_query(term, times, fields)),
        " and "@,
    );
    if terms.len() > 1 {
        "("@ + all + ")"@
    } else {
        all
    }
}

/// The keywords among the terms of a group.
pub open spec fn group_keywords(
    terms: Seq<Seq<char>>,
    times: Seq<Seq<char>>,
    fields: Seq<Seq<char>>,
) -> Seq<Seq<char>>
    decreases terms.len(),
{
    if terms.len() == 0 {
        Seq::empty()
    } else {
        let before = group_keywords(terms.drop_last(), times, fields);
        if is_keyword(terms.last(), times, fields) {
            before.push(terms.last())
        } else {
            before
        }
    }
}

/// The query of an expression: any of its groups.
pub open spec fn expression_query(
    groups: Seq<Seq<Seq<char>>>,
    times: Seq<Seq<char>>,
    fields: Seq<Seq<char>>,
) -> Seq<char> {
    text::join(
        groups.map_values(|terms: Seq<Seq<char>>| group_query(terms, times, fields)),
        " or "@,
    )
}

/// The keywords of an expression.
pub open spec fn expression_keywords(
    groups: Seq<Seq<Seq<char>>>,
    times: Seq<Seq<char>>,
    fields: Seq<Seq<char>>,
) -> Seq<Seq<char>>
    decreases groups.len(),
{
    if groups.len() == 0 {
        Seq::empty()
    } else {
        expression_keywords(groups.drop_last(), times, fields) + group_keywords(
            groups.last(),
            times,
            fields,
        )
    }
}

/// Text as a quoted literal of the query language.
pub fn quote_query_literal(value: &Vec<char>) -> (r: Vec<char>)
    ensures
        r@ == quoted(value@),
{
    let mut out: Vec<char> = Vec::new();
    out.push('"');
    let mut i: usize = 0;
    assert(out@ =~= seq!['"'] + escaped(value@.take(0)));
    while i < value.len()
        invariant
            i <= value@.len(),
            out@ == seq!['"'] + escaped(value@.take(i as int)),
        decreases value@.len() - i,
    {
        assert(value@.take(i + 1).drop_last() =~= value@.take(i as int));
        if value[i] == '\\' || value[i] == '"' {
            out.push('\\');
        }
        out.push(value[i]);
        assert(out@ =~= seq!['"'] + escaped(value@.take(i + 1)));
        i += 1;
    }
    assert(value@.take(i as int) =~= value@);
    out.push('"');
    assert(out@ =~= quoted(value@));
    out
}

/// Whether a text is among those accepted.
fn accepts(terms: &Vec<String>, value: &Vec<char>) -> (r: bool)
    ensures
        r == text::texts(terms@).contains(value@),
{
    let wanted = text::text_of(value);
    let ghost all = text::texts(terms@);
    let mut i: usize = 0;
    while i < terms.len()
        invariant
            i <= terms@.len(),
            all == text::texts(terms@),
            wanted@ == value@,
            forall|k: int| 0 <= k < i ==> #[trigger] all[k] != value@,
        decreases terms@.len() - i,
    {
        if terms[i] == wanted {
            assert(all[i as int] == value@);
            return true;
        }
        assert(all[i as int] == terms@[i as int]@);
        i += 1;
    }
    false
}

/// Whether a term begins like a comparison of a field.
fn begins_like_field(value: &Vec<char>) -> (r: bool)
    ensures
        r == has_field_prefix(value@),
{
    let mut from: usize = 0;
    assert(value@.skip(0) =~= value@);
    while from < value.len() && text::white_space(value[from])
        invariant
            from <= value@.len(),
            text::trim_start(value@.skip(from as int)) == text::trim_start(value@),
        decreases value@.len() - from,
    {
        assert(value@.skip(from as int).skip(1) =~= value@.skip(from + 1));
        from += 1;
    }
    let rest = text::part_of(value, from, value.len());
    assert(rest@ =~= value@.skip(from as int));
    let lower = text::to_lower(&rest);
    text::begins_with(&lower, "level=") || text::begins_with(&lower, "level!=")
        || text::begins_with(&lower, "lvl=") || text::begins_with(&lower, "priority=")
        || text::begins_with(&lower, "pid=") || text::begins_with(&lower, "pid!=")
        || text::begins_with(&lower, "pid>") || text::begins_with(&lower, "pid<")
        || text::begins_with(&lower, "tid=") || text::begins_with(&lower, "tid!=")
        || text::begins_with(&lower, "tid>") || text::begins_with(&lower, "tid<")
        || text::begins_with(&lower, "tag:") || text::begins_with(&lower, "tag=")
        || text::begins_with(&lower, "tag!=") || text::begins_with(&lower, "tag~")
        || text::begins_with(&lower, "tag!~") || text::begins_with(&lower, "msg:")
        || text::begins_with(&lower, "msg=") || text::begins_with(&lower, "msg!=")
        || text::begins_with(&lower, "msg~") || text::begins_with(&lower, "msg!~")
        || text::begins_with(&lower, "message:") || text::begins_with(&lower, "text:")
        || text::begins_with(&lower, "is:")
}

/// Whether a term is a comparison of a field.
pub fn is_structured_search_term(value: &Vec<char>, accepted: &AcceptedTerms) -> (r: bool)
    ensures
        r == is_structured(value@, text::texts(accepted.fields@)),
{
    begins_like_field(value) && accepts(&accepted.fields, value)
}

/// The first `count` words, and those behind them, each as one text.
fn split_words(words: &Vec<Vec<char>>, count: usize) -> (r: (Vec<char>, Vec<char>))
    requires
        count <= words@.len(),
    ensures
        r.0@ == text::join(text::pieces(words@).take(count as int), " "@),
        r.1@ == text::join(text::pieces(words@).skip(count as int), " "@),
{
    let mut first: Vec<Vec<char>> = Vec::new();
    let mut rest: Vec<Vec<char>> = Vec::new();
    let ghost all = text::pieces(words@);
    let mut i: usize = 0;
    while i < words.len()
        invariant
            i <= words@.len(),
            count <= words@.len(),
            all == text::pieces(words@),
            i <= count ==> text::pieces(first@) == all.take(i as int) && rest@.len() == 0,
            i > count ==> text::pieces(first@) == all.take(count as int) && text::pieces(rest@)
                == all.subrange(count as int, i as int),
        decreases words@.len() - i,
    {
        let word = text::part_of(&words[i], 0, words[i].len());
        assert(word@ =~= all[i as int]);
        if i < count {
            let ghost before = first@;
            first.push(word);
            assert(text::pieces(first@) =~= text::pieces(before).push(word@));
            assert(all.take(i + 1) =~= all.take(i as int).push(all[i as int]));
        } else {
            let ghost before = rest@;
            rest.push(word);
            assert(text::pieces(rest@) =~= text::pieces(before).push(word@));
            assert(all.subrange(count as int, i + 1) =~= all.subrange(count as int, i as int).push(
                all[i as int],
            ));
        }
        i += 1;
    }
    assert(text::pieces(first@) =~= all.take(count as int));
    assert(text::pieces(rest@) =~= all.skip(count as int));
    (text::joined(&first, " "), text::joined(&rest, " "))
}

/// The comparison of a `t:` term whose first point in time is made of `count` words.
fn time_query(words: &Vec<Vec<char>>, count: usize, accepted: &AcceptedTerms) -> (r: Option<
    Vec<char>,
>)
    ensures
        match r {
            Some(query) => time_term(
                text::pieces(words@),
                count as nat,
                text::texts(accepted.times@),
            ) == Some(query@),
            None => time_term(
                text::pieces(words@),
                count as nat,
                text::texts(accepted.times@),
            ) is None,
        },
{
    if count > words.len() {
        return None;
    }
    let (start, end) = split_words(words, count);
    if !accepts(&accepted.times, &start) {
        return None;
    }
    if count == words.len() {
        let mut out = text::chars_of("time>=");
        text::append_chars(&mut out, &quote_query_literal(&start));
        return Some(out);
    }
    if words.len() - count > 2 || !accepts(&accepted.times, &end) {
        return None;
    }
    let mut out = text::chars_of("(time>=");
    text::append_chars(&mut out, &quote_query_literal(&start));
    text::append_text(&mut out, " and time<=");
    text::append_chars(&mut out, &quote_query_literal(&end));
    text::append_text(&mut out, ")");
    Some(out)
}

/// The words of a term in the prefix form `t:`.
fn words_of_time(value: &Vec<char>) -> (r: Option<Vec<Vec<char>>>)
    ensures
        match r {
            Some(words) => time_words(value@) == Some(text::pieces(words@)),
            None => time_words(value@) is None,
        },
{
    if value.len() < 2 || text::to_lower_char(value[0]) != 't' || value[1] != ':' {
        return None;
    }
    let rest = text::part_of(value, 2, value.len());
    assert(rest@ =~= value@.skip(2));
    let words = text::words_of(&rest);
    assert(text::pieces(words@).len() == words@.len());
    if words.len() == 0 || words.len() > 4 {
        return None;
    }
    Some(words)
}

/// The comparison that a term in the prefix form `t:` stands for: `t:` with one point in time
/// starts there, with two it lies between them.
pub fn parse_time_shorthand(value: &Vec<char>, accepted: &AcceptedTerms) -> (r: Option<Vec<char>>)
    ensures
        match r {
            Some(query) => time_shorthand(value@, text::texts(accepted.times@)) == Some(query@),
            None => time_shorthand(value@, text::texts(accepted.times@)) is None,
        },
{
    let words = match words_of_time(value) {
        Some(words) => words,
        None => {
            return None;
        },
    };
    match time_query(&words, 2, accepted) {
        Some(query) => Some(query),
        None => time_query(&words, 1, accepted),
    }
}

/// The terms of each group by their characters.
pub open spec fn group_pieces(groups: Seq<Vec<Vec<char>>>) -> Seq<Seq<Seq<char>>> {
    groups.map_values(|terms: Vec<Vec<char>>| text::pieces(terms@))
}

/// The terms between ampersands that are not blank.
fn terms_of(part: &Vec<char>) -> (r: Vec<Vec<char>>)
    ensures
        text::pieces(r@) == trimmed_terms(text::split(part@, '&')),
{
    let parts = text::split_at_char(part, '&');
    let ghost all = text::pieces(parts@);
    let mut out: Vec<Vec<char>> = Vec::new();
    let mut i: usize = 0;
    assert(text::pieces(out@) =~= trimmed_terms(all.take(0)));
    while i < parts.len()
        invariant
            i <= parts@.len(),
            all == text::pieces(parts@),
            text::pieces(out@) == trimmed_terms(all.take(i as int)),
        decreases parts@.len() - i,
    {
        assert(all.take(i + 1).drop_last() =~= all.take(i as int));
        assert(all.take(i + 1).last() == parts@[i as int]@);
        let term = text::trimmed(&parts[i]);
        if term.len() > 0 {
            let ghost before = out@;
            out.push(term);
            assert(text::pieces(out@) =~= text::pieces(before).push(term@));
        }
        i += 1;
    }
    assert(all.take(i as int) =~= all);
    out
}

/// The groups of an expression.
fn groups_of(value: &Vec<char>) -> (r: Vec<Vec<Vec<char>>>)
    ensures
        group_pieces(r@) == expression_groups(value@),
{
    let parts = text::split_at_char(value, '|');
    let ghost all = text::pieces(parts@);
    let mut out: Vec<Vec<Vec<char>>> = Vec::new();
    let mut i: usize = 0;
    assert(group_pieces(out@) =~= term_groups(all.take(0)));
    while i < parts.len()
        invariant
            i <= parts@.len(),
            all == text::pieces(parts@),
            group_pieces(out@) == term_groups(all.take(i as int)),
        decreases parts@.len() - i,
    {
        assert(all.take(i + 1).drop_last() =~= all.take(i as int));
        assert(all.take(i + 1).last() == parts@[i as int]@);
        let terms = terms_of(&parts[i]);
        assert(text::pieces(terms@).len() == terms@.len());
        if terms.len() > 0 {
            let ghost before = out@;
            out.push(terms);
            assert(group_pieces(out@) =~= group_pieces(before).push(text::pieces(terms@)));
        }
        i += 1;
    }
    assert(all.take(i as int) =~= all);
    out
}

/// The query of a group; its keywords are added to `keywords`.
fn query_of_group(
    terms: &Vec<Vec<char>>,
    accepted: &AcceptedTerms,
    keywords: &mut Vec<String>,
) -> (r: Vec<char>)
    ensures
        r@ == group_query(
            text::pieces(terms@),
            text::texts(accepted.times@),
            text::texts(accepted.fields@),
        ),
        text::texts(final(keywords)@) == text::texts(old(keywords)@) + group_keywords(
            text::pieces(terms@),
            text::texts(accepted.times@),
            text::texts(accepted.fields@),
        ),
{
    let ghost times = text::texts(accepted.times@);
    let ghost fields = text::texts(accepted.fields@);
    let ghost all = text::pieces(terms@);
    let ghost queries = all.map_values(|term: Seq<char>| term_query(term, times, fields));
    let ghost known = text::texts(keywords@);
    let mut parts: Vec<Vec<char>> = Vec::new();
    let mut i: usize = 0;
    assert(text::texts(keywords@) =~= known + group_keywords(all.take(0), times, fields));
    while i < terms.len()
        invariant
            i <= terms@.len(),
            times == text::texts(accepted.times@),
            fields == text::texts(accepted.fields@),
            all == text::pieces(terms@),
            queries == all.map_values(|term: Seq<char>| term_query(term, times, fields)),
            text::pieces(parts@) == queries.take(i as int),
            text::texts(keywords@) == known + group_keywords(all.take(i as int), times, fields),
        decreases terms@.len() - i,
    {
        let term = &terms[i];
        assert(all.take(i + 1).drop_last() =~= all.take(i as int));
        assert(all.take(i + 1).last() == term@);
        let part = match parse_time_shorthand(term, accepted) {
            Some(query) => query,
            None => if is_structured_search_term(term, accepted) {
                text::part_of(term, 0, term.len())
            } else {
                let ghost before = keywords@;
                keywords.push(text::text_of(term));
                assert(text::texts(keywords@) =~= text::texts(before).push(term@));
                quote_query_literal(term)
            },
        };
        assert(part@ =~= term_query(term@, times, fields));
        assert(text::texts(keywords@) =~= known + group_keywords(all.take(i + 1), times, fields));
        let ghost before = parts@;
        parts.push(part);
        assert(text::pieces(parts@) =~= text::pieces(before).push(part@));
        assert(queries.take(i + 1) =~= queries.take(i as int).push(queries[i as int]));
        i += 1;
    }
    assert(queries.take(i as int) =~= queries);
    assert(all.take(i as int) =~= all);
    let body = text::joined(&parts, " and ");
    if terms.len() > 1 {
        let mut out = text::chars_of("(");
        text::append_chars(&mut out, &body);
        text::append_text(&mut out, ")");
        out
    } else {
        body
    }
}

/// The texts to highlight and the query of a search expression.
pub open spec fn expression_of(
    value: Seq<char>,
    accepted: AcceptedTerms,
) -> (Seq<Seq<char>>, Seq<char>) {
    let times = text::texts(accepted.times@);
    let fields = text::texts(accepted.fields@);
    let groups = expression_groups(value);
    (expression_keywords(groups, times, fields), expression_query(groups, times, fields))
}

/// Reads a search expression: alternatives between bars, each of terms between ampersands.
/// A term is a time range in the prefix form `t:`, a comparison of a field, or else text to
/// look for, which is highlighted too.
pub fn parse_search_expression(value: &str, accepted: &AcceptedTerms) -> (r: SearchExpression)
    ensures
        (text::texts(r.keywords@), r.query@) == expression_of(value@, *accepted),
{
    let ghost times = text::texts(accepted.times@);
    let ghost fields = text::texts(accepted.fields@);
    let groups = groups_of(&text::chars_of(value));
    let ghost all = group_pieces(groups@);
    let ghost queries = all.map_values(
        |terms: Seq<Seq<char>>| group_query(terms, times, fields),
    );
    let mut keywords: Vec<String> = Vec::new();
    let mut parts: Vec<Vec<char>> = Vec::new();
    let mut i: usize = 0;
    assert(text::texts(keywords@) =~= expression_keywords(all.take(0), times, fields));
    while i < groups.len()
        invariant
            i <= groups@.len(),
            times == text::texts(accepted.times@),
            fields == text::texts(accepted.fields@),
            all == group_pieces(groups@),
            queries == all.map_values(
                |terms: Seq<Seq<char>>| group_query(terms, times, fields),
            ),
            text::pieces(parts@) == queries.take(i as int),
            text::texts(keywords@) == expression_keywords(all.take(i as int), times, fields),
        decreases groups@.len() - i,
    {
        assert(all.take(i + 1).drop_last() =~= all.take(i as int));
        assert(all.take(i + 1).last() == text::pieces(groups@[i as int]@));
        let part = query_of_group(&groups[i], accepted, &mut keywords);
        let ghost before = parts@;
        parts.push(part);
        assert(text::pieces(parts@) =~= text::pieces(before).push(part@));
        assert(queries.take(i + 1) =~= queries.take(i as int).push(queries[i as int]));
        i += 1;
    }
    assert(queries.take(i as int) =~= queries);
    assert(all.take(i as int) =~= all);
    SearchExpression { keywords, query: text::text_of(&text::joined(&parts, " or ")) }
}

/// The terms of all groups.
pub open spec fn all_terms(groups: Seq<Seq<Seq<char>>>) -> Seq<Seq<char>>
    decreases groups.len(),
{
    if groups.len() == 0 {
        Seq::empty()
    } else {
        all_terms(groups.drop_last()) + groups.last()
    }
}

/// The texts that must be known to be points in time or not before the meaning of a term is
/// settled.
pub open spec fn term_times(term: Seq<char>) -> Seq<Seq<char>> {
    match time_words(term) {
        Some(words) => if words.len() >= 2 {
            seq![
                text::join(words.take(2), " "@),
                text::join(words.skip(2), " "@),
                text::join(words.take(1), " "@),
                text::join(words.skip(1), " "@),
            ]
        } else {
            seq![text::join(words.take(1), " "@), text::join(words.skip(1), " "@)]
        },
        None => Seq::empty(),
    }
}

/// The texts that may be points in time among some terms.
pub open spec fn asked_times(terms: Seq<Seq<char>>) -> Seq<Seq<char>>
    decreases terms.len(),
{
    if terms.len() == 0 {
        Seq::empty()
    } else {
        asked_times(terms.drop_last()) + term_times(terms.last())
    }
}

/// The texts that may be comparisons of a field among some terms.
pub open spec fn asked_fields(terms: Seq<Seq<char>>) -> Seq<Seq<char>>
    decreases terms.len(),
{
    if terms.len() == 0 {
        Seq::empty()
    } else if has_field_prefix(terms.last()) {
        asked_fields(terms.drop_last()).push(terms.last())
    } else {
        asked_fields(terms.drop_last())
    }
}

/// What the query engine has to be asked before an expression can be read.
pub fn search_questions(value: &str) -> (r: AcceptedTerms)
    ensures
        text::texts(r.times@) == asked_times(all_terms(expression_groups(value@))),
        text::texts(r.fields@) == asked_fields(all_terms(expression_groups(value@))),
{
    let groups = groups_of(&text::chars_of(value));
    let ghost all = group_pieces(groups@);
    let mut times: Vec<String> = Vec::new();
    let mut fields: Vec<String> = Vec::new();
    let mut i: usize = 0;
    assert(text::texts(times@) =~= asked_times(all_terms(all.take(0))));
    assert(text::texts(fields@) =~= asked_fields(all_terms(all.take(0))));
    while i < groups.len()
        invariant
            i <= groups@.len(),
            all == group_pieces(groups@),
            text::texts(times@) == asked_times(all_terms(all.take(i as int))),
            text::texts(fields@) == asked_fields(all_terms(all.take(i as int))),
        decreases groups@.len() - i,
    {
        let terms = &groups[i];
        let ghost before = all_terms(all.take(i as int));
        let ghost here = text::pieces(terms@);
        assert(all.take(i + 1).drop_last() =~= all.take(i as int));
        assert(all.take(i + 1).last() == here);
        let mut j: usize = 0;
        assert(before + here.take(0) =~= before);
        while j < terms.len()
            invariant
                j <= terms@.len(),
                here == text::pieces(terms@),
                text::texts(times@) == asked_times(before + here.take(j as int)),
                text::texts(fields@) == asked_fields(before + here.take(j as int)),
            decreases terms@.len() - j,
        {
            let ghost upto = before + here.take(j + 1);
            assert(upto.drop_last() =~= before + here.take(j as int));
            assert(upto.last() == terms@[j as int]@);
            add_time_questions(&terms[j], &mut times);
            if begins_like_field(&terms[j]) {
                let ghost known = fields@;
                fields.push(text::text_of(&terms[j]));
                assert(text::texts(fields@) =~= text::texts(known).push(upto.last()));
            }
            j += 1;
        }
        assert(before + here.take(j as int) =~= all_terms(all.take(i + 1)));
        i += 1;
    }
    assert(all.take(i as int) =~= all);
    AcceptedTerms { times, fields }
}

/// Adds the texts of a term that may be points in time.
fn add_time_questions(term: &Vec<char>, times: &mut Vec<String>)
    ensures
        text::texts(final(times)@) == text::texts(old(times)@) + term_times(term@),
{
    let ghost known = text::texts(times@);
    if let Some(words) = words_of_time(term) {
        assert(text::pieces(words@).len() == words@.len());
        if words.len() >= 2 {
            let (start, end) = split_words(&words, 2);
            times.push(text::text_of(&start));
            times.push(text::text_of(&end));
        }
        let (start, end) = split_words(&words, 1);
        times.push(text::text_of(&start));
        times.push(text::text_of(&end));
    }
    assert(text::texts(times@) =~= known + term_times(term@));
}

/// Two lists agree on some texts: each is in both or in neither.
pub open spec fn agree_on(
    a: Seq<Seq<char>>,
    b: Seq<Seq<char>>,
    asked: Seq<Seq<char>>,
) -> bool {
    forall|i: int|
        0 <= i < asked.len() ==> (a.contains(#[trigger] asked[i]) <==> b.contains(asked[i]))
}

proof fn lemma_term_settled(
    term: Seq<char>,
    times: Seq<Seq<char>>,
    fields: Seq<Seq<char>>,
    other_times: Seq<Seq<char>>,
    other_fields: Seq<Seq<char>>,
)
    requires
        agree_on(times, other_times, term_times(term)),
        has_field_prefix(term) ==> (fields.contains(term) <==> other_fields.contains(term)),
    ensures
        term_query(term, times, fields) == term_query(term, other_times, other_fields),
        is_keyword(term, times, fields) == is_keyword(term, other_times, other_fields),
{
    if let Some(words) = time_words(term) {
        let asked = term_times(term);
        if words.len() >= 2 {
            assert(times.contains(asked[0]) <==> other_times.contains(asked[0]));
            assert(times.contains(asked[1]) <==> other_times.contains(asked[1]));
            assert(times.contains(asked[2]) <==> other_times.contains(asked[2]));
            assert(times.contains(asked[3]) <==> other_times.contains(asked[3]));
        } else {
            assert(times.contains(asked[0]) <==> other_times.contains(asked[0]));
            assert(times.contains(asked[1]) <==> other_times.contains(asked[1]));
        }
        assert(time_shorthand(term, times) == time_shorthand(term, other_times));
    }
}

proof fn lemma_asked_parts(terms: Seq<Seq<char>>, more: Seq<Seq<char>>)
    ensures
        asked_times(terms + more) == asked_times(terms) + asked_times(more),
        asked_fields(terms + more) == asked_fields(terms) + asked_fields(more),
    decreases more.len(),
{
    if more.len() == 0 {
        assert(terms + more =~= terms);
        assert(asked_times(terms) + asked_times(more) =~= asked_times(terms));
        assert(asked_fields(terms) + asked_fields(more) =~= asked_fields(terms));
    } else {
        lemma_asked_parts(terms, more.drop_last());
        assert((terms + more).drop_last() =~= terms + more.drop_last());
        assert(asked_times(terms + more) =~= asked_times(terms) + asked_times(more));
        assert(asked_fields(terms + more) =~= asked_fields(terms) + asked_fields(more));
    }
}

proof fn lemma_agree_parts(
    a: Seq<Seq<char>>,
    b: Seq<Seq<char>>,
    first: Seq<Seq<char>>,
    rest: Seq<Seq<char>>,
)
    requires
        agree_on(a, b, first + rest),
    ensures
        agree_on(a, b, first),
        agree_on(a, b, rest),
{
    assert forall|i: int| 0 <= i < first.len() implies (a.contains(#[trigger] first[i])
        <==> b.contains(first[i])) by {
        assert((first + rest)[i] == first[i]);
    }
    assert forall|i: int| 0 <= i < rest.len() implies (a.contains(#[trigger] rest[i])
        <==> b.contains(rest[i])) by {
        assert((first + rest)[i + first.len()] == rest[i]);
    }
}

proof fn lemma_group_settled(
    terms: Seq<Seq<char>>,
    times: Seq<Seq<char>>,
    fields: Seq<Seq<char>>,
    other_times: Seq<Seq<char>>,
    other_fields: Seq<Seq<char>>,
)
    requires
        agree_on(times, other_times, asked_times(terms)),
        agree_on(fields, other_fields, asked_fields(terms)),
    ensures
        terms.map_values(|term: Seq<char>| term_query(term, times, fields)) == terms.map_values(
            |term: Seq<char>| term_query(term, other_times, other_fields),
        ),
        group_keywords(terms, times, fields) == group_keywords(terms, other_times, other_fields),
    decreases terms.len(),
{
    let here = terms.map_values(|term: Seq<char>| term_query(term, times, fields));
    let there = terms.map_values(
        |term: Seq<char>| term_query(term, other_times, other_fields),
    );
    if terms.len() == 0 {
        assert(here =~= there);
    } else {
        let before = terms.drop_last();
        let last = terms.last();
        lemma_agree_parts(times, other_times, asked_times(before), term_times(last));
        if has_field_prefix(last) {
            assert(asked_fields(terms) =~= asked_fields(before) + seq![last]);
            lemma_agree_parts(fields, other_fields, asked_fields(before), seq![last]);
            assert(seq![last][0] == last);
        }
        lemma_group_settled(before, times, fields, other_times, other_fields);
        lemma_term_settled(last, times, fields, other_times, other_fields);
        let here_before = before.map_values(|term: Seq<char>| term_query(term, times, fields));
        let there_before = before.map_values(
            |term: Seq<char>| term_query(term, other_times, other_fields),
        );
        assert(here =~= here_before.push(term_query(last, times, fields)));
        assert(there =~= there_before.push(term_query(last, other_times, other_fields)));
    }
}

proof fn lemma_groups_settled(
    groups: Seq<Seq<Seq<char>>>,
    times: Seq<Seq<char>>,
    fields: Seq<Seq<char>>,
    other_times: Seq<Seq<char>>,
    other_fields: Seq<Seq<char>>,
)
    requires
        agree_on(times, other_times, asked_times(all_terms(groups))),
        agree_on(fields, other_fields, asked_fields(all_terms(groups))),
    ensures
        groups.map_values(|terms: Seq<Seq<char>>| group_query(terms, times, fields))
            == groups.map_values(
            |terms: Seq<Seq<char>>| group_query(terms, other_times, other_fields),
        ),
        expression_keywords(groups, times, fields) == expression_keywords(
            groups,
            other_times,
            other_fields,
        ),
    decreases groups.len(),
{
    let here = groups.map_values(|terms: Seq<Seq<char>>| group_query(terms, times, fields));
    let there = groups.map_values(
        |terms: Seq<Seq<char>>| group_query(terms, other_times, other_fields),
    );
    if groups.len() == 0 {
        assert(here =~= there);
    } else {
        let before = groups.drop_last();
        let last = groups.last();
        lemma_asked_parts(all_terms(before), last);
        lemma_agree_parts(times, other_times, asked_times(all_terms(before)), asked_times(last));
        lemma_agree_parts(
            fields,
            other_fields,
            asked_fields(all_terms(before)),
            asked_fields(last),
        );
        lemma_groups_settled(before, times, fields, other_times, other_fields);
        lemma_group_settled(last, times, fields, other_times, other_fields);
        let here_before = before.map_values(
            |terms: Seq<Seq<char>>| group_query(terms, times, fields),
        );
        let there_before = before.map_values(
            |terms: Seq<Seq<char>>| group_query(terms, other_times, other_fields),
        );
        assert(here =~= here_before.push(group_query(last, times, fields)));
        assert(there =~= there_before.push(group_query(last, other_times, other_fields)));
    }
}

/// The answers to `search_questions` settle what an expression means: two sets of accepted
/// terms that agree on the questions give the same query and the same keywords.
pub proof fn questions_settle_the_expression(
    value: Seq<char>,
    times: Seq<Seq<char>>,
    fields: Seq<Seq<char>>,
    other_times: Seq<Seq<char>>,
    other_fields: Seq<Seq<char>>,
)
    requires
        agree_on(times, other_times, asked_times(all_terms(expression_groups(value)))),
        agree_on(fields, other_fields, asked_fields(all_terms(expression_groups(value)))),
    ensures
        expression_query(expression_groups(value), times, fields) == expression_query(
            expression_groups(value),
            other_times,
            other_fields,
        ),
        expression_keywords(expression_groups(value), times, fields) == expression_keywords(
            expression_groups(value),
            other_times,
            other_fields,
        ),
{
    lemma_groups_settled(
        expression_groups(value),
        times,
        fields,
        other_times,
        other_fields,
    );
}

/// `term` can be a keyword of an expression: it is trimmed and not blank, and neither mark
/// between terms is in it.
pub open spec fn is_plain_term(term: Seq<char>) -> bool {
    &&& term.len() > 0
    &&& text::trim(term) == term
    &&& !term.contains('|')
    &&& !term.contains('&')
}

proof fn lemma_groups_follow(parts: Seq<Seq<char>>, more: Seq<Seq<char>>)
    ensures
        term_groups(parts + more) == term_groups(parts) + term_groups(more),
    decreases more.len(),
{
    if more.len() == 0 {
        assert(parts + more =~= parts);
        assert(term_groups(parts + more) =~= term_groups(parts) + term_groups(more));
    } else {
        assert((parts + more).drop_last() =~= parts + more.drop_last());
        lemma_groups_follow(parts, more.drop_last());
        assert(term_groups(parts + more) =~= term_groups(parts) + term_groups(more));
    }
}

proof fn lemma_keywords_follow(
    groups: Seq<Seq<Seq<char>>>,
    more: Seq<Seq<Seq<char>>>,
    times: Seq<Seq<char>>,
    fields: Seq<Seq<char>>,
)
    ensures
        expression_keywords(groups + more, times, fields) == expression_keywords(
            groups,
            times,
            fields,
        ) + expression_keywords(more, times, fields),
    decreases more.len(),
{
    if more.len() == 0 {
        assert(groups + more =~= groups);
    } else {
        assert((groups + more).drop_last() =~= groups + more.drop_last());
        lemma_keywords_follow(groups, more.drop_last(), times, fields);
    }
    assert(expression_keywords(groups + more, times, fields) =~= expression_keywords(
        groups,
        times,
        fields,
    ) + expression_keywords(more, times, fields));
}

proof fn lemma_terms_plain(part: Seq<char>, pieces: Seq<Seq<char>>)
    requires
        !part.contains('|'),
        pieces.len() <= text::split(part, '&').len(),
        pieces == text::split(part, '&').take(pieces.len() as int),
    ensures
        forall|i: int|
            0 <= i < trimmed_terms(pieces).len() ==> is_plain_term(
                #[trigger] trimmed_terms(pieces)[i],
            ),
    decreases pieces.len(),
{
    if pieces.len() > 0 {
        let all = text::split(part, '&');
        let at = pieces.len() - 1;
        assert(pieces.drop_last() =~= all.take(at));
        lemma_terms_plain(part, pieces.drop_last());
        let term = text::trim(pieces.last());
        assert(pieces.last() == all[at]);
        text::joining_undoes_splitting(part, '&');
        text::trim_is_idempotent(pieces.last());
        assert(!all[at].contains('&'));
        if term.contains('&') {
            text::trimming_only_takes_away(pieces.last(), '&');
        }
        if term.contains('|') {
            text::trimming_only_takes_away(pieces.last(), '|');
            text::pieces_hold_what_was_split(part, '&', at, '|');
        }
        let before = trimmed_terms(pieces.drop_last());
        let after = trimmed_terms(pieces);
        assert forall|i: int| 0 <= i < after.len() implies is_plain_term(#[trigger] after[i]) by {
            if i < before.len() {
                assert(is_plain_term(before[i]));
            }
        }
    }
}

proof fn lemma_groups_plain(value: Seq<char>, parts: Seq<Seq<char>>)
    requires
        parts.len() <= text::split(value, '|').len(),
        parts == text::split(value, '|').take(parts.len() as int),
    ensures
        forall|g: int, i: int|
            0 <= g < term_groups(parts).len() && 0 <= i < term_groups(parts)[g].len()
                ==> is_plain_term(#[trigger] term_groups(parts)[g][i]),
        forall|g: int|
            0 <= g < term_groups(parts).len() ==> (#[trigger] term_groups(parts)[g]).len() > 0,
    decreases parts.len(),
{
    if parts.len() > 0 {
        let all = text::split(value, '|');
        let at = parts.len() - 1;
        assert(parts.drop_last() =~= all.take(at));
        lemma_groups_plain(value, parts.drop_last());
        assert(parts.last() == all[at]);
        text::joining_undoes_splitting(value, '|');
        assert(!all[at].contains('|'));
        let pieces = text::split(parts.last(), '&');
        assert(pieces =~= pieces.take(pieces.len() as int));
        lemma_terms_plain(parts.last(), pieces);
        let before = term_groups(parts.drop_last());
        let after = term_groups(parts);
        assert forall|g: int, i: int|
            0 <= g < after.len() && 0 <= i < after[g].len() implies is_plain_term(
            #[trigger] after[g][i],
        ) by {
            if g < before.len() {
                assert(after[g] == before[g]);
                assert(is_plain_term(before[g][i]));
            }
        }
    }
}

proof fn lemma_group_keywords_plain(
    terms: Seq<Seq<char>>,
    times: Seq<Seq<char>>,
    fields: Seq<Seq<char>>,
)
    requires
        forall|i: int| 0 <= i < terms.len() ==> is_plain_term(#[trigger] terms[i]),
    ensures
        forall|i: int|
            0 <= i < group_keywords(terms, times, fields).len() ==> is_plain_term(
                #[trigger] group_keywords(terms, times, fields)[i],
            ),
    decreases terms.len(),
{
    if terms.len() > 0 {
        let rest = terms.drop_last();
        assert forall|i: int| 0 <= i < rest.len() implies is_plain_term(#[trigger] rest[i]) by {
            assert(rest[i] == terms[i]);
        }
        lemma_group_keywords_plain(rest, times, fields);
        assert(is_plain_term(terms[terms.len() - 1]));
        let before = group_keywords(rest, times, fields);
        let after = group_keywords(terms, times, fields);
        assert forall|i: int| 0 <= i < after.len() implies is_plain_term(#[trigger] after[i]) by {
            if i < before.len() {
                assert(is_plain_term(before[i]));
            }
        }
    }
}

proof fn lemma_keywords_plain(
    groups: Seq<Seq<Seq<char>>>,
    times: Seq<Seq<char>>,
    fields: Seq<Seq<char>>,
)
    requires
        forall|g: int, i: int|
            0 <= g < groups.len() && 0 <= i < groups[g].len() ==> is_plain_term(
                #[trigger] groups[g][i],
            ),
    ensures
        forall|i: int|
            0 <= i < expression_keywords(groups, times, fields).len() ==> is_plain_term(
                #[trigger] expression_keywords(groups, times, fields)[i],
            ),
    decreases groups.len(),
{
    if groups.len() > 0 {
        let rest = groups.drop_last();
        assert forall|g: int, i: int|
            0 <= g < rest.len() && 0 <= i < rest[g].len() implies is_plain_term(
            #[trigger] rest[g][i],
        ) by {
            assert(is_plain_term(groups[g][i]));
        }
        lemma_keywords_plain(rest, times, fields);
        let last = groups.last();
        assert forall|i: int| 0 <= i < last.len() implies is_plain_term(#[trigger] last[i]) by {
            assert(is_plain_term(groups[groups.len() - 1][i]));
        }
        lemma_group_keywords_plain(last, times, fields);
        let before = expression_keywords(rest, times, fields);
        let more = group_keywords(last, times, fields);
        let after = expression_keywords(groups, times, fields);
        assert forall|i: int| 0 <= i < after.len() implies is_plain_term(#[trigger] after[i]) by {
            if i < before.len() {
                assert(is_plain_term(before[i]));
            } else {
                assert(is_plain_term(more[i - before.len()]));
            }
        }
    }
}

/// Every keyword of an expression is a single term of it: trimmed, not blank, and without a bar
/// or an ampersand.
pub proof fn keywords_are_plain_terms(value: Seq<char>, accepted: AcceptedTerms)
    ensures
        forall|i: int|
            0 <= i < expression_of(value, accepted).0.len() ==> is_plain_term(
                #[trigger] expression_of(value, accepted).0[i],
            ),
{
    let parts = text::split(value, '|');
    assert(parts =~= parts.take(parts.len() as int));
    lemma_groups_plain(value, parts);
    lemma_keywords_plain(
        expression_groups(value),
        text::texts(accepted.times@),
        text::texts(accepted.fields@),
    );
}

proof fn lemma_term_asks(value: Seq<char>, times: Seq<Seq<char>>, fields: Seq<Seq<char>>)
    requires
        value.len() > 0,
    ensures
        term_query(value, times, fields).len() > 0,
{
    reveal_strlit("time>=");
    reveal_strlit("(time>=");
}

proof fn lemma_join_not_empty(parts: Seq<Seq<char>>, mark: Seq<char>)
    requires
        parts.len() > 0,
        parts[0].len() > 0,
    ensures
        text::join(parts, mark).len() > 0,
    decreases parts.len(),
{
    if parts.len() > 1 {
        lemma_join_not_empty(parts.drop_last(), mark);
    }
}

proof fn lemma_groups_ask(
    value: Seq<char>,
    groups: Seq<Seq<Seq<char>>>,
    times: Seq<Seq<char>>,
    fields: Seq<Seq<char>>,
)
    requires
        groups == expression_groups(value),
        groups.len() > 0,
    ensures
        expression_query(groups, times, fields).len() > 0,
{
    let parts = text::split(value, '|');
    assert(parts =~= parts.take(parts.len() as int));
    lemma_groups_plain(value, parts);
    let terms = groups[0];
    assert(is_plain_term(terms[0]));
    lemma_term_asks(terms[0], times, fields);
    let asked = terms.map_values(|term: Seq<char>| term_query(term, times, fields));
    lemma_join_not_empty(asked, " and "@);
    assert(group_query(terms, times, fields).len() > 0);
    lemma_join_not_empty(
        groups.map_values(|terms: Seq<Seq<char>>| group_query(terms, times, fields)),
        " or "@,
    );
}

/// An expression asks for nothing exactly where no part of it is anything but blank.
pub proof fn only_blank_expressions_ask_for_nothing(value: Seq<char>, accepted: AcceptedTerms)
    ensures
        expression_of(value, accepted).1.len() == 0 <==> expression_groups(value).len() == 0,
{
    if expression_groups(value).len() > 0 {
        lemma_groups_ask(
            value,
            expression_groups(value),
            text::texts(accepted.times@),
            text::texts(accepted.fields@),
        );
    }
}

/// Two expressions with a bar between them ask for what either of them asks for. The keywords
/// are those of the first and then those of the second, and the query is that of the one or of
/// the other; where one of them asks for nothing, it is that of the other alone.
pub proof fn a_bar_asks_for_either_side(a: Seq<char>, b: Seq<char>, accepted: AcceptedTerms)
    ensures
        expression_of(a + seq!['|'] + b, accepted).0 == expression_of(a, accepted).0
            + expression_of(b, accepted).0,
        expression_of(a + seq!['|'] + b, accepted).1 == if expression_of(b, accepted).1.len()
            == 0 {
            expression_of(a, accepted).1
        } else if expression_of(a, accepted).1.len() == 0 {
            expression_of(b, accepted).1
        } else {
            expression_of(a, accepted).1 + " or "@ + expression_of(b, accepted).1
        },
{
    let times = text::texts(accepted.times@);
    let fields = text::texts(accepted.fields@);
    let first = expression_groups(a);
    let second = expression_groups(b);
    text::splitting_goes_by_the_marks(a, b, '|');
    lemma_groups_follow(text::split(a, '|'), text::split(b, '|'));
    lemma_keywords_follow(first, second, times, fields);
    only_blank_expressions_ask_for_nothing(a, accepted);
    only_blank_expressions_ask_for_nothing(b, accepted);
    let asked = first.map_values(|terms: Seq<Seq<char>>| group_query(terms, times, fields));
    let more = second.map_values(|terms: Seq<Seq<char>>| group_query(terms, times, fields));
    assert((first + second).map_values(
        |terms: Seq<Seq<char>>| group_query(terms, times, fields),
    ) =~= asked + more);
    if first.len() == 0 {
        assert(asked + more =~= more);
    } else if second.len() == 0 {
        assert(asked + more =~= asked);
    } else {
        text::joining_goes_by_the_parts(asked, more, " or "@);
    }
}

/// At most one of the stretches between the ampersands of a text is anything but white space.
pub open spec fn has_one_term(value: Seq<char>) -> bool {
    forall|i: int, j: int|
        0 <= i < text::split(value, '&').len() && 0 <= j < text::split(value, '&').len()
            && text::trim(#[trigger] text::split(value, '&')[i]).len() > 0 && text::trim(
            #[trigger] text::split(value, '&')[j],
        ).len() > 0 ==> i == j
}

proof fn lemma_terms_follow(parts: Seq<Seq<char>>, more: Seq<Seq<char>>)
    ensures
        trimmed_terms(parts + more) == trimmed_terms(parts) + trimmed_terms(more),
    decreases more.len(),
{
    if more.len() == 0 {
        assert(parts + more =~= parts);
    } else {
        assert((parts + more).drop_last() =~= parts + more.drop_last());
        lemma_terms_follow(parts, more.drop_last());
    }
    assert(trimmed_terms(parts + more) =~= trimmed_terms(parts) + trimmed_terms(more));
}

proof fn lemma_one_alternative(value: Seq<char>)
    requires
        !value.contains('|'),
    ensures
        ({
            let terms = trimmed_terms(text::split(value, '&'));
            expression_groups(value) == if terms.len() > 0 {
                seq![terms]
            } else {
                Seq::<Seq<Seq<char>>>::empty()
            }
        }),
{
    text::single_pieces_stay_as_they_are(value, '|', Seq::empty());
    let parts = seq![value];
    assert(parts.drop_last() =~= Seq::<Seq<char>>::empty());
    assert(term_groups(Seq::<Seq<char>>::empty()) =~= Seq::<Seq<Seq<char>>>::empty());
    assert(parts.last() == value);
    let terms = trimmed_terms(text::split(value, '&'));
    assert(expression_groups(value) =~= if terms.len() > 0 {
        seq![terms]
    } else {
        Seq::<Seq<Seq<char>>>::empty()
    });
}

proof fn lemma_term_count(parts: Seq<Seq<char>>)
    ensures
        trimmed_terms(parts).len() <= 1 <==> (forall|i: int, j: int|
            0 <= i < parts.len() && 0 <= j < parts.len() && text::trim(#[trigger] parts[i]).len()
                > 0 && text::trim(#[trigger] parts[j]).len() > 0 ==> i == j),
        trimmed_terms(parts).len() == 0 <==> (forall|i: int|
            0 <= i < parts.len() ==> text::trim(#[trigger] parts[i]).len() == 0),
    decreases parts.len(),
{
    if parts.len() > 0 {
        let rest = parts.drop_last();
        let last = parts.len() - 1;
        lemma_term_count(rest);
        assert forall|i: int| 0 <= i < rest.len() implies #[trigger] rest[i] == parts[i] by {}
        let some = text::trim(parts.last()).len() > 0;
        assert(parts.last() == parts[last]);
        if trimmed_terms(parts).len() <= 1 {
            assert forall|i: int, j: int|
                0 <= i < parts.len() && 0 <= j < parts.len() && text::trim(
                    #[trigger] parts[i],
                ).len() > 0 && text::trim(#[trigger] parts[j]).len() > 0 implies i == j by {
                if i < last {
                    assert(text::trim(rest[i]).len() > 0);
                }
                if j < last {
                    assert(text::trim(rest[j]).len() > 0);
                }
            }
        } else {
            if some {
                let i = choose|i: int| 0 <= i < rest.len() && text::trim(#[trigger] rest[i]).len() > 0;
                assert(text::trim(parts[i]).len() > 0 && text::trim(parts[last]).len() > 0);
            } else {
                let (i, j) = choose|i: int, j: int|
                    0 <= i < rest.len() && 0 <= j < rest.len() && text::trim(
                        #[trigger] rest[i],
                    ).len() > 0 && text::trim(#[trigger] rest[j]).len() > 0 && i != j;
                assert(text::trim(parts[i]).len() > 0 && text::trim(parts[j]).len() > 0);
            }
        }
        if trimmed_terms(parts).len() == 0 {
            assert forall|i: int| 0 <= i < parts.len() implies text::trim(
                #[trigger] parts[i],
            ).len() == 0 by {
                if i < last {
                    assert(text::trim(rest[i]).len() == 0);
                }
            }
        } else if forall|i: int| 0 <= i < parts.len() ==> text::trim(#[trigger] parts[i]).len() == 0 {
            assert forall|i: int| 0 <= i < rest.len() implies text::trim(
                #[trigger] rest[i],
            ).len() == 0 by {
                assert(text::trim(parts[i]).len() == 0);
            }
            assert(text::trim(parts[last]).len() == 0);
        }
    }
}

proof fn lemma_group_keywords_follow(
    terms: Seq<Seq<char>>,
    more: Seq<Seq<char>>,
    times: Seq<Seq<char>>,
    fields: Seq<Seq<char>>,
)
    ensures
        group_keywords(terms + more, times, fields) == group_keywords(terms, times, fields)
            + group_keywords(more, times, fields),
    decreases more.len(),
{
    if more.len() == 0 {
        assert(terms + more =~= terms);
    } else {
        assert((terms + more).drop_last() =~= terms + more.drop_last());
        lemma_group_keywords_follow(terms, more.drop_last(), times, fields);
    }
    assert(group_keywords(terms + more, times, fields) =~= group_keywords(terms, times, fields)
        + group_keywords(more, times, fields));
}

proof fn lemma_one_group(terms: Seq<Seq<char>>, times: Seq<Seq<char>>, fields: Seq<Seq<char>>)
    ensures
        expression_keywords(seq![terms], times, fields) == group_keywords(terms, times, fields),
        expression_query(seq![terms], times, fields) == group_query(terms, times, fields),
        expression_keywords(Seq::<Seq<Seq<char>>>::empty(), times, fields) == Seq::<
            Seq<char>,
        >::empty(),
        expression_query(Seq::<Seq<Seq<char>>>::empty(), times, fields) == Seq::<char>::empty(),
{
    let one = seq![terms];
    let none = Seq::<Seq<Seq<char>>>::empty();
    assert(one.drop_last() =~= none);
    assert(expression_keywords(none, times, fields) =~= Seq::<Seq<char>>::empty());
    assert(expression_keywords(one, times, fields) =~= group_keywords(terms, times, fields));
    let asked = one.map_values(|terms: Seq<Seq<char>>| group_query(terms, times, fields));
    assert(asked =~= seq![group_query(terms, times, fields)]);
    assert(none.map_values(|terms: Seq<Seq<char>>| group_query(terms, times, fields)) =~= Seq::<
        Seq<char>,
    >::empty());
}

/// Two texts with an ampersand between them, and no bar in either, ask for what both of them ask
/// for. The keywords are those of the first and then those of the second. The query is, in one
/// pair of brackets, the terms of the first and the terms of the second, however many there are
/// on either side, with `and` between them; the query of a text of several terms is its terms
/// in brackets. Where one side is blank, the query is that of the other alone.
pub proof fn an_ampersand_asks_for_both_sides(
    a: Seq<char>,
    b: Seq<char>,
    accepted: AcceptedTerms,
) -> (inner: (Seq<char>, Seq<char>))
    requires
        !a.contains('|'),
        !b.contains('|'),
    ensures
        expression_of(a + seq!['&'] + b, accepted).0 == expression_of(a, accepted).0
            + expression_of(b, accepted).0,
        expression_of(b, accepted).1.len() == 0 ==> expression_of(a + seq!['&'] + b, accepted).1
            == expression_of(a, accepted).1,
        expression_of(a, accepted).1.len() == 0 ==> expression_of(a + seq!['&'] + b, accepted).1
            == expression_of(b, accepted).1,
        expression_of(a, accepted).1 == if has_one_term(a) {
            inner.0
        } else {
            "("@ + inner.0 + ")"@
        },
        expression_of(b, accepted).1 == if has_one_term(b) {
            inner.1
        } else {
            "("@ + inner.1 + ")"@
        },
        expression_of(a, accepted).1.len() > 0 && expression_of(b, accepted).1.len() > 0
            ==> expression_of(a + seq!['&'] + b, accepted).1 == "("@ + (inner.0 + " and "@
            + inner.1) + ")"@,
{
    let times = text::texts(accepted.times@);
    let fields = text::texts(accepted.fields@);
    let whole = a + seq!['&'] + b;
    if whole.contains('|') {
        let k = choose|k: int| 0 <= k < whole.len() && whole[k] == '|';
        if k < a.len() {
            assert(a[k] == '|');
        } else {
            assert(b[k - a.len() - 1] == '|');
        }
    }
    let first = trimmed_terms(text::split(a, '&'));
    let second = trimmed_terms(text::split(b, '&'));
    text::splitting_goes_by_the_marks(a, b, '&');
    lemma_terms_follow(text::split(a, '&'), text::split(b, '&'));
    lemma_one_alternative(a);
    lemma_one_alternative(b);
    lemma_one_alternative(whole);
    lemma_term_count(text::split(a, '&'));
    lemma_term_count(text::split(b, '&'));
    lemma_one_group(first, times, fields);
    lemma_one_group(second, times, fields);
    lemma_one_group(first + second, times, fields);
    lemma_group_keywords_follow(first, second, times, fields);
    only_blank_expressions_ask_for_nothing(a, accepted);
    only_blank_expressions_ask_for_nothing(b, accepted);
    let asked = first.map_values(|term: Seq<char>| term_query(term, times, fields));
    let more = second.map_values(|term: Seq<char>| term_query(term, times, fields));
    assert((first + second).map_values(|term: Seq<char>| term_query(term, times, fields)) =~= asked
        + more);
    assert(first.len() == 0 ==> first + second =~= second);
    assert(second.len() == 0 ==> first + second =~= first);
    assert(group_keywords(Seq::<Seq<char>>::empty(), times, fields) =~= Seq::<Seq<char>>::empty());
    if first.len() == 0 {
        assert(first =~= Seq::<Seq<char>>::empty());
    }
    if second.len() == 0 {
        assert(second =~= Seq::<Seq<char>>::empty());
    }
    assert(expression_of(whole, accepted).0 =~= expression_of(a, accepted).0 + expression_of(
        b,
        accepted,
    ).0);
    if first.len() > 0 && second.len() > 0 {
        text::joining_goes_by_the_parts(asked, more, " and "@);
    }
    (text::join(asked, " and "@), text::join(more, " and "@))
}

/// What a text without a bar and an ampersand asks for, once it is trimmed: nothing if it is
/// blank; a time range or a comparison of a field as it is written; else the text itself as a
/// literal, and then it is a keyword too.
pub proof fn a_single_term_is_a_time_a_field_or_text(value: Seq<char>, accepted: AcceptedTerms)
    requires
        !value.contains('|'),
        !value.contains('&'),
    ensures
        ({
            let term = text::trim(value);
            let times = text::texts(accepted.times@);
            let asked = expression_of(value, accepted);
            &&& asked.0 == if term.len() > 0 && time_shorthand(term, times) is None && !(
            has_field_prefix(term) && text::texts(accepted.fields@).contains(term)) {
                seq![term]
            } else {
                Seq::<Seq<char>>::empty()
            }
            &&& asked.1 == if term.len() == 0 {
                Seq::empty()
            } else if time_shorthand(term, times) is Some {
                time_shorthand(term, times).unwrap()
            } else if has_field_prefix(term) && text::texts(accepted.fields@).contains(term) {
                term
            } else {
                quoted(term)
            }
        }),
{
    let times = text::texts(accepted.times@);
    let fields = text::texts(accepted.fields@);
    let term = text::trim(value);
    text::single_pieces_stay_as_they_are(value, '&', Seq::empty());
    lemma_one_alternative(value);
    let parts = seq![value];
    assert(parts.drop_last() =~= Seq::<Seq<char>>::empty());
    assert(parts.last() == value);
    assert(trimmed_terms(Seq::<Seq<char>>::empty()) =~= Seq::<Seq<char>>::empty());
    let terms = if term.len() > 0 {
        seq![term]
    } else {
        Seq::<Seq<char>>::empty()
    };
    assert(trimmed_terms(parts) =~= terms);
    lemma_one_group(terms, times, fields);
    if term.len() > 0 {
        assert(terms.drop_last() =~= Seq::<Seq<char>>::empty());
        assert(group_keywords(Seq::<Seq<char>>::empty(), times, fields) =~= Seq::<
            Seq<char>,
        >::empty());
        assert(terms.map_values(|term: Seq<char>| term_query(term, times, fields)) =~= seq![
            term_query(term, times, fields),
        ]);
        assert(group_keywords(terms, times, fields) =~= if is_keyword(term, times, fields) {
            seq![term]
        } else {
            Seq::<Seq<char>>::empty()
        });
    }
}

/// A literal is its text between quotes, with a backslash before each quote and each backslash
/// and every other character as it is.
pub proof fn literals_are_escaped_character_by_character(a: Seq<char>, c: char, b: Seq<char>)
    ensures
        quoted(a).len() >= 2,
        quoted(a)[0] == '"' && quoted(a).last() == '"',
        quoted(Seq::<char>::empty()) == seq!['"', '"'],
        quoted(a + b) == quoted(a).drop_last() + quoted(b).skip(1),
        quoted(seq![c]) == if c == '"' || c == '\\' {
            seq!['"', '\\', c, '"']
        } else {
            seq!['"', c, '"']
        },
    decreases b.len(),
{
    lemma_escaped_follow(a, b);
    assert(quoted(a + b) =~= quoted(a).drop_last() + quoted(b).skip(1));
    assert(quoted(Seq::<char>::empty()) =~= seq!['"', '"']);
    assert(seq![c].drop_last() =~= Seq::<char>::empty());
    assert(escaped(Seq::<char>::empty()) =~= Seq::<char>::empty());
    assert(escaped(seq![c]) =~= escaped_char(c));
    assert(quoted(seq![c]) =~= if c == '"' || c == '\\' {
        seq!['"', '\\', c, '"']
    } else {
        seq!['"', c, '"']
    });
}

proof fn lemma_escaped_follow(a: Seq<char>, b: Seq<char>)
    ensures
        escaped(a + b) == escaped(a) + escaped(b),
    decreases b.len(),
{
    if b.len() == 0 {
        assert(a + b =~= a);
    } else {
        assert((a + b).drop_last() =~= a + b.drop_last());
        lemma_escaped_follow(a, b.drop_last());
    }
    assert(escaped(a + b) =~= escaped(a) + escaped(b));
}

/// What a term in the prefix form `t:` asks for. It has one to four words. The first two of them
/// are a point in time, or else the first alone; the others, two at most, are a later one. Both
/// must be accepted as times. One point asks for all lines from then on, two for the lines from
/// the one to the other, both included.
pub proof fn times_are_ranges_of_one_or_two_points(value: Seq<char>, times: Seq<Seq<char>>)
    ensures
        ({
            let asked = time_shorthand(value, times);
            let words = text::words(value.skip(2));
            let open = |from: Seq<char>| Some("time>="@ + quoted(from));
            let closed = |from: Seq<char>, to: Seq<char>|
                Some("(time>="@ + quoted(from) + " and time<="@ + quoted(to) + ")"@);
            let pair = |i: int| words[i] + " "@ + words[i + 1];
            if value.len() < 2 || (value[0] != 't' && value[0] != 'T') || value[1] != ':' {
                asked is None
            } else if words.len() == 1 {
                asked == if times.contains(words[0]) {
                    open(words[0])
                } else {
                    None
                }
            } else if words.len() == 2 {
                asked == if times.contains(pair(0)) {
                    open(pair(0))
                } else if times.contains(words[0]) && times.contains(words[1]) {
                    closed(words[0], words[1])
                } else {
                    None
                }
            } else if words.len() == 3 {
                asked == if times.contains(pair(0)) && times.contains(words[2]) {
                    closed(pair(0), words[2])
                } else if times.contains(words[0]) && times.contains(pair(1)) {
                    closed(words[0], pair(1))
                } else {
                    None
                }
            } else if words.len() == 4 {
                asked == if times.contains(pair(0)) && times.contains(pair(2)) {
                    closed(pair(0), pair(2))
                } else {
                    None
                }
            } else {
                asked is None
            }
        }),
{
    let words = text::words(value.skip(2));
    let mark = " "@;
    if words.len() >= 1 {
        assert(words.take(1) =~= seq![words[0]]);
        assert(text::join(words.take(1), mark) == words[0]);
    }
    if words.len() == 2 {
        assert(words.skip(1) =~= seq![words[1]]);
    }
    if words.len() >= 2 {
        lemma_join_two(words[0], words[1], mark);
        assert(words.take(2) =~= seq![words[0], words[1]]);
    }
    if words.len() == 3 {
        lemma_join_two(words[1], words[2], mark);
        assert(words.skip(1) =~= seq![words[1], words[2]]);
        assert(words.skip(2) =~= seq![words[2]]);
    }
    if words.len() == 4 {
        lemma_join_two(words[2], words[3], mark);
        assert(words.skip(2) =~= seq![words[2], words[3]]);
    }
}

proof fn lemma_join_two(a: Seq<char>, b: Seq<char>, mark: Seq<char>)
    ensures
        text::join(seq![a, b], mark) == a + mark + b,
{
    let both = seq![a, b];
    assert(both.drop_last() =~= seq![a]);
    assert(text::join(seq![a], mark) == a);
}

/// How many suggestions are shown at most.
pub const SUGGESTION_LIMIT: usize = 16;

/// How many searches are remembered.
pub const MAX_SEARCH_HISTORY: usize = 20;

/// A suggestion from the field catalog of one file; the lower the score, the better it fits.
pub struct CatalogItem {
    pub score: i64,
    pub expression: String,
}

/// A suggestion with its place in its catalog and the tab of that catalog.
pub struct CatalogEntry {
    pub rank: usize,
    pub score: i64,
    pub tab: usize,
    pub expression: String,
}

impl Ranked for CatalogEntry {
    open spec fn before(&self, other: &Self) -> bool {
        if self.rank != other.rank {
            self.rank < other.rank
        } else if self.score != other.score {
            self.score < other.score
        } else if self.tab != other.tab {
            self.tab < other.tab
        } else {
            text::precedes(self.expression@, other.expression@)
        }
    }

    fn is_before(&self, other: &Self) -> bool {
        if self.rank != other.rank {
            self.rank < other.rank
        } else if self.score != other.score {
            self.score < other.score
        } else if self.tab != other.tab {
            self.tab < other.tab
        } else {
            text::text_precedes(&self.expression, &other.expression)
        }
    }
}

/// An earlier search that fits what was typed.
pub struct HistoryEntry {
    pub score: i64,
    pub query: String,
}

impl Ranked for HistoryEntry {
    open spec fn before(&self, other: &Self) -> bool {
        self.score < other.score
    }

    fn is_before(&self, other: &Self) -> bool {
        self.score < other.score
    }
}

/// Catalog suggestions can be put in order: by rank, score, tab and text.
pub proof fn catalog_entries_have_an_order()
    ensures
        order::is_weak_order::<CatalogEntry>(),
{
    assert forall|a: CatalogEntry, b: CatalogEntry, c: CatalogEntry| #[trigger]
        a.before(&b) && #[trigger] b.before(&c) implies a.before(&c) by {
        if text::precedes(a.expression@, b.expression@) && text::precedes(
            b.expression@,
            c.expression@,
        ) {
            text::precedes_is_transitive(a.expression@, b.expression@, c.expression@);
        }
    }
    assert forall|a: CatalogEntry, b: CatalogEntry| #[trigger] a.before(&b) implies !b.before(&a) by {
        if text::precedes(a.expression@, b.expression@) && text::precedes(
            b.expression@,
            a.expression@,
        ) {
            text::precedes_is_transitive(a.expression@, b.expression@, a.expression@);
            text::precedes_is_irreflexive(a.expression@);
        }
    }
    assert forall|a: CatalogEntry, b: CatalogEntry, c: CatalogEntry| #[trigger]
        a.before(&c) implies #[trigger] a.before(&b) || b.before(&c) by {
        if text::precedes(a.expression@, c.expression@) && a.expression@ != b.expression@ {
            text::precedes_is_total(a.expression@, b.expression@);
            if text::precedes(b.expression@, a.expression@) {
                text::precedes_is_transitive(b.expression@, a.expression@, c.expression@);
            }
        }
    }
}

/// Earlier searches can be put in order: by score.
pub proof fn history_entries_have_an_order()
    ensures
        order::is_weak_order::<HistoryEntry>(),
{
}

/// The first `count` items of a tab's catalog with their places.
pub open spec fn tab_entries(items: Seq<CatalogItem>, tab: nat, count: nat) -> Seq<CatalogEntry>
    decreases count,
{
    if count == 0 {
        Seq::empty()
    } else {
        let item = items[count - 1];
        tab_entries(items, tab, (count - 1) as nat).push(
            CatalogEntry {
                rank: (count - 1) as usize,
                score: item.score,
                tab: tab as usize,
                expression: item.expression,
            },
        )
    }
}

/// The items of the first `count` catalogs with their places.
pub open spec fn catalog_entries(catalogs: Seq<Vec<CatalogItem>>, count: nat) -> Seq<CatalogEntry>
    decreases count,
{
    if count == 0 {
        Seq::empty()
    } else {
        let items = catalogs[count - 1]@;
        catalog_entries(catalogs, (count - 1) as nat) + tab_entries(
            items,
            (count - 1) as nat,
            items.len(),
        )
    }
}

/// Those of the first `count` earlier searches that fit, with their scores.
pub open spec fn history_entries(
    history: Seq<String>,
    scores: Seq<Option<i64>>,
    count: nat,
) -> Seq<HistoryEntry>
    decreases count,
{
    if count == 0 {
        Seq::empty()
    } else {
        let before = history_entries(history, scores, (count - 1) as nat);
        if count <= scores.len() {
            match scores[count - 1] {
                Some(score) => before.push(HistoryEntry { score, query: history[count - 1] }),
                None => before,
            }
        } else {
            before
        }
    }
}

/// The texts of catalog suggestions.
pub open spec fn expressions(entries: Seq<CatalogEntry>) -> Seq<Seq<char>> {
    entries.map_values(|entry: CatalogEntry| entry.expression@)
}

/// The texts of earlier searches.
pub open spec fn queries(entries: Seq<HistoryEntry>) -> Seq<Seq<char>> {
    entries.map_values(|entry: HistoryEntry| entry.query@)
}

/// Suggestions with further ones, as far as they are new and there is room.
pub open spec fn extended(items: Seq<Seq<char>>, more: Seq<Seq<char>>) -> Seq<Seq<char>>
    decreases more.len(),
{
    if more.len() == 0 {
        items
    } else {
        let before = extended(items, more.drop_last());
        if before.len() < SUGGESTION_LIMIT && !before.contains(more.last()) {
            before.push(more.last())
        } else {
            before
        }
    }
}

/// What the box suggests: for an empty box the latest searches, else what the catalogs hold
/// and then which earlier searches fit, best first.
pub open spec fn suggested(
    value: Seq<char>,
    history: Seq<String>,
    catalogs: Seq<Vec<CatalogItem>>,
    scores: Seq<Option<i64>>,
) -> Seq<Seq<char>> {
    if text::trim(value).len() == 0 {
        let count = if history.len() <= SUGGESTION_LIMIT {
            history.len()
        } else {
            SUGGESTION_LIMIT as nat
        };
        text::texts(history).take(count as int)
    } else {
        extended(
            extended(
                Seq::empty(),
                expressions(order::in_order(catalog_entries(catalogs, catalogs.len()))),
            ),
            queries(order::in_order(history_entries(history, scores, history.len()))),
        )
    }
}

/// Each suggestion stands once, and there are no more than are shown.
pub proof fn suggestions_are_few_and_distinct(items: Seq<Seq<char>>, more: Seq<Seq<char>>)
    requires
        items.no_duplicates(),
        items.len() <= SUGGESTION_LIMIT,
    ensures
        extended(items, more).no_duplicates(),
        extended(items, more).len() <= SUGGESTION_LIMIT,
    decreases more.len(),
{
    if more.len() > 0 {
        suggestions_are_few_and_distinct(items, more.drop_last());
        let before = extended(items, more.drop_last());
        if before.len() < SUGGESTION_LIMIT && !before.contains(more.last()) {
            let after = before.push(more.last());
            assert forall|i: int, j: int| 0 <= i < j < after.len() implies after[i] != after[j] by {
                if j == before.len() {
                    assert(before.contains(before[i]));
                }
            }
        }
    }
}

/// Whether a text is in a list.
pub fn listed(items: &Vec<String>, value: &String) -> (r: bool)
    ensures
        r == text::texts(items@).contains(value@),
{
    let ghost all = text::texts(items@);
    let mut i: usize = 0;
    while i < items.len()
        invariant
            i <= items@.len(),
            all == text::texts(items@),
            forall|k: int| 0 <= k < i ==> #[trigger] all[k] != value@,
        decreases items@.len() - i,
    {
        assert(all[i as int] == items@[i as int]@);
        if items[i] == *value {
            return true;
        }
        i += 1;
    }
    false
}

/// Adds a suggestion if it is new and there is room.
fn suggest(items: &mut Vec<String>, value: &String)
    ensures
        text::texts(final(items)@) == if text::texts(old(items)@).len() < SUGGESTION_LIMIT
            && !text::texts(old(items)@).contains(value@) {
            text::texts(old(items)@).push(value@)
        } else {
            text::texts(old(items)@)
        },
{
    if items.len() < SUGGESTION_LIMIT && !listed(items, value) {
        let ghost before = items@;
        items.push(value.clone());
        assert(text::texts(items@) =~= text::texts(before).push(value@));
    }
}

/// The catalogs' items with their places.
fn gather_catalogs(catalogs: &Vec<Vec<CatalogItem>>) -> (r: Vec<CatalogEntry>)
    ensures
        r@ == catalog_entries(catalogs@, catalogs@.len()),
{
    let mut out: Vec<CatalogEntry> = Vec::new();
    let mut tab: usize = 0;
    while tab < catalogs.len()
        invariant
            tab <= catalogs@.len(),
            out@ == catalog_entries(catalogs@, tab as nat),
        decreases catalogs@.len() - tab,
    {
        let items = &catalogs[tab];
        let ghost before = out@;
        let mut rank: usize = 0;
        assert(before + tab_entries(items@, tab as nat, 0) =~= before);
        while rank < items.len()
            invariant
                rank <= items@.len(),
                out@ == before + tab_entries(items@, tab as nat, rank as nat),
            decreases items@.len() - rank,
        {
            out.push(
                CatalogEntry {
                    rank,
                    score: items[rank].score,
                    tab,
                    expression: items[rank].expression.clone(),
                },
            );
            rank += 1;
            assert(out@ =~= before + tab_entries(items@, tab as nat, rank as nat));
        }
        tab += 1;
    }
    out
}

/// The earlier searches that fit, with their scores.
fn gather_history(history: &Vec<String>, scores: &Vec<Option<i64>>) -> (r: Vec<HistoryEntry>)
    ensures
        r@ == history_entries(history@, scores@, history@.len()),
{
    let mut out: Vec<HistoryEntry> = Vec::new();
    let mut i: usize = 0;
    while i < history.len()
        invariant
            i <= history@.len(),
            out@ == history_entries(history@, scores@, i as nat),
        decreases history@.len() - i,
    {
        if i < scores.len() {
            if let Some(score) = scores[i] {
                out.push(HistoryEntry { score, query: history[i].clone() });
            }
        }
        i += 1;
    }
    out
}

/// The search box.
pub struct SearchBox {
    pub history: Vec<String>,
    pub suggestions: Vec<String>,
    pub open: bool,
    pub index: Option<usize>,
}

/// What is to be done with a value that was chosen for the box.
#[derive(Clone, Copy, Debug, PartialEq, Eq, Structural)]
pub enum Acceptance {
    /// The value is the beginning of a comparison: go on typing.
    Continue,
    /// The value is complete: search for it.
    Search,
}

impl SearchBox {
    /// The chosen suggestion is one of those shown, and the history is not too long.
    pub open spec fn wf(&self) -> bool {
        &&& self.index matches Some(index) ==> index < self.suggestions@.len()
        &&& self.history@.len() <= MAX_SEARCH_HISTORY
    }

    /// Shows new suggestions for a value. `scores` says of each earlier search whether and how
    /// well it fits.
    pub fn refresh_search_suggestions(
        &mut self,
        value: &str,
        catalogs: &Vec<Vec<CatalogItem>>,
        scores: &Vec<Option<i64>>,
    )
        ensures
            text::texts(final(self).suggestions@) == suggested(
                value@,
                old(self).history@,
                catalogs@,
                scores@,
            ),
            final(self).open == (text::trim(value@).len() > 0 && final(self).suggestions@.len() > 0),
            final(self).index is None,
            final(self).history == old(self).history,
            old(self).wf() ==> final(self).wf(),
    {
        let blank = text::trimmed(&text::chars_of(value)).len() == 0;
        let mut items: Vec<String> = Vec::new();
        if blank {
            let ghost all = text::texts(self.history@);
            let mut i: usize = 0;
            while i < self.history.len() && i < SUGGESTION_LIMIT
                invariant
                    i <= self.history@.len(),
                    i <= SUGGESTION_LIMIT,
                    self.history == old(self).history,
                    all == text::texts(self.history@),
                    text::texts(items@) == all.take(i as int),
                decreases self.history@.len() - i,
            {
                let ghost before = items@;
                items.push(self.history[i].clone());
                assert(text::texts(items@) =~= text::texts(before).push(all[i as int]));
                assert(all.take(i + 1) =~= all.take(i as int).push(all[i as int]));
                i += 1;
            }
        } else {
            let found = order::put_in_order(gather_catalogs(catalogs));
            let ghost more = expressions(found@);
            let mut i: usize = 0;
            assert(text::texts(items@) =~= extended(Seq::empty(), more.take(0)));
            while i < found.len()
                invariant
                    i <= found@.len(),
                    more == expressions(found@),
                    text::texts(items@) == extended(Seq::empty(), more.take(i as int)),
                decreases found@.len() - i,
            {
                assert(more.take(i + 1).drop_last() =~= more.take(i as int));
                assert(more.take(i + 1).last() == found@[i as int].expression@);
                suggest(&mut items, &found[i].expression);
                i += 1;
            }
            assert(more.take(i as int) =~= more);
            let ghost first = text::texts(items@);
            let past = order::put_in_order(gather_history(&self.history, scores));
            let ghost rest = queries(past@);
            let mut i: usize = 0;
            assert(text::texts(items@) =~= extended(first, rest.take(0)));
            while i < past.len()
                invariant
                    i <= past@.len(),
                    rest == queries(past@),
                    text::texts(items@) == extended(first, rest.take(i as int)),
                decreases past@.len() - i,
            {
                assert(rest.take(i + 1).drop_last() =~= rest.take(i as int));
                assert(rest.take(i + 1).last() == past@[i as int].query@);
                suggest(&mut items, &past[i].query);
                i += 1;
            }
            assert(rest.take(i as int) =~= rest);
        }
        self.open = !blank && items.len() > 0;
        self.suggestions = items;
        self.index = None;
    }

    /// What is searched for when the typed text is entered: the chosen suggestion, if there is
    /// one, or else what was typed.
    pub fn entered(&self, typed: &str) -> (r: String)
        ensures
            r@ == match self.index {
                Some(index) => if index < self.suggestions@.len() {
                    self.suggestions@[index as int]@
                } else {
                    typed@
                },
                None => typed@,
            },
    {
        match self.index {
            Some(index) => if index < self.suggestions.len() {
                self.suggestions[index].clone()
            } else {
                typed.to_owned()
            },
            None => typed.to_owned(),
        }
    }

    /// Takes over a chosen value. One that ends in a colon or an equals sign is not complete.
    pub fn accept_search_value(&mut self, value: &str) -> (r: Acceptance)
        ensures
            final(self).index is None,
            final(self).history == old(self).history,
            final(self).suggestions == old(self).suggestions,
            match r {
                Acceptance::Continue => value@.len() > 0 && (value@.last() == ':' || value@.last()
                    == '=') && final(self).open == old(self).open,
                Acceptance::Search => !(value@.len() > 0 && (value@.last() == ':' || value@.last()
                    == '=')) && !final(self).open,
            },
            old(self).wf() ==> final(self).wf(),
    {
        self.index = None;
        let chars = text::chars_of(value);
        let n = chars.len();
        if n > 0 && (chars[n - 1] == ':' || chars[n - 1] == '=') {
            Acceptance::Continue
        } else {
            self.open = false;
            Acceptance::Search
        }
    }

    /// Moves the choice one suggestion down or up and shows the suggestions. The first step
    /// goes to the first or the last one; at the ends the choice stays.
    pub fn move_search_suggestion(&mut self, down: bool)
        requires
            old(self).wf(),
        ensures
            final(self).wf(),
            final(self).history == old(self).history,
            final(self).suggestions == old(self).suggestions,
            old(self).suggestions@.len() == 0 ==> *final(self) == *old(self),
            old(self).suggestions@.len() > 0 ==> {
                let last = old(self).suggestions@.len() - 1;
                &&& final(self).open
                &&& final(self).index == Some(
                    match old(self).index {
                        None => if down {
                            0
                        } else {
                            last as usize
                        },
                        Some(index) => if down {
                            if index < last {
                                (index + 1) as usize
                            } else {
                                last as usize
                            }
                        } else if index > 0 {
                            (index - 1) as usize
                        } else {
                            0
                        },
                    },
                )
            },
    {
        if self.suggestions.len() == 0 {
            return ;
        }
        self.open = true;
        let last: usize = self.suggestions.len() - 1;
        let next: usize = match self.index {
            None => if down {
                0
            } else {
                last
            },
            Some(index) => if down {
                if index < last {
                    index + 1
                } else {
                    last
                }
            } else if index > 0 {
                index - 1
            } else {
                0
            },
        };
        self.index = Some(next);
    }

    /// Puts a search at the front of the history.
    pub fn remember_search(&mut self, query: &str)
        ensures
            text::texts(final(self).history@) == remembered(
                text::texts(old(self).history@),
                query@,
                MAX_SEARCH_HISTORY as nat,
            ),
            final(self).suggestions == old(self).suggestions,
            final(self).open == old(self).open,
            final(self).index == old(self).index,
            old(self).wf() ==> final(self).wf(),
    {
        let ghost all = text::texts(self.history@);
        let wanted = query.to_owned();
        let mut kept: Vec<String> = Vec::new();
        let mut i: usize = 0;
        assert(text::texts(kept@) =~= without(all.take(0), query@));
        while i < self.history.len()
            invariant
                i <= self.history@.len(),
                all == text::texts(self.history@),
                wanted@ == query@,
                self.suggestions == old(self).suggestions,
                self.open == old(self).open,
                self.index == old(self).index,
                self.history == old(self).history,
                text::texts(kept@) == without(all.take(i as int), query@),
            decreases self.history@.len() - i,
        {
            assert(all.take(i + 1).drop_last() =~= all.take(i as int));
            assert(all.take(i + 1).last() == self.history@[i as int]@);
            if self.history[i] != wanted {
                let ghost before = kept@;
                kept.push(self.history[i].clone());
                assert(text::texts(kept@) =~= text::texts(before).push(all[i as int]));
            }
            i += 1;
        }
        assert(all.take(i as int) =~= all);
        let ghost rest = kept@;
        kept.insert(0, wanted);
        assert(text::texts(kept@) =~= seq![query@] + text::texts(rest));
        let ghost full = text::texts(kept@);
        kept.truncate(MAX_SEARCH_HISTORY);
        assert(text::texts(kept@) =~= if full.len() <= MAX_SEARCH_HISTORY {
            full
        } else {
            full.take(MAX_SEARCH_HISTORY as int)
        });
        self.history = kept;
    }

    /// Forgets all searches.
    pub fn clear_search_history(&mut self)
        ensures
            final(self).history@.len() == 0,
            final(self).suggestions == old(self).suggestions,
            final(self).open == old(self).open,
            final(self).index == old(self).index,
            old(self).wf() ==> final(self).wf(),
    {
        self.history = Vec::new();
    }
}

/// The texts that differ from one.
pub open spec fn without(items: Seq<Seq<char>>, value: Seq<char>) -> Seq<Seq<char>>
    decreases items.len(),
{
    if items.len() == 0 {
        Seq::empty()
    } else if items.last() != value {
        without(items.drop_last(), value).push(items.last())
    } else {
        without(items.drop_last(), value)
    }
}

/// A list with one text put to its front, cut off at a length.
pub open spec fn remembered(
    items: Seq<Seq<char>>,
    value: Seq<char>,
    limit: nat,
) -> Seq<Seq<char>> {
    let all = seq![value] + without(items, value);
    if all.len() <= limit {
        all
    } else {
        all.take(limit as int)
    }
}

proof fn lemma_without(items: Seq<Seq<char>>, value: Seq<char>)
    ensures
        !without(items, value).contains(value),
        without(items, value).len() <= items.len(),
        items.no_duplicates() ==> without(items, value).no_duplicates(),
        forall|other: Seq<char>| #[trigger]
            without(items, value).contains(other) ==> items.contains(other),
    decreases items.len(),
{
    if items.len() > 0 {
        let rest = items.drop_last();
        lemma_without(rest, value);
        let before = without(rest, value);
        let after = without(items, value);
        assert forall|other: Seq<char>| #[trigger] after.contains(other) implies items.contains(
            other,
        ) && (other != value) by {
            let k = choose|k: int| 0 <= k < after.len() && after[k] == other;
            if k < before.len() {
                assert(before[k] == other);
                assert(before.contains(other));
                let m = choose|m: int| 0 <= m < rest.len() && rest[m] == other;
                assert(items[m] == other);
            } else {
                assert(items[items.len() - 1] == other);
            }
        }
        if items.no_duplicates() {
            assert(rest.no_duplicates());
            assert forall|i: int, j: int| 0 <= i < j < after.len() implies after[i] != after[j] by {
                if j == before.len() {
                    assert(before.contains(before[i]));
                    let m = choose|m: int| 0 <= m < rest.len() && rest[m] == before[i];
                    assert(items[m] == after[i]);
                }
            }
        }
    }
}

/// A remembered text stands first and once; a list without repetitions stays without, and
/// nothing but the new text is added.
pub proof fn remembering_keeps_the_list_distinct(
    items: Seq<Seq<char>>,
    value: Seq<char>,
    limit: nat,
)
    requires
        limit >= 1,
    ensures
        remembered(items, value, limit).len() >= 1,
        remembered(items, value, limit).len() <= limit,
        remembered(items, value, limit)[0] == value,
        items.no_duplicates() ==> remembered(items, value, limit).no_duplicates(),
        forall|other: Seq<char>| #[trigger]
            remembered(items, value, limit).contains(other) ==> other == value || items.contains(
                other,
            ),
{
    lemma_without(items, value);
    let rest = without(items, value);
    let after = remembered(items, value, limit);
    assert forall|other: Seq<char>| #[trigger] after.contains(other) implies other == value
        || items.contains(other) by {
        let k = choose|k: int| 0 <= k < after.len() && after[k] == other;
        if k > 0 {
            assert(rest[k - 1] == other);
            assert(rest.contains(other));
        }
    }
    if items.no_duplicates() {
        assert forall|i: int, j: int| 0 <= i < j < after.len() implies after[i] != after[j] by {
            assert(rest.contains(rest[j - 1]));
            if i > 0 {
                assert(rest[i - 1] != rest[j - 1]);
            }
        }
    }
}

/// A value that is remembered stands first, and behind it all others that were there, in their
/// order, as many as the limit allows.
pub proof fn remembered_values_stand_first(
    items: Seq<Seq<char>>,
    value: Seq<char>,
    limit: nat,
)
    ensures
        without(items, value) == items.filter(|item: Seq<char>| item != value),
        ({
            let all = seq![value] + items.filter(|item: Seq<char>| item != value);
            remembered(items, value, limit) == all.take(
                if all.len() <= limit {
                    all.len() as int
                } else {
                    limit as int
                },
            )
        }),
    decreases items.len(),
{
    reveal(Seq::filter);
    if items.len() > 0 {
        remembered_values_stand_first(items.drop_last(), value, limit);
    }
    assert(without(items, value) =~= items.filter(|item: Seq<char>| item != value));
    let all = seq![value] + items.filter(|item: Seq<char>| item != value);
    assert(all.take(all.len() as int) =~= all);
}

/// Suggestions are added in their order, each that is not there yet, until there are sixteen: what
/// is there keeps its place, nothing else comes in, and nothing is left out while there is room.
pub proof fn suggestions_are_added_while_there_is_room(
    items: Seq<Seq<char>>,
    more: Seq<Seq<char>>,
    next: Seq<char>,
)
    requires
        items.len() <= 16,
    ensures
        ({
            let after = extended(items, more);
            &&& items.len() <= after.len() <= 16
            &&& after.take(items.len() as int) == items
            &&& forall|i: int|
                items.len() <= i < after.len() ==> more.contains(#[trigger] after[i])
            &&& after.len() < 16 ==> forall|k: int|
                0 <= k < more.len() ==> after.contains(#[trigger] more[k])
            &&& extended(items, more.push(next)) == if after.len() < 16 && !after.contains(next) {
                after.push(next)
            } else {
                after
            }
        }),
    decreases more.len(),
{
    let after = extended(items, more);
    assert(more.push(next).drop_last() =~= more);
    if more.len() == 0 {
        assert(after.take(items.len() as int) =~= items);
    } else {
        let rest = more.drop_last();
        let before = extended(items, rest);
        suggestions_are_added_while_there_is_room(items, rest, next);
        assert(after.take(items.len() as int) =~= before.take(items.len() as int));
        assert forall|i: int| items.len() <= i < after.len() implies more.contains(
            #[trigger] after[i],
        ) by {
            if i < before.len() {
                assert(rest.contains(before[i]));
                let k = choose|k: int| 0 <= k < rest.len() && rest[k] == before[i];
                assert(more[k] == after[i]);
            } else {
                assert(more[more.len() - 1] == after[i]);
            }
        }
        if after.len() < 16 {
            assert forall|k: int| 0 <= k < more.len() implies after.contains(#[trigger] more[k]) by {
                if k < rest.len() {
                    assert(before.contains(rest[k]));
                    let i = choose|i: int| 0 <= i < before.len() && before[i] == rest[k];
                    assert(after[i] == more[k]);
                } else if !before.contains(more.last()) {
                    assert(after[before.len() as int] == more[k]);
                }
            }
        }
    }
}

/// The suggestions of a catalog carry their place in it and the number of its tab; those of the
/// history are the searches that have a score.
pub proof fn suggestions_come_from_catalogs_and_history(
    items: Seq<CatalogItem>,
    tab: nat,
    catalogs: Seq<Vec<CatalogItem>>,
    count: nat,
    history: Seq<String>,
    scores: Seq<Option<i64>>,
)
    requires
        count < catalogs.len(),
    ensures
        tab_entries(items, tab, items.len()) == Seq::new(
            items.len(),
            |i: int|
                CatalogEntry {
                    rank: i as usize,
                    score: items[i].score,
                    tab: tab as usize,
                    expression: items[i].expression,
                },
        ),
        catalog_entries(catalogs, 0) == Seq::<CatalogEntry>::empty(),
        catalog_entries(catalogs, count + 1) == catalog_entries(catalogs, count) + Seq::new(
            catalogs[count as int]@.len(),
            |i: int|
                CatalogEntry {
                    rank: i as usize,
                    score: catalogs[count as int]@[i].score,
                    tab: count as usize,
                    expression: catalogs[count as int]@[i].expression,
                },
        ),
        history_entries(history, scores, history.len()) == Seq::new(
            history.len(),
            |i: int| i,
        ).filter_map(
            |i: int|
                if i < scores.len() && scores[i] is Some {
                    Some(HistoryEntry { score: scores[i].unwrap(), query: history[i] })
                } else {
                    None
                },
        ),
{
    lemma_tab_entries(items, tab, items.len());
    lemma_tab_entries(catalogs[count as int]@, count, catalogs[count as int]@.len());
    lemma_history_entries(history, scores, history.len());
}

proof fn lemma_tab_entries(items: Seq<CatalogItem>, tab: nat, count: nat)
    requires
        count <= items.len(),
    ensures
        tab_entries(items, tab, count) == Seq::new(
            count,
            |i: int|
                CatalogEntry {
                    rank: i as usize,
                    score: items[i].score,
                    tab: tab as usize,
                    expression: items[i].expression,
                },
        ),
    decreases count,
{
    if count > 0 {
        lemma_tab_entries(items, tab, (count - 1) as nat);
    }
    assert(tab_entries(items, tab, count) =~= Seq::new(
        count,
        |i: int|
            CatalogEntry {
                rank: i as usize,
                score: items[i].score,
                tab: tab as usize,
                expression: items[i].expression,
            },
    ));
}

proof fn lemma_history_entries(history: Seq<String>, scores: Seq<Option<i64>>, count: nat)
    requires
        count <= history.len(),
    ensures
        history_entries(history, scores, count) == Seq::new(count, |i: int| i).filter_map(
            |i: int|
                if i < scores.len() && scores[i] is Some {
                    Some(HistoryEntry { score: scores[i].unwrap(), query: history[i] })
                } else {
                    None
                },
        ),
    decreases count,
{
    let places = Seq::new(count, |i: int| i);
    if count > 0 {
        lemma_history_entries(history, scores, (count - 1) as nat);
        assert(places.drop_last() =~= Seq::new((count - 1) as nat, |i: int| i));
        assert(places.last() == count - 1);
    }
    assert(history_entries(history, scores, count) =~= places.filter_map(
        |i: int|
            if i < scores.len() && scores[i] is Some {
                Some(HistoryEntry { score: scores[i].unwrap(), query: history[i] })
            } else {
                None
            },
    ));
}

/// What is suggested: for a blank value the latest sixteen searches; for any other first what the
/// catalogs offer, the best first, and then what the history offers, the best first.
pub proof fn catalogs_are_suggested_before_the_history(
    value: Seq<char>,
    history: Seq<String>,
    catalogs: Seq<Vec<CatalogItem>>,
    scores: Seq<Option<i64>>,
)
    ensures
        text::trim(value).len() == 0 ==> suggested(value, history, catalogs, scores) == text::texts(
            history,
        ).take(
            if history.len() <= 16 {
                history.len() as int
            } else {
                16
            },
        ),
        text::trim(value).len() > 0 ==> exists|found: Seq<CatalogEntry>, known: Seq<HistoryEntry>|
            #![trigger expressions(found), queries(known)]
            {
                &&& found.to_multiset() == catalog_entries(
                    catalogs,
                    catalogs.len(),
                ).to_multiset()
                &&& known.to_multiset() == history_entries(
                    history,
                    scores,
                    history.len(),
                ).to_multiset()
                &&& order::is_ordered(found)
                &&& order::is_ordered(known)
                &&& suggested(value, history, catalogs, scores) == extended(
                    extended(Seq::empty(), expressions(found)),
                    queries(known),
                )
            },
{
    catalog_entries_have_an_order();
    history_entries_have_an_order();
    let offered = catalog_entries(catalogs, catalogs.len());
    let asked = history_entries(history, scores, history.len());
    order::in_order_is_a_sort(offered);
    order::in_order_is_a_sort(asked);
    let found = order::in_order(offered);
    let known = order::in_order(asked);
    assert(expressions(found) == expressions(found) && queries(known) == queries(known));
}

/// A term begins like a comparison of a field if, behind white space and in letters of any size,
/// it begins with the name of a field and a sign that compares it, and in no other case.
pub proof fn comparisons_begin_with_a_field_and_a_sign(value: Seq<char>)
    ensures
        ({
            let starts = seq![
                "level="@,
                "level!="@,
                "lvl="@,
                "priority="@,
                "pid="@,
                "pid!="@,
                "pid>"@,
                "pid<"@,
                "tid="@,
                "tid!="@,
                "tid>"@,
                "tid<"@,
                "tag:"@,
                "tag="@,
                "tag!="@,
                "tag~"@,
                "tag!~"@,
                "msg:"@,
                "msg="@,
                "msg!="@,
                "msg~"@,
                "msg!~"@,
                "message:"@,
                "text:"@,
                "is:"@,
            ];
            has_field_prefix(value) <==> exists|k: int|
                0 <= k < starts.len() && text::starts_with(
                    text::lower(text::trim_start(value)),
                    #[trigger] starts[k],
                )
        }),
{
    let lower = text::lower(text::trim_start(value));
    let all = seq![
        "level="@,
        "level!="@,
        "lvl="@,
        "priority="@,
        "pid="@,
        "pid!="@,
        "pid>"@,
        "pid<"@,
        "tid="@,
        "tid!="@,
        "tid>"@,
        "tid<"@,
        "tag:"@,
        "tag="@,
        "tag!="@,
        "tag~"@,
        "tag!~"@,
        "msg:"@,
        "msg="@,
        "msg!="@,
        "msg~"@,
        "msg!~"@,
        "message:"@,
        "text:"@,
        "is:"@,
    ];
    assert(all.len() == 25);
    if has_field_prefix(value) {
        assert(text::starts_with(lower, all[0]) || text::starts_with(lower, all[1])
            || text::starts_with(lower, all[2]) || text::starts_with(lower, all[3])
            || text::starts_with(lower, all[4]) || text::starts_with(lower, all[5])
            || text::starts_with(lower, all[6]) || text::starts_with(lower, all[7])
            || text::starts_with(lower, all[8]) || text::starts_with(lower, all[9])
            || text::starts_with(lower, all[10]) || text::starts_with(lower, all[11])
            || text::starts_with(lower, all[12]) || text::starts_with(lower, all[13])
            || text::starts_with(lower, all[14]) || text::starts_with(lower, all[15])
            || text::starts_with(lower, all[16]) || text::starts_with(lower, all[17])
            || text::starts_with(lower, all[18]) || text::starts_with(lower, all[19])
            || text::starts_with(lower, all[20]) || text::starts_with(lower, all[21])
            || text::starts_with(lower, all[22]) || text::starts_with(lower, all[23])
            || text::starts_with(lower, all[24]));
    }
    if exists|k: int|
        #![trigger all[k]]
        0 <= k < all.len() && text::starts_with(lower, all[k]) {
        let k = choose|k: int|
            #![trigger all[k]]
            0 <= k < all.len() && text::starts_with(lower, all[k]);
        assert(k == 0 || k == 1 || k == 2 || k == 3 || k == 4 || k == 5 || k == 6 || k == 7 || k
            == 8 || k == 9 || k == 10 || k == 11 || k == 12 || k == 13 || k == 14 || k == 15 || k
            == 16 || k == 17 || k == 18 || k == 19 || k == 20 || k == 21 || k == 22 || k == 23 || k
            == 24);
    }
}

/// Reading two texts without a bar and both of them with an ampersand between: the keywords are
/// those of the one and then those of the other, and where each asks for a single term, the
/// query is both terms in brackets with `and` between them.
pub proof fn both_terms_are_asked_for(
    a: &str,
    b: &str,
    both: &str,
    accepted: &AcceptedTerms,
    first: SearchExpression,
    second: SearchExpression,
    whole: SearchExpression,
)
    requires
        !a@.contains('|'),
        !b@.contains('|'),
        both@ == a@ + seq!['&'] + b@,
        call_ensures(parse_search_expression, (a, accepted), first),
        call_ensures(parse_search_expression, (b, accepted), second),
        call_ensures(parse_search_expression, (both, accepted), whole),
    ensures
        text::texts(whole.keywords@) == text::texts(first.keywords@) + text::texts(
            second.keywords@,
        ),
        first.query@.len() == 0 ==> whole.query@ == second.query@,
        second.query@.len() == 0 ==> whole.query@ == first.query@,
        first.query@.len() > 0 && second.query@.len() > 0 && has_one_term(a@) && has_one_term(b@)
            ==> whole.query@ == "("@ + (first.query@ + " and "@ + second.query@) + ")"@,
        first.query@.len() > 0 && second.query@.len() > 0 && !has_one_term(a@) && has_one_term(b@)
            ==> whole.query@ == first.query@.drop_last() + " and "@ + second.query@ + ")"@,
{
    let inner = an_ampersand_asks_for_both_sides(a@, b@, *accepted);
    reveal_strlit("(");
    reveal_strlit(")");
    if first.query@.len() > 0 && second.query@.len() > 0 && !has_one_term(a@) && has_one_term(b@) {
        assert(("("@ + inner.0 + ")"@).drop_last() =~= "("@ + inner.0);
        assert(whole.query@ =~= first.query@.drop_last() + " and "@ + second.query@ + ")"@);
    }
}

/// Reading two texts and both of them with a bar between: the keywords are those of the one and
/// then those of the other, and where both ask for something, the query is either of them.
pub proof fn either_side_is_asked_for(
    a: &str,
    b: &str,
    both: &str,
    accepted: &AcceptedTerms,
    first: SearchExpression,
    second: SearchExpression,
    whole: SearchExpression,
)
    requires
        both@ == a@ + seq!['|'] + b@,
        call_ensures(parse_search_expression, (a, accepted), first),
        call_ensures(parse_search_expression, (b, accepted), second),
        call_ensures(parse_search_expression, (both, accepted), whole),
    ensures
        text::texts(whole.keywords@) == text::texts(first.keywords@) + text::texts(
            second.keywords@,
        ),
        first.query@.len() == 0 ==> whole.query@ == second.query@,
        second.query@.len() == 0 ==> whole.query@ == first.query@,
        first.query@.len() > 0 && second.query@.len() > 0 ==> whole.query@ == first.query@
            + " or "@ + second.query@,
{
    a_bar_asks_for_either_side(a@, b@, *accepted);
    if first.query@.len() == 0 && second.query@.len() == 0 {
        assert(first.query@ =~= second.query@);
    }
}

} // verus!
