//! The status bar.

use crate::i18n;
use crate::i18n::{Key, Language};
use crate::text;
use vstd::prelude::*;

verus! {

/// What the status bar says of the active log. Progress comes as a rounded percentage.
pub struct ViewStatus {
    pub total_lines: u64,
    pub index_complete: bool,
    pub top_line: Option<u64>,
    pub encoding: String,
    pub matches: Option<u64>,
    pub indexing: Option<u64>,
    pub filtering: Option<u64>,
    pub from_cache: bool,
    pub error: Option<String>,
}

/// What is going on over all files: a search, as a rounded percentage, and the extraction of
/// the table, with a word for each.
pub struct Work {
    pub search_word: String,
    pub searching: Option<u64>,
    pub table_word: String,
    pub extracting: bool,
}

/// A word, a space and a percentage.
pub open spec fn progress_words(word: Seq<char>, percent: u64) -> Seq<char> {
    word + " "@ + text::decimal(percent as nat) + "%"@
}

/// A word, a space and a percentage.
pub fn progress_label(word: &str, percent: u64) -> (r: String)
    ensures
        r@ == progress_words(word@, percent),
{
    text::concat4(word, " ", &text::decimal_text(percent), "%")
}

/// How many lines there are. A plus sign says that there may be more.
pub open spec fn lines_words(view: ViewStatus, lang: Language) -> Seq<char> {
    text::grouped(text::decimal(view.total_lines as nat)) + (if view.index_complete {
        ""@
    } else {
        "+"@
    }) + " "@ + i18n::translation(Key::Lines, lang)@
}

/// Which line is at the top, counted from one; zero where there is none.
pub open spec fn top_words(view: ViewStatus, lang: Language) -> Seq<char> {
    i18n::translation(Key::Line, lang)@ + " "@ + text::grouped(
        text::decimal(
            match view.top_line {
                Some(line) => (line + 1) as nat,
                None => 0,
            },
        ),
    )
}

/// A part that is there or not.
pub open spec fn part(there: bool, words: Seq<char>) -> Seq<Seq<char>> {
    if there {
        seq![words]
    } else {
        Seq::empty()
    }
}

/// The parts that speak of the active log.
pub open spec fn view_parts(view: ViewStatus, lang: Language) -> Seq<Seq<char>> {
    seq![lines_words(view, lang), top_words(view, lang), view.encoding@] + part(
        view.matches is Some,
        i18n::translation(Key::Matches, lang)@ + " "@ + text::grouped(
            text::decimal(view.matches.unwrap() as nat),
        ),
    ) + part(
        view.indexing is Some,
        progress_words(i18n::translation(Key::Indexing, lang)@, view.indexing.unwrap()),
    ) + part(
        view.filtering is Some,
        progress_words(i18n::translation(Key::Filtering, lang)@, view.filtering.unwrap()),
    ) + part(view.from_cache, i18n::translation(Key::Cache, lang)@) + part(
        view.error is Some,
        view.error.unwrap()@,
    )
}

/// The parts that speak of what is going on over all files.
pub open spec fn work_parts(work: Work) -> Seq<Seq<char>> {
    part(
        work.searching is Some,
        progress_words(work.search_word@, work.searching.unwrap()),
    ) + part(work.extracting, work.table_word@)
}

/// The parts of the status bar: those of the active log, or that the application is ready, what
/// happened last, and what is going on over all files.
pub open spec fn status_parts(
    view: Option<ViewStatus>,
    status: Option<Seq<char>>,
    work: Work,
    lang: Language,
) -> Seq<Seq<char>> {
    (match view {
        Some(view) => view_parts(view, lang),
        None => seq![i18n::translation(Key::Ready, lang)@],
    }) + part(status is Some, status.unwrap()) + work_parts(work)
}

fn add_part(out: &mut Vec<String>, words: String)
    ensures
        text::texts(final(out)@) == text::texts(old(out)@) + seq![words@],
{
    let ghost before = out@;
    out.push(words);
    assert(text::texts(out@) =~= text::texts(before) + seq![words@]);
}

fn view_words(view: &ViewStatus, lang: Language) -> (r: Vec<String>)
    requires
        view.top_line matches Some(line) ==> line < u64::MAX,
    ensures
        text::texts(r@) == view_parts(*view, lang),
{
    let mut out: Vec<String> = Vec::new();
    let suffix = if view.index_complete {
        ""
    } else {
        "+"
    };
    let lines = text::concat4(
        &text::group(view.total_lines),
        suffix,
        " ",
        i18n::text(Key::Lines, lang),
    );
    add_part(&mut out, lines);
    let top: u64 = match view.top_line {
        Some(line) => line + 1,
        None => 0,
    };
    add_part(&mut out, text::concat3(i18n::text(Key::Line, lang), " ", &text::group(top)));
    add_part(&mut out, view.encoding.clone());
    assert(text::texts(out@) =~= seq![
        lines_words(*view, lang),
        top_words(*view, lang),
        view.encoding@,
    ]);
    let ghost a = text::texts(out@);
    if let Some(count) = view.matches {
        add_part(
            &mut out,
            text::concat3(i18n::text(Key::Matches, lang), " ", &text::group(count)),
        );
    }
    let ghost b = text::texts(out@);
    if let Some(percent) = view.indexing {
        add_part(&mut out, progress_label(i18n::text(Key::Indexing, lang), percent));
    }
    let ghost c = text::texts(out@);
    if let Some(percent) = view.filtering {
        add_part(&mut out, progress_label(i18n::text(Key::Filtering, lang), percent));
    }
    let ghost d = text::texts(out@);
    if view.from_cache {
        add_part(&mut out, i18n::text(Key::Cache, lang).to_owned());
    }
    let ghost e = text::texts(out@);
    if let Some(error) = &view.error {
        add_part(&mut out, error.clone());
    }
    assert(b =~= a + part(
        view.matches is Some,
        i18n::translation(Key::Matches, lang)@ + " "@ + text::grouped(
            text::decimal(view.matches.unwrap() as nat),
        ),
    ));
    assert(c =~= b + part(
        view.indexing is Some,
        progress_words(i18n::translation(Key::Indexing, lang)@, view.indexing.unwrap()),
    ));
    assert(d =~= c + part(
        view.filtering is Some,
        progress_words(i18n::translation(Key::Filtering, lang)@, view.filtering.unwrap()),
    ));
    assert(e =~= d + part(view.from_cache, i18n::translation(Key::Cache, lang)@));
    assert(text::texts(out@) =~= e + part(view.error is Some, view.error.unwrap()@));
    out
}

/// The parts of the status bar.
pub fn render_status(
    view: Option<&ViewStatus>,
    status: &Option<String>,
    work: &Work,
    lang: Language,
) -> (r: Vec<String>)
    requires
        view matches Some(view) ==> (view.top_line matches Some(line) ==> line < u64::MAX),
    ensures
        text::texts(r@) == status_parts(
            match view {
                Some(view) => Some(*view),
                None => None,
            },
            text::maybe(*status),
            *work,
            lang,
        ),
{
    let mut out: Vec<String> = match view {
        Some(view) => view_words(view, lang),
        None => {
            let mut out: Vec<String> = Vec::new();
            add_part(&mut out, i18n::text(Key::Ready, lang).to_owned());
            assert(text::texts(out@) =~= seq![i18n::translation(Key::Ready, lang)@]);
            out
        },
    };
    let ghost first = text::texts(out@);
    if let Some(status) = status {
        add_part(&mut out, status.clone());
    }
    let ghost second = text::texts(out@);
    if let Some(percent) = work.searching {
        add_part(&mut out, progress_label(&work.search_word, percent));
    }
    let ghost third = text::texts(out@);
    if work.extracting {
        add_part(&mut out, work.table_word.clone());
    }
    assert(second =~= first + part(*status is Some, status.unwrap()@));
    assert(third =~= second + part(
        work.searching is Some,
        progress_words(work.search_word@, work.searching.unwrap()),
    ));
    assert(text::texts(out@) =~= third + part(work.extracting, work.table_word@));
    assert(text::texts(out@) =~= second + work_parts(*work));
    out
}

/// The status bar holds a part for each thing that is known and none for what is not, in this
/// order: the log that is shown, what happened last, and the work that is going on.
pub proof fn known_things_have_their_part(
    view: Option<ViewStatus>,
    status: Option<Seq<char>>,
    work: Work,
    lang: Language,
)
    ensures
        ({
            let parts = status_parts(view, status, work, lang);
            let one = |there: bool|
                if there {
                    1int
                } else {
                    0int
                };
            let first = match view {
                Some(view) => 3 + one(view.matches is Some) + one(view.indexing is Some) + one(
                    view.filtering is Some,
                ) + one(view.from_cache) + one(view.error is Some),
                None => 1,
            };
            let second = first + one(status is Some);
            let third = second + one(work.searching is Some);
            &&& parts.len() == third + one(work.extracting)
            &&& status matches Some(words) ==> parts[first] == words
            &&& work.searching matches Some(percent) ==> parts[second] == work.search_word@ + " "@
                + text::decimal(percent as nat) + "%"@
            &&& work.extracting ==> parts[third] == work.table_word@
            &&& view is None ==> parts[0] == i18n::translation(Key::Ready, lang)@
        }),
{
    let first = match view {
        Some(view) => view_parts(view, lang),
        None => seq![i18n::translation(Key::Ready, lang)@],
    };
    if let Some(view) = view {
        lemma_view_length(view, lang);
    }
    let last = part(work.extracting, work.table_word@);
    let none = Seq::<Seq<char>>::empty();
    let parts = status_parts(view, status, work, lang);
    let searching = progress_words(work.search_word@, work.searching.unwrap());
    let second = first + part(status is Some, status.unwrap());
    lemma_part(first, status is Some, status.unwrap(), work_parts(work), parts);
    lemma_joined(second, part(work.searching is Some, searching), last);
    lemma_part(second, work.searching is Some, searching, last, parts);
    assert(parts == second + part(work.searching is Some, searching) + last + none) by {
        assert(parts =~= parts + none);
    }
    lemma_part(
        second + part(work.searching is Some, searching),
        work.extracting,
        work.table_word@,
        none,
        parts,
    );
}

proof fn lemma_view_length(view: ViewStatus, lang: Language)
    ensures
        view_parts(view, lang).len() == 3 + (if view.matches is Some {
            1nat
        } else {
            0
        }) + (if view.indexing is Some {
            1nat
        } else {
            0
        }) + (if view.filtering is Some {
            1nat
        } else {
            0
        }) + (if view.from_cache {
            1nat
        } else {
            0
        }) + (if view.error is Some {
            1nat
        } else {
            0
        }),
{
}

/// Of the log that is shown the status bar tells the number of its lines, with a plus sign while
/// not all of them are counted, the line at the top, counted from one, and the encoding.
pub proof fn the_log_has_its_parts(
    view: ViewStatus,
    status: Option<Seq<char>>,
    work: Work,
    lang: Language,
)
    ensures
        ({
            let parts = status_parts(Some(view), status, work, lang);
            let count = text::grouped(text::decimal(view.total_lines as nat));
            &&& parts.len() >= 3
            &&& parts[0] == count + (if view.index_complete {
                " "@
            } else {
                "+ "@
            }) + i18n::translation(Key::Lines, lang)@
            &&& parts[1] == i18n::translation(Key::Line, lang)@ + " "@ + text::grouped(
                text::decimal(
                    if view.top_line is Some {
                        (view.top_line.unwrap() + 1) as nat
                    } else {
                        0
                    },
                ),
            )
            &&& parts[2] == view.encoding@
        }),
{
    let count = text::grouped(text::decimal(view.total_lines as nat));
    let word = i18n::translation(Key::Lines, lang)@;
    assert(lines_words(view, lang) == count + (if view.index_complete {
        " "@
    } else {
        "+ "@
    }) + word) by {
        reveal_strlit("");
        reveal_strlit("+");
        reveal_strlit(" ");
        reveal_strlit("+ ");
        assert("+"@ + " "@ =~= "+ "@);
        assert(count + ""@ + " "@ + word =~= count + " "@ + word);
        assert(count + "+"@ + " "@ + word =~= count + "+ "@ + word);
    }
    let rest = lemma_log_parts(view, status, work, lang);
    let first = seq![lines_words(view, lang), top_words(view, lang), view.encoding@];
    assert(first[0] == lines_words(view, lang) && first[1] == top_words(view, lang) && first[2]
        == view.encoding@);
}

proof fn lemma_part(
    before: Seq<Seq<char>>,
    there: bool,
    words: Seq<char>,
    behind: Seq<Seq<char>>,
    parts: Seq<Seq<char>>,
)
    requires
        parts == before + part(there, words) + behind,
    ensures
        there ==> parts[before.len() as int] == words,
        parts == before + (part(there, words) + behind),
        (before + part(there, words)).len() == before.len() + if there {
            1nat
        } else {
            0
        },
{
    assert(before + part(there, words) + behind =~= before + (part(there, words) + behind));
}

proof fn lemma_joined(a: Seq<Seq<char>>, b: Seq<Seq<char>>, c: Seq<Seq<char>>)
    ensures
        a + b + c == a + (b + c),
{
    assert(a + b + c =~= a + (b + c));
}

proof fn lemma_log_parts(
    view: ViewStatus,
    status: Option<Seq<char>>,
    work: Work,
    lang: Language,
) -> (rest: Seq<Seq<char>>)
    ensures
        status_parts(Some(view), status, work, lang) == seq![
            lines_words(view, lang),
            top_words(view, lang),
            view.encoding@,
        ] + rest,
        ({
            let parts = status_parts(Some(view), status, work, lang);
            let indexing: int = if view.matches is Some {
                4
            } else {
                3
            };
            let filtering: int = if view.indexing is Some {
                indexing + 1
            } else {
                indexing
            };
            let cache: int = if view.filtering is Some {
                filtering + 1
            } else {
                filtering
            };
            let error: int = if view.from_cache {
                cache + 1
            } else {
                cache
            };
            &&& view.matches is Some ==> parts[3] == i18n::translation(Key::Matches, lang)@ + " "@
                + text::grouped(text::decimal(view.matches.unwrap() as nat))
            &&& view.indexing is Some ==> parts[indexing] == i18n::translation(Key::Indexing, lang)@
                + " "@ + text::decimal(view.indexing.unwrap() as nat) + "%"@
            &&& view.filtering is Some ==> parts[filtering] == i18n::translation(
                Key::Filtering,
                lang,
            )@ + " "@ + text::decimal(view.filtering.unwrap() as nat) + "%"@
            &&& view.from_cache ==> parts[cache] == i18n::translation(Key::Cache, lang)@
            &&& view.error is Some ==> parts[error] == view.error.unwrap()@
        }),
{
    let found = i18n::translation(Key::Matches, lang)@ + " "@ + text::grouped(
        text::decimal(view.matches.unwrap() as nat),
    );
    let indexed = progress_words(i18n::translation(Key::Indexing, lang)@, view.indexing.unwrap());
    let filtered = progress_words(
        i18n::translation(Key::Filtering, lang)@,
        view.filtering.unwrap(),
    );
    let cached = i18n::translation(Key::Cache, lang)@;
    let failed = view.error.unwrap()@;
    let a = seq![lines_words(view, lang), top_words(view, lang), view.encoding@];
    let b = a + part(view.matches is Some, found);
    let c = b + part(view.indexing is Some, indexed);
    let d = c + part(view.filtering is Some, filtered);
    let e = d + part(view.from_cache, cached);
    let parts = status_parts(Some(view), status, work, lang);
    let last = part(status is Some, status.unwrap()) + work_parts(work);
    let behind_e = part(view.error is Some, failed) + last;
    let behind_d = part(view.from_cache, cached) + behind_e;
    let behind_c = part(view.filtering is Some, filtered) + behind_d;
    let behind_b = part(view.indexing is Some, indexed) + behind_c;
    lemma_joined(
        e + part(view.error is Some, failed),
        part(status is Some, status.unwrap()),
        work_parts(work),
    );
    lemma_part(e, view.error is Some, failed, last, parts);
    lemma_part(d, view.from_cache, cached, behind_e, parts);
    lemma_part(c, view.filtering is Some, filtered, behind_d, parts);
    lemma_part(b, view.indexing is Some, indexed, behind_c, parts);
    lemma_part(a, view.matches is Some, found, behind_b, parts);
    part(view.matches is Some, found) + behind_b
}

/// Behind these the status bar tells what is known of the matches, of the work on the log, of
/// where it came from and of what went wrong, each in a part of its own and in this order.
pub proof fn the_log_has_further_parts(
    view: ViewStatus,
    status: Option<Seq<char>>,
    work: Work,
    lang: Language,
)
    ensures
        ({
            let parts = status_parts(Some(view), status, work, lang);
            let indexing: int = if view.matches is Some {
                4
            } else {
                3
            };
            let filtering: int = if view.indexing is Some {
                indexing + 1
            } else {
                indexing
            };
            let cache: int = if view.filtering is Some {
                filtering + 1
            } else {
                filtering
            };
            let error: int = if view.from_cache {
                cache + 1
            } else {
                cache
            };
            &&& view.matches is Some ==> parts[3] == i18n::translation(Key::Matches, lang)@ + " "@
                + text::grouped(text::decimal(view.matches.unwrap() as nat))
            &&& view.indexing is Some ==> parts[indexing] == i18n::translation(Key::Indexing, lang)@
                + " "@ + text::decimal(view.indexing.unwrap() as nat) + "%"@
            &&& view.filtering is Some ==> parts[filtering] == i18n::translation(
                Key::Filtering,
                lang,
            )@ + " "@ + text::decimal(view.filtering.unwrap() as nat) + "%"@
            &&& view.from_cache ==> parts[cache] == i18n::translation(Key::Cache, lang)@
            &&& view.error is Some ==> parts[error] == view.error.unwrap()@
        }),
{
    let rest = lemma_log_parts(view, status, work, lang);
}

} // verus!
