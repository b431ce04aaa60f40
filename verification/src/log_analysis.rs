//! Templates of a log: which kinds of lines it holds, and how many of each.

use crate::order;
use crate::order::Ranked;
use crate::text;
use vstd::multiset::Multiset;
use vstd::prelude::*;

verus! {

/// How many kinds of lines are shown.
pub const MAX_ANALYSIS_ROWS: usize = 200;

/// A kind of lines, with how many there are of it.
#[derive(Debug)]
pub struct AnalysisRow {
    pub template: String,
    pub count: u64,
}

/// The larger count stands first; with equal counts the order of the texts decides.
impl Ranked for AnalysisRow {
    open spec fn before(&self, other: &Self) -> bool {
        if self.count != other.count {
            self.count > other.count
        } else {
            text::precedes(self.template@, other.template@)
        }
    }

    fn is_before(&self, other: &Self) -> bool {
        if self.count != other.count {
            self.count > other.count
        } else {
            text::text_precedes(&self.template, &other.template)
        }
    }
}

/// Kinds of lines can be put in order.
pub proof fn analysis_rows_have_an_order()
    ensures
        order::is_weak_order::<AnalysisRow>(),
{
    assert forall|a: AnalysisRow, b: AnalysisRow, c: AnalysisRow| #[trigger]
        a.before(&b) && #[trigger] b.before(&c) implies a.before(&c) by {
        if text::precedes(a.template@, b.template@) && text::precedes(b.template@, c.template@) {
            text::precedes_is_transitive(a.template@, b.template@, c.template@);
        }
    }
    assert forall|a: AnalysisRow, b: AnalysisRow| #[trigger] a.before(&b) implies !b.before(&a) by {
        if text::precedes(a.template@, b.template@) && text::precedes(b.template@, a.template@) {
            text::precedes_is_transitive(a.template@, b.template@, a.template@);
            text::precedes_is_irreflexive(a.template@);
        }
    }
    assert forall|a: AnalysisRow, b: AnalysisRow, c: AnalysisRow| #[trigger]
        a.before(&c) implies #[trigger] a.before(&b) || b.before(&c) by {
        if text::precedes(a.template@, c.template@) && a.template@ != b.template@ {
            text::precedes_is_total(a.template@, b.template@);
            if text::precedes(b.template@, a.template@) {
                text::precedes_is_transitive(b.template@, a.template@, c.template@);
            }
        }
    }
}

/// A row by its text and its count.
pub open spec fn row_view(row: AnalysisRow) -> (Seq<char>, u64) {
    (row.template@, row.count)
}

/// Rows by their texts and their counts.
pub open spec fn row_views(rows: Seq<AnalysisRow>) -> Seq<(Seq<char>, u64)> {
    rows.map_values(|row: AnalysisRow| row_view(row))
}

/// The template miner of the `logdrain` crate.
#[verifier::external_type_specification]
#[verifier::external_body]
pub struct ExMiner(logdrain::Miner);

/// The lines that a miner was given, one after another.
pub uninterp spec fn mined_lines(miner: logdrain::Miner) -> Seq<Seq<char>>;

/// The templates that `logdrain::Miner::clusters` reports after some lines were given one after
/// another, each with its number of lines.
pub uninterp spec fn mined_templates(lines: Seq<Seq<char>>) -> Multiset<(Seq<char>, u64)>;

/// Calls `logdrain::Miner::builder` and builds a miner with the settings that it starts from: a
/// similarity of two fifths, a tree of depth four, one wildcard `<*>` also for numbers. These
/// are valid, so there always is a miner, and it was given no line yet.
#[verifier::external_body]
fn new_miner() -> (r: Result<logdrain::Miner, String>)
    ensures
        r is Ok,
        mined_lines(r->Ok_0) == Seq::<Seq<char>>::empty(),
{
    logdrain::Miner::builder().build().map_err(|error| error.to_string())
}

/// Calls `logdrain::Miner::add` with the next line.
#[verifier::external_body]
fn add_line(miner: &mut logdrain::Miner, line: &str)
    ensures
        mined_lines(*final(miner)) == mined_lines(*old(miner)).push(line@),
{
    miner.add(line);
}

/// Calls `logdrain::Miner::clusters`. Which templates there are, with which numbers, follows
/// from the lines and their order; the templates come in no particular order.
#[verifier::external_body]
fn templates(miner: &logdrain::Miner) -> (r: Vec<AnalysisRow>)
    ensures
        row_views(r@).to_multiset() == mined_templates(mined_lines(*miner)),
{
    let clusters = miner.clusters().into_iter();
    clusters
        .map(|cluster| AnalysisRow {
            template: cluster.template().to_string(),
            count: cluster.size(),
        })
        .collect()
}

/// A stretch of bytes up to its end, or up to a carriage return there.
pub open spec fn line_end(data: Seq<u8>, from: nat, to: nat) -> nat {
    if from < to && data[to - 1] == 13 {
        (to - 1) as nat
    } else {
        to
    }
}

/// The lines among the bytes from `from` up to `to`, the last of which has no end yet: where
/// each starts and ends, without its line ending.
pub open spec fn spans(data: Seq<u8>, from: nat, to: nat) -> Seq<(nat, nat)>
    decreases to,
{
    if to <= from {
        Seq::empty()
    } else {
        let before = spans(data, from, (to - 1) as nat);
        if data[to - 1] == 10 {
            let start = open_line(data, from, (to - 1) as nat);
            before.push((start, line_end(data, start, (to - 1) as nat)))
        } else {
            before
        }
    }
}

/// Where the line starts that is not ended before `to`.
pub open spec fn open_line(data: Seq<u8>, from: nat, to: nat) -> nat
    decreases to,
{
    if to <= from {
        from
    } else if data[to - 1] == 10 {
        to
    } else {
        open_line(data, from, (to - 1) as nat)
    }
}

/// All lines of some bytes from `from` on, the last one with whatever stands behind the last
/// line feed.
pub open spec fn all_spans(data: Seq<u8>, from: nat) -> Seq<(nat, nat)> {
    let start = open_line(data, from, data.len());
    spans(data, from, data.len()).push((start, line_end(data, start, data.len())))
}

/// Spans as numbers.
pub open spec fn span_views(found: Seq<(usize, usize)>) -> Seq<(nat, nat)> {
    found.map_values(|span: (usize, usize)| (span.0 as nat, span.1 as nat))
}

/// All lines of some bytes from `from` on: where each starts and ends, without its line ending.
pub fn line_spans(data: &Vec<u8>, from: usize) -> (r: Vec<(usize, usize)>)
    requires
        from <= data@.len(),
    ensures
        span_views(r@) == all_spans(data@, from as nat),
        forall|i: int| 0 <= i < r@.len() ==> (#[trigger] r@[i]).0 <= r@[i].1 <= data@.len(),
{
    let mut out: Vec<(usize, usize)> = Vec::new();
    let mut start: usize = from;
    let mut i: usize = from;
    assert(span_views(out@) =~= spans(data@, from as nat, from as nat));
    while i < data.len()
        invariant
            from <= start <= i <= data@.len(),
            start == open_line(data@, from as nat, i as nat),
            span_views(out@) == spans(data@, from as nat, i as nat),
            forall|k: int|
                0 <= k < out@.len() ==> (#[trigger] out@[k]).0 <= out@[k].1 <= data@.len(),
        decreases data@.len() - i,
    {
        if data[i] == 10 {
            let end: usize = if start < i && data[i - 1] == 13 {
                i - 1
            } else {
                i
            };
            let ghost before = out@;
            out.push((start, end));
            assert(span_views(out@) =~= span_views(before).push((start as nat, end as nat)));
            start = i + 1;
        }
        i += 1;
    }
    let end: usize = if start < i && data[i - 1] == 13 {
        i - 1
    } else {
        i
    };
    let ghost before = out@;
    out.push((start, end));
    assert(span_views(out@) =~= span_views(before).push((start as nat, end as nat)));
    out
}

proof fn lemma_open_line(data: Seq<u8>, from: nat, to: nat)
    requires
        from <= to <= data.len(),
    ensures
        from <= open_line(data, from, to) <= to,
        open_line(data, from, to) == from || data[open_line(data, from, to) - 1] == 10,
        forall|k: int| open_line(data, from, to) <= k < to ==> #[trigger] data[k] != 10,
    decreases to,
{
    if from < to && data[to - 1] != 10 {
        lemma_open_line(data, from, (to - 1) as nat);
    }
}

proof fn lemma_spans(data: Seq<u8>, from: nat, to: nat)
    requires
        from <= to <= data.len(),
    ensures
        ({
            let found = spans(data, from, to).push((open_line(data, from, to), to));
            &&& found[0].0 == from
            &&& forall|i: int|
                0 <= i < found.len() - 1 ==> {
                    let start = (#[trigger] found[i]).0;
                    let feed = found[i + 1].0 - 1;
                    &&& from <= start <= feed < to
                    &&& data[feed] == 10
                    &&& forall|k: int| start <= k < feed ==> #[trigger] data[k] != 10
                    &&& found[i].1 == if start < feed && data[feed - 1] == 13 {
                        feed - 1
                    } else {
                        feed
                    }
                }
        }),
    decreases to,
{
    let found = spans(data, from, to).push((open_line(data, from, to), to));
    lemma_open_line(data, from, to);
    if from < to {
        let last = (to - 1) as nat;
        lemma_open_line(data, from, last);
        lemma_spans(data, from, last);
        let before = spans(data, from, last).push((open_line(data, from, last), last));
        assert forall|i: int| 0 <= i < found.len() - 1 implies {
            let start = (#[trigger] found[i]).0;
            let feed = found[i + 1].0 - 1;
            &&& from <= start <= feed < to
            &&& data[feed] == 10
            &&& forall|k: int| start <= k < feed ==> #[trigger] data[k] != 10
            &&& found[i].1 == if start < feed && data[feed - 1] == 13 {
                feed - 1
            } else {
                feed
            }
        } by {
            if i < before.len() - 1 {
                assert(before[i] == found[i]);
                assert(before[i + 1].0 == found[i + 1].0);
            }
        }
        assert(before[0].0 == found[0].0);
    }
}

/// The lines of some bytes follow one another from `from` to the end: each ends before the next
/// line feed, and before a carriage return there, and the next one starts behind that feed. No
/// line holds a line feed.
pub proof fn lines_end_at_the_line_feeds(data: Seq<u8>, from: nat)
    requires
        from <= data.len(),
    ensures
        ({
            let found = all_spans(data, from);
            &&& found.len() > 0
            &&& found[0].0 == from
            &&& forall|i: int|
                0 <= i < found.len() ==> {
                    let start = (#[trigger] found[i]).0;
                    let feed = if i + 1 < found.len() {
                        found[i + 1].0 - 1
                    } else {
                        data.len() as int
                    };
                    &&& from <= start <= feed
                    &&& i + 1 < found.len() ==> feed < data.len() && data[feed] == 10
                    &&& forall|k: int| start <= k < feed ==> #[trigger] data[k] != 10
                    &&& found[i].1 == if start < feed && data[feed - 1] == 13 {
                        feed - 1
                    } else {
                        feed
                    }
                }
        }),
{
    lemma_spans(data, from, data.len());
    lemma_open_line(data, from, data.len());
    let found = all_spans(data, from);
    let known = spans(data, from, data.len()).push(
        (open_line(data, from, data.len()), data.len()),
    );
    assert forall|i: int| 0 <= i < found.len() implies {
        let start = (#[trigger] found[i]).0;
        let feed = if i + 1 < found.len() {
            found[i + 1].0 - 1
        } else {
            data.len() as int
        };
        &&& from <= start <= feed
        &&& i + 1 < found.len() ==> feed < data.len() && data[feed] == 10
        &&& forall|k: int| start <= k < feed ==> #[trigger] data[k] != 10
        &&& found[i].1 == if start < feed && data[feed - 1] == 13 {
            feed - 1
        } else {
            feed
        }
    } by {
        assert(known[i].0 == found[i].0);
        if i + 1 < found.len() {
            assert(known[i] == found[i]);
            assert(known[i + 1].0 == found[i + 1].0);
        }
    }
    assert(known[0].0 == found[0].0);
}

/// A line of a source: whether the filters show it, and its text.
pub struct AnalysisLine {
    pub visible: bool,
    pub shown: String,
}

/// The lines that are analyzed: those that the filters show and that are not blank.
pub open spec fn analyzed(lines: Seq<AnalysisLine>) -> Seq<Seq<char>>
    decreases lines.len(),
{
    if lines.len() == 0 {
        Seq::empty()
    } else {
        let before = analyzed(lines.drop_last());
        if lines.last().visible && text::trim(lines.last().shown@).len() > 0 {
            before.push(lines.last().shown@)
        } else {
            before
        }
    }
}

/// Just the lines that the filters show and that hold anything but white space are analyzed, in
/// their order, and each as often as it is there.
pub proof fn visible_lines_are_analyzed_each_time(lines: Seq<AnalysisLine>, more: Seq<AnalysisLine>)
    ensures
        analyzed(lines) == lines.filter(
            |line: AnalysisLine|
                line.visible && exists|k: int|
                    0 <= k < line.shown@.len() && !text::is_space(#[trigger] line.shown@[k]),
        ).map_values(|line: AnalysisLine| line.shown@),
        analyzed(lines + more) == analyzed(lines) + analyzed(more),
        forall|line: AnalysisLine| #[trigger]
            analyzed(seq![line]) == if line.visible && exists|k: int|
                0 <= k < line.shown@.len() && !text::is_space(#[trigger] line.shown@[k]) {
                seq![line.shown@]
            } else {
                Seq::<Seq<char>>::empty()
            },
    decreases lines.len() + more.len(),
{
    reveal(Seq::filter);
    let wanted = |line: AnalysisLine|
        line.visible && exists|k: int|
            0 <= k < line.shown@.len() && !text::is_space(#[trigger] line.shown@[k]);
    let shown = |line: AnalysisLine| line.shown@;
    assert forall|line: AnalysisLine|
        text::trim(#[trigger] line.shown@).len() > 0 <==> exists|k: int|
            0 <= k < line.shown@.len() && !text::is_space(#[trigger] line.shown@[k]) by {
        text::trimming_takes_the_white_space_at_both_ends(line.shown@);
    }
    if lines.len() > 0 {
        let before = lines.drop_last();
        visible_lines_are_analyzed_each_time(before, Seq::empty());
        assert(wanted(lines.last()) == (lines.last().visible && text::trim(
            lines.last().shown@,
        ).len() > 0));
        if wanted(lines.last()) {
            assert(before.filter(wanted).push(lines.last()).map_values(shown) =~= before.filter(
                wanted,
            ).map_values(shown).push(lines.last().shown@));
        }
        assert(analyzed(lines) =~= lines.filter(wanted).map_values(shown));
    } else {
        assert(analyzed(lines) =~= lines.filter(wanted).map_values(shown));
    }
    if more.len() > 0 {
        assert((lines + more).drop_last() =~= lines + more.drop_last());
        visible_lines_are_analyzed_each_time(lines, more.drop_last());
        assert(analyzed(lines + more) =~= analyzed(lines) + analyzed(more));
    } else {
        assert(lines + more =~= lines);
        assert(analyzed(lines + more) =~= analyzed(lines) + analyzed(more));
    }
    assert forall|line: AnalysisLine| #[trigger]
        analyzed(seq![line]) == if line.visible && exists|k: int|
            0 <= k < line.shown@.len() && !text::is_space(#[trigger] line.shown@[k]) {
            seq![line.shown@]
        } else {
            Seq::<Seq<char>>::empty()
        } by {
        assert(seq![line].drop_last() =~= Seq::<AnalysisLine>::empty());
        assert(analyzed(Seq::<AnalysisLine>::empty()) =~= Seq::<Seq<char>>::empty());
        assert(seq![line].last() == line);
        assert(text::trim(line.shown@).len() > 0 <==> exists|k: int|
            0 <= k < line.shown@.len() && !text::is_space(#[trigger] line.shown@[k]));
        assert(analyzed(seq![line]) =~= if line.visible && text::trim(line.shown@).len() > 0 {
            seq![line.shown@]
        } else {
            Seq::<Seq<char>>::empty()
        });
    }
}

/// The rows that are shown are the most frequent ones, two hundred at most: none is lost while
/// there is room, the larger count stands first and among equal counts the text that comes
/// first, and no row that is left out belongs before one that is shown.
pub proof fn the_most_frequent_rows_are_shown(rows: Seq<AnalysisRow>)
    ensures
        ({
            let shown = ranked_rows(rows);
            &&& shown.len() == if rows.len() <= 200 {
                rows.len()
            } else {
                200
            }
            &&& forall|i: int, j: int|
                0 <= i < j < shown.len() ==> (#[trigger] shown[i]).count > (
                #[trigger] shown[j]).count || (shown[i].count == shown[j].count && !text::precedes(
                    shown[j].template@,
                    shown[i].template@,
                ))
            &&& exists|rest: Seq<AnalysisRow>|
                #![trigger shown + rest]
                (shown + rest).to_multiset() == rows.to_multiset() && forall|i: int, j: int|
                    0 <= i < shown.len() && 0 <= j < rest.len() ==> (#[trigger] shown[i]).count > (
                    #[trigger] rest[j]).count || (shown[i].count == rest[j].count
                        && !text::precedes(rest[j].template@, shown[i].template@))
        }),
{
    analysis_rows_have_an_order();
    order::in_order_is_a_sort(rows);
    let ordered = order::in_order(rows);
    let shown = ranked_rows(rows);
    let rest = ordered.skip(shown.len() as int);
    assert(shown + rest =~= ordered);
    assert forall|i: int, j: int| 0 <= i < j < shown.len() implies (#[trigger] shown[i]).count > (
    #[trigger] shown[j]).count || (shown[i].count == shown[j].count && !text::precedes(
        shown[j].template@,
        shown[i].template@,
    )) by {
        assert(!ordered[j].before(&ordered[i]));
    }
    assert forall|i: int, j: int| 0 <= i < shown.len() && 0 <= j < rest.len() implies (
    #[trigger] shown[i]).count > (#[trigger] rest[j]).count || (shown[i].count == rest[j].count
        && !text::precedes(rest[j].template@, shown[i].template@)) by {
        assert(!ordered[j + shown.len()].before(&ordered[i]));
    }
}

/// The first rows in order.
pub open spec fn ranked_rows(rows: Seq<AnalysisRow>) -> Seq<AnalysisRow> {
    let ordered = order::in_order(rows);
    if ordered.len() <= MAX_ANALYSIS_ROWS {
        ordered
    } else {
        ordered.take(MAX_ANALYSIS_ROWS as int)
    }
}

/// Puts rows in order and keeps the first ones.
pub fn rank_rows(rows: Vec<AnalysisRow>) -> (r: Vec<AnalysisRow>)
    ensures
        r@ == ranked_rows(rows@),
{
    let mut ordered = order::put_in_order(rows);
    ordered.truncate(MAX_ANALYSIS_ROWS);
    ordered
}

/// Finds the templates of the lines that the filters show: the most frequent ones first, and
/// how many lines were analyzed. Filters that could not be understood are an error.
pub fn analyze_source(lines: &Vec<AnalysisLine>, filter_error: Option<String>) -> (r: Result<
    (Vec<AnalysisRow>, u64),
    String,
>)
    requires
        lines@.len() <= u64::MAX,
    ensures
        match filter_error {
            Some(message) => r == Err::<(Vec<AnalysisRow>, u64), String>(message),
            None => match r {
                Ok((rows, count)) => {
                    &&& count == analyzed(lines@).len()
                    &&& count == lines@.filter(
                        |line: AnalysisLine|
                            line.visible && exists|k: int|
                                0 <= k < line.shown@.len() && !text::is_space(
                                    #[trigger] line.shown@[k],
                                ),
                    ).len()
                    &&& exists|found: Seq<AnalysisRow>|
                        #![trigger ranked_rows(found)]
                        row_views(found).to_multiset() == mined_templates(analyzed(lines@))
                            && rows@ == ranked_rows(found)
                },
                Err(_) => false,
            },
        },
{
    if let Some(message) = filter_error {
        return Err(message);
    }
    let mut miner = match new_miner() {
        Ok(miner) => miner,
        Err(message) => {
            return Err(message);
        },
    };
    let mut count: u64 = 0;
    let mut i: usize = 0;
    while i < lines.len()
        invariant
            i <= lines@.len(),
            lines@.len() <= u64::MAX,
            count <= i,
            count == analyzed(lines@.take(i as int)).len(),
            mined_lines(miner) == analyzed(lines@.take(i as int)),
        decreases lines@.len() - i,
    {
        assert(lines@.take(i + 1).drop_last() =~= lines@.take(i as int));
        let line = &lines[i];
        if line.visible && text::trimmed(&text::chars_of(&line.shown)).len() > 0 {
            add_line(&mut miner, &line.shown);
            count += 1;
        }
        i += 1;
    }
    assert(lines@.take(i as int) =~= lines@);
    proof {
        visible_lines_are_analyzed_each_time(lines@, Seq::empty());
    }
    let found = templates(&miner);
    let ghost all = found@;
    let rows = rank_rows(found);
    assert(rows@ == ranked_rows(all));
    Ok((rows, count))
}

/// The panel that shows the templates of a log. A result counts only if nothing was started
/// or cleared since its analysis began.
pub struct LogAnalysisPanel {
    pub file: Option<u64>,
    pub running: bool,
    pub rows: Vec<AnalysisRow>,
    pub error: Option<String>,
    pub generation: u64,
    pub enabled_filter_count: usize,
    pub analyzed_line_count: u64,
}

/// The number of flags that are set.
pub open spec fn count_set(flags: Seq<bool>) -> nat
    decreases flags.len(),
{
    if flags.len() == 0 {
        0
    } else {
        count_set(flags.drop_last()) + if flags.last() {
            1nat
        } else {
            0
        }
    }
}

/// The generation after one.
pub open spec fn next_generation(generation: u64) -> u64 {
    if generation == u64::MAX {
        0
    } else {
        (generation + 1) as u64
    }
}

impl LogAnalysisPanel {
    /// An empty panel.
    pub fn new() -> (r: LogAnalysisPanel)
        ensures
            r.file is None,
            !r.running,
            r.rows@.len() == 0,
            r.error is None,
            r.generation == 0,
            r.enabled_filter_count == 0,
            r.analyzed_line_count == 0,
    {
        LogAnalysisPanel {
            file: None,
            running: false,
            rows: Vec::new(),
            error: None,
            generation: 0,
            enabled_filter_count: 0,
            analyzed_line_count: 0,
        }
    }

    /// Starts the analysis of a file under some filters, of which `active` says which take
    /// part. The result is to be handed back with the generation that comes out.
    pub fn analyze(&mut self, file: u64, active: &Vec<bool>) -> (generation: u64)
        ensures
            generation == next_generation(old(self).generation),
            final(self).generation == generation,
            final(self).file == Some(file),
            final(self).running,
            final(self).rows@.len() == 0,
            final(self).error is None,
            final(self).enabled_filter_count == count_set(active@),
            final(self).analyzed_line_count == 0,
    {
        self.generation = if self.generation == u64::MAX {
            0
        } else {
            self.generation + 1
        };
        self.file = Some(file);
        self.running = true;
        self.error = None;
        self.rows = Vec::new();
        let mut count: usize = 0;
        let mut i: usize = 0;
        while i < active.len()
            invariant
                i <= active@.len(),
                count <= i,
                count == count_set(active@.take(i as int)),
            decreases active@.len() - i,
        {
            assert(active@.take(i + 1).drop_last() =~= active@.take(i as int));
            if active[i] {
                count += 1;
            }
            i += 1;
        }
        assert(active@.take(i as int) =~= active@);
        self.enabled_filter_count = count;
        self.analyzed_line_count = 0;
        self.generation
    }

    /// Takes over the result of an analysis, unless it is out of date.
    pub fn finish(&mut self, generation: u64, result: Result<(Vec<AnalysisRow>, u64), String>)
        ensures
            generation != old(self).generation ==> *final(self) == *old(self),
            generation == old(self).generation ==> *final(self) == (match result {
                Ok((rows, count)) => LogAnalysisPanel {
                    running: false,
                    rows,
                    analyzed_line_count: count,
                    ..*old(self)
                },
                Err(message) => LogAnalysisPanel {
                    running: false,
                    error: Some(message),
                    ..*old(self)
                },
            }),
    {
        if self.generation != generation {
            return ;
        }
        self.running = false;
        match result {
            Ok((rows, count)) => {
                self.rows = rows;
                self.analyzed_line_count = count;
            },
            Err(message) => {
                self.error = Some(message);
            },
        }
    }

    /// Empties the panel. What is still under way will be out of date.
    pub fn clear(&mut self)
        ensures
            final(self).file is None,
            !final(self).running,
            final(self).rows@.len() == 0,
            final(self).error is None,
            final(self).generation == next_generation(old(self).generation),
            final(self).enabled_filter_count == 0,
            final(self).analyzed_line_count == 0,
    {
        self.file = None;
        self.running = false;
        self.rows = Vec::new();
        self.error = None;
        self.generation = if self.generation == u64::MAX {
            0
        } else {
            self.generation + 1
        };
        self.enabled_filter_count = 0;
        self.analyzed_line_count = 0;
    }

    /// What the panel shows.
    pub fn shown(&self) -> (r: AnalysisView)
        ensures
            view_of(r) == panel_view(*self),
    {
        let filters = filter_words(self.enabled_filter_count);
        if self.running {
            return AnalysisView::Running { filters };
        }
        if let Some(message) = &self.error {
            return AnalysisView::Failed { message: message.clone() };
        }
        if self.rows.len() == 0 {
            return AnalysisView::Empty;
        }
        let counted = text::concat3("已分析 ", &text::decimal_text(self.analyzed_line_count), " 行");
        let mut lines: Vec<(String, String)> = Vec::new();
        let ghost expected = Seq::new(
            self.rows@.len(),
            |i: int| row_line(i as nat, self.rows@[i]),
        );
        let mut i: usize = 0;
        while i < self.rows.len()
            invariant
                i <= self.rows@.len(),
                expected == Seq::new(self.rows@.len(), |i: int| row_line(i as nat, self.rows@[i])),
                lines@.len() == i,
                forall|k: int|
                    0 <= k < i ==> ((#[trigger] lines@[k]).0@, lines@[k].1@) == expected[k],
            decreases self.rows@.len() - i,
        {
            let row = &self.rows[i];
            let number = text::pad_left(&text::decimal_text(i as u64 + 1), 4);
            let line = text::concat3(&row.template, "  ×", &text::decimal_text(row.count));
            lines.push((number, line));
            i += 1;
        }
        assert(line_views(lines@) =~= expected);
        AnalysisView::Rows { filters, counted, lines }
    }
}

/// What the panel shows: that it is busy, that it failed, what to do, or the rows, each with
/// its number.
pub enum AnalysisView {
    Running { filters: String },
    Failed { message: String },
    Empty,
    Rows { filters: String, counted: String, lines: Vec<(String, String)> },
}

/// What the panel shows, by its texts.
pub enum AnalysisWords {
    Running { filters: Seq<char> },
    Failed { message: Seq<char> },
    Empty,
    Rows { filters: Seq<char>, counted: Seq<char>, lines: Seq<(Seq<char>, Seq<char>)> },
}

/// Numbered lines by their texts.
pub open spec fn line_views(lines: Seq<(String, String)>) -> Seq<(Seq<char>, Seq<char>)> {
    lines.map_values(|line: (String, String)| (line.0@, line.1@))
}

/// What the panel shows, by its texts.
pub open spec fn view_of(view: AnalysisView) -> AnalysisWords {
    match view {
        AnalysisView::Running { filters } => AnalysisWords::Running { filters: filters@ },
        AnalysisView::Failed { message } => AnalysisWords::Failed { message: message@ },
        AnalysisView::Empty => AnalysisWords::Empty,
        AnalysisView::Rows { filters, counted, lines } => AnalysisWords::Rows {
            filters: filters@,
            counted: counted@,
            lines: line_views(lines@),
        },
    }
}

/// What is said of the filters.
pub open spec fn filters_said(count: nat) -> Seq<char> {
    if count == 0 {
        "未启用过滤器，分析全部日志"@
    } else {
        "基于 "@ + text::decimal(count) + " 个已启用过滤器"@
    }
}

/// A numbered row.
pub open spec fn row_line(index: nat, row: AnalysisRow) -> (Seq<char>, Seq<char>) {
    (
        text::padded(text::decimal(index + 1), 4),
        row.template@ + "  ×"@ + text::decimal(row.count as nat),
    )
}

/// What a panel shows.
pub open spec fn panel_view(panel: LogAnalysisPanel) -> AnalysisWords {
    let filters = filters_said(panel.enabled_filter_count as nat);
    if panel.running {
        AnalysisWords::Running { filters }
    } else if panel.error is Some {
        AnalysisWords::Failed { message: panel.error.unwrap()@ }
    } else if panel.rows@.len() == 0 {
        AnalysisWords::Empty
    } else {
        AnalysisWords::Rows {
            filters,
            counted: "已分析 "@ + text::decimal(panel.analyzed_line_count as nat) + " 行"@,
            lines: Seq::new(panel.rows@.len(), |i: int| row_line(i as nat, panel.rows@[i])),
        }
    }
}

/// What is said of the filters.
fn filter_words(count: usize) -> (r: String)
    ensures
        r@ == filters_said(count as nat),
{
    if count == 0 {
        "未启用过滤器，分析全部日志".to_owned()
    } else {
        text::concat3("基于 ", &text::decimal_text(count as u64), " 个已启用过滤器")
    }
}

/// Filters are counted each that is set.
pub proof fn set_flags_are_counted(flags: Seq<bool>)
    ensures
        count_set(flags) == flags.filter(|flag: bool| flag).len(),
    decreases flags.len(),
{
    reveal(Seq::filter);
    if flags.len() > 0 {
        set_flags_are_counted(flags.drop_last());
    }
}

/// Starting or clearing makes every result of the run before out of date, and the generations come
/// round only after all numbers were used.
pub proof fn generations_differ(generation: u64)
    ensures
        next_generation(generation) != generation,
        generation < 0xffff_ffff_ffff_ffff ==> next_generation(generation) == generation + 1,
{
}

/// What a panel shows: that it is busy as long as it is, whatever it held before; else why it
/// failed; else what to do while there are no rows; else its rows, each with its number from one
/// on, its template and its count.
pub proof fn panels_show_what_they_are_busy_with_first(panel: LogAnalysisPanel, i: int)
    ensures
        panel.running <==> panel_view(panel) is Running,
        !panel.running && panel.error is Some ==> panel_view(panel) == (AnalysisWords::Failed {
            message: panel.error.unwrap()@,
        }),
        !panel.running && panel.error is None && panel.rows@.len() == 0 ==> panel_view(
            panel,
        ) is Empty,
        !panel.running && panel.error is None && 0 <= i < panel.rows@.len() ==> (panel_view(
            panel,
        ) matches AnalysisWords::Rows { filters, counted, lines } && lines.len()
            == panel.rows@.len() && lines[i].0 == text::padded(text::decimal((i + 1) as nat), 4)
            && lines[i].1 == panel.rows@[i].template@ + "  ×"@ + text::decimal(
            panel.rows@[i].count as nat,
        ) && counted == "已分析 "@ + text::decimal(panel.analyzed_line_count as nat) + " 行"@),
{
}

/// An analysis that comes out counts each line that the filters show and that holds anything but
/// white space, repeated ones each time, and shows two hundred rows at most, the larger count
/// before the smaller. Filters that could not be understood are its only error.
pub proof fn an_analysis_counts_every_visible_line(
    lines: &Vec<AnalysisLine>,
    filter_error: Option<String>,
    r: Result<(Vec<AnalysisRow>, u64), String>,
)
    requires
        call_ensures(analyze_source, (lines, filter_error), r),
    ensures
        filter_error is Some <==> r is Err,
        r matches Ok((rows, count)) ==> {
            &&& count == lines@.filter(
                |line: AnalysisLine|
                    line.visible && exists|k: int|
                        0 <= k < line.shown@.len() && !text::is_space(#[trigger] line.shown@[k]),
            ).len()
            &&& rows@.len() <= 200
            &&& forall|i: int, j: int|
                0 <= i < j < rows@.len() ==> (#[trigger] rows@[i]).count >= (
                #[trigger] rows@[j]).count
        },
{
    if let Ok((rows, count)) = r {
        if filter_error is None {
            let found = choose|found: Seq<AnalysisRow>|
                #![trigger ranked_rows(found)]
                row_views(found).to_multiset() == mined_templates(analyzed(lines@)) && rows@
                    == ranked_rows(found);
            the_most_frequent_rows_are_shown(found);
        }
    }
}

/// Rows are numbered from one; each tells its template and how often it occurs.
pub proof fn rows_are_numbered_from_one(index: nat, row: AnalysisRow)
    ensures
        row_line(index, row).0 == text::padded(text::decimal(index + 1), 4),
        row_line(index, row).1 == row.template@ + "  ×"@ + text::decimal(row.count as nat),
        filters_said(0) != filters_said(index + 1),
{
    reveal_strlit("未启用过滤器，分析全部日志");
    reveal_strlit("基于 ");
    assert(filters_said(0)[0] == '未');
    assert(filters_said(index + 1)[0] == '基');
}

} // verus!
