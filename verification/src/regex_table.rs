//! Tables of values taken from text (by a regular expression) and from JSON or
//! newline-delimited JSON (by object member).

use crate::json;
use crate::json::{DocumentView, JsonDocument, JsonMember, JsonNode, MemberView, NodeView};
use crate::pattern;
use crate::pattern::LinePattern;
use crate::text;
use std::ops::Range;
use std::sync::Arc;
use vstd::prelude::*;

verus! {

/// A table of text cells.
#[derive(Debug, PartialEq, Eq)]
pub struct RecordTable {
    pub columns: Vec<String>,
    pub rows: Arc<Vec<Vec<String>>>,
    pub error: Option<String>,
    pub scanned: usize,
    pub matched: usize,
}

/// What a table holds.
#[verifier::ext_equal]
pub struct TableView {
    pub columns: Seq<Seq<char>>,
    pub rows: Seq<Seq<Seq<char>>>,
    pub error: Option<Seq<char>>,
    pub scanned: nat,
    pub matched: nat,
}

/// The cells of each row.
pub open spec fn cells(rows: Seq<Vec<String>>) -> Seq<Seq<Seq<char>>> {
    rows.map_values(|row: Vec<String>| text::texts(row@))
}

impl View for RecordTable {
    type V = TableView;

    open spec fn view(&self) -> TableView {
        TableView {
            columns: text::texts(self.columns@),
            rows: cells(self.rows@),
            error: match self.error {
                Some(message) => Some(message@),
                None => None,
            },
            scanned: self.scanned as nat,
            matched: self.matched as nat,
        }
    }
}

/// The table without columns and rows.
pub open spec fn empty_table() -> TableView {
    TableView {
        columns: Seq::empty(),
        rows: Seq::empty(),
        error: None,
        scanned: 0,
        matched: 0,
    }
}

/// The table that only reports why there is none.
pub open spec fn fault_table(message: Seq<char>) -> TableView {
    TableView { error: Some(message), ..empty_table() }
}

impl Default for RecordTable {
    fn default() -> (r: RecordTable)
        ensures
            r@ == empty_table(),
    {
        let r = RecordTable {
            columns: Vec::new(),
            rows: Arc::new(Vec::new()),
            error: None,
            scanned: 0,
            matched: 0,
        };
        assert(r@ =~~= empty_table());
        r
    }
}

impl Clone for RecordTable {
    fn clone(&self) -> (r: RecordTable)
        ensures
            r@ == self@,
    {
        let mut columns: Vec<String> = Vec::new();
        let mut i: usize = 0;
        while i < self.columns.len()
            invariant
                i <= self.columns@.len(),
                columns@ == self.columns@.take(i as int),
            decreases self.columns@.len() - i,
        {
            columns.push(self.columns[i].clone());
            assert(self.columns@.take(i + 1) =~= self.columns@.take(i as int).push(
                self.columns@[i as int],
            ));
            i += 1;
        }
        assert(self.columns@.take(i as int) =~= self.columns@);
        RecordTable {
            columns,
            rows: self.rows.clone(),
            error: match &self.error {
                Some(message) => Some(message.clone()),
                None => None,
            },
            scanned: self.scanned,
            matched: self.matched,
        }
    }
}

/// The values that are there, in order.
pub open spec fn kept<T>(outcomes: Seq<Option<T>>) -> Seq<T>
    decreases outcomes.len(),
{
    if outcomes.len() == 0 {
        Seq::empty()
    } else {
        match outcomes.last() {
            Some(value) => kept(outcomes.drop_last()).push(value),
            None => kept(outcomes.drop_last()),
        }
    }
}

/// How many outcomes are looked at when looking stops with the one that fills the limit.
/// A limit of zero is only noticed once there is a value, as a limit of one is.
pub open spec fn scan_length<T>(outcomes: Seq<Option<T>>, limit: nat) -> nat
    decreases outcomes.len(),
{
    if outcomes.len() == 0 {
        0
    } else if kept(outcomes.drop_last()).len() >= 1 && kept(outcomes.drop_last()).len() >= limit {
        scan_length(outcomes.drop_last(), limit)
    } else {
        outcomes.len()
    }
}

/// The outcomes that are looked at.
pub open spec fn scanned_part<T>(outcomes: Seq<Option<T>>, limit: nat) -> Seq<Option<T>> {
    outcomes.take(scan_length(outcomes, limit) as int)
}

proof fn lemma_kept_grows<T>(outcomes: Seq<Option<T>>, n: int)
    requires
        0 <= n <= outcomes.len(),
    ensures
        kept(outcomes.take(n)).len() <= kept(outcomes).len() <= outcomes.len(),
    decreases outcomes.len(),
{
    if n < outcomes.len() {
        lemma_kept_grows(outcomes.drop_last(), n);
        assert(outcomes.drop_last().take(n) =~= outcomes.take(n));
    } else {
        assert(outcomes.take(n) =~= outcomes);
        if n > 0 {
            lemma_kept_grows(outcomes.drop_last(), n - 1);
        }
    }
}

/// Looking stops at the first outcome with which the limit is filled.
pub proof fn scan_stops_where_full<T>(outcomes: Seq<Option<T>>, limit: nat, n: int)
    requires
        1 <= n <= outcomes.len(),
        kept(outcomes.take(n)).len() >= 1,
        kept(outcomes.take(n)).len() >= limit,
        kept(outcomes.take(n - 1)).len() < 1 || kept(outcomes.take(n - 1)).len() < limit,
    ensures
        scan_length(outcomes, limit) == n,
    decreases outcomes.len(),
{
    if n < outcomes.len() {
        let before = outcomes.drop_last();
        assert(before.take(n) =~= outcomes.take(n));
        assert(before.take(n - 1) =~= outcomes.take(n - 1));
        lemma_kept_grows(before, n);
        scan_stops_where_full(before, limit, n);
    } else {
        assert(outcomes.drop_last() =~= outcomes.take(n - 1));
    }
}

/// Everything is looked at as long as the limit is not filled before the last outcome.
pub proof fn scan_goes_to_the_end<T>(outcomes: Seq<Option<T>>, limit: nat)
    requires
        outcomes.len() == 0 || kept(outcomes.drop_last()).len() < 1 || kept(
            outcomes.drop_last(),
        ).len() < limit,
    ensures
        scan_length(outcomes, limit) == outcomes.len(),
{
}

/// No more values are kept than the limit allows, apart from the one that a limit of zero
/// lets through.
pub proof fn scan_keeps_within_limit<T>(outcomes: Seq<Option<T>>, limit: nat)
    ensures
        kept(scanned_part(outcomes, limit)).len() <= if limit == 0 {
            1
        } else {
            limit
        },
        scan_length(outcomes, limit) <= outcomes.len(),
    decreases outcomes.len(),
{
    if outcomes.len() > 0 {
        let before = outcomes.drop_last();
        scan_keeps_within_limit(before, limit);
        if kept(before).len() >= 1 && kept(before).len() >= limit {
            assert(scanned_part(outcomes, limit) =~= scanned_part(before, limit));
        } else {
            assert(scanned_part(outcomes, limit) =~= outcomes);
        }
    } else {
        assert(scanned_part(outcomes, limit) =~= outcomes);
    }
}

/// The values that are there, in order and with nothing in between.
pub proof fn kept_values_are_those_that_are_there<T>(outcomes: Seq<Option<T>>)
    ensures
        kept(outcomes) == outcomes.filter_map(|outcome: Option<T>| outcome),
    decreases outcomes.len(),
{
    if outcomes.len() > 0 {
        kept_values_are_those_that_are_there(outcomes.drop_last());
        assert(kept(outcomes) =~= outcomes.filter_map(|outcome: Option<T>| outcome));
    } else {
        assert(kept(outcomes) =~= outcomes.filter_map(|outcome: Option<T>| outcome));
    }
}

/// Looking stops only where the limit, of at least one, is filled, and then with the value that
/// fills it.
pub proof fn scan_stops_only_where_full<T>(outcomes: Seq<Option<T>>, limit: nat)
    ensures
        ({
            let n = scan_length(outcomes, limit);
            let most = if limit == 0 {
                1
            } else {
                limit
            };
            &&& n <= outcomes.len()
            &&& kept(outcomes.take(n as int)).len() <= most
            &&& n < outcomes.len() ==> kept(outcomes.take(n as int)).len() == most
            &&& kept(outcomes.take(n as int)).len() == most ==> n > 0 && outcomes[n - 1] is Some
        }),
    decreases outcomes.len(),
{
    let n = scan_length(outcomes, limit);
    scan_keeps_within_limit(outcomes, limit);
    if outcomes.len() > 0 {
        let before = outcomes.drop_last();
        if kept(before).len() >= 1 && kept(before).len() >= limit {
            scan_stops_only_where_full(before, limit);
            assert(before.take(n as int) =~= outcomes.take(n as int));
            if n == before.len() {
                assert(before.take(n as int) =~= before);
            }
        } else {
            assert(outcomes.take(n as int) =~= outcomes);
        }
    }
}

/// The entries of a record as a map; of two with one key the later counts.
pub open spec fn entry_map(entries: Seq<(String, String)>) -> Map<Seq<char>, Seq<char>>
    decreases entries.len(),
{
    if entries.len() == 0 {
        Map::empty()
    } else {
        entry_map(entries.drop_last()).insert(entries.last().0@, entries.last().1@)
    }
}

/// The records as maps.
pub open spec fn entry_maps(records: Seq<Vec<(String, String)>>) -> Seq<
    Map<Seq<char>, Seq<char>>,
> {
    records.map_values(|entries: Vec<(String, String)>| entry_map(entries@))
}

/// What a record holds in a column: nothing stands as an empty cell.
pub open spec fn cell(record: Map<Seq<char>, Seq<char>>, column: Seq<char>) -> Seq<char> {
    if record.dom().contains(column) {
        record[column]
    } else {
        Seq::empty()
    }
}

/// A record as a row of cells.
pub open spec fn table_row(
    record: Map<Seq<char>, Seq<char>>,
    columns: Seq<Seq<char>>,
) -> Seq<Seq<char>> {
    columns.map_values(|column: Seq<char>| cell(record, column))
}

/// The columns stand in the order of their names, each once.
pub open spec fn increasing(columns: Seq<Seq<char>>) -> bool {
    forall|i: int, j: int|
        0 <= i < j < columns.len() ==> text::precedes(#[trigger] columns[i], #[trigger] columns[j])
}

/// The columns are the keys of the records.
pub open spec fn lists_keys(
    columns: Seq<Seq<char>>,
    records: Seq<Map<Seq<char>, Seq<char>>>,
) -> bool {
    forall|key: Seq<char>| #[trigger]
        columns.contains(key) <==> exists|i: int|
            0 <= i < records.len() && (#[trigger] records[i]).dom().contains(key)
}

/// The keys of the records, each once, in order.
pub open spec fn key_columns(records: Seq<Map<Seq<char>, Seq<char>>>) -> Seq<Seq<char>> {
    choose|columns: Seq<Seq<char>>| increasing(columns) && lists_keys(columns, records)
}

proof fn lemma_increasing_unique(a: Seq<Seq<char>>, b: Seq<Seq<char>>)
    requires
        increasing(a),
        increasing(b),
        forall|key: Seq<char>| #[trigger] a.contains(key) <==> #[trigger] b.contains(key),
    ensures
        a == b,
    decreases a.len(),
{
    if a.len() == 0 {
        if b.len() > 0 {
            assert(b.contains(b[0]));
            assert(a.contains(b[0]));
        }
        assert(a =~= b);
    } else {
        let x = a.last();
        assert(a.contains(x));
        assert(b.contains(x));
        let y = b.last();
        assert(b.contains(y));
        assert(a.contains(y));
        let i = choose|i: int| 0 <= i < a.len() && a[i] == y;
        let j = choose|j: int| 0 <= j < b.len() && b[j] == x;
        if x != y {
            assert(text::precedes(x, y)) by {
                assert(j < b.len() - 1);
            }
            assert(text::precedes(y, x)) by {
                assert(i < a.len() - 1);
            }
            text::precedes_is_transitive(x, y, x);
            text::precedes_is_irreflexive(x);
        }
        text::precedes_is_irreflexive(x);
        let a0 = a.drop_last();
        let b0 = b.drop_last();
        assert forall|key: Seq<char>| #[trigger] a0.contains(key) <==> #[trigger] b0.contains(
            key,
        ) by {
            if a0.contains(key) {
                let k = choose|k: int| 0 <= k < a0.len() && a0[k] == key;
                assert(a[k] == key);
                assert(a.contains(key));
                assert(b.contains(key));
                let m = choose|m: int| 0 <= m < b.len() && b[m] == key;
                assert(text::precedes(a[k], a[a.len() - 1]));
                assert(m < b.len() - 1);
                assert(b0[m] == key);
            }
            if b0.contains(key) {
                let k = choose|k: int| 0 <= k < b0.len() && b0[k] == key;
                assert(b[k] == key);
                assert(b.contains(key));
                assert(a.contains(key));
                let m = choose|m: int| 0 <= m < a.len() && a[m] == key;
                assert(text::precedes(b[k], b[b.len() - 1]));
                assert(m < a.len() - 1);
                assert(a0[m] == key);
            }
        }
        lemma_increasing_unique(a0, b0);
        assert(a =~= a0.push(x));
        assert(b =~= b0.push(y));
    }
}

/// There is no second way to list the keys in order.
pub proof fn key_columns_are_unique(
    columns: Seq<Seq<char>>,
    records: Seq<Map<Seq<char>, Seq<char>>>,
)
    requires
        increasing(columns),
        lists_keys(columns, records),
    ensures
        key_columns(records) == columns,
{
    let other = key_columns(records);
    assert forall|key: Seq<char>| #[trigger] columns.contains(key) <==> #[trigger] other.contains(
        key,
    ) by {}
    lemma_increasing_unique(columns, other);
}

proof fn lemma_with_name(columns: Seq<Seq<char>>, name: Seq<char>) -> (r: Seq<Seq<char>>)
    requires
        increasing(columns),
        !columns.contains(name),
    ensures
        increasing(r),
        forall|key: Seq<char>| #[trigger]
            r.contains(key) <==> columns.contains(key) || key == name,
    decreases columns.len(),
{
    if columns.len() == 0 || text::precedes(columns.last(), name) {
        let r = columns.push(name);
        assert forall|i: int, j: int| 0 <= i < j < r.len() implies text::precedes(
            #[trigger] r[i],
            #[trigger] r[j],
        ) by {
            if j == columns.len() && i < columns.len() - 1 {
                assert(text::precedes(columns[i], columns[columns.len() - 1]));
                text::precedes_is_transitive(columns[i], columns.last(), name);
            } else if j < columns.len() {
                assert(text::precedes(columns[i], columns[j]));
            }
        }
        assert forall|key: Seq<char>| #[trigger] r.contains(key) <==> columns.contains(key) || key
            == name by {
            if columns.contains(key) {
                let k = choose|k: int| 0 <= k < columns.len() && columns[k] == key;
                assert(r[k] == key);
            }
            assert(r[columns.len() as int] == name);
        }
        r
    } else {
        let last = columns.last();
        let rest = columns.drop_last();
        assert(columns.contains(last)) by {
            assert(columns[columns.len() - 1] == last);
        }
        assert forall|i: int, j: int| 0 <= i < j < rest.len() implies text::precedes(
            #[trigger] rest[i],
            #[trigger] rest[j],
        ) by {
            assert(text::precedes(columns[i], columns[j]));
        }
        let before = lemma_with_name(rest, name);
        text::precedes_is_total(last, name);
        let r = before.push(last);
        assert forall|i: int, j: int| 0 <= i < j < r.len() implies text::precedes(
            #[trigger] r[i],
            #[trigger] r[j],
        ) by {
            if j < before.len() {
                assert(text::precedes(before[i], before[j]));
            } else {
                assert(before.contains(before[i]));
                if before[i] != name {
                    let k = choose|k: int| 0 <= k < rest.len() && rest[k] == before[i];
                    assert(text::precedes(columns[k], columns[columns.len() - 1]));
                }
            }
        }
        assert forall|key: Seq<char>| #[trigger] r.contains(key) <==> columns.contains(key) || key
            == name by {
            if r.contains(key) {
                let k = choose|k: int| 0 <= k < r.len() && r[k] == key;
                if k < before.len() {
                    assert(before.contains(key));
                    if rest.contains(key) {
                        let m = choose|m: int| 0 <= m < rest.len() && rest[m] == key;
                        assert(columns[m] == key);
                    }
                }
            }
            if columns.contains(key) || key == name {
                if key == last {
                    assert(r[before.len() as int] == key);
                } else {
                    if columns.contains(key) {
                        let m = choose|m: int| 0 <= m < columns.len() && columns[m] == key;
                        assert(rest[m] == key);
                    }
                    assert(before.contains(key));
                    let k = choose|k: int| 0 <= k < before.len() && before[k] == key;
                    assert(r[k] == key);
                }
            }
        }
        r
    }
}

proof fn lemma_listing(names: Set<Seq<char>>) -> (r: Seq<Seq<char>>)
    requires
        names.finite(),
    ensures
        increasing(r),
        forall|key: Seq<char>| #[trigger] r.contains(key) <==> names.contains(key),
    decreases names.len(),
{
    if names.len() == 0 {
        assert(names =~= Set::empty());
        Seq::empty()
    } else {
        let name = names.choose();
        let before = lemma_listing(names.remove(name));
        let r = lemma_with_name(before, name);
        assert forall|key: Seq<char>| #[trigger] r.contains(key) <==> names.contains(key) by {
            assert(before.contains(key) <==> names.remove(name).contains(key));
        }
        r
    }
}

/// The keys of some records.
spec fn key_set(records: Seq<Map<Seq<char>, Seq<char>>>) -> Set<Seq<char>>
    decreases records.len(),
{
    if records.len() == 0 {
        Set::empty()
    } else {
        key_set(records.drop_last()).union(records.last().dom())
    }
}

proof fn lemma_key_set(records: Seq<Map<Seq<char>, Seq<char>>>)
    requires
        forall|i: int| 0 <= i < records.len() ==> (#[trigger] records[i]).dom().finite(),
    ensures
        key_set(records).finite(),
        forall|key: Seq<char>| #[trigger]
            key_set(records).contains(key) <==> exists|i: int|
                0 <= i < records.len() && (#[trigger] records[i]).dom().contains(key),
    decreases records.len(),
{
    if records.len() > 0 {
        let before = records.drop_last();
        assert forall|i: int| 0 <= i < before.len() implies (
        #[trigger] before[i]).dom().finite() by {
            assert(records[i].dom().finite());
        }
        lemma_key_set(before);
        assert(records[records.len() - 1].dom().finite());
        assert forall|key: Seq<char>| #[trigger]
            key_set(records).contains(key) <==> exists|i: int|
                0 <= i < records.len() && (#[trigger] records[i]).dom().contains(key) by {
            if key_set(before).contains(key) {
                let i = choose|i: int|
                    0 <= i < before.len() && (#[trigger] before[i]).dom().contains(key);
                assert(records[i].dom().contains(key));
            }
            if records.last().dom().contains(key) {
                assert(records[records.len() - 1].dom().contains(key));
            }
            if exists|i: int|
                0 <= i < records.len() && (#[trigger] records[i]).dom().contains(key) {
                let i = choose|i: int|
                    0 <= i < records.len() && (#[trigger] records[i]).dom().contains(key);
                if i < before.len() {
                    assert(before[i].dom().contains(key));
                }
            }
        }
    }
}

/// The keys of records that have finitely many can be listed in order, so the columns are just
/// those keys, and they stand in order.
pub proof fn key_columns_list_every_key(records: Seq<Map<Seq<char>, Seq<char>>>)
    requires
        forall|i: int| 0 <= i < records.len() ==> (#[trigger] records[i]).dom().finite(),
    ensures
        increasing(key_columns(records)),
        lists_keys(key_columns(records), records),
{
    lemma_key_set(records);
    let columns = lemma_listing(key_set(records));
    assert(lists_keys(columns, records)) by {
        assert forall|key: Seq<char>| #[trigger]
            columns.contains(key) <==> exists|i: int|
                0 <= i < records.len() && (#[trigger] records[i]).dom().contains(key) by {
            assert(key_set(records).contains(key) <==> columns.contains(key));
        }
    }
    key_columns_are_unique(columns, records);
}

/// The text that a member's value shows in a cell.
pub open spec fn member_text(member: MemberView) -> Seq<char> {
    match member {
        MemberView::Null => Seq::empty(),
        MemberView::Bool(value) => if value {
            "true"@
        } else {
            "false"@
        },
        MemberView::Text(value) => value,
        MemberView::Written(value) => value,
    }
}

/// The members of an object as a map.
pub open spec fn member_map(members: Seq<(Seq<char>, MemberView)>) -> Map<Seq<char>, Seq<char>>
    decreases members.len(),
{
    if members.len() == 0 {
        Map::empty()
    } else {
        member_map(members.drop_last()).insert(members.last().0, member_text(members.last().1))
    }
}

/// The record that a JSON value makes: an object that has members makes one.
pub open spec fn node_record(node: NodeView) -> Option<Map<Seq<char>, Seq<char>>> {
    match node {
        Some(members) => if members.len() > 0 {
            Some(member_map(members))
        } else {
            None
        },
        None => None,
    }
}

/// The table of some records that were found among so many candidates.
pub open spec fn keyed_table(
    records: Seq<Map<Seq<char>, Seq<char>>>,
    scanned: nat,
) -> TableView {
    let columns = key_columns(records);
    TableView {
        columns,
        rows: records.map_values(|record: Map<Seq<char>, Seq<char>>| table_row(record, columns)),
        error: None,
        scanned,
        matched: records.len(),
    }
}

/// The table of a whole document: of the first elements of an array, or of one value.
pub open spec fn document_table(document: DocumentView, max_rows: nat) -> TableView {
    match document {
        DocumentView::Array(nodes) => {
            let count = if nodes.len() <= max_rows {
                nodes.len()
            } else {
                max_rows
            };
            keyed_table(
                kept(nodes.take(count as int).map_values(|node: NodeView| node_record(node))),
                count,
            )
        },
        DocumentView::Single(node) => keyed_table(kept(seq![node_record(node)]), 1),
    }
}

/// The record of one line of newline-delimited JSON.
pub open spec fn document_record(document: Option<DocumentView>) -> Option<
    Map<Seq<char>, Seq<char>>,
> {
    match document {
        Some(DocumentView::Single(node)) => node_record(node),
        _ => None,
    }
}

/// The table of newline-delimited JSON, of which each line was read on its own.
pub open spec fn documents_table(
    documents: Seq<Option<DocumentView>>,
    max_rows: nat,
) -> TableView {
    let outcomes = documents.map_values(|document: Option<DocumentView>| document_record(document));
    keyed_table(kept(scanned_part(outcomes, max_rows)), scan_length(outcomes, max_rows))
}

/// A JSON value is an object with a member of this name.
pub open spec fn has_member(node: NodeView, name: Seq<char>) -> bool {
    match node {
        Some(members) => exists|j: int|
            0 <= j < members.len() && (#[trigger] members[j]).0 == name,
        None => false,
    }
}

proof fn lemma_member_map(members: Seq<(Seq<char>, MemberView)>)
    ensures
        member_map(members).dom().finite(),
        forall|name: Seq<char>| #[trigger]
            member_map(members).dom().contains(name) <==> exists|j: int|
                0 <= j < members.len() && (#[trigger] members[j]).0 == name,
    decreases members.len(),
{
    if members.len() > 0 {
        let before = members.drop_last();
        lemma_member_map(before);
        assert forall|name: Seq<char>| #[trigger]
            member_map(members).dom().contains(name) <==> exists|j: int|
                0 <= j < members.len() && (#[trigger] members[j]).0 == name by {
            if member_map(before).dom().contains(name) {
                let j = choose|j: int| 0 <= j < before.len() && (#[trigger] before[j]).0 == name;
                assert(members[j].0 == name);
            }
            assert(members[members.len() - 1] == members.last());
            if exists|j: int| 0 <= j < members.len() && (#[trigger] members[j]).0 == name {
                let j = choose|j: int| 0 <= j < members.len() && (#[trigger] members[j]).0 == name;
                if j < before.len() {
                    assert(before[j].0 == name);
                }
            }
        }
    }
}

proof fn lemma_node_record(node: NodeView)
    ensures
        node_record(node) matches Some(record) ==> record.dom().finite(),
        forall|name: Seq<char>|
            #![trigger has_member(node, name)]
            has_member(node, name) <==> (node_record(node) matches Some(record)
                && record.dom().contains(name)),
{
    if let Some(members) = node {
        lemma_member_map(members);
    }
}

proof fn lemma_kept<T>(outcomes: Seq<Option<T>>)
    ensures
        forall|k: int|
            0 <= k < kept(outcomes).len() ==> exists|i: int|
                0 <= i < outcomes.len() && outcomes[i] == Some(#[trigger] kept(outcomes)[k]),
        forall|i: int|
            0 <= i < outcomes.len() && outcomes[i] is Some ==> kept(outcomes).contains(
                (#[trigger] outcomes[i]).unwrap(),
            ),
    decreases outcomes.len(),
{
    if outcomes.len() > 0 {
        let before = outcomes.drop_last();
        lemma_kept(before);
        assert forall|k: int| 0 <= k < kept(outcomes).len() implies exists|i: int|
            0 <= i < outcomes.len() && outcomes[i] == Some(#[trigger] kept(outcomes)[k]) by {
            if k < kept(before).len() {
                assert(kept(outcomes)[k] == kept(before)[k]);
                let i = choose|i: int|
                    0 <= i < before.len() && before[i] == Some(kept(before)[k]);
                assert(outcomes[i] == Some(kept(outcomes)[k]));
            } else {
                assert(outcomes[outcomes.len() - 1] == Some(kept(outcomes)[k]));
            }
        }
        assert forall|i: int|
            0 <= i < outcomes.len() && outcomes[i] is Some implies kept(outcomes).contains(
            (#[trigger] outcomes[i]).unwrap(),
        ) by {
            if i < before.len() {
                assert(before[i] is Some);
                assert(kept(before).contains(before[i].unwrap()));
                let k = choose|k: int|
                    0 <= k < kept(before).len() && kept(before)[k] == before[i].unwrap();
                assert(kept(outcomes)[k] == outcomes[i].unwrap());
            } else {
                assert(kept(outcomes)[kept(outcomes).len() - 1] == outcomes[i].unwrap());
            }
        }
    }
}

/// The columns of newline-delimited JSON are the keys of the records that were found, in order.
pub proof fn tables_of_documents_list_every_key(
    documents: Seq<Option<DocumentView>>,
    max_rows: nat,
)
    ensures
        increasing(documents_table(documents, max_rows).columns),
        lists_keys(
            documents_table(documents, max_rows).columns,
            kept(
                scanned_part(
                    documents.map_values(
                        |document: Option<DocumentView>| document_record(document),
                    ),
                    max_rows,
                ),
            ),
        ),
{
    let outcomes = documents.map_values(
        |document: Option<DocumentView>| document_record(document),
    );
    let part = scanned_part(outcomes, max_rows);
    scan_keeps_within_limit(outcomes, max_rows);
    let records = kept(part);
    lemma_kept(part);
    assert forall|k: int| 0 <= k < records.len() implies (#[trigger] records[k]).dom().finite() by {
        let i = choose|i: int| 0 <= i < part.len() && part[i] == Some(records[k]);
        assert(part[i] == document_record(documents[i]));
        if let Some(DocumentView::Single(node)) = documents[i] {
            lemma_node_record(node);
        }
    }
    key_columns_list_every_key(records);
}

/// The columns of a whole document are the names of the members of its objects, in order: of
/// those among the first elements of an array, or of the one value.
pub proof fn tables_of_a_document_list_every_member(document: DocumentView, max_rows: nat)
    ensures
        increasing(document_table(document, max_rows).columns),
        forall|name: Seq<char>| #[trigger]
            document_table(document, max_rows).columns.contains(name) <==> match document {
                DocumentView::Array(nodes) => exists|i: int|
                    0 <= i < nodes.len() && i < max_rows && has_member(#[trigger] nodes[i], name),
                DocumentView::Single(node) => has_member(node, name),
            },
{
    let nodes = match document {
        DocumentView::Array(nodes) => nodes.take(
            if nodes.len() <= max_rows {
                nodes.len() as int
            } else {
                max_rows as int
            },
        ),
        DocumentView::Single(node) => seq![node],
    };
    let outcomes = nodes.map_values(|node: NodeView| node_record(node));
    let records = kept(outcomes);
    let columns = document_table(document, max_rows).columns;
    if let DocumentView::Single(node) = document {
        assert(outcomes =~= seq![node_record(node)]);
    }
    assert(columns == key_columns(records));
    lemma_kept(outcomes);
    assert forall|k: int| 0 <= k < records.len() implies (#[trigger] records[k]).dom().finite() by {
        let i = choose|i: int| 0 <= i < outcomes.len() && outcomes[i] == Some(records[k]);
        lemma_node_record(nodes[i]);
    }
    key_columns_list_every_key(records);
    assert forall|name: Seq<char>| #[trigger]
        columns.contains(name) <==> exists|i: int|
            0 <= i < nodes.len() && has_member(#[trigger] nodes[i], name) by {
        if columns.contains(name) {
            let k = choose|k: int|
                0 <= k < records.len() && (#[trigger] records[k]).dom().contains(name);
            let i = choose|i: int| 0 <= i < outcomes.len() && outcomes[i] == Some(records[k]);
            lemma_node_record(nodes[i]);
            assert(has_member(nodes[i], name));
        }
        if exists|i: int| 0 <= i < nodes.len() && has_member(#[trigger] nodes[i], name) {
            let i = choose|i: int| 0 <= i < nodes.len() && has_member(#[trigger] nodes[i], name);
            lemma_node_record(nodes[i]);
            assert(outcomes[i] is Some);
            assert(records.contains(outcomes[i].unwrap()));
            let k = choose|k: int| 0 <= k < records.len() && records[k] == outcomes[i].unwrap();
            assert(records[k].dom().contains(name));
        }
    }
    assert forall|name: Seq<char>| #[trigger]
        columns.contains(name) <==> match document {
            DocumentView::Array(all) => exists|i: int|
                0 <= i < all.len() && i < max_rows && has_member(#[trigger] all[i], name),
            DocumentView::Single(node) => has_member(node, name),
        } by {
        match document {
            DocumentView::Array(all) => {
                if columns.contains(name) {
                    let i = choose|i: int|
                        0 <= i < nodes.len() && has_member(#[trigger] nodes[i], name);
                    assert(has_member(all[i], name));
                }
                if exists|i: int|
                    0 <= i < all.len() && i < max_rows && has_member(#[trigger] all[i], name) {
                    let i = choose|i: int|
                        0 <= i < all.len() && i < max_rows && has_member(#[trigger] all[i], name);
                    assert(has_member(nodes[i], name));
                }
            },
            DocumentView::Single(node) => {
                assert(nodes[0] == node);
            },
        }
    }
}

/// What a record holds in a column.
fn lookup(entries: &Vec<(String, String)>, column: &String) -> (r: String)
    ensures
        r@ == cell(entry_map(entries@), column@),
{
    let mut i: usize = entries.len();
    assert(entries@.take(i as int) =~= entries@);
    while i > 0
        invariant
            i <= entries@.len(),
            cell(entry_map(entries@.take(i as int)), column@) == cell(
                entry_map(entries@),
                column@,
            ),
        decreases i,
    {
        assert(entries@.take(i as int).drop_last() =~= entries@.take(i - 1));
        i -= 1;
        if entries[i].0 == *column {
            return entries[i].1.clone();
        }
    }
    String::new()
}

/// A record as a row of cells.
fn row_of(entries: &Vec<(String, String)>, columns: &Vec<String>) -> (r: Vec<String>)
    ensures
        text::texts(r@) == table_row(entry_map(entries@), text::texts(columns@)),
{
    let mut out: Vec<String> = Vec::new();
    let mut i: usize = 0;
    while i < columns.len()
        invariant
            i <= columns@.len(),
            out@.len() == i,
            forall|k: int|
                0 <= k < i ==> (#[trigger] out@[k])@ == cell(entry_map(entries@), columns@[k]@),
        decreases columns@.len() - i,
    {
        let value = lookup(entries, &columns[i]);
        out.push(value);
        i += 1;
    }
    assert(text::texts(out@) =~= table_row(entry_map(entries@), text::texts(columns@)));
    out
}

/// Adds a key to columns that stand in order.
fn add_column(columns: &mut Vec<String>, key: &String)
    requires
        increasing(text::texts(old(columns)@)),
    ensures
        increasing(text::texts(final(columns)@)),
        forall|other: Seq<char>| #[trigger]
            text::texts(final(columns)@).contains(other) <==> (text::texts(old(columns)@).contains(
                other,
            ) || other == key@),
{
    let ghost before = text::texts(columns@);
    let mut i: usize = 0;
    while i < columns.len() && text::text_precedes(&columns[i], key)
        invariant
            i <= columns@.len(),
            text::texts(columns@) == before,
            forall|k: int| 0 <= k < i ==> text::precedes(#[trigger] before[k], key@),
        decreases columns@.len() - i,
    {
        assert(before[i as int] == columns@[i as int]@);
        i += 1;
    }
    if i < columns.len() && columns[i] == *key {
        assert(before[i as int] == key@);
        assert(before.contains(key@));
        return ;
    }
    proof {
        if i < columns@.len() {
            assert(before[i as int] == columns@[i as int]@);
            text::precedes_is_total(before[i as int], key@);
        }
    }
    columns.insert(i, key.clone());
    let ghost after = text::texts(columns@);
    assert(after =~= before.insert(i as int, key@));
    assert forall|a: int, b: int| 0 <= a < b < after.len() implies text::precedes(
        #[trigger] after[a],
        #[trigger] after[b],
    ) by {
        if a == i && b > i + 1 {
            text::precedes_is_transitive(key@, before[i as int], before[b - 1]);
        } else if a < i && b < i {
            assert(text::precedes(before[a], before[b]));
        } else if a < i && b > i {
            assert(text::precedes(before[a], before[b - 1]));
        } else if a > i {
            assert(text::precedes(before[a - 1], before[b - 1]));
        }
    }
    assert forall|other: Seq<char>| #[trigger]
        after.contains(other) <==> (before.contains(other) || other == key@) by {
        if before.contains(other) {
            let k = choose|k: int| 0 <= k < before.len() && before[k] == other;
            if k < i {
                assert(after[k] == other);
            } else {
                assert(after[k + 1] == other);
            }
        }
        if other == key@ {
            assert(after[i as int] == other);
        }
        if after.contains(other) {
            let k = choose|k: int| 0 <= k < after.len() && after[k] == other;
            if k < i {
                assert(before[k] == other);
            } else if k > i {
                assert(before[k - 1] == other);
            }
        }
    }
}

proof fn lemma_entry_map_keys(entries: Seq<(String, String)>, key: Seq<char>)
    ensures
        entry_map(entries).dom().contains(key) <==> exists|i: int|
            0 <= i < entries.len() && (#[trigger] entries[i]).0@ == key,
    decreases entries.len(),
{
    if entries.len() > 0 {
        let before = entries.drop_last();
        lemma_entry_map_keys(before, key);
        if entry_map(before).dom().contains(key) {
            let i = choose|i: int| 0 <= i < before.len() && (#[trigger] before[i]).0@ == key;
            assert(entries[i].0@ == key);
        }
        if entries.last().0@ == key {
            assert(entries[entries.len() - 1].0@ == key);
        }
        if exists|i: int| 0 <= i < entries.len() && (#[trigger] entries[i]).0@ == key {
            let i = choose|i: int| 0 <= i < entries.len() && (#[trigger] entries[i]).0@ == key;
            if i < before.len() {
                assert(before[i].0@ == key);
            }
        }
    }
}

/// The keys of all records, each once, in order.
fn columns_of(records: &Vec<Vec<(String, String)>>) -> (r: Vec<String>)
    ensures
        text::texts(r@) == key_columns(entry_maps(records@)),
{
    let mut columns: Vec<String> = Vec::new();
    let ghost maps = entry_maps(records@);
    let mut i: usize = 0;
    while i < records.len()
        invariant
            i <= records@.len(),
            maps == entry_maps(records@),
            increasing(text::texts(columns@)),
            lists_keys(text::texts(columns@), maps.take(i as int)),
        decreases records@.len() - i,
    {
        let entries = &records[i];
        let ghost done = text::texts(columns@);
        let mut j: usize = 0;
        while j < entries.len()
            invariant
                i < records@.len(),
                entries@ == records@[i as int]@,
                j <= entries@.len(),
                increasing(text::texts(columns@)),
                forall|key: Seq<char>| #[trigger]
                    text::texts(columns@).contains(key) <==> (done.contains(key) || exists|k: int|
                        0 <= k < j && (#[trigger] entries@[k]).0@ == key),
            decreases entries@.len() - j,
        {
            let ghost before = text::texts(columns@);
            add_column(&mut columns, &entries[j].0);
            assert forall|key: Seq<char>| #[trigger]
                text::texts(columns@).contains(key) <==> (done.contains(key) || exists|k: int|
                    0 <= k < j + 1 && (#[trigger] entries@[k]).0@ == key) by {
                assert(text::texts(columns@).contains(key) <==> before.contains(key) || key
                    == entries@[j as int].0@);
            }
            j += 1;
        }
        let ghost upto = maps.take(i + 1);
        assert forall|key: Seq<char>| #[trigger]
            text::texts(columns@).contains(key) <==> exists|k: int|
                0 <= k < upto.len() && (#[trigger] upto[k]).dom().contains(key) by {
            lemma_entry_map_keys(entries@, key);
            assert(upto[i as int] == entry_map(entries@));
            if done.contains(key) {
                let k = choose|k: int|
                    0 <= k < i && (#[trigger] maps.take(i as int)[k]).dom().contains(key);
                assert(upto[k].dom().contains(key));
            }
            if exists|k: int| 0 <= k < upto.len() && (#[trigger] upto[k]).dom().contains(key) {
                let k = choose|k: int|
                    0 <= k < upto.len() && (#[trigger] upto[k]).dom().contains(key);
                if k < i {
                    assert(maps.take(i as int)[k].dom().contains(key));
                    assert(done.contains(key));
                }
            }
        }
        i += 1;
    }
    assert(maps.take(i as int) =~= maps);
    proof {
        key_columns_are_unique(text::texts(columns@), maps);
    }
    columns
}

/// The table of some records that were found among so many candidates.
fn table_of_records(records: &Vec<Vec<(String, String)>>, scanned: usize) -> (r: RecordTable)
    ensures
        r@ == keyed_table(entry_maps(records@), scanned as nat),
{
    let columns = columns_of(records);
    let rows = rows_of(records, &columns);
    let r = RecordTable {
        columns,
        rows: Arc::new(rows),
        error: None,
        scanned,
        matched: records.len(),
    };
    assert(r@ =~~= keyed_table(entry_maps(records@), scanned as nat));
    r
}

/// The records as rows of cells.
fn rows_of(records: &Vec<Vec<(String, String)>>, columns: &Vec<String>) -> (r: Vec<Vec<String>>)
    ensures
        cells(r@) == entry_maps(records@).map_values(
            |record: Map<Seq<char>, Seq<char>>| table_row(record, text::texts(columns@)),
        ),
{
    let mut out: Vec<Vec<String>> = Vec::new();
    let mut i: usize = 0;
    while i < records.len()
        invariant
            i <= records@.len(),
            out@.len() == i,
            forall|k: int|
                0 <= k < i ==> text::texts((#[trigger] out@[k])@) == table_row(
                    entry_map(records@[k]@),
                    text::texts(columns@),
                ),
        decreases records@.len() - i,
    {
        let row = row_of(&records[i], columns);
        out.push(row);
        i += 1;
    }
    assert(cells(out@) =~= entry_maps(records@).map_values(
        |record: Map<Seq<char>, Seq<char>>| table_row(record, text::texts(columns@)),
    ));
    out
}

/// The text that a member's value shows in a cell.
fn member_string(member: &JsonMember) -> (r: String)
    ensures
        r@ == member_text(member@),
{
    match member {
        JsonMember::Null => String::new(),
        JsonMember::Bool(value) => if *value {
            "true".to_owned()
        } else {
            "false".to_owned()
        },
        JsonMember::Text(value) => value.clone(),
        JsonMember::Written(value) => value.clone(),
    }
}

/// The record that a JSON value makes.
fn json_record(node: &JsonNode) -> (r: Option<Vec<(String, String)>>)
    ensures
        match r {
            Some(entries) => node_record(json::node_view(*node)) == Some(entry_map(entries@)),
            None => node_record(json::node_view(*node)) is None,
        },
{
    match node {
        Some(members) => {
            let ghost all = members@.map_values(
                |member: (String, JsonMember)| (member.0@, member.1@),
            );
            let mut entries: Vec<(String, String)> = Vec::new();
            let mut i: usize = 0;
            while i < members.len()
                invariant
                    i <= members@.len(),
                    all == members@.map_values(
                        |member: (String, JsonMember)| (member.0@, member.1@),
                    ),
                    entry_map(entries@) == member_map(all.take(i as int)),
                    entries@.len() == i,
                decreases members@.len() - i,
            {
                let ghost before = entries@;
                entries.push((members[i].0.clone(), member_string(&members[i].1)));
                assert(entries@.drop_last() =~= before);
                assert(all.take(i + 1).drop_last() =~= all.take(i as int));
                i += 1;
            }
            assert(all.take(i as int) =~= all);
            if entries.len() == 0 {
                None
            } else {
                Some(entries)
            }
        },
        None => None,
    }
}

/// The table of a whole JSON document.
pub fn table_of_document(document: &JsonDocument, max_rows: usize) -> (r: RecordTable)
    ensures
        r@ == document_table(document@, max_rows as nat),
{
    let mut records: Vec<Vec<(String, String)>> = Vec::new();
    match document {
        JsonDocument::Array(nodes) => {
            let count: usize = if nodes.len() <= max_rows {
                nodes.len()
            } else {
                max_rows
            };
            let ghost all = nodes@.map_values(|node: JsonNode| json::node_view(node));
            let ghost outcomes = all.take(count as int).map_values(
                |node: NodeView| node_record(node),
            );
            let mut i: usize = 0;
            while i < count
                invariant
                    i <= count <= nodes@.len(),
                    all == nodes@.map_values(|node: JsonNode| json::node_view(node)),
                    outcomes == all.take(count as int).map_values(
                        |node: NodeView| node_record(node),
                    ),
                    entry_maps(records@) == kept(outcomes.take(i as int)),
                decreases count - i,
            {
                assert(outcomes.take(i + 1).drop_last() =~= outcomes.take(i as int));
                assert(outcomes[i as int] == node_record(json::node_view(nodes@[i as int])));
                if let Some(entries) = json_record(&nodes[i]) {
                    let ghost before = records@;
                    records.push(entries);
                    assert(entry_maps(records@) =~= entry_maps(before).push(entry_map(entries@)));
                }
                i += 1;
            }
            assert(outcomes.take(i as int) =~= outcomes);
            table_of_records(&records, count)
        },
        JsonDocument::Single(node) => {
            let ghost outcomes = seq![node_record(json::node_view(*node))];
            assert(outcomes.drop_last() =~= Seq::empty());
            assert(kept(outcomes.drop_last()) =~= Seq::empty());
            if let Some(entries) = json_record(node) {
                records.push(entries);
                assert(entry_maps(records@) =~= kept(outcomes));
            } else {
                assert(entry_maps(records@) =~= kept(outcomes));
            }
            table_of_records(&records, 1)
        },
    }
}

/// What some documents hold.
pub open spec fn document_views(documents: Seq<Option<JsonDocument>>) -> Seq<
    Option<DocumentView>,
> {
    documents.map_values(|document: Option<JsonDocument>| json::maybe_document(document))
}

/// The table of newline-delimited JSON, of which each line was read on its own.
pub fn table_of_documents(documents: &Vec<Option<JsonDocument>>, max_rows: usize) -> (r:
    RecordTable)
    ensures
        r@ == documents_table(document_views(documents@), max_rows as nat),
{
    let mut records: Vec<Vec<(String, String)>> = Vec::new();
    let ghost all = document_views(documents@);
    let ghost outcomes = all.map_values(
        |document: Option<DocumentView>| document_record(document),
    );
    let mut i: usize = 0;
    while i < documents.len()
        invariant
            i <= documents@.len(),
            all == document_views(documents@),
            outcomes == all.map_values(
                |document: Option<DocumentView>| document_record(document),
            ),
            entry_maps(records@) == kept(outcomes.take(i as int)),
            records@.len() < 1 || records@.len() < max_rows,
        decreases documents@.len() - i,
    {
        assert(outcomes.take(i + 1).drop_last() =~= outcomes.take(i as int));
        assert(all[i as int] == json::maybe_document(documents@[i as int]));
        assert(outcomes[i as int] == document_record(all[i as int]));
        let ghost before = records@;
        assert(entry_maps(before).len() == before.len());
        if let Some(JsonDocument::Single(node)) = &documents[i] {
            if let Some(entries) = json_record(node) {
                records.push(entries);
                assert(entry_maps(records@) =~= entry_maps(before).push(entry_map(entries@)));
                if records.len() >= max_rows {
                    proof {
                        scan_stops_where_full(outcomes, max_rows as nat, i + 1);
                    }
                    return table_of_records(&records, i + 1);
                }
            }
        }
        i += 1;
    }
    proof {
        assert(outcomes.take(i as int) =~= outcomes);
        assert(entry_maps(records@).len() == records@.len());
        if outcomes.len() > 0 {
            lemma_kept_grows(outcomes, outcomes.len() - 1);
            assert(outcomes.take(outcomes.len() - 1) =~= outcomes.drop_last());
        }
        scan_goes_to_the_end(outcomes, max_rows as nat);
        assert(scanned_part(outcomes, max_rows as nat) =~= outcomes);
    }
    table_of_records(&records, documents.len())
}

/// The name of a capture group without one: `group_` and its number.
pub open spec fn group_name(index: nat) -> Seq<char> {
    "group_"@ + text::decimal(index)
}

/// The column of each capture group after group 0, or the one column of a pattern without.
pub open spec fn group_columns(groups: Seq<Option<Seq<char>>>) -> Seq<Seq<char>> {
    if groups.len() <= 1 {
        seq!["match"@]
    } else {
        Seq::new(
            (groups.len() - 1) as nat,
            |i: int|
                match groups[i + 1] {
                    Some(name) => name,
                    None => group_name((i + 1) as nat),
                },
        )
    }
}

/// What a group holds; a group that took no part in the match holds nothing.
pub open spec fn group_text(part: Option<Seq<char>>) -> Seq<char> {
    match part {
        Some(value) => value,
        None => Seq::empty(),
    }
}

/// The first `count` columns with the texts of their groups as a map.
pub open spec fn group_map(
    columns: Seq<Seq<char>>,
    captures: Seq<Option<Seq<char>>>,
    count: nat,
) -> Map<Seq<char>, Seq<char>>
    decreases count,
{
    if count == 0 {
        Map::empty()
    } else {
        group_map(columns, captures, (count - 1) as nat).insert(
            columns[count - 1],
            group_text(captures[count as int]),
        )
    }
}

/// The record of a matching line.
pub open spec fn capture_record(
    columns: Seq<Seq<char>>,
    captures: Option<Seq<Option<Seq<char>>>>,
) -> Option<Map<Seq<char>, Seq<char>>> {
    match captures {
        None => None,
        Some(parts) => if parts.len() > 1 {
            Some(group_map(columns, parts, columns.len()))
        } else if parts.len() == 1 && parts[0] is Some {
            Some(map!["match"@ => parts[0].unwrap()])
        } else {
            None
        },
    }
}

/// The table of lines of text, of which each was matched on its own.
pub open spec fn captures_table(
    groups: Seq<Option<Seq<char>>>,
    captures: Seq<Option<Seq<Option<Seq<char>>>>>,
    max_rows: nat,
) -> TableView {
    let columns = group_columns(groups);
    let outcomes = captures.map_values(
        |line: Option<Seq<Option<Seq<char>>>>| capture_record(columns, line),
    );
    let records = kept(scanned_part(outcomes, max_rows));
    TableView {
        columns,
        rows: records.map_values(|record: Map<Seq<char>, Seq<char>>| table_row(record, columns)),
        error: None,
        scanned: scan_length(outcomes, max_rows),
        matched: records.len(),
    }
}

proof fn lemma_group_map(
    columns: Seq<Seq<char>>,
    captures: Seq<Option<Seq<char>>>,
    count: nat,
    m: int,
)
    requires
        0 <= m < count <= columns.len(),
        forall|x: int| m < x < count ==> #[trigger] columns[x] != columns[m],
    ensures
        group_map(columns, captures, count).dom().contains(columns[m]),
        group_map(columns, captures, count)[columns[m]] == group_text(captures[m + 1]),
    decreases count,
{
    if m < count - 1 {
        lemma_group_map(columns, captures, (count - 1) as nat, m);
        assert(columns[count - 1] != columns[m]);
    }
}

/// The row of a matching line: for a pattern without groups the match itself, else what the
/// groups hold, each in its own column. Of several groups with one column the last counts.
proof fn lemma_capture_row(groups: Seq<Option<Seq<char>>>, parts: Seq<Option<Seq<char>>>)
    requires
        groups.len() >= 1,
        parts.len() == groups.len(),
        parts[0] is Some,
    ensures
        ({
            let columns = group_columns(groups);
            let record = capture_record(columns, Some(parts));
            let row = table_row(record.unwrap(), columns);
            &&& record is Some
            &&& row.len() == columns.len()
            &&& groups.len() == 1 ==> row == seq![parts[0].unwrap()]
            &&& groups.len() > 1 ==> forall|j: int, m: int|
                #![trigger row[j], columns[m]]
                0 <= j < columns.len() && 0 <= m < columns.len() && columns[m] == columns[j] && (
                forall|x: int| m < x < columns.len() ==> #[trigger] columns[x] != columns[m])
                    ==> row[j] == group_text(parts[m + 1])
        }),
{
    let columns = group_columns(groups);
    let record = capture_record(columns, Some(parts));
    let row = table_row(record.unwrap(), columns);
    if groups.len() == 1 {
        assert(columns[0] == "match"@);
        assert(row =~= seq![parts[0].unwrap()]);
    } else {
        assert forall|j: int, m: int|
            #![trigger row[j], columns[m]]
            0 <= j < columns.len() && 0 <= m < columns.len() && columns[m] == columns[j] && (
            forall|x: int| m < x < columns.len() ==> #[trigger] columns[x] != columns[m]) implies
            row[j] == group_text(parts[m + 1]) by {
            lemma_group_map(columns, parts, columns.len(), m);
        }
    }
}

proof fn lemma_kept_captures(
    columns: Seq<Seq<char>>,
    captures: Seq<Option<Seq<Option<Seq<char>>>>>,
)
    requires
        forall|i: int|
            0 <= i < captures.len() && #[trigger] captures[i] is Some ==> capture_record(
                columns,
                captures[i],
            ) is Some,
    ensures
        ({
            let records = kept(
                captures.map_values(
                    |line: Option<Seq<Option<Seq<char>>>>| capture_record(columns, line),
                ),
            );
            let found = captures.filter(|line: Option<Seq<Option<Seq<char>>>>| line is Some);
            &&& records.len() == found.len()
            &&& forall|k: int|
                0 <= k < records.len() ==> (#[trigger] found[k]) is Some && captures.contains(
                    found[k],
                ) && capture_record(columns, found[k]) == Some(records[k])
        }),
    decreases captures.len(),
{
    reveal(Seq::filter);
    let f = |line: Option<Seq<Option<Seq<char>>>>| capture_record(columns, line);
    let g = |line: Option<Seq<Option<Seq<char>>>>| line is Some;
    if captures.len() > 0 {
        let before = captures.drop_last();
        assert forall|i: int| 0 <= i < before.len() && #[trigger] before[i] is Some implies
            capture_record(columns, before[i]) is Some by {
            assert(captures[i] is Some);
        }
        lemma_kept_captures(columns, before);
        assert(captures.map_values(f).drop_last() =~= before.map_values(f));
        assert(captures.map_values(f).last() == f(captures.last()));
        assert(captures[captures.len() - 1] == captures.last());
        let records = kept(captures.map_values(f));
        let found = captures.filter(g);
        assert forall|k: int| 0 <= k < records.len() implies (#[trigger] found[k]) is Some
            && captures.contains(found[k]) && capture_record(columns, found[k]) == Some(
            records[k],
        ) by {
            if k < before.filter(g).len() {
                assert(found[k] == before.filter(g)[k]);
                let i = choose|i: int| 0 <= i < before.len() && before[i] == found[k];
                assert(captures[i] == found[k]);
            }
        }
    }
}

/// The table of lines of text has a row for each line that matches, in their order, until the
/// limit, of at least one, is filled: no matching line is passed over, and looking goes on to the
/// last line unless the limit stops it. A pattern without groups has the one column `match`, in
/// which the whole match stands. Else each group after the whole match has a column, under its
/// name or `group_` with its number, in which its text stands, or nothing where it took no part.
pub proof fn every_matching_line_makes_a_row(
    groups: Seq<Option<Seq<char>>>,
    captures: Seq<Option<Seq<Option<Seq<char>>>>>,
    max_rows: nat,
)
    requires
        groups.len() >= 1,
        forall|i: int|
            0 <= i < captures_table(groups, captures, max_rows).scanned && i < captures.len() ==> (
            #[trigger] captures[i] matches Some(parts) ==> parts.len() == groups.len()
                && parts[0] is Some),
    ensures
        ({
            let table = captures_table(groups, captures, max_rows);
            let n = table.scanned as int;
            let found = captures.take(n).filter(
                |line: Option<Seq<Option<Seq<char>>>>| line is Some,
            );
            let limit = if max_rows == 0 {
                1
            } else {
                max_rows
            };
            &&& table.error is None
            &&& n <= captures.len()
            &&& table.rows.len() == found.len()
            &&& table.matched == found.len()
            &&& table.rows.len() <= limit
            &&& n < captures.len() ==> table.rows.len() == limit
            &&& table.rows.len() == limit ==> n > 0 && captures[n - 1] is Some
            &&& groups.len() == 1 ==> table.columns == seq!["match"@]
            &&& groups.len() > 1 ==> table.columns.len() == groups.len() - 1 && forall|j: int|
                0 <= j < table.columns.len() ==> #[trigger] table.columns[j] == match groups[j + 1] {
                    Some(name) => name,
                    None => "group_"@ + text::decimal((j + 1) as nat),
                }
            &&& forall|k: int|
                0 <= k < table.rows.len() ==> (#[trigger] table.rows[k]).len()
                    == table.columns.len()
            &&& groups.len() == 1 ==> forall|k: int|
                0 <= k < table.rows.len() ==> #[trigger] table.rows[k] == seq![
                    found[k].unwrap()[0].unwrap(),
                ]
            &&& groups.len() > 1 ==> forall|k: int, j: int, m: int|
                #![trigger table.rows[k][j], table.columns[m]]
                0 <= k < table.rows.len() && 0 <= j < table.columns.len() && 0 <= m
                    < table.columns.len() && table.columns[m] == table.columns[j] && (forall|x: int|
                    m < x < table.columns.len() ==> #[trigger] table.columns[x]
                        != table.columns[m]) ==> table.rows[k][j] == match found[k].unwrap()[m
                    + 1] {
                    Some(value) => value,
                    None => Seq::empty(),
                }
        }),
{
    let columns = group_columns(groups);
    let f = |line: Option<Seq<Option<Seq<char>>>>| capture_record(columns, line);
    let outcomes = captures.map_values(f);
    let table = captures_table(groups, captures, max_rows);
    let n = table.scanned as int;
    scan_stops_only_where_full(outcomes, max_rows);
    let seen = captures.take(n);
    assert(outcomes.take(n) =~= seen.map_values(f));
    assert forall|i: int| 0 <= i < seen.len() && #[trigger] seen[i] is Some implies capture_record(
        columns,
        seen[i],
    ) is Some by {
        assert(captures[i] is Some);
        lemma_capture_row(groups, seen[i].unwrap());
    }
    lemma_kept_captures(columns, seen);
    let found = seen.filter(|line: Option<Seq<Option<Seq<char>>>>| line is Some);
    let records = kept(outcomes.take(n));
    assert forall|k: int| 0 <= k < table.rows.len() implies {
        let row = #[trigger] table.rows[k];
        &&& found[k] is Some
        &&& found[k].unwrap().len() == groups.len()
        &&& found[k].unwrap()[0] is Some
        &&& row == table_row(capture_record(columns, found[k]).unwrap(), columns)
    } by {
        assert(found[k] is Some);
        let i = choose|i: int| 0 <= i < seen.len() && seen[i] == found[k];
        assert(captures[i] is Some);
        assert(records[k] == capture_record(columns, found[k]).unwrap());
    }
    assert forall|k: int| 0 <= k < table.rows.len() implies (#[trigger] table.rows[k]).len()
        == table.columns.len() by {
        lemma_capture_row(groups, found[k].unwrap());
    }
    if groups.len() == 1 {
        assert forall|k: int| 0 <= k < table.rows.len() implies #[trigger] table.rows[k] == seq![
            found[k].unwrap()[0].unwrap(),
        ] by {
            lemma_capture_row(groups, found[k].unwrap());
        }
    } else {
        assert forall|k: int, j: int, m: int|
            #![trigger table.rows[k][j], table.columns[m]]
            0 <= k < table.rows.len() && 0 <= j < table.columns.len() && 0 <= m
                < table.columns.len() && table.columns[m] == table.columns[j] && (forall|x: int|
                m < x < table.columns.len() ==> #[trigger] table.columns[x] != table.columns[m])
            implies table.rows[k][j] == match found[k].unwrap()[m + 1] {
            Some(value) => value,
            None => Seq::empty(),
        } by {
            let row = table.rows[k];
            lemma_capture_row(groups, found[k].unwrap());
            assert(row[j] == group_text(found[k].unwrap()[m + 1]));
        }
    }
}

/// The captures of a line by their texts.
pub open spec fn capture_view(captures: Option<Vec<Option<String>>>) -> Option<
    Seq<Option<Seq<char>>>,
> {
    match captures {
        Some(parts) => Some(pattern::maybe_texts(parts@)),
        None => None,
    }
}

/// The columns of a pattern's capture groups.
pub fn columns_of_groups(groups: &Vec<Option<String>>) -> (r: Vec<String>)
    ensures
        text::texts(r@) == group_columns(pattern::maybe_texts(groups@)),
{
    let mut columns: Vec<String> = Vec::new();
    if groups.len() <= 1 {
        columns.push("match".to_owned());
        assert(text::texts(columns@) =~= group_columns(pattern::maybe_texts(groups@)));
        return columns;
    }
    let mut i: usize = 1;
    let ghost expected = group_columns(pattern::maybe_texts(groups@));
    while i < groups.len()
        invariant
            1 <= i <= groups@.len(),
            groups@.len() > 1,
            columns@.len() == i - 1,
            expected == group_columns(pattern::maybe_texts(groups@)),
            forall|k: int| 0 <= k < i - 1 ==> (#[trigger] columns@[k])@ == expected[k],
        decreases groups@.len() - i,
    {
        let column = match &groups[i] {
            Some(name) => name.clone(),
            None => {
                let mut name = text::chars_of("group_");
                text::append_text(&mut name, &text::decimal_text(i as u64));
                text::text_of(&name)
            },
        };
        assert(pattern::maybe_texts(groups@)[i as int] == match groups@[i as int] {
            Some(name) => Some(name@),
            None => None,
        });
        assert(column@ == expected[i - 1]);
        columns.push(column);
        i += 1;
    }
    assert(text::texts(columns@) =~= expected);
    columns
}

/// The record of a matching line.
fn record_of_captures(columns: &Vec<String>, parts: &Vec<Option<String>>) -> (r: Option<
    Vec<(String, String)>,
>)
    requires
        parts@.len() <= 1 || parts@.len() == columns@.len() + 1,
    ensures
        match r {
            Some(entries) => capture_record(
                text::texts(columns@),
                Some(pattern::maybe_texts(parts@)),
            ) == Some(entry_map(entries@)),
            None => capture_record(
                text::texts(columns@),
                Some(pattern::maybe_texts(parts@)),
            ) is None,
        },
{
    let mut entries: Vec<(String, String)> = Vec::new();
    if parts.len() > 1 {
        let ghost seen = pattern::maybe_texts(parts@);
        let ghost names = text::texts(columns@);
        let mut i: usize = 0;
        while i < columns.len()
            invariant
                i <= columns@.len(),
                parts@.len() == columns@.len() + 1,
                seen == pattern::maybe_texts(parts@),
                names == text::texts(columns@),
                entry_map(entries@) == group_map(names, seen, i as nat),
            decreases columns@.len() - i,
        {
            let value = match &parts[i + 1] {
                Some(value) => value.clone(),
                None => String::new(),
            };
            assert(value@ =~= group_text(seen[i + 1]));
            let ghost before = entries@;
            entries.push((columns[i].clone(), value));
            assert(entries@.drop_last() =~= before);
            i += 1;
        }
        return Some(entries);
    }
    if parts.len() == 1 {
        if let Some(value) = &parts[0] {
            entries.push(("match".to_owned(), value.clone()));
            assert(entries@.drop_last() =~= Seq::empty());
            assert(entry_map(entries@.drop_last()) =~= Map::empty());
            assert(entry_map(entries@) =~= map!["match"@ => value@]);
            return Some(entries);
        }
    }
    None
}

/// A table that grows line by line.
pub struct TextScan {
    columns: Vec<String>,
    rows: Vec<Vec<String>>,
    scanned: usize,
    max_rows: usize,
}

impl TextScan {
    /// The columns of the table.
    pub closed spec fn columns(&self) -> Seq<Seq<char>> {
        text::texts(self.columns@)
    }

    /// The rows found so far.
    pub closed spec fn rows(&self) -> Seq<Seq<Seq<char>>> {
        cells(self.rows@)
    }

    /// The number of lines seen so far.
    pub closed spec fn scanned(&self) -> nat {
        self.scanned as nat
    }

    /// The number of rows at which the scan is full.
    pub closed spec fn max_rows(&self) -> nat {
        self.max_rows as nat
    }

    /// Starts a table for a pattern with these capture groups.
    pub fn new(groups: &Vec<Option<String>>, max_rows: usize) -> (r: TextScan)
        ensures
            r.columns() == group_columns(pattern::maybe_texts(groups@)),
            r.rows() == Seq::<Seq<Seq<char>>>::empty(),
            r.scanned() == 0,
            r.max_rows() == max_rows,
    {
        let r = TextScan {
            columns: columns_of_groups(groups),
            rows: Vec::new(),
            scanned: 0,
            max_rows,
        };
        assert(r.rows() =~= Seq::<Seq<Seq<char>>>::empty());
        r
    }

    /// Adds what the groups captured in the next line. Says whether the line filled the table.
    pub fn scan_line(&mut self, captures: &Option<Vec<Option<String>>>) -> (full: bool)
        requires
            captures matches Some(parts) ==> parts@.len() <= 1 || parts@.len() == old(
                self,
            ).columns().len() + 1,
            old(self).scanned() < usize::MAX,
        ensures
            final(self).columns() == old(self).columns(),
            final(self).max_rows() == old(self).max_rows(),
            final(self).scanned() == old(self).scanned() + 1,
            match capture_record(old(self).columns(), capture_view(*captures)) {
                Some(record) => final(self).rows() == old(self).rows().push(
                    table_row(record, old(self).columns()),
                ) && full == (final(self).rows().len() >= old(self).max_rows()),
                None => final(self).rows() == old(self).rows() && !full,
            },
    {
        self.scanned = self.scanned + 1;
        let record = match captures {
            Some(parts) => record_of_captures(&self.columns, parts),
            None => None,
        };
        match record {
            Some(entries) => {
                let row = row_of(&entries, &self.columns);
                self.rows.push(row);
                assert(self.rows() =~= old(self).rows().push(text::texts(row@)));
                self.rows.len() >= self.max_rows
            },
            None => false,
        }
    }

    /// The finished table.
    pub fn finish(self) -> (r: RecordTable)
        ensures
            r@ == (TableView {
                columns: self.columns(),
                rows: self.rows(),
                error: None,
                scanned: self.scanned(),
                matched: self.rows().len(),
            }),
    {
        let matched = self.rows.len();
        RecordTable {
            columns: self.columns,
            rows: Arc::new(self.rows),
            error: None,
            scanned: self.scanned,
            matched,
        }
    }
}

/// What a pattern captures in each line.
pub open spec fn captures_of_lines(source: Seq<char>, lines: Seq<Seq<char>>) -> Seq<
    Option<Seq<Option<Seq<char>>>>,
> {
    lines.map_values(|line: Seq<char>| pattern::line_captures(source, line))
}

/// The table that a pattern makes of lines of text.
pub open spec fn lines_table(
    source: Seq<char>,
    lines: Seq<Seq<char>>,
    max_rows: nat,
) -> TableView {
    match pattern::pattern_fault(source) {
        Some(message) => fault_table(message),
        None => captures_table(
            pattern::pattern_groups(source),
            captures_of_lines(source, lines),
            max_rows,
        ),
    }
}

/// Once the lines that were looked at are known to have what the pattern's groups captured, the
/// rows are as many as the lines among them that match.
proof fn lemma_matching_lines(source: Seq<char>, lines: Seq<Seq<char>>, max_rows: nat)
    ensures
        ({
            let captures = captures_of_lines(source, lines);
            let groups = pattern::pattern_groups(source);
            let table = captures_table(groups, captures, max_rows);
            groups.len() >= 1 && (forall|i: int|
                0 <= i < table.scanned && i < captures.len() ==> (
                #[trigger] captures[i] matches Some(parts) ==> parts.len() == groups.len()
                    && parts[0] is Some)) ==> table.scanned <= lines.len() && table.rows.len()
                == lines.take(table.scanned as int).filter(
                |line: Seq<char>| pattern::line_captures(source, line) is Some,
            ).len()
        }),
{
    let captures = captures_of_lines(source, lines);
    let groups = pattern::pattern_groups(source);
    let table = captures_table(groups, captures, max_rows);
    if groups.len() >= 1 && (forall|i: int|
        0 <= i < table.scanned && i < captures.len() ==> (
        #[trigger] captures[i] matches Some(parts) ==> parts.len() == groups.len()
            && parts[0] is Some)) {
        every_matching_line_makes_a_row(groups, captures, max_rows);
        assert(captures.take(table.scanned as int) =~= captures_of_lines(
            source,
            lines.take(table.scanned as int),
        ));
        lemma_matching_count(source, lines.take(table.scanned as int));
    }
}

proof fn lemma_matching_count(source: Seq<char>, lines: Seq<Seq<char>>)
    ensures
        captures_of_lines(source, lines).filter(
            |line: Option<Seq<Option<Seq<char>>>>| line is Some,
        ).len() == lines.filter(
            |line: Seq<char>| pattern::line_captures(source, line) is Some,
        ).len(),
    decreases lines.len(),
{
    reveal(Seq::filter);
    if lines.len() > 0 {
        lemma_matching_count(source, lines.drop_last());
        assert(captures_of_lines(source, lines).drop_last() =~= captures_of_lines(
            source,
            lines.drop_last(),
        ));
        assert(captures_of_lines(source, lines).last() == pattern::line_captures(
            source,
            lines.last(),
        ));
    }
}

/// The table that reports why a pattern was not accepted.
fn table_of_fault(message: String) -> (r: RecordTable)
    ensures
        r@ == fault_table(message@),
{
    let r = RecordTable {
        columns: Vec::new(),
        rows: Arc::new(Vec::new()),
        error: Some(message),
        scanned: 0,
        matched: 0,
    };
    assert(r@ =~~= fault_table(message@));
    r
}

/// The table that a compiled pattern makes of lines of text.
fn table_of_lines(compiled: &LinePattern, lines: &Vec<String>, max_rows: usize) -> (r: RecordTable)
    ensures
        r@ == captures_table(
            pattern::pattern_groups(compiled.source()),
            captures_of_lines(compiled.source(), text::texts(lines@)),
            max_rows as nat,
        ),
        pattern::pattern_groups(compiled.source()).len() >= 1,
        forall|i: int|
            0 <= i < r@.scanned && i < lines@.len() ==> (#[trigger] captures_of_lines(
                compiled.source(),
                text::texts(lines@),
            )[i] matches Some(parts) ==> parts.len() == pattern::pattern_groups(
                compiled.source(),
            ).len() && parts[0] is Some),
{
    let ghost source = compiled.source();
    let ghost captured = captures_of_lines(source, text::texts(lines@));
    let ghost columns = group_columns(pattern::pattern_groups(source));
    let ghost outcomes = captured.map_values(
        |line: Option<Seq<Option<Seq<char>>>>| capture_record(columns, line),
    );
    let ghost as_row = |record: Map<Seq<char>, Seq<char>>| table_row(record, columns);
    let groups = compiled.groups();
    assert(pattern::maybe_texts(groups@).len() == groups@.len());
    let mut scan = TextScan::new(&groups, max_rows);
    let mut i: usize = 0;
    assert(kept(outcomes.take(0)).map_values(as_row) =~= scan.rows());
    while i < lines.len()
        invariant
            i <= lines@.len(),
            source == compiled.source(),
            pattern::pattern_groups(source).len() >= 1,
            forall|k: int|
                0 <= k < i ==> (#[trigger] captured[k] matches Some(parts) ==> parts.len()
                    == pattern::pattern_groups(source).len() && parts[0] is Some),
            captured == captures_of_lines(source, text::texts(lines@)),
            columns == group_columns(pattern::pattern_groups(source)),
            outcomes == captured.map_values(
                |line: Option<Seq<Option<Seq<char>>>>| capture_record(columns, line),
            ),
            as_row == (|record: Map<Seq<char>, Seq<char>>| table_row(record, columns)),
            scan.columns() == columns,
            scan.max_rows() == max_rows,
            scan.scanned() == i,
            scan.rows() == kept(outcomes.take(i as int)).map_values(as_row),
            scan.rows().len() < 1 || scan.rows().len() < max_rows,
        decreases lines@.len() - i,
    {
        let found = compiled.captures(&lines[i]);
        assert(captured[i as int] == capture_view(found));
        assert(found matches Some(parts) ==> pattern::maybe_texts(parts@)[0] is Some);
        assert(outcomes[i as int] == capture_record(columns, capture_view(found)));
        assert(outcomes.take(i + 1).drop_last() =~= outcomes.take(i as int));
        let full = scan.scan_line(&found);
        proof {
            let before = kept(outcomes.take(i as int));
            if let Some(record) = outcomes[i as int] {
                assert(before.push(record).map_values(as_row) =~= before.map_values(as_row).push(
                    as_row(record),
                ));
            }
            assert(scan.rows() =~= kept(outcomes.take(i + 1)).map_values(as_row));
        }
        i += 1;
        if full {
            proof {
                scan_stops_where_full(outcomes, max_rows as nat, i as int);
            }
            return scan.finish();
        }
    }
    proof {
        assert(outcomes.take(i as int) =~= outcomes);
        if outcomes.len() > 0 {
            lemma_kept_grows(outcomes, outcomes.len() - 1);
            assert(outcomes.take(outcomes.len() - 1) =~= outcomes.drop_last());
        }
        scan_goes_to_the_end(outcomes, max_rows as nat);
        assert(scanned_part(outcomes, max_rows as nat) =~= outcomes);
    }
    scan.finish()
}

/// The table that a pattern, trimmed, makes of lines of text.
pub fn extract_text_lines(lines: &Vec<String>, pattern: &str, max_rows: usize) -> (r: RecordTable)
    ensures
        r@ == lines_table(text::trim(pattern@), text::texts(lines@), max_rows as nat),
        pattern::pattern_fault(text::trim(pattern@)) is None
            ==> r@.scanned <= text::texts(lines@).len() && r@.rows.len() == text::texts(lines@).take(
            r@.scanned as int,
        ).filter(
            |line: Seq<char>| pattern::line_captures(text::trim(pattern@), line) is Some,
        ).len(),
{
    proof {
        lemma_matching_lines(text::trim(pattern@), text::texts(lines@), max_rows as nat);
    }
    let wanted = text::text_of(&text::trimmed(&text::chars_of(pattern)));
    match LinePattern::compile(&wanted) {
        Ok(compiled) => table_of_lines(&compiled, lines, max_rows),
        Err(message) => table_of_fault(message),
    }
}

/// What each line is as a JSON document of its own.
pub open spec fn line_documents(lines: Seq<Seq<char>>) -> Seq<Option<DocumentView>> {
    lines.map_values(|line: Seq<char>| json::json_document(text::trim(line)))
}

/// Among the first lines at least one is not blank, and each that is not blank is JSON.
pub open spec fn looks_like_documents(lines: Seq<Seq<char>>, max_rows: nat) -> bool {
    &&& exists|i: int|
        0 <= i < lines.len() && i < max_rows && text::trim(#[trigger] lines[i]).len() > 0
    &&& forall|i: int|
        0 <= i < lines.len() && i < max_rows && text::trim(#[trigger] lines[i]).len() > 0
            ==> json::json_document(text::trim(lines[i])) is Some
}

/// The table of a text: by the pattern where there is one, else by what JSON it holds.
pub open spec fn extracted_table(
    input: Seq<char>,
    pattern: Seq<char>,
    max_rows: nat,
) -> TableView {
    let source = text::trim(pattern);
    let lines = text::lines(input);
    if source.len() > 0 {
        lines_table(source, lines, max_rows)
    } else {
        match json::json_document(text::trim(input)) {
            Some(document) => document_table(document, max_rows),
            None => if looks_like_documents(lines, max_rows) {
                documents_table(line_documents(lines), max_rows)
            } else {
                empty_table()
            },
        }
    }
}

/// Without a pattern the columns stand in order, each once.
pub proof fn inferred_columns_stand_in_order(
    input: Seq<char>,
    pattern: Seq<char>,
    max_rows: nat,
)
    requires
        text::trim(pattern).len() == 0,
    ensures
        increasing(extracted_table(input, pattern, max_rows).columns),
{
    match json::json_document(text::trim(input)) {
        Some(document) => tables_of_a_document_list_every_member(document, max_rows),
        None => tables_of_documents_list_every_key(line_documents(text::lines(input)), max_rows),
    }
}

/// The table of a JSON array, without a pattern. Its columns are the names of the members of the
/// objects among the first elements, in order. There is a row for each of these objects that
/// has members, in order, with what stands in each column, or nothing.
pub proof fn array_tables_hold_their_objects(
    input: Seq<char>,
    pattern: Seq<char>,
    max_rows: nat,
    nodes: Seq<NodeView>,
)
    requires
        text::trim(pattern).len() == 0,
    ensures
        json::json_document(text::trim(input)) == Some(DocumentView::Array(nodes)) ==> {
            let table = extracted_table(input, pattern, max_rows);
            let count = if nodes.len() <= max_rows {
                nodes.len()
            } else {
                max_rows
            };
            &&& increasing(table.columns)
            &&& forall|name: Seq<char>| #[trigger]
                table.columns.contains(name) <==> exists|i: int|
                    0 <= i < nodes.len() && i < max_rows && has_member(#[trigger] nodes[i], name)
            &&& table.rows == kept(
                nodes.take(count as int).map_values(|node: NodeView| node_record(node)),
            ).map_values(|record: Map<Seq<char>, Seq<char>>| table_row(record, table.columns))
            &&& table.matched == table.rows.len()
            &&& table.scanned == count
            &&& table.error is None
        },
{
    tables_of_a_document_list_every_member(DocumentView::Array(nodes), max_rows);
}

proof fn lemma_member_text(members: Seq<(Seq<char>, MemberView)>, m: int)
    requires
        0 <= m < members.len(),
        forall|x: int| m < x < members.len() ==> (#[trigger] members[x]).0 != members[m].0,
    ensures
        member_map(members).dom().contains(members[m].0),
        member_map(members)[members[m].0] == member_text(members[m].1),
    decreases members.len(),
{
    if m < members.len() - 1 {
        let before = members.drop_last();
        assert forall|x: int| m < x < before.len() implies (#[trigger] before[x]).0
            != before[m].0 by {
            assert(members[x].0 != members[m].0);
        }
        lemma_member_text(before, m);
        assert(members[members.len() - 1].0 != members[m].0);
    }
}

/// An object with members makes a record, which holds each of its members and nothing else: a text
/// as it is, nothing for null, `true` or `false`, and any other value as it is written. Of two
/// members with one name the later counts. No other JSON value makes a record.
pub proof fn records_hold_the_members_of_an_object(
    members: Seq<(Seq<char>, MemberView)>,
    m: int,
    name: Seq<char>,
)
    ensures
        node_record(None) is None,
        node_record(Some(members)) is None <==> members.len() == 0,
        node_record(Some(members)) matches Some(record) ==> (record.dom().contains(name)
            <==> exists|j: int| 0 <= j < members.len() && (#[trigger] members[j]).0 == name),
        0 <= m < members.len() && (forall|x: int|
            m < x < members.len() ==> (#[trigger] members[x]).0 != members[m].0) ==> (node_record(
            Some(members),
        ) matches Some(record) && record[members[m].0] == match members[m].1 {
            MemberView::Null => Seq::<char>::empty(),
            MemberView::Bool(true) => "true"@,
            MemberView::Bool(false) => "false"@,
            MemberView::Text(value) => value,
            MemberView::Written(value) => value,
        }),
{
    lemma_member_map(members);
    if 0 <= m < members.len() && (forall|x: int|
        m < x < members.len() ==> (#[trigger] members[x]).0 != members[m].0) {
        lemma_member_text(members, m);
    }
}

/// Each cell of a row is what the record holds under the name of its column, or nothing.
pub proof fn cells_are_what_the_record_holds(
    record: Map<Seq<char>, Seq<char>>,
    columns: Seq<Seq<char>>,
    j: int,
)
    requires
        0 <= j < columns.len(),
    ensures
        table_row(record, columns).len() == columns.len(),
        record.dom().contains(columns[j]) ==> table_row(record, columns)[j] == record[columns[j]],
        !record.dom().contains(columns[j]) ==> table_row(record, columns)[j] == Seq::<
            char,
        >::empty(),
{
}

/// The table of one JSON value that is no array: an object with members is its one row, and
/// anything else gives none. One value was looked at either way.
pub proof fn a_single_object_is_one_row(node: NodeView, max_rows: nat)
    ensures
        ({
            let table = document_table(DocumentView::Single(node), max_rows);
            &&& table.scanned == 1
            &&& table.error is None
            &&& table.matched == table.rows.len()
            &&& match node_record(node) {
                Some(record) => table.rows == seq![table_row(record, table.columns)],
                None => table.rows.len() == 0,
            }
        }),
{
    let outcomes = seq![node_record(node)];
    assert(outcomes.drop_last() =~= Seq::empty());
    assert(kept(outcomes.drop_last()) =~= Seq::empty());
    assert(outcomes.last() == node_record(node));
    let table = document_table(DocumentView::Single(node), max_rows);
    if let Some(record) = node_record(node) {
        assert(kept(outcomes) =~= seq![record]);
        assert(table.rows =~= seq![table_row(record, table.columns)]);
    }
}

proof fn lemma_kept_documents(documents: Seq<Option<DocumentView>>)
    ensures
        ({
            let records = kept(
                documents.map_values(
                    |document: Option<DocumentView>| document_record(document),
                ),
            );
            let found = documents.filter(
                |document: Option<DocumentView>|
                    document matches Some(DocumentView::Single(Some(members))) && members.len()
                        > 0,
            );
            &&& records.len() == found.len()
            &&& forall|k: int|
                0 <= k < records.len() ==> ((
                #[trigger] found[k]) matches Some(DocumentView::Single(node)) && node_record(node)
                    == Some(records[k]))
        }),
    decreases documents.len(),
{
    reveal(Seq::filter);
    let f = |document: Option<DocumentView>| document_record(document);
    let g = |document: Option<DocumentView>|
        document matches Some(DocumentView::Single(Some(members))) && members.len() > 0;
    if documents.len() > 0 {
        let before = documents.drop_last();
        lemma_kept_documents(before);
        assert(documents.map_values(f).drop_last() =~= before.map_values(f));
        assert(documents.map_values(f).last() == f(documents.last()));
        assert(g(documents.last()) <==> f(documents.last()) is Some);
        let records = kept(documents.map_values(f));
        let found = documents.filter(g);
        assert forall|k: int| 0 <= k < records.len() implies ((
        #[trigger] found[k]) matches Some(DocumentView::Single(node)) && node_record(node) == Some(
            records[k],
        )) by {
            if k < before.filter(g).len() {
                assert(found[k] == before.filter(g)[k]);
            }
        }
    }
}

/// The table of newline-delimited JSON has a row for each line that is an object with members, in
/// their order, until the limit, of at least one, is filled; looking goes on to the last line
/// unless the limit stops it.
pub proof fn every_object_line_makes_a_row(documents: Seq<Option<DocumentView>>, max_rows: nat)
    ensures
        ({
            let table = documents_table(documents, max_rows);
            let n = table.scanned as int;
            let found = documents.take(n).filter(
                |document: Option<DocumentView>|
                    document matches Some(DocumentView::Single(Some(members))) && members.len()
                        > 0,
            );
            let limit = if max_rows == 0 {
                1
            } else {
                max_rows
            };
            &&& table.error is None
            &&& n <= documents.len()
            &&& table.rows.len() == found.len()
            &&& table.matched == found.len()
            &&& table.rows.len() <= limit
            &&& n < documents.len() ==> table.rows.len() == limit
            &&& table.rows.len() == limit ==> n > 0 && (
            documents[n - 1] matches Some(DocumentView::Single(Some(members))) && members.len()
                > 0)
            &&& forall|k: int|
                0 <= k < table.rows.len() ==> ((
                #[trigger] found[k]) matches Some(DocumentView::Single(node))
                    && table.rows[k] == table_row(node_record(node).unwrap(), table.columns))
        }),
{
    let f = |document: Option<DocumentView>| document_record(document);
    let outcomes = documents.map_values(f);
    let table = documents_table(documents, max_rows);
    let n = table.scanned as int;
    scan_stops_only_where_full(outcomes, max_rows);
    assert(outcomes.take(n) =~= documents.take(n).map_values(f));
    lemma_kept_documents(documents.take(n));
    let found = documents.take(n).filter(
        |document: Option<DocumentView>|
            document matches Some(DocumentView::Single(Some(members))) && members.len() > 0,
    );
    assert forall|k: int| 0 <= k < table.rows.len() implies ((
    #[trigger] found[k]) matches Some(DocumentView::Single(node)) && table.rows[k] == table_row(
        node_record(node).unwrap(),
        table.columns,
    )) by {}
}

/// A pattern that is not blank goes by the lines of the text, whatever they hold. Without one, a
/// text that is JSON as a whole is one document; else each line is a document of its own, if one
/// of the first lines is not blank and each of those that are not blank is JSON.
pub proof fn a_pattern_selects_text(input: Seq<char>, pattern: Seq<char>, max_rows: nat)
    ensures
        text::trim(pattern).len() > 0 ==> extracted_table(input, pattern, max_rows) == lines_table(
            text::trim(pattern),
            text::lines(input),
            max_rows,
        ),
        text::trim(pattern).len() == 0 ==> (json::json_document(
            text::trim(input),
        ) matches Some(document) ==> extracted_table(input, pattern, max_rows) == document_table(
            document,
            max_rows,
        )),
        text::trim(pattern).len() == 0 && json::json_document(text::trim(input)) is None && (exists|
            i: int,
        |
            0 <= i < text::lines(input).len() && i < max_rows && text::trim(
                #[trigger] text::lines(input)[i],
            ).len() > 0) && (forall|i: int|
            0 <= i < text::lines(input).len() && i < max_rows && text::trim(
                #[trigger] text::lines(input)[i],
            ).len() > 0 ==> json::json_document(text::trim(text::lines(input)[i])) is Some)
            ==> extracted_table(input, pattern, max_rows) == documents_table(
            line_documents(text::lines(input)),
            max_rows,
        ),
{
}

/// Reads each line as a JSON document of its own.
fn read_documents(lines: &Vec<Vec<char>>) -> (r: Vec<Option<JsonDocument>>)
    ensures
        document_views(r@) == line_documents(text::pieces(lines@)),
{
    let mut out: Vec<Option<JsonDocument>> = Vec::new();
    let mut i: usize = 0;
    while i < lines.len()
        invariant
            i <= lines@.len(),
            out@.len() == i,
            forall|k: int|
                0 <= k < i ==> json::maybe_document(#[trigger] out@[k]) == json::json_document(
                    text::trim(lines@[k]@),
                ),
        decreases lines@.len() - i,
    {
        let line = text::text_of(&text::trimmed(&lines[i]));
        out.push(json::parse_document(&line));
        i += 1;
    }
    assert(document_views(out@) =~= line_documents(text::pieces(lines@)));
    out
}

/// Whether the first lines look like newline-delimited JSON.
fn holds_documents(
    lines: &Vec<Vec<char>>,
    documents: &Vec<Option<JsonDocument>>,
    max_rows: usize,
) -> (r: bool)
    requires
        document_views(documents@) == line_documents(text::pieces(lines@)),
    ensures
        r == looks_like_documents(text::pieces(lines@), max_rows as nat),
{
    let ghost shown = text::pieces(lines@);
    assert(document_views(documents@).len() == documents@.len());
    let mut seen = false;
    let mut i: usize = 0;
    while i < lines.len() && i < max_rows
        invariant
            i <= lines@.len(),
            i <= max_rows,
            shown == text::pieces(lines@),
            document_views(documents@) == line_documents(shown),
            documents@.len() == lines@.len(),
            seen ==> exists|k: int| 0 <= k < i && text::trim(#[trigger] shown[k]).len() > 0,
            !seen ==> forall|k: int| 0 <= k < i ==> text::trim(#[trigger] shown[k]).len() == 0,
            forall|k: int|
                0 <= k < i && text::trim(#[trigger] shown[k]).len() > 0 ==> json::json_document(
                    text::trim(shown[k]),
                ) is Some,
        decreases lines@.len() - i,
    {
        let line = text::trimmed(&lines[i]);
        assert(shown[i as int] == lines@[i as int]@);
        assert(document_views(documents@)[i as int] == json::json_document(
            text::trim(shown[i as int]),
        ));
        if line.len() > 0 {
            if documents[i].is_none() {
                return false;
            }
            seen = true;
        }
        i += 1;
    }
    seen
}

/// Text logs use the supplied pattern. JSON and newline-delimited JSON are read by structure:
/// their object members become columns and no pattern is applied. A pattern that is not blank
/// always selects text, so that a log which looks like JSON does not swallow it.
pub fn extract_table(input: &str, pattern: &str, max_rows: usize) -> (r: RecordTable)
    ensures
        r@ == extracted_table(input@, pattern@, max_rows as nat),
        text::trim(pattern@).len() == 0 ==> increasing(r@.columns),
        text::trim(pattern@).len() > 0 && pattern::pattern_fault(text::trim(pattern@)) is None
            ==> r@.scanned <= text::lines(input@).len() && r@.rows.len() == text::lines(input@).take(
            r@.scanned as int,
        ).filter(
            |line: Seq<char>| pattern::line_captures(text::trim(pattern@), line) is Some,
        ).len(),
{
    proof {
        lemma_matching_lines(text::trim(pattern@), text::lines(input@), max_rows as nat);
        if text::trim(pattern@).len() == 0 {
            inferred_columns_stand_in_order(input@, pattern@, max_rows as nat);
        }
    }
    let wanted = text::trimmed(&text::chars_of(pattern));
    let chars = text::chars_of(input);
    let lines = text::lines_of(&chars);
    if wanted.len() > 0 {
        let mut shown: Vec<String> = Vec::new();
        let mut i: usize = 0;
        while i < lines.len()
            invariant
                i <= lines@.len(),
                shown@.len() == i,
                forall|k: int| 0 <= k < i ==> (#[trigger] shown@[k])@ == lines@[k]@,
            decreases lines@.len() - i,
        {
            shown.push(text::text_of(&lines[i]));
            i += 1;
        }
        assert(text::texts(shown@) =~= text::pieces(lines@));
        return match LinePattern::compile(&text::text_of(&wanted)) {
            Ok(compiled) => table_of_lines(&compiled, &shown, max_rows),
            Err(message) => table_of_fault(message),
        };
    }
    match json::parse_document(&text::text_of(&text::trimmed(&chars))) {
        Some(document) => table_of_document(&document, max_rows),
        None => {
            let documents = read_documents(&lines);
            if holds_documents(&lines, &documents, max_rows) {
                table_of_documents(&documents, max_rows)
            } else {
                RecordTable::default()
            }
        },
    }
}

/// The zero-based line range that a one-based inclusive one such as `1-100` selects.
pub open spec fn line_range(value: Seq<char>, total_lines: nat) -> Option<(nat, nat)> {
    match text::split_once(text::trim(value), '-') {
        Some((first, last)) => match (
            text::number(text::trim(first)),
            text::number(text::trim(last)),
        ) {
            (Some(a), Some(b)) => {
                let start = if a == 0 {
                    0
                } else {
                    (a - 1) as nat
                };
                let end = if b <= total_lines {
                    b
                } else {
                    total_lines
                };
                if start < end {
                    Some((start, end))
                } else {
                    None
                }
            },
            _ => None,
        },
        None => None,
    }
}

/// A line range counts lines from one and includes its last line; lines that are not there do not
/// count. White space around the numbers does not matter, and a range without any line in it is
/// none.
pub proof fn line_ranges_count_from_one(
    first: nat,
    last: nat,
    before: Seq<char>,
    after: Seq<char>,
    total_lines: nat,
)
    requires
        first <= 0xffff_ffff_ffff_ffff,
        last <= 0xffff_ffff_ffff_ffff,
        forall|k: int| 0 <= k < before.len() ==> text::is_space(#[trigger] before[k]),
        forall|k: int| 0 <= k < after.len() ==> text::is_space(#[trigger] after[k]),
    ensures
        ({
            let end = if last <= total_lines {
                last
            } else {
                total_lines
            };
            let start = if first == 0 {
                0
            } else {
                first - 1
            };
            line_range(
                before + (text::decimal(first) + seq!['-'] + text::decimal(last)) + after,
                total_lines,
            ) == if start < end {
                Some((start as nat, end))
            } else {
                None
            }
        }),
        forall|value: Seq<char>|
            !value.contains('-') ==> #[trigger] line_range(value, total_lines) is None,
{
    let a = text::decimal(first);
    let b = text::decimal(last);
    let inner = a + seq!['-'] + b;
    text::numbers_read_back(first, Seq::empty(), 0);
    text::numbers_read_back(last, Seq::empty(), 0);
    text::numbers_are_digits(first);
    text::numbers_are_digits(last);
    assert(!text::is_space(a[0]) && !text::is_space(b.last()));
    assert(!text::is_space(a.last()) && !text::is_space(b[0]));
    assert(inner[0] == a[0] && inner.last() == b.last());
    text::surrounding_white_space_does_not_matter(before, inner, after);
    text::surrounding_white_space_does_not_matter(Seq::empty(), a, Seq::empty());
    text::surrounding_white_space_does_not_matter(Seq::empty(), b, Seq::empty());
    assert(Seq::<char>::empty() + a + Seq::<char>::empty() =~= a);
    assert(Seq::<char>::empty() + b + Seq::<char>::empty() =~= b);
    text::splitting_once_cuts_at_the_first_mark(inner, '-');
    assert(inner[a.len() as int] == '-');
    assert(inner.contains('-'));
    inner.index_of_first_ensures('-');
    let i = inner.index_of_first('-').unwrap();
    assert(i == a.len()) by {
        if i < a.len() {
            assert(inner[i] == a[i]);
        }
        if i > a.len() {
            assert(inner[a.len() as int] == '-');
        }
    }
    assert(inner.take(i) =~= a);
    assert(inner.skip(i + 1) =~= b);
    assert forall|value: Seq<char>| !value.contains('-') implies #[trigger] line_range(
        value,
        total_lines,
    ) is None by {
        if text::trim(value).contains('-') {
            text::trimming_only_takes_away(value, '-');
        }
    }
}

/// Reads a one-based inclusive line range such as `1-100`.
pub fn parse_line_range(value: &str, total_lines: u64) -> (r: Option<Range<u64>>)
    ensures
        match r {
            Some(range) => line_range(value@, total_lines as nat) == Some(
                (range.start as nat, range.end as nat),
            ) && range.start < range.end <= total_lines,
            None => line_range(value@, total_lines as nat) is None,
        },
{
    let wanted = text::trimmed(&text::chars_of(value));
    let (first, last) = match text::split_once_at(&wanted, '-') {
        Some(parts) => parts,
        None => {
            return None;
        },
    };
    let a = match text::parse_number(&text::trimmed(&first)) {
        Some(a) => a,
        None => {
            return None;
        },
    };
    let b = match text::parse_number(&text::trimmed(&last)) {
        Some(b) => b,
        None => {
            return None;
        },
    };
    let start: u64 = a.saturating_sub(1);
    let end: u64 = if b <= total_lines {
        b
    } else {
        total_lines
    };
    if start < end {
        Some(start..end)
    } else {
        None
    }
}

/// Some consecutive lines of a source. A line that could not be read is not there.
pub struct LineChunk {
    pub start_line: u64,
    pub lines: Vec<Option<String>>,
}

/// What a pattern captured in one line of a source.
pub struct LineMatch {
    pub line: u64,
    pub captures: Vec<Option<String>>,
}

/// A match by its line number and its texts.
pub open spec fn match_view(found: LineMatch) -> (u64, Seq<Option<Seq<char>>>) {
    (found.line, pattern::maybe_texts(found.captures@))
}

/// Matches by their line numbers and their texts.
pub open spec fn match_views(found: Seq<LineMatch>) -> Seq<(u64, Seq<Option<Seq<char>>>)> {
    found.map_values(|one: LineMatch| match_view(one))
}

/// The part of a line range that a source with so many lines has.
pub open spec fn clamped(range: (nat, nat), total_lines: nat) -> (nat, nat) {
    (
        if range.0 <= total_lines {
            range.0
        } else {
            total_lines
        },
        if range.1 <= total_lines {
            range.1
        } else {
            total_lines
        },
    )
}

/// The number of lines in a range; one that ends before it starts has none.
pub open spec fn range_length(range: (nat, nat)) -> nat {
    if range.0 <= range.1 {
        (range.1 - range.0) as nat
    } else {
        0
    }
}

/// The matches among the first `count` lines of a chunk, as far as they lie in the range.
pub open spec fn chunk_matches(
    source: Seq<char>,
    chunk: LineChunk,
    range: (nat, nat),
    count: nat,
) -> Seq<(u64, Seq<Option<Seq<char>>>)>
    decreases count,
{
    if count == 0 {
        Seq::empty()
    } else {
        let before = chunk_matches(source, chunk, range, (count - 1) as nat);
        let line = (chunk.start_line + count - 1) as u64;
        match chunk.lines@[count - 1] {
            Some(shown) => match pattern::line_captures(source, shown@) {
                Some(parts) => if range.0 <= line < range.1 {
                    before.push((line, parts))
                } else {
                    before
                },
                None => before,
            },
            None => before,
        }
    }
}

/// The matches in the first `count` chunks, one chunk after another.
pub open spec fn source_matches(
    source: Seq<char>,
    chunks: Seq<LineChunk>,
    range: (nat, nat),
    count: nat,
) -> Seq<(u64, Seq<Option<Seq<char>>>)>
    decreases count,
{
    if count == 0 {
        Seq::empty()
    } else {
        let chunk = chunks[count - 1];
        source_matches(source, chunks, range, (count - 1) as nat) + chunk_matches(
            source,
            chunk,
            range,
            chunk.lines@.len(),
        )
    }
}

/// The matches in a chunk are those of its lines that were read, lie in the range and match, each
/// once and in order, with the number of the line in the whole source.
pub proof fn chunks_give_their_matching_lines(
    source: Seq<char>,
    chunk: LineChunk,
    range: (nat, nat),
    count: nat,
)
    requires
        count <= chunk.lines@.len(),
        chunk.start_line + chunk.lines@.len() <= u64::MAX,
    ensures
        ({
            let found = chunk_matches(source, chunk, range, count);
            &&& forall|k: int|
                0 <= k < found.len() ==> {
                    let line = (#[trigger] found[k]).0;
                    let i = line - chunk.start_line;
                    &&& 0 <= i < count
                    &&& range.0 <= line < range.1
                    &&& chunk.lines@[i] matches Some(shown)
                    &&& pattern::line_captures(source, shown@) == Some(found[k].1)
                }
            &&& forall|a: int, b: int|
                0 <= a < b < found.len() ==> (#[trigger] found[a]).0 < (#[trigger] found[b]).0
            &&& forall|i: int|
                0 <= i < count && range.0 <= chunk.start_line + i < range.1 ==> ((
                #[trigger] chunk.lines@[i]) matches Some(shown) ==> (pattern::line_captures(
                    source,
                    shown@,
                ) matches Some(parts) ==> found.contains(
                    ((chunk.start_line + i) as u64, parts),
                )))
        }),
    decreases count,
{
    if count > 0 {
        let last = count - 1;
        chunks_give_their_matching_lines(source, chunk, range, last as nat);
        let before = chunk_matches(source, chunk, range, last as nat);
        let found = chunk_matches(source, chunk, range, count);
        assert forall|k: int| 0 <= k < before.len() implies #[trigger] found[k] == before[k] by {}
        assert forall|i: int|
            0 <= i < count && range.0 <= chunk.start_line + i < range.1 implies ((
        #[trigger] chunk.lines@[i]) matches Some(shown) ==> (pattern::line_captures(
            source,
            shown@,
        ) matches Some(parts) ==> found.contains(((chunk.start_line + i) as u64, parts)))) by {
            if let Some(shown) = chunk.lines@[i] {
                if let Some(parts) = pattern::line_captures(source, shown@) {
                    let wanted = ((chunk.start_line + i) as u64, parts);
                    if i < last {
                        assert(before.contains(wanted));
                        let k = choose|k: int| 0 <= k < before.len() && before[k] == wanted;
                        assert(found[k] == wanted);
                    } else {
                        assert(found[before.len() as int] == wanted);
                    }
                }
            }
        }
    }
}

/// The matches of several chunks are those of each, one chunk after another.
pub proof fn sources_give_the_matches_of_their_chunks(
    source: Seq<char>,
    chunks: Seq<LineChunk>,
    more: Seq<LineChunk>,
    chunk: LineChunk,
    range: (nat, nat),
)
    ensures
        source_matches(source, chunks + more, range, (chunks + more).len()) == source_matches(
            source,
            chunks,
            range,
            chunks.len(),
        ) + source_matches(source, more, range, more.len()),
        source_matches(source, seq![chunk], range, 1) == chunk_matches(
            source,
            chunk,
            range,
            chunk.lines@.len(),
        ),
        source_matches(source, Seq::<LineChunk>::empty(), range, 0).len() == 0,
{
    lemma_source_matches_follow(source, chunks, more, range, more.len());
    assert(source_matches(source, seq![chunk], range, 0) =~= Seq::empty());
    assert(source_matches(source, seq![chunk], range, 1) =~= chunk_matches(
        source,
        chunk,
        range,
        chunk.lines@.len(),
    ));
}

proof fn lemma_source_matches_follow(
    source: Seq<char>,
    chunks: Seq<LineChunk>,
    more: Seq<LineChunk>,
    range: (nat, nat),
    count: nat,
)
    requires
        count <= more.len(),
    ensures
        source_matches(source, chunks + more, range, chunks.len() + count) == source_matches(
            source,
            chunks,
            range,
            chunks.len(),
        ) + source_matches(source, more, range, count),
    decreases count,
{
    let all = chunks + more;
    if count == 0 {
        lemma_source_matches_keep(source, all, chunks, range, chunks.len());
        assert(source_matches(source, chunks, range, chunks.len()) =~= source_matches(
            source,
            chunks,
            range,
            chunks.len(),
        ) + source_matches(source, more, range, 0));
    } else {
        lemma_source_matches_follow(source, chunks, more, range, (count - 1) as nat);
        assert(all[chunks.len() + count - 1] == more[count - 1]);
        assert(source_matches(source, all, range, chunks.len() + count) =~= source_matches(
            source,
            chunks,
            range,
            chunks.len(),
        ) + source_matches(source, more, range, count));
    }
}

proof fn lemma_source_matches_keep(
    source: Seq<char>,
    a: Seq<LineChunk>,
    b: Seq<LineChunk>,
    range: (nat, nat),
    count: nat,
)
    requires
        count <= a.len(),
        count <= b.len(),
        forall|k: int| 0 <= k < count ==> a[k] == b[k],
    ensures
        source_matches(source, a, range, count) == source_matches(source, b, range, count),
    decreases count,
{
    if count > 0 {
        lemma_source_matches_keep(source, a, b, range, (count - 1) as nat);
    }
}

/// Matches in line order with one more, behind those of the same line.
pub open spec fn with_match(
    ordered: Seq<(u64, Seq<Option<Seq<char>>>)>,
    found: (u64, Seq<Option<Seq<char>>>),
) -> Seq<(u64, Seq<Option<Seq<char>>>)>
    decreases ordered.len(),
{
    if ordered.len() == 0 || ordered.last().0 <= found.0 {
        ordered.push(found)
    } else {
        with_match(ordered.drop_last(), found).push(ordered.last())
    }
}

/// Matches in line order.
pub open spec fn in_line_order(found: Seq<(u64, Seq<Option<Seq<char>>>)>) -> Seq<
    (u64, Seq<Option<Seq<char>>>),
>
    decreases found.len(),
{
    if found.len() == 0 {
        Seq::empty()
    } else {
        with_match(in_line_order(found.drop_last()), found.last())
    }
}

/// The table of matches that were found in a range of so many lines.
pub open spec fn matches_table(
    groups: Seq<Option<Seq<char>>>,
    found: Seq<(u64, Seq<Option<Seq<char>>>)>,
    scanned: nat,
    max_rows: nat,
) -> TableView {
    let columns = group_columns(groups);
    let records = kept(
        in_line_order(found).map_values(
            |one: (u64, Seq<Option<Seq<char>>>)| capture_record(columns, Some(one.1)),
        ),
    );
    let count = if records.len() <= max_rows {
        records.len()
    } else {
        max_rows
    };
    TableView {
        columns,
        rows: records.take(count as int).map_values(
            |record: Map<Seq<char>, Seq<char>>| table_row(record, columns),
        ),
        error: None,
        scanned,
        matched: count,
    }
}

proof fn lemma_with_match_is_ordered(
    ordered: Seq<(u64, Seq<Option<Seq<char>>>)>,
    found: (u64, Seq<Option<Seq<char>>>),
)
    requires
        forall|i: int, j: int| 0 <= i <= j < ordered.len() ==> ordered[i].0 <= ordered[j].0,
    ensures
        with_match(ordered, found).to_multiset() =~= ordered.to_multiset().insert(found),
        with_match(ordered, found).len() == ordered.len() + 1,
        forall|i: int, j: int|
            0 <= i <= j < ordered.len() + 1 ==> (#[trigger] with_match(ordered, found)[i]).0 <= (
            #[trigger] with_match(ordered, found)[j]).0,
        ordered.len() > 0 && ordered.last().0 > found.0 ==> with_match(ordered, found).last()
            == ordered.last(),
        forall|i: int|
            0 <= i < ordered.len() + 1 ==> (#[trigger] with_match(ordered, found)[i]).0 <= found.0
                || (ordered.len() > 0 && with_match(ordered, found)[i].0 <= ordered.last().0),
    decreases ordered.len(),
{
    broadcast use vstd::seq_lib::group_to_multiset_ensures;

    if ordered.len() == 0 || ordered.last().0 <= found.0 {
    } else {
        let before = ordered.drop_last();
        lemma_with_match_is_ordered(before, found);
        assert(ordered =~= before.push(ordered.last()));
    }
}

/// Putting matches in line order loses none and adds none, and afterwards no match stands
/// behind one of a later line.
pub proof fn line_order_is_a_sort(found: Seq<(u64, Seq<Option<Seq<char>>>)>)
    ensures
        in_line_order(found).to_multiset() =~= found.to_multiset(),
        in_line_order(found).len() == found.len(),
        forall|i: int, j: int|
            0 <= i <= j < found.len() ==> (#[trigger] in_line_order(found)[i]).0 <= (
            #[trigger] in_line_order(found)[j]).0,
    decreases found.len(),
{
    broadcast use vstd::seq_lib::group_to_multiset_ensures;

    if found.len() > 0 {
        line_order_is_a_sort(found.drop_last());
        lemma_with_match_is_ordered(in_line_order(found.drop_last()), found.last());
        assert(found =~= found.drop_last().push(found.last()));
    }
}

/// Matches that already stand in line order keep their places.
pub proof fn line_order_keeps_ordered_matches(found: Seq<(u64, Seq<Option<Seq<char>>>)>)
    requires
        forall|i: int, j: int| 0 <= i <= j < found.len() ==> found[i].0 <= found[j].0,
    ensures
        in_line_order(found) == found,
    decreases found.len(),
{
    if found.len() > 0 {
        line_order_keeps_ordered_matches(found.drop_last());
        assert(found =~= found.drop_last().push(found.last()));
    } else {
        assert(in_line_order(found) =~= found);
    }
}

proof fn lemma_kept_all<T>(outcomes: Seq<Option<T>>)
    requires
        forall|i: int| 0 <= i < outcomes.len() ==> #[trigger] outcomes[i] is Some,
    ensures
        kept(outcomes).len() == outcomes.len(),
        forall|i: int|
            0 <= i < outcomes.len() ==> #[trigger] kept(outcomes)[i] == outcomes[i].unwrap(),
    decreases outcomes.len(),
{
    if outcomes.len() > 0 {
        let before = outcomes.drop_last();
        assert forall|i: int| 0 <= i < before.len() implies #[trigger] before[i] is Some by {
            assert(outcomes[i] is Some);
        }
        lemma_kept_all(before);
        assert(outcomes[outcomes.len() - 1] is Some);
        assert forall|i: int| 0 <= i < outcomes.len() implies #[trigger] kept(outcomes)[i]
            == outcomes[i].unwrap() by {
            if i < before.len() {
                assert(kept(before)[i] == before[i].unwrap());
            }
        }
    }
}

/// The table of the matches in a source has one row for each, in line order, as many as the limit
/// allows: for a pattern without groups the whole match under `match`, else the text of each
/// group under its name or `group_` with its number, or nothing where it took no part.
pub proof fn matches_become_rows_in_line_order(
    groups: Seq<Option<Seq<char>>>,
    found: Seq<(u64, Seq<Option<Seq<char>>>)>,
    scanned: nat,
    max_rows: nat,
)
    requires
        groups.len() >= 1,
        forall|i: int|
            0 <= i < found.len() ==> (#[trigger] found[i]).1.len() == groups.len()
                && found[i].1[0] is Some,
    ensures
        ({
            let table = matches_table(groups, found, scanned, max_rows);
            let ordered = in_line_order(found);
            &&& table.error is None
            &&& table.scanned == scanned
            &&& table.matched == table.rows.len()
            &&& table.rows.len() == if found.len() <= max_rows {
                found.len()
            } else {
                max_rows
            }
            &&& groups.len() == 1 ==> table.columns == seq!["match"@]
            &&& groups.len() > 1 ==> table.columns.len() == groups.len() - 1 && forall|j: int|
                0 <= j < table.columns.len() ==> #[trigger] table.columns[j] == match groups[j + 1] {
                    Some(name) => name,
                    None => "group_"@ + text::decimal((j + 1) as nat),
                }
            &&& forall|k: int|
                0 <= k < table.rows.len() ==> (#[trigger] table.rows[k]).len()
                    == table.columns.len()
            &&& groups.len() == 1 ==> forall|k: int|
                0 <= k < table.rows.len() ==> #[trigger] table.rows[k] == seq![
                    ordered[k].1[0].unwrap(),
                ]
            &&& groups.len() > 1 ==> forall|k: int, j: int, m: int|
                #![trigger table.rows[k][j], table.columns[m]]
                0 <= k < table.rows.len() && 0 <= j < table.columns.len() && 0 <= m
                    < table.columns.len() && table.columns[m] == table.columns[j] && (forall|x: int|
                    m < x < table.columns.len() ==> #[trigger] table.columns[x]
                        != table.columns[m]) ==> table.rows[k][j] == match ordered[k].1[m + 1] {
                    Some(value) => value,
                    None => Seq::empty(),
                }
        }),
{
    broadcast use vstd::seq_lib::group_to_multiset_ensures;

    let columns = group_columns(groups);
    let table = matches_table(groups, found, scanned, max_rows);
    let ordered = in_line_order(found);
    line_order_is_a_sort(found);
    assert forall|k: int| 0 <= k < ordered.len() implies (#[trigger] ordered[k]).1.len()
        == groups.len() && ordered[k].1[0] is Some by {
        assert(ordered.contains(ordered[k]));
        assert(ordered.to_multiset().count(ordered[k]) > 0);
        assert(found.to_multiset().count(ordered[k]) > 0);
        assert(found.contains(ordered[k]));
        let i = choose|i: int| 0 <= i < found.len() && found[i] == ordered[k];
        assert(found[i].1.len() == groups.len());
    }
    let outcomes = ordered.map_values(
        |one: (u64, Seq<Option<Seq<char>>>)| capture_record(columns, Some(one.1)),
    );
    assert forall|k: int| 0 <= k < outcomes.len() implies #[trigger] outcomes[k] is Some by {
        assert(ordered[k].1.len() == groups.len());
        lemma_capture_row(groups, ordered[k].1);
    }
    lemma_kept_all(outcomes);
    let records = kept(outcomes);
    assert forall|k: int| 0 <= k < table.rows.len() implies #[trigger] table.rows[k] == table_row(
        capture_record(columns, Some(ordered[k].1)).unwrap(),
        columns,
    ) by {
        assert(records[k] == outcomes[k].unwrap());
    }
    assert forall|k: int| 0 <= k < table.rows.len() implies (#[trigger] table.rows[k]).len()
        == table.columns.len() by {
        lemma_capture_row(groups, ordered[k].1);
    }
    if groups.len() == 1 {
        assert forall|k: int| 0 <= k < table.rows.len() implies #[trigger] table.rows[k] == seq![
            ordered[k].1[0].unwrap(),
        ] by {
            lemma_capture_row(groups, ordered[k].1);
        }
    } else {
        assert forall|k: int, j: int, m: int|
            #![trigger table.rows[k][j], table.columns[m]]
            0 <= k < table.rows.len() && 0 <= j < table.columns.len() && 0 <= m
                < table.columns.len() && table.columns[m] == table.columns[j] && (forall|x: int|
                m < x < table.columns.len() ==> #[trigger] table.columns[x] != table.columns[m])
            implies table.rows[k][j] == match ordered[k].1[m + 1] {
            Some(value) => value,
            None => Seq::empty(),
        } by {
            let row = table.rows[k];
            lemma_capture_row(groups, ordered[k].1);
            assert(row[j] == group_text(ordered[k].1[m + 1]));
        }
    }
}

/// Puts a match into its place among matches in line order.
fn add_match(ordered: &mut Vec<LineMatch>, found: LineMatch)
    ensures
        match_views(final(ordered)@) == with_match(match_views(old(ordered)@), match_view(found)),
{
    let ghost before = match_views(ordered@);
    let ghost one = match_view(found);
    let mut i: usize = ordered.len();
    assert(before.take(i as int) =~= before);
    assert(before.skip(i as int) =~= Seq::empty());
    assert(with_match(before, one) =~= with_match(before.take(i as int), one) + before.skip(
        i as int,
    ));
    while i > 0 && ordered[i - 1].line > found.line
        invariant
            i <= ordered@.len(),
            before == match_views(ordered@),
            one == match_view(found),
            with_match(before, one) == with_match(before.take(i as int), one) + before.skip(
                i as int,
            ),
        decreases i,
    {
        assert(before.take(i as int).last() == match_view(ordered@[i - 1]));
        assert(before.take(i as int).drop_last() =~= before.take(i - 1));
        assert(with_match(before.take(i - 1), one).push(before[i - 1]) + before.skip(i as int)
            =~= with_match(before.take(i - 1), one) + before.skip(i - 1));
        i -= 1;
    }
    proof {
        if i > 0 {
            assert(before.take(i as int).last() == match_view(ordered@[i - 1]));
        }
    }
    ordered.insert(i, found);
    assert(match_views(ordered@) =~= before.take(i as int).push(one) + before.skip(i as int));
}

/// The part of a line range that a source with so many lines has.
pub fn clamp_range(range: &Range<u64>, total_lines: u64) -> (r: Range<u64>)
    ensures
        (r.start as nat, r.end as nat) == clamped(
            (range.start as nat, range.end as nat),
            total_lines as nat,
        ),
{
    let start: u64 = if range.start <= total_lines {
        range.start
    } else {
        total_lines
    };
    let end: u64 = if range.end <= total_lines {
        range.end
    } else {
        total_lines
    };
    start..end
}

/// The matches of a pattern in a chunk, as far as they lie in the range. A pattern that is
/// not accepted has none.
pub fn scan_chunk(pattern: &str, chunk: &LineChunk, range: &Range<u64>) -> (r: Vec<LineMatch>)
    requires
        chunk.start_line + chunk.lines@.len() <= u64::MAX,
    ensures
        match_views(r@) == match pattern::pattern_fault(text::trim(pattern@)) {
            Some(message) => Seq::empty(),
            None => chunk_matches(
                text::trim(pattern@),
                *chunk,
                (range.start as nat, range.end as nat),
                chunk.lines@.len(),
            ),
        },
        forall|i: int|
            0 <= i < r@.len() ==> (#[trigger] r@[i]).captures@.len() == pattern::pattern_groups(
                text::trim(pattern@),
            ).len(),
{
    let wanted = text::text_of(&text::trimmed(&text::chars_of(pattern)));
    let mut found: Vec<LineMatch> = Vec::new();
    let compiled = match LinePattern::compile(&wanted) {
        Ok(compiled) => compiled,
        Err(_) => {
            assert(match_views(found@) =~= Seq::empty());
            return found;
        },
    };
    let ghost source = text::trim(pattern@);
    let ghost bounds = (range.start as nat, range.end as nat);
    let mut i: usize = 0;
    assert(match_views(found@) =~= Seq::empty());
    while i < chunk.lines.len()
        invariant
            i <= chunk.lines@.len(),
            chunk.start_line + chunk.lines@.len() <= u64::MAX,
            source == compiled.source(),
            bounds == (range.start as nat, range.end as nat),
            match_views(found@) == chunk_matches(source, *chunk, bounds, i as nat),
            forall|k: int|
                0 <= k < found@.len() ==> (#[trigger] found@[k]).captures@.len()
                    == pattern::pattern_groups(source).len(),
        decreases chunk.lines@.len() - i,
    {
        let line: u64 = chunk.start_line + i as u64;
        assert(line == (chunk.start_line + (i + 1) as nat - 1) as u64);
        if let Some(shown) = &chunk.lines[i] {
            if range.start <= line && line < range.end {
                if let Some(captures) = compiled.captures(shown) {
                    let ghost before = found@;
                    let one = LineMatch { line, captures };
                    found.push(one);
                    assert(match_views(found@) =~= match_views(before).push(match_view(one)));
                }
            }
        }
        i += 1;
    }
    found
}

/// The table of matches that were found in a range of so many lines.
pub fn table_of_matches(
    groups: &Vec<Option<String>>,
    matches: Vec<LineMatch>,
    scanned: usize,
    max_rows: usize,
) -> (r: RecordTable)
    requires
        groups@.len() >= 1,
        forall|i: int|
            0 <= i < matches@.len() ==> (#[trigger] matches@[i]).captures@.len() == groups@.len(),
    ensures
        r@ == matches_table(
            pattern::maybe_texts(groups@),
            match_views(matches@),
            scanned as nat,
            max_rows as nat,
        ),
{
    let ghost all = match_views(matches@);
    let mut ordered: Vec<LineMatch> = Vec::new();
    assert(match_views(ordered@) =~= in_line_order(all.take(0)));
    for one in it: matches
        invariant
            it.seq() == matches@,
            all == match_views(matches@),
            groups@.len() >= 1,
            forall|i: int|
                0 <= i < matches@.len() ==> (#[trigger] matches@[i]).captures@.len()
                    == groups@.len(),
            match_views(ordered@) == in_line_order(all.take(it.index() as int)),
            forall|k: int|
                0 <= k < ordered@.len() ==> (#[trigger] ordered@[k]).captures@.len()
                    == groups@.len(),
    {
        let ghost n = it.index() as int;
        let ghost before = ordered@;
        assert(all.take(n + 1).drop_last() =~= all.take(n));
        assert(all.take(n + 1).last() == match_view(one));
        proof {
            assert forall|k: int| 0 <= k < match_views(before).len() implies (
            #[trigger] match_views(before)[k]).1.len() == groups@.len() by {
                assert(before[k].captures@.len() == groups@.len());
            }
            lemma_with_match_keeps(match_views(before), match_view(one), groups@.len());
        }
        add_match(&mut ordered, one);
        proof {
            assert forall|k: int| 0 <= k < ordered@.len() implies (
            #[trigger] ordered@[k]).captures@.len() == groups@.len() by {
                assert(match_views(ordered@)[k].1.len() == groups@.len());
            }
        }
    }
    assert(all.take(all.len() as int) =~= all);
    let columns = columns_of_groups(groups);
    let ghost names = group_columns(pattern::maybe_texts(groups@));
    let ghost outcomes = in_line_order(all).map_values(
        |one: (u64, Seq<Option<Seq<char>>>)| capture_record(names, Some(one.1)),
    );
    let mut records: Vec<Vec<(String, String)>> = Vec::new();
    let mut i: usize = 0;
    while i < ordered.len() && records.len() < max_rows
        invariant
            i <= ordered@.len(),
            groups@.len() >= 1,
            match_views(ordered@) == in_line_order(all),
            text::texts(columns@) == names,
            names == group_columns(pattern::maybe_texts(groups@)),
            outcomes == in_line_order(all).map_values(
                |one: (u64, Seq<Option<Seq<char>>>)| capture_record(names, Some(one.1)),
            ),
            forall|k: int|
                0 <= k < ordered@.len() ==> (#[trigger] ordered@[k]).captures@.len()
                    == groups@.len(),
            entry_maps(records@) == kept(outcomes.take(i as int)),
            records@.len() <= max_rows,
        decreases ordered@.len() - i,
    {
        assert(match_views(ordered@)[i as int] == match_view(ordered@[i as int]));
        assert(columns@.len() == names.len());
        assert(outcomes[i as int] == capture_record(
            names,
            Some(pattern::maybe_texts(ordered@[i as int].captures@)),
        ));
        assert(outcomes.take(i + 1).drop_last() =~= outcomes.take(i as int));
        if let Some(entries) = record_of_captures(&columns, &ordered[i].captures) {
            let ghost before = records@;
            records.push(entries);
            assert(entry_maps(records@) =~= entry_maps(before).push(entry_map(entries@)));
        }
        i += 1;
    }
    proof {
        assert(outcomes.len() == ordered@.len()) by {
            assert(match_views(ordered@).len() == ordered@.len());
        }
        assert(entry_maps(records@).len() == records@.len());
        lemma_kept_grows(outcomes, i as int);
        lemma_kept_prefix(outcomes, i as int);
        assert(outcomes.take(outcomes.len() as int) =~= outcomes);
    }
    let rows = rows_of(&records, &columns);
    let matched = records.len();
    let r = RecordTable { columns, rows: Arc::new(rows), error: None, scanned, matched };
    assert(r@ =~~= matches_table(
        pattern::maybe_texts(groups@),
        all,
        scanned as nat,
        max_rows as nat,
    ));
    r
}

proof fn lemma_with_match_keeps(
    ordered: Seq<(u64, Seq<Option<Seq<char>>>)>,
    found: (u64, Seq<Option<Seq<char>>>),
    size: nat,
)
    requires
        found.1.len() == size,
        forall|k: int| 0 <= k < ordered.len() ==> (#[trigger] ordered[k]).1.len() == size,
    ensures
        forall|k: int|
            0 <= k < with_match(ordered, found).len() ==> (#[trigger] with_match(
                ordered,
                found,
            )[k]).1.len() == size,
    decreases ordered.len(),
{
    if ordered.len() > 0 && ordered.last().0 > found.0 {
        let before = ordered.drop_last();
        lemma_with_match_keeps(before, found, size);
        assert forall|k: int| 0 <= k < with_match(ordered, found).len() implies (
        #[trigger] with_match(ordered, found)[k]).1.len() == size by {
            if k < with_match(before, found).len() {
                assert(with_match(before, found)[k].1.len() == size);
            }
        }
    }
}

proof fn lemma_kept_prefix<T>(outcomes: Seq<Option<T>>, n: int)
    requires
        0 <= n <= outcomes.len(),
    ensures
        kept(outcomes).take(kept(outcomes.take(n)).len() as int) =~= kept(outcomes.take(n)),
    decreases outcomes.len(),
{
    lemma_kept_grows(outcomes, n);
    if n < outcomes.len() {
        lemma_kept_grows(outcomes.drop_last(), n);
        lemma_kept_prefix(outcomes.drop_last(), n);
        assert(outcomes.drop_last().take(n) =~= outcomes.take(n));
    } else {
        assert(outcomes.take(n) =~= outcomes);
    }
}

/// The table that a pattern makes of the lines of a source that lie in a range.
pub open spec fn source_table(
    source: Seq<char>,
    chunks: Seq<LineChunk>,
    total_lines: nat,
    range: (nat, nat),
    max_rows: nat,
) -> TableView {
    match pattern::pattern_fault(source) {
        Some(message) => fault_table(message),
        None => matches_table(
            pattern::pattern_groups(source),
            source_matches(source, chunks, clamped(range, total_lines), chunks.len()),
            range_length(clamped(range, total_lines)),
            max_rows,
        ),
    }
}

/// The table that a pattern makes of its matches in the chunks of a source.
pub fn table_of_scans(
    pattern: &str,
    scans: Vec<Vec<LineMatch>>,
    total_lines: u64,
    line_range: &Range<u64>,
    max_rows: usize,
) -> (r: RecordTable)
    requires
        pattern::pattern_fault(text::trim(pattern@)) is None ==> forall|i: int, j: int|
            0 <= i < scans@.len() && 0 <= j < scans@[i]@.len() ==> (
            #[trigger] scans@[i]@[j]).captures@.len() == pattern::pattern_groups(
                text::trim(pattern@),
            ).len(),
        total_lines <= usize::MAX,
    ensures
        r@ == match pattern::pattern_fault(text::trim(pattern@)) {
            Some(message) => fault_table(message),
            None => matches_table(
                pattern::pattern_groups(text::trim(pattern@)),
                joined_scans(scans@, scans@.len()),
                range_length(
                    clamped((line_range.start as nat, line_range.end as nat), total_lines as nat),
                ),
                max_rows as nat,
            ),
        },
{
    let wanted = text::text_of(&text::trimmed(&text::chars_of(pattern)));
    let compiled = match LinePattern::compile(&wanted) {
        Ok(compiled) => compiled,
        Err(message) => {
            return table_of_fault(message);
        },
    };
    let groups = compiled.groups();
    let range = clamp_range(line_range, total_lines);
    let scanned: u64 = range.end.saturating_sub(range.start);
    let mut all: Vec<LineMatch> = Vec::new();
    assert(match_views(all@) =~= joined_scans(scans@, 0));
    for scan in it: scans
        invariant
            it.seq() == scans@,
            groups@.len() == pattern::pattern_groups(text::trim(pattern@)).len(),
            forall|i: int, j: int|
                0 <= i < scans@.len() && 0 <= j < scans@[i]@.len() ==> (
                #[trigger] scans@[i]@[j]).captures@.len() == groups@.len(),
            match_views(all@) == joined_scans(scans@, it.index() as nat),
            forall|k: int|
                0 <= k < all@.len() ==> (#[trigger] all@[k]).captures@.len() == groups@.len(),
    {
        let mut scan = scan;
        let ghost before = all@;
        let ghost n = it.index() as int;
        assert(scan@ == scans@[n]@);
        let ghost added = scan@;
        all.append(&mut scan);
        assert(all@ =~= before + added);
        assert(match_views(all@) =~= match_views(before) + match_views(added));
        assert forall|k: int| 0 <= k < all@.len() implies (
        #[trigger] all@[k]).captures@.len() == groups@.len() by {
            if k >= before.len() {
                assert(scans@[n]@[k - before.len()].captures@.len() == groups@.len());
            }
        }
    }
    table_of_matches(&groups, all, scanned as usize, max_rows)
}

/// The matches of the first `count` scans, one scan after another.
pub open spec fn joined_scans(scans: Seq<Vec<LineMatch>>, count: nat) -> Seq<
    (u64, Seq<Option<Seq<char>>>),
>
    decreases count,
{
    if count == 0 {
        Seq::empty()
    } else {
        joined_scans(scans, (count - 1) as nat) + match_views(scans[count - 1]@)
    }
}

/// Scans the chunks of a source one after another.
pub fn extract_text_source(
    chunks: &Vec<LineChunk>,
    total_lines: u64,
    pattern: &str,
    line_range: &Range<u64>,
    max_rows: usize,
) -> (r: RecordTable)
    requires
        total_lines <= usize::MAX,
        forall|i: int|
            0 <= i < chunks@.len() ==> (#[trigger] chunks@[i]).start_line + chunks@[i].lines@.len()
                <= u64::MAX,
    ensures
        r@ == source_table(
            text::trim(pattern@),
            chunks@,
            total_lines as nat,
            (line_range.start as nat, line_range.end as nat),
            max_rows as nat,
        ),
{
    let range = clamp_range(line_range, total_lines);
    let ghost bounds = (range.start as nat, range.end as nat);
    let ghost source = text::trim(pattern@);
    let mut scans: Vec<Vec<LineMatch>> = Vec::new();
    let mut i: usize = 0;
    while i < chunks.len()
        invariant
            i <= chunks@.len(),
            source == text::trim(pattern@),
            bounds == (range.start as nat, range.end as nat),
            forall|k: int|
                0 <= k < chunks@.len() ==> (#[trigger] chunks@[k]).start_line
                    + chunks@[k].lines@.len() <= u64::MAX,
            scans@.len() == i,
            pattern::pattern_fault(source) is None ==> joined_scans(scans@, i as nat)
                == source_matches(source, chunks@, bounds, i as nat),
            forall|k: int, j: int|
                0 <= k < scans@.len() && 0 <= j < scans@[k]@.len() ==> (
                #[trigger] scans@[k]@[j]).captures@.len() == pattern::pattern_groups(source).len(),
        decreases chunks@.len() - i,
    {
        let found = scan_chunk(pattern, &chunks[i], &range);
        let ghost before = scans@;
        scans.push(found);
        proof {
            lemma_joined_scans_keep(before, scans@, i as nat);
        }
        i += 1;
    }
    table_of_scans(pattern, scans, total_lines, line_range, max_rows)
}

proof fn lemma_joined_scans_keep(a: Seq<Vec<LineMatch>>, b: Seq<Vec<LineMatch>>, count: nat)
    requires
        count <= a.len(),
        count <= b.len(),
        forall|k: int| 0 <= k < count ==> a[k] == b[k],
    ensures
        joined_scans(a, count) == joined_scans(b, count),
    decreases count,
{
    if count > 0 {
        lemma_joined_scans_keep(a, b, (count - 1) as nat);
    }
}

/// A source as far as a table needs it: its first characters, all of it, and its lines.
pub struct SourceText {
    pub prefix: String,
    pub document: String,
    pub chunks: Vec<LineChunk>,
    pub total_lines: u64,
}

/// What of a source a table is made from.
#[derive(Clone, Copy, Debug, PartialEq, Eq, Structural)]
pub enum SourcePlan {
    Lines,
    Document,
    Nothing,
}

/// A pattern that is not blank goes by lines. Without one, only what begins like a JSON
/// object or array is read as a whole.
pub open spec fn planned(pattern: Seq<char>, prefix: Seq<char>) -> SourcePlan {
    let start = text::trim_start(prefix);
    if text::trim(pattern).len() > 0 {
        SourcePlan::Lines
    } else if start.len() > 0 && (start[0] == '{' || start[0] == '[') {
        SourcePlan::Document
    } else {
        SourcePlan::Nothing
    }
}

/// What of a source with this prefix a table is made from.
pub fn plan_source(pattern: &str, prefix: &str) -> (r: SourcePlan)
    ensures
        r == planned(pattern@, prefix@),
{
    if text::trimmed(&text::chars_of(pattern)).len() > 0 {
        return SourcePlan::Lines;
    }
    let chars = text::chars_of(prefix);
    let mut i: usize = 0;
    assert(chars@.skip(0) =~= chars@);
    while i < chars.len() && text::white_space(chars[i])
        invariant
            i <= chars@.len(),
            text::trim_start(chars@.skip(i as int)) == text::trim_start(chars@),
        decreases chars@.len() - i,
    {
        assert(chars@.skip(i as int).skip(1) =~= chars@.skip(i + 1));
        i += 1;
    }
    if i < chars.len() && (chars[i] == '{' || chars[i] == '[') {
        SourcePlan::Document
    } else {
        SourcePlan::Nothing
    }
}

/// Extracts a table by lines or from JSON. Ordinary logs without a pattern are turned down
/// by their prefix alone.
pub fn extract_source(
    source: &SourceText,
    pattern: &str,
    line_range: Option<Range<u64>>,
    max_rows: usize,
) -> (r: RecordTable)
    requires
        source.total_lines <= usize::MAX,
        forall|i: int|
            0 <= i < source.chunks@.len() ==> (#[trigger] source.chunks@[i]).start_line
                + source.chunks@[i].lines@.len() <= u64::MAX,
    ensures
        r@ == match planned(pattern@, source.prefix@) {
            SourcePlan::Lines => source_table(
                text::trim(pattern@),
                source.chunks@,
                source.total_lines as nat,
                match line_range {
                    Some(range) => (range.start as nat, range.end as nat),
                    None => (0, source.total_lines as nat),
                },
                max_rows as nat,
            ),
            SourcePlan::Document => extracted_table(
                source.document@,
                Seq::empty(),
                max_rows as nat,
            ),
            SourcePlan::Nothing => empty_table(),
        },
{
    match plan_source(pattern, &source.prefix) {
        SourcePlan::Lines => {
            let range = match line_range {
                Some(range) => range,
                None => 0..source.total_lines,
            };
            extract_text_source(&source.chunks, source.total_lines, pattern, &range, max_rows)
        },
        SourcePlan::Document => {
            proof {
                reveal_strlit("");
                assert(""@ =~= Seq::empty());
            }
            extract_table(&source.document, "", max_rows)
        },
        SourcePlan::Nothing => RecordTable::default(),
    }
}

/// The table of a source goes by the lines of the range that the source has: as many are looked
/// at as there are, and the matches among them make its rows. A pattern that is not accepted
/// gives no rows, only the reason.
pub proof fn sources_are_searched_within_the_range(
    source: Seq<char>,
    chunks: Seq<LineChunk>,
    total_lines: nat,
    range: (nat, nat),
    max_rows: nat,
)
    ensures
        ({
            let table = source_table(source, chunks, total_lines, range, max_rows);
            let from = if range.0 <= total_lines {
                range.0
            } else {
                total_lines
            };
            let to = if range.1 <= total_lines {
                range.1
            } else {
                total_lines
            };
            match pattern::pattern_fault(source) {
                Some(message) => table.error == Some(message) && table.rows.len() == 0
                    && table.columns.len() == 0 && table.scanned == 0 && table.matched == 0,
                None => {
                    &&& table.scanned == if from <= to {
                        to - from
                    } else {
                        0
                    }
                    &&& table == matches_table(
                        pattern::pattern_groups(source),
                        source_matches(source, chunks, (from, to), chunks.len()),
                        table.scanned,
                        max_rows,
                    )
                },
            }
        }),
{
}

/// A pattern that is not accepted gives a table without rows that tells the reason; one that is
/// accepted gives the table of what it captures in each line.
pub proof fn refused_patterns_tell_why(source: Seq<char>, lines: Seq<Seq<char>>, max_rows: nat)
    ensures
        ({
            let table = lines_table(source, lines, max_rows);
            match pattern::pattern_fault(source) {
                Some(message) => table.error == Some(message) && table.rows.len() == 0
                    && table.columns.len() == 0 && table.scanned == 0 && table.matched == 0,
                None => table == captures_table(
                    pattern::pattern_groups(source),
                    lines.map_values(|line: Seq<char>| pattern::line_captures(source, line)),
                    max_rows,
                ),
            }
        }),
{
}

/// With a pattern the lines of a source are looked at. Without one, only a source whose first
/// character that is not white space opens a JSON object or array is read at all.
pub proof fn sources_without_a_pattern_must_look_like_json(
    pattern: Seq<char>,
    before: Seq<char>,
    first: char,
    rest: Seq<char>,
)
    requires
        forall|k: int| 0 <= k < before.len() ==> text::is_space(#[trigger] before[k]),
        !text::is_space(first),
    ensures
        text::trim(pattern).len() > 0 ==> planned(pattern, before + seq![first] + rest)
            == SourcePlan::Lines && planned(pattern, before) == SourcePlan::Lines,
        text::trim(pattern).len() == 0 ==> planned(pattern, before + seq![first] + rest) == if first
            == '{' || first == '[' {
            SourcePlan::Document
        } else {
            SourcePlan::Nothing
        },
        text::trim(pattern).len() == 0 ==> planned(pattern, before) == SourcePlan::Nothing,
{
    let s = before + seq![first] + rest;
    text::trimming_takes_the_white_space_at_both_ends(s);
    let i = choose|i: int|
        0 <= i <= s.len() && text::trim_start(s) == #[trigger] s.skip(i) && (forall|k: int|
            0 <= k < i ==> text::is_space(#[trigger] s[k]));
    assert(s[before.len() as int] == first);
    assert(i == before.len()) by {
        if i < before.len() {
            assert(s.skip(i)[0] == before[i]);
        }
        if i > before.len() {
            assert(text::is_space(s[before.len() as int]));
        }
    }
    text::trimming_takes_the_white_space_at_both_ends(before);
    let j = choose|j: int|
        0 <= j <= before.len() && text::trim_start(before) == #[trigger] before.skip(j) && (forall|
            k: int,
        |
            0 <= k < j ==> text::is_space(#[trigger] before[k]));
    if j < before.len() {
        assert(before.skip(j)[0] == before[j]);
    }
}

/// Extracting with a pattern that is accepted: each line that was looked at and matches makes a
/// row, and all lines are looked at unless there are as many rows as asked for.
pub proof fn extracting_passes_over_no_match(
    input: &str,
    pattern: &str,
    max_rows: usize,
    r: RecordTable,
)
    requires
        call_ensures(extract_table, (input, pattern, max_rows), r),
        text::trim(pattern@).len() > 0,
    ensures
        pattern::pattern_fault(text::trim(pattern@)) is None ==> {
            let lines = text::lines(input@);
            let matches = |line: Seq<char>|
                pattern::line_captures(text::trim(pattern@), line) is Some;
            &&& r.error is None
            &&& r.matched == r.rows@.len()
            &&& r.scanned <= lines.len()
            &&& r.rows@.len() == lines.take(r.scanned as int).filter(matches).len()
            &&& r.scanned < lines.len() ==> r.rows@.len() >= max_rows && r.rows@.len() > 0
        },
        pattern::pattern_fault(text::trim(pattern@)) matches Some(message) ==> r.rows@.len() == 0
            && r@.error == Some(message),
{
    let source = text::trim(pattern@);
    let lines = text::lines(input@);
    let captures = captures_of_lines(source, lines);
    assert(r@.rows.len() == r.rows@.len());
    if pattern::pattern_fault(source) is None {
        let columns = group_columns(pattern::pattern_groups(source));
        let outcomes = captures.map_values(
            |line: Option<Seq<Option<Seq<char>>>>| capture_record(columns, line),
        );
        scan_stops_only_where_full(outcomes, max_rows as nat);
    }
}

/// A pattern without groups gives one column for what it matches. Otherwise each group gives a
/// column, in the order of the groups: under its name, or under its number where it has none.
pub proof fn groups_name_the_columns(groups: Seq<Option<Seq<char>>>, i: int)
    ensures
        groups.len() <= 1 ==> group_columns(groups) == seq!["match"@],
        groups.len() > 1 ==> group_columns(groups).len() == groups.len() - 1,
        1 <= i < groups.len() ==> group_columns(groups)[i - 1] == match groups[i] {
            Some(name) => name,
            None => "group_"@ + text::decimal(i as nat),
        },
{
}

/// Where the groups of a pattern give different columns, the cell of each column holds what its
/// group captured, and nothing where the group took no part in the match.
pub proof fn groups_fill_their_columns(
    columns: Seq<Seq<char>>,
    captures: Seq<Option<Seq<char>>>,
    count: nat,
    i: int,
)
    requires
        columns.no_duplicates(),
        count <= columns.len() < captures.len(),
        0 <= i < count,
    ensures
        group_map(columns, captures, count).contains_key(columns[i]),
        group_map(columns, captures, count)[columns[i]] == match captures[i + 1] {
            Some(value) => value,
            None => Seq::empty(),
        },
    decreases count,
{
    if i < count - 1 {
        groups_fill_their_columns(columns, captures, (count - 1) as nat, i);
    }
}

} // verus!
