//! The view of one log: what is selected, what was edited, what is being scanned,
//! and how a row looks.

use crate::text;
use std::collections::BTreeMap;
use vstd::prelude::*;

verus! {

/// Selected rows, from where the selection began to where it was last extended to.
#[derive(Clone, Copy, Debug, PartialEq, Eq, Structural)]
pub struct LineSelection {
    pub anchor_row: u64,
    pub active_row: u64,
}

/// The first selected row.
pub open spec fn first_row(selection: LineSelection) -> u64 {
    if selection.anchor_row <= selection.active_row {
        selection.anchor_row
    } else {
        selection.active_row
    }
}

/// The last selected row.
pub open spec fn last_row(selection: LineSelection) -> u64 {
    if selection.anchor_row <= selection.active_row {
        selection.active_row
    } else {
        selection.anchor_row
    }
}

impl LineSelection {
    /// The first and the last selected row.
    pub fn range(self) -> (r: (u64, u64))
        ensures
            r == (first_row(self), last_row(self)),
            r.0 <= r.1,
    {
        if self.anchor_row <= self.active_row {
            (self.anchor_row, self.active_row)
        } else {
            (self.active_row, self.anchor_row)
        }
    }

    /// Whether a row is selected.
    pub fn contains(self, row: u64) -> (r: bool)
        ensures
            r == (first_row(self) <= row <= last_row(self)),
    {
        let (first, last) = self.range();
        first <= row && row <= last
    }
}

/// Edited lines, in line order.
#[derive(Debug)]
pub struct Edits {
    lines: BTreeMap<u64, String>,
}

/// Each line comes behind those of lower number.
pub open spec fn lines_increase(entries: Seq<(u64, String)>) -> bool {
    forall|i: int, j: int|
        0 <= i < j < entries.len() ==> (#[trigger] entries[i]).0 < (#[trigger] entries[j]).0
}

/// Edited lines as a map from line to text.
pub open spec fn edit_map(entries: Seq<(u64, String)>) -> Map<u64, Seq<char>>
    decreases entries.len(),
{
    if entries.len() == 0 {
        Map::empty()
    } else {
        edit_map(entries.drop_last()).insert(entries.last().0, entries.last().1@)
    }
}

proof fn lemma_edit_map(entries: Seq<(u64, String)>)
    requires
        lines_increase(entries),
    ensures
        forall|line: u64| #[trigger]
            edit_map(entries).dom().contains(line) <==> exists|i: int|
                0 <= i < entries.len() && (#[trigger] entries[i]).0 == line,
        forall|i: int|
            0 <= i < entries.len() ==> edit_map(entries)[(#[trigger] entries[i]).0]
                == entries[i].1@,
    decreases entries.len(),
{
    if entries.len() > 0 {
        let rest = entries.drop_last();
        assert(lines_increase(rest));
        lemma_edit_map(rest);
        assert forall|line: u64| #[trigger]
            edit_map(entries).dom().contains(line) <==> exists|i: int|
                0 <= i < entries.len() && (#[trigger] entries[i]).0 == line by {
            if edit_map(rest).dom().contains(line) {
                let i = choose|i: int| 0 <= i < rest.len() && (#[trigger] rest[i]).0 == line;
                assert(entries[i].0 == line);
            }
            if entries.last().0 == line {
                assert(entries[entries.len() - 1].0 == line);
            }
            if exists|i: int| 0 <= i < entries.len() && (#[trigger] entries[i]).0 == line {
                let i = choose|i: int| 0 <= i < entries.len() && (#[trigger] entries[i]).0 == line;
                if i < rest.len() {
                    assert(rest[i].0 == line);
                }
            }
        }
        assert forall|i: int| 0 <= i < entries.len() implies edit_map(entries)[(
        #[trigger] entries[i]).0] == entries[i].1@ by {
            if i < rest.len() {
                assert(rest[i] == entries[i]);
                assert(entries[i].0 < entries[entries.len() - 1].0);
            }
        }
    }
}

proof fn lemma_keys_increase(keys: Seq<u64>)
    requires
        vstd::std_specs::btree::increasing_seq(keys),
    ensures
        forall|i: int, j: int| 0 <= i < j < keys.len() ==> keys[i] < keys[j],
{
    assert forall|i: int, j: int| 0 <= i < j < keys.len() implies keys[i] < keys[j] by {
        assert(vstd::std_specs::cmp::OrdSpec::cmp_spec(&keys[i], &keys[j]) is Less);
    }
}

impl View for Edits {
    type V = Map<u64, Seq<char>>;

    closed spec fn view(&self) -> Map<u64, Seq<char>> {
        self.lines@.map_values(|value: String| value@)
    }
}

impl Edits {
    /// No line is edited.
    pub fn new() -> (r: Edits)
        ensures
            r@ == Map::<u64, Seq<char>>::empty(),
    {
        Edits { lines: BTreeMap::new() }
    }

    /// The text of an edited line.
    pub fn get(&self, line: u64) -> (r: Option<String>)
        ensures
            match r {
                Some(value) => self@.dom().contains(line) && value@ == self@[line],
                None => !self@.dom().contains(line),
            },
    {
        match self.lines.get(&line) {
            Some(value) => Some(value.clone()),
            None => None,
        }
    }

    /// Takes over the text of a line.
    pub fn insert(&mut self, line: u64, value: String)
        ensures
            final(self)@ == old(self)@.insert(line, value@),
    {
        self.lines.insert(line, value);
        assert(self@ =~= old(self)@.insert(line, value@));
    }

    /// Whether no line is edited.
    pub fn is_empty(&self) -> (r: bool)
        ensures
            r == (self@ == Map::<u64, Seq<char>>::empty()),
    {
        proof {
            if self@ == Map::<u64, Seq<char>>::empty() {
                assert forall|line: u64| !self.lines@.dom().contains(line) by {
                    assert(!self@.dom().contains(line));
                }
                assert(self.lines@.dom() =~= Set::<u64>::empty());
            } else if self.lines@.is_empty() {
                assert(self@ =~= Map::<u64, Seq<char>>::empty());
            }
        }
        self.lines.is_empty()
    }

    /// The edited lines with their texts, in order.
    pub fn entries(&self) -> (r: Vec<(u64, String)>)
        ensures
            lines_increase(r@),
            edit_map(r@) == self@,
    {
        let mut out: Vec<(u64, String)> = Vec::new();
        let ghost all = vstd::std_specs::iter::IteratorSpec::remaining(&self.lines.iter());
        for pair in it: self.lines.iter()
            invariant
                it.seq() == all,
                vstd::std_specs::btree::increasing_seq(
                    all.map_values(|pair: (&u64, &String)| *pair.0),
                ),
                out@.len() == it.index(),
                forall|k: int|
                    0 <= k < out@.len() ==> (#[trigger] out@[k]).0 == *all[k].0 && out@[k].1@
                        == all[k].1@,
        {
            out.push((*pair.0, pair.1.clone()));
        }
        proof {
            let keys = all.map_values(|pair: (&u64, &String)| *pair.0);
            lemma_keys_increase(keys);
            assert forall|i: int, j: int| 0 <= i < j < out@.len() implies (#[trigger] out@[i]).0 < (
            #[trigger] out@[j]).0 by {
                assert(keys[i] < keys[j]);
            }
            lemma_edit_map(out@);
            assert forall|line: u64| #[trigger]
                edit_map(out@).dom().contains(line) <==> self@.dom().contains(line) by {
                if edit_map(out@).dom().contains(line) {
                    let i = choose|i: int| 0 <= i < out@.len() && (#[trigger] out@[i]).0 == line;
                    assert(self.lines@.contains_key(*all[i].0));
                }
                if self@.dom().contains(line) {
                    assert(self.lines@.contains_key(line));
                    assert(all.contains((&line, &self.lines@[line])));
                    let i = choose|i: int|
                        0 <= i < all.len() && all[i] == (&line, &self.lines@[line]);
                    assert(out@[i].0 == line);
                }
            }
            assert forall|line: u64| #[trigger]
                edit_map(out@).dom().contains(line) implies edit_map(out@)[line] == self@[line] by {
                let i = choose|i: int| 0 <= i < out@.len() && (#[trigger] out@[i]).0 == line;
                assert(self.lines@.contains_key(*all[i].0));
            }
            assert(edit_map(out@) =~= self@);
        }
        out
    }

    /// The same edits once more.
    pub fn copy(&self) -> (r: Edits)
        ensures
            r@ == self@,
    {
        Edits { lines: self.lines.clone() }
    }

    /// Whether the edits are the same.
    pub fn same(&self, other: &Edits) -> (r: bool)
        ensures
            r == (self@ == other@),
    {
        let a = self.entries();
        let b = other.entries();
        if a.len() != b.len() {
            proof {
                if self@ == other@ {
                    lemma_same_edits(a@, b@);
                }
            }
            return false;
        }
        let mut i: usize = 0;
        while i < a.len()
            invariant
                lines_increase(a@),
                lines_increase(b@),
                edit_map(a@) == self@,
                edit_map(b@) == other@,
                i <= a@.len(),
                a@.len() == b@.len(),
                forall|k: int|
                    0 <= k < i ==> (#[trigger] a@[k]).0 == b@[k].0 && a@[k].1@ == b@[k].1@,
            decreases a@.len() - i,
        {
            if a[i].0 != b[i].0 || a[i].1 != b[i].1 {
                proof {
                    if self@ == other@ {
                        lemma_same_edits(a@, b@);
                        assert(a@[i as int].0 == b@[i as int].0);
                    }
                }
                return false;
            }
            i += 1;
        }
        proof {
            lemma_edits_by_texts(a@, b@);
        }
        true
    }
}

proof fn lemma_edits_by_texts(a: Seq<(u64, String)>, b: Seq<(u64, String)>)
    requires
        a.len() == b.len(),
        forall|k: int| 0 <= k < a.len() ==> (#[trigger] a[k]).0 == b[k].0 && a[k].1@ == b[k].1@,
    ensures
        edit_map(a) == edit_map(b),
    decreases a.len(),
{
    if a.len() > 0 {
        assert forall|k: int| 0 <= k < a.drop_last().len() implies (#[trigger] a.drop_last()[k]).0
            == b.drop_last()[k].0 && a.drop_last()[k].1@ == b.drop_last()[k].1@ by {
            assert(a[k].0 == b[k].0);
        }
        lemma_edits_by_texts(a.drop_last(), b.drop_last());
        assert(a[a.len() - 1].0 == b[a.len() - 1].0);
    }
}

proof fn lemma_same_edits(a: Seq<(u64, String)>, b: Seq<(u64, String)>)
    requires
        lines_increase(a),
        lines_increase(b),
        edit_map(a) == edit_map(b),
    ensures
        a.len() == b.len(),
        forall|k: int| 0 <= k < a.len() ==> (#[trigger] a[k]).0 == b[k].0 && a[k].1@ == b[k].1@,
    decreases a.len(),
{
    lemma_edit_map(a);
    lemma_edit_map(b);
    if a.len() == 0 {
        if b.len() > 0 {
            assert(edit_map(b).dom().contains(b[0].0));
            assert(edit_map(a).dom().contains(b[0].0));
        }
    } else {
        assert(edit_map(a).dom().contains(a[a.len() - 1].0));
        assert(edit_map(b).dom().contains(a[a.len() - 1].0));
        let i = choose|i: int| 0 <= i < b.len() && (#[trigger] b[i]).0 == a[a.len() - 1].0;
        assert(edit_map(b).dom().contains(b[b.len() - 1].0));
        assert(edit_map(a).dom().contains(b[b.len() - 1].0));
        let j = choose|j: int| 0 <= j < a.len() && (#[trigger] a[j]).0 == b[b.len() - 1].0;
        if i < b.len() - 1 {
            assert(b[i].0 < b[b.len() - 1].0);
            if j < a.len() - 1 {
                assert(a[j].0 < a[a.len() - 1].0);
            }
        }
        assert(a.last().0 == b.last().0);
        assert(a.last().1@ == b.last().1@) by {
            assert(edit_map(a)[a[a.len() - 1].0] == a[a.len() - 1].1@);
            assert(edit_map(b)[b[b.len() - 1].0] == b[b.len() - 1].1@);
        }
        let a0 = a.drop_last();
        let b0 = b.drop_last();
        assert(lines_increase(a0));
        assert(lines_increase(b0));
        lemma_edit_map(a0);
        lemma_edit_map(b0);
        assert(!edit_map(a0).dom().contains(a.last().0)) by {
            if edit_map(a0).dom().contains(a.last().0) {
                let k = choose|k: int| 0 <= k < a0.len() && (#[trigger] a0[k]).0 == a.last().0;
                assert(a[k].0 < a[a.len() - 1].0);
            }
        }
        assert(!edit_map(b0).dom().contains(b.last().0)) by {
            if edit_map(b0).dom().contains(b.last().0) {
                let k = choose|k: int| 0 <= k < b0.len() && (#[trigger] b0[k]).0 == b.last().0;
                assert(b[k].0 < b[b.len() - 1].0);
            }
        }
        assert(edit_map(a0) =~= edit_map(a).remove(a.last().0));
        assert(edit_map(b0) =~= edit_map(b).remove(b.last().0));
        lemma_same_edits(a0, b0);
        assert forall|k: int| 0 <= k < a.len() implies (#[trigger] a[k]).0 == b[k].0 && a[k].1@
            == b[k].1@ by {
            if k < a0.len() {
                assert(a0[k].0 == b0[k].0);
            }
        }
    }
}

/// A line to be replaced in a file: where its bytes stand, if the line is there at all, and
/// the bytes to put in their place.
pub struct LinePatch {
    pub span: Option<(usize, usize)>,
    pub bytes: Vec<u8>,
}

/// A stretch of an edited copy: bytes of the file, or the bytes of a patch.
#[derive(Clone, Copy, Debug, PartialEq, Eq, Structural)]
pub enum CopyPiece {
    Kept { from: usize, to: usize },
    Patched { patch: usize },
}

/// Where the replaced bytes of a line start: the mark at the start of a file that tells its
/// encoding is not part of its first line.
pub open spec fn patch_start(span: (usize, usize), mark: nat) -> nat {
    if span.0 == 0 {
        if mark <= span.1 {
            mark
        } else {
            span.1 as nat
        }
    } else {
        span.0 as nat
    }
}

/// The file from `cursor` on, with the lines replaced that the patches from `first` on name.
pub open spec fn patched(
    data: Seq<u8>,
    mark: nat,
    patches: Seq<LinePatch>,
    first: nat,
    cursor: nat,
) -> Seq<u8>
    decreases patches.len() - first,
{
    if first >= patches.len() {
        data.skip(cursor as int)
    } else {
        match patches[first as int].span {
            Some(span) => data.subrange(cursor as int, patch_start(span, mark) as int)
                + patches[first as int].bytes@ + patched(
                data,
                mark,
                patches,
                first + 1,
                span.1 as nat,
            ),
            None => patched(data, mark, patches, first + 1, cursor),
        }
    }
}

/// The patches from `first` on stand in order behind `cursor`, and within the file.
pub open spec fn patches_fit(
    length: nat,
    mark: nat,
    patches: Seq<LinePatch>,
    first: nat,
    cursor: nat,
) -> bool
    decreases patches.len() - first,
{
    if first >= patches.len() {
        cursor <= length
    } else {
        match patches[first as int].span {
            Some(span) => cursor <= patch_start(span, mark) <= span.1 <= length && patches_fit(
                length,
                mark,
                patches,
                first + 1,
                span.1 as nat,
            ),
            None => patches_fit(length, mark, patches, first + 1, cursor),
        }
    }
}

/// The bytes of a piece.
pub open spec fn piece_bytes(
    data: Seq<u8>,
    patches: Seq<LinePatch>,
    piece: CopyPiece,
) -> Seq<u8> {
    match piece {
        CopyPiece::Kept { from, to } => data.subrange(from as int, to as int),
        CopyPiece::Patched { patch } => patches[patch as int].bytes@,
    }
}

/// The bytes of some pieces, one after another.
pub open spec fn assembled(
    data: Seq<u8>,
    patches: Seq<LinePatch>,
    pieces: Seq<CopyPiece>,
) -> Seq<u8>
    decreases pieces.len(),
{
    if pieces.len() == 0 {
        Seq::empty()
    } else {
        assembled(data, patches, pieces.drop_last()) + piece_bytes(data, patches, pieces.last())
    }
}

/// Each piece lies within the file or names a patch.
pub open spec fn pieces_lie_within(
    length: nat,
    patches: Seq<LinePatch>,
    pieces: Seq<CopyPiece>,
) -> bool {
    forall|i: int|
        0 <= i < pieces.len() ==> match #[trigger] pieces[i] {
            CopyPiece::Kept { from, to } => from <= to <= length,
            CopyPiece::Patched { patch } => patch < patches.len(),
        }
}

/// What to write for an edited copy of a file: stretches of the file and, between them, the
/// bytes of the patches. `mark` is the length of the encoding mark at the start.
pub fn write_edited_copy(length: usize, mark: usize, patches: &Vec<LinePatch>) -> (r: Vec<CopyPiece>)
    requires
        patches_fit(length as nat, mark as nat, patches@, 0, 0),
    ensures
        pieces_lie_within(length as nat, patches@, r@),
        forall|data: Seq<u8>|
            data.len() == length ==> #[trigger] assembled(data, patches@, r@) == patched(
                data,
                mark as nat,
                patches@,
                0,
                0,
            ),
{
    let mut out: Vec<CopyPiece> = Vec::new();
    let mut cursor: usize = 0;
    let mut i: usize = 0;
    assert forall|data: Seq<u8>| data.len() == length implies #[trigger] assembled(
        data,
        patches@,
        out@,
    ) + patched(data, mark as nat, patches@, 0, 0) == patched(data, mark as nat, patches@, 0, 0) by {
        assert(assembled(data, patches@, out@) + patched(data, mark as nat, patches@, 0, 0)
            =~= patched(data, mark as nat, patches@, 0, 0));
    }
    while i < patches.len()
        invariant
            i <= patches@.len(),
            cursor <= length,
            patches_fit(length as nat, mark as nat, patches@, i as nat, cursor as nat),
            pieces_lie_within(length as nat, patches@, out@),
            forall|data: Seq<u8>|
                data.len() == length ==> #[trigger] assembled(data, patches@, out@) + patched(
                    data,
                    mark as nat,
                    patches@,
                    i as nat,
                    cursor as nat,
                ) == patched(data, mark as nat, patches@, 0, 0),
        decreases patches@.len() - i,
    {
        if let Some((start, end)) = patches[i].span {
            let from: usize = if start == 0 {
                if mark <= end {
                    mark
                } else {
                    end
                }
            } else {
                start
            };
            let ghost before = out@;
            let kept = CopyPiece::Kept { from: cursor, to: from };
            let put = CopyPiece::Patched { patch: i };
            out.push(kept);
            out.push(put);
            assert forall|data: Seq<u8>| data.len() == length implies #[trigger] assembled(
                data,
                patches@,
                out@,
            ) + patched(data, mark as nat, patches@, (i + 1) as nat, end as nat) == patched(
                data,
                mark as nat,
                patches@,
                0,
                0,
            ) by {
                assert(out@.drop_last() =~= before.push(kept));
                assert(before.push(kept).drop_last() =~= before);
                let a = assembled(data, patches@, before);
                let b = data.subrange(cursor as int, from as int);
                let c = patches@[i as int].bytes@;
                let d = patched(data, mark as nat, patches@, (i + 1) as nat, end as nat);
                assert(assembled(data, patches@, before.push(kept)) == a + b);
                assert(out@.last() == put);
                assert(piece_bytes(data, patches@, put) == c);
                assert(assembled(data, patches@, out@) == a + b + c);
                assert(patched(data, mark as nat, patches@, i as nat, cursor as nat) == b + c + d);
                assert(a + b + c + d =~= a + (b + c + d));
            }
            cursor = end;
        } else {
            assert forall|data: Seq<u8>| data.len() == length implies #[trigger] assembled(
                data,
                patches@,
                out@,
            ) + patched(data, mark as nat, patches@, (i + 1) as nat, cursor as nat) == patched(
                data,
                mark as nat,
                patches@,
                0,
                0,
            ) by {
                assert(patched(data, mark as nat, patches@, i as nat, cursor as nat) == patched(
                    data,
                    mark as nat,
                    patches@,
                    (i + 1) as nat,
                    cursor as nat,
                ));
            }
        }
        i += 1;
    }
    let ghost before = out@;
    let rest = CopyPiece::Kept { from: cursor, to: length };
    out.push(rest);
    assert forall|data: Seq<u8>| data.len() == length implies #[trigger] assembled(
        data,
        patches@,
        out@,
    ) == patched(data, mark as nat, patches@, 0, 0) by {
        assert(out@.drop_last() =~= before);
        assert(data.subrange(cursor as int, length as int) =~= data.skip(cursor as int));
        assert(assembled(data, patches@, before) + patched(
            data,
            mark as nat,
            patches@,
            i as nat,
            cursor as nat,
        ) == patched(data, mark as nat, patches@, 0, 0));
    }
    out
}

proof fn lemma_patching_with_same_bytes(
    data: Seq<u8>,
    mark: nat,
    patches: Seq<LinePatch>,
    first: nat,
    cursor: nat,
)
    requires
        patches_fit(data.len(), mark, patches, first, cursor),
        forall|i: int|
            0 <= i < patches.len() ==> (#[trigger] patches[i].span matches Some(span)
                ==> patches[i].bytes@ == data.subrange(
                patch_start(span, mark) as int,
                span.1 as int,
            )),
    ensures
        cursor <= data.len(),
        patched(data, mark, patches, first, cursor) == data.skip(cursor as int),
    decreases patches.len() - first,
{
    if first < patches.len() {
        match patches[first as int].span {
            Some(span) => {
                lemma_patching_with_same_bytes(data, mark, patches, first + 1, span.1 as nat);
                let start = patch_start(span, mark) as int;
                assert(patches[first as int].span matches Some(other) && other == span);
                assert(data.subrange(cursor as int, start) + data.subrange(start, span.1 as int)
                    + data.skip(span.1 as int) =~= data.skip(cursor as int));
            },
            None => {
                lemma_patching_with_same_bytes(data, mark, patches, first + 1, cursor);
            },
        }
    }
}

/// Replacing each line by the bytes that it has leaves the file as it is. In particular a copy
/// without edits is the file itself.
pub proof fn patching_with_same_bytes_changes_nothing(
    data: Seq<u8>,
    mark: nat,
    patches: Seq<LinePatch>,
)
    requires
        patches_fit(data.len(), mark, patches, 0, 0),
        forall|i: int|
            0 <= i < patches.len() ==> (#[trigger] patches[i].span matches Some(span)
                ==> patches[i].bytes@ == data.subrange(
                patch_start(span, mark) as int,
                span.1 as int,
            )),
    ensures
        patched(data, mark, patches, 0, 0) == data,
{
    lemma_patching_with_same_bytes(data, mark, patches, 0, 0);
    assert(data.skip(0) =~= data);
}

/// The length of an edited copy: that of the file, less what was replaced, and with what was
/// put in its place.
pub open spec fn patched_length(
    mark: nat,
    patches: Seq<LinePatch>,
    first: nat,
    length: int,
) -> int
    decreases patches.len() - first,
{
    if first >= patches.len() {
        length
    } else {
        match patches[first as int].span {
            Some(span) => patched_length(mark, patches, first + 1, length) - (span.1
                - patch_start(span, mark)) + patches[first as int].bytes@.len(),
            None => patched_length(mark, patches, first + 1, length),
        }
    }
}

/// Nothing but the replaced lines changes the length of a copy.
pub proof fn patching_changes_only_the_lines(
    data: Seq<u8>,
    mark: nat,
    patches: Seq<LinePatch>,
    first: nat,
    cursor: nat,
)
    requires
        patches_fit(data.len(), mark, patches, first, cursor),
    ensures
        cursor <= data.len(),
        patched(data, mark, patches, first, cursor).len() == patched_length(
            mark,
            patches,
            first,
            data.len() - cursor,
        ),
    decreases patches.len() - first,
{
    if first < patches.len() {
        match patches[first as int].span {
            Some(span) => {
                patching_changes_only_the_lines(data, mark, patches, first + 1, span.1 as nat);
                lemma_patched_length_shift(
                    mark,
                    patches,
                    first + 1,
                    data.len() - span.1,
                    data.len() - cursor,
                );
            },
            None => {
                patching_changes_only_the_lines(data, mark, patches, first + 1, cursor);
            },
        }
    }
}

proof fn lemma_patched_length_shift(
    mark: nat,
    patches: Seq<LinePatch>,
    first: nat,
    a: int,
    b: int,
)
    ensures
        patched_length(mark, patches, first, b) - patched_length(mark, patches, first, a) == b - a,
    decreases patches.len() - first,
{
    if first < patches.len() {
        lemma_patched_length_shift(mark, patches, first + 1, a, b);
    }
}

/// Behind the first `i` patches the copy goes on from the end of the last line that they replace;
/// up to there it is what these patches alone would give.
proof fn lemma_copy_parts(
    data: Seq<u8>,
    mark: nat,
    patches: Seq<LinePatch>,
    i: nat,
    first: nat,
    cursor: nat,
) -> (at: nat)
    requires
        patches_fit(data.len(), mark, patches, first, cursor),
        first <= i <= patches.len(),
    ensures
        cursor <= at <= data.len(),
        patches_fit(data.len(), mark, patches, i, at),
        at == cursor || exists|j: int|
            first <= j < i && ((#[trigger] patches[j]).span matches Some(span) && span.1 == at),
        ({
            let part = patched(data, mark, patches.take(i as int), first, cursor);
            let n = part.len() - (data.len() - at);
            &&& n >= 0
            &&& part.skip(n) == data.skip(at as int)
            &&& patched(data, mark, patches, first, cursor) == part.take(n) + patched(
                data,
                mark,
                patches,
                i,
                at,
            )
        }),
    decreases i - first,
{
    let earlier = patches.take(i as int);
    if first == i {
        lemma_fit_within(data.len(), mark, patches, first, cursor);
        let all = patched(data, mark, patches, first, cursor);
        let part = data.skip(cursor as int);
        assert(patched(data, mark, earlier, first, cursor) == part);
        assert(part.take(0) + all =~= all);
        assert(part.skip(0) =~= part);
        cursor
    } else {
        assert(earlier[first as int] == patches[first as int]);
        match patches[first as int].span {
            Some(span) => {
                let at = lemma_copy_parts(data, mark, patches, i, first + 1, span.1 as nat);
                let head = data.subrange(cursor as int, patch_start(span, mark) as int)
                    + patches[first as int].bytes@;
                let part = patched(data, mark, earlier, first + 1, span.1 as nat);
                let rest = patched(data, mark, patches, i, at);
                let n = part.len() - (data.len() - at);
                assert(patched(data, mark, earlier, first, cursor) =~= head + part);
                assert((head + part).take(head.len() + n) =~= head + part.take(n));
                assert((head + part).skip(head.len() + n) =~= part.skip(n));
                assert(head + (part.take(n) + rest) =~= head + part.take(n) + rest);
                if at == span.1 {
                    assert(patches[first as int].span matches Some(other) && other.1 == at);
                }
                at
            },
            None => lemma_copy_parts(data, mark, patches, i, first + 1, cursor),
        }
    }
}

proof fn lemma_fit_within(
    length: nat,
    mark: nat,
    patches: Seq<LinePatch>,
    first: nat,
    cursor: nat,
)
    requires
        patches_fit(length, mark, patches, first, cursor),
    ensures
        cursor <= length,
    decreases patches.len() - first,
{
    if first < patches.len() {
        match patches[first as int].span {
            Some(span) => {},
            None => lemma_fit_within(length, mark, patches, first + 1, cursor),
        }
    }
}

/// A copy without edits is the file. One more edit behind the others leaves the copy as it is up
/// to the line, puts the new bytes there, however many they are, and goes on with the file behind
/// the line. An edit of a line that is not there changes nothing.
pub proof fn one_more_edit_replaces_one_line(
    data: Seq<u8>,
    mark: nat,
    patches: Seq<LinePatch>,
    patch: LinePatch,
)
    requires
        patches_fit(data.len(), mark, patches.push(patch), 0, 0),
    ensures
        patched(data, mark, Seq::<LinePatch>::empty(), 0, 0) == data,
        patch.span is None ==> patched(data, mark, patches.push(patch), 0, 0) == patched(
            data,
            mark,
            patches,
            0,
            0,
        ),
        patch.span matches Some(span) ==> {
            let start = if span.0 == 0 {
                if mark <= span.1 {
                    mark as int
                } else {
                    span.1 as int
                }
            } else {
                span.0 as int
            };
            let before = patched(data, mark, patches, 0, 0);
            &&& start <= span.1 <= data.len()
            &&& before.len() >= data.len() - start
            &&& patched(data, mark, patches.push(patch), 0, 0) == before.take(
                before.len() - (data.len() - start),
            ) + patch.bytes@ + data.skip(span.1 as int)
        },
{
    assert(data.skip(0) =~= data);
    let all = patches.push(patch);
    let n = patches.len();
    let before = patched(data, mark, patches, 0, 0);
    assert(all.take(n as int) =~= patches);
    let at = lemma_copy_parts(data, mark, all, n, 0, 0);
    assert(all[n as int] == patch);
    let kept = before.len() - (data.len() - at);
    match patch.span {
        Some(span) => {
            let start = patch_start(span, mark) as int;
            assert(patched(data, mark, all, n + 1, span.1 as nat) == data.skip(span.1 as int));
            assert(data.subrange(at as int, start) =~= before.skip(kept).take(start - at)) by {
                assert(data.skip(at as int).take(start - at) =~= data.subrange(at as int, start));
            }
            assert(before.take(kept) + before.skip(kept).take(start - at) =~= before.take(
                before.len() - (data.len() - start),
            ));
            assert(patched(data, mark, all, 0, 0) =~= before.take(
                before.len() - (data.len() - start),
            ) + patch.bytes@ + data.skip(span.1 as int));
        },
        None => {
            assert(patched(data, mark, all, n + 1, at) == data.skip(at as int));
            assert(patched(data, mark, all, n, at) == data.skip(at as int));
            assert(before.take(kept) + before.skip(kept) =~= before);
        },
    }
}

/// The bytes of each edit stand in the copy just where its line stood, shifted by as much as the
/// earlier edits made the file longer.
pub proof fn edits_stand_where_their_lines_stood(
    data: Seq<u8>,
    mark: nat,
    patches: Seq<LinePatch>,
    i: int,
)
    requires
        patches_fit(data.len(), mark, patches, 0, 0),
        0 <= i < patches.len(),
        patches[i].span is Some,
    ensures
        ({
            let span = patches[i].span.unwrap();
            let start = if span.0 == 0 {
                if mark <= span.1 {
                    mark as int
                } else {
                    span.1 as int
                }
            } else {
                span.0 as int
            };
            let place = start + patched(data, mark, patches.take(i), 0, 0).len() - data.len();
            let copy = patched(data, mark, patches, 0, 0);
            &&& 0 <= place <= place + patches[i].bytes@.len() <= copy.len()
            &&& copy.subrange(place, place + patches[i].bytes@.len()) == patches[i].bytes@
        }),
{
    let at = lemma_copy_parts(data, mark, patches, i as nat, 0, 0);
    let part = patched(data, mark, patches.take(i), 0, 0);
    let span = patches[i].span.unwrap();
    let start = patch_start(span, mark) as int;
    let bytes = patches[i].bytes@;
    let copy = patched(data, mark, patches, 0, 0);
    let head = part.take(part.len() - (data.len() - at)) + data.subrange(at as int, start);
    let rest = patched(data, mark, patches, (i + 1) as nat, span.1 as nat);
    assert(copy =~= head + bytes + rest);
    assert(head.len() == start + part.len() - data.len());
    assert(copy.subrange(head.len() as int, (head.len() + bytes.len()) as int) =~= bytes);
}

proof fn lemma_untouched(
    data: Seq<u8>,
    mark: nat,
    patches: Seq<LinePatch>,
    first: nat,
    cursor: nat,
    x: int,
)
    requires
        patches_fit(data.len(), mark, patches, first, cursor),
        cursor <= x < data.len(),
        forall|j: int|
            first <= j < patches.len() ==> ((#[trigger] patches[j]).span matches Some(span) ==> x
                < patch_start(span, mark)),
    ensures
        patched(data, mark, patches, first, cursor).len() > x - cursor,
        patched(data, mark, patches, first, cursor)[x - cursor] == data[x],
    decreases patches.len() - first,
{
    if first < patches.len() {
        match patches[first as int].span {
            Some(span) => {
                assert(patches[first as int].span matches Some(other) && x < patch_start(
                    other,
                    mark,
                ));
            },
            None => lemma_untouched(data, mark, patches, first + 1, cursor, x),
        }
    }
}

/// Every byte that belongs to no edited line is in the copy, shifted by as much as the edits
/// before it made the file longer.
pub proof fn bytes_outside_the_edits_are_kept(
    data: Seq<u8>,
    mark: nat,
    patches: Seq<LinePatch>,
    i: int,
    x: int,
)
    requires
        patches_fit(data.len(), mark, patches, 0, 0),
        0 <= i <= patches.len(),
        0 <= x < data.len(),
        forall|j: int|
            0 <= j < i ==> ((#[trigger] patches[j]).span matches Some(span) ==> span.1 <= x),
        forall|j: int|
            i <= j < patches.len() ==> ((#[trigger] patches[j]).span matches Some(span) ==> x < (
            if span.0 == 0 {
                if mark <= span.1 {
                    mark as int
                } else {
                    span.1 as int
                }
            } else {
                span.0 as int
            })),
    ensures
        ({
            let place = x + patched(data, mark, patches.take(i), 0, 0).len() - data.len();
            let copy = patched(data, mark, patches, 0, 0);
            0 <= place < copy.len() && copy[place] == data[x]
        }),
{
    let at = lemma_copy_parts(data, mark, patches, i as nat, 0, 0);
    if at > 0 {
        let j = choose|j: int|
            0 <= j < i && ((#[trigger] patches[j]).span matches Some(span) && span.1 == at);
        assert(patches[j].span matches Some(span) && span.1 <= x);
    }
    assert forall|j: int| i <= j < patches.len() implies ((
    #[trigger] patches[j]).span matches Some(span) ==> x < patch_start(span, mark)) by {}
    lemma_untouched(data, mark, patches, i as nat, at, x);
}

proof fn lemma_fit_apart(
    length: nat,
    mark: nat,
    patches: Seq<LinePatch>,
    first: nat,
    cursor: nat,
)
    ensures
        patches_fit(length, mark, patches, first, cursor) <==> {
            &&& cursor <= length
            &&& forall|i: int|
                first <= i < patches.len() ==> ((#[trigger] patches[i]).span matches Some(span)
                    ==> cursor <= patch_start(span, mark) <= span.1 <= length)
            &&& forall|i: int, j: int|
                first <= i < j < patches.len() ==> ((#[trigger] patches[i]).span matches Some(a)
                    ==> ((#[trigger] patches[j]).span matches Some(b) ==> a.1 <= patch_start(
                    b,
                    mark,
                )))
        },
    decreases patches.len() - first,
{
    if first < patches.len() {
        match patches[first as int].span {
            Some(span) => {
                lemma_fit_apart(length, mark, patches, first + 1, span.1 as nat);
                if patches_fit(length, mark, patches, first, cursor) {
                    assert forall|i: int| first <= i < patches.len() implies ((
                    #[trigger] patches[i]).span matches Some(other) ==> cursor <= patch_start(
                        other,
                        mark,
                    ) <= other.1 <= length) by {
                        if i > first {
                            assert(patches[i].span matches Some(other) ==> span.1 <= patch_start(
                                other,
                                mark,
                            ));
                        }
                    }
                }
            },
            None => {
                lemma_fit_apart(length, mark, patches, first + 1, cursor);
            },
        }
    }
}

/// Edits can be put in place exactly where their lines lie within the file and no line begins
/// before the end of an earlier one.
pub proof fn edits_fit_where_their_lines_follow_one_another(
    length: nat,
    mark: nat,
    patches: Seq<LinePatch>,
)
    ensures
        patches_fit(length, mark, patches, 0, 0) <==> {
            &&& forall|i: int|
                0 <= i < patches.len() ==> ((#[trigger] patches[i]).span matches Some(span) ==> (
                if span.0 == 0 {
                    if mark <= span.1 {
                        mark as int
                    } else {
                        span.1 as int
                    }
                } else {
                    span.0 as int
                }) <= span.1 <= length)
            &&& forall|i: int, j: int|
                0 <= i < j < patches.len() ==> ((#[trigger] patches[i]).span matches Some(a) ==> ((
                #[trigger] patches[j]).span matches Some(span) ==> a.1 <= (if span.0 == 0 {
                    if mark <= span.1 {
                        mark as int
                    } else {
                        span.1 as int
                    }
                } else {
                    span.0 as int
                })))
        },
{
    lemma_fit_apart(length, mark, patches, 0, 0);
}

/// The pieces of a copy are written one after another: a stretch of the file as it stands there,
/// a patch with its bytes.
pub proof fn pieces_are_written_one_after_another(
    data: Seq<u8>,
    patches: Seq<LinePatch>,
    pieces: Seq<CopyPiece>,
    more: Seq<CopyPiece>,
    from: usize,
    to: usize,
    patch: usize,
)
    ensures
        assembled(data, patches, pieces + more) == assembled(data, patches, pieces) + assembled(
            data,
            patches,
            more,
        ),
        assembled(data, patches, Seq::<CopyPiece>::empty()) == Seq::<u8>::empty(),
        from <= to <= data.len() ==> assembled(data, patches, seq![CopyPiece::Kept { from, to }])
            == data.subrange(from as int, to as int),
        assembled(data, patches, seq![CopyPiece::Patched { patch }])
            == patches[patch as int].bytes@,
    decreases more.len(),
{
    if more.len() == 0 {
        assert(pieces + more =~= pieces);
        assert(assembled(data, patches, pieces + more) =~= assembled(data, patches, pieces)
            + assembled(data, patches, more));
    } else {
        assert((pieces + more).drop_last() =~= pieces + more.drop_last());
        pieces_are_written_one_after_another(
            data,
            patches,
            pieces,
            more.drop_last(),
            from,
            to,
            patch,
        );
        assert(assembled(data, patches, pieces + more) =~= assembled(data, patches, pieces)
            + assembled(data, patches, more));
    }
    let kept = seq![CopyPiece::Kept { from, to }];
    let put = seq![CopyPiece::Patched { patch }];
    assert(assembled(data, patches, Seq::<CopyPiece>::empty()) == Seq::<u8>::empty());
    assert(kept.drop_last() =~= Seq::<CopyPiece>::empty());
    assert(put.drop_last() =~= Seq::<CopyPiece>::empty());
    if from <= to <= data.len() {
        assert(assembled(data, patches, kept) =~= data.subrange(from as int, to as int));
    }
    assert(assembled(data, patches, put) =~= patches[patch as int].bytes@);
}

/// The encoding mark at the start of a file is kept.
pub proof fn patching_keeps_the_mark(data: Seq<u8>, mark: nat, patches: Seq<LinePatch>)
    requires
        patches_fit(data.len(), mark, patches, 0, 0),
        mark <= data.len(),
        forall|i: int|
            0 <= i < patches.len() ==> (#[trigger] patches[i].span matches Some(span)
                ==> patch_start(span, mark) >= mark),
    ensures
        patched(data, mark, patches, 0, 0).take(mark as int) == data.take(mark as int),
{
    lemma_mark_is_kept(data, mark, patches, 0);
}

proof fn lemma_mark_is_kept(data: Seq<u8>, mark: nat, patches: Seq<LinePatch>, first: nat)
    requires
        patches_fit(data.len(), mark, patches, first, 0),
        mark <= data.len(),
        forall|i: int|
            0 <= i < patches.len() ==> (#[trigger] patches[i].span matches Some(span)
                ==> patch_start(span, mark) >= mark),
    ensures
        patched(data, mark, patches, first, 0).len() >= mark,
        patched(data, mark, patches, first, 0).take(mark as int) == data.take(mark as int),
    decreases patches.len() - first,
{
    if first >= patches.len() {
        assert(data.skip(0) =~= data);
    } else {
        match patches[first as int].span {
            Some(span) => {
                assert(patches[first as int].span matches Some(other) && other == span);
                assert(patched(data, mark, patches, first, 0).take(mark as int) =~= data.take(
                    mark as int,
                ));
            },
            None => {
                lemma_mark_is_kept(data, mark, patches, first + 1);
            },
        }
    }
}

/// The name that is proposed for an edited copy.
pub fn edited_copy_name(file_name: Option<&str>) -> (r: String)
    ensures
        r@ == match file_name {
            Some(name) => name@ + ".edited"@,
            None => "log.edited"@,
        },
{
    match file_name {
        Some(name) => text::concat2(name, ".edited"),
        None => "log.edited".to_owned(),
    }
}

/// The number of digits that line numbers are given room for.
pub fn gutter_digits(total_lines: u64) -> (r: usize)
    ensures
        r == ({
            let digits = text::decimal(if total_lines == 0 {
                1
            } else {
                total_lines as nat
            }).len();
            if digits >= 4 {
                digits
            } else {
                4
            }
        }),
{
    let n: u64 = if total_lines == 0 {
        1
    } else {
        total_lines
    };
    let digits = text::chars_of(&text::decimal_text(n)).len();
    if digits >= 4 {
        digits
    } else {
        4
    }
}

/// Whether the patches stand in order and within the file.
pub fn patches_are_in_place(length: usize, mark: usize, patches: &Vec<LinePatch>) -> (r: bool)
    ensures
        r == patches_fit(length as nat, mark as nat, patches@, 0, 0),
{
    let mut cursor: usize = 0;
    let mut i: usize = 0;
    while i < patches.len()
        invariant
            i <= patches@.len(),
            cursor <= length,
            patches_fit(length as nat, mark as nat, patches@, i as nat, cursor as nat)
                == patches_fit(length as nat, mark as nat, patches@, 0, 0),
        decreases patches@.len() - i,
    {
        if let Some((start, end)) = patches[i].span {
            let from: usize = if start == 0 {
                if mark <= end {
                    mark
                } else {
                    end
                }
            } else {
                start
            };
            if cursor > from || from > end || end > length {
                return false;
            }
            cursor = end;
        }
        i += 1;
    }
    true
}

/// How a file was opened: with an index from an earlier run, or with one of its head only.
#[derive(Clone, Copy, Debug, PartialEq, Eq, Structural)]
pub struct Loaded {
    pub from_cache: bool,
    pub complete: bool,
}

/// What is to be done about the matches of a view.
#[derive(Clone, Copy, Debug, PartialEq, Eq, Structural)]
pub enum ScanRequest {
    /// Nothing.
    Nothing,
    /// Every line is shown: forget the matches.
    ShowAll,
    /// Look for matches, and hand the outcome back with this number.
    Scan { generation: u64 },
}

/// How looking for matches ended.
#[derive(Clone, Copy, Debug, PartialEq, Eq, Structural)]
pub enum ScanOutcome {
    Matched,
    AllVisible,
    Cancelled,
}

/// What an outcome does to the matches.
#[derive(Clone, Copy, Debug, PartialEq, Eq, Structural)]
pub enum MatchUpdate {
    Keep,
    Replace,
    ShowAll,
}

/// What is dragged with the mouse.
#[derive(Clone, Copy, Debug, PartialEq, Eq, Structural)]
pub enum Drag {
    Nothing,
    VerticalBar,
    HorizontalBar,
    Selection,
}

/// The view of one log.
pub struct LogView {
    pub indexing: bool,
    pub scanning: bool,
    /// Goes up with every scan. An outcome with another number is out of date.
    pub scan_gen: u64,
    /// The filters changed and this view was not scanned again yet.
    pub dirty: bool,
    pub error: Option<String>,
    pub from_cache: bool,
    pub selection: Option<LineSelection>,
    pub selecting: bool,
    pub vertical_grab: bool,
    pub horizontal_grab: bool,
    pub edits: Edits,
    /// The edits were written to a copy. They stay on view after that.
    pub edits_saved: bool,
    pub editing_line: Option<u64>,
}

impl LogView {
    /// Opens a file. An index that was kept from an earlier run saves reading the file once;
    /// without one only the head of the file is read at first. `cached` says, of an index that
    /// was kept, whether it is complete, and `head_complete` whether the head is all there is.
    pub fn load(opened: Result<(), String>, cached: Option<bool>, head_complete: bool) -> (r: Result<
        Loaded,
        String,
    >)
        ensures
            match opened {
                Err(message) => r == Err::<Loaded, String>(message),
                Ok(()) => r == Ok::<Loaded, String>(
                    match cached {
                        Some(complete) => Loaded { from_cache: true, complete },
                        None => Loaded { from_cache: false, complete: head_complete },
                    },
                ),
            },
    {
        match opened {
            Err(message) => Err(message),
            Ok(()) => Ok(
                match cached {
                    Some(complete) => Loaded { from_cache: true, complete },
                    None => Loaded { from_cache: false, complete: head_complete },
                },
            ),
        }
    }

    /// A new view. Where the index is not complete, the rest of the file is being indexed.
    pub fn new(loaded: Loaded) -> (r: LogView)
        ensures
            r.indexing == !loaded.complete,
            r.from_cache == loaded.from_cache,
            !r.scanning,
            r.scan_gen == 0,
            !r.dirty,
            r.error is None,
            r.selection is None,
            !r.selecting,
            !r.vertical_grab,
            !r.horizontal_grab,
            r.edits@ == Map::<u64, Seq<char>>::empty(),
            r.edits_saved,
            r.editing_line is None,
    {
        LogView {
            indexing: !loaded.complete,
            scanning: false,
            scan_gen: 0,
            dirty: false,
            error: None,
            from_cache: loaded.from_cache,
            selection: None,
            selecting: false,
            vertical_grab: false,
            horizontal_grab: false,
            edits: Edits::new(),
            edits_saved: true,
            editing_line: None,
        }
    }

    /// What went wrong last.
    pub fn error(&self) -> (r: Option<String>)
        ensures
            r == self.error,
    {
        match &self.error {
            Some(message) => Some(message.clone()),
            None => None,
        }
    }

    /// Whether the index was kept from an earlier run.
    pub fn from_cache(&self) -> (r: bool)
        ensures
            r == self.from_cache,
    {
        self.from_cache
    }

    /// Whether something goes on in the background.
    pub fn is_busy(&self) -> (r: bool)
        ensures
            r == (self.indexing || self.scanning),
    {
        self.indexing || self.scanning
    }

    /// Whether the filters changed and this view was not scanned again yet.
    pub fn is_dirty(&self) -> (r: bool)
        ensures
            r == self.dirty,
    {
        self.dirty
    }

    /// Whether nothing is lost by closing the view.
    pub fn can_close_without_prompt(&self) -> (r: bool)
        ensures
            r == (self.edits@ == Map::<u64, Seq<char>>::empty() || self.edits_saved),
    {
        self.edits.is_empty() || self.edits_saved
    }

    /// Takes note that the filters changed.
    pub fn mark_dirty(&mut self)
        ensures
            *final(self) == (LogView { dirty: true, ..*old(self) }),
    {
        self.dirty = true;
    }

    /// Starts to look for matches. `no_op` says that the filters show every line. What is
    /// still being looked for is given up.
    pub fn start_scan(&mut self, no_op: bool) -> (r: ScanRequest)
        requires
            no_op || old(self).scan_gen < u64::MAX,
        ensures
            no_op ==> r == ScanRequest::ShowAll && *final(self) == (LogView {
                scanning: false,
                ..*old(self)
            }),
            !no_op ==> r == (ScanRequest::Scan { generation: final(self).scan_gen }) && *final(self)
                == (LogView {
                scanning: true,
                scan_gen: (old(self).scan_gen + 1) as u64,
                ..*old(self)
            }),
    {
        self.scanning = false;
        if no_op {
            return ScanRequest::ShowAll;
        }
        self.scan_gen = self.scan_gen + 1;
        self.scanning = true;
        ScanRequest::Scan { generation: self.scan_gen }
    }

    /// Takes over new filters, which are understood (then it is known whether they show every
    /// line) or not.
    pub fn apply_filters(&mut self, compiled: Result<bool, String>) -> (r: ScanRequest)
        requires
            old(self).scan_gen < u64::MAX,
        ensures
            match compiled {
                Ok(true) => r == ScanRequest::ShowAll && *final(self) == (LogView {
                    dirty: false,
                    error: None,
                    scanning: false,
                    ..*old(self)
                }),
                Ok(false) => r == (ScanRequest::Scan { generation: final(self).scan_gen })
                    && *final(self) == (LogView {
                    dirty: false,
                    error: None,
                    scanning: true,
                    scan_gen: (old(self).scan_gen + 1) as u64,
                    ..*old(self)
                }),
                Err(message) => r == ScanRequest::Nothing && *final(self) == (LogView {
                    dirty: false,
                    error: Some(message),
                    ..*old(self)
                }),
            },
    {
        self.dirty = false;
        match compiled {
            Ok(no_op) => {
                self.error = None;
                self.start_scan(no_op)
            },
            Err(message) => {
                self.error = Some(message);
                ScanRequest::Nothing
            },
        }
    }

    /// Takes over the outcome of a scan, unless it is out of date.
    pub fn finish_scan(&mut self, generation: u64, outcome: ScanOutcome) -> (r: MatchUpdate)
        ensures
            generation != old(self).scan_gen ==> r == MatchUpdate::Keep && *final(self) == *old(
                self,
            ),
            generation == old(self).scan_gen ==> *final(self) == (LogView {
                scanning: false,
                ..*old(self)
            }) && r == match outcome {
                ScanOutcome::Matched => MatchUpdate::Replace,
                ScanOutcome::AllVisible => MatchUpdate::ShowAll,
                ScanOutcome::Cancelled => MatchUpdate::Keep,
            },
    {
        if self.scan_gen != generation {
            return MatchUpdate::Keep;
        }
        self.scanning = false;
        match outcome {
            ScanOutcome::Matched => MatchUpdate::Replace,
            ScanOutcome::AllVisible => MatchUpdate::ShowAll,
            ScanOutcome::Cancelled => MatchUpdate::Keep,
        }
    }

    /// Takes over a complete index, if it could be built. Matches in part of the file are not
    /// enough any more: they are looked for again.
    pub fn finish_index(&mut self, built: bool, no_op: bool) -> (r: ScanRequest)
        requires
            old(self).scan_gen < u64::MAX,
        ensures
            built && !no_op ==> r == (ScanRequest::Scan { generation: final(self).scan_gen })
                && *final(self) == (LogView {
                indexing: false,
                scanning: true,
                scan_gen: (old(self).scan_gen + 1) as u64,
                ..*old(self)
            }),
            !built || no_op ==> r == ScanRequest::Nothing && *final(self) == (LogView {
                indexing: false,
                ..*old(self)
            }),
    {
        let request = if built && !no_op {
            self.start_scan(false)
        } else {
            ScanRequest::Nothing
        };
        self.indexing = false;
        request
    }

    /// Selects a row, or extends the selection to it.
    pub fn select_row(&mut self, row: u64, extend: bool)
        ensures
            *final(self) == (LogView {
                selection: Some(
                    match old(self).selection {
                        Some(selection) => if extend {
                            LineSelection { active_row: row, ..selection }
                        } else {
                            LineSelection { anchor_row: row, active_row: row }
                        },
                        None => LineSelection { anchor_row: row, active_row: row },
                    },
                ),
                selecting: true,
                ..*old(self)
            }),
    {
        let next = match self.selection {
            Some(selection) => if extend {
                LineSelection { anchor_row: selection.anchor_row, active_row: row }
            } else {
                LineSelection { anchor_row: row, active_row: row }
            },
            None => LineSelection { anchor_row: row, active_row: row },
        };
        self.selection = Some(next);
        self.selecting = true;
    }

    /// Extends the selection to the row under the mouse, if there is one. Says whether that
    /// changed it.
    pub fn extend_selection(&mut self, row: Option<u64>) -> (r: bool)
        ensures
            match (row, old(self).selection) {
                (Some(row), Some(selection)) => r == (selection.active_row != row) && *final(self)
                    == (LogView {
                    selection: Some(LineSelection { active_row: row, ..selection }),
                    ..*old(self)
                }),
                _ => !r && *final(self) == *old(self),
            },
    {
        match (row, self.selection) {
            (Some(row), Some(selection)) => {
                let changed = selection.active_row != row;
                self.selection = Some(
                    LineSelection { anchor_row: selection.anchor_row, active_row: row },
                );
                changed
            },
            _ => false,
        }
    }

    /// What the mouse drags while its button is pressed.
    pub fn dragged(&self, pressed: bool) -> (r: Drag)
        ensures
            r == if !pressed {
                Drag::Nothing
            } else if self.horizontal_grab {
                Drag::HorizontalBar
            } else if self.vertical_grab {
                Drag::VerticalBar
            } else if self.selecting {
                Drag::Selection
            } else {
                Drag::Nothing
            },
    {
        if !pressed {
            Drag::Nothing
        } else if self.horizontal_grab {
            Drag::HorizontalBar
        } else if self.vertical_grab {
            Drag::VerticalBar
        } else if self.selecting {
            Drag::Selection
        } else {
            Drag::Nothing
        }
    }

    /// Lets go of what is dragged: of one bar, and of the selection. Says whether a bar was
    /// let go.
    pub fn release_mouse(&mut self) -> (r: bool)
        ensures
            r == (old(self).vertical_grab || old(self).horizontal_grab),
            *final(self) == (LogView {
                vertical_grab: false,
                horizontal_grab: old(self).horizontal_grab && old(self).vertical_grab,
                selecting: false,
                ..*old(self)
            }),
    {
        self.selecting = false;
        if self.vertical_grab {
            self.vertical_grab = false;
            true
        } else if self.horizontal_grab {
            self.horizontal_grab = false;
            true
        } else {
            false
        }
    }

    /// The row that is edited: the one the selection was extended to, or else the first one on
    /// view.
    pub fn edited_row(&self, first_on_view: u64) -> (r: u64)
        ensures
            r == match self.selection {
                Some(selection) => selection.active_row,
                None => first_on_view,
            },
    {
        match self.selection {
            Some(selection) => selection.active_row,
            None => first_on_view,
        }
    }

    /// Starts to edit a line, if the row has one. Gives the text to begin with: an earlier edit
    /// or what stands in the file.
    pub fn edit_selected(&mut self, file_line: Option<u64>, shown: Option<String>) -> (r: Option<
        String,
    >)
        ensures
            match file_line {
                None => r is None && *final(self) == *old(self),
                Some(line) => *final(self) == (LogView { editing_line: Some(line), ..*old(self) })
                    && r is Some && r.unwrap()@ == shown_line(
                    old(self).edits@,
                    line,
                    match shown {
                        Some(shown) => shown@,
                        None => Seq::empty(),
                    },
                ),
            },
    {
        let line = match file_line {
            Some(line) => line,
            None => {
                return None;
            },
        };
        let value = match self.edits.get(line) {
            Some(value) => value,
            None => match shown {
                Some(shown) => shown,
                None => {
                    let none = String::new();
                    assert(none@ =~= Seq::empty());
                    none
                },
            },
        };
        self.editing_line = Some(line);
        Some(value)
    }

    /// Takes over what was typed for the line that is edited.
    pub fn commit_edit(&mut self, value: String) -> (r: bool)
        ensures
            match old(self).editing_line {
                None => !r && *final(self) == *old(self),
                Some(line) => r && final(self).edits@ == old(self).edits@.insert(line, value@)
                    && *final(self) == (LogView {
                    edits: final(self).edits,
                    edits_saved: false,
                    editing_line: None,
                    ..*old(self)
                }),
            },
    {
        let line = match self.editing_line {
            Some(line) => line,
            None => {
                return false;
            },
        };
        self.editing_line = None;
        self.edits.insert(line, value);
        self.edits_saved = false;
        true
    }

    /// Gives up editing. Says whether a line was edited.
    pub fn cancel_edit(&mut self) -> (r: bool)
        ensures
            r == (old(self).editing_line is Some),
            *final(self) == (LogView { editing_line: None, ..*old(self) }),
    {
        let editing = self.editing_line.is_some();
        self.editing_line = None;
        editing
    }

    /// The edits to write to a copy, if there are any.
    pub fn save_edited_copy(&self) -> (r: Option<Edits>)
        ensures
            match r {
                Some(edits) => edits@ == self.edits@,
                None => self.edits@ == Map::<u64, Seq<char>>::empty(),
            },
            r is None == (self.edits@ == Map::<u64, Seq<char>>::empty()),
    {
        if self.edits.is_empty() {
            None
        } else {
            Some(self.edits.copy())
        }
    }

    /// Takes note of how writing a copy went. A copy must not replace the file itself. Edits
    /// that were made meanwhile still have to be saved.
    pub fn finish_save(&mut self, onto_itself: bool, result: Result<(), String>, written: &Edits)
        ensures
            onto_itself ==> (final(self).error matches Some(message) && message@
                == "edited copy must use a new path"@) && *final(self) == (LogView {
                error: final(self).error,
                ..*old(self)
            }),
            !onto_itself ==> *final(self) == (LogView {
                error: match result {
                    Ok(()) => None,
                    Err(message) => Some(message),
                },
                edits_saved: old(self).edits_saved || (result is Ok && old(self).edits@
                    == written@),
                ..*old(self)
            }),
    {
        if onto_itself {
            self.error = Some("edited copy must use a new path".to_owned());
            return ;
        }
        match result {
            Ok(()) => {
                self.error = None;
                if self.edits.same(written) {
                    self.edits_saved = true;
                }
            },
            Err(message) => {
                self.error = Some(message);
            },
        }
    }

    /// The selected lines as text. `rows` are the selected rows in order, each with its line,
    /// if it has one, and the text of that, if it can be read.
    pub fn copy_selection(&self, rows: &Vec<CopiedRow>) -> (r: Option<String>)
        ensures
            match r {
                Some(copied) => self.selection is Some && copied@ == copied_text(
                    self.edits@,
                    rows@,
                    rows@.len(),
                ) && copied@.len() > 0,
                None => self.selection is None || copied_text(
                    self.edits@,
                    rows@,
                    rows@.len(),
                ).len() == 0,
            },
    {
        if self.selection.is_none() {
            return None;
        }
        let mut out: Vec<char> = Vec::new();
        let mut i: usize = 0;
        while i < rows.len()
            invariant
                i <= rows@.len(),
                out@ == copied_text(self.edits@, rows@, i as nat),
            decreases rows@.len() - i,
        {
            let ghost before = out@;
            if let Some(line) = rows[i].file_line {
                if out.len() > 0 {
                    out.push('\n');
                }
                let ghost parted = out@;
                assert(parted =~= if before.len() > 0 {
                    before + seq!['\n']
                } else {
                    before
                });
                if let Some(value) = self.edits.get(line) {
                    text::append_text(&mut out, &value);
                } else if let Some(shown) = &rows[i].shown {
                    text::append_text(&mut out, shown);
                } else {
                    assert(out@ =~= parted + Seq::<char>::empty());
                }
            }
            i += 1;
        }
        if out.len() > 0 {
            Some(text::text_of(&out))
        } else {
            None
        }
    }

    /// How a row looks.
    pub fn row_model(&self, row: &ViewRow, view_row: u64, styles: &Vec<FilterStyle>) -> (r: RowModel)
        requires
            row.file_line < u64::MAX,
        ensures
            r.number@ == text::decimal((row.file_line + 1) as nat),
            r.selected == (self.selection matches Some(selection) && first_row(selection) <= view_row
                <= last_row(selection)),
            r.editing == (self.editing_line == Some(row.file_line)),
            r.shown@ == shown_line(self.edits@, row.file_line, row.shown@),
            r.style == line_style(row.line_filter, styles@),
            r.runs@ == if self.edits@.dom().contains(row.file_line) {
                Seq::<(TextSpan, FilterStyle)>::empty()
            } else {
                styled_runs(row.spans@, styles@, row.spans@.len())
            },
    {
        let number = text::decimal_text(row.file_line + 1);
        let selected = match self.selection {
            Some(selection) => selection.contains(view_row),
            None => false,
        };
        let editing = match self.editing_line {
            Some(line) => line == row.file_line,
            None => false,
        };
        let style = match row.line_filter {
            Some(index) => if index < styles.len() {
                Some(styles[index])
            } else {
                None
            },
            None => None,
        };
        let mut runs: Vec<(TextSpan, FilterStyle)> = Vec::new();
        let shown = match self.edits.get(row.file_line) {
            Some(value) => value,
            None => {
                let mut i: usize = 0;
                while i < row.spans.len()
                    invariant
                        i <= row.spans@.len(),
                        runs@ == styled_runs(row.spans@, styles@, i as nat),
                    decreases row.spans@.len() - i,
                {
                    let span = row.spans[i];
                    if span.filter < styles.len() {
                        runs.push((span, styles[span.filter]));
                    }
                    i += 1;
                }
                row.shown.clone()
            },
        };
        RowModel { number, selected, editing, shown, style, runs }
    }
}

/// What a line shows: its edit, or else what stands in the file.
pub open spec fn shown_line(
    edits: Map<u64, Seq<char>>,
    line: u64,
    shown: Seq<char>,
) -> Seq<char> {
    if edits.dom().contains(line) {
        edits[line]
    } else {
        shown
    }
}

/// An edit that was taken over is what its line shows from then on, and no other line changes.
pub proof fn a_committed_edit_is_shown(
    edits: Map<u64, Seq<char>>,
    line: u64,
    value: Seq<char>,
    other: u64,
    shown: Seq<char>,
)
    ensures
        shown_line(edits.insert(line, value), line, shown) == value,
        other != line ==> shown_line(edits.insert(line, value), other, shown) == shown_line(
            edits,
            other,
            shown,
        ),
{
}

/// A selected row: the line it shows, if there is one, and the text of that, if it can be read.
pub struct CopiedRow {
    pub file_line: Option<u64>,
    pub shown: Option<String>,
}

/// The text of the first `count` selected rows, one line each.
pub open spec fn copied_text(
    edits: Map<u64, Seq<char>>,
    rows: Seq<CopiedRow>,
    count: nat,
) -> Seq<char>
    decreases count,
{
    if count == 0 {
        Seq::empty()
    } else {
        let before = copied_text(edits, rows, (count - 1) as nat);
        match rows[count - 1].file_line {
            Some(line) => (if before.len() > 0 {
                before + seq!['\n']
            } else {
                before
            }) + shown_line(
                edits,
                line,
                match rows[count - 1].shown {
                    Some(shown) => shown@,
                    None => Seq::empty(),
                },
            ),
            None => before,
        }
    }
}

/// How a filter marks what it matches.
#[derive(Clone, Copy, Debug, PartialEq, Eq, Structural)]
pub struct FilterStyle {
    pub fore: Option<u32>,
    pub back: Option<u32>,
    pub bold: bool,
    pub italic: bool,
}

/// A stretch of a line that a filter matches.
#[derive(Clone, Copy, Debug, PartialEq, Eq, Structural)]
pub struct TextSpan {
    pub start: usize,
    pub end: usize,
    pub filter: usize,
}

/// A row to draw: its line, its text, the filter that marks the whole line, and the stretches
/// that filters match.
pub struct ViewRow {
    pub file_line: u64,
    pub shown: String,
    pub line_filter: Option<usize>,
    pub spans: Vec<TextSpan>,
}

/// How a row looks: the number of its line (that in the file, also where only matches are
/// shown), whether it is selected and whether it is edited, its text, the style of the line,
/// and the stretches with a style of their own.
pub struct RowModel {
    pub number: String,
    pub selected: bool,
    pub editing: bool,
    pub shown: String,
    pub style: Option<FilterStyle>,
    pub runs: Vec<(TextSpan, FilterStyle)>,
}

/// The style of the filter that marks a whole line.
pub open spec fn line_style(filter: Option<usize>, styles: Seq<FilterStyle>) -> Option<FilterStyle> {
    match filter {
        Some(index) => if index < styles.len() {
            Some(styles[index as int])
        } else {
            None
        },
        None => None,
    }
}

/// Those of the first `count` stretches whose filter is known, with its style.
pub open spec fn styled_runs(
    spans: Seq<TextSpan>,
    styles: Seq<FilterStyle>,
    count: nat,
) -> Seq<(TextSpan, FilterStyle)>
    decreases count,
{
    if count == 0 {
        Seq::empty()
    } else {
        let before = styled_runs(spans, styles, (count - 1) as nat);
        let span = spans[count - 1];
        if span.filter < styles.len() {
            before.push((span, styles[span.filter as int]))
        } else {
            before
        }
    }
}

/// What a key does in a view.
#[derive(Clone, Copy, Debug, PartialEq, Eq, Structural)]
pub enum ViewKey {
    Copy,
    Edit,
    CancelEdit,
    ScrollLines { down: bool },
    Page { down: bool },
    Top,
    Bottom,
    LineStart,
    LineEnd,
    Left,
    Right,
    Nothing,
}

/// What a key does in a view, together with the primary modifier or without.
pub open spec fn view_key(key: Seq<char>, primary: bool) -> ViewKey {
    if primary && key == "c"@ {
        ViewKey::Copy
    } else if key == "enter"@ {
        ViewKey::Edit
    } else if key == "escape"@ {
        ViewKey::CancelEdit
    } else if key == "up"@ {
        ViewKey::ScrollLines { down: false }
    } else if key == "down"@ {
        ViewKey::ScrollLines { down: true }
    } else if key == "pageup"@ {
        ViewKey::Page { down: false }
    } else if key == "pagedown"@ {
        ViewKey::Page { down: true }
    } else if key == "home"@ {
        if primary {
            ViewKey::Top
        } else {
            ViewKey::LineStart
        }
    } else if key == "end"@ {
        if primary {
            ViewKey::Bottom
        } else {
            ViewKey::LineEnd
        }
    } else if key == "left"@ {
        ViewKey::Left
    } else if key == "right"@ {
        ViewKey::Right
    } else {
        ViewKey::Nothing
    }
}

/// What a key does in a view.
pub fn on_key(key: &str, primary: bool) -> (r: ViewKey)
    ensures
        r == view_key(key@, primary),
{
    if primary && text::same_text(key, "c") {
        ViewKey::Copy
    } else if text::same_text(key, "enter") {
        ViewKey::Edit
    } else if text::same_text(key, "escape") {
        ViewKey::CancelEdit
    } else if text::same_text(key, "up") {
        ViewKey::ScrollLines { down: false }
    } else if text::same_text(key, "down") {
        ViewKey::ScrollLines { down: true }
    } else if text::same_text(key, "pageup") {
        ViewKey::Page { down: false }
    } else if text::same_text(key, "pagedown") {
        ViewKey::Page { down: true }
    } else if text::same_text(key, "home") {
        if primary {
            ViewKey::Top
        } else {
            ViewKey::LineStart
        }
    } else if text::same_text(key, "end") {
        if primary {
            ViewKey::Bottom
        } else {
            ViewKey::LineEnd
        }
    } else if text::same_text(key, "left") {
        ViewKey::Left
    } else if text::same_text(key, "right") {
        ViewKey::Right
    } else {
        ViewKey::Nothing
    }
}

/// What is copied of some rows that all have text: their texts, with a line feed between them. An
/// edited line is copied as it was edited, and rows without a line are passed over.
pub proof fn rows_are_copied_line_by_line(
    edits: Map<u64, Seq<char>>,
    rows: Seq<CopiedRow>,
    count: nat,
)
    requires
        count <= rows.len(),
    ensures
        ({
            let shown = |row: CopiedRow|
                match row.file_line {
                    Some(line) => Some(
                        if edits.dom().contains(line) {
                            edits[line]
                        } else {
                            match row.shown {
                                Some(shown) => shown@,
                                None => Seq::empty(),
                            }
                        },
                    ),
                    None => None,
                };
            let texts = rows.take(count as int).filter_map(shown);
            (forall|i: int| 0 <= i < texts.len() ==> (#[trigger] texts[i]).len() > 0)
                ==> copied_text(edits, rows, count) == text::join(texts, seq!['\n'])
        }),
    decreases count,
{
    let shown = |row: CopiedRow|
        match row.file_line {
            Some(line) => Some(
                if edits.dom().contains(line) {
                    edits[line]
                } else {
                    match row.shown {
                        Some(shown) => shown@,
                        None => Seq::empty(),
                    }
                },
            ),
            None => None,
        };
    let texts = rows.take(count as int).filter_map(shown);
    if count > 0 && (forall|i: int| 0 <= i < texts.len() ==> (#[trigger] texts[i]).len() > 0) {
        let before = rows.take(count - 1).filter_map(shown);
        assert(rows.take(count as int).drop_last() =~= rows.take(count - 1));
        assert(rows.take(count as int).last() == rows[count - 1]);
        assert forall|i: int| 0 <= i < before.len() implies (#[trigger] before[i]).len() > 0 by {
            assert(texts[i] == before[i]);
        }
        rows_are_copied_line_by_line(edits, rows, (count - 1) as nat);
        if let Some(last) = shown(rows[count - 1]) {
            assert(texts =~= before.push(last));
            assert(texts.drop_last() =~= before);
            if before.len() > 0 {
                lemma_joined_text(before);
            }
            assert(copied_text(edits, rows, count) =~= text::join(texts, seq!['\n']));
        }
    }
}

proof fn lemma_joined_text(texts: Seq<Seq<char>>)
    requires
        texts.len() > 0,
        forall|i: int| 0 <= i < texts.len() ==> (#[trigger] texts[i]).len() > 0,
    ensures
        text::join(texts, seq!['\n']).len() > 0,
{
    assert(texts[texts.len() - 1].len() > 0);
}

/// The styled stretches of a row are those whose filter has a style, with that style, in their
/// order.
pub proof fn stretches_have_the_style_of_their_filter(
    spans: Seq<TextSpan>,
    styles: Seq<FilterStyle>,
    count: nat,
)
    requires
        count <= spans.len(),
    ensures
        styled_runs(spans, styles, count) == spans.take(count as int).filter(
            |span: TextSpan| span.filter < styles.len(),
        ).map_values(|span: TextSpan| (span, styles[span.filter as int])),
    decreases count,
{
    reveal(Seq::filter);
    let known = |span: TextSpan| span.filter < styles.len();
    let styled = |span: TextSpan| (span, styles[span.filter as int]);
    let part = spans.take(count as int);
    if count > 0 {
        let before = spans.take(count - 1);
        stretches_have_the_style_of_their_filter(spans, styles, (count - 1) as nat);
        assert(part.drop_last() =~= before);
        assert(part.last() == spans[count - 1]);
        assert(before.filter(known).push(part.last()).map_values(styled) =~= before.filter(
            known,
        ).map_values(styled).push(styled(part.last())));
    }
    assert(styled_runs(spans, styles, count) =~= part.filter(known).map_values(styled));
}

/// What is written for a file with one edited line is the file up to the line, the new bytes of the
/// line whatever their number, and the file behind the line; without any edit it is the file.
pub proof fn a_saved_copy_has_the_edited_line(
    length: usize,
    mark: usize,
    patches: &Vec<LinePatch>,
    written: Vec<CopyPiece>,
    data: Seq<u8>,
)
    requires
        call_ensures(write_edited_copy, (length, mark, patches), written),
        data.len() == length,
        patches_fit(length as nat, mark as nat, patches@, 0, 0),
    ensures
        patches@.len() == 0 ==> assembled(data, patches@, written@) == data,
        patches@.len() == 1 ==> assembled(data, patches@, written@) == match patches@[0].span {
            Some(span) => data.take(
                if span.0 == 0 {
                    if mark <= span.1 {
                        mark as int
                    } else {
                        span.1 as int
                    }
                } else {
                    span.0 as int
                },
            ) + patches@[0].bytes@ + data.skip(span.1 as int),
            None => data,
        },
{
    let all = patches@;
    if all.len() == 0 {
        assert(data.skip(0) =~= data);
    }
    if all.len() == 1 {
        let none = Seq::<LinePatch>::empty();
        assert(none.push(all[0]) =~= all);
        one_more_edit_replaces_one_line(data, mark as nat, none, all[0]);
    }
}

/// A selection covers the same rows whichever of its ends is the one that moves, and its first row
/// is never behind its last.
pub proof fn selections_read_the_same_from_both_ends(selection: LineSelection, other: LineSelection)
    requires
        other.anchor_row == selection.active_row,
        other.active_row == selection.anchor_row,
    ensures
        first_row(selection) <= last_row(selection),
        first_row(selection) == first_row(other),
        last_row(selection) == last_row(other),
        first_row(selection) == selection.anchor_row || first_row(selection)
            == selection.active_row,
        first_row(selection) + last_row(selection) == selection.anchor_row + selection.active_row,
{
}

/// Of a list of edits in the order of their lines, each line has the text of its own edit, and a
/// line without an edit has none.
pub proof fn every_edit_is_found_by_its_line(entries: Seq<(u64, String)>, line: u64, i: int)
    requires
        lines_increase(entries),
    ensures
        edit_map(entries).contains_key(line) <==> exists|k: int|
            0 <= k < entries.len() && (#[trigger] entries[k]).0 == line,
        0 <= i < entries.len() ==> edit_map(entries).contains_key(entries[i].0) && edit_map(
            entries,
        )[entries[i].0] == entries[i].1@,
    decreases entries.len(),
{
    if entries.len() > 0 {
        let rest = entries.drop_last();
        assert(lines_increase(rest));
        every_edit_is_found_by_its_line(rest, line, i);
        if edit_map(rest).contains_key(line) {
            let k = choose|k: int| 0 <= k < rest.len() && (#[trigger] rest[k]).0 == line;
            assert(entries[k].0 == line);
        }
        if exists|k: int| 0 <= k < entries.len() && (#[trigger] entries[k]).0 == line {
            let k = choose|k: int| 0 <= k < entries.len() && (#[trigger] entries[k]).0 == line;
            if k < rest.len() {
                assert(rest[k].0 == line);
            } else {
                assert(entries.last().0 == line);
            }
        }
        assert(entries[entries.len() - 1] == entries.last());
    }
}

/// The command key changes what a key means only for the letter that copies and for the two keys
/// that go to an end: with it they go to an end of the log, without it to one of the line.
pub proof fn the_command_key_matters_for_three_keys(key: Seq<char>)
    ensures
        key != seq!['c'] && key != seq!['h', 'o', 'm', 'e'] && key != seq!['e', 'n', 'd']
            ==> view_key(key, true) == view_key(key, false),
        view_key(key, false) != ViewKey::Copy,
        view_key(key, true) == ViewKey::Copy <==> key == seq!['c'],
        view_key(key, true) == ViewKey::Top <==> view_key(key, false) == ViewKey::LineStart,
        view_key(key, true) == ViewKey::Bottom <==> view_key(key, false) == ViewKey::LineEnd,
        view_key(key, false) == ViewKey::LineStart <==> key == seq!['h', 'o', 'm', 'e'],
        view_key(key, false) == ViewKey::LineEnd <==> key == seq!['e', 'n', 'd'],
{
    reveal_strlit("c");
    reveal_strlit("home");
    reveal_strlit("end");
    reveal_strlit("enter");
    reveal_strlit("escape");
    reveal_strlit("up");
    reveal_strlit("down");
    reveal_strlit("pageup");
    reveal_strlit("pagedown");
    reveal_strlit("left");
    reveal_strlit("right");
    assert("c"@ =~= seq!['c']);
    assert("home"@ =~= seq!['h', 'o', 'm', 'e']);
    assert("end"@ =~= seq!['e', 'n', 'd']);
    assert("enter"@.len() == 5 && "escape"@.len() == 6 && "up"@.len() == 2);
    assert("down"@.len() == 4 && "down"@[0] == 'd');
    assert("left"@.len() == 4 && "left"@[0] == 'l');
    assert("right"@.len() == 5 && "pageup"@.len() == 6 && "pagedown"@.len() == 8);
}

} // verus!
