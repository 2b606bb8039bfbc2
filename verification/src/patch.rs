//! Applying edits to the skill document.

use vstd::prelude::*;
use crate::text;
use crate::types::{Edit, EditOp, EditView};

verus! {

/// The document with `content` on a line of its own after its end.
pub open spec fn appended(doc: Seq<char>, content: Seq<char>) -> Seq<char> {
    doc + seq!['\n'] + content + seq!['\n']
}

/// The end of the line in which the anchor that stands at `pos` ends.
pub open spec fn anchor_line_end(doc: Seq<char>, anchor: Seq<char>, pos: int) -> int {
    text::char_or_end(doc, '\n', pos + anchor.len())
}

/// The document after one edit.
///
/// An edit acts where its anchor first stands in the document. `Delete` takes out everything from
/// there to the end of the line, with its line feed; `Replace` puts the content in the place of
/// what stands from there to the end of the line; `Add` puts the content on a line of its own below
/// that line. Where the anchor does not occur, `Delete` does nothing and the others append the
/// content. With an empty anchor, `Add` appends the content and the others do nothing.
pub open spec fn edited(doc: Seq<char>, e: EditView) -> Seq<char> {
    match (e.op, text::find_in(doc, e.anchor)) {
        (EditOp::Delete, Some(pos)) => if e.anchor.len() == 0 {
            doc
        } else {
            let end = anchor_line_end(doc, e.anchor, pos);
            doc.take(pos) + (if end < doc.len() {
                doc.skip(end + 1)
            } else {
                Seq::empty()
            })
        },
        (EditOp::Delete, None) => doc,
        (EditOp::Replace, Some(pos)) => if e.anchor.len() == 0 {
            doc
        } else {
            doc.take(pos) + e.content + doc.skip(anchor_line_end(doc, e.anchor, pos))
        },
        (EditOp::Replace, None) => appended(doc, e.content),
        (EditOp::Add, Some(pos)) => if e.anchor.len() == 0 {
            appended(doc, e.content)
        } else {
            let end = anchor_line_end(doc, e.anchor, pos);
            doc.take(end) + seq!['\n'] + e.content + doc.skip(end)
        },
        (EditOp::Add, None) => appended(doc, e.content),
    }
}

/// The document after the edits of `patch`, one after the other.
pub open spec fn patched(doc: Seq<char>, patch: Seq<EditView>) -> Seq<char>
    decreases patch.len(),
{
    if patch.len() == 0 {
        doc
    } else {
        edited(patched(doc, patch.drop_last()), patch.last())
    }
}

/// An empty text stands at the start of every text.
proof fn lemma_find_empty(doc: Seq<char>, anchor: Seq<char>)
    requires
        anchor.len() == 0,
    ensures
        text::find_in(doc, anchor) == Some(0int),
{
    assert(doc.subrange(0, 0) =~= anchor);
    assert(text::occurs_at(doc, anchor, 0));
}

/// Appends a line feed, `content` and a line feed to the document.
fn append_content(doc: &mut Vec<char>, content: &Vec<char>)
    ensures
        final(doc)@ == appended(old(doc)@, content@),
{
    let ghost before = doc@;
    doc.push('\n');
    text::push_all(doc, content);
    doc.push('\n');
    proof {
        assert(doc@ =~= appended(before, content@));
    }
}

/// The document after one edit.
pub fn apply_edit(doc: Vec<char>, e: &Edit) -> (out: Vec<char>)
    ensures
        out@ == edited(doc@, e@),
{
    let anchor = text::chars_of(e.anchor.as_str());
    let content = text::chars_of(e.content.as_str());
    let n: usize = doc.len();
    if anchor.len() == 0 {
        proof {
            lemma_find_empty(doc@, anchor@);
        }
        let mut out = doc;
        if e.op == EditOp::Add {
            append_content(&mut out, &content);
        }
        return out;
    }
    match text::find_chars(&doc, &anchor) {
        Some(pos) => {
            let end = text::find_char_or_end(&doc, '\n', pos + anchor.len());
            match e.op {
                EditOp::Delete => {
                    let mut out = text::slice_of(&doc, 0, pos);
                    if end < n {
                        let rest = text::slice_of(&doc, end + 1, n);
                        text::push_all(&mut out, &rest);
                    }
                    proof {
                        assert(out@ =~= edited(doc@, e@));
                    }
                    out
                },
                EditOp::Replace => {
                    let mut out = text::slice_of(&doc, 0, pos);
                    text::push_all(&mut out, &content);
                    let rest = text::slice_of(&doc, end, n);
                    text::push_all(&mut out, &rest);
                    proof {
                        assert(out@ =~= edited(doc@, e@));
                    }
                    out
                },
                EditOp::Add => {
                    let mut out = text::slice_of(&doc, 0, end);
                    out.push('\n');
                    text::push_all(&mut out, &content);
                    let rest = text::slice_of(&doc, end, n);
                    text::push_all(&mut out, &rest);
                    proof {
                        assert(out@ =~= edited(doc@, e@));
                    }
                    out
                },
            }
        },
        None => {
            let mut out = doc;
            if e.op != EditOp::Delete {
                append_content(&mut out, &content);
            }
            out
        },
    }
}

/// The skill after the edits of `patch`, one after the other.
pub fn apply_patch(skill: &str, patch: &[Edit]) -> (out: String)
    ensures
        out@ == patched(skill@, crate::types::edit_views(patch@)),
{
    let n: usize = patch.len();
    let mut doc = text::chars_of(skill);
    let ghost all = crate::types::edit_views(patch@);
    proof {
        assert(all.take(0) =~= Seq::empty());
    }
    for i in 0..n
        invariant
            n == patch@.len(),
            all == crate::types::edit_views(patch@),
            doc@ == patched(skill@, all.take(i as int)),
    {
        doc = apply_edit(doc, &patch[i]);
        proof {
            assert(all.take(i + 1).drop_last() =~= all.take(i as int));
            assert(all.take(i + 1).last() == patch@[i as int]@);
        }
    }
    proof {
        assert(all.take(n as int) =~= all);
    }
    text::string_of(&doc)
}

// ---------------------------------------------------------------------------------------------
// Laws
// ---------------------------------------------------------------------------------------------

/// A patch without edits leaves the document as it is.
pub proof fn law_empty_patch_changes_nothing(doc: Seq<char>)
    ensures
        patched(doc, Seq::empty()) == doc,
{
}

/// Applying two patches one after the other is applying them joined.
pub proof fn law_patches_compose(doc: Seq<char>, first: Seq<EditView>, second: Seq<EditView>)
    ensures
        patched(patched(doc, first), second) == patched(doc, first + second),
    decreases second.len(),
{
    if second.len() == 0 {
        assert(first + second =~= first);
    } else {
        law_patches_compose(doc, first, second.drop_last());
        assert((first + second).drop_last() =~= first + second.drop_last());
        assert((first + second).last() == second.last());
    }
}

/// An edit leaves alone what stands before its anchor, and what stands below the anchor's line.
pub proof fn law_edit_is_local(doc: Seq<char>, e: EditView)
    ensures
        text::find_in(doc, e.anchor) matches Some(pos) ==> {
            let end = anchor_line_end(doc, e.anchor, pos);
            let below = if end < doc.len() {
                doc.skip(end + 1)
            } else {
                Seq::empty()
            };
            &&& doc.take(pos).is_prefix_of(edited(doc, e))
            &&& e.anchor.len() > 0 ==> below.is_suffix_of(edited(doc, e))
        },
        text::find_in(doc, e.anchor) is None ==> doc.is_prefix_of(edited(doc, e)),
{
    text::lemma_find_from(doc, e.anchor, 0);
    if let Some(pos) = text::find_in(doc, e.anchor) {
        text::lemma_char_or_end(doc, '\n', pos + e.anchor.len());
        let end = anchor_line_end(doc, e.anchor, pos);
        let out = edited(doc, e);
        assert(out.take(pos) =~= doc.take(pos));
        if e.anchor.len() > 0 && end < doc.len() {
            let below = doc.skip(end + 1);
            assert(out.skip(out.len() - below.len()) =~= below);
        }
    } else {
        assert(edited(doc, e).take(doc.len() as int) =~= doc);
    }
}

/// An `Add` only inserts: the document is what is left when the inserted text is taken out again,
/// and the inserted text is the content behind a line feed, with a line feed behind it where the
/// content went to the end of the document.
pub proof fn law_add_only_inserts(doc: Seq<char>, e: EditView)
    requires
        e.op == EditOp::Add,
    ensures
        exists|at: int|
            #![trigger doc.take(at)]
            0 <= at <= doc.len() && (edited(doc, e) == doc.take(at) + seq!['\n'] + e.content
                + doc.skip(at) || (at == doc.len() && edited(doc, e) == doc.take(at) + seq!['\n']
                + e.content + seq!['\n'])),
{
    text::lemma_find_from(doc, e.anchor, 0);
    if e.anchor.len() == 0 || text::find_in(doc, e.anchor) is None {
        assert(doc.take(doc.len() as int) =~= doc);
    } else {
        let pos = text::find_in(doc, e.anchor)->0;
        text::lemma_char_or_end(doc, '\n', pos + e.anchor.len());
        let end = anchor_line_end(doc, e.anchor, pos);
        assert(doc.take(end) + seq!['\n'] + e.content + doc.skip(end) == edited(doc, e));
    }
}

/// A `Delete` only takes out one stretch, which begins with the anchor.
pub proof fn law_delete_only_removes(doc: Seq<char>, e: EditView)
    requires
        e.op == EditOp::Delete,
    ensures
        edited(doc, e) == doc || exists|from: int, to: int|
            #![trigger doc.take(from), doc.skip(to)]
            0 <= from && from + e.anchor.len() <= to <= doc.len() && text::occurs_at(
                doc,
                e.anchor,
                from,
            ) && edited(doc, e) == doc.take(from) + doc.skip(to),
{
    text::lemma_find_from(doc, e.anchor, 0);
    if e.anchor.len() > 0 && text::find_in(doc, e.anchor) is Some {
        let pos = text::find_in(doc, e.anchor)->0;
        text::lemma_char_or_end(doc, '\n', pos + e.anchor.len());
        let end = anchor_line_end(doc, e.anchor, pos);
        let to = if end < doc.len() {
            end + 1
        } else {
            end
        };
        assert(edited(doc, e) =~= doc.take(pos) + doc.skip(to));
    }
}

/// The content of an `Add`, and of a `Replace` that has an anchor, stands in the document afterwards.
pub proof fn law_content_is_there_afterwards(doc: Seq<char>, e: EditView)
    requires
        e.op == EditOp::Add || (e.op == EditOp::Replace && e.anchor.len() > 0),
    ensures
        text::contains_text(edited(doc, e), e.content),
{
    text::lemma_find_from(doc, e.anchor, 0);
    let out = edited(doc, e);
    let at: int = if e.anchor.len() == 0 || text::find_in(doc, e.anchor) is None {
        doc.len() as int + 1
    } else {
        let pos = text::find_in(doc, e.anchor)->0;
        text::lemma_char_or_end(doc, '\n', pos + e.anchor.len());
        if e.op == EditOp::Add {
            anchor_line_end(doc, e.anchor, pos) + 1
        } else {
            pos
        }
    };
    assert(out.subrange(at, at + e.content.len()) =~= e.content);
    assert(text::occurs_at(out, e.content, at));
    text::lemma_find_from(out, e.content, 0);
}

/// Where an anchor first stands, and where its line ends.
proof fn lemma_anchor_stands(before: Seq<char>, anchor: Seq<char>, rest: Seq<char>, after: Seq<char>)
    requires
        forall|i: int|
            0 <= i < before.len() ==> #[trigger] (before + anchor + rest + after).subrange(
                i,
                i + anchor.len(),
            ) != anchor,
        forall|i: int| 0 <= i < rest.len() ==> rest[i] != '\n',
        after.len() > 0 ==> after[0] == '\n',
    ensures
        ({
            let doc = before + anchor + rest + after;
            &&& text::find_in(doc, anchor) == Some(before.len() as int)
            &&& anchor_line_end(doc, anchor, before.len() as int) == before.len() + anchor.len()
                + rest.len()
        }),
{
    let doc = before + anchor + rest + after;
    let pos = before.len() as int;
    assert(doc.subrange(pos, pos + anchor.len()) =~= anchor);
    assert forall|j: int| 0 <= j < pos implies !text::occurs_at(doc, anchor, j) by {
        assert(doc.subrange(j, j + anchor.len()) != anchor);
    }
    text::lemma_find_from_is(doc, anchor, 0, pos);
    let from = pos + anchor.len();
    text::lemma_char_or_end(doc, '\n', from);
    let end = text::char_or_end(doc, '\n', from);
    let line = from + rest.len();
    if end < line {
        assert(doc[end] == rest[end - from]);
    } else if line < end {
        assert(doc[line] == after[0]);
    }
}

/// A `Replace` swaps everything from the anchor, where it first stands, to the end of its line for the
/// content; all else stays.
pub proof fn law_replace_swaps_to_the_end_of_the_line(
    before: Seq<char>,
    rest: Seq<char>,
    after: Seq<char>,
    e: EditView,
)
    requires
        e.op == EditOp::Replace,
        e.anchor.len() > 0,
        forall|i: int|
            0 <= i < before.len() ==> #[trigger] (before + e.anchor + rest + after).subrange(
                i,
                i + e.anchor.len(),
            ) != e.anchor,
        forall|i: int| 0 <= i < rest.len() ==> rest[i] != '\n',
        after.len() > 0 ==> after[0] == '\n',
    ensures
        edited(before + e.anchor + rest + after, e) == before + e.content + after,
        edited(before + e.anchor + rest + after, e).len() == before.len() + e.content.len()
            + after.len(),
{
    lemma_anchor_stands(before, e.anchor, rest, after);
    let doc = before + e.anchor + rest + after;
    assert(doc.take(before.len() as int) =~= before);
    assert(doc.skip((before.len() + e.anchor.len() + rest.len()) as int) =~= after);
}

/// A `Delete` takes out everything from the anchor, where it first stands, to the end of its line, and
/// the line feed there; all else stays.
pub proof fn law_delete_takes_out_to_the_end_of_the_line(
    before: Seq<char>,
    rest: Seq<char>,
    after: Seq<char>,
    e: EditView,
)
    requires
        e.op == EditOp::Delete,
        e.anchor.len() > 0,
        forall|i: int|
            0 <= i < before.len() ==> #[trigger] (before + e.anchor + rest + after).subrange(
                i,
                i + e.anchor.len(),
            ) != e.anchor,
        forall|i: int| 0 <= i < rest.len() ==> rest[i] != '\n',
        after.len() > 0 ==> after[0] == '\n',
    ensures
        after.len() == 0 ==> edited(before + e.anchor + rest + after, e) == before,
        after.len() > 0 ==> edited(before + e.anchor + rest + after, e) == before + after.skip(1),
{
    lemma_anchor_stands(before, e.anchor, rest, after);
    let doc = before + e.anchor + rest + after;
    let end = before.len() + e.anchor.len() + rest.len();
    assert(doc.take(before.len() as int) =~= before);
    if after.len() > 0 {
        assert(doc.skip(end as int + 1) =~= after.skip(1));
    } else {
        assert(before + Seq::<char>::empty() =~= before);
    }
}

/// An `Add` puts the content on a line of its own below the line in which the anchor first stands; all
/// else stays.
pub proof fn law_add_goes_below_the_line(
    before: Seq<char>,
    rest: Seq<char>,
    after: Seq<char>,
    e: EditView,
)
    requires
        e.op == EditOp::Add,
        e.anchor.len() > 0,
        forall|i: int|
            0 <= i < before.len() ==> #[trigger] (before + e.anchor + rest + after).subrange(
                i,
                i + e.anchor.len(),
            ) != e.anchor,
        forall|i: int| 0 <= i < rest.len() ==> rest[i] != '\n',
        after.len() > 0 ==> after[0] == '\n',
    ensures
        edited(before + e.anchor + rest + after, e) == before + e.anchor + rest + seq!['\n'] + e.content
            + after,
{
    lemma_anchor_stands(before, e.anchor, rest, after);
    let doc = before + e.anchor + rest + after;
    let end = before.len() + e.anchor.len() + rest.len();
    assert(doc.take(end as int) =~= before + e.anchor + rest);
    assert(doc.skip(end as int) =~= after);
}

/// Where the anchor stands nowhere in the document, an `Add` or a `Replace` puts the content on a line of
/// its own at the end, and a `Delete` does nothing.
pub proof fn law_without_the_anchor_content_goes_last(doc: Seq<char>, e: EditView)
    requires
        forall|i: int|
            0 <= i && i + e.anchor.len() <= doc.len() ==> #[trigger] doc.subrange(
                i,
                i + e.anchor.len(),
            ) != e.anchor,
    ensures
        e.op == EditOp::Delete ==> edited(doc, e) == doc,
        e.op != EditOp::Delete ==> edited(doc, e) == doc + seq!['\n'] + e.content + seq!['\n'],
{
    assert forall|j: int| 0 <= j implies !text::occurs_at(doc, e.anchor, j) by {
        if j + e.anchor.len() <= doc.len() {
            assert(doc.subrange(j, j + e.anchor.len()) != e.anchor);
        }
    }
    text::lemma_find_from_none(doc, e.anchor, 0);
}

/// With an empty anchor, an `Add` puts the content on a line of its own at the end, and the others do
/// nothing.
pub proof fn law_empty_anchors_only_add(doc: Seq<char>, e: EditView)
    requires
        e.anchor.len() == 0,
    ensures
        e.op == EditOp::Add ==> edited(doc, e) == doc + seq!['\n'] + e.content + seq!['\n'],
        e.op != EditOp::Add ==> edited(doc, e) == doc,
{
    lemma_find_empty(doc, e.anchor);
}

/// The edits of a patch act in their order: the first on the document, and the others on what it makes
/// of it.
pub proof fn law_edits_act_in_order(doc: Seq<char>, e: EditView, more: Seq<EditView>)
    ensures
        patched(doc, seq![e]) == edited(doc, e),
        patched(doc, seq![e] + more) == patched(edited(doc, e), more),
{
    assert(seq![e].drop_last() =~= Seq::empty());
    assert(patched(doc, Seq::<EditView>::empty()) == doc);
    law_patches_compose(doc, seq![e], more);
}

} // verus!
