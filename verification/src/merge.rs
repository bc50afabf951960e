//! The dual-subtitle merge engine: combines a primary and a secondary cue
//! sequence into one sequence suitable for showing both tracks at once. The
//! secondary track's cues are marked so that a renderer places them at the
//! top of the frame, the combined collection is ordered by start time, and
//! the cues are renumbered from zero.
use vstd::prelude::*;

use crate::cue::{Cue, CueModel, seq_view};
use vstd::multiset::Multiset;

verus! {

broadcast use
    crate::cue::lemma_seq_view_len,
    crate::cue::lemma_seq_view_index,
    crate::cue::lemma_seq_view_push,
;

/// The positioning marker prepended to every secondary cue: an inline
/// override that places the cue at the top of the frame instead of the
/// bottom.
pub open spec fn top_marker() -> Seq<char> {
    seq!['{', '\\', 'a', 'n', '8', '}']
}

/// A secondary cue as it appears in the merge output: its text carries the
/// top-of-frame positioning marker as a prefix.
pub open spec fn mark(m: CueModel) -> CueModel {
    CueModel { text: top_marker() + m.text, ..m }
}

/// All cues of a secondary sequence, marked.
pub open spec fn mark_all(s: Seq<CueModel>) -> Seq<CueModel> {
    s.map_values(|m: CueModel| mark(m))
}

/// Inserts a cue into a sequence directly after every cue whose start time is
/// less than or equal to its own. On a sequence ordered by start time this
/// keeps the order and places the new cue after any cue it ties with.
pub open spec fn insert_ordered(s: Seq<CueModel>, c: CueModel) -> Seq<CueModel>
    decreases s.len(),
{
    if s.len() == 0 {
        seq![c]
    } else if s.last().start <= c.start {
        s.push(c)
    } else {
        insert_ordered(s.drop_last(), c).push(s.last())
    }
}

/// Orders a sequence of cues by start time, stably: cues with equal start
/// times keep their relative input order. This is the tie-break rule of the
/// merge: on equal start times, earlier input position wins, so primary cues
/// come before secondary cues that start at the same instant.
pub open spec fn sort_by_start(s: Seq<CueModel>) -> Seq<CueModel>
    decreases s.len(),
{
    if s.len() == 0 {
        Seq::empty()
    } else {
        insert_ordered(sort_by_start(s.drop_last()), s.last())
    }
}

/// Reassigns every cue's number to its position in the sequence, discarding
/// whatever numbering the cues had before.
pub open spec fn renumber(s: Seq<CueModel>) -> Seq<CueModel> {
    Seq::new(s.len(), |i: int| CueModel { num: i, ..s[i] })
}

/// The merge of a primary and a secondary cue sequence: the primary cues
/// unchanged and the secondary cues marked, ordered by start time (stably,
/// primary first on ties) and renumbered from zero.
pub open spec fn merge_spec(p: Seq<CueModel>, s: Seq<CueModel>) -> Seq<CueModel> {
    renumber(sort_by_start(p + mark_all(s)))
}

/// A sequence of cues is ordered by start time.
pub open spec fn sorted_by_start(s: Seq<CueModel>) -> bool {
    forall|i: int, j: int| 0 <= i <= j < s.len() ==> s[i].start <= s[j].start
}

/// The timing and text of a cue, without its number. The merge discards the
/// input numbering, so cues are tracked across it by this content alone.
pub open spec fn content(m: CueModel) -> (int, int, Seq<char>) {
    (m.start, m.end, m.text)
}

/// The contents of a sequence of cues, as an unordered collection.
pub open spec fn content_multiset(s: Seq<CueModel>) -> Multiset<(int, int, Seq<char>)> {
    s.map_values(|m: CueModel| content(m)).to_multiset()
}

/// Returns the top-of-frame positioning marker as a string.
pub fn top_marker_string() -> (r: String)
    ensures
        r@ == top_marker(),
{
    let s: &str = "{\\an8}";
    proof {
        reveal_strlit("{\\an8}");
        assert(s@ =~= top_marker());
    }
    s.to_owned()
}

/// Combines a primary and a secondary cue sequence into one dual-subtitle
/// sequence: every secondary cue gets the top-of-frame positioning marker
/// prepended to its text, the combined cues are ordered by start time
/// (stably: on equal start times input order is kept, primary before
/// secondary), and the cues are renumbered by their position, starting at
/// zero.
///
/// The engine does not detect or resolve temporal overlaps between primary
/// and secondary cues, nor does it detect whether a secondary cue's text
/// already carries a positioning marker before prepending a new one.
pub fn merge(primary: &Vec<Cue>, secondary: &Vec<Cue>) -> (r: Vec<Cue>)
    ensures
        seq_view(r@) == merge_spec(seq_view(primary@), seq_view(secondary@)),
{
    let ghost pv = seq_view(primary@);
    let ghost sv = seq_view(secondary@);

    // Gather the primary cues unchanged and the secondary cues marked.
    let mut working: Vec<Cue> = Vec::new();
    let mut i: usize = 0;
    while i < primary.len()
        invariant
            i <= primary.len(),
            pv == seq_view(primary@),
            seq_view(working@) =~= pv.take(i as int),
        decreases primary.len() - i,
    {
        working.push(primary[i].clone());
        proof {
            assert(seq_view(working@) =~= pv.take(i + 1 as int));
        }
        i = i + 1;
    }
    assert(seq_view(working@) =~= pv);

    let mut j: usize = 0;
    while j < secondary.len()
        invariant
            j <= secondary.len(),
            pv == seq_view(primary@),
            sv == seq_view(secondary@),
            seq_view(working@) =~= pv + mark_all(sv.take(j as int)),
        decreases secondary.len() - j,
    {
        let c = &secondary[j];
        let mut text = top_marker_string();
        text.append(c.text.as_str());
        working.push(Cue::new(c.num, c.start_time, c.end_time, text));
        proof {
            assert(seq_view(working@) =~= pv + mark_all(sv.take(j + 1 as int)));
        }
        j = j + 1;
    }
    assert(seq_view(working@) =~= pv + mark_all(sv));

    // Order the collection by start time, stably, by insertion.
    let mut sorted: Vec<Cue> = Vec::new();
    let mut k: usize = 0;
    while k < working.len()
        invariant
            k <= working.len(),
            seq_view(sorted@) == sort_by_start(seq_view(working@).take(k as int)),
        decreases working.len() - k,
    {
        let c = working[k].clone();
        let mut pos: usize = sorted.len();
        while pos > 0 && sorted[pos - 1].start_time.milliseconds > c.start_time.milliseconds
            invariant
                pos <= sorted.len(),
                forall|m: int| pos <= m < sorted@.len() ==> seq_view(sorted@)[m].start > c@.start,
            decreases pos,
        {
            pos = pos - 1;
        }
        let ghost prev = seq_view(sorted@);
        sorted.insert(pos, c);
        proof {
            lemma_insert_ordered_at(prev, c@, pos as int);
            assert(seq_view(sorted@) =~= insert_ordered(prev, c@));
            assert(seq_view(working@).take(k + 1 as int).drop_last() =~= seq_view(working@).take(
                k as int,
            ));
            assert(seq_view(sorted@) == sort_by_start(seq_view(working@).take(k + 1 as int)));
        }
        k = k + 1;
    }
    assert(seq_view(working@).take(working@.len() as int) =~= seq_view(working@));

    // Renumber every cue by its position.
    let mut result: Vec<Cue> = Vec::new();
    let mut n: usize = 0;
    while n < sorted.len()
        invariant
            n <= sorted.len(),
            seq_view(result@) =~= renumber(seq_view(sorted@)).take(n as int),
        decreases sorted.len() - n,
    {
        let mut c = sorted[n].clone();
        c.num = n;
        result.push(c);
        proof {
            assert(seq_view(result@) =~= renumber(seq_view(sorted@)).take(n + 1 as int));
        }
        n = n + 1;
    }
    assert(seq_view(result@) =~= renumber(seq_view(sorted@)));
    result
}

proof fn lemma_insert_ordered_len(s: Seq<CueModel>, c: CueModel)
    ensures
        insert_ordered(s, c).len() == s.len() + 1,
    decreases s.len(),
{
    if s.len() > 0 && s.last().start > c.start {
        lemma_insert_ordered_len(s.drop_last(), c);
    }
}

proof fn lemma_sort_by_start_len(s: Seq<CueModel>)
    ensures
        sort_by_start(s).len() == s.len(),
    decreases s.len(),
{
    if s.len() > 0 {
        lemma_sort_by_start_len(s.drop_last());
        lemma_insert_ordered_len(sort_by_start(s.drop_last()), s.last());
    }
}

/// The merge output holds every cue of both inputs: its length is the sum of
/// the input lengths.
pub proof fn lemma_merge_length(p: Seq<CueModel>, s: Seq<CueModel>)
    ensures
        merge_spec(p, s).len() == p.len() + s.len(),
{
    lemma_sort_by_start_len(p + mark_all(s));
}

proof fn lemma_insert_ordered_bounded(s: Seq<CueModel>, c: CueModel, bound: int)
    requires
        forall|i: int| 0 <= i < s.len() ==> s[i].start <= bound,
        c.start <= bound,
    ensures
        forall|i: int|
            0 <= i < insert_ordered(s, c).len() ==> #[trigger] insert_ordered(s, c)[i].start
                <= bound,
    decreases s.len(),
{
    if s.len() > 0 && s.last().start > c.start {
        lemma_insert_ordered_bounded(s.drop_last(), c, bound);
        lemma_insert_ordered_len(s.drop_last(), c);
    }
}

proof fn lemma_insert_ordered_sorted(s: Seq<CueModel>, c: CueModel)
    requires
        sorted_by_start(s),
    ensures
        sorted_by_start(insert_ordered(s, c)),
    decreases s.len(),
{
    if s.len() == 0 {
    } else if s.last().start <= c.start {
    } else {
        assert(sorted_by_start(s.drop_last()));
        lemma_insert_ordered_sorted(s.drop_last(), c);
        lemma_insert_ordered_len(s.drop_last(), c);
        lemma_insert_ordered_bounded(s.drop_last(), c, s.last().start);
    }
}

proof fn lemma_sort_by_start_sorted(s: Seq<CueModel>)
    ensures
        sorted_by_start(sort_by_start(s)),
    decreases s.len(),
{
    if s.len() > 0 {
        lemma_sort_by_start_sorted(s.drop_last());
        lemma_insert_ordered_sorted(sort_by_start(s.drop_last()), s.last());
    }
}

/// The merge output is ordered by start time: each cue starts no later than
/// the next.
pub proof fn lemma_merge_ordered(p: Seq<CueModel>, s: Seq<CueModel>)
    ensures
        sorted_by_start(merge_spec(p, s)),
        forall|i: int|
            0 <= i < merge_spec(p, s).len() - 1 ==> #[trigger] merge_spec(p, s)[i].start
                <= merge_spec(p, s)[i + 1].start,
{
    lemma_sort_by_start_sorted(p + mark_all(s));
    lemma_sort_by_start_len(p + mark_all(s));
}

/// The merge output is renumbered contiguously: the cue at each position
/// carries that position as its number, starting from zero, with no gaps or
/// duplicates, regardless of the numbering of the inputs.
pub proof fn lemma_merge_renumbered(p: Seq<CueModel>, s: Seq<CueModel>)
    ensures
        forall|i: int| 0 <= i < merge_spec(p, s).len() ==> #[trigger] merge_spec(p, s)[i].num == i,
{
}

/// The contents (timing and text) of a sequence of cues, in order.
pub open spec fn content_seq(s: Seq<CueModel>) -> Seq<(int, int, Seq<char>)> {
    s.map_values(|m: CueModel| content(m))
}

proof fn lemma_insert_ordered_content_multiset(s: Seq<CueModel>, c: CueModel)
    ensures
        content_seq(insert_ordered(s, c)).to_multiset() =~= content_seq(s).to_multiset().insert(
            content(c),
        ),
    decreases s.len(),
{
    broadcast use vstd::seq_lib::group_to_multiset_ensures;
    broadcast use vstd::prelude::Seq::lemma_push_map_commute;

    if s.len() == 0 {
        assert(insert_ordered(s, c) =~= Seq::empty().push(c));
        assert(content_seq(Seq::empty().push(c)) =~= Seq::empty().push(content(c)));
        assert(content_seq(s) =~= Seq::<(int, int, Seq<char>)>::empty());
    } else if s.last().start <= c.start {
        assert(content_seq(s.push(c)) =~= content_seq(s).push(content(c)));
    } else {
        lemma_insert_ordered_content_multiset(s.drop_last(), c);
        let t = insert_ordered(s.drop_last(), c);
        assert(content_seq(t.push(s.last())) =~= content_seq(t).push(content(s.last())));
        assert(s =~= s.drop_last().push(s.last()));
        assert(content_seq(s.drop_last().push(s.last())) =~= content_seq(s.drop_last()).push(
            content(s.last()),
        ));
        assert(content_seq(s).to_multiset() =~= content_seq(s.drop_last()).to_multiset().insert(
            content(s.last()),
        ));
    }
}

proof fn lemma_sort_by_start_content_multiset(s: Seq<CueModel>)
    ensures
        content_seq(sort_by_start(s)).to_multiset() =~= content_seq(s).to_multiset(),
    decreases s.len(),
{
    broadcast use vstd::seq_lib::group_to_multiset_ensures;

    if s.len() > 0 {
        lemma_sort_by_start_content_multiset(s.drop_last());
        lemma_insert_ordered_content_multiset(sort_by_start(s.drop_last()), s.last());
        assert(s =~= s.drop_last().push(s.last()));
        assert(content_seq(s.drop_last().push(s.last())) =~= content_seq(s.drop_last()).push(
            content(s.last()),
        )) by {
            broadcast use vstd::prelude::Seq::lemma_push_map_commute;

        }
    }
}

/// The merge neither drops, invents nor alters a cue: as an unordered
/// collection of contents (timing and text), the output is exactly the
/// primary cues together with the marked secondary cues. Only the numbering
/// is regenerated.
pub proof fn lemma_merge_permutation(p: Seq<CueModel>, s: Seq<CueModel>)
    ensures
        content_multiset(merge_spec(p, s)) =~= content_multiset(p + mark_all(s)),
{
    let combined = p + mark_all(s);
    let sorted = sort_by_start(combined);
    assert(content_seq(renumber(sorted)) =~= content_seq(sorted));
    lemma_sort_by_start_content_multiset(combined);
}

/// Every cue of the merge output originates in one of the inputs: its timing
/// and text are those of some primary cue, unchanged, or those of some
/// secondary cue with the positioning marker prepended to its text.
pub proof fn lemma_merge_origins(p: Seq<CueModel>, s: Seq<CueModel>)
    ensures
        forall|i: int|
            0 <= i < merge_spec(p, s).len() ==> (exists|j: int|
                0 <= j < p.len() && content(#[trigger] merge_spec(p, s)[i]) == content(p[j]))
                || (exists|j: int|
                0 <= j < s.len() && content(merge_spec(p, s)[i]) == content(mark(s[j]))),
{
    broadcast use vstd::seq_lib::group_to_multiset_ensures;

    let combined = p + mark_all(s);
    let out = merge_spec(p, s);
    lemma_merge_permutation(p, s);
    lemma_merge_length(p, s);
    assert forall|i: int| 0 <= i < out.len() implies (exists|j: int|
        0 <= j < p.len() && content(#[trigger] out[i]) == content(p[j])) || (exists|j: int|
        0 <= j < s.len() && content(out[i]) == content(mark(s[j]))) by {
        assert(content_seq(out)[i] == content(out[i]));
        assert(content_seq(out).contains(content(out[i])));
        assert(content_seq(out).to_multiset().count(content(out[i])) > 0);
        assert(content_seq(combined).to_multiset().count(content(out[i])) > 0);
        assert(content_seq(combined).contains(content(out[i])));
        let j = choose|j: int|
            0 <= j < content_seq(combined).len() && content_seq(combined)[j] == content(out[i]);
        if j < p.len() {
            assert(combined[j] == p[j]);
            assert(content(out[i]) == content(p[j]));
        } else {
            assert(combined[j] == mark_all(s)[j - p.len()]);
            assert(mark_all(s)[j - p.len()] == mark(s[j - p.len()]));
            assert(content(out[i]) == content(mark(s[j - p.len()])));
        }
    }
}

/// The documented tie-break rule, at its smallest: when a primary cue and a
/// secondary cue start at the same instant, the primary cue comes first in
/// the merge output.
pub proof fn lemma_merge_tie_break(p: CueModel, s: CueModel)
    requires
        p.start == s.start,
    ensures
        merge_spec(seq![p], seq![s]) == seq![
            CueModel { num: 0, ..p },
            CueModel { num: 1, ..mark(s) },
        ],
{
    let m = mark(s);
    let combined = seq![p] + mark_all(seq![s]);
    assert(mark_all(seq![s]) =~= seq![m]);
    assert(combined =~= seq![p, m]);
    assert(combined.drop_last() =~= seq![p]);
    lemma_sort_of_sorted(seq![p]);
    assert(insert_ordered(seq![p], m) == seq![p].push(m));
    assert(sort_by_start(combined) == seq![p].push(m));
    assert(seq![p].push(m) =~= seq![p, m]);
    assert(renumber(seq![p, m]) =~= seq![
        CueModel { num: 0, ..p },
        CueModel { num: 1, ..m },
    ]);
}

proof fn lemma_sort_of_sorted(s: Seq<CueModel>)
    requires
        sorted_by_start(s),
    ensures
        sort_by_start(s) == s,
    decreases s.len(),
{
    if s.len() == 0 {
        assert(sort_by_start(s) =~= s);
    } else {
        assert(sorted_by_start(s.drop_last()));
        lemma_sort_of_sorted(s.drop_last());
        if s.len() == 1 {
            assert(insert_ordered(s.drop_last(), s.last()) =~= s);
        } else {
            assert(s.drop_last().last().start <= s.last().start);
            assert(s.drop_last().push(s.last()) =~= s);
        }
    }
}

/// Merging with an empty secondary sequence returns the primary sequence
/// unchanged except for the renumbering, provided the primary sequence is
/// already ordered by start time.
pub proof fn lemma_merge_empty_secondary(p: Seq<CueModel>)
    requires
        sorted_by_start(p),
    ensures
        merge_spec(p, Seq::empty()) == renumber(p),
{
    assert(mark_all(Seq::empty()) =~= Seq::<CueModel>::empty());
    assert(p + mark_all(Seq::empty()) =~= p);
    lemma_sort_of_sorted(p);
}

/// Inserting a cue at the position found by scanning from the right (every
/// cue at or after the position starts strictly later; the cue just before
/// it, if any, starts no later) yields exactly `insert_ordered`.
proof fn lemma_insert_ordered_at(s: Seq<CueModel>, c: CueModel, pos: int)
    requires
        0 <= pos <= s.len(),
        forall|m: int| pos <= m < s.len() ==> s[m].start > c.start,
        pos > 0 ==> s[pos - 1].start <= c.start,
    ensures
        insert_ordered(s, c) =~= s.take(pos) + seq![c] + s.skip(pos),
    decreases s.len(),
{
    if s.len() == 0 {
    } else if pos == s.len() {
        assert(s.last().start <= c.start);
    } else {
        assert(s[s.len() - 1].start > c.start);
        lemma_insert_ordered_at(s.drop_last(), c, pos);
        assert(s.drop_last().take(pos) =~= s.take(pos));
        assert(s.drop_last().skip(pos).push(s.last()) =~= s.skip(pos));
    }
}

} // verus!
