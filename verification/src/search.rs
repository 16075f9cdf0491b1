//! Relevance of an entry to a query, and the ranking of the entries that
//! match.
//!
//! A query is matched without regard to case. An entry whose title is the
//! query scores highest; one whose title or some path segment holds the query
//! scores next; one whose body holds it scores lowest; any other entry does
//! not match. Matches are ranked by falling score, and among equal scores by
//! the lexical order of their paths; matches that tie on both keep the order
//! in which they were found.

use vstd::prelude::*;
use crate::entry::{entry_views, DocEntry, EntryView};
use crate::lexical::{
    lemma_path_less_asymmetric,
    lemma_path_less_transitive,
    path_less,
    path_standing,
    text_standing,
    Standing,
};
use crate::text::{contains, contains_text, fold_text, folded, texts};

verus! {

/// The score of an entry whose title is the query.
pub const EXACT_TITLE: u32 = 3;

/// The score of an entry whose title or path holds the query.
pub const PATH_SEGMENT: u32 = 2;

/// The score of an entry whose body holds the query.
pub const BODY_TEXT: u32 = 1;

/// The score of an entry that does not match.
pub const NO_MATCH: u32 = 0;

/// An entry that matched a query, with its score.
#[derive(Debug, PartialEq, Eq)]
pub struct SearchHit {
    pub entry: DocEntry,
    pub score: u32,
}

/// What a [`SearchHit`] holds.
pub struct HitView {
    pub entry: EntryView,
    pub score: u32,
}

impl View for SearchHit {
    type V = HitView;

    open spec fn view(&self) -> HitView {
        HitView { entry: self.entry@, score: self.score }
    }
}

/// What a list of hits holds.
pub open spec fn hit_views(v: Seq<SearchHit>) -> Seq<HitView> {
    Seq::new(v.len(), |i: int| v[i]@)
}

/// Some segment of the path holds the folded query `needle`.
pub open spec fn segment_holds(path: Seq<Seq<char>>, needle: Seq<char>) -> bool {
    exists|i: int| 0 <= i < path.len() && contains(folded(#[trigger] path[i]), needle)
}

/// The score of an entry against a query that is already folded.
pub open spec fn grade(e: EntryView, needle: Seq<char>) -> u32 {
    if folded(e.title) == needle {
        EXACT_TITLE
    } else if contains(folded(e.title), needle) || segment_holds(e.path, needle) {
        PATH_SEGMENT
    } else if contains(folded(e.body), needle) {
        BODY_TEXT
    } else {
        NO_MATCH
    }
}

/// The score of an entry against a query; [`NO_MATCH`] when it does not match.
pub open spec fn relevance(e: EntryView, query: Seq<char>) -> u32 {
    grade(e, folded(query))
}

/// The entries that match the folded query `needle`, each with its score, in
/// the order of the entries.
pub open spec fn hits_in(entries: Seq<EntryView>, needle: Seq<char>) -> Seq<HitView>
    decreases entries.len(),
{
    if entries.len() == 0 {
        Seq::empty()
    } else {
        let rest = hits_in(entries.drop_last(), needle);
        let e = entries.last();
        if grade(e, needle) != NO_MATCH {
            rest.push(HitView { entry: e, score: grade(e, needle) })
        } else {
            rest
        }
    }
}

/// `a` belongs before `b` in a ranking: it scores higher, or the same with a
/// path that comes first.
pub open spec fn outranks(a: HitView, b: HitView) -> bool {
    a.score > b.score || (a.score == b.score && path_less(a.entry.path, b.entry.path))
}

/// No hit stands behind one that it outranks.
pub open spec fn ordered(hits: Seq<HitView>) -> bool {
    forall|i: int, j: int| 0 <= i < j < hits.len() ==> !outranks(#[trigger] hits[j], #[trigger] hits[i])
}

/// `k` is where `hit` enters `ranked`: behind every hit that it does not
/// outrank up to there, and before the first that it outranks.
pub open spec fn is_slot(ranked: Seq<HitView>, hit: HitView, k: int) -> bool {
    &&& 0 <= k <= ranked.len()
    &&& forall|j: int| 0 <= j < k ==> !outranks(hit, #[trigger] ranked[j])
    &&& (k == ranked.len() || outranks(hit, ranked[k]))
}

/// The position at which `hit` enters `ranked`.
pub open spec fn slot_for(ranked: Seq<HitView>, hit: HitView) -> int {
    choose|k: int| is_slot(ranked, hit, k)
}

/// `ranked` with `hit` entered at its position.
pub open spec fn placed(ranked: Seq<HitView>, hit: HitView) -> Seq<HitView> {
    ranked.insert(slot_for(ranked, hit), hit)
}

/// The ranking of `hits`: each entered in turn at its position.
pub open spec fn ranked(hits: Seq<HitView>) -> Seq<HitView>
    decreases hits.len(),
{
    if hits.len() == 0 {
        Seq::empty()
    } else {
        placed(ranked(hits.drop_last()), hits.last())
    }
}

/// The ranked matches of a query among `entries`.
pub open spec fn search_result(entries: Seq<EntryView>, query: Seq<char>) -> Seq<HitView> {
    ranked(hits_in(entries, folded(query)))
}

/// Every hit has exactly one position at which it enters a ranking.
pub proof fn lemma_slot(ranked: Seq<HitView>, hit: HitView)
    ensures
        is_slot(ranked, hit, slot_for(ranked, hit)),
        forall|k: int| is_slot(ranked, hit, k) ==> k == slot_for(ranked, hit),
{
    let k = find_slot(ranked, hit, 0);
    assert(is_slot(ranked, hit, k));
    let s = slot_for(ranked, hit);
    assert forall|k2: int| is_slot(ranked, hit, k2) implies k2 == s by {
        if k2 < s {
            assert(!outranks(hit, ranked[k2]));
        } else if s < k2 {
            assert(!outranks(hit, ranked[s]));
        }
    }
}

/// The first position at or after `from` at which `hit` can enter.
proof fn find_slot(ranked: Seq<HitView>, hit: HitView, from: int) -> (k: int)
    requires
        0 <= from <= ranked.len(),
        forall|j: int| 0 <= j < from ==> !outranks(hit, #[trigger] ranked[j]),
    ensures
        is_slot(ranked, hit, k),
    decreases ranked.len() - from,
{
    if from == ranked.len() || outranks(hit, ranked[from]) {
        from
    } else {
        find_slot(ranked, hit, from + 1)
    }
}

/// Of two hits at most one outranks the other.
pub proof fn lemma_outranks_asymmetric(a: HitView, b: HitView)
    ensures
        !(outranks(a, b) && outranks(b, a)),
{
    lemma_path_less_asymmetric(a.entry.path, b.entry.path);
}

/// A hit that outranks a second outranks all that the second outranks.
pub proof fn lemma_outranks_transitive(a: HitView, b: HitView, c: HitView)
    requires
        outranks(a, b),
        outranks(b, c),
    ensures
        outranks(a, c),
{
    if a.score == b.score && b.score == c.score {
        lemma_path_less_transitive(a.entry.path, b.entry.path, c.entry.path);
    }
}

/// Entering a hit into an ordered ranking leaves it ordered.
pub proof fn lemma_placed_ordered(ranked: Seq<HitView>, hit: HitView)
    requires
        ordered(ranked),
    ensures
        ordered(placed(ranked, hit)),
{
    lemma_slot(ranked, hit);
    let k = slot_for(ranked, hit);
    let t = placed(ranked, hit);
    assert forall|i: int, j: int| 0 <= i < j < t.len() implies !outranks(
        #[trigger] t[j],
        #[trigger] t[i],
    ) by {
        if j == k {
            assert(t[i] == ranked[i]);
        } else if i == k {
            assert(t[j] == ranked[j - 1]);
            lemma_outranks_asymmetric(hit, ranked[k]);
            if outranks(t[j], hit) {
                lemma_outranks_transitive(t[j], hit, ranked[k]);
                if j - 1 > k {
                    assert(!outranks(ranked[j - 1], ranked[k]));
                }
            }
        } else {
            let i0 = if i < k { i } else { i - 1 };
            let j0 = if j < k { j } else { j - 1 };
            assert(t[i] == ranked[i0]);
            assert(t[j] == ranked[j0]);
        }
    }
}

/// A ranking is ordered: by falling score, and among equal scores by the
/// lexical order of the paths.
pub proof fn lemma_ranked_ordered(hits: Seq<HitView>)
    ensures
        ordered(ranked(hits)),
    decreases hits.len(),
{
    if hits.len() > 0 {
        lemma_ranked_ordered(hits.drop_last());
        lemma_placed_ordered(ranked(hits.drop_last()), hits.last());
    }
}

/// In a ranking every hit stands before all hits with a lower score.
pub proof fn lemma_higher_score_first(hits: Seq<HitView>, i: int, j: int)
    requires
        0 <= i < ranked(hits).len(),
        0 <= j < ranked(hits).len(),
        ranked(hits)[i].score > ranked(hits)[j].score,
    ensures
        i < j,
{
    lemma_ranked_ordered(hits);
    if j < i {
        assert(!outranks(ranked(hits)[i], ranked(hits)[j]));
    }
}

/// A ranking holds exactly the hits it was made from, each as often.
pub proof fn lemma_ranked_permutes(hits: Seq<HitView>)
    ensures
        ranked(hits).to_multiset() == hits.to_multiset(),
        ranked(hits).len() == hits.len(),
    decreases hits.len(),
{
    broadcast use vstd::seq_lib::group_to_multiset_ensures;

    if hits.len() == 0 {
    } else {
        let rest = hits.drop_last();
        let hit = hits.last();
        lemma_ranked_permutes(rest);
        lemma_slot(ranked(rest), hit);
        let k = slot_for(ranked(rest), hit);
        let t = placed(ranked(rest), hit);
        assert(t.remove(k) =~= ranked(rest));
        assert(t[k] == hit);
        assert(t.remove(k).to_multiset() =~= t.to_multiset().remove(hit));
        assert(t.to_multiset().count(hit) > 0) by {
            assert(t.contains(hit));
        }
        assert(t.to_multiset() =~= ranked(rest).to_multiset().insert(hit));
        assert(rest.push(hit) =~= hits);
        assert(hits.to_multiset() =~= rest.to_multiset().insert(hit));
    }
}

/// Every hit among the matches of a query scores between [`BODY_TEXT`] and
/// [`EXACT_TITLE`] and is an entry that was searched, with its relevance.
pub proof fn lemma_hits_in(entries: Seq<EntryView>, needle: Seq<char>)
    ensures
        hits_in(entries, needle).len() <= entries.len(),
        forall|i: int|
            0 <= i < hits_in(entries, needle).len() ==> {
                let h = #[trigger] hits_in(entries, needle)[i];
                &&& BODY_TEXT <= h.score <= EXACT_TITLE
                &&& h.score == grade(h.entry, needle)
                &&& entries.contains(h.entry)
            },
        forall|j: int|
            0 <= j < entries.len() && grade(#[trigger] entries[j], needle) != NO_MATCH
                ==> hits_in(entries, needle).contains(
                HitView { entry: entries[j], score: grade(entries[j], needle) },
            ),
    decreases entries.len(),
{
    if entries.len() > 0 {
        let rest = entries.drop_last();
        lemma_hits_in(rest, needle);
        let all = hits_in(entries, needle);
        let before = hits_in(rest, needle);
        assert forall|i: int| 0 <= i < all.len() implies {
            let h = #[trigger] all[i];
            &&& BODY_TEXT <= h.score <= EXACT_TITLE
            &&& h.score == grade(h.entry, needle)
            &&& entries.contains(h.entry)
        } by {
            if i < before.len() {
                let h = before[i];
                assert(all[i] == h);
                let w = choose|w: int| 0 <= w < rest.len() && rest[w] == h.entry;
                assert(entries[w] == h.entry);
            } else {
                assert(entries[entries.len() - 1] == entries.last());
            }
        }
        assert forall|j: int|
            0 <= j < entries.len() && grade(#[trigger] entries[j], needle) != NO_MATCH implies all.contains(
            HitView { entry: entries[j], score: grade(entries[j], needle) },
        ) by {
            let h = HitView { entry: entries[j], score: grade(entries[j], needle) };
            if j < rest.len() {
                assert(rest[j] == entries[j]);
                let w = choose|w: int| 0 <= w < before.len() && before[w] == h;
                assert(all[w] == h);
            } else {
                assert(all[all.len() - 1] == h);
            }
        }
    }
}

/// Whether the title or some path segment of `entry` holds `needle`.
fn name_holds(entry: &DocEntry, title: &[char], needle: &[char]) -> (r: bool)
    requires
        title@ == folded(entry@.title),
    ensures
        r == (contains(folded(entry@.title), needle@) || segment_holds(entry@.path, needle@)),
{
    if contains_text(title, needle) {
        return true;
    }
    let path = entry.path();
    let mut i: usize = 0;
    while i < path.len()
        invariant
            i <= path@.len(),
            texts(path@) == entry@.path,
            forall|j: int| 0 <= j < i ==> !contains(folded(#[trigger] entry@.path[j]), needle@),
        decreases path@.len() - i,
    {
        let segment = fold_text(path[i].as_str());
        if contains_text(segment.as_slice(), needle) {
            assert(contains(folded(entry@.path[i as int]), needle@));
            return true;
        }
        i += 1;
    }
    false
}

/// The score of `entry` against the folded query `needle`.
pub fn grade_entry(entry: &DocEntry, needle: &[char]) -> (score: u32)
    ensures
        score == grade(entry@, needle@),
{
    let title = fold_text(entry.title().as_str());
    if text_standing(title.as_slice(), needle) == Standing::Same {
        return EXACT_TITLE;
    }
    if name_holds(entry, title.as_slice(), needle) {
        return PATH_SEGMENT;
    }
    let body = fold_text(entry.body().as_str());
    if contains_text(body.as_slice(), needle) {
        BODY_TEXT
    } else {
        NO_MATCH
    }
}

/// Whether `a` belongs before `b` in a ranking.
pub fn hit_outranks(a: &SearchHit, b: &SearchHit) -> (r: bool)
    ensures
        r == outranks(a@, b@),
{
    if a.score != b.score {
        a.score > b.score
    } else {
        path_standing(a.entry.path(), b.entry.path()) == Standing::Before
    }
}

/// Enters `hit` into the ranking `ranked` at its position.
pub fn place(ranked: &mut Vec<SearchHit>, hit: SearchHit)
    ensures
        hit_views(final(ranked)@) == placed(hit_views(old(ranked)@), hit@),
{
    let ghost before = hit_views(ranked@);
    let mut k: usize = 0;
    while k < ranked.len() && !hit_outranks(&hit, &ranked[k])
        invariant
            k <= ranked@.len(),
            ranked@ == old(ranked)@,
            forall|j: int| 0 <= j < k ==> !outranks(hit@, #[trigger] before[j]),
            before == hit_views(ranked@),
        decreases ranked@.len() - k,
    {
        k += 1;
    }
    proof {
        assert(is_slot(before, hit@, k as int));
        lemma_slot(before, hit@);
    }
    ranked.insert(k, hit);
    assert(hit_views(ranked@) =~= before.insert(k as int, hit@));
}

/// Appends to `found` the entries that match the folded query `needle`, each
/// with its score, in the order of the entries.
pub fn collect_matches(found: &mut Vec<SearchHit>, entries: &Vec<DocEntry>, needle: &[char])
    ensures
        hit_views(final(found)@) == hit_views(old(found)@) + hits_in(
            entry_views(entries@),
            needle@,
        ),
{
    let ghost before = hit_views(found@);
    let ghost all = entry_views(entries@);
    let mut i: usize = 0;
    while i < entries.len()
        invariant
            i <= entries@.len(),
            all == entry_views(entries@),
            hit_views(found@) == before + hits_in(all.take(i as int), needle@),
        decreases entries@.len() - i,
    {
        let entry = &entries[i];
        let score = grade_entry(entry, needle);
        proof {
            assert(all.take(i + 1).drop_last() =~= all.take(i as int));
            assert(all.take(i + 1).last() == entry@);
        }
        if score != NO_MATCH {
            let ghost held = hit_views(found@);
            found.push(SearchHit { entry: entry.clone(), score });
            assert(hit_views(found@) =~= held.push(HitView { entry: entry@, score }));
            assert(hit_views(found@) =~= before + hits_in(all.take(i + 1), needle@));
        }
        i += 1;
    }
    assert(all.take(i as int) =~= all);
}

/// Ranks `hits`.
pub fn rank(hits: Vec<SearchHit>) -> (r: Vec<SearchHit>)
    ensures
        hit_views(r@) == ranked(hit_views(hits@)),
{
    let ghost all = hit_views(hits@);
    let mut r: Vec<SearchHit> = Vec::new();
    assert(hit_views(r@) =~= ranked(all.take(0)));
    for hit in it: hits.into_iter()
        invariant
            it.seq() == hits@,
            all == hit_views(hits@),
            hit_views(r@) == ranked(all.take(it.index() as int)),
    {
        proof {
            assert(all.take(it.index() + 1).drop_last() =~= all.take(it.index() as int));
            assert(all.take(it.index() + 1).last() == hit@);
        }
        place(&mut r, hit);
    }
    assert(all.take(all.len() as int) =~= all);
    r
}

/// The ranked matches of `query` among `entries`.
pub fn search_entries(entries: &Vec<DocEntry>, query: &str) -> (r: Vec<SearchHit>)
    ensures
        hit_views(r@) == search_result(entry_views(entries@), query@),
{
    let needle = fold_text(query);
    let mut found: Vec<SearchHit> = Vec::new();
    collect_matches(&mut found, entries, needle.as_slice());
    assert(hit_views(found@) =~= hits_in(entry_views(entries@), needle@));
    rank(found)
}

} // verus!
