//! The two titles of the game: most bugs, and longest road.
use crate::games::base::players::Players;
use crate::games::hexagon::actions::is_owner;
use crate::games::hexagon::board::{optional_key_view, road_views, Road, RoadView};
use crate::search::{
    first_match, is_first_match, lemma_first_match_is, lemma_first_match_none,
};
use vstd::prelude::*;

verus! {

/// The score from which a title is first given.
pub const TITLE_THRESHOLD: usize = 3;

/// Scores by player key, as contracts see them.
pub open spec fn score_views(scores: Seq<(String, usize)>) -> Seq<(Seq<char>, nat)> {
    scores.map_values(|s: (String, usize)| (s.0@, s.1 as nat))
}

/// Bug counts by player key, as contracts see them.
pub open spec fn bug_views(bugs: Seq<(String, u8)>) -> Seq<(Seq<char>, nat)> {
    bugs.map_values(|s: (String, u8)| (s.0@, s.1 as nat))
}

/// Whether the entry at `i` leads: its score is above zero, above every score before it
/// and not below any score after it.
pub open spec fn is_leader(scores: Seq<(Seq<char>, nat)>, i: int) -> bool {
    &&& 0 <= i < scores.len()
    &&& scores[i].1 > 0
    &&& forall|j: int| 0 <= j < i ==> (#[trigger] scores[j]).1 < scores[i].1
    &&& forall|j: int| i < j < scores.len() ==> (#[trigger] scores[j]).1 <= scores[i].1
}

/// The place of the entry that leads, where any score is above zero.
pub open spec fn leader(scores: Seq<(Seq<char>, nat)>) -> Option<int> {
    if exists|i: int| is_leader(scores, i) {
        Some(choose|i: int| is_leader(scores, i))
    } else {
        None
    }
}

/// The condition of being the entry of this player.
pub open spec fn scored_by(key: Seq<char>) -> spec_fn((Seq<char>, nat)) -> bool {
    |entry: (Seq<char>, nat)| entry.0 == key
}

/// The score that the holder of a title has: that of the holder's first entry, and
/// nothing where the holder has no entry.
pub open spec fn held_score(scores: Seq<(Seq<char>, nat)>, champ: Seq<char>) -> nat {
    match first_match(scores, scored_by(champ)) {
        Some(c) => scores[c].1,
        None => 0,
    }
}

/// Who holds a title after the scores have changed.
///
/// Where somebody holds the title, it goes to the leader only if the leader's score is
/// above the holder's; in every other case the holder keeps it. Where nobody holds it,
/// the leader takes it with a score of three or more.
pub open spec fn title_after(scores: Seq<(Seq<char>, nat)>, holder: Option<Seq<char>>) -> Option<
    Seq<char>,
> {
    match holder {
        Some(champ) => match leader(scores) {
            Some(l) => if scores[l].1 > held_score(scores, champ) {
                Some(scores[l].0)
            } else {
                Some(champ)
            },
            None => Some(champ),
        },
        None => match leader(scores) {
            Some(l) => if scores[l].1 >= TITLE_THRESHOLD {
                Some(scores[l].0)
            } else {
                None
            },
            None => None,
        },
    }
}

/// An entry that leads is the leader.
pub proof fn lemma_leader_is(scores: Seq<(Seq<char>, nat)>, i: int)
    requires
        is_leader(scores, i),
    ensures
        leader(scores) == Some(i),
{
    let k = choose|k: int| is_leader(scores, k);
    if k < i {
        assert(scores[k].1 < scores[i].1);
        assert(scores[i].1 <= scores[k].1);
    } else if i < k {
        assert(scores[i].1 < scores[k].1);
        assert(scores[k].1 <= scores[i].1);
    }
}

/// Where no score is above zero nobody leads.
pub proof fn lemma_no_leader(scores: Seq<(Seq<char>, nat)>)
    requires
        forall|j: int| 0 <= j < scores.len() ==> (#[trigger] scores[j]).1 == 0,
    ensures
        leader(scores) is None,
{
    if exists|i: int| is_leader(scores, i) {
        let k = choose|k: int| is_leader(scores, k);
        assert(scores[k].1 == 0);
    }
}

/// A tie or a lower score never moves a title: a holder whose score nobody beats keeps
/// it, whatever that score is.
pub proof fn law_ties_keep_the_title(scores: Seq<(Seq<char>, nat)>, champ: Seq<char>)
    requires
        forall|j: int|
            0 <= j < scores.len() ==> (#[trigger] scores[j]).1 <= held_score(scores, champ),
    ensures
        title_after(scores, Some(champ)) == Some(champ),
{
    if let Some(l) = leader(scores) {
        lemma_leader_facts(scores);
        assert(scores[l].1 <= held_score(scores, champ));
    }
}

/// A title moves only to a score above the holder's, and then to a score that no other
/// score is above.
pub proof fn law_more_takes_the_title(scores: Seq<(Seq<char>, nat)>, champ: Seq<char>, i: int)
    requires
        0 <= i < scores.len(),
        scores[i].1 > held_score(scores, champ),
    ensures
        leader(scores) matches Some(l) && title_after(scores, Some(champ)) == Some(scores[l].0)
            && scores[l].1 > held_score(scores, champ) && forall|j: int|
            0 <= j < scores.len() ==> (#[trigger] scores[j]).1 <= scores[l].1,
{
    lemma_some_leader(scores, i);
    let l = leader(scores)->0;
    assert(scores[i].1 <= scores[l].1);
}

/// A title that nobody holds is first given for a score of three, to a score that no
/// other score is above; below three it stays vacant.
pub proof fn law_first_title_needs_three(scores: Seq<(Seq<char>, nat)>)
    ensures
        title_after(scores, None) is Some <==> exists|i: int|
            0 <= i < scores.len() && (#[trigger] scores[i]).1 >= TITLE_THRESHOLD,
{
    lemma_leader_facts(scores);
    if exists|i: int| 0 <= i < scores.len() && (#[trigger] scores[i]).1 >= TITLE_THRESHOLD {
        let i = choose|i: int| 0 <= i < scores.len() && (#[trigger] scores[i]).1 >= TITLE_THRESHOLD;
        lemma_some_leader(scores, i);
        let l = leader(scores)->0;
        assert(scores[i].1 <= scores[l].1);
    }
    if title_after(scores, None) is Some {
        let l = leader(scores)->0;
        assert(scores[l].1 >= TITLE_THRESHOLD);
    }
}

/// What the leader is: an entry that leads, where there is one.
pub proof fn lemma_leader_facts(scores: Seq<(Seq<char>, nat)>)
    ensures
        leader(scores) matches Some(l) ==> is_leader(scores, l) && forall|j: int|
            0 <= j < scores.len() ==> (#[trigger] scores[j]).1 <= scores[l].1,
{
    if let Some(l) = leader(scores) {
        assert(is_leader(scores, l));
        assert forall|j: int| 0 <= j < scores.len() implies (#[trigger] scores[j]).1
            <= scores[l].1 by {
            if j < l {
                assert(scores[j].1 < scores[l].1);
            } else if j > l {
                assert(scores[j].1 <= scores[l].1);
            }
        }
    }
}

/// Where some score is above zero somebody leads.
pub proof fn lemma_some_leader(scores: Seq<(Seq<char>, nat)>, i: int)
    requires
        0 <= i < scores.len(),
        scores[i].1 > 0,
    ensures
        leader(scores) matches Some(l) && is_leader(scores, l),
    decreases scores.len(),
{
    let front = scores.drop_last();
    let last = scores.len() - 1;
    if exists|j: int| 0 <= j < front.len() && (#[trigger] front[j]).1 > 0 {
        let j = choose|j: int| 0 <= j < front.len() && (#[trigger] front[j]).1 > 0;
        lemma_some_leader(front, j);
        let l = leader(front)->0;
        if scores[last].1 > front[l].1 {
            assert(is_leader(scores, last)) by {
                assert forall|k: int| 0 <= k < last implies (#[trigger] scores[k]).1
                    < scores[last].1 by {
                    assert(front[k] == scores[k]);
                    if k < l {
                        assert(front[k].1 < front[l].1);
                    } else if k > l {
                        assert(front[k].1 <= front[l].1);
                    }
                }
            }
            lemma_leader_is(scores, last);
        } else {
            assert(is_leader(scores, l)) by {
                assert forall|k: int| 0 <= k < l implies (#[trigger] scores[k]).1
                    < scores[l].1 by {
                    assert(front[k].1 < front[l].1);
                }
                assert forall|k: int| l < k < scores.len() implies (#[trigger] scores[k]).1
                    <= scores[l].1 by {
                    if k < last {
                        assert(front[k].1 <= front[l].1);
                    }
                }
            }
            lemma_leader_is(scores, l);
        }
    } else {
        assert(i == last) by {
            if i < last {
                assert(front[i].1 > 0);
            }
        }
        assert(is_leader(scores, last)) by {
            assert forall|k: int| 0 <= k < last implies (#[trigger] scores[k]).1
                < scores[last].1 by {
                assert(front[k] == scores[k]);
            }
        }
        lemma_leader_is(scores, last);
    }
}

/// Who holds a title after the scores have changed.
pub fn award_title(scores: &Vec<(String, usize)>, title_holder: &Option<String>) -> (holder:
    Option<String>)
    ensures
        optional_key_view(holder) == title_after(
            score_views(scores@),
            optional_key_view(*title_holder),
        ),
{
    let ghost views = score_views(scores@);
    let mut best: usize = 0;
    let mut lead: Option<usize> = None;
    let mut i: usize = 0;
    while i < scores.len()
        invariant
            i <= scores.len(),
            views == score_views(scores@),
            match lead {
                Some(l) => l < i && best == scores@[l as int].1 && best > 0 && is_leader(
                    views.take(i as int),
                    l as int,
                ),
                None => best == 0 && forall|j: int|
                    0 <= j < i ==> (#[trigger] views[j]).1 == 0,
            },
        decreases scores.len() - i,
    {
        if scores[i].1 > best {
            best = scores[i].1;
            lead = Some(i);
            proof {
                let upto = views.take(i + 1);
                assert forall|j: int| 0 <= j < i implies (#[trigger] upto[j]).1 < upto[i as int].1 by {
                    assert(upto[j] == views.take(i as int)[j]);
                }
                assert(is_leader(upto, i as int));
            }
        } else {
            proof {
                if let Some(l) = lead {
                    let before = views.take(i as int);
                    let upto = views.take(i + 1);
                    assert forall|j: int| 0 <= j < l implies (#[trigger] upto[j]).1 < upto[l as int].1 by {
                        assert(before[j].1 < before[l as int].1);
                    }
                    assert forall|j: int| l < j < upto.len() implies (#[trigger] upto[j]).1
                        <= upto[l as int].1 by {
                        if j < i {
                            assert(before[j].1 <= before[l as int].1);
                        }
                    }
                    assert(is_leader(upto, l as int));
                }
            }
        }
        i += 1;
    }
    proof {
        assert(views.take(scores.len() as int) =~= views);
    }
    proof {
        match lead {
            None => {
                lemma_no_leader(views);
            },
            Some(l) => {
                lemma_leader_is(views, l as int);
            },
        }
    }
    match title_holder {
        Some(champ) => {
            let held = match find_score(scores, champ) {
                Some(c) => scores[c].1,
                None => 0,
            };
            match lead {
                Some(l) => {
                    if best > held {
                        Some(scores[l].0.clone())
                    } else {
                        Some(champ.clone())
                    }
                },
                None => Some(champ.clone()),
            }
        },
        None => {
            match lead {
                Some(l) => {
                    if best >= TITLE_THRESHOLD {
                        Some(scores[l].0.clone())
                    } else {
                        None
                    }
                },
                None => None,
            }
        },
    }
}

/// The place of the first score of this player.
pub fn find_score(scores: &Vec<(String, usize)>, key: &String) -> (place: Option<usize>)
    ensures
        match place {
            Some(c) => first_match(score_views(scores@), scored_by(key@)) == Some(c as int) && c
                < scores.len(),
            None => first_match(score_views(scores@), scored_by(key@)) is None,
        },
{
    let ghost views = score_views(scores@);
    let ghost wanted = scored_by(key@);
    let mut i: usize = 0;
    while i < scores.len()
        invariant
            i <= scores.len(),
            views == score_views(scores@),
            wanted == scored_by(key@),
            forall|j: int| 0 <= j < i ==> !wanted(#[trigger] views[j]),
        decreases scores.len() - i,
    {
        if scores[i].0 == *key {
            proof {
                assert(is_first_match(views, wanted, i as int));
                lemma_first_match_is(views, wanted, i as int);
            }
            return Some(i);
        }
        i += 1;
    }
    proof {
        lemma_first_match_none(views, wanted);
    }
    None
}

/// Who has the most bugs, given the counts and who held the title before.
pub fn find_most_bugs(bugs: &Vec<(String, u8)>, title_holder: &Option<String>) -> (holder: Option<
    String,
>)
    ensures
        optional_key_view(holder) == title_after(
            bug_views(bugs@),
            optional_key_view(*title_holder),
        ),
{
    let mut scores: Vec<(String, usize)> = Vec::new();
    let mut i: usize = 0;
    while i < bugs.len()
        invariant
            i <= bugs.len(),
            score_views(scores@) == bug_views(bugs@).take(i as int),
        decreases bugs.len() - i,
    {
        let ghost before = scores@;
        scores.push((bugs[i].0.clone(), bugs[i].1 as usize));
        proof {
            assert(score_views(scores@) =~= score_views(before).push(
                (bugs@[i as int].0@, bugs@[i as int].1 as nat),
            ));
            assert(score_views(scores@) =~= bug_views(bugs@).take(i + 1));
        }
        i += 1;
    }
    proof {
        assert(bug_views(bugs@).take(bugs.len() as int) =~= bug_views(bugs@));
    }
    award_title(&scores, title_holder)
}

/// Edges as contracts see them.
pub open spec fn edge_views(edges: Seq<(usize, usize)>) -> Seq<(int, int)> {
    edges.map_values(|e: (usize, usize)| (e.0 as int, e.1 as int))
}

/// Whether two roads share an end.
pub open spec fn meet(a: (int, int), b: (int, int)) -> bool {
    a.0 == b.0 || a.0 == b.1 || a.1 == b.0 || a.1 == b.1
}

/// Whether `row` puts roads of the list in a row: it names places of the list, none of
/// them twice, and each road shares an end with the one before it.
pub open spec fn is_row(roads: Seq<(int, int)>, row: Seq<int>) -> bool {
    &&& forall|k: int| 0 <= k < row.len() ==> 0 <= #[trigger] row[k] < roads.len()
    &&& forall|k: int, l: int| 0 <= k < l < row.len() ==> #[trigger] row[k] != #[trigger] row[l]
    &&& forall|k: int| 0 < k < row.len() ==> meet(roads[row[k - 1]], roads[#[trigger] row[k]])
}

/// Whether `row` puts roads of `others` in a row that goes on from `road`: it is a row,
/// and its first road shares an end with `road`.
pub open spec fn is_row_after(road: (int, int), others: Seq<(int, int)>, row: Seq<int>) -> bool {
    &&& is_row(others, row)
    &&& row.len() > 0 ==> meet(road, others[row[0]])
}

/// Whether `length` is the largest number of different roads of the list that can be put
/// in a row so that each shares an end with the one before it: one row has that many,
/// and no row has more.
pub open spec fn is_longest_row(roads: Seq<(int, int)>, length: nat) -> bool {
    &&& exists|row: Seq<int>| #[trigger] is_row(roads, row) && row.len() == length
    &&& forall|row: Seq<int>| #[trigger] is_row(roads, row) ==> row.len() <= length
}

/// Whether `length` is the largest number of roads in a row that starts with `road` and
/// goes on through different roads of `others`: one such row has that many, and none
/// has more.
pub open spec fn is_longest_after(road: (int, int), others: Seq<(int, int)>, length: nat) -> bool {
    &&& exists|row: Seq<int>| #[trigger] is_row_after(road, others, row) && row.len() + 1 == length
    &&& forall|row: Seq<int>| #[trigger] is_row_after(road, others, row) ==> row.len() + 1 <= length
}

/// The largest number of different roads of the list that can be put in a row so that
/// each shares an end with the one before it.
pub open spec fn longest_road(roads: Seq<(int, int)>) -> nat {
    choose|length: nat| is_longest_row(roads, length)
}

/// The largest number of roads in a row that starts with `road` and goes on through
/// different roads of `others`.
pub open spec fn way_length(road: (int, int), others: Seq<(int, int)>) -> nat {
    choose|length: nat| is_longest_after(road, others, length)
}

/// There is one largest number and no other.
pub proof fn lemma_longest_row_is(roads: Seq<(int, int)>, length: nat)
    requires
        is_longest_row(roads, length),
    ensures
        longest_road(roads) == length,
{
    let other = longest_road(roads);
    assert(is_longest_row(roads, other));
    let row = choose|row: Seq<int>| #[trigger] is_row(roads, row) && row.len() == length;
    let other_row = choose|row: Seq<int>| #[trigger] is_row(roads, row) && row.len() == other;
    assert(row.len() <= other);
    assert(other_row.len() <= length);
}

/// There is one largest number after a road and no other.
pub proof fn lemma_longest_after_is(road: (int, int), others: Seq<(int, int)>, length: nat)
    requires
        is_longest_after(road, others, length),
    ensures
        way_length(road, others) == length,
{
    let other = way_length(road, others);
    assert(is_longest_after(road, others, other));
    let row = choose|row: Seq<int>|
        #[trigger] is_row_after(road, others, row) && row.len() + 1 == length;
    let other_row = choose|row: Seq<int>|
        #[trigger] is_row_after(road, others, row) && row.len() + 1 == other;
    assert(row.len() + 1 <= other);
    assert(other_row.len() + 1 <= length);
}

/// Whether `way` goes on from a road through roads that are not taken yet: it is a row
/// after that road, and none of its roads is marked as taken.
pub open spec fn is_way(roads: Seq<(int, int)>, taken: Seq<bool>, from: (int, int), way: Seq<int>) -> bool {
    &&& is_row_after(from, roads, way)
    &&& forall|k: int| 0 <= k < way.len() ==> !taken[#[trigger] way[k]]
}

/// How many roads are not marked as taken.
pub open spec fn untaken(taken: Seq<bool>) -> nat
    decreases taken.len(),
{
    if taken.len() == 0 {
        0
    } else {
        untaken(taken.drop_last()) + if taken.last() {
            0nat
        } else {
            1nat
        }
    }
}

/// Marking a road that was not taken leaves one road fewer.
proof fn lemma_untaken_marked(taken: Seq<bool>, i: int)
    requires
        0 <= i < taken.len(),
        !taken[i],
    ensures
        untaken(taken.update(i, true)) + 1 == untaken(taken),
    decreases taken.len(),
{
    let marked = taken.update(i, true);
    if i == taken.len() - 1 {
        assert(marked.drop_last() =~= taken.drop_last());
    } else {
        assert(marked.drop_last() =~= taken.drop_last().update(i, true));
        lemma_untaken_marked(taken.drop_last(), i);
    }
}

/// No more roads are untaken than there are roads; where none is marked, all are.
proof fn lemma_untaken_bound(taken: Seq<bool>)
    ensures
        untaken(taken) <= taken.len(),
    decreases taken.len(),
{
    if taken.len() > 0 {
        lemma_untaken_bound(taken.drop_last());
    }
}

/// A way that starts with the road at place `i`, without that road, is a way that goes
/// on from that road through the roads left once it is taken.
proof fn lemma_way_goes_on(
    roads: Seq<(int, int)>,
    taken: Seq<bool>,
    from: (int, int),
    way: Seq<int>,
    i: int,
)
    requires
        is_way(roads, taken, from, way),
        way.len() > 0,
        way[0] == i,
        taken.len() == roads.len(),
    ensures
        is_way(roads, taken.update(i, true), roads[i], way.drop_first()),
{
    let rest = way.drop_first();
    let marked = taken.update(i, true);
    assert forall|k: int| 0 <= k < rest.len() implies 0 <= #[trigger] rest[k] < roads.len()
        && !marked[rest[k]] by {
        assert(rest[k] == way[k + 1]);
        assert(way[0] != way[k + 1]);
    }
    assert forall|k: int, l: int| 0 <= k < l < rest.len() implies #[trigger] rest[k]
        != #[trigger] rest[l] by {
        assert(rest[k] == way[k + 1]);
        assert(rest[l] == way[l + 1]);
        assert(way[k + 1] != way[l + 1]);
    }
    assert forall|k: int| 0 < k < rest.len() implies meet(
        roads[rest[k - 1]],
        roads[#[trigger] rest[k]],
    ) by {
        assert(rest[k] == way[k + 1]);
        assert(rest[k - 1] == way[k]);
    }
    if rest.len() > 0 {
        assert(rest[0] == way[1]);
    }
}

/// A way that goes on from the road at place `i` through the roads left once it is
/// taken, with that road put before it, is a way through the roads before it was taken.
proof fn lemma_way_with_first(
    roads: Seq<(int, int)>,
    taken: Seq<bool>,
    from: (int, int),
    rest: Seq<int>,
    i: int,
)
    requires
        0 <= i < roads.len(),
        taken.len() == roads.len(),
        !taken[i],
        meet(from, roads[i]),
        is_way(roads, taken.update(i, true), roads[i], rest),
    ensures
        is_way(roads, taken, from, seq![i] + rest),
        (seq![i] + rest).len() == rest.len() + 1,
{
    let way = seq![i] + rest;
    let marked = taken.update(i, true);
    assert forall|k: int| 0 <= k < way.len() implies 0 <= #[trigger] way[k] < roads.len()
        && !taken[way[k]] by {
        if k > 0 {
            assert(way[k] == rest[k - 1]);
            assert(!marked[rest[k - 1]]);
        }
    }
    assert forall|k: int, l: int| 0 <= k < l < way.len() implies #[trigger] way[k]
        != #[trigger] way[l] by {
        assert(way[l] == rest[l - 1]);
        assert(!marked[rest[l - 1]]);
        if k > 0 {
            assert(way[k] == rest[k - 1]);
        }
    }
    assert forall|k: int| 0 < k < way.len() implies meet(roads[way[k - 1]], roads[#[trigger] way[k]]) by {
        assert(way[k] == rest[k - 1]);
        if k > 1 {
            assert(way[k - 1] == rest[k - 2]);
        }
    }
}

/// Whether two roads share an end.
pub fn meets(a: (usize, usize), b: (usize, usize)) -> (shared: bool)
    ensures
        shared == meet((a.0 as int, a.1 as int), (b.0 as int, b.1 as int)),
{
    a.0 == b.0 || a.0 == b.1 || a.1 == b.0 || a.1 == b.1
}

/// The largest number of roads in a row that goes on from `from` through roads that are
/// not taken yet. The marks are left as they were found.
fn longest_onward(roads: &Vec<(usize, usize)>, taken: &mut Vec<bool>, from: (usize, usize)) -> (best:
    usize)
    requires
        old(taken).len() == roads.len(),
    ensures
        final(taken)@ == old(taken)@,
        best <= untaken(old(taken)@),
        exists|way: Seq<int>|
            #[trigger] is_way(
                edge_views(roads@),
                old(taken)@,
                (from.0 as int, from.1 as int),
                way,
            ) && way.len() == best,
        forall|way: Seq<int>|
            #[trigger] is_way(
                edge_views(roads@),
                old(taken)@,
                (from.0 as int, from.1 as int),
                way,
            ) ==> way.len() <= best,
    decreases untaken(old(taken)@),
{
    let ghost views = edge_views(roads@);
    let ghost start = (from.0 as int, from.1 as int);
    let ghost marks = taken@;
    let ghost mut found: Seq<int> = Seq::empty();
    let mut best: usize = 0;
    let mut i: usize = 0;
    proof {
        assert(is_way(views, marks, start, found));
    }
    while i < roads.len()
        invariant
            i <= roads.len(),
            views == edge_views(roads@),
            start == (from.0 as int, from.1 as int),
            taken.len() == roads.len(),
            taken@ == marks,
            marks == old(taken)@,
            best <= untaken(marks),
            is_way(views, marks, start, found),
            found.len() == best,
            forall|way: Seq<int>|
                #[trigger] is_way(views, marks, start, way) && way.len() > 0 && way[0] < i
                    ==> way.len() <= best,
        decreases roads.len() - i,
    {
        let next = roads[i];
        proof {
            assert(views[i as int] == (next.0 as int, next.1 as int));
        }
        if !taken[i] && meets(from, next) {
            taken.set(i, true);
            let ghost marked = taken@;
            proof {
                assert(marked =~= marks.update(i as int, true));
                lemma_untaken_marked(marks, i as int);
                lemma_untaken_bound(marks);
            }
            let onward = longest_onward(roads, taken, next);
            let ghost rest = choose|way: Seq<int>|
                #[trigger] is_way(views, marked, views[i as int], way) && way.len() == onward;
            taken.set(i, false);
            proof {
                assert(taken@ =~= marks);
                lemma_way_with_first(views, marks, start, rest, i as int);
                assert forall|way: Seq<int>|
                    #[trigger] is_way(views, marks, start, way) && way.len() > 0 && way[0]
                        == i implies way.len() <= onward + 1 by {
                    lemma_way_goes_on(views, marks, start, way, i as int);
                    assert(is_way(views, marked, views[i as int], way.drop_first()));
                }
            }
            if 1 + onward > best {
                best = 1 + onward;
                proof {
                    found = seq![i as int] + rest;
                }
            }
        } else {
            proof {
                assert forall|way: Seq<int>|
                    #[trigger] is_way(views, marks, start, way) && way.len() > 0 && way[0]
                        == i implies way.len() <= best by {
                    assert(!marks[way[0]]);
                    assert(meet(start, views[way[0]]));
                }
            }
        }
        i += 1;
    }
    proof {
        assert forall|way: Seq<int>| #[trigger]
            is_way(views, marks, start, way) implies way.len() <= best by {
            if way.len() > 0 {
                assert(0 <= way[0] < roads.len());
            }
        }
    }
    best
}

/// A list of marks for `n` roads, none of them taken.
fn no_marks(n: usize) -> (taken: Vec<bool>)
    ensures
        taken@ == Seq::new(n as nat, |i: int| false),
{
    let mut taken: Vec<bool> = Vec::new();
    let mut i: usize = 0;
    while i < n
        invariant
            i <= n,
            taken.len() == i,
            forall|j: int| 0 <= j < i ==> !taken@[j],
        decreases n - i,
    {
        taken.push(false);
        i += 1;
    }
    proof {
        assert(taken@ =~= Seq::new(n as nat, |i: int| false));
    }
    taken
}

/// The largest number of roads in a row that starts with `road` and goes on through
/// different roads of `other_roads`, each sharing an end with the one before it.
pub fn measure_road_segment(road: &(usize, usize), other_roads: Vec<(usize, usize)>) -> (length:
    usize)
    requires
        other_roads.len() < usize::MAX,
    ensures
        is_longest_after((road.0 as int, road.1 as int), edge_views(other_roads@), length as nat),
        length == way_length((road.0 as int, road.1 as int), edge_views(other_roads@)),
{
    let ghost here = (road.0 as int, road.1 as int);
    let ghost others = edge_views(other_roads@);
    let mut taken = no_marks(other_roads.len());
    let ghost marks = taken@;
    proof {
        lemma_untaken_bound(marks);
    }
    let onward = longest_onward(&other_roads, &mut taken, *road);
    proof {
        let way = choose|way: Seq<int>|
            #[trigger] is_way(others, marks, here, way) && way.len() == onward;
        assert(is_row_after(here, others, way));
        assert forall|row: Seq<int>| #[trigger] is_row_after(here, others, row) implies row.len()
            + 1 <= onward + 1 by {
            assert(is_way(others, marks, here, row));
        }
        lemma_longest_after_is(here, others, (onward + 1) as nat);
    }
    1 + onward
}

/// The largest number of different roads of the list that can be put in a row so that
/// each shares an end with the one before it; 0 for no roads.
pub fn find_max_road_length(roads: Vec<(usize, usize)>) -> (length: usize)
    ensures
        is_longest_row(edge_views(roads@), length as nat),
        length == longest_road(edge_views(roads@)),
{
    let ghost views = edge_views(roads@);
    let mut taken = no_marks(roads.len());
    let ghost marks = taken@;
    let ghost mut found: Seq<int> = Seq::empty();
    let mut best: usize = 0;
    let mut i: usize = 0;
    proof {
        lemma_untaken_bound(marks);
        assert(is_row(views, found));
    }
    while i < roads.len()
        invariant
            i <= roads.len(),
            views == edge_views(roads@),
            taken.len() == roads.len(),
            taken@ == marks,
            marks == Seq::new(roads.len() as nat, |i: int| false),
            untaken(marks) <= roads.len(),
            best <= roads.len(),
            is_row(views, found),
            found.len() == best,
            forall|row: Seq<int>|
                #[trigger] is_row(views, row) && row.len() > 0 && row[0] < i ==> row.len()
                    <= best,
        decreases roads.len() - i,
    {
        let first = roads[i];
        proof {
            assert(views[i as int] == (first.0 as int, first.1 as int));
        }
        taken.set(i, true);
        let ghost marked = taken@;
        proof {
            assert(marked =~= marks.update(i as int, true));
            lemma_untaken_marked(marks, i as int);
        }
        let onward = longest_onward(&roads, &mut taken, first);
        let ghost rest = choose|way: Seq<int>|
            #[trigger] is_way(views, marked, views[i as int], way) && way.len() == onward;
        taken.set(i, false);
        proof {
            assert(taken@ =~= marks);
            // A row and a way from any road that meets its first road are the same thing
            // where nothing is taken; the first road meets itself.
            assert(meet(views[i as int], views[i as int]));
            lemma_way_with_first(views, marks, views[i as int], rest, i as int);
            assert(is_row(views, seq![i as int] + rest));
            assert forall|row: Seq<int>|
                #[trigger] is_row(views, row) && row.len() > 0 && row[0] == i implies row.len()
                    <= onward + 1 by {
                assert(is_way(views, marks, views[i as int], row));
                lemma_way_goes_on(views, marks, views[i as int], row, i as int);
                assert(is_way(views, marked, views[i as int], row.drop_first()));
            }
        }
        if 1 + onward > best {
            best = 1 + onward;
            proof {
                found = seq![i as int] + rest;
            }
        }
        i += 1;
    }
    proof {
        assert forall|row: Seq<int>| #[trigger] is_row(views, row) implies row.len() <= best by {
            if row.len() > 0 {
                assert(0 <= row[0] < roads.len());
            }
        }
        lemma_longest_row_is(views, best as nat);
    }
    best
}

/// The ends of the roads that a player owns, in the order of the roads.
pub open spec fn owned_edges(roads: Seq<RoadView>, key: Seq<char>) -> Seq<(int, int)>
    decreases roads.len(),
{
    if roads.len() == 0 {
        Seq::empty()
    } else {
        let before = owned_edges(roads.drop_last(), key);
        if roads.last().player_key == Some(key) {
            before.push(roads.last().inds)
        } else {
            before
        }
    }
}

/// For each of the first `upto` players, in seating order, the length of their longest
/// road.
pub open spec fn road_lengths(roads: Seq<RoadView>, keys: Seq<Seq<char>>) -> Seq<
    (Seq<char>, nat),
> {
    Seq::new(keys.len(), |i: int| (keys[i], longest_road(owned_edges(roads, keys[i]))))
}

/// The keys of the players of a roster, in seating order.
pub open spec fn roster_keys(players: Players) -> Seq<Seq<char>> {
    Seq::new(players.list@.len(), |i: int| players.list@[i].key@)
}

/// The title for the longest road stays where it is unless somebody's longest road is
/// longer than the holder's: a tie or a shorter road never moves it.
pub proof fn law_longest_road_title_stays(
    roads: Seq<RoadView>,
    keys: Seq<Seq<char>>,
    champ: Seq<char>,
)
    requires
        forall|i: int|
            0 <= i < keys.len() ==> longest_road(owned_edges(roads, #[trigger] keys[i]))
                <= held_score(road_lengths(roads, keys), champ),
    ensures
        title_after(road_lengths(roads, keys), Some(champ)) == Some(champ),
{
    let scores = road_lengths(roads, keys);
    assert forall|j: int| 0 <= j < scores.len() implies (#[trigger] scores[j]).1 <= held_score(
        scores,
        champ,
    ) by {
        assert(scores[j].1 == longest_road(owned_edges(roads, keys[j])));
    }
    law_ties_keep_the_title(scores, champ);
}

/// Where somebody's longest road is longer than the holder's, the title goes to a player
/// whose longest road no other player's is longer than.
pub proof fn law_longer_road_takes_the_title(
    roads: Seq<RoadView>,
    keys: Seq<Seq<char>>,
    champ: Seq<char>,
    i: int,
)
    requires
        0 <= i < keys.len(),
        longest_road(owned_edges(roads, keys[i])) > held_score(road_lengths(roads, keys), champ),
    ensures
        leader(road_lengths(roads, keys)) matches Some(l) && title_after(
            road_lengths(roads, keys),
            Some(champ),
        ) == Some(keys[l]) && forall|j: int|
            0 <= j < keys.len() ==> longest_road(owned_edges(roads, #[trigger] keys[j]))
                <= longest_road(owned_edges(roads, keys[l])),
{
    let scores = road_lengths(roads, keys);
    assert(scores[i].1 == longest_road(owned_edges(roads, keys[i])));
    law_more_takes_the_title(scores, champ, i);
    let l = leader(scores)->0;
    assert forall|j: int| 0 <= j < keys.len() implies longest_road(
        owned_edges(roads, #[trigger] keys[j]),
    ) <= longest_road(owned_edges(roads, keys[l])) by {
        assert(scores[j].1 <= scores[l].1);
    }
}

/// The ends of the roads that a player owns.
fn roads_of(roads: &[Road], key: &String) -> (owned: Vec<(usize, usize)>)
    ensures
        edge_views(owned@) == owned_edges(road_views(roads@), key@),
{
    let ghost views = road_views(roads@);
    let mut owned: Vec<(usize, usize)> = Vec::new();
    let mut i: usize = 0;
    while i < roads.len()
        invariant
            i <= roads.len(),
            views == road_views(roads@),
            edge_views(owned@) == owned_edges(views.take(i as int), key@),
        decreases roads.len() - i,
    {
        proof {
            assert(views.take(i + 1).drop_last() =~= views.take(i as int));
        }
        if is_owner(&roads[i].player_key, key) {
            let ghost before = owned@;
            owned.push(roads[i].inds);
            proof {
                assert(edge_views(owned@) =~= edge_views(before).push(views[i as int].inds));
            }
        }
        i += 1;
    }
    proof {
        assert(views.take(roads.len() as int) =~= views);
    }
    owned
}

/// For each player, in seating order, the length of their longest road.
pub fn get_road_lengths(roads: &[Road], players: &Players) -> (lengths: Vec<(String, usize)>)
    ensures
        score_views(lengths@) == road_lengths(road_views(roads@), roster_keys(*players)),
{
    let ghost wanted = road_lengths(road_views(roads@), roster_keys(*players));
    let mut lengths: Vec<(String, usize)> = Vec::new();
    let mut i: usize = 0;
    while i < players.list.len()
        invariant
            i <= players.list.len(),
            wanted == road_lengths(road_views(roads@), roster_keys(*players)),
            lengths.len() == i,
            forall|j: int| 0 <= j < i ==> (#[trigger] score_views(lengths@)[j]) == wanted[j],
        decreases players.list.len() - i,
    {
        let key = players.list[i].key.clone();
        let owned = roads_of(roads, &key);
        let length = find_max_road_length(owned);
        let ghost before = lengths@;
        lengths.push((key, length));
        proof {
            assert(score_views(lengths@) =~= score_views(before).push((key@, length as nat)));
            assert forall|j: int| 0 <= j < i + 1 implies (#[trigger] score_views(lengths@)[j])
                == wanted[j] by {
                if j < i {
                    assert(score_views(before)[j] == wanted[j]);
                }
            }
        }
        i += 1;
    }
    proof {
        assert(score_views(lengths@) =~= wanted);
    }
    lengths
}

/// Who has the longest road, given the roads and who held the title before.
pub fn find_longest_road(roads: &[Road], players: &Players, title_holder: &Option<String>) -> (holder:
    Option<String>)
    ensures
        optional_key_view(holder) == title_after(
            road_lengths(road_views(roads@), roster_keys(*players)),
            optional_key_view(*title_holder),
        ),
{
    let lengths = get_road_lengths(roads, players);
    award_title(&lengths, title_holder)
}

} // verus!
