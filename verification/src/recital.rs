//! The order in which a cast speaks. Every line that is left to a member of
//! the cast is spoken once; lines go by line number, lines of one number by
//! the place of their speaker in the cast, and lines of one speaker in the
//! order of its dialogue.

use crate::cue::CueView;
use crate::diagnostics::WarningView;
use crate::order::{lemma_stable_sort_exists, precedes, stable_sorted, stable_witness};
use crate::player::{line_number, PlayerView};
use vstd::prelude::*;

verus! {

/// One line of one member of a cast: line `line` of the dialogue of member
/// `speaker`.
pub struct Turn {
    pub speaker: int,
    pub line: int,
}

/// Whether `t` is a line of the cast that is left to speak.
pub open spec fn is_pending(cast: Seq<PlayerView>, t: Turn) -> bool {
    &&& 0 <= t.speaker < cast.len()
    &&& cast[t.speaker].cursor <= t.line < cast[t.speaker].lines.len()
}

/// The line number of turn `t`.
pub open spec fn number_at(cast: Seq<PlayerView>, t: Turn) -> int {
    cast[t.speaker].lines[t.line].0 as int
}

/// Whether turn `a` is spoken before turn `b`: by line number, then by the
/// speaker's place in the cast, then by the line's place in the dialogue.
pub open spec fn speaks_before(cast: Seq<PlayerView>, a: Turn, b: Turn) -> bool {
    ||| number_at(cast, a) < number_at(cast, b)
    ||| number_at(cast, a) == number_at(cast, b) && a.speaker < b.speaker
    ||| number_at(cast, a) == number_at(cast, b) && a.speaker == b.speaker && a.line < b.line
}

/// Whether `turns` is the order in which the cast speaks: it holds pending
/// lines only, holds every pending line, and each of its turns is spoken
/// before all that follow it.
pub open spec fn is_running_order(cast: Seq<PlayerView>, turns: Seq<Turn>) -> bool {
    &&& forall|u: int| 0 <= u < turns.len() ==> is_pending(cast, #[trigger] turns[u])
    &&& forall|t: Turn| is_pending(cast, t) ==> #[trigger] turns.contains(t)
    &&& forall|u: int, v: int|
        0 <= u < v < turns.len() ==> speaks_before(cast, #[trigger] turns[u], #[trigger] turns[v])
}

/// The order in which the cast speaks.
pub open spec fn running_order(cast: Seq<PlayerView>) -> Seq<Turn> {
    choose|turns: Seq<Turn>| is_running_order(cast, turns)
}

/// The name of the speaker of the last of `turns`; empty before any turn.
pub open spec fn last_speaker(cast: Seq<PlayerView>, turns: Seq<Turn>) -> Seq<char> {
    if turns.len() == 0 {
        Seq::empty()
    } else {
        cast[turns.last().speaker].name
    }
}

/// What the turn `t` adds to a transcript whose last speaker was `recent`.
pub open spec fn turn_cues(cast: Seq<PlayerView>, t: Turn, recent: Seq<char>) -> Seq<CueView> {
    let line = seq![CueView::Line(cast[t.speaker].lines[t.line].1)];
    if recent != cast[t.speaker].name {
        seq![CueView::Blank, CueView::Speaker(cast[t.speaker].name)] + line
    } else {
        line
    }
}

/// The transcript of `turns`: the text of each line, under a heading with
/// the speaker's name wherever the speaker's name differs from that of the
/// turn before. The first turn has a heading unless the name is empty.
pub open spec fn spoken(cast: Seq<PlayerView>, turns: Seq<Turn>) -> Seq<CueView>
    decreases turns.len(),
{
    if turns.len() == 0 {
        Seq::empty()
    } else {
        spoken(cast, turns.drop_last()) + turn_cues(
            cast,
            turns.last(),
            last_speaker(cast, turns.drop_last()),
        )
    }
}

/// The cast after every pending line was spoken: each cursor that stood
/// before the end of its dialogue stands at the end.
pub open spec fn all_spoken(cast: Seq<PlayerView>) -> Seq<PlayerView> {
    cast.map_values(
        |p: PlayerView|
            if p.has_next() {
                PlayerView { cursor: p.lines.len() as usize, ..p }
            } else {
                p
            },
    )
}

/// The line numbers of a player's dialogue, in dialogue order.
pub open spec fn line_numbers(p: PlayerView) -> Seq<usize> {
    p.lines.map_values(|l: (usize, Seq<char>)| l.0)
}

/// The line numbers of a cast: those of its first member, then those of its
/// second, and so on.
pub open spec fn all_numbers(cast: Seq<PlayerView>) -> Seq<usize>
    decreases cast.len(),
{
    if cast.len() == 0 {
        Seq::empty()
    } else {
        all_numbers(cast.drop_last()) + line_numbers(cast.last())
    }
}

/// One warning for each number that occurs earlier in `numbers` too.
pub open spec fn duplicate_warnings(numbers: Seq<usize>) -> Seq<WarningView>
    decreases numbers.len(),
{
    if numbers.len() == 0 {
        Seq::empty()
    } else {
        duplicate_warnings(numbers.drop_last()) + if numbers.drop_last().contains(numbers.last()) {
            seq![WarningView::DuplicateLine(numbers.last())]
        } else {
            Seq::empty()
        }
    }
}

/// The warnings that reciting a cast raises: one for each line whose number
/// an earlier line bears, then one if the cast has lines and none is
/// numbered 0.
pub open spec fn recital_warnings(cast: Seq<PlayerView>) -> Seq<WarningView> {
    duplicate_warnings(all_numbers(cast)) + if all_numbers(cast).len() > 0 && !all_numbers(
        cast,
    ).contains(0) {
        seq![WarningView::FirstLineNotZero]
    } else {
        Seq::empty()
    }
}

proof fn lemma_running_orders_agree(
    cast: Seq<PlayerView>,
    t1: Seq<Turn>,
    t2: Seq<Turn>,
    k: int,
)
    requires
        is_running_order(cast, t1),
        is_running_order(cast, t2),
        0 <= k <= t1.len(),
        k <= t2.len(),
    ensures
        forall|u: int| 0 <= u < k ==> t1[u] == t2[u],
    decreases k,
{
    if k > 0 {
        lemma_running_orders_agree(cast, t1, t2, k - 1);
        let m = k - 1;
        let a = t1[m];
        let b = t2[m];
        if a != b {
            assert(is_pending(cast, a));
            assert(is_pending(cast, b));
            assert(t2.contains(a));
            assert(t1.contains(b));
            let w = choose|w: int| 0 <= w < t2.len() && t2[w] == a;
            let x = choose|x: int| 0 <= x < t1.len() && t1[x] == b;
            if w < m {
                assert(t1[w] == a);
                assert(speaks_before(cast, t1[w], t1[m]));
            } else if x < m {
                assert(t2[x] == b);
                assert(speaks_before(cast, t2[x], t2[m]));
            } else {
                assert(speaks_before(cast, t2[m], t2[w]));
                assert(speaks_before(cast, t1[m], t1[x]));
            }
        }
    }
}

/// A cast has no more than one running order.
pub proof fn lemma_running_order_unique(cast: Seq<PlayerView>, t1: Seq<Turn>, t2: Seq<Turn>)
    requires
        is_running_order(cast, t1),
        is_running_order(cast, t2),
    ensures
        t1 == t2,
{
    let k = if t1.len() <= t2.len() {
        t1.len() as int
    } else {
        t2.len() as int
    };
    lemma_running_orders_agree(cast, t1, t2, k);
    if t1.len() < t2.len() {
        let extra = t2[k];
        assert(is_pending(cast, extra));
        assert(t1.contains(extra));
        let w = choose|w: int| 0 <= w < t1.len() && t1[w] == extra;
        assert(t2[w] == extra);
        assert(speaks_before(cast, t2[w], t2[k]));
    }
    if t2.len() < t1.len() {
        let extra = t1[k];
        assert(is_pending(cast, extra));
        assert(t2.contains(extra));
        let w = choose|w: int| 0 <= w < t2.len() && t2[w] == extra;
        assert(t1[w] == extra);
        assert(speaks_before(cast, t1[w], t1[k]));
    }
    assert(t1 =~= t2);
}

/// Whatever is a running order of the cast is `running_order(cast)`.
pub proof fn lemma_running_order_is(cast: Seq<PlayerView>, turns: Seq<Turn>)
    requires
        is_running_order(cast, turns),
    ensures
        turns == running_order(cast),
{
    lemma_running_order_unique(cast, turns, running_order(cast));
}

/// The pending lines of one member, in the order of its dialogue.
pub open spec fn member_turns(p: PlayerView, speaker: int) -> Seq<Turn> {
    if p.has_next() {
        Seq::new(
            (p.lines.len() - p.cursor) as nat,
            |j: int| Turn { speaker, line: p.cursor + j },
        )
    } else {
        Seq::empty()
    }
}

/// The pending lines of the first `k` members of the cast, member by member.
pub open spec fn pending_turns(cast: Seq<PlayerView>, k: int) -> Seq<Turn>
    decreases k,
{
    if k <= 0 {
        Seq::empty()
    } else {
        pending_turns(cast, k - 1) + member_turns(cast[k - 1], k - 1)
    }
}

/// Whether turn `a` stands before turn `b` in the cast: by the speaker's
/// place, then by the line's place in the dialogue.
pub open spec fn stands_before(a: Turn, b: Turn) -> bool {
    a.speaker < b.speaker || (a.speaker == b.speaker && a.line < b.line)
}

/// The line number of a turn of the cast, as a key to sort by.
pub open spec fn turn_number(cast: Seq<PlayerView>) -> spec_fn(Turn) -> int {
    |t: Turn| number_at(cast, t)
}

proof fn lemma_pending_turns(cast: Seq<PlayerView>, k: int)
    requires
        0 <= k <= cast.len(),
    ensures
        forall|u: int|
            0 <= u < pending_turns(cast, k).len() ==> is_pending(
                cast,
                #[trigger] pending_turns(cast, k)[u],
            ) && pending_turns(cast, k)[u].speaker < k,
        forall|t: Turn|
            is_pending(cast, t) && t.speaker < k ==> #[trigger] pending_turns(cast, k).contains(t),
        forall|u: int, v: int|
            0 <= u < v < pending_turns(cast, k).len() ==> stands_before(
                #[trigger] pending_turns(cast, k)[u],
                #[trigger] pending_turns(cast, k)[v],
            ),
    decreases k,
{
    if k > 0 {
        lemma_pending_turns(cast, k - 1);
        let before = pending_turns(cast, k - 1);
        let own = member_turns(cast[k - 1], k - 1);
        let all = pending_turns(cast, k);
        assert(all == before + own);
        assert forall|u: int| 0 <= u < all.len() implies is_pending(cast, #[trigger] all[u])
            && all[u].speaker < k by {
            if u < before.len() {
                assert(all[u] == before[u]);
            } else {
                assert(all[u] == own[u - before.len()]);
            }
        }
        assert forall|t: Turn| is_pending(cast, t) && t.speaker < k implies #[trigger] all.contains(
            t,
        ) by {
            if t.speaker < k - 1 {
                assert(before.contains(t));
                let u = choose|u: int| 0 <= u < before.len() && before[u] == t;
                assert(all[u] == t);
            } else {
                let j = t.line - cast[k - 1].cursor;
                assert(own[j] == t);
                assert(all[before.len() + j] == t);
            }
        }
        assert forall|u: int, v: int| 0 <= u < v < all.len() implies stands_before(
            #[trigger] all[u],
            #[trigger] all[v],
        ) by {
            if v < before.len() {
                assert(all[u] == before[u] && all[v] == before[v]);
            } else if u < before.len() {
                assert(all[u] == before[u]);
                assert(all[v] == own[v - before.len()]);
            } else {
                assert(all[u] == own[u - before.len()]);
                assert(all[v] == own[v - before.len()]);
            }
        }
    }
}

/// Every cast has a running order: its pending lines, taken member by
/// member and sorted stably by line number.
pub proof fn lemma_running_order_exists(cast: Seq<PlayerView>)
    ensures
        is_running_order(cast, running_order(cast)),
        running_order(cast) == stable_sorted(
            pending_turns(cast, cast.len() as int),
            turn_number(cast),
        ),
{
    let flat = pending_turns(cast, cast.len() as int);
    let key = turn_number(cast);
    lemma_pending_turns(cast, cast.len() as int);
    lemma_stable_sort_exists(flat, key);
    let turns = stable_sorted(flat, key);
    let p = choose|p: Seq<int>| stable_witness(turns, flat, key, p);
    assert forall|u: int| 0 <= u < turns.len() implies is_pending(cast, #[trigger] turns[u]) by {
        assert(turns[u] == flat[p[u]]);
    }
    assert forall|t: Turn| is_pending(cast, t) implies #[trigger] turns.contains(t) by {
        assert(flat.contains(t));
        let a = choose|a: int| 0 <= a < flat.len() && flat[a] == t;
        assert(p.contains(a));
        let u = choose|u: int| 0 <= u < p.len() && p[u] == a;
        assert(turns[u] == t);
    }
    assert forall|u: int, v: int| 0 <= u < v < turns.len() implies speaks_before(
        cast,
        #[trigger] turns[u],
        #[trigger] turns[v],
    ) by {
        assert(precedes(key(flat[p[u]]), p[u], key(flat[p[v]]), p[v]));
        assert(turns[u] == flat[p[u]] && turns[v] == flat[p[v]]);
        if p[u] < p[v] {
            assert(stands_before(flat[p[u]], flat[p[v]]));
        }
    }
    assert(is_running_order(cast, turns));
    lemma_running_order_is(cast, turns);
}

/// In a running order every pending line of every member is spoken exactly
/// once, line numbers never descend, and lines of one number are spoken in
/// the order of the cast, those of one member in the order of its dialogue.
pub proof fn lemma_running_order_speaks_each_line_once(cast: Seq<PlayerView>, turns: Seq<Turn>)
    requires
        is_running_order(cast, turns),
    ensures
        turns.no_duplicates(),
        forall|t: Turn| turns.contains(t) <==> is_pending(cast, t),
        forall|u: int, v: int|
            0 <= u < v < turns.len() ==> number_at(cast, #[trigger] turns[u]) <= number_at(
                cast,
                #[trigger] turns[v],
            ),
        forall|u: int, v: int|
            0 <= u < v < turns.len() && number_at(cast, #[trigger] turns[u]) == number_at(
                cast,
                #[trigger] turns[v],
            ) ==> turns[u].speaker < turns[v].speaker || (turns[u].speaker == turns[v].speaker
                && turns[u].line < turns[v].line),
{
    assert forall|u: int, v: int| 0 <= u < turns.len() && 0 <= v < turns.len() && u != v implies
        turns[u] != turns[v] by {
        if u < v {
            assert(speaks_before(cast, turns[u], turns[v]));
        } else {
            assert(speaks_before(cast, turns[v], turns[u]));
        }
    }
    assert forall|u: int, v: int| 0 <= u < v < turns.len() implies number_at(
        cast,
        #[trigger] turns[u],
    ) <= number_at(cast, #[trigger] turns[v]) by {
        assert(speaks_before(cast, turns[u], turns[v]));
    }
    assert forall|u: int, v: int|
        0 <= u < v < turns.len() && number_at(cast, #[trigger] turns[u]) == number_at(
            cast,
            #[trigger] turns[v],
        ) implies turns[u].speaker < turns[v].speaker || (turns[u].speaker == turns[v].speaker
        && turns[u].line < turns[v].line) by {
        assert(speaks_before(cast, turns[u], turns[v]));
    }
}

/// Whether the dialogue of every member ascends by line number.
pub open spec fn cast_in_order(cast: Seq<PlayerView>) -> bool {
    forall|i: int| 0 <= i < cast.len() ==> (#[trigger] cast[i]).in_order()
}

/// Whether call `a` may stand before call `b` on a call sheet: by line
/// number, then by the member's place in the cast.
pub open spec fn calls_no_later(a: (usize, usize), b: (usize, usize)) -> bool {
    a.0 < b.0 || (a.0 == b.0 && a.1 <= b.1)
}

/// Whether `sheet` is the call sheet of the cast: one call, line number and
/// member, for each line of each member, in the order of line numbers and,
/// for one line number, of the members.
pub open spec fn is_call_sheet(cast: Seq<PlayerView>, sheet: Seq<(usize, usize)>) -> bool {
    &&& forall|u: int| 0 <= u < sheet.len() ==> (#[trigger] sheet[u]).1 < cast.len()
    &&& forall|u: int, v: int|
        0 <= u < v < sheet.len() ==> calls_no_later(#[trigger] sheet[u], #[trigger] sheet[v])
    &&& forall|i: int, j: int|
        0 <= i < cast.len() && 0 <= j < cast[i].lines.len() ==> #[trigger] has_call(
            sheet,
            cast[i].lines[j].0,
            i,
        )
}

/// Whether the sheet calls `member` at line number `number`.
pub open spec fn has_call(sheet: Seq<(usize, usize)>, number: usize, member: int) -> bool {
    exists|u: int| 0 <= u < sheet.len() && (#[trigger] sheet[u]).0 == number && sheet[u].1 == member
}

/// Whether the player has spoken all its lines up to line number `number`.
pub open spec fn passed(p: PlayerView, number: usize) -> bool {
    !p.has_next() || p.lines[p.cursor as int].0 > number
}

/// Whether the player's next line is due at line number `number`.
pub open spec fn due(p: PlayerView, number: usize) -> bool {
    p.has_next() && p.lines[p.cursor as int].0 <= number
}

/// Whether every member has answered the first `t` calls of the sheet.
pub open spec fn called(now: Seq<PlayerView>, sheet: Seq<(usize, usize)>, t: int) -> bool {
    forall|u: int| 0 <= u < t ==> passed(now[(#[trigger] sheet[u]).1 as int], sheet[u].0)
}

/// Whether turn `t` is spoken no later than the call `entry` asks.
pub open spec fn not_after(cast: Seq<PlayerView>, t: Turn, entry: (usize, usize)) -> bool {
    number_at(cast, t) < entry.0 || (number_at(cast, t) == entry.0 && t.speaker <= entry.1)
}

/// Whether all of `turns` are spoken no later than the call `entry` asks.
pub open spec fn behind(cast: Seq<PlayerView>, turns: Seq<Turn>, entry: (usize, usize)) -> bool {
    forall|x: int| 0 <= x < turns.len() ==> not_after(cast, #[trigger] turns[x], entry)
}

/// Whether a recital that began with the cast as `cast` stands at `now`
/// after `turns`: only cursors have moved, and only forward; `turns` holds
/// in speaking order the pending lines that the cursors have passed.
pub open spec fn progress(cast: Seq<PlayerView>, now: Seq<PlayerView>, turns: Seq<Turn>) -> bool {
    &&& now.len() == cast.len()
    &&& forall|i: int|
        0 <= i < cast.len() ==> {
            &&& (#[trigger] now[i]).name == cast[i].name
            &&& now[i].lines == cast[i].lines
            &&& now[i].cursor >= cast[i].cursor
            &&& (now[i].cursor == cast[i].cursor || now[i].cursor <= cast[i].lines.len())
        }
    &&& forall|x: int|
        0 <= x < turns.len() ==> is_pending(cast, #[trigger] turns[x]) && turns[x].line
            < now[turns[x].speaker].cursor
    &&& forall|x: int, y: int|
        0 <= x < y < turns.len() ==> speaks_before(cast, #[trigger] turns[x], #[trigger] turns[y])
    &&& forall|i: int, j: int|
        0 <= i < cast.len() && cast[i].cursor <= j < now[i].cursor && j < cast[i].lines.len()
            ==> #[trigger] turns.contains(Turn { speaker: i, line: j })
}

/// A member that is due at call `t` speaks a line of exactly the number
/// called, and the recital goes on from there.
pub proof fn lemma_speak_step(
    cast: Seq<PlayerView>,
    now: Seq<PlayerView>,
    turns: Seq<Turn>,
    sheet: Seq<(usize, usize)>,
    t: int,
)
    requires
        cast_in_order(cast),
        is_call_sheet(cast, sheet),
        0 <= t < sheet.len(),
        progress(cast, now, turns),
        called(now, sheet, t),
        behind(cast, turns, sheet[t]),
        due(now[sheet[t].1 as int], sheet[t].0),
        now[sheet[t].1 as int].cursor < usize::MAX,
    ensures
        ({
            let i = sheet[t].1 as int;
            let turn = Turn { speaker: i, line: now[i].cursor as int };
            let after = now.update(i, now[i].advanced());
            &&& number_at(cast, turn) == sheet[t].0
            &&& progress(cast, after, turns.push(turn))
            &&& called(after, sheet, t)
            &&& behind(cast, turns.push(turn), sheet[t])
            &&& spoken(cast, turns.push(turn)) == spoken(cast, turns) + now[i].utterance(
                last_speaker(cast, turns),
            )
            &&& last_speaker(cast, turns.push(turn)) == now[i].name
        }),
{
    let i = sheet[t].1 as int;
    let c = now[i].cursor as int;
    let target = sheet[t].0;
    let turn = Turn { speaker: i, line: c };
    let after = now.update(i, now[i].advanced());
    let longer = turns.push(turn);
    let n = cast[i].lines[c].0;
    assert(now[i].lines == cast[i].lines);
    // the line spoken bears the number called
    assert(n == target) by {
        if n < target {
            assert(has_call(sheet, cast[i].lines[c].0, i));
            let u = choose|u: int|
                0 <= u < sheet.len() && (#[trigger] sheet[u]).0 == n && sheet[u].1 == i;
            if u > t {
                assert(calls_no_later(sheet[t], sheet[u]));
            }
            assert(u < t);
            assert(passed(now[sheet[u].1 as int], sheet[u].0));
        }
    }
    assert(is_pending(cast, turn));
    assert(cast[i].in_order());
    assert forall|k: int| 0 <= k < after.len() implies {
        &&& (#[trigger] after[k]).name == cast[k].name
        &&& after[k].lines == cast[k].lines
        &&& after[k].cursor >= cast[k].cursor
        &&& (after[k].cursor == cast[k].cursor || after[k].cursor <= cast[k].lines.len())
    } by {
        assert(now[k].name == cast[k].name);
    }
    assert forall|x: int| 0 <= x < longer.len() implies is_pending(cast, #[trigger] longer[x])
        && longer[x].line < after[longer[x].speaker].cursor by {
        if x < turns.len() {
            assert(longer[x] == turns[x]);
            assert(is_pending(cast, turns[x]));
        }
    }
    assert forall|x: int, y: int| 0 <= x < y < longer.len() implies speaks_before(
        cast,
        #[trigger] longer[x],
        #[trigger] longer[y],
    ) by {
        assert(longer[x] == turns[x]);
        if y < turns.len() {
            assert(longer[y] == turns[y]);
        } else {
            assert(not_after(cast, turns[x], sheet[t]));
            assert(is_pending(cast, turns[x]));
        }
    }
    assert forall|k: int, j: int|
        0 <= k < cast.len() && cast[k].cursor <= j < after[k].cursor && j < cast[k].lines.len()
        implies #[trigger] longer.contains(Turn { speaker: k, line: j }) by {
        let wanted = Turn { speaker: k, line: j };
        if k == i && j == c {
            assert(longer[turns.len() as int] == wanted);
        } else {
            assert(now[k].name == cast[k].name);
            assert(turns.contains(wanted));
            let x = choose|x: int| 0 <= x < turns.len() && turns[x] == wanted;
            assert(longer[x] == wanted);
        }
    }
    assert(progress(cast, after, longer));
    assert forall|u: int| 0 <= u < t implies passed(
        after[(#[trigger] sheet[u]).1 as int],
        sheet[u].0,
    ) by {
        let k = sheet[u].1 as int;
        assert(passed(now[k], sheet[u].0));
        if k == i && after[i].has_next() {
            assert(line_number()(cast[i].lines[c]) <= line_number()(cast[i].lines[c + 1]));
        }
    }
    assert forall|x: int| 0 <= x < longer.len() implies not_after(
        cast,
        #[trigger] longer[x],
        sheet[t],
    ) by {
        if x < turns.len() {
            assert(longer[x] == turns[x]);
            assert(not_after(cast, turns[x], sheet[t]));
        }
    }
    assert(longer.drop_last() =~= turns);
    assert(longer.last() == turn);
    assert(turn_cues(cast, turn, last_speaker(cast, turns)) =~= now[i].utterance(
        last_speaker(cast, turns),
    ));
}

/// Once the member called at `t` has passed the number called, the recital
/// stands before call `t + 1`.
pub proof fn lemma_next_call(
    cast: Seq<PlayerView>,
    now: Seq<PlayerView>,
    turns: Seq<Turn>,
    sheet: Seq<(usize, usize)>,
    t: int,
)
    requires
        is_call_sheet(cast, sheet),
        0 <= t < sheet.len(),
        called(now, sheet, t),
        passed(now[sheet[t].1 as int], sheet[t].0),
        behind(cast, turns, sheet[t]),
    ensures
        called(now, sheet, t + 1),
        t + 1 < sheet.len() ==> behind(cast, turns, sheet[t + 1]),
{
    if t + 1 < sheet.len() {
        assert(calls_no_later(sheet[t], sheet[t + 1]));
        assert forall|x: int| 0 <= x < turns.len() implies not_after(
            cast,
            #[trigger] turns[x],
            sheet[t + 1],
        ) by {
            assert(not_after(cast, turns[x], sheet[t]));
        }
    }
}

/// When every call of the sheet is answered, the turns taken are the
/// running order of the cast, and every pending line is spoken.
pub proof fn lemma_recital_done(
    cast: Seq<PlayerView>,
    now: Seq<PlayerView>,
    turns: Seq<Turn>,
    sheet: Seq<(usize, usize)>,
)
    requires
        is_call_sheet(cast, sheet),
        progress(cast, now, turns),
        called(now, sheet, sheet.len() as int),
    ensures
        is_running_order(cast, turns),
        now == all_spoken(cast),
{
    assert forall|i: int| 0 <= i < cast.len() implies !(#[trigger] now[i]).has_next() by {
        if now[i].has_next() {
            let c = now[i].cursor as int;
            assert(now[i].lines == cast[i].lines);
            assert(has_call(sheet, cast[i].lines[c].0, i));
            let u = choose|u: int|
                0 <= u < sheet.len() && (#[trigger] sheet[u]).0 == cast[i].lines[c].0
                    && sheet[u].1 == i;
            assert(passed(now[sheet[u].1 as int], sheet[u].0));
        }
    }
    assert forall|t: Turn| is_pending(cast, t) implies #[trigger] turns.contains(t) by {
        assert(!now[t.speaker].has_next());
        assert(turns.contains(Turn { speaker: t.speaker, line: t.line }));
    }
    let done = all_spoken(cast);
    assert forall|i: int| 0 <= i < cast.len() implies now[i] == done[i] by {
        assert(!now[i].has_next());
        assert(now[i].name == cast[i].name);
    }
    assert(now =~= done);
}

} // verus!
