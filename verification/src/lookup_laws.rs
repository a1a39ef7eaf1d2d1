//! What texts and paths are made of, and what the smaller lookups find.

use vstd::prelude::*;

use crate::adapter_wire;
use crate::adoption;
use crate::adoption::FileFacts;
use crate::attachment;
use crate::deck_laws;
use crate::keyed;
use crate::listing;
use crate::opencode_adapter;
use crate::paths;
use crate::plans;
use crate::plans::PlanFacts;
use crate::plans::PlanRow;
use crate::policy;
use crate::policy::Principal;
use crate::policy_queries;
use crate::policy_state;
use crate::policy_state::PolicyState;
use crate::policy_state::PrincipalView;
use crate::projection;
use crate::projection::SprintFacts;
use crate::projection::SprintRow;
use crate::ranking;
use crate::rule_laws;
use crate::search_index;
use crate::search_index::Document;
use crate::tables;
use crate::tables::BoardRow;
use crate::tables::Registry;
use crate::text;
use crate::transfer;
use crate::transfer::TransferBoard;
use crate::workspace;
use crate::workspace::WorkspaceRecord;
use crate::workspace_ops;

verus! {

// ---------------------------------------------------------------------------- texts

/// A text without white space at its ends is a part of it: all before and all behind that
/// part is white space, and the part neither begins nor ends with any.
pub proof fn law_trimmed_text_is_the_middle(s: Seq<char>) -> (at: int)
    ensures
        ({
            let t = text::trimmed(s);
            &&& 0 <= at && at + t.len() <= s.len()
            &&& t == s.subrange(at, at + t.len())
            &&& forall|i: int| 0 <= i < at ==> text::is_white_space(#[trigger] s[i])
            &&& forall|i: int| at + t.len() <= i < s.len() ==> text::is_white_space(#[trigger] s[i])
            &&& t.len() > 0 ==> !text::is_white_space(t[0]) && !text::is_white_space(t.last())
        }),
{
    let front = text::trimmed_start(s);
    let at = lemma_start(s);
    let n = lemma_end(front);
    let t = text::trimmed(s);
    assert(t =~= s.subrange(at, at + t.len()));
    assert forall|i: int| at + t.len() <= i < s.len() implies text::is_white_space(
        #[trigger] s[i],
    ) by {
        assert(front[i - at] == s[i]);
    }
    if t.len() > 0 {
        assert(t[0] == front[0]);
    }
    at
}

proof fn lemma_start(s: Seq<char>) -> (at: int)
    ensures
        0 <= at <= s.len(),
        text::trimmed_start(s) == s.skip(at),
        forall|i: int| 0 <= i < at ==> text::is_white_space(#[trigger] s[i]),
        at < s.len() ==> !text::is_white_space(s[at]),
    decreases s.len(),
{
    if s.len() > 0 && text::is_white_space(s[0]) {
        let rest = s.skip(1);
        let at = lemma_start(rest);
        assert(rest.skip(at) =~= s.skip(at + 1));
        assert forall|i: int| 0 <= i < at + 1 implies text::is_white_space(#[trigger] s[i]) by {
            if i > 0 {
                assert(rest[i - 1] == s[i]);
            }
        }
        if at + 1 < s.len() {
            assert(rest[at] == s[at + 1]);
        }
        at + 1
    } else {
        assert(s.skip(0) =~= s);
        0
    }
}

proof fn lemma_end(s: Seq<char>) -> (n: int)
    ensures
        0 <= n <= s.len(),
        text::trimmed_end(s) == s.take(n),
        forall|i: int| n <= i < s.len() ==> text::is_white_space(#[trigger] s[i]),
        n > 0 ==> !text::is_white_space(s[n - 1]),
    decreases s.len(),
{
    if s.len() > 0 && text::is_white_space(s.last()) {
        let rest = s.drop_last();
        let n = lemma_end(rest);
        assert(rest.take(n) =~= s.take(n));
        assert forall|i: int| n <= i < s.len() implies text::is_white_space(#[trigger] s[i]) by {
            if i < rest.len() {
                assert(rest[i] == s[i]);
            }
        }
        if n > 0 {
            assert(rest[n - 1] == s[n - 1]);
        }
        n
    } else {
        assert(s.take(s.len() as int) =~= s);
        s.len() as int
    }
}

/// A number in digits is read back as that number, and has no zero in front.
pub proof fn law_digits_are_read_back(n: nat)
    ensures
        opencode_adapter::all_digits(text::digits(n)),
        opencode_adapter::number_of(text::digits(n)) == n,
        n > 0 ==> text::digits(n)[0] != '0',
    decreases n,
{
    let s = text::digits(n);
    if n < 10 {
        let none = s.drop_last();
        assert(none.len() == 0);
        assert(opencode_adapter::number_of(none) == 0);
        assert(s.last() == text::digit_char(n));
    } else {
        law_digits_are_read_back(n / 10);
        let front = text::digits(n / 10);
        assert(s.drop_last() =~= front);
        assert(s.last() == text::digit_char(n % 10));
        assert forall|i: int| 0 <= i < s.len() implies opencode_adapter::is_digit(
            #[trigger] s[i],
        ) by {
            if i < front.len() {
                assert(s[i] == front[i]);
            }
        }
        assert(s[0] == front[0]);
    }
}

// ---------------------------------------------------------------------------- paths

/// What stands between two such signs, or between one and an end.
pub open spec fn is_segment(s: Seq<char>, c: char, i: int, j: int) -> bool {
    &&& 0 <= i <= j <= s.len()
    &&& forall|k: int| i <= k < j ==> #[trigger] s[k] != c
    &&& i > 0 ==> s[i - 1] == c
    &&& j < s.len() ==> s[j] == c
}

pub open spec fn has_segment(s: Seq<char>, c: char, piece: Seq<char>) -> bool {
    exists|i: int, j: int| #[trigger] is_segment(s, c, i, j) && s.subrange(i, j) == piece
}

/// Splitting a text gives just what stands between the signs it is split on.
pub proof fn law_split_gives_the_segments(s: Seq<char>, c: char, piece: Seq<char>)
    ensures
        text::split_on(s, c).contains(piece) <==> has_segment(s, c, piece),
    decreases s.len(),
{
    text::lemma_find_char(s, c);
    let b = text::find_char(s, c);
    let all = text::split_on(s, c);
    if b < s.len() {
        let rest = s.skip(b + 1);
        let more = text::split_on(rest, c);
        law_split_gives_the_segments(rest, c, piece);
        assert(all[0] == s.take(b));
        assert(forall|k: int| 0 <= k < more.len() ==> all[k + 1] == more[k]);
        assert(is_segment(s, c, 0, b));
        assert(s.subrange(0, b) =~= s.take(b));
        if all.contains(piece) {
            let k = choose|k: int| 0 <= k < all.len() && all[k] == piece;
            if k > 0 {
                assert(more[k - 1] == piece);
                assert(more.contains(piece));
                let (i, j) = choose|i: int, j: int| #[trigger]
                    is_segment(rest, c, i, j) && rest.subrange(i, j) == piece;
                assert(is_segment(s, c, b + 1 + i, b + 1 + j)) by {
                    assert forall|k: int| b + 1 + i <= k < b + 1 + j implies #[trigger] s[k]
                        != c by {
                        assert(rest[k - b - 1] != c);
                    }
                    if i > 0 {
                        assert(rest[i - 1] == s[b + i]);
                    }
                    if j < rest.len() {
                        assert(rest[j] == s[b + 1 + j]);
                    }
                }
                assert(s.subrange(b + 1 + i, b + 1 + j) =~= rest.subrange(i, j));
            }
        }
        if has_segment(s, c, piece) {
            let (i, j) = choose|i: int, j: int| #[trigger]
                is_segment(s, c, i, j) && s.subrange(i, j) == piece;
            if i <= b {
                if i > 0 {
                    assert(s[i - 1] != c);
                }
                assert(i == 0);
                if j < b {
                    assert(s[j] != c);
                }
                if j > b {
                    assert(s[b] != c);
                }
                assert(all[0] == piece);
            } else {
                let x = i - b - 1;
                let y = j - b - 1;
                assert(is_segment(rest, c, x, y)) by {
                    assert forall|k: int| x <= k < y implies #[trigger] rest[k] != c by {
                        assert(s[k + b + 1] != c);
                    }
                    if x > 0 {
                        assert(rest[x - 1] == s[i - 1]);
                    }
                    if y < rest.len() {
                        assert(rest[y] == s[j]);
                    }
                }
                assert(rest.subrange(x, y) =~= s.subrange(i, j));
                assert(more.contains(piece));
                let k = choose|k: int| 0 <= k < more.len() && more[k] == piece;
                assert(all[k + 1] == piece);
            }
        }
    } else {
        assert(all[0] == s);
        assert(is_segment(s, c, 0, s.len() as int));
        assert(s.subrange(0, s.len() as int) =~= s);
        if has_segment(s, c, piece) {
            let (i, j) = choose|i: int, j: int| #[trigger]
                is_segment(s, c, i, j) && s.subrange(i, j) == piece;
            if i > 0 {
                assert(s[i - 1] != c);
            }
            if j < s.len() {
                assert(s[j] != c);
            }
            assert(all[0] == piece);
        }
    }
}

/// A path climbs if and only if two dots stand alone between slashes.
pub proof fn law_climbing_paths_hold_two_dots(path: Seq<char>)
    ensures
        paths::climbs(path) <==> has_segment(path, '/', seq!['.', '.']),
{
    reveal_strlit("..");
    reveal_strlit(".");
    reveal_strlit("/");
    let dots = seq!['.', '.'];
    assert(".."@ =~= dots);
    law_split_gives_the_segments(path, '/', dots);
    let parts = text::split_on(path, '/');
    let p = paths::is_component();
    let named = tables::kept(parts, p);
    listing::lemma_kept_contains(parts, p, dots);
    assert(dots != "."@) by {
        assert(dots.len() == 2 && "."@.len() == 1);
    }
    let all = paths::components(path);
    if path.len() > 0 && path[0] == '/' {
        assert("/"@ != dots) by {
            assert("/"@.len() == 1);
        }
        if named.contains(dots) {
            let k = choose|k: int| 0 <= k < named.len() && named[k] == dots;
            assert(all[k + 1] == dots);
        }
        if all.contains(dots) {
            let k = choose|k: int| 0 <= k < all.len() && all[k] == dots;
            assert(k > 0);
            assert(named[k - 1] == dots);
        }
    }
}

proof fn lemma_split_last(front: Seq<char>, name: Seq<char>, c: char)
    requires
        forall|i: int| 0 <= i < name.len() ==> #[trigger] name[i] != c,
    ensures
        text::split_on(front + seq![c] + name, c) == text::split_on(front, c).push(name),
    decreases front.len(),
{
    let s = front + seq![c] + name;
    text::lemma_find_char(s, c);
    text::lemma_find_char(front, c);
    let b = text::find_char(s, c);
    let f = text::find_char(front, c);
    assert(s[front.len() as int] == c);
    assert(b <= front.len());
    assert(forall|i: int| 0 <= i < front.len() ==> s[i] == front[i]);
    if f < front.len() {
        assert(b == f) by {
            assert(s[f] == c);
            if b < f {
                assert(front[b] != c);
            }
        }
        let rest = front.skip(f + 1);
        lemma_split_last(rest, name, c);
        assert(s.skip(b + 1) =~= rest + seq![c] + name);
        assert(s.take(b) =~= front.take(f));
        assert(text::split_on(s, c) =~= text::split_on(front, c).push(name));
    } else {
        assert(b == front.len()) by {
            if b < front.len() {
                assert(front[b] == c);
            }
        }
        assert(s.take(b) =~= front);
        assert(s.skip(b + 1) =~= name);
        text::lemma_find_char(name, c);
        assert(text::find_char(name, c) == name.len());
        assert(text::split_on(name, c) =~= seq![name]);
        assert(text::split_on(s, c) =~= text::split_on(front, c).push(name));
    }
}

proof fn lemma_last_dot(name: Seq<char>, tail: Seq<char>)
    requires
        forall|i: int| 0 <= i < tail.len() ==> #[trigger] tail[i] != '.',
    ensures
        paths::last_index(name + seq!['.'] + tail, '.') == name.len(),
    decreases tail.len(),
{
    let s = name + seq!['.'] + tail;
    if tail.len() == 0 {
        assert(s.last() == '.');
    } else {
        assert(s.last() == tail.last());
        assert(tail.last() == tail[tail.len() - 1]);
        lemma_last_dot(name, tail.drop_last());
        assert(s.drop_last() =~= name + seq!['.'] + tail.drop_last());
    }
}

/// A board's id is the name of its file, without the folders and without the ending.
pub proof fn law_board_id_is_the_file_name(folder: Seq<char>, name: Seq<char>, ending: Seq<char>)
    requires
        name.len() > 0,
        forall|i: int| 0 <= i < name.len() ==> #[trigger] name[i] != '/',
        forall|i: int| 0 <= i < ending.len() ==> #[trigger] ending[i] != '/' && ending[i] != '.',
        ending.len() > 0,
    ensures
        paths::board_id(folder + seq!['/'] + name + seq!['.'] + ending) == Some(name),
{
    reveal_strlit("..");
    reveal_strlit(".");
    let file = name + seq!['.'] + ending;
    let path = folder + seq!['/'] + name + seq!['.'] + ending;
    assert(path =~= folder + seq!['/'] + file);
    assert forall|i: int| 0 <= i < file.len() implies #[trigger] file[i] != '/' by {
        if i < name.len() {
            assert(file[i] == name[i]);
        } else if i > name.len() {
            assert(file[i] == ending[i - name.len() - 1]);
        }
    }
    lemma_split_last(folder, file, '/');
    let p = paths::is_component();
    let parts = text::split_on(path, '/');
    assert(parts.drop_last() =~= text::split_on(folder, '/'));
    assert(parts.last() == file);
    assert(file.len() >= 3);
    assert(file != "."@) by {
        assert("."@.len() == 1);
    }
    assert(file != ".."@) by {
        assert(".."@.len() == 2);
    }
    assert(p(file));
    assert(tables::kept(parts, p).last() == file);
    lemma_last_dot(name, ending);
    assert(file.take(name.len() as int) =~= name);
}

// ---------------------------------------------------------------------------- boards

/// Looking a board up by its path finds the board at that path, retired or not as asked for,
/// and nothing only where there is none.
pub proof fn law_board_is_found_by_its_path(reg: Registry, path: Seq<char>, include_archived: bool)
    ensures
        match reg.board_row(path, include_archived) {
            Some(j) => 0 <= j < reg.boards@.len() && reg.boards@[j].board_path@ == path && (
            include_archived || !reg.boards@[j].archived),
            None => reg.wf() ==> forall|k: int|
                0 <= k < reg.boards@.len() && (#[trigger] reg.boards@[k]).board_path@ == path
                    ==> reg.boards@[k].archived && !include_archived,
        },
{
    let q = tables::board_at(path);
    tables::lemma_first_index(reg.boards@, q);
    let i = tables::first_index(reg.boards@, q);
    if i < reg.boards@.len() {
        assert(q(reg.boards@[i]));
    }
    if reg.board_row(path, include_archived) is None && reg.wf() {
        assert forall|k: int|
            0 <= k < reg.boards@.len() && (#[trigger] reg.boards@[k]).board_path@
                == path implies reg.boards@[k].archived && !include_archived by {
            assert(q(reg.boards@[k]));
            if i < k {
                assert(reg.boards@[i].board_path@ != reg.boards@[k].board_path@);
            }
        }
    }
}

/// Touching a board marks it as used and changes nothing else.
pub proof fn law_touched_board_is_used(pre: Registry, post: Registry, j: int, now: i64)
    requires
        workspace_ops::board_used(pre, post, j, now),
        0 <= j < pre.boards@.len(),
    ensures
        post.boards@.len() == pre.boards@.len(),
        post.boards@[j].last_used_at == now,
        post.boards@[j].board_path == pre.boards@[j].board_path,
        post.boards@[j].name == pre.boards@[j].name,
        post.boards@[j].created_at == pre.boards@[j].created_at,
        post.boards@[j].archived == pre.boards@[j].archived,
        post.boards@[j].retirement_id == pre.boards@[j].retirement_id,
        forall|k: int| 0 <= k < pre.boards@.len() && k != j ==> #[trigger] post.boards@[k]
            == pre.boards@[k],
        post.roots == pre.roots && post.history == pre.history && post.rules == pre.rules
            && post.events == pre.events && post.policy == pre.policy,
{
}

/// Of the boards that lead to a path, the one is found whose own path is least; none is found
/// only where none leads there.
pub proof fn law_least_board_leads_to_a_path(
    boards: Seq<BoardRow>,
    targets: Seq<Seq<char>>,
    path: Seq<char>,
    n: int,
)
    requires
        0 <= n <= boards.len() == targets.len(),
    ensures
        match workspace::board_leading_to(boards, targets, path, n) {
            Some(j) => 0 <= j < n && targets[j] == path && forall|k: int|
                0 <= k < n && #[trigger] targets[k] == path ==> !text::text_less(
                    boards[k].board_path@,
                    boards[j].board_path@,
                ),
            None => forall|k: int| 0 <= k < n ==> #[trigger] targets[k] != path,
        },
    decreases n,
{
    if n > 0 {
        law_least_board_leads_to_a_path(boards, targets, path, n - 1);
        let earlier = workspace::board_leading_to(boards, targets, path, n - 1);
        let found = workspace::board_leading_to(boards, targets, path, n);
        if let Some(j) = found {
            assert forall|k: int|
                0 <= k < n && #[trigger] targets[k] == path implies !text::text_less(
                boards[k].board_path@,
                boards[j].board_path@,
            ) by {
                let a = boards[k].board_path@;
                let b = boards[j].board_path@;
                text::lemma_text_order(a, a, a);
                if earlier is Some {
                    let e = boards[earlier->0].board_path@;
                    text::lemma_text_order(a, b, e);
                    text::lemma_text_order(b, e, a);
                    text::lemma_text_order(b, a, e);
                    text::lemma_text_order(a, e, b);
                }
            }
        }
    }
}

/// The roots that are out of reach are just those, in order, whose path leads elsewhere or
/// nowhere; a board without a root is none of them.
pub proof fn law_roots_out_of_reach(
    records: Seq<WorkspaceRecord>,
    leads: Seq<Option<String>>,
)
    requires
        records.len() <= leads.len(),
    ensures
        ({
            let places = attachment::unreachable_places(records, leads);
            &&& forall|i: int|
                0 <= i < places.len() ==> 0 <= #[trigger] places[i] < records.len() && is_lost(
                    records[places[i]],
                    leads[places[i]],
                )
            &&& forall|i: int, j: int|
                0 <= i < j < places.len() ==> #[trigger] places[i] < #[trigger] places[j]
            &&& forall|k: int|
                0 <= k < records.len() && is_lost(#[trigger] records[k], leads[k])
                    ==> places.contains(k)
        }),
    decreases records.len(),
{
    if records.len() > 0 {
        let n = records.len() - 1;
        let rest = records.drop_last();
        law_roots_out_of_reach(rest, leads);
        let before = attachment::unreachable_places(rest, leads);
        let places = attachment::unreachable_places(records, leads);
        assert(forall|k: int| 0 <= k < n ==> rest[k] == records[k]);
        assert forall|i: int| 0 <= i < places.len() implies 0 <= #[trigger] places[i]
            < records.len() && is_lost(records[places[i]], leads[places[i]]) by {
            if i < before.len() {
                assert(places[i] == before[i]);
            }
        }
        assert forall|i: int, j: int| 0 <= i < j < places.len() implies #[trigger] places[i]
            < #[trigger] places[j] by {
            assert(places[i] == before[i]);
            if j < before.len() {
                assert(places[j] == before[j]);
            }
        }
        assert forall|k: int| 0 <= k < records.len() && is_lost(
            #[trigger] records[k],
            leads[k],
        ) implies places.contains(k) by {
            if k < n {
                assert(is_lost(rest[k], leads[k]));
                assert(before.contains(k));
                let i = choose|i: int| 0 <= i < before.len() && before[i] == k;
                assert(places[i] == k);
            } else {
                assert(places[before.len() as int] == k);
            }
        }
    }
}

/// The path of the root leads elsewhere, or nowhere.
pub open spec fn is_lost(w: WorkspaceRecord, lead: Option<String>) -> bool {
    !w.rootless && (lead is None || lead->0@ != w.root_path@)
}

/// The boards of a transfer are just those asked for, by name in order, each with the path of
/// the active board of that name.
pub proof fn law_transfer_boards_are_those_asked_for(
    reg: Registry,
    list: Seq<TransferBoard>,
    names: Seq<Seq<char>>,
    readable: Seq<Seq<char>>,
)
    requires
        reg.are_transfer_boards(list, names),
        reg.transfer_refusal(names, readable) is None,
    ensures
        list.len() == names.len(),
        forall|k: int| 0 <= k < names.len() ==> is_asked_for(list, #[trigger] names[k]),
        forall|i: int|
            0 <= i < list.len() ==> names.contains((#[trigger] list[i]).name@) && is_active_board(
                reg,
                list[i].name@,
                list[i].board_path@,
            ) && readable.contains(list[i].board_path@),
        forall|i: int, j: int|
            0 <= i < j < names.len() ==> #[trigger] names[i] != #[trigger] names[j],
{
    broadcast use vstd::seq_lib::group_to_multiset_ensures;

    let sorted = ranking::sorted_texts(names);
    ranking::law_sorted_texts(names);
    let own = transfer::board_names(list);
    lemma_transfer(reg, names, readable);
    assert(own.len() == list.len());
    assert forall|x: Seq<char>| #[trigger] sorted.contains(x) <==> names.contains(x) by {
        assert(sorted.to_multiset().count(x) == names.to_multiset().count(x));
    }
    assert forall|k: int| 0 <= k < names.len() implies is_asked_for(
        list,
        #[trigger] names[k],
    ) by {
        assert(names.contains(names[k]));
        assert(sorted.contains(names[k]));
        let i = choose|i: int| 0 <= i < sorted.len() && sorted[i] == names[k];
        assert(own[i] == list[i].name@);
    }
    assert forall|i: int| 0 <= i < list.len() implies names.contains((#[trigger] list[i]).name@)
        && is_active_board(reg, list[i].name@, list[i].board_path@) && readable.contains(
        list[i].board_path@,
    ) by {
        assert(own[i] == list[i].name@);
        assert(sorted.contains(sorted[i]));
        let k = choose|k: int| 0 <= k < names.len() && names[k] == list[i].name@;
        let name = names[k];
        assert(reg.transfer_board_refusal(names[k], readable) is None);
        let active = reg.named_boards(name, false);
        let named = tables::kept(reg.boards@, tables::board_named(name, false));
        assert(active.contains(active[0]));
        listing::lemma_ranked_contains(named, active[0]);
        listing::lemma_kept_contains(reg.boards@, tables::board_named(name, false), active[0]);
        let m = choose|m: int| 0 <= m < reg.boards@.len() && reg.boards@[m] == active[0];
        assert(reg.boards@[m].board_path@ == list[i].board_path@);
    }
}

pub open spec fn is_asked_for(list: Seq<TransferBoard>, name: Seq<char>) -> bool {
    exists|i: int| 0 <= i < list.len() && (#[trigger] list[i]).name@ == name
}

pub open spec fn is_active_board(reg: Registry, name: Seq<char>, path: Seq<char>) -> bool {
    exists|m: int|
        0 <= m < reg.boards@.len() && (#[trigger] reg.boards@[m]).board_path@ == path
            && reg.boards@[m].name@ == name && !reg.boards@[m].archived
}

pub(crate) proof fn lemma_transfer(reg: Registry, names: Seq<Seq<char>>, readable: Seq<Seq<char>>)
    requires
        reg.transfer_refusal(names, readable) is None,
    ensures
        forall|k: int|
            0 <= k < names.len() ==> reg.transfer_board_refusal(
                #[trigger] names[k],
                readable,
            ) is None,
        forall|i: int, j: int|
            0 <= i < j < names.len() ==> #[trigger] names[i] != #[trigger] names[j],
    decreases names.len(),
{
    if names.len() > 0 {
        let rest = names.drop_last();
        lemma_transfer(reg, rest, readable);
        assert(forall|k: int| 0 <= k < rest.len() ==> rest[k] == names[k]);
        assert forall|i: int, j: int| 0 <= i < j < names.len() implies #[trigger] names[i]
            != #[trigger] names[j] by {
            if j < rest.len() {
                assert(rest[i] != rest[j]);
            } else {
                assert(rest.contains(rest[i]));
            }
        }
        assert forall|k: int| 0 <= k < names.len() implies reg.transfer_board_refusal(
            #[trigger] names[k],
            readable,
        ) is None by {
            if k < rest.len() {
                assert(reg.transfer_board_refusal(rest[k], readable) is None);
            }
        }
    }
}

// ---------------------------------------------------------------------------- principals

/// The principals that are listed are the enabled ones, or all where the disabled ones are
/// asked for, in order; each with all its grants and mappings.
pub proof fn law_principals_are_listed(
    list: Seq<Principal>,
    st: PolicyState,
    include_disabled: bool,
)
    requires
        policy_queries::are_principals(
            list,
            tables::kept(st.principals, policy_queries::is_shown(include_disabled)),
            st,
        ),
    ensures
        list.len() == st.principals.filter(
            |p: PrincipalView| include_disabled || p.enabled,
        ).len(),
        forall|i: int|
            0 <= i < list.len() ==> st.principals.contains((#[trigger] list[i]).row@) && (
            include_disabled || list[i].row.enabled),
        forall|k: int|
            0 <= k < st.principals.len() && (include_disabled || (
            #[trigger] st.principals[k]).enabled) ==> is_listed(list, st.principals[k]),
        forall|i: int, k: int|
            #![trigger list[i], st.grants[k]]
            0 <= i < list.len() && 0 <= k < st.grants.len() && st.grants[k].principal_id
                == list[i].row.id@ ==> keyed::rows(list[i].grants@).contains(st.grants[k]),
{
    let p = policy_queries::is_shown(include_disabled);
    let q = |x: PrincipalView| include_disabled || x.enabled;
    let rows = tables::kept(st.principals, p);
    assert(p =~= q);
    listing::lemma_kept_is_filter(st.principals, p);
    assert forall|i: int| 0 <= i < list.len() implies st.principals.contains(
        (#[trigger] list[i]).row@,
    ) && (include_disabled || list[i].row.enabled) by {
        assert(policy::is_principal(list[i], rows[i], st));
        assert(rows.contains(rows[i]));
        listing::lemma_kept_contains(st.principals, p, rows[i]);
        assert(list[i].row@.enabled == list[i].row.enabled);
    }
    assert forall|k: int|
        0 <= k < st.principals.len() && (include_disabled || (
        #[trigger] st.principals[k]).enabled) implies is_listed(list, st.principals[k]) by {
        assert(p(st.principals[k]));
        assert(st.principals.contains(st.principals[k]));
        listing::lemma_kept_contains(st.principals, p, st.principals[k]);
        let i = choose|i: int| 0 <= i < rows.len() && rows[i] == st.principals[k];
        assert(policy::is_principal(list[i], rows[i], st));
    }
    assert forall|i: int, k: int|
        #![trigger list[i], st.grants[k]]
        0 <= i < list.len() && 0 <= k < st.grants.len() && st.grants[k].principal_id
            == list[i].row.id@ implies keyed::rows(list[i].grants@).contains(
        st.grants[k],
    ) by {
        assert(policy::is_principal(list[i], rows[i], st));
        let h = policy_state::held_by(rows[i].id);
        assert(list[i].row@.id == list[i].row.id@);
        assert(h(st.grants[k]));
        assert(st.grants.contains(st.grants[k]));
        listing::lemma_kept_contains(st.grants, h, st.grants[k]);
    }
}

pub open spec fn is_listed(list: Seq<Principal>, row: PrincipalView) -> bool {
    exists|i: int| 0 <= i < list.len() && (#[trigger] list[i]).row@ == row
}

// ---------------------------------------------------------------------------- failures

/// A board's sprints fail to be shown if and only if one of the things read for them could
/// not be read: the current sprint, its counts, the list, or the counts of a past one.
pub proof fn law_sprints_fail_where_reading_failed(facts: SprintFacts)
    ensures
        projection::sprint_failure(facts) is None <==> {
            &&& facts.current is Ok
            &&& facts.current->Ok_0 matches Some(row) ==> row.counts is Ok
            &&& facts.sprints is Ok
            &&& forall|k: int|
                0 <= k < facts.sprints->Ok_0@.len() && (
                #[trigger] facts.sprints->Ok_0@[k]).sprint.status@ != "current"@
                    ==> facts.sprints->Ok_0@[k].counts is Ok
        },
{
    if facts.sprints is Ok {
        lemma_history_fails(facts.sprints->Ok_0@);
    }
}

proof fn lemma_history_fails(rows: Seq<SprintRow>)
    ensures
        projection::history_of(rows) is Ok <==> forall|k: int|
            0 <= k < rows.len() && (#[trigger] rows[k]).sprint.status@ != "current"@
                ==> rows[k].counts is Ok,
    decreases rows.len(),
{
    if rows.len() > 0 {
        let rest = rows.drop_last();
        lemma_history_fails(rest);
        assert(forall|k: int| 0 <= k < rest.len() ==> rest[k] == rows[k]);
        let last = rows[rows.len() - 1];
        if forall|k: int|
            0 <= k < rest.len() && (#[trigger] rest[k]).sprint.status@ != "current"@
                ==> rest[k].counts is Ok {
            if last.sprint.status@ == "current"@ || last.counts is Ok {
                assert forall|k: int|
                    0 <= k < rows.len() && (#[trigger] rows[k]).sprint.status@
                        != "current"@ implies rows[k].counts is Ok by {
                    if k < rest.len() {
                        assert(rest[k].counts is Ok);
                    }
                }
            }
        } else {
            let k = choose|k: int|
                0 <= k < rest.len() && (#[trigger] rest[k]).sprint.status@ != "current"@
                    && !(rest[k].counts is Ok);
            assert(rows[k].sprint.status@ != "current"@ && !(rows[k].counts is Ok));
        }
    }
}

// ---------------------------------------------------------------------------- index

/// What is embedded anew are just the documents without an embedding, without the hash it was
/// made of, or with one of another model; none that is current.
pub proof fn law_missing_embeddings_are_made(d: Document)
    ensures
        search_index::is_to_embed()(d) <==> d.embedding is None || d.source_hash is None
            || d.embedding_model is None || d.embedding_model->0@
            != search_index::EMBEDDING_MODEL@,
{
}

/// An embedding is stale where there is one that is of another model, of another size, or was
/// made of something that the document no longer says.
pub proof fn law_stale_embeddings_are_told(d: Document)
    ensures
        search_index::has_no_embedding()(d) <==> d.embedding is None,
        search_index::has_stale_embedding()(d) <==> d.embedding is Some && (d.embedding->0@.len()
            != search_index::EMBEDDING_BYTES || d.embedding_model is None
            || d.embedding_model->0@ != search_index::EMBEDDING_MODEL@ || d.source_hash is None
            || d.source_hash->0@ != search_index::hash_of(d)),
{
}

// ---------------------------------------------------------------------------- adapter

/// A status is read only off a line that begins with one of two versions of the protocol and
/// goes on with three digits, which stand alone; and it is the number of these digits.
pub proof fn law_status_is_three_digits(line: Seq<char>)
    ensures
        adapter_wire::status_of(line) matches Ok(status) ==> {
            &&& line.len() >= 12
            &&& line.take(9) == "HTTP/1.1 "@ || line.take(9) == "HTTP/1.0 "@
            &&& opencode_adapter::all_digits(line.subrange(9, 12))
            &&& status == opencode_adapter::number_of(line.subrange(9, 12)) as u16
            &&& line.len() > 12 ==> line[12] == ' '
        },
{
    if adapter_wire::status_of(line) is Ok {
        reveal_strlit("HTTP/1.1 ");
        reveal_strlit("HTTP/1.0 ");
        let rest = adapter_wire::status_rest(line)->0;
        rule_laws::lemma_prefixed(line, "HTTP/1.1 "@, rest);
        rule_laws::lemma_prefixed(line, "HTTP/1.0 "@, rest);
        text::lemma_find_char(rest, ' ');
        let code = adapter_wire::status_code(rest);
        assert(line.take(9) =~= "HTTP/1.1 "@ || line.take(9) =~= "HTTP/1.0 "@);
        assert(code =~= line.subrange(9, 12));
        if line.len() > 12 {
            assert(rest[3] == line[12]);
        }
    }
}

/// A file is opened for adoption only where it is a regular one and no link; a data root is
/// used only where its path climbs nowhere and it is no link.
pub proof fn law_links_are_not_followed(
    path: Seq<char>,
    label: Seq<char>,
    facts: FileFacts,
    is_symlink: bool,
)
    ensures
        adoption::unopened_refusal(path, label, facts) is None <==> facts.is_file
            && !facts.is_symlink,
        adoption::root_refusal(path, is_symlink) is None <==> !is_symlink && !has_segment(
            path,
            '/',
            seq!['.', '.'],
        ),
{
    law_climbing_paths_hold_two_dots(path);
}

/// The plans fail to be shown if and only if one of the things read for them could not be
/// read: the tasks of a board, the open questions of a plan, or those of one of its children.
pub proof fn law_plans_fail_where_reading_failed(boards: Seq<PlanFacts>)
    ensures
        plans::boards_failure(boards) is None <==> forall|b: int|
            0 <= b < boards.len() ==> is_read(#[trigger] boards[b]),
    decreases boards.len(),
{
    if boards.len() > 0 {
        let rest = boards.drop_last();
        law_plans_fail_where_reading_failed(rest);
        assert(forall|b: int| 0 <= b < rest.len() ==> rest[b] == boards[b]);
        let last = boards[boards.len() - 1];
        lemma_board_fails(last);
        if plans::boards_failure(boards) is None {
            assert forall|b: int| 0 <= b < boards.len() implies is_read(#[trigger] boards[b]) by {
                if b < rest.len() {
                    assert(is_read(rest[b]));
                }
            }
        }
        if forall|b: int| 0 <= b < boards.len() ==> is_read(#[trigger] boards[b]) {
            assert forall|b: int| 0 <= b < rest.len() implies is_read(#[trigger] rest[b]) by {
                assert(is_read(boards[b]));
            }
            assert(is_read(last));
        }
    }
}

/// All that is shown of the board's plans was read.
pub open spec fn is_read(facts: PlanFacts) -> bool {
    facts.rows matches Ok(rows) && forall|k: int|
        0 <= k < rows@.len() && deck_laws::is_draft_epic(#[trigger] rows@[k]) ==> is_plan_read(
            rows@,
            rows@[k],
        )
}

pub open spec fn is_plan_read(rows: Seq<PlanRow>, plan: PlanRow) -> bool {
    &&& plan.open_attention is Ok
    &&& forall|k: int|
        0 <= k < rows.len() && deck_laws::is_child_of(#[trigger] rows[k], plan)
            ==> rows[k].open_attention is Ok
}

proof fn lemma_first_failure(rows: Seq<PlanRow>)
    ensures
        plans::first_failure(rows) is None <==> forall|k: int|
            0 <= k < rows.len() ==> (#[trigger] rows[k]).open_attention is Ok,
    decreases rows.len(),
{
    if rows.len() > 0 {
        let rest = rows.drop_last();
        lemma_first_failure(rest);
        assert(forall|k: int| 0 <= k < rest.len() ==> rest[k] == rows[k]);
        let last = rows[rows.len() - 1];
        if plans::first_failure(rows) is None {
            assert forall|k: int| 0 <= k < rows.len() implies (
            #[trigger] rows[k]).open_attention is Ok by {
                if k < rest.len() {
                    assert(rest[k].open_attention is Ok);
                }
            }
        }
        if forall|k: int| 0 <= k < rows.len() ==> (#[trigger] rows[k]).open_attention is Ok {
            assert forall|k: int| 0 <= k < rest.len() implies (
            #[trigger] rest[k]).open_attention is Ok by {
                assert(rows[k].open_attention is Ok);
            }
            assert(last.open_attention is Ok);
        }
    }
}

proof fn lemma_plan_fails(rows: Seq<PlanRow>, plan: PlanRow)
    ensures
        plans::plan_failure(rows, plan) is None <==> is_plan_read(rows, plan),
{
    let p = plans::is_child(plan.task.id@);
    let children = tables::kept(rows, p);
    lemma_first_failure(children);
    if plans::plan_failure(rows, plan) is None {
        assert forall|k: int|
            0 <= k < rows.len() && deck_laws::is_child_of(
                #[trigger] rows[k],
                plan,
            ) implies rows[k].open_attention is Ok by {
            assert(p(rows[k]));
            assert(rows.contains(rows[k]));
            listing::lemma_kept_contains(rows, p, rows[k]);
            let i = choose|i: int| 0 <= i < children.len() && children[i] == rows[k];
            assert(children[i].open_attention is Ok);
        }
    }
    if is_plan_read(rows, plan) {
        assert forall|i: int| 0 <= i < children.len() implies (
        #[trigger] children[i]).open_attention is Ok by {
            assert(children.contains(children[i]));
            listing::lemma_kept_contains(rows, p, children[i]);
            let k = choose|k: int| 0 <= k < rows.len() && rows[k] == children[i];
            assert(deck_laws::is_child_of(rows[k], plan));
        }
    }
}

proof fn lemma_plans_fail(rows: Seq<PlanRow>, some: Seq<PlanRow>)
    ensures
        plans::plans_failure(rows, some) is None <==> forall|i: int|
            0 <= i < some.len() ==> is_plan_read(rows, #[trigger] some[i]),
    decreases some.len(),
{
    if some.len() > 0 {
        let rest = some.drop_last();
        lemma_plans_fail(rows, rest);
        assert(forall|k: int| 0 <= k < rest.len() ==> rest[k] == some[k]);
        let last = some[some.len() - 1];
        lemma_plan_fails(rows, last);
        if plans::plans_failure(rows, some) is None {
            assert forall|i: int| 0 <= i < some.len() implies is_plan_read(
                rows,
                #[trigger] some[i],
            ) by {
                if i < rest.len() {
                    assert(is_plan_read(rows, rest[i]));
                }
            }
        }
        if forall|i: int| 0 <= i < some.len() ==> is_plan_read(rows, #[trigger] some[i]) {
            assert forall|i: int| 0 <= i < rest.len() implies is_plan_read(
                rows,
                #[trigger] rest[i],
            ) by {
                assert(is_plan_read(rows, some[i]));
            }
            assert(is_plan_read(rows, last));
        }
    }
}

proof fn lemma_board_fails(facts: PlanFacts)
    ensures
        plans::board_failure(facts) is None <==> is_read(facts),
{
    if facts.rows is Ok {
        let rows = facts.rows->Ok_0@;
        let p = plans::is_plan();
        let some = tables::kept(rows, p);
        lemma_plans_fail(rows, some);
        if plans::board_failure(facts) is None {
            assert forall|k: int| 0 <= k < rows.len() && deck_laws::is_draft_epic(
                #[trigger] rows[k],
            ) implies is_plan_read(rows, rows[k]) by {
                assert(p(rows[k]));
                assert(rows.contains(rows[k]));
                listing::lemma_kept_contains(rows, p, rows[k]);
                let i = choose|i: int| 0 <= i < some.len() && some[i] == rows[k];
                assert(is_plan_read(rows, some[i]));
            }
        }
        if is_read(facts) {
            assert forall|i: int| 0 <= i < some.len() implies is_plan_read(
                rows,
                #[trigger] some[i],
            ) by {
                assert(some.contains(some[i]));
                listing::lemma_kept_contains(rows, p, some[i]);
                let k = choose|k: int| 0 <= k < rows.len() && rows[k] == some[i];
                assert(deck_laws::is_draft_epic(rows[k]));
            }
        }
    }
}

} // verus!
