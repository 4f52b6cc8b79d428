//! Working directories, one for each request: how they are named, and which
//! of them are deleted when there are more than are kept.

use vstd::prelude::*;
use crate::paths::{join, path_join};
use crate::text::{decimal, from_chars, lemma_numbered_texts_differ, push_decimal, push_str};

verus! {

/// How many sessions stay when old ones are cleaned up.
pub const RETAINED_SESSIONS: usize = 5;

/// Whether session `i` comes before session `j` when the most recently
/// changed come first: it was changed later, or at the same time and is
/// listed earlier.
pub open spec fn is_newer(times: Seq<u128>, i: int, j: int) -> bool {
    times[i] > times[j] || (times[i] == times[j] && i < j)
}

/// Whether `removed` names the sessions to delete so that the `retain` most
/// recently changed stay: it holds the positions of all but `retain`
/// sessions, every session that is not in it comes before each that is, and
/// it lists them from the most recently changed to the oldest.
pub open spec fn is_pruning(times: Seq<u128>, retain: int, removed: Seq<usize>) -> bool {
    &&& removed.len() == if times.len() > retain {
        times.len() - retain
    } else {
        0
    }
    &&& forall|k: int| 0 <= k < removed.len() ==> (#[trigger] removed[k]) < times.len()
    &&& forall|a: int, b: int|
        0 <= a < b < removed.len() ==> is_newer(
            times,
            #[trigger] removed[a] as int,
            #[trigger] removed[b] as int,
        )
    &&& forall|i: usize, k: int|
        i < times.len() && !(#[trigger] removed.contains(i)) && 0 <= k < removed.len()
            ==> is_newer(times, i as int, #[trigger] removed[k] as int)
}

/// Whether `order` lists all the sessions, the most recently changed first.
pub open spec fn is_age_order(times: Seq<u128>, order: Seq<usize>) -> bool {
    &&& order.len() == times.len()
    &&& forall|p: int| 0 <= p < order.len() ==> (#[trigger] order[p]) < times.len()
    &&& forall|i: usize| i < times.len() ==> #[trigger] order.contains(i)
    &&& forall|p: int, q: int|
        0 <= p < q < order.len() ==> is_newer(
            times,
            #[trigger] order[p] as int,
            #[trigger] order[q] as int,
        )
}

/// The positions of the sessions, the most recently changed first; of two
/// changed at the same time, the one listed earlier first.
pub fn age_order(times: &Vec<u128>) -> (order: Vec<usize>)
    ensures
        is_age_order(times@, order@),
{
    let mut order: Vec<usize> = Vec::new();
    let mut m: usize = 0;
    while m < times.len()
        invariant
            m <= times.len(),
            order.len() == m,
            forall|p: int| 0 <= p < order.len() ==> (#[trigger] order@[p]) < m,
            forall|i: usize| i < m ==> #[trigger] order@.contains(i),
            forall|p: int, q: int|
                0 <= p < q < order.len() ==> is_newer(
                    times@,
                    #[trigger] order@[p] as int,
                    #[trigger] order@[q] as int,
                ),
        decreases times.len() - m,
    {
        let mut pos: usize = 0;
        while pos < order.len() && times[order[pos]] >= times[m]
            invariant
                pos <= order.len(),
                order.len() == m,
                m < times.len(),
                forall|p: int| 0 <= p < order.len() ==> (#[trigger] order@[p]) < m,
                forall|p: int| 0 <= p < pos ==> times@[(#[trigger] order@[p]) as int] >= times@[m as int],
            decreases order.len() - pos,
        {
            pos += 1;
        }
        let ghost old_order = order@;
        order.insert(pos, m);
        proof {
            let new_order = order@;
            assert forall|p: int| 0 <= p < new_order.len() implies (#[trigger] new_order[p]) < m
                + 1 by {
                if p < pos {
                    assert(new_order[p] == old_order[p]);
                } else if p > pos {
                    assert(new_order[p] == old_order[p - 1]);
                }
            }
            assert forall|i: usize| i < m + 1 implies #[trigger] new_order.contains(i) by {
                if i < m {
                    assert(old_order.contains(i));
                    let p = choose|p: int| 0 <= p < old_order.len() && old_order[p] == i;
                    if p < pos {
                        assert(new_order[p] == i);
                    } else {
                        assert(new_order[p + 1] == i);
                    }
                } else {
                    assert(new_order[pos as int] == m);
                }
            }
            assert forall|p: int, q: int| 0 <= p < q < new_order.len() implies is_newer(
                times@,
                #[trigger] new_order[p] as int,
                #[trigger] new_order[q] as int,
            ) by {
                let a = if p < pos {
                    p
                } else {
                    p - 1
                };
                let b = if q < pos {
                    q
                } else {
                    q - 1
                };
                if p != pos {
                    assert(new_order[p] == old_order[a]);
                }
                if q != pos {
                    assert(new_order[q] == old_order[b]);
                }
                if p == pos {
                    assert(new_order[p] == m);
                    assert(times@[old_order[pos as int] as int] < times@[m as int]);
                    if b > pos {
                        assert(is_newer(
                            times@,
                            old_order[pos as int] as int,
                            old_order[b] as int,
                        ));
                    }
                } else if q == pos {
                    assert(new_order[q] == m);
                    assert(times@[old_order[a] as int] >= times@[m as int]);
                }
            }
        }
        m += 1;
    }
    order
}

/// The sessions to delete so that the `retain` most recently changed stay,
/// by their positions in `times`, which holds for each session the time of
/// its last change.
pub fn sessions_to_remove(times: &Vec<u128>, retain: usize) -> (removed: Vec<usize>)
    ensures
        is_pruning(times@, retain as int, removed@),
{
    let order = age_order(times);
    let mut removed: Vec<usize> = Vec::new();
    let mut p: usize = retain;
    while p < order.len()
        invariant
            retain <= p,
            is_age_order(times@, order@),
            removed.len() == if p <= order.len() {
                p - retain
            } else {
                0
            },
            p > order.len() ==> retain > order.len(),
            forall|k: int| 0 <= k < removed.len() ==> #[trigger] removed@[k] == order@[retain + k],
        decreases order.len() - p,
    {
        removed.push(order[p]);
        p += 1;
    }
    proof {
        assert forall|i: usize, k: int|
            i < times.len() && !(#[trigger] removed@.contains(i)) && 0 <= k
                < removed.len() implies is_newer(times@, i as int, #[trigger] removed@[k] as int) by {
            assert(order@.contains(i));
            let at = choose|at: int| 0 <= at < order@.len() && order@[at] == i;
            if at >= retain {
                assert(removed@[at - retain] == i);
            }
            assert(removed@[k] == order@[retain + k]);
        }
        assert forall|a: int, b: int| 0 <= a < b < removed.len() implies is_newer(
            times@,
            #[trigger] removed@[a] as int,
            #[trigger] removed@[b] as int,
        ) by {
            assert(removed@[a] == order@[retain + a]);
            assert(removed@[b] == order@[retain + b]);
        }
    }
    removed
}

/// The sessions to delete after a conversion so that the five most recently
/// changed stay, by their positions in `times`.
pub fn cleanup_old_sessions(times: &Vec<u128>) -> (removed: Vec<usize>)
    ensures
        is_pruning(times@, RETAINED_SESSIONS as int, removed@),
{
    sessions_to_remove(times, RETAINED_SESSIONS)
}

/// After pruning at most `retain` sessions stay, and no session that stays
/// was changed before one that goes.
pub proof fn lemma_pruning_keeps_newest(times: Seq<u128>, retain: int, removed: Seq<usize>)
    requires
        0 <= retain,
        is_pruning(times, retain, removed),
    ensures
        times.len() - removed.len() <= retain,
        removed.no_duplicates(),
        forall|i: usize, k: int|
            i < times.len() && !(#[trigger] removed.contains(i)) && 0 <= k < removed.len()
                ==> times[i as int] >= times[(#[trigger] removed[k]) as int],
{
    assert forall|a: int, b: int| 0 <= a < removed.len() && 0 <= b < removed.len() && a
        != b implies removed[a] != removed[b] by {
        if a < b {
            assert(is_newer(times, removed[a] as int, removed[b] as int));
        } else {
            assert(is_newer(times, removed[b] as int, removed[a] as int));
        }
    }
    assert forall|i: usize, k: int|
        i < times.len() && !(#[trigger] removed.contains(i)) && 0 <= k
            < removed.len() implies times[i as int] >= times[(#[trigger] removed[k]) as int] by {
        assert(is_newer(times, i as int, removed[k] as int));
    }
}

/// The name of the session directory made at `millis` milliseconds.
pub open spec fn session_name(millis: nat) -> Seq<char> {
    "session-"@ + decimal(millis)
}

/// Sessions made at different times have different names.
pub proof fn lemma_session_names_differ(a: nat, b: nat)
    requires
        a != b,
    ensures
        session_name(a) != session_name(b),
{
    if session_name(a) == session_name(b) {
        assert("session-"@ + decimal(a) + Seq::<char>::empty() =~= session_name(a));
        assert("session-"@ + decimal(b) + Seq::<char>::empty() =~= session_name(b));
        lemma_numbered_texts_differ("session-"@, Seq::empty(), a, b);
    }
}

/// The directory of the session made at `millis` milliseconds, below
/// `cache_root`.
pub open spec fn session_dir(cache_root: Seq<char>, millis: nat) -> Seq<char> {
    path_join(sessions_root(cache_root), session_name(millis))
}

/// The directory that holds all sessions, below `cache_root`.
pub open spec fn sessions_root(cache_root: Seq<char>) -> Seq<char> {
    path_join(path_join(cache_root, "format-tools"@), "sessions"@)
}

/// The directory that holds all sessions, below `cache_root`.
pub fn sessions_dir(cache_root: &str) -> (r: String)
    ensures
        r@ == sessions_root(cache_root@),
{
    let tools = join(cache_root, "format-tools");
    join(tools.as_str(), "sessions")
}

/// The directory for a session made at `millis` milliseconds of wall-clock
/// time, below `cache_root`.
pub fn build_session_dir(cache_root: &str, millis: u128) -> (r: String)
    ensures
        r@ == session_dir(cache_root@, millis as nat),
{
    let root = sessions_dir(cache_root);
    let mut name: Vec<char> = Vec::new();
    push_str(&mut name, "session-");
    push_decimal(&mut name, millis);
    let name = from_chars(name.as_slice());
    join(root.as_str(), name.as_str())
}

} // verus!
