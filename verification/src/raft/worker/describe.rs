//! How a node describes its role, for one who looks into it.

use super::{keys_of, Candidate, Follower, Leader, Waiter};
use crate::text::{decimal, push_decimal};
use std::collections::HashMap;
use std::fmt::Debug;
use vstd::prelude::*;

verus! {

/// What a node is in its cluster.
pub trait Role {
    /// Whether the text describes the role.
    spec fn reads(&self, text: Seq<char>) -> bool;

    fn describe(&self) -> (r: String)
        ensures
            self.reads(r@),
    ;
}

impl Role for Follower {
    open spec fn reads(&self, text: Seq<char>) -> bool {
        text == "Follower"@
    }

    fn describe(&self) -> (r: String) {
        "Follower".to_owned()
    }
}

impl Role for Candidate {
    open spec fn reads(&self, text: Seq<char>) -> bool {
        text == "Candidate"@
    }

    fn describe(&self) -> (r: String) {
        "Candidate".to_owned()
    }
}

/// A key of a map and, in words, what is under it.
pub type ItemText = (u64, Seq<char>);

pub open spec fn item_text(item: ItemText) -> Seq<char> {
    decimal(item.0 as nat) + ": "@ + item.1
}

/// The items, with commas between them.
pub open spec fn items_text(items: Seq<ItemText>) -> Seq<char>
    decreases items.len(),
{
    if items.len() == 0 {
        Seq::empty()
    } else if items.len() == 1 {
        item_text(items[0])
    } else {
        items_text(items.drop_last()) + ", "@ + item_text(items.last())
    }
}

/// Whether the items have the keys of the map, each once, in whatever order.
pub open spec fn lists<V>(items: Seq<ItemText>, m: Map<u64, V>) -> bool {
    let keys = items.map_values(|item: ItemText| item.0);
    keys.no_duplicates() && keys.to_set() == m.dom()
}

/// Whether the items are the keys of the map with their numbers.
pub open spec fn lists_numbers(items: Seq<ItemText>, m: Map<u64, u64>) -> bool {
    &&& lists(items, m)
    &&& forall|i: int|
        0 <= i < items.len() ==> (#[trigger] items[i]).1 == decimal(m[items[i].0] as nat)
}

pub open spec fn leader_words(
    next: Seq<ItemText>,
    matched: Seq<ItemText>,
    waiting: Seq<ItemText>,
) -> Seq<char> {
    "Leader { next_indices: {"@ + items_text(next) + "}, match_indices: {"@ + items_text(matched)
        + "}, in_flight: {"@ + items_text(waiting) + "} }"@
}

/// Whether the text tells all that a leader keeps: the progress of the peers, and the
/// indices that somebody waits for. How those who wait are put in words is theirs.
pub open spec fn leader_reads<C, R>(state: Leader<C, R>, text: Seq<char>) -> bool {
    exists|next: Seq<ItemText>, matched: Seq<ItemText>, waiting: Seq<ItemText>|
        {
            &&& text == #[trigger] leader_words(next, matched, waiting)
            &&& lists_numbers(next, state.next_indices@)
            &&& lists_numbers(matched, state.match_indices@)
            &&& lists(waiting, state.in_flight@)
        }
}

/// What a leader tells of itself: under each peer the next index for it and the last one
/// that it has, each once, and each index that somebody waits for. Returns the three
/// lists.
pub proof fn law_leader_tells_all<C, R>(state: Leader<C, R>, text: Seq<char>) -> (lists: (
    Seq<ItemText>,
    Seq<ItemText>,
    Seq<ItemText>,
))
    requires
        leader_reads(state, text),
    ensures
        text == "Leader { next_indices: {"@ + items_text(lists.0) + "}, match_indices: {"@
            + items_text(lists.1) + "}, in_flight: {"@ + items_text(lists.2) + "} }"@,
        tells(lists.0, state.next_indices@),
        tells(lists.1, state.match_indices@),
        forall|i: int, j: int|
            0 <= i < j < lists.2.len() ==> (#[trigger] lists.2[i]).0 != (#[trigger] lists.2[j]).0,
        forall|i: int|
            0 <= i < lists.2.len() ==> state.in_flight@.contains_key((#[trigger] lists.2[i]).0),
        forall|k: u64| #[trigger]
            state.in_flight@.contains_key(k) ==> exists|i: int|
                0 <= i < lists.2.len() && (#[trigger] lists.2[i]).0 == k,
{
    let (next, matched, waiting) = choose|
        next: Seq<ItemText>,
        matched: Seq<ItemText>,
        waiting: Seq<ItemText>,
    |
        {
            &&& text == #[trigger] leader_words(next, matched, waiting)
            &&& lists_numbers(next, state.next_indices@)
            &&& lists_numbers(matched, state.match_indices@)
            &&& lists(waiting, state.in_flight@)
        };
    lemma_lists(next, state.next_indices@);
    lemma_lists(matched, state.match_indices@);
    lemma_lists(waiting, state.in_flight@);
    (next, matched, waiting)
}

/// Whether the items tell the number under each key, once.
pub open spec fn tells(items: Seq<ItemText>, m: Map<u64, u64>) -> bool {
    &&& forall|i: int, j: int|
        0 <= i < j < items.len() ==> (#[trigger] items[i]).0 != (#[trigger] items[j]).0
    &&& forall|i: int|
        0 <= i < items.len() ==> m.contains_key((#[trigger] items[i]).0) && items[i].1 == decimal(
            m[items[i].0] as nat,
        )
    &&& forall|k: u64| #[trigger]
        m.contains_key(k) ==> exists|i: int| 0 <= i < items.len() && (#[trigger] items[i]).0 == k
}

/// Lists are told item by item: the key, a colon and what is under it, with commas
/// between the items.
pub proof fn law_items_are_told(items: Seq<ItemText>, key: u64, text: Seq<char>)
    ensures
        items_text(Seq::empty()).len() == 0,
        items.len() == 0 ==> items_text(items.push((key, text))) == decimal(key as nat) + ": "@
            + text,
        items.len() > 0 ==> items_text(items.push((key, text))) == items_text(items) + ", "@ + (
        decimal(key as nat) + ": "@ + text),
{
    assert(items.push((key, text)).drop_last() =~= items);
}

proof fn lemma_lists<V>(items: Seq<ItemText>, m: Map<u64, V>)
    requires
        lists(items, m),
    ensures
        forall|i: int, j: int|
            0 <= i < j < items.len() ==> (#[trigger] items[i]).0 != (#[trigger] items[j]).0,
        forall|i: int| 0 <= i < items.len() ==> m.contains_key((#[trigger] items[i]).0),
        forall|k: u64| #[trigger]
            m.contains_key(k) ==> exists|i: int|
                0 <= i < items.len() && (#[trigger] items[i]).0 == k,
{
    let keys = items.map_values(|item: ItemText| item.0);
    assert forall|i: int, j: int| 0 <= i < j < items.len() implies (#[trigger] items[i]).0 != (
    #[trigger] items[j]).0 by {
        assert(keys[i] != keys[j]);
    }
    assert forall|i: int| 0 <= i < items.len() implies m.contains_key((#[trigger] items[i]).0) by {
        assert(keys[i] == items[i].0);
        assert(keys.to_set().contains(keys[i]));
    }
    assert forall|k: u64| #[trigger] m.contains_key(k) implies exists|i: int|
        0 <= i < items.len() && (#[trigger] items[i]).0 == k by {
        assert(keys.to_set().contains(k));
        let i = choose|i: int| 0 <= i < keys.len() && keys[i] == k;
        assert(items[i].0 == k);
    }
}

impl<C: Debug, R: Debug> Role for Leader<C, R> {
    open spec fn reads(&self, text: Seq<char>) -> bool {
        leader_reads(*self, text)
    }

    fn describe(&self) -> (r: String) {
        let next = number_items(&self.next_indices);
        let matched = number_items(&self.match_indices);
        let waiting = waiter_items(&self.in_flight);
        let mut text = "Leader { next_indices: {".to_owned();
        push_items(&mut text, &next);
        text.append("}, match_indices: {");
        push_items(&mut text, &matched);
        text.append("}, in_flight: {");
        push_items(&mut text, &waiting);
        text.append("} }");
        assert(text@ == leader_words(texts(next@), texts(matched@), texts(waiting@)));
        text
    }
}

/// Calls `format!` of std with `{:?}`. Nothing is claimed of the result: how a value
/// prints is up to the impl of `Debug` for its type.
#[verifier::external_body]
fn debug_text<T: Debug>(value: &T) -> (r: String) {
    format!("{:?}", value)
}

spec fn texts(items: Seq<(u64, String)>) -> Seq<ItemText> {
    items.map_values(|item: (u64, String)| (item.0, item.1@))
}

fn push_items(out: &mut String, items: &Vec<(u64, String)>)
    ensures
        final(out)@ == old(out)@ + items_text(texts(items@)),
{
    let ghost before = out@;
    let ghost all = texts(items@);
    assert(out@ =~= before + items_text(all.take(0)));
    for i in 0..items.len()
        invariant
            all == texts(items@),
            out@ == before + items_text(all.take(i as int)),
    {
        if i > 0 {
            out.append(", ");
        }
        push_decimal(out, items[i].0 as u128);
        out.append(": ");
        out.append(items[i].1.as_str());
        proof {
            let now = all.take(i as int + 1);
            assert(now.drop_last() =~= all.take(i as int));
            assert(now.last() == all[i as int]);
            assert(all[i as int] == (items@[i as int].0, items@[i as int].1@));
            if i == 0 {
                assert(out@ =~= before + item_text(now[0]));
            } else {
                assert(out@ =~= before + (items_text(now.drop_last()) + ", "@ + item_text(
                    now.last(),
                )));
            }
        }
    }
    assert(all.take(all.len() as int) =~= all);
}

fn number_items(m: &HashMap<u64, u64>) -> (r: Vec<(u64, String)>)
    ensures
        lists_numbers(texts(r@), m@),
{
    let keys = keys_of(m);
    let mut r: Vec<(u64, String)> = Vec::new();
    for i in 0..keys.len()
        invariant
            keys@.to_set() == m@.dom(),
            r@.len() == i,
            forall|j: int|
                0 <= j < i ==> (#[trigger] r@[j]).0 == keys@[j] && r@[j].1@ == decimal(
                    m@[keys@[j]] as nat,
                ),
    {
        let key = keys[i];
        assert(keys@.to_set().contains(key));
        let mut text = String::new();
        push_decimal(&mut text, *m.get(&key).unwrap() as u128);
        assert(text@ =~= decimal(m@[key] as nat));
        r.push((key, text));
    }
    assert(texts(r@).map_values(|item: ItemText| item.0) =~= keys@);
    r
}

fn waiter_items<C: Debug, R: Debug>(m: &HashMap<u64, Waiter<C, R>>) -> (r: Vec<(u64, String)>)
    ensures
        lists(texts(r@), m@),
{
    let keys = keys_of(m);
    let mut r: Vec<(u64, String)> = Vec::new();
    for i in 0..keys.len()
        invariant
            keys@.to_set() == m@.dom(),
            r@.len() == i,
            forall|j: int| 0 <= j < i ==> (#[trigger] r@[j]).0 == keys@[j],
    {
        let key = keys[i];
        assert(keys@.to_set().contains(key));
        let text = match m.get(&key).unwrap() {
            Waiter::Client(to) => debug_text(to),
            Waiter::Forwarded(to) => debug_text(to),
        };
        r.push((key, text));
    }
    assert(texts(r@).map_values(|item: ItemText| item.0) =~= keys@);
    r
}

} // verus!
