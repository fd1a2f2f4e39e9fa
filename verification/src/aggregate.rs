//! Counting over event data.  An event's data is read as `None` when the
//! event carries no map, and otherwise as the entries of its data map, each
//! term given by an id that two terms share exactly when they are equal.
use vstd::prelude::*;

verus! {

/// The data map of `d` holds `field` bound to `expected`.
pub open spec fn has_entry(d: Option<Vec<(u64, u64)>>, field: u64, expected: u64) -> bool {
    match d {
        Some(ps) => ps@.contains((field, expected)),
        None => false,
    }
}

/// Whether `ps` holds the entry `(field, expected)`.
fn contains_entry(ps: &Vec<(u64, u64)>, field: u64, expected: u64) -> (r: bool)
    ensures
        r == ps@.contains((field, expected)),
{
    let mut j: usize = 0;
    while j < ps.len()
        invariant
            j <= ps@.len(),
            forall|k: int| 0 <= k < j ==> ps@[k] != (field, expected),
        decreases ps@.len() - j,
    {
        if ps[j].0 == field && ps[j].1 == expected {
            assert(ps@[j as int] == (field, expected));
            return true;
        }
        j = j + 1;
    }
    false
}

/// The number of events whose data binds `field` to `expected`.
pub fn count_where(events: &[Option<Vec<(u64, u64)>>], field: u64, expected: u64) -> (r: u64)
    ensures
        r as nat == events@.filter(|d: Option<Vec<(u64, u64)>>| has_entry(d, field, expected)).len(),
{
    let ghost f = |d: Option<Vec<(u64, u64)>>| has_entry(d, field, expected);
    let mut count: u64 = 0;
    let mut i: usize = 0;
    proof {
        assert(events@.take(0) =~= Seq::<Option<Vec<(u64, u64)>>>::empty());
        reveal_with_fuel(Seq::<_>::filter, 1);
    }
    while i < events.len()
        invariant
            i <= events@.len(),
            f == (|d: Option<Vec<(u64, u64)>>| has_entry(d, field, expected)),
            count as nat == events@.take(i as int).filter(f).len(),
            events@.take(i as int).filter(f).len() <= i,
        decreases events@.len() - i,
    {
        proof {
            assert(events@.take(i + 1).drop_last() =~= events@.take(i as int));
            reveal_with_fuel(Seq::<_>::filter, 1);
        }
        let hit = match &events[i] {
            Some(ps) => contains_entry(ps, field, expected),
            None => false,
        };
        if hit {
            count = count + 1;
        }
        i = i + 1;
    }
    assert(events@.take(events@.len() as int) =~= events@);
    count
}

/// The keys of all data maps, event after event.
pub open spec fn all_keys(events: Seq<Option<Vec<u64>>>) -> Seq<u64>
    decreases events.len(),
{
    if events.len() == 0 {
        Seq::empty()
    } else {
        all_keys(events.drop_last()) + match events.last() {
            Some(ks) => ks@,
            None => Seq::empty(),
        }
    }
}

/// The data map of `d` has the key `x`.
pub open spec fn event_has_key(d: Option<Vec<u64>>, x: u64) -> bool {
    match d {
        Some(ks) => ks@.contains(x),
        None => false,
    }
}

/// A key is among the keys of all data maps exactly when some event's data
/// map has it.
pub proof fn law_all_keys_members(events: Seq<Option<Vec<u64>>>)
    ensures
        forall|x: u64|
            #[trigger] all_keys(events).contains(x) <==> exists|i: int|
                0 <= i < events.len() && event_has_key(#[trigger] events[i], x),
    decreases events.len(),
{
    if events.len() > 0 {
        let front = events.drop_last();
        law_all_keys_members(front);
        let tail = match events.last() {
            Some(ks) => ks@,
            None => Seq::<u64>::empty(),
        };
        assert(all_keys(events) == all_keys(front) + tail);
        assert forall|x: u64|
            #[trigger] all_keys(events).contains(x) <==> exists|i: int|
                0 <= i < events.len() && event_has_key(#[trigger] events[i], x) by {
            let whole = all_keys(front) + tail;
            if whole.contains(x) {
                let m = choose|m: int| 0 <= m < whole.len() && whole[m] == x;
                if m < all_keys(front).len() {
                    assert(all_keys(front).contains(x));
                    let i = choose|i: int| 0 <= i < front.len() && event_has_key(front[i], x);
                    assert(events[i] == front[i]);
                } else {
                    assert(tail[m - all_keys(front).len()] == x);
                    assert(event_has_key(events[events.len() - 1], x));
                }
            }
            if exists|i: int| 0 <= i < events.len() && event_has_key(#[trigger] events[i], x) {
                let i = choose|i: int| 0 <= i < events.len() && event_has_key(#[trigger] events[i], x);
                if i < front.len() {
                    assert(event_has_key(front[i], x));
                    assert(all_keys(front).contains(x));
                    let m = choose|m: int| 0 <= m < all_keys(front).len() && all_keys(front)[m] == x;
                    assert(whole[m] == x);
                } else {
                    assert(tail.contains(x));
                    let m = choose|m: int| 0 <= m < tail.len() && tail[m] == x;
                    assert(whole[all_keys(front).len() + m] == x);
                }
            }
        }
    } else {
        assert(all_keys(events) =~= Seq::<u64>::empty());
    }
}

/// The keys found in some event's data map.
pub open spec fn keys_in_some_event(events: Seq<Option<Vec<u64>>>) -> Set<u64> {
    Set::new(|x: u64| exists|i: int| 0 <= i < events.len() && event_has_key(#[trigger] events[i], x))
}

/// Adding an event never lowers the number of different keys.
pub proof fn law_unique_keys_grow(events: Seq<Option<Vec<u64>>>, e: Option<Vec<u64>>)
    ensures
        all_keys(events).to_set().len() <= all_keys(events.push(e)).to_set().len(),
        all_keys(events).to_set() == keys_in_some_event(events),
{
    law_all_keys_members(events);
    law_all_keys_members(events.push(e));
    assert(all_keys(events).to_set() =~= keys_in_some_event(events));
    assert forall|x: u64| all_keys(events).to_set().contains(x) implies all_keys(
        events.push(e),
    ).to_set().contains(x) by {
        let i = choose|i: int| 0 <= i < events.len() && event_has_key(#[trigger] events[i], x);
        assert(events.push(e)[i] == events[i]);
    }
    vstd::seq_lib::seq_to_set_is_finite(all_keys(events.push(e)));
    vstd::set_lib::lemma_len_subset(all_keys(events).to_set(), all_keys(events.push(e)).to_set());
}

/// Counts over a list of events.
pub struct AggregationStats {
    pub total_events: u64,
    pub events_with_data: u64,
    pub unique_fields: u64,
}

/// Whether `v` holds `x`.
fn contains_id(v: &Vec<u64>, x: u64) -> (r: bool)
    ensures
        r == v@.contains(x),
{
    let mut j: usize = 0;
    while j < v.len()
        invariant
            j <= v@.len(),
            forall|k: int| 0 <= k < j ==> v@[k] != x,
        decreases v@.len() - j,
    {
        if v[j] == x {
            return true;
        }
        j = j + 1;
    }
    false
}

/// The number of events, of events that carry a data map, and of
/// different keys over all data maps.  Each event is given by the keys of
/// its data map (`None` when it has none).
pub fn aggregation_stats(events: &[Option<Vec<u64>>]) -> (r: AggregationStats)
    ensures
        r.total_events == events@.len(),
        r.events_with_data as nat == events@.filter(|d: Option<Vec<u64>>| d is Some).len(),
        r.unique_fields as nat == all_keys(events@).to_set().len(),
        r.unique_fields as nat == keys_in_some_event(events@).len(),
{
    proof {
        law_unique_keys_grow(events@, None);
    }
    let ghost f = |d: Option<Vec<u64>>| d is Some;
    let mut with_data: u64 = 0;
    let mut seen: Vec<u64> = Vec::new();
    let mut i: usize = 0;
    proof {
        assert(events@.take(0) =~= Seq::<Option<Vec<u64>>>::empty());
        assert(seen@.to_set() =~= all_keys(events@.take(0)).to_set());
        reveal_with_fuel(Seq::<_>::filter, 1);
    }
    while i < events.len()
        invariant
            i <= events@.len(),
            f == (|d: Option<Vec<u64>>| d is Some),
            with_data as nat == events@.take(i as int).filter(f).len(),
            events@.take(i as int).filter(f).len() <= i,
            seen@.no_duplicates(),
            seen@.to_set() == all_keys(events@.take(i as int)).to_set(),
        decreases events@.len() - i,
    {
        let ghost pre = events@.take(i as int);
        proof {
            assert(events@.take(i + 1).drop_last() =~= pre);
            assert(events@.take(i + 1).last() == events@[i as int]);
            reveal_with_fuel(Seq::<_>::filter, 1);
        }
        match &events[i] {
            Some(ks) => {
                with_data = with_data + 1;
                let ghost base = all_keys(pre);
                let mut j: usize = 0;
                assert(base + ks@.take(0) =~= base);
                while j < ks.len()
                    invariant
                        j <= ks@.len(),
                        seen@.no_duplicates(),
                        seen@.to_set() == (base + ks@.take(j as int)).to_set(),
                    decreases ks@.len() - j,
                {
                    let x = ks[j];
                    let ghost acc = base + ks@.take(j as int);
                    proof {
                        assert(base + ks@.take(j + 1) =~= acc.push(x));
                        acc.lemma_push_to_set_commute(x);
                    }
                    if !contains_id(&seen, x) {
                        let ghost before = seen@;
                        seen.push(x);
                        proof {
                            before.lemma_push_to_set_commute(x);
                            assert forall|a: int, b: int|
                                0 <= a < seen@.len() && 0 <= b < seen@.len() && a != b
                                implies seen@[a] != seen@[b] by {
                                if a == before.len() as int {
                                    assert(before.contains(seen@[b]));
                                } else if b == before.len() as int {
                                    assert(before.contains(seen@[a]));
                                }
                            }
                        }
                    } else {
                        proof {
                            assert(seen@.to_set().contains(x));
                            assert(seen@.to_set().insert(x) =~= seen@.to_set());
                        }
                    }
                    j = j + 1;
                }
                proof {
                    assert(ks@.take(ks@.len() as int) =~= ks@);
                    assert(all_keys(events@.take(i + 1)) == base + ks@);
                }
            },
            None => {
                proof {
                    assert(all_keys(events@.take(i + 1)) =~= all_keys(pre));
                }
            },
        }
        i = i + 1;
    }
    proof {
        assert(events@.take(events@.len() as int) =~= events@);
        seen@.unique_seq_to_set();
    }
    AggregationStats {
        total_events: events.len() as u64,
        events_with_data: with_data,
        unique_fields: seen.len() as u64,
    }
}

} // verus!
