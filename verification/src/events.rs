//! Change notifications: one event per record that entered or left a category,
//! and the function that turns one category's diff into its event list.

use vstd::prelude::*;
use crate::ids::IdSet;

verus! {

/// One change notification, ready to be fanned out: a kind tag such as
/// `live_add` or `live_rem`, and a payload that is either a serialized record
/// (for additions) or a bare decimal id (for removals).
#[derive(Debug)]
pub struct LiveEvent {
    pub event_type: String,
    pub json: String,
}

/// The mathematical content of one event: its kind tag and payload as
/// character sequences.
pub struct EventView {
    pub event_type: Seq<char>,
    pub json: Seq<char>,
}

impl View for LiveEvent {
    type V = EventView;

    open spec fn view(&self) -> EventView {
        EventView { event_type: self.event_type@, json: self.json@ }
    }
}

impl LiveEvent {
    /// A copy of this event with the same kind tag and payload.
    pub fn duplicate(&self) -> (r: LiveEvent)
        ensures
            r@ == self@,
    {
        LiveEvent { event_type: self.event_type.clone(), json: self.json.clone() }
    }
}

/// The character a single decimal digit prints as.
pub open spec fn digit_char(d: int) -> char {
    if d == 0 {
        '0'
    } else if d == 1 {
        '1'
    } else if d == 2 {
        '2'
    } else if d == 3 {
        '3'
    } else if d == 4 {
        '4'
    } else if d == 5 {
        '5'
    } else if d == 6 {
        '6'
    } else if d == 7 {
        '7'
    } else if d == 8 {
        '8'
    } else {
        '9'
    }
}

/// The decimal digits of a non-negative integer, most significant first.
pub open spec fn decimal_digits(n: nat) -> Seq<char>
    decreases n,
{
    if n < 10 {
        seq![digit_char(n as int)]
    } else {
        decimal_digits(n / 10).push(digit_char((n % 10) as int))
    }
}

/// The decimal rendering of an integer: its digits, with a leading `-` when
/// it is negative.
pub open spec fn decimal_of(i: int) -> Seq<char> {
    if i < 0 {
        seq!['-'] + decimal_digits((-i) as nat)
    } else {
        decimal_digits(i as nat)
    }
}

/// The one-character text of a single decimal digit.
fn digit_str(d: u8) -> (r: &'static str)
    requires
        d < 10,
    ensures
        r@ == seq![digit_char(d as int)],
{
    proof {
        reveal_strlit("0");
        reveal_strlit("1");
        reveal_strlit("2");
        reveal_strlit("3");
        reveal_strlit("4");
        reveal_strlit("5");
        reveal_strlit("6");
        reveal_strlit("7");
        reveal_strlit("8");
        reveal_strlit("9");
    }
    match d {
        0 => "0",
        1 => "1",
        2 => "2",
        3 => "3",
        4 => "4",
        5 => "5",
        6 => "6",
        7 => "7",
        8 => "8",
        _ => "9",
    }
}

/// The digits `ds`, least significant first, read back most significant
/// first as characters.
spec fn chars_rev(ds: Seq<u8>) -> Seq<char>
    decreases ds.len(),
{
    if ds.len() == 0 {
        Seq::empty()
    } else {
        seq![digit_char(ds.last() as int)] + chars_rev(ds.drop_last())
    }
}

proof fn lemma_chars_rev_index(ds: Seq<u8>, t: int)
    requires
        0 <= t < ds.len(),
    ensures
        chars_rev(ds).len() == ds.len(),
        chars_rev(ds)[t] == digit_char(ds[ds.len() - 1 - t] as int),
    decreases ds.len(),
{
    lemma_chars_rev_len(ds);
    if t > 0 {
        lemma_chars_rev_index(ds.drop_last(), t - 1);
    }
}

proof fn lemma_chars_rev_len(ds: Seq<u8>)
    ensures
        chars_rev(ds).len() == ds.len(),
    decreases ds.len(),
{
    if ds.len() > 0 {
        lemma_chars_rev_len(ds.drop_last());
    }
}

/// Render an integer as its decimal text, digits out of a division loop, a
/// leading `-` when it is negative.
pub fn isize_to_string(i: isize) -> (s: String)
    ensures
        s@ == decimal_of(i as int),
{
    let neg = i < 0;
    let mag: u128 = if i < 0 {
        (-(i as i128)) as u128
    } else {
        i as u128
    };
    let ghost n: nat = mag as nat;
    proof {
        if i < 0 {
            assert(mag == -(i as int));
        } else {
            assert(mag == i as int);
        }
    }

    let mut digits: Vec<u8> = Vec::new();
    let mut m: u128 = mag;
    proof {
        if m > 0 {
            assert(decimal_digits(n) =~= decimal_digits(n) + chars_rev(digits@));
        }
    }
    loop
        invariant_except_break
            m == 0 ==> (digits@.len() == 0 && n == 0),
            m > 0 ==> decimal_digits(n) == decimal_digits(m as nat) + chars_rev(digits@),
        invariant
            forall|k: int| 0 <= k < digits@.len() ==> digits@[k] < 10,
        ensures
            digits@.len() > 0,
            forall|k: int| 0 <= k < digits@.len() ==> digits@[k] < 10,
            decimal_digits(n) == chars_rev(digits@),
        decreases m,
    {
        let ghost digits0 = digits@;
        let ghost m0 = m;
        let d = (m % 10) as u8;
        digits.push(d);
        m = m / 10;
        proof {
            assert(digits@.drop_last() =~= digits0);
            assert(chars_rev(digits@) == seq![digit_char(d as int)] + chars_rev(digits0));
            if m0 == 0 {
                assert(decimal_digits(n) =~= chars_rev(digits@));
            } else if m0 < 10 {
                assert(decimal_digits(m0 as nat) =~= seq![digit_char(d as int)]);
                assert(decimal_digits(m0 as nat) + chars_rev(digits0) =~= chars_rev(digits@));
            } else {
                assert(decimal_digits(m0 as nat) == decimal_digits((m0 as nat) / 10).push(
                    digit_char(((m0 as nat) % 10) as int),
                ));
                assert(decimal_digits((m0 as nat) / 10).push(digit_char(((m0 as nat) % 10) as int))
                    + chars_rev(digits0) =~= decimal_digits((m0 as nat) / 10) + chars_rev(
                    digits@,
                ));
            }
        }
        if m == 0 {
            break;
        }
    }

    let ghost target = decimal_of(i as int);
    let mut s = String::new();
    if neg {
        proof {
            reveal_strlit("-");
        }
        s.append("-");
    }
    let ghost off: int = if neg {
        1
    } else {
        0
    };
    let ghost sign: Seq<char> = if neg {
        seq!['-']
    } else {
        Seq::empty()
    };
    proof {
        lemma_chars_rev_len(digits@);
        assert(target =~= sign + chars_rev(digits@));
        assert(s@ =~= target.take(off));
    }

    let total = digits.len();
    let mut j: usize = total;
    while j > 0
        invariant
            j <= total,
            total == digits@.len(),
            forall|k: int| 0 <= k < digits@.len() ==> digits@[k] < 10,
            off == sign.len(),
            target == sign + chars_rev(digits@),
            target.len() == off + total,
            s@ == target.take(off + (total - j)),
        decreases j,
    {
        j -= 1;
        let ghost t = total - 1 - j;
        s.append(digit_str(digits[j]));
        proof {
            lemma_chars_rev_index(digits@, t);
            assert(target[off + t] == digit_char(digits@[j as int] as int));
            assert(target.take(off + t + 1) =~= target.take(off + t).push(target[off + t]));
            assert(s@ =~= target.take(off + t + 1));
        }
    }
    proof {
        assert(target.take(target.len() as int) =~= target);
    }
    s
}

/// The addition events of one category: for each record of the poll whose id
/// is not in the baseline, in poll order, an event tagged `t` carrying the
/// record's serialized payload.
pub open spec fn add_events_of(
    prev: Seq<isize>,
    ids: Seq<isize>,
    jsons: Seq<Seq<char>>,
    t: Seq<char>,
) -> Seq<EventView>
    decreases ids.len(),
{
    if ids.len() == 0 {
        Seq::empty()
    } else {
        let rest = add_events_of(prev, ids.drop_last(), jsons.drop_last(), t);
        if prev.contains(ids.last()) {
            rest
        } else {
            rest.push(EventView { event_type: t, json: jsons.last() })
        }
    }
}

/// The removal events of one category: for each baseline id with no
/// occurrence in the poll, in baseline order, an event tagged `t` carrying
/// the bare decimal id.
pub open spec fn rem_events_of(prev: Seq<isize>, cur: Seq<isize>, t: Seq<char>) -> Seq<EventView>
    decreases prev.len(),
{
    if prev.len() == 0 {
        Seq::empty()
    } else {
        let rest = rem_events_of(prev.drop_last(), cur, t);
        if cur.contains(prev.last()) {
            rest
        } else {
            rest.push(EventView { event_type: t, json: decimal_of(prev.last() as int) })
        }
    }
}

/// The full event list of one category for one poll: every addition, in poll
/// order, followed by every removal, in baseline order.
pub open spec fn events_of(
    prev: Seq<isize>,
    ids: Seq<isize>,
    jsons: Seq<Seq<char>>,
    add_t: Seq<char>,
    rem_t: Seq<char>,
) -> Seq<EventView> {
    add_events_of(prev, ids, jsons, add_t) + rem_events_of(prev, ids, rem_t)
}

/// The views of a vector of events.
pub open spec fn views_of(events: Seq<LiveEvent>) -> Seq<EventView> {
    events.map_values(|e: LiveEvent| e@)
}

/// The views of a vector of strings.
pub open spec fn str_views(strings: Seq<String>) -> Seq<Seq<char>> {
    strings.map_values(|s: String| s@)
}

/// Build one category's events for one poll: `ids` are the ids of the polled
/// records, `jsons` their serialized payloads, position by position.
pub fn make_events(
    previous: &IdSet,
    ids: &Vec<isize>,
    jsons: &Vec<String>,
    add_type: &str,
    rem_type: &str,
) -> (events: Vec<LiveEvent>)
    requires
        ids@.len() == jsons@.len(),
    ensures
        views_of(events@) == events_of(previous@, ids@, str_views(jsons@), add_type@, rem_type@),
{
    let ghost jviews = str_views(jsons@);
    let mut events: Vec<LiveEvent> = Vec::new();
    let mut i: usize = 0;
    while i < ids.len()
        invariant
            ids@.len() == jsons@.len(),
            jviews == str_views(jsons@),
            i <= ids@.len(),
            views_of(events@) == add_events_of(
                previous@,
                ids@.take(i as int),
                jviews.take(i as int),
                add_type@,
            ),
        decreases ids@.len() - i,
    {
        proof {
            assert(ids@.take(i + 1).drop_last() =~= ids@.take(i as int));
            assert(jviews.take(i + 1).drop_last() =~= jviews.take(i as int));
            assert(ids@.take(i + 1).last() == ids@[i as int]);
            assert(jviews.take(i + 1).last() == jviews[i as int]);
        }
        if !previous.contains(ids[i]) {
            let ev = LiveEvent { event_type: String::from_str(add_type), json: jsons[i].clone() };
            let ghost before = events@;
            events.push(ev);
            proof {
                assert(views_of(events@) =~= views_of(before).push(ev@));
            }
        }
        i += 1;
    }
    proof {
        assert(ids@.take(ids@.len() as int) =~= ids@);
        assert(jviews.take(jviews.len() as int) =~= jviews);
    }

    let n = previous.len();
    let mut j: usize = 0;
    while j < n
        invariant
            n == previous@.len(),
            j <= n,
            ids@.len() == jsons@.len(),
            jviews == str_views(jsons@),
            views_of(events@) == add_events_of(previous@, ids@, jviews, add_type@)
                + rem_events_of(previous@.take(j as int), ids@, rem_type@),
        decreases n - j,
    {
        proof {
            assert(previous@.take(j + 1).drop_last() =~= previous@.take(j as int));
            assert(previous@.take(j + 1).last() == previous@[j as int]);
        }
        if !crate::ids::ids_contain(ids, previous.get(j)) {
            let ev = LiveEvent {
                event_type: String::from_str(rem_type),
                json: isize_to_string(previous.get(j)),
            };
            let ghost before = events@;
            events.push(ev);
            proof {
                assert(views_of(events@) =~= views_of(before).push(ev@));
            }
        }
        j += 1;
    }
    proof {
        assert(previous@.take(previous@.len() as int) =~= previous@);
    }
    events
}

} // verus!
