use vstd::prelude::*;
use crate::layout::Rect;

verus! {

/// A pointer event at the widget boundary: a string-keyed event kind plus the
/// pointer's grid coordinates.
pub struct PointerEvent {
    pub kind: String,
    pub x: u16,
    pub y: u16,
}

/// One registered handler slot: the event kind it listens for. The handler
/// itself lives with the caller; a widget answers with the slot's index.
pub struct EventBinding {
    pub name: String,
}

impl Clone for EventBinding {
    fn clone(&self) -> (r: Self)
        ensures
            r.name@ == self.name@,
    {
        EventBinding { name: self.name.clone() }
    }
}

/// Index of the first binding listening for `kind`, in registration order.
pub open spec fn spec_first_match(events: Seq<EventBinding>, kind: Seq<char>) -> Option<int>
    decreases events.len(),
{
    if events.len() == 0 {
        None
    } else if events[0].name@ == kind {
        Some(0)
    } else {
        match spec_first_match(events.drop_first(), kind) {
            Some(i) => Some(i + 1),
            None => None,
        }
    }
}

/// What a widget's hit test answers: the first matching binding when the
/// event falls inside `area`, nothing otherwise.
pub open spec fn spec_triggered(
    events: Seq<EventBinding>,
    area: Rect,
    event: PointerEvent,
) -> Option<int> {
    if area.spec_hit(event.x as int, event.y as int) {
        spec_first_match(events, event.kind@)
    } else {
        None
    }
}

proof fn lemma_first_match_char(events: Seq<EventBinding>, kind: Seq<char>, i: int)
    requires
        0 <= i <= events.len(),
        forall|m: int| 0 <= m < i ==> #[trigger] events[m].name@ != kind,
        i < events.len() ==> events[i].name@ == kind,
    ensures
        spec_first_match(events, kind) == if i < events.len() {
            Some(i)
        } else {
            None::<int>
        },
    decreases events.len(),
{
    if events.len() == 0 {
    } else if events[0].name@ == kind {
        assert(i == 0);
    } else {
        assert(i >= 1);
        assert(forall|m: int|
            0 <= m < i - 1 ==> #[trigger] events.drop_first()[m] == events[m + 1]);
        if i < events.len() {
            assert(events.drop_first()[i - 1] == events[i]);
        }
        lemma_first_match_char(events.drop_first(), kind, i - 1);
    }
}

/// Returns the index of the first binding whose kind matches `event`, when
/// the event's coordinate falls inside `area`; `None` otherwise.
pub fn match_handler(events: &Vec<EventBinding>, area: Rect, event: &PointerEvent) -> (r: Option<
    usize,
>)
    requires
        area.wf(),
    ensures
        match spec_triggered(events@, area, *event) {
            Some(i) => r is Some && r->Some_0 == i,
            None => r is None,
        },
{
    if !area.hit(event.x, event.y) {
        return None;
    }
    let mut i: usize = 0;
    while i < events.len()
        invariant
            i <= events.len(),
            forall|m: int| 0 <= m < i as int ==> #[trigger] events@[m].name@ != event.kind@,
            area.spec_hit(event.x as int, event.y as int),
        decreases events.len() - i,
    {
        if events[i].name == event.kind {
            proof {
                lemma_first_match_char(events@, event.kind@, i as int);
            }
            return Some(i);
        }
        i += 1;
    }
    proof {
        lemma_first_match_char(events@, event.kind@, events@.len() as int);
    }
    None
}

} // verus!
