//! The host-side simulator's event log.
//!
//! The device shims append one record per side effect (a GPIO write, a
//! sleep); the log serializes as a JSON array of tagged objects, in strict
//! insertion order, for the UI to replay. The serialized stream is handed
//! to the host through a fixed 1024-byte transport buffer, so a stream that
//! would not fit (with its trailing NUL byte) is refused.

use vstd::prelude::*;

use crate::numfmt::{spec_dec_nat, u64_to_dec};

verus! {

/// One side effect captured by the simulator.
#[derive(Debug, Clone, Copy, PartialEq, Eq, Structural)]
pub enum SimulationEvent {
    /// A GPIO output write: `{"gpio_output_set":{"pin":P,"value":V}}`.
    GpioOutputSet { pin: u8, value: u8 },
    /// A sleep: `{"time_delay":{"ticks":T}}`.
    TimeDelay { ticks: u32 },
}

/// Why the simulator refused to hand out the event stream.
#[derive(Debug, Clone, Copy, PartialEq, Eq, Structural)]
pub enum SimulatorError {
    /// The serialized stream, with its trailing NUL byte, exceeds the
    /// 1024-byte transport buffer.
    BufferOverflow,
}

/// The JSON object for one event.
pub open spec fn spec_event_json(e: SimulationEvent) -> Seq<char> {
    match e {
        SimulationEvent::GpioOutputSet { pin, value } => "{\"gpio_output_set\":{\"pin\":"@
            + spec_dec_nat(pin as int) + ",\"value\":"@ + spec_dec_nat(value as int) + "}}"@,
        SimulationEvent::TimeDelay { ticks } => "{\"time_delay\":{\"ticks\":"@ + spec_dec_nat(
            ticks as int,
        ) + "}}"@,
    }
}

/// The comma-separated JSON objects of the first `i` events.
pub open spec fn spec_events_items(events: Seq<SimulationEvent>, i: int) -> Seq<char>
    decreases i,
{
    if i <= 0 {
        Seq::empty()
    } else if i == 1 {
        spec_event_json(events[0])
    } else {
        spec_events_items(events, i - 1) + ","@ + spec_event_json(events[i - 1])
    }
}

/// The JSON array for a whole event log, in insertion order.
pub open spec fn spec_events_json(events: Seq<SimulationEvent>) -> Seq<char> {
    "["@ + spec_events_items(events, events.len() as int) + "]"@
}

/// The JSON object for one event.
fn event_json(e: &SimulationEvent) -> (r: String)
    ensures
        r@ == spec_event_json(*e),
{
    match e {
        SimulationEvent::GpioOutputSet { pin, value } => {
            let mut r = String::from_str("{\"gpio_output_set\":{\"pin\":");
            let pin_text = u64_to_dec(*pin as u64);
            r.append(pin_text.as_str());
            r.append(",\"value\":");
            let value_text = u64_to_dec(*value as u64);
            r.append(value_text.as_str());
            r.append("}}");
            proof {
                assert(r@ =~= spec_event_json(*e));
            }
            r
        },
        SimulationEvent::TimeDelay { ticks } => {
            let mut r = String::from_str("{\"time_delay\":{\"ticks\":");
            let ticks_text = u64_to_dec(*ticks as u64);
            r.append(ticks_text.as_str());
            r.append("}}");
            proof {
                assert(r@ =~= spec_event_json(*e));
            }
            r
        },
    }
}

/// The ordered, append-only log of simulated side effects.
pub struct EventLog {
    events: Vec<SimulationEvent>,
}

impl View for EventLog {
    type V = Seq<SimulationEvent>;

    closed spec fn view(&self) -> Seq<SimulationEvent> {
        self.events@
    }
}

impl EventLog {
    /// An empty log.
    pub fn new() -> (log: Self)
        ensures
            log@ == Seq::<SimulationEvent>::empty(),
    {
        EventLog { events: Vec::new() }
    }

    /// How many events the log holds.
    pub fn len(&self) -> (n: usize)
        ensures
            n == self@.len(),
    {
        self.events.len()
    }

    /// The event at a given position, in insertion order.
    pub fn event_at(&self, i: usize) -> (e: SimulationEvent)
        requires
            i < self@.len(),
        ensures
            e == self@[i as int],
    {
        self.events[i]
    }

    /// Empty the log.
    pub fn clear_simulation_events(&mut self)
        ensures
            final(self)@ == Seq::<SimulationEvent>::empty(),
    {
        self.events = Vec::new();
    }

    /// Configure a GPIO pin for input mode. The simulator records nothing
    /// for it and reports success.
    pub fn bl_gpio_enable_input(&self, _pin: u8, _pullup: u8, _pulldown: u8) -> (r: i32)
        ensures
            r == 0,
    {
        0
    }

    /// Configure a GPIO pin for output mode. The simulator records nothing
    /// for it and reports success.
    pub fn bl_gpio_enable_output(&self, _pin: u8, _pullup: u8, _pulldown: u8) -> (r: i32)
        ensures
            r == 0,
    {
        0
    }

    /// Set the output value of a GPIO pin: appends one
    /// `gpio_output_set` event and reports success.
    pub fn bl_gpio_output_set(&mut self, pin: u8, value: u8) -> (r: i32)
        ensures
            final(self)@ == old(self)@.push(SimulationEvent::GpioOutputSet { pin, value }),
            r == 0,
    {
        self.events.push(SimulationEvent::GpioOutputSet { pin, value });
        0
    }

    /// Sleep for the given number of system ticks: appends one
    /// `time_delay` event.
    pub fn ble_npl_time_delay(&mut self, ticks: u32)
        ensures
            final(self)@ == old(self)@.push(SimulationEvent::TimeDelay { ticks }),
    {
        self.events.push(SimulationEvent::TimeDelay { ticks });
    }

    /// Serialize the whole log as a JSON array, in insertion order. The
    /// stream is refused when it would not fit, with a trailing NUL byte,
    /// into the 1024-byte transport buffer.
    pub fn get_simulation_events(&self) -> (r: Result<String, SimulatorError>)
        ensures
            r is Ok <==> spec_events_json(self@).len() + 1 <= 1024,
            r matches Ok(s) ==> s@ == spec_events_json(self@),
    {
        let mut s = String::from_str("[");
        let n = self.events.len();
        let mut k: usize = 0;
        proof {
            assert(s@ =~= "["@ + spec_events_items(self@, 0));
        }
        while k < n
            invariant
                n == self@.len(),
                k <= n,
                s@ == "["@ + spec_events_items(self@, k as int),
            decreases n - k,
        {
            if k > 0 {
                s.append(",");
            }
            let item = event_json(&self.events[k]);
            s.append(item.as_str());
            k = k + 1;
            proof {
                assert(s@ =~= "["@ + spec_events_items(self@, k as int));
            }
        }
        s.append("]");
        proof {
            assert(s@ =~= spec_events_json(self@));
        }
        let chars = s.as_str().unicode_len();
        if chars <= 1023 {
            Ok(s)
        } else {
            Err(SimulatorError::BufferOverflow)
        }
    }
}

/// Convert milliseconds to system ticks: one tick is one millisecond.
pub fn ble_npl_time_ms_to_ticks32(ms: u32) -> (r: u32)
    ensures
        r == ms,
{
    ms
}

/// The JSON of the first `i` events depends only on those events.
proof fn lemma_events_items_prefix_same(
    a: Seq<SimulationEvent>,
    b: Seq<SimulationEvent>,
    i: int,
)
    requires
        0 <= i <= a.len(),
        i <= b.len(),
        forall|j: int| 0 <= j < i ==> a[j] == b[j],
    ensures
        spec_events_items(a, i) == spec_events_items(b, i),
    decreases i,
{
    if i > 0 {
        lemma_events_items_prefix_same(a, b, i - 1);
    }
}

/// Round trip of the event log: appending one event extends the JSON
/// array by exactly that event's object at the end — after a separating
/// comma when the log was not empty — so a log of N appends serializes to
/// an array of N objects in append order.
pub proof fn lemma_events_json_snoc(events: Seq<SimulationEvent>, e: SimulationEvent)
    ensures
        spec_events_json(events.push(e)) == spec_events_json(events).drop_last() + (
        if events.len() > 0 {
            ","@
        } else {
            Seq::<char>::empty()
        }) + spec_event_json(e) + "]"@,
{
    let n = events.len() as int;
    let pushed = events.push(e);
    lemma_events_items_prefix_same(events, pushed, n);
    reveal_strlit("[");
    reveal_strlit("]");
    reveal_strlit(",");
    if n == 0 {
        assert(spec_events_items(pushed, 1) == spec_event_json(e));
        assert(spec_events_json(events).drop_last() =~= "["@);
        assert(spec_events_json(pushed) =~= spec_events_json(events).drop_last()
            + Seq::<char>::empty() + spec_event_json(e) + "]"@);
    } else {
        assert(spec_events_items(pushed, n + 1) == spec_events_items(pushed, n) + ","@
            + spec_event_json(e));
        assert(spec_events_json(events).drop_last() =~= "["@ + spec_events_items(events, n));
        assert(spec_events_json(pushed) =~= spec_events_json(events).drop_last() + ","@
            + spec_event_json(e) + "]"@);
    }
}

} // verus!
