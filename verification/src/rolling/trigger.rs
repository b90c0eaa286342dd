//! Split triggers: the conditions on which a rolling writer starts a new file.

use vstd::prelude::*;
use crate::rolling::time::Duration;
use crate::rolling::types::TriggerState;

verus! {

/// A trigger that decides when to split to a new file.
///
/// Triggers are checked before each message write. Multiple triggers can be
/// composed with [`AnyTrigger`] (first to fire wins).
pub trait SplitTrigger {
    /// Whether `fired` is an answer the trigger, in its current state, gives for `state`.
    spec fn answers(&self, state: TriggerState, fired: bool) -> bool;

    /// The trigger's name in its current state.
    spec fn label(&self) -> Seq<char>;

    /// Whether checking the trigger leaves it as it is.
    spec fn check_keeps(&self) -> bool;

    /// Return `true` if the current file should be finalized and a new one started.
    fn should_split(&mut self, state: &TriggerState) -> (r: bool)
        ensures
            old(self).answers(*state, r),
            old(self).check_keeps() ==> final(self).check_keeps() && final(self).label() == old(self).label()
                && forall|s: TriggerState, f: bool| #[trigger] final(self).answers(s, f) == old(self).answers(s, f),
    ;

    /// Whether `fired` is an answer the trigger gives for `state` once reset.
    spec fn answers_after_reset(&self, state: TriggerState, fired: bool) -> bool;

    /// The trigger's name once reset.
    spec fn label_after_reset(&self) -> Seq<char>;

    /// Called when a split occurs. Resets any internal state for the new file.
    fn reset(&mut self)
        ensures
            forall|s: TriggerState, f: bool| #[trigger] final(self).answers(s, f) == old(self).answers_after_reset(s, f),
            final(self).label() == old(self).label_after_reset(),
    ;

    /// Human-readable name for logging and diagnostics.
    fn name(&self) -> (r: &str)
        ensures
            r@ == self.label(),
    ;
}

/// Split when the estimated file size exceeds a threshold.
pub struct MaxSize {
    max_bytes: u64,
}

impl MaxSize {
    /// Create a trigger that fires when the estimated file size exceeds `max_bytes`.
    pub fn new(max_bytes: u64) -> (r: MaxSize)
        ensures
            r.limit() == max_bytes,
    {
        MaxSize { max_bytes }
    }

    /// The size limit.
    pub closed spec fn limit(&self) -> u64 {
        self.max_bytes
    }
}

impl SplitTrigger for MaxSize {
    open spec fn answers(&self, state: TriggerState, fired: bool) -> bool {
        fired == (state.estimated_file_size > self.limit())
    }

    open spec fn label(&self) -> Seq<char> {
        "MaxSize"@
    }

    open spec fn answers_after_reset(&self, state: TriggerState, fired: bool) -> bool {
        self.answers(state, fired)
    }

    open spec fn label_after_reset(&self) -> Seq<char> {
        self.label()
    }

    open spec fn check_keeps(&self) -> bool {
        true
    }

    fn should_split(&mut self, state: &TriggerState) -> (r: bool)
        ensures
            *final(self) == *old(self),
    {
        state.estimated_file_size > self.max_bytes
    }

    fn reset(&mut self)
        ensures
            *final(self) == *old(self),
    {
    }

    fn name(&self) -> (r: &str) {
        "MaxSize"
    }
}

/// Split after a wall-clock duration has elapsed since the file was opened.
pub struct WallDuration {
    max_duration: Duration,
}

impl WallDuration {
    /// Create a trigger that fires when wall-clock time since file open exceeds `max_duration`.
    pub fn new(max_duration: Duration) -> (r: WallDuration)
        ensures
            r.limit() == max_duration,
    {
        WallDuration { max_duration }
    }

    /// The duration limit.
    pub closed spec fn limit(&self) -> Duration {
        self.max_duration
    }
}

impl SplitTrigger for WallDuration {
    open spec fn answers(&self, state: TriggerState, fired: bool) -> bool {
        fired == (state.wall_elapsed@ > self.limit()@)
    }

    open spec fn label(&self) -> Seq<char> {
        "WallDuration"@
    }

    open spec fn answers_after_reset(&self, state: TriggerState, fired: bool) -> bool {
        self.answers(state, fired)
    }

    open spec fn label_after_reset(&self) -> Seq<char> {
        self.label()
    }

    open spec fn check_keeps(&self) -> bool {
        true
    }

    fn should_split(&mut self, state: &TriggerState) -> (r: bool)
        ensures
            *final(self) == *old(self),
    {
        state.wall_elapsed.is_longer_than(&self.max_duration)
    }

    fn reset(&mut self)
        ensures
            *final(self) == *old(self),
    {
    }

    fn name(&self) -> (r: &str) {
        "WallDuration"
    }
}

/// Split when the log-time span within the current file exceeds a threshold (nanoseconds).
pub struct LogDuration {
    max_duration_ns: u64,
}

impl LogDuration {
    /// Create a trigger that fires when the log-time span exceeds `max_duration_ns` nanoseconds.
    pub fn new(max_duration_ns: u64) -> (r: LogDuration)
        ensures
            r.limit() == max_duration_ns,
    {
        LogDuration { max_duration_ns }
    }

    /// The log-time span limit, in nanoseconds.
    pub closed spec fn limit(&self) -> u64 {
        self.max_duration_ns
    }
}

impl SplitTrigger for LogDuration {
    open spec fn answers(&self, state: TriggerState, fired: bool) -> bool {
        fired == (state.log_time_span > self.limit())
    }

    open spec fn label(&self) -> Seq<char> {
        "LogDuration"@
    }

    open spec fn answers_after_reset(&self, state: TriggerState, fired: bool) -> bool {
        self.answers(state, fired)
    }

    open spec fn label_after_reset(&self) -> Seq<char> {
        self.label()
    }

    open spec fn check_keeps(&self) -> bool {
        true
    }

    fn should_split(&mut self, state: &TriggerState) -> (r: bool)
        ensures
            *final(self) == *old(self),
    {
        state.log_time_span > self.max_duration_ns
    }

    fn reset(&mut self)
        ensures
            *final(self) == *old(self),
    {
    }

    fn name(&self) -> (r: &str) {
        "LogDuration"
    }
}

/// Split after a fixed number of messages have been written to the current file.
pub struct MessageCount {
    max_messages: u64,
}

impl MessageCount {
    /// Create a trigger that fires when the message count reaches `max_messages`.
    pub fn new(max_messages: u64) -> (r: MessageCount)
        ensures
            r.limit() == max_messages,
    {
        MessageCount { max_messages }
    }

    /// The message count limit.
    pub closed spec fn limit(&self) -> u64 {
        self.max_messages
    }
}

impl SplitTrigger for MessageCount {
    open spec fn answers(&self, state: TriggerState, fired: bool) -> bool {
        fired == (state.message_count >= self.limit())
    }

    open spec fn label(&self) -> Seq<char> {
        "MessageCount"@
    }

    open spec fn answers_after_reset(&self, state: TriggerState, fired: bool) -> bool {
        self.answers(state, fired)
    }

    open spec fn label_after_reset(&self) -> Seq<char> {
        self.label()
    }

    open spec fn check_keeps(&self) -> bool {
        true
    }

    fn should_split(&mut self, state: &TriggerState) -> (r: bool)
        ensures
            *final(self) == *old(self),
    {
        state.message_count >= self.max_messages
    }

    fn reset(&mut self)
        ensures
            *final(self) == *old(self),
    {
    }

    fn name(&self) -> (r: &str) {
        "MessageCount"
    }
}

/// Split based on a user-provided closure.
///
/// `should_split` answers what the closure returns: a caller whose closure
/// states its result in an `ensures` learns the answer from that clause.
pub struct FnTrigger<F: Fn(&TriggerState) -> bool> {
    name: String,
    func: F,
}

impl<F: Fn(&TriggerState) -> bool> FnTrigger<F> {
    /// The closure accepts every trigger state.
    #[verifier::type_invariant]
    spec fn inv(&self) -> bool {
        forall|s: TriggerState| call_requires(self.func, (&s,))
    }

    /// Create a trigger named `name` that fires when `func` returns `true`.
    pub fn new(name: &str, func: F) -> (r: FnTrigger<F>)
        requires
            forall|s: TriggerState| call_requires(func, (&s,)),
        ensures
            r.label() == name@,
            r.func() == func,
    {
        FnTrigger { name: name.to_owned(), func }
    }

    /// The closure deciding the split.
    pub closed spec fn func(&self) -> F {
        self.func
    }
}

impl<F: Fn(&TriggerState) -> bool> SplitTrigger for FnTrigger<F> {
    open spec fn answers(&self, state: TriggerState, fired: bool) -> bool {
        call_ensures(self.func(), (&state,), fired)
    }

    closed spec fn label(&self) -> Seq<char> {
        self.name@
    }

    open spec fn answers_after_reset(&self, state: TriggerState, fired: bool) -> bool {
        self.answers(state, fired)
    }

    open spec fn label_after_reset(&self) -> Seq<char> {
        self.label()
    }

    open spec fn check_keeps(&self) -> bool {
        true
    }

    fn should_split(&mut self, state: &TriggerState) -> (r: bool)
        ensures
            *final(self) == *old(self),
            call_ensures(old(self).func(), (state,), r),
    {
        proof { use_type_invariant(&*self); }
        (self.func)(state)
    }

    fn reset(&mut self)
        ensures
            *final(self) == *old(self),
    {
    }

    fn name(&self) -> (r: &str) {
        self.name.as_str()
    }
}

/// Whether child `i` is the first of `children` to fire for `state`.
pub open spec fn first_to_fire(children: Seq<Box<dyn SplitTrigger>>, state: TriggerState, i: int) -> bool {
    &&& 0 <= i < children.len()
    &&& children[i].answers(state, true)
    &&& forall|j: int| 0 <= j < i ==> #[trigger] children[j].answers(state, false)
}

/// Whether child `i` would be the first of `children` to fire for `state`
/// once every child is reset.
pub open spec fn first_to_fire_after_reset(children: Seq<Box<dyn SplitTrigger>>, state: TriggerState, i: int) -> bool {
    &&& 0 <= i < children.len()
    &&& children[i].answers_after_reset(state, true)
    &&& forall|j: int| 0 <= j < i ==> #[trigger] children[j].answers_after_reset(state, false)
}

/// One child of a composite trigger.
struct ChildTrigger {
    trigger: Box<dyn SplitTrigger>,
}

impl ChildTrigger {
    fn new<T: SplitTrigger + 'static>(trigger: T) -> (r: ChildTrigger) {
        let b: Box<dyn SplitTrigger> = Box::new(trigger);
        ChildTrigger { trigger: b }
    }
}

/// The triggers held by `children`, in order.
closed spec fn unboxed(children: Seq<ChildTrigger>) -> Seq<Box<dyn SplitTrigger>> {
    Seq::new(children.len(), |i: int| children[i].trigger)
}

/// Compose multiple triggers: split when ANY child trigger fires.
pub struct AnyTrigger {
    triggers: Vec<ChildTrigger>,
    last_fired: Option<String>,
}

impl AnyTrigger {
    /// Create an empty composite trigger.
    pub fn new() -> (r: AnyTrigger)
        ensures
            r.children().len() == 0,
            r.last_fired() is None,
    {
        AnyTrigger { triggers: Vec::new(), last_fired: None }
    }

    /// Add a child trigger. The composite fires when any child fires.
    /// The contract keeps the earlier children and their order; it does
    /// not state that the new last child answers as `trigger` does, since a
    /// trigger of a generic type keeps no stated link to its boxed form.
    pub fn or<T: SplitTrigger + 'static>(self, trigger: T) -> (r: AnyTrigger)
        ensures
            r.children().len() == self.children().len() + 1,
            r.children().subrange(0, self.children().len() as int) == self.children(),
            r.last_fired() == self.last_fired(),
    {
        let mut s = self;
        let child = ChildTrigger::new(trigger);
        let ghost t0 = s.triggers@;
        s.triggers.push(child);
        assert(unboxed(s.triggers@).subrange(0, t0.len() as int) =~= unboxed(t0));
        s
    }

    /// The child triggers, in the order they are asked.
    pub closed spec fn children(&self) -> Seq<Box<dyn SplitTrigger>> {
        unboxed(self.triggers@)
    }

    /// The name of the child that fired last, since the last reset.
    pub closed spec fn last_fired(&self) -> Option<Seq<char>> {
        match self.last_fired {
            Some(n) => Some(n@),
            None => None,
        }
    }
}

impl SplitTrigger for AnyTrigger {
    open spec fn answers(&self, state: TriggerState, fired: bool) -> bool {
        if fired {
            exists|i: int| first_to_fire(self.children(), state, i)
        } else {
            forall|i: int| 0 <= i < self.children().len() ==> #[trigger] self.children()[i].answers(state, false)
        }
    }

    open spec fn label(&self) -> Seq<char> {
        match self.last_fired() {
            Some(n) => n,
            None => "AnyTrigger"@,
        }
    }

    open spec fn answers_after_reset(&self, state: TriggerState, fired: bool) -> bool {
        if fired {
            exists|i: int| first_to_fire_after_reset(self.children(), state, i)
        } else {
            forall|i: int| 0 <= i < self.children().len() ==> #[trigger] self.children()[i].answers_after_reset(state, false)
        }
    }

    open spec fn label_after_reset(&self) -> Seq<char> {
        "AnyTrigger"@
    }

    open spec fn check_keeps(&self) -> bool {
        false
    }

    fn should_split(&mut self, state: &TriggerState) -> (r: bool)
        ensures
            final(self).children().len() == old(self).children().len(),
            r ==> exists|i: int| first_to_fire(old(self).children(), *state, i)
                && final(self).last_fired() == Some(final(self).children()[i].label())
                && forall|j: int| i < j < old(self).children().len() ==> #[trigger] final(self).children()[j] == old(self).children()[j],
            !r ==> final(self).last_fired() == old(self).last_fired(),
            forall|i: int| 0 <= i < old(self).children().len() && #[trigger] old(self).children()[i].check_keeps()
                ==> (final(self).children()[i].check_keeps() && final(self).children()[i].label() == old(self).children()[i].label() && forall|s: TriggerState, f: bool| #[trigger] final(self).children()[i].answers(s, f) == old(self).children()[i].answers(s, f)),
    {
        let n = self.triggers.len();
        let mut i: usize = 0;
        let ghost c0 = old(self).children();
        while i < n
            invariant
                n == c0.len(),
                i <= n,
                self.triggers@.len() == n,
                self.last_fired == old(self).last_fired,
                c0 == old(self).children(),
                forall|j: int| i <= j < n ==> #[trigger] self.triggers@[j].trigger == c0[j],
                forall|j: int| 0 <= j < i ==> #[trigger] c0[j].answers(*state, false),
                forall|j: int| 0 <= j < i && #[trigger] c0[j].check_keeps() ==> (self.triggers@[j].trigger.check_keeps() && self.triggers@[j].trigger.label() == c0[j].label() && forall|s: TriggerState, f: bool| #[trigger] self.triggers@[j].trigger.answers(s, f) == c0[j].answers(s, f)),
            decreases n - i,
        {
            let fired = self.triggers[i].trigger.should_split(state);
            if fired {
                let name = self.triggers[i].trigger.name().to_owned();
                self.last_fired = Some(name);
                assert(first_to_fire(old(self).children(), *state, i as int));
                return true;
            }
            i += 1;
        }
        false
    }

    fn reset(&mut self)
        ensures
            final(self).last_fired() is None,
            final(self).children().len() == old(self).children().len(),
            forall|i: int, s: TriggerState, f: bool| 0 <= i < old(self).children().len() ==>
                #[trigger] final(self).children()[i].answers(s, f) == old(self).children()[i].answers_after_reset(s, f),
            forall|i: int| 0 <= i < old(self).children().len() ==>
                #[trigger] final(self).children()[i].label() == old(self).children()[i].label_after_reset(),
    {
        let ghost c0 = self.children();
        self.last_fired = None;
        let n = self.triggers.len();
        let mut i: usize = 0;
        while i < n
            invariant
                i <= n,
                n == c0.len(),
                c0 == old(self).children(),
                self.triggers@.len() == n,
                self.last_fired is None,
                forall|j: int| i <= j < n ==> #[trigger] self.triggers@[j].trigger == c0[j],
                forall|j: int, s: TriggerState, f: bool| 0 <= j < i ==>
                    #[trigger] self.triggers@[j].trigger.answers(s, f) == c0[j].answers_after_reset(s, f),
                forall|j: int| 0 <= j < i ==>
                    #[trigger] self.triggers@[j].trigger.label() == c0[j].label_after_reset(),
            decreases n - i,
        {
            self.triggers[i].trigger.reset();
            i += 1;
        }
        let ghost c1 = self.children();
        assert(c1.len() == n);
        assert forall|j: int, s: TriggerState, f: bool| 0 <= j < n implies
            #[trigger] c1[j].answers(s, f) == c0[j].answers_after_reset(s, f) by {
            assert(c1[j] == self.triggers@[j].trigger);
        }
        assert forall|s: TriggerState, f: bool| #[trigger] self.answers(s, f) == old(self).answers_after_reset(s, f) by {
            if f {
                if exists|k: int| first_to_fire(c1, s, k) {
                    let k = choose|k: int| first_to_fire(c1, s, k);
                    assert forall|j: int| 0 <= j < k implies #[trigger] c0[j].answers_after_reset(s, false) by {
                        assert(c1[j].answers(s, false));
                    }
                    assert(c0[k].answers_after_reset(s, true));
                    assert(first_to_fire_after_reset(c0, s, k));
                }
                if exists|k: int| first_to_fire_after_reset(c0, s, k) {
                    let k = choose|k: int| first_to_fire_after_reset(c0, s, k);
                    assert forall|j: int| 0 <= j < k implies #[trigger] c1[j].answers(s, false) by {
                        assert(c0[j].answers_after_reset(s, false));
                    }
                    assert(c1[k].answers(s, true));
                    assert(first_to_fire(c1, s, k));
                }
            } else {
                if forall|k: int| 0 <= k < n ==> #[trigger] c1[k].answers(s, false) {
                    assert forall|k: int| 0 <= k < n implies #[trigger] c0[k].answers_after_reset(s, false) by {
                        assert(c1[k].answers(s, false));
                    }
                }
                if forall|k: int| 0 <= k < n ==> #[trigger] c0[k].answers_after_reset(s, false) {
                    assert forall|k: int| 0 <= k < n implies #[trigger] c1[k].answers(s, false) by {
                        assert(c0[k].answers_after_reset(s, false));
                    }
                }
            }
        }
    }

    fn name(&self) -> (r: &str) {
        match &self.last_fired {
            Some(n) => n.as_str(),
            None => {
                proof { reveal_strlit("AnyTrigger"); }
                "AnyTrigger"
            },
        }
    }
}

} // verus!
