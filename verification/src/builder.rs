//! The explanation builder: collect a state, an algorithm, a motion and a
//! timing under one name, then take them out together.

use vstd::prelude::*;

verus! {

/// The standard explanation pattern, `(name, state, algorithm, motion,
/// timing)`. Everything but the name and the timing is optional until taken;
/// the timing starts at its default.
pub struct ExplanationBuilder<S, A, M, T = ()> {
    pub name: &'static str,
    pub state: Option<S>,
    pub algorithm: Option<A>,
    pub motion: Option<M>,
    pub timing: T,
}

impl<S, A, M, T: Default> ExplanationBuilder<S, A, M, T> {
    /// A builder with nothing set and the timing at its default.
    pub fn new(name: &'static str) -> (b: Self)
        ensures
            b.name == name,
            b.state is None,
            b.algorithm is None,
            b.motion is None,
            call_ensures(T::default, (), b.timing),
    {
        ExplanationBuilder { name, state: None, algorithm: None, motion: None, timing: T::default() }
    }
}

/// One setter call on a builder, with its value.
pub enum Setting<S, A, M, T> {
    State(S),
    Algorithm(A),
    Motion(M),
    Timing(T),
}

/// The builder after one setter call: the field it names takes the value,
/// every other field stays.
pub open spec fn apply_setting<S, A, M, T>(b: ExplanationBuilder<S, A, M, T>, x: Setting<S, A, M, T>) -> ExplanationBuilder<S, A, M, T> {
    match x {
        Setting::State(s) => ExplanationBuilder { state: Some(s), ..b },
        Setting::Algorithm(a) => ExplanationBuilder { algorithm: Some(a), ..b },
        Setting::Motion(m) => ExplanationBuilder { motion: Some(m), ..b },
        Setting::Timing(t) => ExplanationBuilder { timing: t, ..b },
    }
}

/// The builder after a run of setter calls, first to last.
pub open spec fn apply_settings<S, A, M, T>(b: ExplanationBuilder<S, A, M, T>, xs: Seq<Setting<S, A, M, T>>) -> ExplanationBuilder<S, A, M, T>
    decreases xs.len(),
{
    if xs.len() == 0 {
        b
    } else {
        apply_setting(apply_settings(b, xs.drop_last()), xs.last())
    }
}

/// The last state set in a run of setter calls, if any.
pub open spec fn last_state<S, A, M, T>(xs: Seq<Setting<S, A, M, T>>) -> Option<S>
    decreases xs.len(),
{
    if xs.len() == 0 {
        None
    } else {
        match xs.last() {
            Setting::State(s) => Some(s),
            _ => last_state(xs.drop_last()),
        }
    }
}

/// The last algorithm set in a run of setter calls, if any.
pub open spec fn last_algorithm<S, A, M, T>(xs: Seq<Setting<S, A, M, T>>) -> Option<A>
    decreases xs.len(),
{
    if xs.len() == 0 {
        None
    } else {
        match xs.last() {
            Setting::Algorithm(a) => Some(a),
            _ => last_algorithm(xs.drop_last()),
        }
    }
}

/// The last motion set in a run of setter calls, if any.
pub open spec fn last_motion<S, A, M, T>(xs: Seq<Setting<S, A, M, T>>) -> Option<M>
    decreases xs.len(),
{
    if xs.len() == 0 {
        None
    } else {
        match xs.last() {
            Setting::Motion(m) => Some(m),
            _ => last_motion(xs.drop_last()),
        }
    }
}

/// The last timing set in a run of setter calls, if any.
pub open spec fn last_timing<S, A, M, T>(xs: Seq<Setting<S, A, M, T>>) -> Option<T>
    decreases xs.len(),
{
    if xs.len() == 0 {
        None
    } else {
        match xs.last() {
            Setting::Timing(t) => Some(t),
            _ => last_timing(xs.drop_last()),
        }
    }
}

/// What taking a builder gives: all four values, or the name of the first
/// missing one in the order state, algorithm, motion.
pub open spec fn taken<S, A, M, T>(b: ExplanationBuilder<S, A, M, T>) -> Result<(S, A, M, T), Seq<char>> {
    match (b.state, b.algorithm, b.motion) {
        (Some(s), Some(a), Some(m)) => Ok((s, a, m, b.timing)),
        (None, _, _) => Err("state"@),
        (Some(_), None, _) => Err("algorithm"@),
        (Some(_), Some(_), None) => Err("motion"@),
    }
}

/// Setters may be called in any order and any number of times: after a run
/// of them, each field holds the last value set for it, or what the builder
/// held before when none was set, and the name stays.
pub proof fn law_settings_in_any_order<S, A, M, T>(b: ExplanationBuilder<S, A, M, T>, xs: Seq<Setting<S, A, M, T>>)
    ensures
        apply_settings(b, xs).name == b.name,
        apply_settings(b, xs).state == (match last_state(xs) {
            Some(s) => Some(s),
            None => b.state,
        }),
        apply_settings(b, xs).algorithm == (match last_algorithm(xs) {
            Some(a) => Some(a),
            None => b.algorithm,
        }),
        apply_settings(b, xs).motion == (match last_motion(xs) {
            Some(m) => Some(m),
            None => b.motion,
        }),
        apply_settings(b, xs).timing == (match last_timing(xs) {
            Some(t) => t,
            None => b.timing,
        }),
    decreases xs.len(),
{
    if xs.len() > 0 {
        law_settings_in_any_order(b, xs.drop_last());
    }
}

/// Once state, algorithm and motion have each been set, in whatever order,
/// taking gives the last value set of each, with the last timing set, or the
/// builder's own timing when none was.
pub proof fn law_take_after_settings<S, A, M, T>(b: ExplanationBuilder<S, A, M, T>, xs: Seq<Setting<S, A, M, T>>)
    requires
        last_state(xs) is Some,
        last_algorithm(xs) is Some,
        last_motion(xs) is Some,
    ensures
        taken(apply_settings(b, xs)) == Ok::<(S, A, M, T), Seq<char>>((
            last_state(xs)->0,
            last_algorithm(xs)->0,
            last_motion(xs)->0,
            match last_timing(xs) {
                Some(t) => t,
                None => b.timing,
            },
        )),
{
    law_settings_in_any_order(b, xs);
}

impl<S, A, M, T> ExplanationBuilder<S, A, M, T> {
    /// Set the state, keeping everything else.
    pub fn state(self, state: S) -> (b: Self)
        ensures
            b == apply_setting(self, Setting::State(state)),
    {
        ExplanationBuilder { state: Some(state), ..self }
    }

    /// Set the algorithm, keeping everything else.
    pub fn algorithm(self, algorithm: A) -> (b: Self)
        ensures
            b == apply_setting(self, Setting::Algorithm(algorithm)),
    {
        ExplanationBuilder { algorithm: Some(algorithm), ..self }
    }

    /// Set the motion, keeping everything else.
    pub fn motion(self, motion: M) -> (b: Self)
        ensures
            b == apply_setting(self, Setting::Motion(motion)),
    {
        ExplanationBuilder { motion: Some(motion), ..self }
    }

    /// Replace the timing, keeping everything else.
    pub fn timing(self, timing: T) -> (b: Self)
        ensures
            b == apply_setting(self, Setting::Timing(timing)),
    {
        ExplanationBuilder { timing, ..self }
    }

    /// Accepts a view constructor and keeps the builder as it is; views are
    /// built by the caller's own helpers.
    pub fn view<V, F: Fn() -> V>(self, _view: F) -> (b: Self)
        ensures
            b == self,
    {
        self
    }

    /// All four values, or the name of the first missing one in the order
    /// state, algorithm, motion.
    pub fn take(self) -> (r: Result<(S, A, M, T), &'static str>)
        ensures
            match taken(self) {
                Ok(v) => r == Ok::<(S, A, M, T), &'static str>(v),
                Err(n) => r matches Err(e) && e@ == n,
            },
    {
        let s = match self.state {
            Some(s) => s,
            None => return Err("state"),
        };
        let a = match self.algorithm {
            Some(a) => a,
            None => return Err("algorithm"),
        };
        let m = match self.motion {
            Some(m) => m,
            None => return Err("motion"),
        };
        Ok((s, a, m, self.timing))
    }
}

} // verus!
