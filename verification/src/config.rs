use vstd::prelude::*;

verus! {

/// The framework's global switch: whether calling a function records it in
/// the computational graph (so that `backward` can later walk it).
pub struct Config {
    backprop: bool,
}

impl View for Config {
    type V = bool;

    closed spec fn view(&self) -> bool {
        self.backprop
    }
}

impl Config {
    /// A fresh configuration: back-propagation is enabled.
    pub fn new() -> (c: Config)
        ensures
            c@,
    {
        Config { backprop: true }
    }

    /// Whether back-propagation is currently enabled.
    pub fn enable_backprop(&self) -> (b: bool)
        ensures
            b == self@,
    {
        self.backprop
    }

    /// Turns back-propagation on or off.
    pub fn set_enable_backprop(&mut self, b: bool)
        ensures
            final(self)@ == b,
    {
        self.backprop = b;
    }
}

/// Remembers the switch as it was before `no_grad`; handing the guard back
/// with `release` restores it.
pub struct NoGradGuard {
    prev: bool,
}

impl NoGradGuard {
    /// The state of the switch before the guard was taken.
    pub closed spec fn previous(&self) -> bool {
        self.prev
    }

    /// Ends the guarded region: the switch returns to the state it had before
    /// the matching `no_grad`.
    pub fn release(self, config: &mut Config)
        ensures
            final(config)@ == self.previous(),
    {
        config.set_enable_backprop(self.prev);
    }
}

/// Disables back-propagation and returns a guard that remembers the previous
/// state of the switch.
pub fn no_grad(config: &mut Config) -> (guard: NoGradGuard)
    ensures
        !final(config)@,
        guard.previous() == old(config)@,
{
    let prev = config.enable_backprop();
    config.set_enable_backprop(false);
    NoGradGuard { prev }
}

/// How differentiation sets the switch for its own work: unless
/// `create_graph` is set, the gradient computations are not recorded, so the
/// switch is turned off and a guard remembers its previous state; with
/// `create_graph` the switch is left alone and no guard is taken.
pub fn backward_mode(config: &mut Config, create_graph: bool) -> (guard: Option<NoGradGuard>)
    ensures
        create_graph ==> guard is None && final(config)@ == old(config)@,
        !create_graph ==> guard is Some && !final(config)@ && guard.unwrap().previous() == old(config)@,
{
    if create_graph {
        None
    } else {
        Some(no_grad(config))
    }
}

/// Ends differentiation: a guard taken by `backward_mode` is released, which
/// restores the switch; without a guard the switch stays as it is.
pub fn end_backward(guard: Option<NoGradGuard>, config: &mut Config)
    ensures
        match guard {
            Some(g) => final(config)@ == g.previous(),
            None => final(config)@ == old(config)@,
        },
{
    match guard {
        Some(g) => g.release(config),
        None => {},
    }
}

/// Differentiation leaves the switch as it found it: whatever `create_graph`
/// says, the switch after `end_backward` is the switch before
/// `backward_mode`, and without `create_graph` the work in between runs with
/// back-propagation off.
pub proof fn lemma_backward_restores_switch(
    s0: bool,
    create_graph: bool,
    guard: Option<NoGradGuard>,
    s1: bool,
    s2: bool,
)
    requires
// backward_mode
        create_graph ==> guard is None && s1 == s0,
        !create_graph ==> guard is Some && !s1 && guard.unwrap().previous() == s0,
// end_backward
        match guard {
            Some(g) => s2 == g.previous(),
            None => s2 == s1,
        },
    ensures
        s2 == s0,
        !create_graph ==> !s1,
{
}

/// Guards nest: when a guarded region is opened inside another one
/// (`no_grad` twice, then `release` in the reverse order), back-propagation
/// stays off after the inner release and the outer release brings the switch
/// back to its state before the outer `no_grad`.
pub proof fn lemma_no_grad_nesting(
    s0: bool,
    s1: bool,
    s2: bool,
    s3: bool,
    s4: bool,
    outer: NoGradGuard,
    inner: NoGradGuard,
)
    requires
// outer no_grad
        !s1,
        outer.previous() == s0,
// inner no_grad
        !s2,
        inner.previous() == s1,
// inner release, then outer release
        s3 == inner.previous(),
        s4 == outer.previous(),
    ensures
        !s3,
        s4 == s0,
{
}

} // verus!
