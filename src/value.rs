use vstd::prelude::*;

verus! {

/// The abstract state of a flag value container.
pub struct FlagValueModel<T> {
    pub current: Option<T>,
    pub initialized: bool,
}

/// The state of a fresh container holding `default`.
pub open spec fn fresh_model<T>(default: Option<T>) -> FlagValueModel<T> {
    FlagValueModel { current: default, initialized: false }
}

/// The state after an unconditional overwrite with `t`.
pub open spec fn overwritten<T>(m: FlagValueModel<T>, t: T) -> FlagValueModel<T> {
    FlagValueModel { current: Some(t), initialized: m.initialized }
}

/// The state after an attempt to initialize with `t`, and whether it took
/// effect: only a container that was never initialized accepts it.
pub open spec fn initialized_with<T>(m: FlagValueModel<T>, t: T) -> (FlagValueModel<T>, bool) {
    if m.initialized {
        (m, false)
    } else {
        (FlagValueModel { current: Some(t), initialized: true }, true)
    }
}

/// Holds one flag's current value (or its default) and whether it was
/// initialized; initialization happens at most once.
#[derive(Debug)]
pub struct FlagValue<T: Clone> {
    value: Option<T>,
    initialized: bool,
}

impl<T: Clone> View for FlagValue<T> {
    type V = FlagValueModel<T>;

    closed spec fn view(&self) -> FlagValueModel<T> {
        FlagValueModel { current: self.value, initialized: self.initialized }
    }
}

impl<T: Clone> FlagValue<T> {
    /// An initialized container always holds a value.
    pub open spec fn wf(&self) -> bool {
        self@.initialized ==> self@.current.is_some()
    }

    /// A container that holds `default` and was never initialized.
    pub fn new(default: Option<T>) -> (r: FlagValue<T>)
        ensures
            r.wf(),
            r@ == fresh_model(default),
    {
        FlagValue { value: default, initialized: false }
    }

    /// The current value: the initialized one, else the default.
    pub fn get(&self) -> (r: Option<T>)
        ensures
            r.is_some() == self@.current.is_some(),
            r.is_some() ==> cloned(self@.current.unwrap(), r.unwrap()),
    {
        self.value.clone()
    }

    pub fn is_initialized(&self) -> (r: bool)
        ensures
            r == self@.initialized,
    {
        self.initialized
    }

    /// Overwrites the current value; whether the container counts as
    /// initialized is left as it was.
    pub fn set_raw(&mut self, t: T)
        ensures
            final(self)@ == overwritten(old(self)@, t),
            final(self).wf(),
    {
        self.value = Some(t);
    }

    /// The first initialization wins: returns `false` and changes nothing
    /// when the container was already initialized.
    pub fn initialize(&mut self, t: T) -> (r: bool)
        requires
            old(self).wf(),
        ensures
            (final(self)@, r) == initialized_with(old(self)@, t),
            final(self).wf(),
    {
        if self.initialized {
            return false;
        }
        self.set_raw(t);
        self.initialized = true;
        true
    }
}

/// Once-only: after an initialization that took effect, any further
/// initialization is refused and the first value stays.
pub proof fn lemma_once_only<T>(m: FlagValueModel<T>, v1: T, v2: T)
    requires
        initialized_with(m, v1).1,
    ensures
        ({
            let m1 = initialized_with(m, v1).0;
            &&& m1.current == Some(v1)
            &&& initialized_with(m1, v2) == (m1, false)
        }),
{
}

/// An overwrite after an initialization changes the value, and later
/// initializations are still refused.
pub proof fn lemma_overwrite_after_initialize<T>(m: FlagValueModel<T>, v1: T, v: T, w: T)
    requires
        initialized_with(m, v1).1,
    ensures
        ({
            let m2 = overwritten(initialized_with(m, v1).0, v);
            &&& m2.current == Some(v)
            &&& initialized_with(m2, w) == (m2, false)
        }),
{
}

/// An overwrite does not count as the first initialization: a container
/// that was never initialized still accepts one afterwards.
pub proof fn lemma_overwrite_is_not_initialization<T>(m: FlagValueModel<T>, v: T, w: T)
    requires
        !m.initialized,
    ensures
        initialized_with(overwritten(m, v), w) == (FlagValueModel { current: Some(w), initialized: true }, true),
{
}

} // verus!
