use vstd::prelude::*;
use crate::error::{FlagInitErr, FlagParseAndSetErr, FlagParseErr, FlagSetErr, InitErr};
use crate::parse::FlagParseable;
use crate::value::FlagValue;

verus! {

/// The abstract state of a flag, over the views of its values.
pub struct FlagModel<V> {
    pub name: Seq<char>,
    pub current: Option<V>,
    pub initialized: bool,
    pub overwritable: bool,
}

/// The state of a fresh flag.
pub open spec fn declared<V>(name: Seq<char>, default: Option<V>) -> FlagModel<V> {
    FlagModel { name, current: default, initialized: false, overwritable: false }
}

/// Defaults: a flag that was declared and never set holds its default,
/// and holds no value when it was declared without one.
pub proof fn lemma_default_visible<V>(name: Seq<char>, default: Option<V>)
    ensures
        declared(name, default).current == default,
        !declared(name, default).initialized,
        default is None ==> declared(name, default).current is None,
{
}

/// The state after `current` became `v` and the flag counts as initialized.
pub open spec fn initialized_to<V>(m: FlagModel<V>, v: V) -> FlagModel<V> {
    FlagModel { name: m.name, current: Some(v), initialized: true, overwritable: m.overwritable }
}

/// The state after setting the flag from the text `lit`: it changes only
/// when the text parses and the flag was never initialized.
pub open spec fn after_literal<T: FlagParseable>(m: FlagModel<T::V>, lit: Seq<char>) -> FlagModel<T::V> {
    match T::parse_spec(lit) {
        Some(v) => if m.initialized { m } else { initialized_to(m, v) },
        None => m,
    }
}

/// Whether `r` is what setting the flag from `lit` reports.
pub open spec fn literal_outcome<T: FlagParseable>(
    m: FlagModel<T::V>,
    lit: Seq<char>,
    r: Result<(), FlagParseAndSetErr>,
) -> bool {
    match T::parse_spec(lit) {
        None => match r {
            Err(FlagParseAndSetErr::ParseErr(FlagParseErr::InvalidValue(t))) => T::reports(lit, t@),
            _ => false,
        },
        Some(_) => if m.initialized {
            r == Err::<(), FlagParseAndSetErr>(FlagParseAndSetErr::SetErr(FlagInitErr::AlreadyInitialized))
        } else {
            r == Ok::<(), FlagParseAndSetErr>(())
        },
    }
}

/// A named, typed flag: its value starts at the default, is initialized at
/// most once, and can be overwritten by tests.
#[derive(Debug)]
pub struct Flag<T: FlagParseable> {
    name: String,
    value: FlagValue<T>,
    allow_overwrite: bool,
}

impl<T: FlagParseable> View for Flag<T> {
    type V = FlagModel<T::V>;

    closed spec fn view(&self) -> FlagModel<T::V> {
        FlagModel {
            name: self.name@,
            current: match self.value@.current {
                Some(t) => Some(t@),
                None => None,
            },
            initialized: self.value@.initialized,
            overwritable: self.allow_overwrite,
        }
    }
}

impl<T: FlagParseable> Flag<T> {
    pub closed spec fn wf(&self) -> bool {
        self.value.wf()
    }

    fn new_internal(name: String, value: Option<T>) -> (r: Flag<T>)
        ensures
            r.wf(),
            r@ == declared(name@, match value { Some(t) => Some(t@), None => None }),
    {
        Flag { name, value: FlagValue::new(value), allow_overwrite: false }
    }

    /// A flag named `name` that holds `default` until it is set.
    pub fn new_statically(name: String, default: Option<T>) -> (r: Flag<T>)
        ensures
            r.wf(),
            r@ == declared(name@, match default { Some(t) => Some(t@), None => None }),
    {
        Flag::new_internal(name, default)
    }

    /// A flag named `name` that holds `value` until it is set.
    pub fn with_default(name: &str, value: T) -> (r: Flag<T>)
        ensures
            r.wf(),
            r@ == declared(name@, Some(value@)),
    {
        Flag::new_internal(name.to_owned(), Some(value))
    }

    /// A flag named `name` with no value until it is set.
    pub fn new(name: &str) -> (r: Flag<T>)
        ensures
            r.wf(),
            r@ == declared(name@, None::<T::V>),
    {
        Flag::new_internal(name.to_owned(), None)
    }

    pub fn get_name(&self) -> (r: &str)
        ensures
            r@ == self@.name,
    {
        self.name.as_str()
    }

    /// The current value: the one set, else the default.
    pub fn get_value(&self) -> (r: Option<T>)
        ensures
            r.is_some() == self@.current.is_some(),
            r.is_some() ==> r.unwrap()@ == self@.current.unwrap(),
    {
        let r = self.value.get();
        proof {
            if r.is_some() {
                T::lemma_clone_keeps_view(self.value@.current.unwrap(), r.unwrap());
            }
        }
        r
    }

    /// Overwrites the value for a test; the flag does not count as
    /// initialized on that account.
    pub fn set_for_testing(&mut self, v: T)
        requires
            old(self).wf(),
        ensures
            final(self).wf(),
            final(self)@ == (FlagModel { current: Some(v@), ..old(self)@ }),
    {
        self.value.set_raw(v);
    }

    /// Whether `set` may overwrite an initialized value.
    pub fn set_overwritable(&mut self, setting: bool)
        requires
            old(self).wf(),
        ensures
            final(self).wf(),
            final(self)@ == (FlagModel { overwritable: setting, ..old(self)@ }),
    {
        self.allow_overwrite = setting;
    }

    /// Overwrites an initialized value, where overwrites are allowed.
    pub fn set(&mut self, v: T) -> (r: Result<(), FlagSetErr>)
        requires
            old(self).wf(),
        ensures
            final(self).wf(),
            !old(self)@.initialized ==> r == Err::<(), FlagSetErr>(FlagSetErr::Uninitialized),
            old(self)@.initialized && !old(self)@.overwritable ==> r == Err::<(), FlagSetErr>(
                FlagSetErr::OverwriteNotAllowed,
            ),
            r.is_ok() == (old(self)@.initialized && old(self)@.overwritable),
            r.is_ok() ==> final(self)@ == (FlagModel { current: Some(v@), ..old(self)@ }),
            r.is_err() ==> final(self)@ == old(self)@,
    {
        if !self.value.is_initialized() {
            return Err(FlagSetErr::Uninitialized);
        }
        if !self.allow_overwrite {
            return Err(FlagSetErr::OverwriteNotAllowed);
        }
        self.value.set_raw(v);
        Ok(())
    }

    /// Initializes the flag with `v`, unless it was initialized before.
    pub fn set_internal(&mut self, v: T) -> (r: Result<(), FlagInitErr>)
        requires
            old(self).wf(),
        ensures
            final(self).wf(),
            r.is_ok() == !old(self)@.initialized,
            r.is_err() ==> r == Err::<(), FlagInitErr>(FlagInitErr::AlreadyInitialized),
            r.is_ok() ==> final(self)@ == initialized_to(old(self)@, v@),
            r.is_err() ==> final(self)@ == old(self)@,
    {
        if self.value.initialize(v) {
            Ok(())
        } else {
            Err(FlagInitErr::AlreadyInitialized)
        }
    }

    /// Parses `s` as a value of the flag's type and initializes the flag
    /// with it.
    pub fn parse_and_set(&mut self, s: &str) -> (r: Result<(), FlagParseAndSetErr>)
        requires
            old(self).wf(),
        ensures
            final(self).wf(),
            final(self)@ == after_literal::<T>(old(self)@, s@),
            literal_outcome::<T>(old(self)@, s@, r),
    {
        match T::parse_from_str(s) {
            Ok(v) => match self.set_internal(v) {
                Ok(()) => Ok(()),
                Err(e) => Err(FlagParseAndSetErr::SetErr(e)),
            },
            Err(text) => Err(FlagParseAndSetErr::ParseErr(FlagParseErr::InvalidValue(text))),
        }
    }

    /// Sets the flag from text, reporting in the terms of a pending
    /// registration.
    pub fn try_set_statically(&mut self, s: &str) -> (r: Result<(), InitErr>)
        requires
            old(self).wf(),
        ensures
            final(self).wf(),
            final(self)@ == after_literal::<T>(old(self)@, s@),
            match T::parse_spec(s@) {
                None => match r {
                    Err(InitErr::FailedToParse(t)) => T::reports(s@, t@),
                    _ => false,
                },
                Some(_) => if old(self)@.initialized {
                    r == Err::<(), InitErr>(InitErr::AlreadyInitOnce)
                } else {
                    r == Ok::<(), InitErr>(())
                },
            },
    {
        match self.parse_and_set(s) {
            Ok(()) => Ok(()),
            Err(FlagParseAndSetErr::ParseErr(FlagParseErr::InvalidValue(t))) => Err(InitErr::FailedToParse(t)),
            Err(FlagParseAndSetErr::SetErr(_)) => Err(InitErr::AlreadyInitOnce),
        }
    }
}

} // verus!
