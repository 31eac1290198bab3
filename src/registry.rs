use vstd::prelude::*;
use crate::error::{FlagInitErr, FlagParseAndSetErr, FlagParseErr, FlagRegistryErr, FlagResolveErr, GlobalInitErr, InitErr};
use crate::list::{join_commas, lemma_split_join, parse_all, split_commas, FlagList};
use crate::flag::{after_literal, initialized_to, literal_outcome, Flag, FlagModel};
use crate::parse::{FlagParseable, decimal_value, is_digit, same_text, signed_value, unsigned_value};

verus! {

/// A flag of any supported type, so that one registry holds them all.
#[derive(Debug)]
pub enum AnyFlag {
    Bool(Flag<bool>),
    U8(Flag<u8>),
    U32(Flag<u32>),
    U64(Flag<u64>),
    I8(Flag<i8>),
    I32(Flag<i32>),
    I64(Flag<i64>),
    Str(Flag<String>),
    StrList(Flag<FlagList<String>>),
    I64List(Flag<FlagList<i64>>),
}

/// The abstract state of a flag of any supported type.
pub enum AnyFlagModel {
    Bool(FlagModel<bool>),
    U8(FlagModel<u8>),
    U32(FlagModel<u32>),
    U64(FlagModel<u64>),
    I8(FlagModel<i8>),
    I32(FlagModel<i32>),
    I64(FlagModel<i64>),
    Str(FlagModel<Seq<char>>),
    StrList(FlagModel<Seq<Seq<char>>>),
    I64List(FlagModel<Seq<i64>>),
}

impl View for AnyFlag {
    type V = AnyFlagModel;

    open spec fn view(&self) -> AnyFlagModel {
        match self {
            AnyFlag::Bool(f) => AnyFlagModel::Bool(f@),
            AnyFlag::U8(f) => AnyFlagModel::U8(f@),
            AnyFlag::U32(f) => AnyFlagModel::U32(f@),
            AnyFlag::U64(f) => AnyFlagModel::U64(f@),
            AnyFlag::I8(f) => AnyFlagModel::I8(f@),
            AnyFlag::I32(f) => AnyFlagModel::I32(f@),
            AnyFlag::I64(f) => AnyFlagModel::I64(f@),
            AnyFlag::Str(f) => AnyFlagModel::Str(f@),
            AnyFlag::StrList(f) => AnyFlagModel::StrList(f@),
            AnyFlag::I64List(f) => AnyFlagModel::I64List(f@),
        }
    }
}

/// The state after setting the flag from the text `lit`.
pub open spec fn any_after(m: AnyFlagModel, lit: Seq<char>) -> AnyFlagModel {
    match m {
        AnyFlagModel::Bool(f) => AnyFlagModel::Bool(after_literal::<bool>(f, lit)),
        AnyFlagModel::U8(f) => AnyFlagModel::U8(after_literal::<u8>(f, lit)),
        AnyFlagModel::U32(f) => AnyFlagModel::U32(after_literal::<u32>(f, lit)),
        AnyFlagModel::U64(f) => AnyFlagModel::U64(after_literal::<u64>(f, lit)),
        AnyFlagModel::I8(f) => AnyFlagModel::I8(after_literal::<i8>(f, lit)),
        AnyFlagModel::I32(f) => AnyFlagModel::I32(after_literal::<i32>(f, lit)),
        AnyFlagModel::I64(f) => AnyFlagModel::I64(after_literal::<i64>(f, lit)),
        AnyFlagModel::Str(f) => AnyFlagModel::Str(after_literal::<String>(f, lit)),
        AnyFlagModel::StrList(f) => AnyFlagModel::StrList(after_literal::<FlagList<String>>(f, lit)),
        AnyFlagModel::I64List(f) => AnyFlagModel::I64List(after_literal::<FlagList<i64>>(f, lit)),
    }
}

/// Whether `r` is what setting the flag from the text `lit` reports.
pub open spec fn any_outcome(m: AnyFlagModel, lit: Seq<char>, r: Result<(), FlagParseAndSetErr>) -> bool {
    match m {
        AnyFlagModel::Bool(f) => literal_outcome::<bool>(f, lit, r),
        AnyFlagModel::U8(f) => literal_outcome::<u8>(f, lit, r),
        AnyFlagModel::U32(f) => literal_outcome::<u32>(f, lit, r),
        AnyFlagModel::U64(f) => literal_outcome::<u64>(f, lit, r),
        AnyFlagModel::I8(f) => literal_outcome::<i8>(f, lit, r),
        AnyFlagModel::I32(f) => literal_outcome::<i32>(f, lit, r),
        AnyFlagModel::I64(f) => literal_outcome::<i64>(f, lit, r),
        AnyFlagModel::Str(f) => literal_outcome::<String>(f, lit, r),
        AnyFlagModel::StrList(f) => literal_outcome::<FlagList<String>>(f, lit, r),
        AnyFlagModel::I64List(f) => literal_outcome::<FlagList<i64>>(f, lit, r),
    }
}

impl AnyFlag {
    pub open spec fn wf(&self) -> bool {
        match self {
            AnyFlag::Bool(f) => f.wf(),
            AnyFlag::U8(f) => f.wf(),
            AnyFlag::U32(f) => f.wf(),
            AnyFlag::U64(f) => f.wf(),
            AnyFlag::I8(f) => f.wf(),
            AnyFlag::I32(f) => f.wf(),
            AnyFlag::I64(f) => f.wf(),
            AnyFlag::Str(f) => f.wf(),
            AnyFlag::StrList(f) => f.wf(),
            AnyFlag::I64List(f) => f.wf(),
        }
    }

    /// Parses `s` as a value of the flag's type and initializes the flag
    /// with it.
    pub fn parse_and_set(&mut self, s: &str) -> (r: Result<(), FlagParseAndSetErr>)
        requires
            old(self).wf(),
        ensures
            final(self).wf(),
            final(self)@ == any_after(old(self)@, s@),
            any_outcome(old(self)@, s@, r),
    {
        match self {
            AnyFlag::Bool(f) => f.parse_and_set(s),
            AnyFlag::U8(f) => f.parse_and_set(s),
            AnyFlag::U32(f) => f.parse_and_set(s),
            AnyFlag::U64(f) => f.parse_and_set(s),
            AnyFlag::I8(f) => f.parse_and_set(s),
            AnyFlag::I32(f) => f.parse_and_set(s),
            AnyFlag::I64(f) => f.parse_and_set(s),
            AnyFlag::Str(f) => f.parse_and_set(s),
            AnyFlag::StrList(f) => f.parse_and_set(s),
            AnyFlag::I64List(f) => f.parse_and_set(s),
        }
    }
}

/// The abstract state of a registration: the flag and where it was declared.
pub struct EntryModel {
    pub name: Seq<char>,
    pub file: Seq<char>,
    pub line: u32,
    pub flag: AnyFlagModel,
}

/// A flag's registration: its name, its declaration site and the flag.
#[derive(Debug)]
pub struct FlagInitializer {
    name: String,
    file_name: String,
    line_number: u32,
    flag: AnyFlag,
}

impl View for FlagInitializer {
    type V = EntryModel;

    closed spec fn view(&self) -> EntryModel {
        EntryModel { name: self.name@, file: self.file_name@, line: self.line_number, flag: self.flag@ }
    }
}

impl FlagInitializer {
    pub closed spec fn wf(&self) -> bool {
        self.flag.wf()
    }

    /// The registration of `initialize` under `name`, declared at
    /// `file_name:line_number`.
    pub fn new(name: String, file_name: String, line_number: u32, initialize: AnyFlag) -> (r: FlagInitializer)
        requires
            initialize.wf(),
        ensures
            r.wf(),
            r@ == (EntryModel { name: name@, file: file_name@, line: line_number, flag: initialize@ }),
    {
        FlagInitializer { name, file_name, line_number, flag: initialize }
    }

    pub fn flag_name(&self) -> (r: &str)
        ensures
            r@ == self@.name,
    {
        self.name.as_str()
    }

    pub fn file(&self) -> (r: &str)
        ensures
            r@ == self@.file,
    {
        self.file_name.as_str()
    }

    pub fn line(&self) -> (r: u32)
        ensures
            r == self@.line,
    {
        self.line_number
    }

    pub fn flag(&self) -> (r: &AnyFlag)
        ensures
            r@ == self@.flag,
            self.wf() ==> r.wf(),
    {
        &self.flag
    }

    /// Sets the registered flag from text.
    pub fn set_statically(&mut self, s: &str) -> (r: Result<(), InitErr>)
        requires
            old(self).wf(),
        ensures
            final(self).wf(),
            final(self)@ == (EntryModel { flag: any_after(old(self)@.flag, s@), ..old(self)@ }),
            any_outcome(old(self)@.flag, s@, match r {
                Ok(()) => Ok(()),
                Err(InitErr::AlreadyInitOnce) => Err(FlagParseAndSetErr::SetErr(FlagInitErr::AlreadyInitialized)),
                Err(InitErr::FailedToParse(t)) => Err(FlagParseAndSetErr::ParseErr(FlagParseErr::InvalidValue(t))),
            }),
    {
        match self.flag.parse_and_set(s) {
            Ok(()) => Ok(()),
            Err(FlagParseAndSetErr::ParseErr(FlagParseErr::InvalidValue(t))) => Err(InitErr::FailedToParse(t)),
            Err(FlagParseAndSetErr::SetErr(_)) => Err(InitErr::AlreadyInitOnce),
        }
    }
}

/// The views of a list of registrations.
pub open spec fn entries_view(v: Seq<FlagInitializer>) -> Seq<EntryModel> {
    v.map_values(|e: FlagInitializer| e@)
}

/// No two registrations share a name.
pub open spec fn names_unique(entries: Seq<EntryModel>) -> bool {
    forall|i: int, j: int|
        0 <= i < entries.len() && 0 <= j < entries.len() && i != j ==> #[trigger] entries[i].name
            != #[trigger] entries[j].name
}

/// Whether some registration is named `name`.
pub open spec fn has_name(entries: Seq<EntryModel>, name: Seq<char>) -> bool {
    exists|i: int| 0 <= i < entries.len() && #[trigger] entries[i].name == name
}

/// The position of the registration named `name`, if there is one.
pub open spec fn lookup(entries: Seq<EntryModel>, name: Seq<char>) -> Option<int> {
    if has_name(entries, name) {
        Some(choose|i: int| 0 <= i < entries.len() && #[trigger] entries[i].name == name)
    } else {
        None
    }
}

/// Whether the drained registration at position `i` of `batch` shares its
/// name with an indexed flag or with another drained registration.
pub open spec fn collides(flags: Seq<EntryModel>, batch: Seq<EntryModel>, i: int) -> bool {
    ||| has_name(flags, batch[i].name)
    ||| exists|j: int| 0 <= j < batch.len() && j != i && #[trigger] batch[j].name == batch[i].name
}

/// The registrations among the first `n` of `batch` that collide, in order.
pub open spec fn collision_sites(flags: Seq<EntryModel>, batch: Seq<EntryModel>, n: int) -> Seq<EntryModel>
    decreases n,
{
    if n <= 0 {
        Seq::empty()
    } else {
        let rest = collision_sites(flags, batch, n - 1);
        if collides(flags, batch, n - 1) {
            rest.push(batch[n - 1])
        } else {
            rest
        }
    }
}

/// The indexed flags after draining `batch`: all of it is indexed when no
/// registration collides, none of it otherwise.
pub open spec fn populated(flags: Seq<EntryModel>, batch: Seq<EntryModel>) -> Seq<EntryModel> {
    if collision_sites(flags, batch, batch.len() as int).len() == 0 {
        flags + batch
    } else {
        flags
    }
}

/// Whether `errs` reports exactly the registrations `sites`, each with its
/// name and its declaration site.
pub open spec fn reports_sites(errs: Seq<(String, GlobalInitErr)>, sites: Seq<EntryModel>) -> bool {
    &&& errs.len() == sites.len()
    &&& forall|i: int|
        0 <= i < errs.len() ==> {
            &&& (#[trigger] errs[i]).0@ == sites[i].name
            &&& match errs[i].1 {
                GlobalInitErr::SharesNameWith { file_name, line_number } => file_name@ == sites[i].file
                    && line_number == sites[i].line,
                _ => false,
            }
        }
}

proof fn lemma_no_sites_no_collision(flags: Seq<EntryModel>, batch: Seq<EntryModel>, n: int, i: int)
    requires
        0 <= i < n <= batch.len(),
        collision_sites(flags, batch, n).len() == 0,
    ensures
        !collides(flags, batch, i),
    decreases n,
{
    if i < n - 1 {
        if !collides(flags, batch, n - 1) {
            lemma_no_sites_no_collision(flags, batch, n - 1, i);
        }
    }
}

/// Whether another registration of `batch` than the one at `i` is named as
/// that one.
fn named_elsewhere(batch: &Vec<FlagInitializer>, i: usize) -> (r: bool)
    requires
        i < batch@.len(),
    ensures
        r == exists|j: int|
            0 <= j < batch@.len() && j != i && #[trigger] entries_view(batch@)[j].name == entries_view(
                batch@,
            )[i as int].name,
{
    let ghost v = entries_view(batch@);
    let mut j: usize = 0;
    while j < batch.len()
        invariant
            i < batch@.len(),
            j <= batch@.len(),
            v == entries_view(batch@),
            forall|k: int| 0 <= k < j && k != i ==> (#[trigger] v[k]).name != v[i as int].name,
        decreases batch.len() - j,
    {
        if j != i && same_text(batch[j].name.as_str(), batch[i].name.as_str()) {
            assert(v[j as int].name == v[i as int].name);
            return true;
        }
        j = j + 1;
    }
    false
}

/// Whether `key` has the negation prefix `no-`.
pub open spec fn negated(key: Seq<char>) -> bool {
    key.len() >= 3 && key[0] == 'n' && key[1] == 'o' && key[2] == '-'
}

/// The key `no-<name>`.
pub open spec fn negation_of(name: Seq<char>) -> Seq<char> {
    seq!['n', 'o', '-'] + name
}

/// The flag that the input `key` with `val` sets, and the text it is set
/// from: the flag named `key` with `val`, or `true` when there is no value;
/// else, for a key `no-<name>` without a value, the flag `<name>` with
/// `false`.
pub open spec fn target(flags: Seq<EntryModel>, key: Seq<char>, val: Option<Seq<char>>) -> Option<(int, Seq<char>)> {
    match lookup(flags, key) {
        Some(i) => Some((i, match val {
            Some(v) => v,
            None => "true"@,
        })),
        None => if val.is_none() && negated(key) {
            match lookup(flags, key.skip(3)) {
                Some(i) => Some((i, "false"@)),
                None => None,
            }
        } else {
            None
        },
    }
}

/// The indexed flags after resolving one input entry.
pub open spec fn resolved_one(flags: Seq<EntryModel>, key: Seq<char>, val: Option<Seq<char>>) -> Seq<EntryModel> {
    match target(flags, key, val) {
        Some((i, lit)) => flags.update(i, EntryModel { flag: any_after(flags[i].flag, lit), ..flags[i] }),
        None => flags,
    }
}

/// Whether `r` is what resolving one input entry reports.
pub open spec fn key_outcome(
    flags: Seq<EntryModel>,
    key: Seq<char>,
    val: Option<Seq<char>>,
    r: Result<(), FlagResolveErr>,
) -> bool {
    match target(flags, key, val) {
        None => r == Err::<(), FlagResolveErr>(FlagResolveErr::UndefinedFlag),
        Some((i, lit)) => match r {
            Ok(()) => any_outcome(flags[i].flag, lit, Ok(())),
            Err(FlagResolveErr::ParseAndSetErr(e)) => any_outcome(flags[i].flag, lit, Err(e)),
            Err(FlagResolveErr::UndefinedFlag) => false,
        },
    }
}

/// The view of a tokenized input: keys with optional values.
pub open spec fn input_view(input: Seq<(String, Option<String>)>) -> Seq<(Seq<char>, Option<Seq<char>>)> {
    input.map_values(
        |p: (String, Option<String>)|
            (p.0@, match p.1 {
                Some(v) => Some(v@),
                None => None,
            }),
    )
}

/// The indexed flags after resolving the first `n` input entries in order.
pub open spec fn resolved_prefix(
    flags: Seq<EntryModel>,
    input: Seq<(Seq<char>, Option<Seq<char>>)>,
    n: int,
) -> Seq<EntryModel>
    decreases n,
{
    if n <= 0 {
        flags
    } else {
        let before = resolved_prefix(flags, input, n - 1);
        resolved_one(before, input[n - 1].0, input[n - 1].1)
    }
}

/// The failed entries among resolution outcomes, in order.
pub open spec fn failures(outcomes: Seq<(String, Result<(), FlagResolveErr>)>) -> Seq<(String, FlagResolveErr)>
    decreases outcomes.len(),
{
    if outcomes.len() == 0 {
        Seq::empty()
    } else {
        let rest = failures(outcomes.drop_first());
        match outcomes[0].1 {
            Ok(()) => rest,
            Err(e) => seq![(outcomes[0].0, e)] + rest,
        }
    }
}

/// The keys of a resolution that failed, each with its error.
#[derive(Debug)]
pub struct FlagResolveResult {
    pub errors: Vec<(String, FlagResolveErr)>,
}

impl FlagResolveResult {
    /// Keeps the failed outcomes, in order.
    pub fn from_outcomes(outcomes: Vec<(String, Result<(), FlagResolveErr>)>) -> (r: FlagResolveResult)
        ensures
            r.errors@ == failures(outcomes@),
    {
        let mut rest = outcomes;
        let mut errors: Vec<(String, FlagResolveErr)> = Vec::new();
        while rest.len() > 0
            invariant
                errors@ + failures(rest@) == failures(outcomes@),
            decreases rest@.len(),
        {
            let ghost before = rest@;
            let (key, res) = rest.remove(0);
            assert(rest@ =~= before.drop_first());
            match res {
                Ok(()) => {},
                Err(e) => {
                    let ghost prev = errors@;
                    errors.push((key, e));
                    assert(prev + failures(before) =~= errors@ + failures(rest@));
                },
            }
        }
        assert(errors@ + failures(rest@) =~= errors@);
        FlagResolveResult { errors }
    }

    /// Whether every key was resolved.
    pub fn is_success(&self) -> (r: bool)
        ensures
            r == (self.errors@.len() == 0),
    {
        self.errors.len() == 0
    }
}

/// The abstract state of a registry: registrations waiting to be drained,
/// and the flags indexed by name.
pub struct RegistryModel {
    pub pending: Seq<EntryModel>,
    pub flags: Seq<EntryModel>,
}

/// The registry of declared flags. Declarations are queued as pending and
/// indexed by name when the queue is drained; input is then resolved
/// against the indexed flags.
pub struct FlagRegistry {
    pending: Vec<FlagInitializer>,
    flags: Vec<FlagInitializer>,
}

impl View for FlagRegistry {
    type V = RegistryModel;

    closed spec fn view(&self) -> RegistryModel {
        RegistryModel { pending: entries_view(self.pending@), flags: entries_view(self.flags@) }
    }
}

impl FlagRegistry {
    /// Names are unique among the indexed flags, and every flag is well formed.
    pub closed spec fn wf(&self) -> bool {
        &&& self@.flags.len() == self.flags@.len()
        &&& names_unique(self@.flags)
        &&& forall|i: int| 0 <= i < self.flags@.len() ==> (#[trigger] self.flags@[i]).wf()
        &&& forall|i: int| 0 <= i < self.pending@.len() ==> (#[trigger] self.pending@[i]).wf()
    }

    /// An empty registry.
    pub fn new() -> (r: FlagRegistry)
        ensures
            r.wf(),
            r@.pending == Seq::<EntryModel>::empty(),
            r@.flags == Seq::<EntryModel>::empty(),
    {
        let r = FlagRegistry { pending: Vec::new(), flags: Vec::new() };
        assert(r@.flags =~= Seq::<EntryModel>::empty());
        assert(r@.pending =~= Seq::<EntryModel>::empty());
        r
    }

    /// Queues the registration of a flag; nothing is checked until the
    /// queue is drained.
    pub fn declare(&mut self, init: FlagInitializer)
        requires
            old(self).wf(),
            init.wf(),
        ensures
            final(self).wf(),
            final(self)@ == (RegistryModel { pending: old(self)@.pending.push(init@), ..old(self)@ }),
    {
        self.pending.push(init);
        assert(entries_view(self.pending@) =~= entries_view(old(self).pending@).push(init@));
    }

    /// Indexes a registration at once, unless its name is taken.
    pub fn register_flag(&mut self, init: FlagInitializer) -> (r: Result<(), FlagRegistryErr>)
        requires
            old(self).wf(),
            init.wf(),
        ensures
            final(self).wf(),
            r.is_err() == has_name(old(self)@.flags, init@.name),
            r.is_err() ==> r == Err::<(), FlagRegistryErr>(FlagRegistryErr::AlreadyExists)
                && final(self)@ == old(self)@,
            r.is_ok() ==> final(self)@ == (RegistryModel { flags: old(self)@.flags.push(init@), ..old(self)@ }),
    {
        if self.position(init.name.as_str()).is_some() {
            return Err(FlagRegistryErr::AlreadyExists);
        }
        let ghost before = self@.flags;
        self.flags.push(init);
        assert(entries_view(self.flags@) =~= before.push(init@));
        assert forall|i: int, j: int|
            0 <= i < self@.flags.len() && 0 <= j < self@.flags.len() && i != j implies #[trigger] self@.flags[i].name
            != #[trigger] self@.flags[j].name by {
            if i == before.len() as int {
                assert(before[j].name == self@.flags[j].name);
            } else if j == before.len() as int {
                assert(before[i].name == self@.flags[i].name);
            }
        }
        Ok(())
    }

    /// Drains the queue of registrations and indexes them by name. When a
    /// drained registration shares its name with an indexed flag or with
    /// another drained one, none of the drained ones is indexed and every
    /// colliding one is reported with its declaration site.
    pub fn populate_flags(&mut self) -> (r: Result<(), Vec<(String, GlobalInitErr)>>)
        requires
            old(self).wf(),
        ensures
            final(self).wf(),
            final(self)@.pending == Seq::<EntryModel>::empty(),
            final(self)@.flags == populated(old(self)@.flags, old(self)@.pending),
            r.is_ok() == (collision_sites(old(self)@.flags, old(self)@.pending, old(self)@.pending.len() as int).len() == 0),
            r matches Err(errs) ==> reports_sites(errs@, collision_sites(old(self)@.flags, old(self)@.pending, old(self)@.pending.len() as int)),
    {
        let mut batch: Vec<FlagInitializer> = Vec::new();
        std::mem::swap(&mut self.pending, &mut batch);
        assert(entries_view(self.pending@) =~= Seq::<EntryModel>::empty());
        let ghost flags = self@.flags;
        let ghost bv = entries_view(batch@);
        let mut errs: Vec<(String, GlobalInitErr)> = Vec::new();
        let mut i: usize = 0;
        while i < batch.len()
            invariant
                self.wf(),
                self@.flags == flags,
                bv == entries_view(batch@),
                i <= batch@.len(),
                forall|k: int| 0 <= k < batch@.len() ==> (#[trigger] batch@[k]).wf(),
                reports_sites(errs@, collision_sites(flags, bv, i as int)),
            decreases batch.len() - i,
        {
            assert(bv[i as int] == batch@[i as int]@);
            let taken = self.position(batch[i].name.as_str()).is_some();
            let repeated = named_elsewhere(&batch, i);
            if taken || repeated {
                let name = batch[i].name.clone();
                let file_name = batch[i].file_name.clone();
                errs.push((name, GlobalInitErr::SharesNameWith { file_name, line_number: batch[i].line_number }));
            }
            i = i + 1;
        }
        if errs.len() == 0 {
            let ghost before = self.flags@;
            let ghost drained = batch@;
            self.flags.append(&mut batch);
            assert(entries_view(self.flags@) =~= flags + bv);
            assert forall|a: int, b: int|
                0 <= a < self@.flags.len() && 0 <= b < self@.flags.len() && a != b implies #[trigger] self@.flags[a].name
                != #[trigger] self@.flags[b].name by {
                let n = flags.len() as int;
                if a >= n {
                    lemma_no_sites_no_collision(flags, bv, bv.len() as int, a - n);
                    if b >= n {
                        assert(bv[b - n].name == self@.flags[b].name);
                    } else {
                        assert(flags[b].name == self@.flags[b].name);
                    }
                } else if b >= n {
                    lemma_no_sites_no_collision(flags, bv, bv.len() as int, b - n);
                    assert(flags[a].name == self@.flags[a].name);
                }
            }
            assert forall|k: int| 0 <= k < self.flags@.len() implies (#[trigger] self.flags@[k]).wf() by {
                if k >= before.len() {
                    assert(self.flags@[k] == drained[k - before.len()]);
                }
            }
            Ok(())
        } else {
            Err(errs)
        }
    }

    /// The indexed flag named `name`.
    pub fn flag(&self, name: &str) -> (r: Option<&AnyFlag>)
        requires
            self.wf(),
        ensures
            r.is_some() == has_name(self@.flags, name@),
            r matches Some(f) ==> f@ == self@.flags[lookup(self@.flags, name@).unwrap()].flag && f.wf(),
    {
        match self.position(name) {
            Some(p) => {
                assert(self@.flags[p as int] == self.flags@[p as int]@);
                assert(self.flags@[p as int].wf());
                Some(&self.flags[p].flag)
            },
            None => None,
        }
    }

    /// Sets the indexed flag at `p` from the text `lit`.
    fn apply(&mut self, p: usize, lit: &str) -> (r: Result<(), FlagResolveErr>)
        requires
            old(self).wf(),
            p < old(self)@.flags.len(),
        ensures
            final(self).wf(),
            final(self)@ == (RegistryModel {
                flags: old(self)@.flags.update(p as int, EntryModel { flag: any_after(old(self)@.flags[p as int].flag, lit@), ..old(self)@.flags[p as int] }),
                ..old(self)@
            }),
            match r {
                Ok(()) => any_outcome(old(self)@.flags[p as int].flag, lit@, Ok(())),
                Err(FlagResolveErr::ParseAndSetErr(e)) => any_outcome(old(self)@.flags[p as int].flag, lit@, Err(e)),
                Err(FlagResolveErr::UndefinedFlag) => false,
            },
    {
        let ghost old_flags = self@.flags;
        assert(old_flags[p as int] == self.flags@[p as int]@);
        let entry = &mut self.flags[p];
        let res = entry.flag.parse_and_set(lit);
        assert(entries_view(self.flags@) =~= old_flags.update(p as int, EntryModel { flag: any_after(old_flags[p as int].flag, lit@), ..old_flags[p as int] }));
        assert forall|k: int| 0 <= k < self.flags@.len() implies (#[trigger] self.flags@[k]).wf() by {
            if k != p {
                assert(self.flags@[k] == old(self).flags@[k]);
            }
        }
        assert forall|a: int, b: int|
            0 <= a < self@.flags.len() && 0 <= b < self@.flags.len() && a != b implies #[trigger] self@.flags[a].name
            != #[trigger] self@.flags[b].name by {
            assert(old_flags[a].name == self@.flags[a].name);
            assert(old_flags[b].name == self@.flags[b].name);
        }
        match res {
            Ok(()) => Ok(()),
            Err(e) => Err(FlagResolveErr::ParseAndSetErr(e)),
        }
    }

    /// Resolves one input entry.
    fn resolve_one(&mut self, key: &str, val: &Option<String>) -> (r: Result<(), FlagResolveErr>)
        requires
            old(self).wf(),
        ensures
            final(self).wf(),
            final(self)@ == (RegistryModel {
                flags: resolved_one(old(self)@.flags, key@, match val { Some(v) => Some(v@), None => None }),
                ..old(self)@
            }),
            key_outcome(old(self)@.flags, key@, match val { Some(v) => Some(v@), None => None }, r),
    {
        match self.position(key) {
            Some(p) => {
                let lit: &str = match val {
                    Some(v) => v.as_str(),
                    None => "true",
                };
                self.apply(p, lit)
            },
            None => {
                let len = key.unicode_len();
                if val.is_none() && len >= 3 && key.get_char(0) == 'n' && key.get_char(1) == 'o' && key.get_char(2) == '-' {
                    let rest = key.substring_char(3, len);
                    assert(rest@ =~= key@.skip(3));
                    match self.position(rest) {
                        Some(p) => self.apply(p, "false"),
                        None => Err(FlagResolveErr::UndefinedFlag),
                    }
                } else {
                    Err(FlagResolveErr::UndefinedFlag)
                }
            },
        }
    }

    /// Resolves tokenized input against the indexed flags, one entry after
    /// the other: each entry gets its own outcome, and a failed entry does
    /// not stop the others.
    pub fn resolve_flags_from_command(&mut self, input: &Vec<(String, Option<String>)>) -> (r: Vec<(String, Result<(), FlagResolveErr>)>)
        requires
            old(self).wf(),
        ensures
            final(self).wf(),
            final(self)@ == (RegistryModel {
                flags: resolved_prefix(old(self)@.flags, input_view(input@), input@.len() as int),
                ..old(self)@
            }),
            r@.len() == input@.len(),
            forall|i: int|
                0 <= i < r@.len() ==> {
                    &&& (#[trigger] r@[i]).0@ == input_view(input@)[i].0
                    &&& key_outcome(
                        resolved_prefix(old(self)@.flags, input_view(input@), i),
                        input_view(input@)[i].0,
                        input_view(input@)[i].1,
                        r@[i].1,
                    )
                },
    {
        let ghost iv = input_view(input@);
        let ghost start = self@.flags;
        let mut out: Vec<(String, Result<(), FlagResolveErr>)> = Vec::new();
        let mut i: usize = 0;
        while i < input.len()
            invariant
                self.wf(),
                i <= input@.len(),
                iv == input_view(input@),
                self@ == (RegistryModel { flags: resolved_prefix(start, iv, i as int), ..old(self)@ }),
                out@.len() == i,
                forall|k: int|
                    0 <= k < i ==> {
                        &&& (#[trigger] out@[k]).0@ == iv[k].0
                        &&& key_outcome(resolved_prefix(start, iv, k), iv[k].0, iv[k].1, out@[k].1)
                    },
            decreases input.len() - i,
        {
            let key = input[i].0.as_str();
            let res = self.resolve_one(key, &input[i].1);
            out.push((input[i].0.clone(), res));
            i = i + 1;
        }
        out
    }

    /// The position among the indexed flags of the one named `name`.
    fn position(&self, name: &str) -> (r: Option<usize>)
        requires
            self.wf(),
        ensures
            r matches Some(p) ==> lookup(self@.flags, name@) == Some(p as int),
            r is None ==> lookup(self@.flags, name@) is None,
    {
        let mut i: usize = 0;
        while i < self.flags.len()
            invariant
                self.wf(),
                i <= self.flags@.len(),
                forall|k: int| 0 <= k < i ==> (#[trigger] self@.flags[k]).name != name@,
            decreases self.flags.len() - i,
        {
            assert(self@.flags[i as int] == self.flags@[i as int]@);
            if same_text(self.flags[i].name.as_str(), name) {
                assert(self@.flags[i as int].name == name@);
                assert(has_name(self@.flags, name@));
                let ghost c = choose|j: int| 0 <= j < self@.flags.len() && #[trigger] self@.flags[j].name == name@;
                assert(self@.flags[c].name == name@);
                assert(c == i);
                return Some(i);
            }
            i = i + 1;
        }
        assert(!has_name(self@.flags, name@));
        None
    }
}

/// Negation: an input key `no-<name>` without a value, where no flag is
/// named `no-<name>` and `<name>` is a boolean flag that was never
/// initialized, sets that flag to `false` and succeeds.
pub proof fn lemma_negation_sets_false(
    flags: Seq<EntryModel>,
    name: Seq<char>,
    i: int,
    m: FlagModel<bool>,
    r: Result<(), FlagResolveErr>,
)
    requires
        names_unique(flags),
        !has_name(flags, negation_of(name)),
        lookup(flags, name) == Some(i),
        flags[i].flag == AnyFlagModel::Bool(m),
        !m.initialized,
    ensures
        resolved_one(flags, negation_of(name), None)[i].flag == AnyFlagModel::Bool(initialized_to(m, false)),
        key_outcome(flags, negation_of(name), None, r) <==> r is Ok,
{
    let key = negation_of(name);
    assert(key.skip(3) =~= name);
    reveal_strlit("false");
    reveal_strlit("true");
    assert("false"@ != "true"@) by {
        assert("false"@.len() != "true"@.len());
    }
    assert(negated(key));
    assert(target(flags, key, None) == Some((i, "false"@)));
    assert(<bool as FlagParseable>::parse_spec("false"@) == Some(false));
    assert(literal_outcome::<bool>(m, "false"@, Ok(())));
    assert(r matches Err(FlagResolveErr::ParseAndSetErr(e)) ==> !literal_outcome::<bool>(m, "false"@, Err(e)));
}

/// Negation of a flag that holds a number: the text `false` does not parse,
/// so the key fails with a parse error and the flag is left as it was.
pub proof fn lemma_negation_of_number_fails(flags: Seq<EntryModel>, name: Seq<char>, r: Result<(), FlagResolveErr>)
    requires
        names_unique(flags),
        !has_name(flags, negation_of(name)),
        lookup(flags, name) matches Some(i) && !(flags[i].flag is Bool) && !(flags[i].flag is Str)
            && !(flags[i].flag is StrList),
        key_outcome(flags, negation_of(name), None, r),
    ensures
        resolved_one(flags, negation_of(name), None) == flags,
        r matches Err(FlagResolveErr::ParseAndSetErr(FlagParseAndSetErr::ParseErr(FlagParseErr::InvalidValue(t))))
            && t@ == "false"@,
{
    let key = negation_of(name);
    assert(key.skip(3) =~= name);
    let i = lookup(flags, name).unwrap();
    reveal_strlit("false");
    let f = "false"@;
    assert(!is_digit(f[0]));
    assert(f[0] != '+' && f[0] != '-');
    assert(decimal_value(f) is None);
    assert(unsigned_value(f) is None);
    assert(signed_value(f) is None);
    assert(!f.contains(',')) by {
        assert(f.len() == 5);
        assert(f[0] != ',' && f[1] != ',' && f[2] != ',' && f[3] != ',' && f[4] != ',');
    }
    lemma_split_join(seq![f]);
    assert(join_commas(seq![f]) == f);
    assert(split_commas(f) =~= seq![f]);
    assert(parse_all::<i64>(seq![f]) is None) by {
        assert(seq![f].drop_last() =~= Seq::<Seq<char>>::empty());
        assert(seq![f].last() == f);
    }
    assert(flags.update(i, EntryModel { flag: any_after(flags[i].flag, f), ..flags[i] }) =~= flags);
}

/// Isolation: an input entry that names no flag fails as undefined and
/// changes no flag, so the entry after it resolves as it would alone.
pub proof fn lemma_undefined_key_isolated(
    flags: Seq<EntryModel>,
    key: Seq<char>,
    val: Option<Seq<char>>,
    r: Result<(), FlagResolveErr>,
    next_key: Seq<char>,
    next_val: Option<Seq<char>>,
)
    requires
        target(flags, key, val) is None,
    ensures
        key_outcome(flags, key, val, r) <==> (r == Err::<(), FlagResolveErr>(FlagResolveErr::UndefinedFlag)),
        resolved_prefix(flags, seq![(key, val), (next_key, next_val)], 1) == flags,
        resolved_prefix(flags, seq![(key, val), (next_key, next_val)], 2) == resolved_one(flags, next_key, next_val),
{
    let input = seq![(key, val), (next_key, next_val)];
    assert(resolved_prefix(flags, input, 0) == flags);
    assert(input[0] == (key, val));
    assert(input[1] == (next_key, next_val));
    assert(resolved_prefix(flags, input, 1) == resolved_one(flags, key, val));
    assert(resolved_prefix(flags, input, 2) == resolved_one(resolved_prefix(flags, input, 1), next_key, next_val));
}

proof fn lemma_collision_listed(flags: Seq<EntryModel>, batch: Seq<EntryModel>, n: int, i: int)
    requires
        0 <= i < n <= batch.len(),
        collides(flags, batch, i),
    ensures
        collision_sites(flags, batch, n).contains(batch[i]),
    decreases n,
{
    if i < n - 1 {
        lemma_collision_listed(flags, batch, n - 1, i);
        let rest = collision_sites(flags, batch, n - 1);
        let k = choose|k: int| 0 <= k < rest.len() && rest[k] == batch[i];
        if collides(flags, batch, n - 1) {
            assert(rest.push(batch[n - 1])[k] == batch[i]);
        }
    } else {
        let rest = collision_sites(flags, batch, n - 1);
        assert(rest.push(batch[n - 1])[rest.len() as int] == batch[i]);
    }
}

/// Collisions: when two drained registrations share a name that no indexed
/// flag has, both are reported with their declaration sites and no flag
/// under that name becomes indexed.
pub proof fn lemma_collision_reported(flags: Seq<EntryModel>, batch: Seq<EntryModel>, i: int, j: int)
    requires
        0 <= i < batch.len(),
        0 <= j < batch.len(),
        i != j,
        batch[i].name == batch[j].name,
        !has_name(flags, batch[i].name),
    ensures
        collision_sites(flags, batch, batch.len() as int).contains(batch[i]),
        collision_sites(flags, batch, batch.len() as int).contains(batch[j]),
        !has_name(populated(flags, batch), batch[i].name),
{
    assert(batch[j].name == batch[i].name);
    assert(collides(flags, batch, i));
    assert(batch[i].name == batch[j].name);
    assert(collides(flags, batch, j));
    lemma_collision_listed(flags, batch, batch.len() as int, i);
    lemma_collision_listed(flags, batch, batch.len() as int, j);
}

} // verus!
