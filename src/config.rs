use vstd::prelude::*;

use crate::dispatch::{ModuleDef, Subscription};
use crate::event::{EventType, SourceType};
use crate::types::{core_id, SourceId};

verus! {

/// A configured event source.
#[derive(Debug)]
pub struct SourceConfig {
    pub id: String,
    pub source_type: SourceType,
}

/// A configured module: its identifier, the tag of its kind, its priority and
/// its subscriptions.
#[derive(Debug)]
pub struct ModuleConfig {
    pub id: String,
    pub module_type: String,
    pub priority: u8,
    pub subscriptions: Vec<Subscription>,
}

/// The parts of the configuration that the core reads.
#[derive(Debug)]
pub struct BotConfig {
    pub command_char: String,
    pub log_folder: String,
    pub sources: Vec<SourceConfig>,
    pub modules: Vec<ModuleConfig>,
}

/// Why a configuration cannot be built.
#[derive(Debug)]
pub enum ConfigError {
    /// A source uses the identifier reserved for the core.
    ReservedSource,
    /// A module names a kind that is not registered: module id, kind.
    UnknownModuleType(String, String),
}

/// Whether some configured source uses the reserved identifier.
pub open spec fn uses_reserved(sources: Seq<SourceConfig>) -> bool {
    exists|i: int| 0 <= i < sources.len() && (#[trigger] sources[i]).id@ == core_id()
}

/// Whether `t` is among the registered kinds.
pub open spec fn is_registered(registered: Seq<String>, t: Seq<char>) -> bool {
    exists|k: int| 0 <= k < registered.len() && (#[trigger] registered[k])@ == t
}

/// Whether module `m`'s kind is registered.
pub open spec fn known_kind(registered: Seq<String>, m: ModuleConfig) -> bool {
    is_registered(registered, m.module_type@)
}

impl Clone for Subscription {
    fn clone(&self) -> (r: Self)
        ensures
            r.source@ == self.source@,
            r.types@ == self.types@,
    {
        let mut types: Vec<EventType> = Vec::new();
        let mut i: usize = 0;
        while i < self.types.len()
            invariant
                i <= self.types.len(),
                types@ == self.types@.subrange(0, i as int),
            decreases self.types.len() - i,
        {
            types.push(self.types[i]);
            proof {
                assert(types@ =~= self.types@.subrange(0, i + 1));
            }
            i = i + 1;
        }
        proof {
            assert(self.types@.subrange(0, self.types.len() as int) =~= self.types@);
        }
        Subscription { source: self.source.clone(), types }
    }
}

impl BotConfig {
    /// Checks the configuration before anything is built: no source may use
    /// the reserved identifier `core`, and every module's kind must be among
    /// `registered`. The first problem found is reported, sources first.
    pub fn validate(&self, registered: &Vec<String>) -> (r: Result<(), ConfigError>)
        ensures
            uses_reserved(self.sources@) ==> r matches Err(ConfigError::ReservedSource),
            !uses_reserved(self.sources@) ==> match r {
                Ok(()) => forall|j: int| 0 <= j < self.modules.len() ==> known_kind(registered@, #[trigger] self.modules@[j]),
                Err(ConfigError::UnknownModuleType(id, t)) => exists|j: int|
                    0 <= j < self.modules.len() && !known_kind(registered@, #[trigger] self.modules@[j])
                        && self.modules@[j].id@ == id@ && self.modules@[j].module_type@ == t@,
                Err(ConfigError::ReservedSource) => false,
            },
    {
        let mut i: usize = 0;
        while i < self.sources.len()
            invariant
                i <= self.sources.len(),
                forall|j: int| 0 <= j < i ==> (#[trigger] self.sources@[j]).id@ != core_id(),
            decreases self.sources.len() - i,
        {
            let id = SourceId(self.sources[i].id.clone());
            if id.is_core() {
                return Err(ConfigError::ReservedSource);
            }
            i = i + 1;
        }
        let mut j: usize = 0;
        while j < self.modules.len()
            invariant
                !uses_reserved(self.sources@),
                j <= self.modules.len(),
                forall|q: int| 0 <= q < j ==> known_kind(registered@, #[trigger] self.modules@[q]),
            decreases self.modules.len() - j,
        {
            let t = &self.modules[j].module_type;
            let mut k: usize = 0;
            let mut found = false;
            while k < registered.len()
                invariant
                    k <= registered.len(),
                    found ==> is_registered(registered@, t@),
                    !found ==> forall|q: int| 0 <= q < k ==> (#[trigger] registered@[q])@ != t@,
                decreases registered.len() - k,
            {
                if registered[k] == *t {
                    found = true;
                }
                k = k + 1;
            }
            if !found {
                return Err(ConfigError::UnknownModuleType(self.modules[j].id.clone(), t.clone()));
            }
            j = j + 1;
        }
        Ok(())
    }
}

/// The modules as the core dispatches to them: each object with the priority
/// and subscriptions of its configuration entry.
pub fn module_defs<M>(configs: &Vec<ModuleConfig>, objects: Vec<M>) -> (r: Vec<ModuleDef<M>>)
    requires
        configs.len() == objects.len(),
    ensures
        r.len() == configs.len(),
        forall|i: int|
            0 <= i < r.len() ==> (#[trigger] r@[i]).object == objects@[i] && r@[i].priority == configs@[i].priority
                && r@[i].subscriptions.len() == configs@[i].subscriptions.len(),
        forall|i: int, k: int|
            0 <= i < r.len() && 0 <= k < configs@[i].subscriptions.len() ==> (#[trigger] r@[i].subscriptions@[k]).source@
                == configs@[i].subscriptions@[k].source@ && r@[i].subscriptions@[k].types@ == configs@[i].subscriptions@[k].types@,
{
    let mut objects = objects;
    let ghost objs = objects@;
    let mut r: Vec<ModuleDef<M>> = Vec::new();
    let mut rev: Vec<M> = Vec::new();
    while objects.len() > 0
        invariant
            rev.len() + objects.len() == objs.len(),
            forall|q: int| 0 <= q < objects.len() ==> objects@[q] == objs[q],
            forall|q: int| 0 <= q < rev.len() ==> rev@[q] == objs[objs.len() - 1 - q],
        decreases objects.len(),
    {
        let o = objects.pop().unwrap();
        rev.push(o);
    }
    let n = configs.len();
    let mut i: usize = 0;
    while i < n
        invariant
            n == configs.len(),
            n == objs.len(),
            i <= n,
            r.len() == i,
            rev.len() == n - i,
            forall|q: int| 0 <= q < rev.len() ==> rev@[q] == objs[objs.len() - 1 - q],
            forall|q: int|
                0 <= q < i ==> (#[trigger] r@[q]).object == objs[q] && r@[q].priority == configs@[q].priority
                    && r@[q].subscriptions.len() == configs@[q].subscriptions.len(),
            forall|q: int, k: int|
                0 <= q < i && 0 <= k < configs@[q].subscriptions.len() ==> (#[trigger] r@[q].subscriptions@[k]).source@
                    == configs@[q].subscriptions@[k].source@ && r@[q].subscriptions@[k].types@
                    == configs@[q].subscriptions@[k].types@,
        decreases n - i,
    {
        let o = rev.pop().unwrap();
        let subs = &configs[i].subscriptions;
        let mut copied: Vec<Subscription> = Vec::new();
        let mut k: usize = 0;
        while k < subs.len()
            invariant
                k <= subs.len(),
                copied.len() == k,
                forall|x: int|
                    0 <= x < k ==> (#[trigger] copied@[x]).source@ == subs@[x].source@ && copied@[x].types@
                        == subs@[x].types@,
            decreases subs.len() - k,
        {
            copied.push(subs[k].clone());
            k = k + 1;
        }
        r.push(ModuleDef { object: o, priority: configs[i].priority, subscriptions: copied });
        i = i + 1;
    }
    r
}

} // verus!
