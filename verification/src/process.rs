//! The processes that services run as.
//!
//! Spawning is the work of the process collaborator. The manager keeps what
//! was handed to it: for each service, the description of the process that
//! was spawned for it last.

use std::collections::BTreeMap;
use vstd::prelude::*;
use crate::binary::{BinaryRuntimeResolved, NativeView};
use crate::text::{clone_pairs, clone_strings, pair_texts, texts};

verus! {

/// What to spawn: the executable, its environment and its arguments.
#[derive(Debug, PartialEq, Eq)]
pub struct ProcessConfig {
    pub executable: String,
    pub env: Vec<(String, String)>,
    pub args: Vec<String>,
}

impl View for ProcessConfig {
    type V = NativeView;

    open spec fn view(&self) -> NativeView {
        NativeView {
            executable: self.executable@,
            env: pair_texts(self.env@),
            args: texts(self.args@),
        }
    }
}

impl Clone for ProcessConfig {
    fn clone(&self) -> (r: Self)
        ensures
            r@ == self@,
    {
        ProcessConfig {
            executable: self.executable.clone(),
            env: clone_pairs(&self.env),
            args: clone_strings(&self.args),
        }
    }
}

impl ProcessConfig {
    /// What to spawn for a resolved binary: its executable with its
    /// environment and arguments.
    pub fn of(resolved: BinaryRuntimeResolved) -> (r: ProcessConfig)
        ensures
            r@ == resolved@,
    {
        match resolved {
            BinaryRuntimeResolved::Native { executable, env, args } => ProcessConfig {
                executable,
                env,
                args,
            },
        }
    }
}

/// A spawned process, as the manager knows it.
#[derive(Debug, PartialEq, Eq)]
pub struct Process {
    pub config: ProcessConfig,
}

impl View for Process {
    type V = NativeView;

    open spec fn view(&self) -> NativeView {
        self.config@
    }
}

/// The processes that were spawned, by the number of the service they
/// were spawned for.
pub struct ProcessMananger {
    pub running: BTreeMap<usize, Process>,
}

impl Default for ProcessMananger {
    fn default() -> (r: ProcessMananger)
        ensures
            r.running@ == Map::<usize, Process>::empty(),
    {
        ProcessMananger::new()
    }
}

impl ProcessMananger {
    /// A manager that knows no process.
    pub fn new() -> (r: ProcessMananger)
        ensures
            r.running@ == Map::<usize, Process>::empty(),
    {
        ProcessMananger { running: BTreeMap::new() }
    }

    /// Records the process spawned under `id`, in the place of the one
    /// recorded under `id` before, and hands back its description for the
    /// process collaborator to spawn.
    pub fn spawn(&mut self, id: usize, config: ProcessConfig) -> (r: Process)
        ensures
            r@ == config@,
            final(self).running@.dom() == old(self).running@.dom().insert(id),
            final(self).running@[id]@ == config@,
            forall|k: usize|
                k != id && old(self).running@.contains_key(k) ==> final(self).running@[k] == old(
                    self,
                ).running@[k],
    {
        let process = Process { config: config.clone() };
        self.running.insert(id, Process { config });
        process
    }

    /// The process that was recorded under `id` last.
    pub fn get(&self, id: usize) -> (r: Option<&Process>)
        ensures
            match r {
                Some(p) => self.running@.contains_key(id) && *p == self.running@[id],
                None => !self.running@.contains_key(id),
            },
    {
        self.running.get(&id)
    }
}

} // verus!
