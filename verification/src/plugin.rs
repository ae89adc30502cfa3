//! Capability interfaces and the plugin manager: the policy that turns a
//! sequence of per-module load outcomes into either a complete collection of
//! capability handles or a fatal load error, never a partial entry.

use vstd::prelude::*;
use std::rc::Rc;
use crate::graphics::{OutputCommand, Style};

verus! {

/// The capability category a loaded module exposes.
#[derive(Clone, Copy, PartialEq, Eq, Structural, Debug)]
pub enum PluginType {
    GraphicsPlugin,
    InputPlugin,
}

/// Descriptive metadata a module reports about itself.
pub struct PluginInfo {
    pub plugin_name: &'static str,
    pub plugin_version: &'static str,
    pub plugin_type: PluginType,
}

/// The root capability every module implements.
pub trait Plugin {
    fn new() -> Self where Self: Sized;

    fn init(&mut self);

    fn get_plugin_info(&self) -> PluginInfo;
}

/// The drawing capability: buffer commit, line and rectangle drawing, and
/// style assignment. `commit_buffer` hands back the sequence of output-device
/// commands that renders the buffer; the host streams them to the device.
pub trait GraphicPlugin: Plugin {
    fn commit_buffer(&mut self) -> Vec<OutputCommand>;

    fn draw_line(&mut self, x1: u16, y1: u16, x2: u16, y2: u16);

    fn draw_rect(&mut self, x: u16, y: u16, width: u16, height: u16);

    fn fill_rect(&mut self, x: u16, y: u16, width: u16, height: u16);

    fn set_style(&mut self, style: Rc<Style>);
}

/// The input capability: a placeholder extension point with no operations of
/// its own beyond the root capability.
pub trait InputPlugin: Plugin {}

/// What happened when one candidate module file was processed: either a
/// capability handle was obtained together with the module handle that
/// produced it, or the attempt failed in one of the two fatal ways.
pub enum LoadOutcome<H, M> {
    Loaded { handle: H, module: M },
    LoadFailed { message: String },
    SymbolMissing { message: String },
}

/// A fatal loading failure: the module could not be loaded, or its well-known
/// entry symbol was missing or mismatched.
#[derive(Debug)]
pub enum LoadError {
    ModuleLoad { message: String },
    SymbolMissing { message: String },
}

/// A failure enumerating candidate module files.
pub struct DiscoveryError {
    pub message: String,
}

/// The error that reports a failed load outcome.
pub open spec fn outcome_error<H, M>(o: LoadOutcome<H, M>) -> LoadError
    recommends
        !(o is Loaded),
{
    match o {
        LoadOutcome::LoadFailed { message } => LoadError::ModuleLoad { message },
        LoadOutcome::SymbolMissing { message } => LoadError::SymbolMissing { message },
        LoadOutcome::Loaded { .. } => vstd::pervasive::arbitrary(),
    }
}

/// Retains every loaded module and the capability handles created from it.
/// `H` is the capability-handle type and `M` the module-handle type; the
/// manager keeps them in parallel collections so that a module handle lives at
/// least as long as every handle it produced.
pub struct PluginManager<H, M> {
    pub plugins: Vec<H>,
    lib_cache: Vec<M>,
}

impl<H, M> PluginManager<H, M> {
    /// The module handles the manager keeps alive, in the order they loaded.
    pub closed spec fn modules(self) -> Seq<M> {
        self.lib_cache@
    }

    /// The capability handles accumulated so far, in discovery order.
    pub closed spec fn handles(self) -> Seq<H> {
        self.plugins@
    }

    /// Invariant: each capability handle is paired with the module handle that
    /// produced it, so the collections always have equal length.
    pub open spec fn paired(self) -> bool {
        self.modules().len() == self.handles().len()
    }

    /// An empty manager with no plugins and no retained modules.
    pub fn new() -> (m: Self)
        ensures
            m.handles() == Seq::<H>::empty(),
            m.modules() == Seq::<M>::empty(),
            m.paired(),
    {
        Self { plugins: Vec::new(), lib_cache: Vec::new() }
    }

    /// Folds the outcomes of one discovery pass into the manager. When every
    /// candidate loaded, all handles and their modules are appended in
    /// discovery order and the count of loaded plugins is returned; zero
    /// outcomes are not an error and leave the collection empty. On the first
    /// failed outcome the corresponding fatal error is returned and the
    /// manager is left exactly as it was: no partial entry is added.
    pub fn load_all_plugins(&mut self, outcomes: Vec<LoadOutcome<H, M>>) -> (r: Result<
        usize,
        LoadError,
    >)
        requires
            old(self).paired(),
        ensures
            final(self).paired(),
            match r {
                Ok(n) => {
                    &&& forall|j: int| 0 <= j < outcomes@.len() ==> outcomes@[j] is Loaded
                    &&& n == outcomes@.len()
                    &&& final(self).handles() == old(self).handles() + outcomes@.map_values(
                        |o: LoadOutcome<H, M>| o->handle,
                    )
                    &&& final(self).modules() == old(self).modules() + outcomes@.map_values(
                        |o: LoadOutcome<H, M>| o->module,
                    )
                },
                Err(e) => {
                    &&& *final(self) == *old(self)
                    &&& exists|k: int|
                        0 <= k < outcomes@.len() && !(#[trigger] outcomes@[k] is Loaded) && (
                        forall|j: int| 0 <= j < k ==> outcomes@[j] is Loaded) && e == outcome_error(
                            outcomes@[k],
                        )
                },
            },
    {
        let ghost outcomes0 = outcomes@;
        let n = outcomes.len();
        let mut i: usize = 0;
        while i < n && is_loaded(&outcomes[i])
            invariant
                i <= n,
                n == outcomes@.len(),
                outcomes@ == outcomes0,
                forall|j: int| 0 <= j < i ==> outcomes@[j] is Loaded,
            decreases n - i,
        {
            i += 1;
        }
        if i == n {
            let mut rest = outcomes;
            let ghost plugins0 = self.plugins@;
            let ghost modules0 = self.modules();
            let mut k: usize = 0;
            while rest.len() > 0
                invariant
                    k + rest@.len() == n,
                    n == outcomes0.len(),
                    rest@ == outcomes0.skip(k as int),
                    forall|j: int| 0 <= j < outcomes0.len() ==> outcomes0[j] is Loaded,
                    self.plugins@ == plugins0 + outcomes0.take(k as int).map_values(
                        |o: LoadOutcome<H, M>| o->handle,
                    ),
                    self.lib_cache@ == modules0 + outcomes0.take(k as int).map_values(
                        |o: LoadOutcome<H, M>| o->module,
                    ),
                decreases rest@.len(),
            {
                let o = rest.remove(0);
                proof {
                    assert(o == outcomes0[k as int]);
                    assert(outcomes0.take(k + 1).drop_last() =~= outcomes0.take(k as int));
                    assert(outcomes0.take(k + 1).map_values(|x: LoadOutcome<H, M>| x->handle)
                        =~= outcomes0.take(k as int).map_values(|x: LoadOutcome<H, M>| x->handle)
                        .push(o->handle));
                    assert(outcomes0.take(k + 1).map_values(|x: LoadOutcome<H, M>| x->module)
                        =~= outcomes0.take(k as int).map_values(|x: LoadOutcome<H, M>| x->module)
                        .push(o->module));
                    assert(rest@ =~= outcomes0.skip(k + 1));
                }
                match o {
                    LoadOutcome::Loaded { handle, module } => {
                        self.plugins.push(handle);
                        self.lib_cache.push(module);
                    },
                    // Provably unreachable: every outcome before `i == n` is Loaded.
                    LoadOutcome::LoadFailed { message } => {
                        return Err(LoadError::ModuleLoad { message });
                    },
                    LoadOutcome::SymbolMissing { message } => {
                        return Err(LoadError::SymbolMissing { message });
                    },
                }
                k += 1;
            }
            proof {
                assert(outcomes0.take(n as int) =~= outcomes0);
            }
            Ok(n)
        } else {
            let mut outs = outcomes;
            let o = outs.remove(i);
            proof {
                assert(o == outcomes0[i as int]);
            }
            match o {
                LoadOutcome::LoadFailed { message } => Err(LoadError::ModuleLoad { message }),
                LoadOutcome::SymbolMissing { message } => Err(
                    LoadError::SymbolMissing { message },
                ),
                // Provably unreachable: the scan stopped on a failed outcome.
                LoadOutcome::Loaded { .. } => Err(
                    LoadError::ModuleLoad { message: String::new() },
                ),
            }
        }
    }
}

/// Whether an outcome carries a loaded handle.
fn is_loaded<H, M>(o: &LoadOutcome<H, M>) -> (r: bool)
    ensures
        r == (*o is Loaded),
{
    match o {
        LoadOutcome::Loaded { .. } => true,
        _ => false,
    }
}

} // verus!
