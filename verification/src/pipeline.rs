//! Everything between the inputs and the module that code is generated from.
use vstd::prelude::*;

use crate::bytes;
use crate::error::{LinkerError, LinkerErrorModel};
use crate::input::LinkerInput;
use crate::link;
use crate::link::{
    contains_nul, LinkAction, LinkActionModel, LinkEvent, LinkEventModel, LinkModel, LinkModules,
    Unsupported,
};
use crate::options::{Cpu, LinkerOptions};
use crate::text;

verus! {

/// What is to be done next.
pub enum Action {
    /// Go on with linking the inputs.
    Link(LinkAction),
    /// Ask the module for its target.
    GetTarget,
    /// Look up a target by its triple.
    ResolveTarget(Vec<u8>),
    /// Create the machine that code is generated for.
    CreateMachine { triple: Vec<u8>, cpu: Cpu, features: Vec<u8> },
    /// Create a directory and those it stands in.
    CreateDirectory(Vec<u8>),
    /// Write the module as IR to a file.
    WriteIr(Vec<u8>),
    /// Sanitize the debug information, so that BTF can be made from it.
    SanitizeDebugInfo,
    /// Remove the debug information.
    StripDebugInfo,
    /// Hide what is not exported, and run the optimizer.
    Optimize,
    /// The module is ready.
    Done,
    /// Linking failed.
    Fail(LinkerError),
    /// The program cannot go on.
    Panic(Unsupported),
}

/// The mathematical content of an `Action`.
pub enum ActionModel {
    Link(LinkActionModel),
    GetTarget,
    ResolveTarget(Seq<u8>),
    CreateMachine { triple: Seq<u8>, cpu: Cpu, features: Seq<u8> },
    CreateDirectory(Seq<u8>),
    WriteIr(Seq<u8>),
    SanitizeDebugInfo,
    StripDebugInfo,
    Optimize,
    Done,
    Fail(LinkerErrorModel),
    Panic(Unsupported),
}

impl View for Action {
    type V = ActionModel;

    open spec fn view(&self) -> ActionModel {
        match *self {
            Action::Link(action) => ActionModel::Link(action@),
            Action::GetTarget => ActionModel::GetTarget,
            Action::ResolveTarget(triple) => ActionModel::ResolveTarget(triple@),
            Action::CreateMachine { triple, cpu, features } => ActionModel::CreateMachine {
                triple: triple@,
                cpu,
                features: features@,
            },
            Action::CreateDirectory(path) => ActionModel::CreateDirectory(path@),
            Action::WriteIr(path) => ActionModel::WriteIr(path@),
            Action::SanitizeDebugInfo => ActionModel::SanitizeDebugInfo,
            Action::StripDebugInfo => ActionModel::StripDebugInfo,
            Action::Optimize => ActionModel::Optimize,
            Action::Done => ActionModel::Done,
            Action::Fail(error) => ActionModel::Fail(error@),
            Action::Panic(reason) => ActionModel::Panic(reason),
        }
    }
}

/// What came of the last action.
pub enum Event {
    Link(LinkEvent),
    Target(Vec<u8>),
    TargetResolved(bool),
    MachineCreated(bool),
    DirectoryCreated(Result<(), String>),
    IrWritten(Result<(), String>),
    DebugInfoReady,
    Optimized(Result<(), String>),
}

/// The mathematical content of an `Event`.
pub enum EventModel {
    Link(LinkEventModel),
    Target(Seq<u8>),
    TargetResolved(bool),
    MachineCreated(bool),
    DirectoryCreated(Option<Seq<char>>),
    IrWritten(Option<Seq<char>>),
    DebugInfoReady,
    Optimized(Option<Seq<char>>),
}

/// The message of a failure.
pub open spec fn failure(result: Result<(), String>) -> Option<Seq<char>> {
    match result {
        Ok(()) => None,
        Err(message) => Some(message@),
    }
}

impl View for Event {
    type V = EventModel;

    open spec fn view(&self) -> EventModel {
        match *self {
            Event::Link(event) => EventModel::Link(event@),
            Event::Target(triple) => EventModel::Target(triple@),
            Event::TargetResolved(ok) => EventModel::TargetResolved(ok),
            Event::MachineCreated(ok) => EventModel::MachineCreated(ok),
            Event::DirectoryCreated(result) => EventModel::DirectoryCreated(failure(result)),
            Event::IrWritten(result) => EventModel::IrWritten(failure(result)),
            Event::DebugInfoReady => EventModel::DebugInfoReady,
            Event::Optimized(result) => EventModel::Optimized(failure(result)),
        }
    }
}

/// How far the work has come.
#[derive(Clone, Copy, Debug, PartialEq, Eq, Structural)]
pub enum Stage {
    Linking,
    Target,
    Resolving,
    Machine,
    Directory,
    BeforeOptimizer,
    DebugInfo,
    Optimizer,
    AfterOptimizer,
    Finished,
}

/// Where the work stands.
pub struct PipelineModel {
    pub link: LinkModel,
    pub target: Option<Seq<u8>>,
    pub cpu: Cpu,
    pub features: Seq<u8>,
    pub btf: bool,
    pub dump_module: Option<Seq<u8>>,
    pub triple: Seq<u8>,
    pub stage: Stage,
}

pub open spec fn finish(state: PipelineModel, action: ActionModel) -> (PipelineModel, ActionModel) {
    (PipelineModel { stage: Stage::Finished, ..state }, action)
}

/// The triple that code is generated for when none was asked for: that of the
/// inputs if it is one of BPF, and else plain BPF.
pub open spec fn inferred_triple(module: Seq<u8>) -> Seq<u8> {
    if bytes::begins_with(module, bytes::ascii("bpf"@)) {
        module
    } else {
        bytes::ascii("bpf"@)
    }
}

pub open spec fn resolve(state: PipelineModel, triple: Seq<u8>) -> (PipelineModel, ActionModel) {
    (
        PipelineModel { triple, stage: Stage::Resolving, ..state },
        ActionModel::ResolveTarget(triple),
    )
}

/// The target is settled once all inputs are linked.
pub open spec fn after_linking(state: PipelineModel) -> (PipelineModel, ActionModel) {
    match state.target {
        Some(triple) => resolve(state, triple),
        None => (PipelineModel { stage: Stage::Target, ..state }, ActionModel::GetTarget),
    }
}

pub open spec fn invalid_target(state: PipelineModel) -> (PipelineModel, ActionModel) {
    finish(
        state,
        ActionModel::Fail(LinkerErrorModel::InvalidTarget(text::lossy_utf8(state.triple))),
    )
}

/// Writes the module to a file of the directory for dumps.
pub open spec fn dump(
    state: PipelineModel,
    directory: Seq<u8>,
    name: Seq<u8>,
    stage: Stage,
) -> (PipelineModel, ActionModel) {
    let path = bytes::joined(directory, name);
    if path.contains(0u8) {
        finish(state, ActionModel::Panic(Unsupported::NulInPath))
    } else {
        (PipelineModel { stage, ..state }, ActionModel::WriteIr(path))
    }
}

/// BTF needs sanitized debug information; without it there is no use for any.
pub open spec fn prepare_debug_info(state: PipelineModel) -> (PipelineModel, ActionModel) {
    (
        PipelineModel { stage: Stage::DebugInfo, ..state },
        if state.btf {
            ActionModel::SanitizeDebugInfo
        } else {
            ActionModel::StripDebugInfo
        },
    )
}

/// What follows from an event.
pub open spec fn react(state: PipelineModel, event: EventModel) -> (PipelineModel, ActionModel) {
    match event {
        EventModel::Link(event) => {
            let (linked, action) = link::react(state.link, event);
            let next = PipelineModel { link: linked, ..state };
            match action {
                LinkActionModel::Done => after_linking(next),
                LinkActionModel::Fail(error) => finish(next, ActionModel::Fail(error)),
                LinkActionModel::Panic(reason) => finish(next, ActionModel::Panic(reason)),
                _ => (next, ActionModel::Link(action)),
            }
        },
        EventModel::Target(module) => resolve(state, inferred_triple(module)),
        EventModel::TargetResolved(true) => (
            PipelineModel { stage: Stage::Machine, ..state },
            ActionModel::CreateMachine {
                triple: state.triple,
                cpu: state.cpu,
                features: state.features,
            },
        ),
        EventModel::TargetResolved(false) => invalid_target(state),
        EventModel::MachineCreated(true) => match state.dump_module {
            Some(directory) => (
                PipelineModel { stage: Stage::Directory, ..state },
                ActionModel::CreateDirectory(directory),
            ),
            None => prepare_debug_info(state),
        },
        EventModel::MachineCreated(false) => invalid_target(state),
        EventModel::DirectoryCreated(None) => dump(
            state,
            state.dump_module->Some_0,
            bytes::ascii("pre-opt.ll"@),
            Stage::BeforeOptimizer,
        ),
        EventModel::DirectoryCreated(Some(message)) => finish(
            state,
            ActionModel::Fail(LinkerErrorModel::IoError(state.dump_module->Some_0, message)),
        ),
        EventModel::IrWritten(None) => if state.stage == Stage::BeforeOptimizer {
            prepare_debug_info(state)
        } else {
            finish(state, ActionModel::Done)
        },
        EventModel::IrWritten(Some(message)) => finish(
            state,
            ActionModel::Fail(LinkerErrorModel::WriteIRError(message)),
        ),
        EventModel::DebugInfoReady => (
            PipelineModel { stage: Stage::Optimizer, ..state },
            ActionModel::Optimize,
        ),
        EventModel::Optimized(None) => match state.dump_module {
            Some(directory) => dump(
                state,
                directory,
                bytes::ascii("post-opt.ll"@),
                Stage::AfterOptimizer,
            ),
            None => finish(state, ActionModel::Done),
        },
        EventModel::Optimized(Some(message)) => finish(
            state,
            ActionModel::Fail(LinkerErrorModel::OptimizeError(message)),
        ),
    }
}

/// Whether an event is the awaited one.
pub open spec fn is_awaited(state: PipelineModel, event: EventModel) -> bool {
    match event {
        EventModel::Link(event) => state.stage == Stage::Linking && link::is_awaited(
            state.link.awaited,
            event,
        ),
        EventModel::Target(_) => state.stage == Stage::Target,
        EventModel::TargetResolved(_) => state.stage == Stage::Resolving,
        EventModel::MachineCreated(_) => state.stage == Stage::Machine,
        EventModel::DirectoryCreated(_) => state.stage == Stage::Directory,
        EventModel::IrWritten(_) => state.stage == Stage::BeforeOptimizer || state.stage
            == Stage::AfterOptimizer,
        EventModel::DebugInfoReady => state.stage == Stage::DebugInfo,
        EventModel::Optimized(_) => state.stage == Stage::Optimizer,
    }
}

/// Links inputs and prepares the module, one action at a time.
pub struct Pipeline<'a> {
    modules: LinkModules<'a>,
    options: &'a LinkerOptions,
    dump_module: Option<Vec<u8>>,
    triple: Vec<u8>,
    stage: Stage,
}

impl<'a> View for Pipeline<'a> {
    type V = PipelineModel;

    closed spec fn view(&self) -> PipelineModel {
        PipelineModel {
            link: self.modules@,
            target: match self.options.target {
                Some(triple) => Some(triple@),
                None => None,
            },
            cpu: self.options.cpu,
            features: self.options.cpu_features@,
            btf: self.options.btf,
            dump_module: match self.dump_module {
                Some(directory) => Some(directory@),
                None => None,
            },
            triple: self.triple@,
            stage: self.stage,
        }
    }
}

impl<'a> Pipeline<'a> {
    /// A directory is only created where dumps were asked for.
    pub closed spec fn wf(self) -> bool {
        self.modules.wf() && (self.stage == Stage::Directory ==> self.dump_module is Some)
    }

    pub fn new(
        options: &'a LinkerOptions,
        dump_module: Option<Vec<u8>>,
        inputs: Vec<LinkerInput<'a>>,
    ) -> (r: Self)
        ensures
            r.wf(),
            r@.stage == Stage::Linking,
            r@.link.inputs == inputs@.map_values(|i: LinkerInput<'a>| i@),
            r@.link.index == 0,
            r@.link.path == Seq::<u8>::empty(),
            r@.link.rest is None,
            !r@.link.nameless,
            r@.link.item is None,
            r@.link.awaited == link::Awaited::Start,
            r@.target == (match options.target {
                Some(triple) => Some(triple@),
                None => None,
            }),
            r@.cpu == options.cpu,
            r@.features == options.cpu_features@,
            r@.btf == options.btf,
            r@.dump_module == (match dump_module {
                Some(directory) => Some(directory@),
                None => None,
            }),
    {
        Pipeline {
            modules: LinkModules::new(inputs),
            options,
            dump_module,
            triple: Vec::new(),
            stage: Stage::Linking,
        }
    }

    fn resolve(&mut self, triple: Vec<u8>) -> (r: Action)
        requires
            old(self).wf(),
        ensures
            final(self).wf(),
            (final(self)@, r@) == resolve(old(self)@, triple@),
    {
        self.triple = bytes::copy(triple.as_slice());
        self.stage = Stage::Resolving;
        Action::ResolveTarget(triple)
    }

    fn invalid_target(&mut self) -> (r: Action)
        requires
            old(self).wf(),
        ensures
            final(self).wf(),
            (final(self)@, r@) == invalid_target(old(self)@),
    {
        self.stage = Stage::Finished;
        Action::Fail(
            LinkerError::InvalidTarget(text::string_from_utf8_lossy(self.triple.as_slice())),
        )
    }

    fn prepare_debug_info(&mut self) -> (r: Action)
        requires
            old(self).wf(),
        ensures
            final(self).wf(),
            (final(self)@, r@) == prepare_debug_info(old(self)@),
    {
        self.stage = Stage::DebugInfo;
        if self.options.btf {
            Action::SanitizeDebugInfo
        } else {
            Action::StripDebugInfo
        }
    }

    fn dump(&mut self, directory: &[u8], name: &[u8], stage: Stage) -> (r: Action)
        requires
            old(self).wf(),
            stage != Stage::Directory,
        ensures
            final(self).wf(),
            (final(self)@, r@) == dump(old(self)@, directory@, name@, stage),
    {
        let path = bytes::join(directory, name);
        if contains_nul(&path) {
            self.stage = Stage::Finished;
            Action::Panic(Unsupported::NulInPath)
        } else {
            self.stage = stage;
            Action::WriteIr(path)
        }
    }

    fn fail(&mut self, error: LinkerError) -> (r: Action)
        requires
            old(self).wf(),
        ensures
            final(self).wf(),
            (final(self)@, r@) == finish(old(self)@, ActionModel::Fail(error@)),
    {
        self.stage = Stage::Finished;
        Action::Fail(error)
    }

    fn on_link(&mut self, event: LinkEvent) -> (r: Action)
        requires
            old(self).wf(),
            link::is_awaited(old(self)@.link.awaited, event@),
        ensures
            final(self).wf(),
            (final(self)@, r@) == react(old(self)@, EventModel::Link(event@)),
    {
        match self.modules.step(event) {
            LinkAction::Done => match &self.options.target {
                Some(triple) => {
                    let triple = bytes::copy(triple.as_slice());
                    self.resolve(triple)
                },
                None => {
                    self.stage = Stage::Target;
                    Action::GetTarget
                },
            },
            LinkAction::Fail(error) => self.fail(error),
            LinkAction::Panic(reason) => {
                self.stage = Stage::Finished;
                Action::Panic(reason)
            },
            LinkAction::CreateModule => Action::Link(LinkAction::CreateModule),
            LinkAction::ReadFile(path) => Action::Link(LinkAction::ReadFile(path)),
            LinkAction::LinkIr(data) => Action::Link(LinkAction::LinkIr(data)),
            LinkAction::FindBitcode(data) => Action::Link(LinkAction::FindBitcode(data)),
            LinkAction::LinkBitcode(data) => Action::Link(LinkAction::LinkBitcode(data)),
        }
    }

    fn copy_dump_module(&self) -> (r: Option<Vec<u8>>)
        ensures
            r is Some <==> self@.dump_module is Some,
            r is Some ==> r->Some_0@ == self@.dump_module->Some_0,
    {
        match &self.dump_module {
            Some(directory) => Some(bytes::copy(directory.as_slice())),
            None => None,
        }
    }

    /// Decides what is done next, given what came of the last action.
    pub fn step(&mut self, event: Event) -> (r: Action)
        requires
            old(self).wf(),
            is_awaited(old(self)@, event@),
        ensures
            final(self).wf(),
            (final(self)@, r@) == react(old(self)@, event@),
    {
        proof {
            reveal_strlit("bpf");
            reveal_strlit("pre-opt.ll");
            reveal_strlit("post-opt.ll");
        }
        match event {
            Event::Link(event) => self.on_link(event),
            Event::Target(module) => {
                if bytes::starts_with(module.as_slice(), bytes::literal("bpf")) {
                    self.resolve(module)
                } else {
                    let triple = bytes::copy(bytes::literal("bpf"));
                    self.resolve(triple)
                }
            },
            Event::TargetResolved(resolved) => {
                if !resolved {
                    return self.invalid_target();
                }
                self.stage = Stage::Machine;
                Action::CreateMachine {
                    triple: bytes::copy(self.triple.as_slice()),
                    cpu: self.options.cpu,
                    features: bytes::copy(self.options.cpu_features.as_slice()),
                }
            },
            Event::MachineCreated(created) => {
                if !created {
                    return self.invalid_target();
                }
                match self.copy_dump_module() {
                    Some(directory) => {
                        self.stage = Stage::Directory;
                        Action::CreateDirectory(directory)
                    },
                    None => self.prepare_debug_info(),
                }
            },
            Event::DirectoryCreated(result) => {
                let directory = match self.copy_dump_module() {
                    Some(directory) => directory,
                    None => Vec::new(),
                };
                match result {
                    Ok(()) => self.dump(
                        directory.as_slice(),
                        bytes::literal("pre-opt.ll"),
                        Stage::BeforeOptimizer,
                    ),
                    Err(message) => self.fail(LinkerError::IoError(directory, message)),
                }
            },
            Event::IrWritten(result) => match result {
                Ok(()) => match self.stage {
                    Stage::BeforeOptimizer => self.prepare_debug_info(),
                    _ => {
                        self.stage = Stage::Finished;
                        Action::Done
                    },
                },
                Err(message) => self.fail(LinkerError::WriteIRError(message)),
            },
            Event::DebugInfoReady => {
                self.stage = Stage::Optimizer;
                Action::Optimize
            },
            Event::Optimized(result) => match result {
                Ok(()) => match self.copy_dump_module() {
                    Some(directory) => self.dump(
                        directory.as_slice(),
                        bytes::literal("post-opt.ll"),
                        Stage::AfterOptimizer,
                    ),
                    None => {
                        self.stage = Stage::Finished;
                        Action::Done
                    },
                },
                Err(message) => self.fail(LinkerError::OptimizeError(message)),
            },
        }
    }
}

/// Code is only ever generated for BPF or for the target that was asked for.
pub proof fn inferred_triple_is_bpf(module: Seq<u8>)
    ensures
        bytes::begins_with(inferred_triple(module), bytes::ascii("bpf"@)),
{
    let bpf = bytes::ascii("bpf"@);
    assert(bpf.subrange(0, bpf.len() as int) =~= bpf);
}

/// The optimizer runs on debug information that has been prepared, and never
/// before: it is asked for exactly when the debug information is ready.
pub proof fn optimizer_runs_after_debug_info(state: PipelineModel, event: EventModel)
    requires
        is_awaited(state, event),
    ensures
        react(state, event).1 == ActionModel::Optimize <==> event == EventModel::DebugInfoReady,
{
}

} // verus!
