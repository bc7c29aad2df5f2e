//! How linking and the work behind it answer to what came of their actions.
use vstd::prelude::*;

use crate::archive;
use crate::bytes;
use crate::error::LinkerErrorModel;
use crate::input;
use crate::input::InputType;
use crate::link;
use crate::link::{
    Awaited, EntryModel, InputModel, LinkActionModel, LinkEventModel, LinkModel, Unsupported,
};
use crate::pipeline;
use crate::pipeline::{ActionModel, EventModel, PipelineModel, Stage};
use crate::text;

verus! {

/// Whether an event says what came of an action. Nothing comes of the last one.
pub open spec fn is_reply(action: LinkActionModel, event: LinkEventModel) -> bool {
    match action {
        LinkActionModel::CreateModule => event is ModuleCreated,
        LinkActionModel::ReadFile(_) => event is FileRead,
        LinkActionModel::LinkIr(_) => event is IrLinked,
        LinkActionModel::FindBitcode(_) => event is BitcodeFound,
        LinkActionModel::LinkBitcode(_) => event is BitcodeLinked,
        _ => false,
    }
}

/// What a state awaits after an action.
spec fn awaits_reply(state: LinkModel, action: LinkActionModel) -> bool {
    state.awaited == (match action {
        LinkActionModel::CreateModule => Awaited::Module,
        LinkActionModel::ReadFile(_) => Awaited::File,
        LinkActionModel::LinkIr(_) => Awaited::Ir,
        LinkActionModel::FindBitcode(_) => Awaited::Bitcode,
        LinkActionModel::LinkBitcode(_) => Awaited::Linked,
        _ => Awaited::Nothing,
    })
}

proof fn lemma_advance(state: LinkModel)
    ensures
        awaits_reply(link::advance(state).0, link::advance(state).1),
    decreases
            state.inputs.len() - state.index,
            (if state.rest is None {
                1nat
            } else {
                0nat
            }),
            (match state.rest {
                Some(rest) => rest.len(),
                None => 0nat,
            }),
            1nat,
{
    match state.rest {
        Some(rest) => if rest.len() == 0 {
            if !state.nameless && state.index < state.inputs.len() {
                lemma_advance(LinkModel { rest: None, index: state.index + 1, ..state });
            }
        } else {
            lemma_advance(LinkModel { rest: Some(rest.skip(1)), ..state });
        },
        None => if state.index < state.inputs.len() {
            if let InputModel::Buffer { name, bytes } = state.inputs[state.index as int] {
                lemma_process(LinkModel { path: link::buffer_path(name), ..state }, bytes);
            }
        },
    }
}

proof fn lemma_process(state: LinkModel, data: Seq<u8>)
    ensures
        awaits_reply(link::process(state, data).0, link::process(state, data).1),
    decreases state.inputs.len() - state.index, 1nat, 0nat, 0nat,
{
    match input::input_type(data) {
        Some(InputType::Archive) => {
            lemma_advance(
                LinkModel {
                    rest: Some(archive::archive_entries(archive::readable_part(data))),
                    nameless: !archive::is_readable(data),
                    ..state
                },
            );
        },
        Some(InputType::MachO) => {
            if state.index < state.inputs.len() {
                lemma_advance(LinkModel { rest: None, index: state.index + 1, ..state });
            }
        },
        _ => {},
    }
}

/// After every action of linking exactly the events are awaited that say what came of it,
/// and none after the last action.
pub proof fn every_action_awaits_its_reply(
    state: LinkModel,
    event: LinkEventModel,
    reply: LinkEventModel,
)
    requires
        link::is_awaited(state.awaited, event),
    ensures
        link::is_awaited(link::react(state, event).0.awaited, reply) <==> is_reply(
            link::react(state, event).1,
            reply,
        ),
{
    match event {
        LinkEventModel::ModuleCreated(_) => {
            lemma_advance(state);
        },
        LinkEventModel::FileRead(Ok(data)) => {
            lemma_process(state, data);
        },
        _ => {
            lemma_advance(LinkModel { item: None, ..state });
            lemma_advance(LinkModel { item: None, index: state.index + 1, ..state });
        },
    }
}

/// The inputs are linked in order: a file is read, the bytes of a buffer are taken as they
/// are, under a path that says so, and behind the last input linking is done.
pub proof fn inputs_are_taken_in_order(state: LinkModel)
    requires
        state.rest is None,
    ensures
        state.index >= state.inputs.len() ==> link::advance(state).1 == LinkActionModel::Done,
        state.index < state.inputs.len() ==> match state.inputs[state.index as int] {
            InputModel::File { path } => {
                let (next, action) = link::advance(state);
                &&& action == LinkActionModel::ReadFile(path)
                &&& next == (LinkModel { path, awaited: Awaited::File, ..state })
            },
            InputModel::Buffer { name, bytes } => link::advance(state) == link::process(
                LinkModel {
                    path: bytes::ascii("in_memory::"@) + vstd::utf8::encode_utf8(name),
                    ..state
                },
                bytes,
            ),
        },
{
}

/// What an input holds decides what is done with it: bitcode and IR, with a NUL byte behind
/// it, are linked; an object file is searched for bitcode; a Mach-O file is passed over.
pub proof fn contents_are_linked_by_their_type(state: LinkModel, data: Seq<u8>)
    requires
        state.index < state.inputs.len(),
        input::input_type(data) is Some,
        input::input_type(data) != Some(InputType::Archive),
    ensures
        ({
            let (next, action) = link::process(state, data);
            let asks = |awaited: Awaited| next == (LinkModel { item: None, awaited, ..state });
            match input::input_type(data)->Some_0 {
                InputType::Bitcode => action == LinkActionModel::LinkBitcode(data) && asks(
                    Awaited::Linked,
                ),
                InputType::Elf => action == LinkActionModel::FindBitcode(data) && asks(
                    Awaited::Bitcode,
                ),
                InputType::Ir => if data.contains(0u8) {
                    action == LinkActionModel::Panic(Unsupported::NulInIr)
                } else {
                    action == LinkActionModel::LinkIr(data + seq![0u8]) && asks(Awaited::Ir)
                },
                _ => (next, action) == link::advance(
                    LinkModel { rest: None, index: state.index + 1, ..state },
                ),
            }
        }),
{
    assert(data.push(0u8) =~= data + seq![0u8]);
}

/// The entries of an archive are linked in its place: those that can be read, and then, if
/// that are not all, the program cannot go on.
pub proof fn archive_is_linked_by_entries(state: LinkModel, data: Seq<u8>)
    requires
        input::input_type(data) == Some(InputType::Archive),
    ensures
        link::process(state, data) == link::advance(
            LinkModel {
                rest: Some(archive::archive_entries(archive::readable_part(data))),
                nameless: !archive::is_readable(data),
                ..state
            },
        ),
{
}

/// Behind the entries of an archive comes the next input, unless an entry has no name.
pub proof fn next_input_follows_an_archive(state: LinkModel)
    requires
        state.rest is Some,
        state.rest->Some_0.len() == 0,
        state.index < state.inputs.len(),
    ensures
        state.nameless ==> link::advance(state).1 == LinkActionModel::Panic(
            Unsupported::ArchiveName,
        ),
        !state.nameless ==> link::advance(state) == link::advance(
            LinkModel { rest: None, index: state.index + 1, ..state },
        ),
{
}

/// What an entry of an archive holds decides what is done with it, as with an input; what
/// is no module is passed over. An entry that could not be read ends linking with an error
/// that names it, or the archive where there is no entry.
pub proof fn entries_are_linked_by_their_type(
    state: LinkModel,
    first: EntryModel,
    rest: Seq<EntryModel>,
)
    requires
        state.rest == Some(seq![first] + rest),
    ensures
        ({
            let (next, action) = link::advance(state);
            let after = LinkModel { rest: Some(rest), ..state };
            match first {
                Err(message) => action == LinkActionModel::Fail(
                    LinkerErrorModel::IoError(state.path, message),
                ),
                Ok((name, Err(message))) => action == LinkActionModel::Fail(
                    LinkerErrorModel::IoError(name, message),
                ),
                Ok((name, Ok(data))) => {
                    let asks = |awaited: Awaited|
                        next == (LinkModel { item: Some(name), awaited, ..after });
                    match input::input_type(data) {
                        Some(InputType::Bitcode) => action == LinkActionModel::LinkBitcode(data)
                            && asks(Awaited::Linked),
                        Some(InputType::Elf) => action == LinkActionModel::FindBitcode(data)
                            && asks(Awaited::Bitcode),
                        Some(InputType::Ir) => if data.contains(0u8) {
                            action == LinkActionModel::Panic(Unsupported::NulInIr)
                        } else {
                            action == LinkActionModel::LinkIr(data + seq![0u8]) && asks(
                                Awaited::Ir,
                            )
                        },
                        Some(InputType::Archive) => action == LinkActionModel::Panic(
                            Unsupported::NestedArchive,
                        ),
                        Some(InputType::MachO) | None => (next, action) == link::advance(after),
                    }
                },
            }
        }),
{
    let entries = seq![first] + rest;
    assert(entries.skip(1) =~= rest);
    assert(entries[0] == first);
    if let Ok((_, Ok(data))) = first {
        assert(data.push(0u8) =~= data + seq![0u8]);
    }
}

/// Once something is linked, or an object file turns out to have no bitcode, linking goes on
/// behind it: with the next entry in an archive, and with the next input otherwise. Bitcode
/// that was found is linked in the place of the object file.
pub proof fn linking_goes_on_behind_what_is_linked(state: LinkModel, bitcode: Seq<u8>)
    ensures
        ({
            let behind = link::advance(
                if state.rest is Some {
                    LinkModel { item: None, ..state }
                } else {
                    LinkModel { item: None, index: state.index + 1, ..state }
                },
            );
            &&& link::react(state, LinkEventModel::IrLinked(Ok(true))) == behind
            &&& link::react(state, LinkEventModel::BitcodeLinked(true)) == behind
            &&& link::react(state, LinkEventModel::BitcodeFound(Ok(None))) == behind
        }),
        link::react(state, LinkEventModel::BitcodeFound(Ok(Some(bitcode)))) == (
            LinkModel { awaited: Awaited::Linked, ..state },
            LinkActionModel::LinkBitcode(bitcode),
        ),
        link::react(state, LinkEventModel::ModuleCreated(true)) == link::advance(state),
        link::react(state, LinkEventModel::Start).1 == LinkActionModel::CreateModule,
{
}

/// Whatever goes wrong with an input that is no archive ends linking with an error that says
/// what it was, and names the input where LLVM or the system did not.
pub proof fn failure_is_reported(state: LinkModel, message: Seq<char>)
    requires
        state.item is None,
    ensures
        link::react(state, LinkEventModel::ModuleCreated(false)).1 == LinkActionModel::Fail(
            LinkerErrorModel::CreateModuleError,
        ),
        link::react(state, LinkEventModel::FileRead(Err(message))).1 == LinkActionModel::Fail(
            LinkerErrorModel::IoError(state.path, message),
        ),
        link::react(state, LinkEventModel::IrLinked(Err(message))).1 == LinkActionModel::Fail(
            LinkerErrorModel::IRParseError(state.path, message),
        ),
        link::react(state, LinkEventModel::IrLinked(Ok(false))).1 == LinkActionModel::Fail(
            LinkerErrorModel::LinkModuleError(state.path),
        ),
        link::react(state, LinkEventModel::BitcodeFound(Err(message))).1 == LinkActionModel::Fail(
            LinkerErrorModel::EmbeddedBitcodeError(message),
        ),
        link::react(state, LinkEventModel::BitcodeLinked(false)).1 == LinkActionModel::Fail(
            LinkerErrorModel::LinkModuleError(state.path),
        ),
{
}

/// Whether an event says what came of an action. Nothing comes of the last one.
pub open spec fn is_answer(action: ActionModel, event: EventModel) -> bool {
    match action {
        ActionModel::Link(action) => event matches EventModel::Link(event) && is_reply(
            action,
            event,
        ),
        ActionModel::GetTarget => event is Target,
        ActionModel::ResolveTarget(_) => event is TargetResolved,
        ActionModel::CreateMachine { .. } => event is MachineCreated,
        ActionModel::CreateDirectory(_) => event is DirectoryCreated,
        ActionModel::WriteIr(_) => event is IrWritten,
        ActionModel::SanitizeDebugInfo => event is DebugInfoReady,
        ActionModel::StripDebugInfo => event is DebugInfoReady,
        ActionModel::Optimize => event is Optimized,
        _ => false,
    }
}

/// After every action exactly the events are awaited that say what came of it, and none
/// after the last action.
pub proof fn every_action_awaits_its_answer(
    state: PipelineModel,
    event: EventModel,
    answer: EventModel,
)
    requires
        pipeline::is_awaited(state, event),
    ensures
        pipeline::is_awaited(pipeline::react(state, event).0, answer) <==> is_answer(
            pipeline::react(state, event).1,
            answer,
        ),
{
    if let EventModel::Link(e) = event {
        if let EventModel::Link(reply) = answer {
            every_action_awaits_its_reply(state.link, e, reply);
        }
    }
}

/// Linking is done as it is on its own; what follows it is the target that was asked for, or
/// the question for that of the module.
pub proof fn target_follows_linking(state: PipelineModel, event: LinkEventModel)
    ensures
        ({
            let (linked, action) = link::react(state.link, event);
            let (next, answer) = pipeline::react(state, EventModel::Link(event));
            &&& next.link == linked
            &&& next.target == state.target
            &&& next.cpu == state.cpu
            &&& next.features == state.features
            &&& next.btf == state.btf
            &&& next.dump_module == state.dump_module
            &&& match action {
                LinkActionModel::Done => if state.target is Some {
                    &&& answer == ActionModel::ResolveTarget(state.target->Some_0)
                    &&& next.triple == state.target->Some_0
                } else {
                    answer == ActionModel::GetTarget
                },
                LinkActionModel::Fail(error) => answer == ActionModel::Fail(error),
                LinkActionModel::Panic(reason) => answer == ActionModel::Panic(reason),
                _ => answer == ActionModel::Link(action) && next.stage == state.stage,
            }
        }),
{
}

/// The target of the module counts if it is one of BPF, that is if it begins with the bytes
/// `bpf`; otherwise it is BPF. The machine is created for the target that was resolved, with
/// the CPU and the features of the options. A target without a machine is refused.
pub proof fn machine_is_created_for_the_target(state: PipelineModel, module: Seq<u8>)
    ensures
        ({
            let (next, answer) = pipeline::react(state, EventModel::Target(module));
            let is_bpf = module.len() >= 3 && module[0] == 0x62 && module[1] == 0x70 && module[2]
                == 0x66;
            &&& answer == ActionModel::ResolveTarget(next.triple)
            &&& is_bpf ==> next.triple == module
            &&& !is_bpf ==> next.triple == seq![0x62u8, 0x70, 0x66]
            &&& next == (PipelineModel { triple: next.triple, stage: Stage::Resolving, ..state })
        }),
        ({
            let (next, answer) = pipeline::react(state, EventModel::TargetResolved(true));
            &&& answer == (ActionModel::CreateMachine {
                triple: state.triple,
                cpu: state.cpu,
                features: state.features,
            })
            &&& next == (PipelineModel { stage: Stage::Machine, ..state })
        }),
        pipeline::react(state, EventModel::TargetResolved(false)).1 == ActionModel::Fail(
            LinkerErrorModel::InvalidTarget(text::lossy_utf8(state.triple)),
        ),
        pipeline::react(state, EventModel::MachineCreated(false)).1 == ActionModel::Fail(
            LinkerErrorModel::InvalidTarget(text::lossy_utf8(state.triple)),
        ),
{
    reveal_strlit("bpf");
    let bpf = bytes::ascii("bpf"@);
    assert(bpf =~= seq![0x62u8, 0x70, 0x66]);
    if module.len() >= 3 {
        let start = module.subrange(0, 3);
        assert(start[0] == module[0] && start[1] == module[1] && start[2] == module[2]);
        if module[0] == 0x62 && module[1] == 0x70 && module[2] == 0x66 {
            assert(start =~= bpf);
        }
    }
}

/// Where dumps are asked for, their directory is created first, and the module is written to
/// `pre-opt.ll` in it before the debug information is prepared, and to `post-opt.ll` behind
/// the optimizer, which is the last that is done. Where none are asked for, there is no
/// directory and no file.
pub proof fn module_is_dumped_on_demand(state: PipelineModel, directory: Seq<u8>)
    ensures
        state.dump_module == Some(directory) ==> {
            let before = bytes::joined(directory, bytes::ascii("pre-opt.ll"@));
            let after = bytes::joined(directory, bytes::ascii("post-opt.ll"@));
            &&& pipeline::react(state, EventModel::MachineCreated(true)) == (
                PipelineModel { stage: Stage::Directory, ..state },
                ActionModel::CreateDirectory(directory),
            )
            &&& pipeline::react(state, EventModel::DirectoryCreated(None)) == (if before.contains(
                0u8,
            ) {
                (
                    PipelineModel { stage: Stage::Finished, ..state },
                    ActionModel::Panic(Unsupported::NulInPath),
                )
            } else {
                (
                    PipelineModel { stage: Stage::BeforeOptimizer, ..state },
                    ActionModel::WriteIr(before),
                )
            })
            &&& pipeline::react(state, EventModel::Optimized(None)) == (if after.contains(0u8) {
                (
                    PipelineModel { stage: Stage::Finished, ..state },
                    ActionModel::Panic(Unsupported::NulInPath),
                )
            } else {
                (
                    PipelineModel { stage: Stage::AfterOptimizer, ..state },
                    ActionModel::WriteIr(after),
                )
            })
        },
        state.dump_module is None ==> {
            &&& pipeline::react(state, EventModel::MachineCreated(true)).1 == (if state.btf {
                ActionModel::SanitizeDebugInfo
            } else {
                ActionModel::StripDebugInfo
            })
            &&& pipeline::react(state, EventModel::Optimized(None)).1 == ActionModel::Done
        },
        state.stage == Stage::BeforeOptimizer ==> pipeline::react(
            state,
            EventModel::IrWritten(None),
        ).1 == (if state.btf {
            ActionModel::SanitizeDebugInfo
        } else {
            ActionModel::StripDebugInfo
        }),
        state.stage == Stage::AfterOptimizer ==> pipeline::react(
            state,
            EventModel::IrWritten(None),
        ).1 == ActionModel::Done,
        pipeline::react(state, EventModel::DebugInfoReady) == (
            PipelineModel { stage: Stage::Optimizer, ..state },
            ActionModel::Optimize,
        ),
{
}

/// A directory that cannot be created, a file that cannot be written and an optimizer that
/// fails end the work with an error that says so.
pub proof fn failed_work_is_reported(
    state: PipelineModel,
    directory: Seq<u8>,
    message: Seq<char>,
)
    ensures
        state.dump_module == Some(directory) ==> pipeline::react(
            state,
            EventModel::DirectoryCreated(Some(message)),
        ).1 == ActionModel::Fail(LinkerErrorModel::IoError(directory, message)),
        pipeline::react(state, EventModel::IrWritten(Some(message))).1 == ActionModel::Fail(
            LinkerErrorModel::WriteIRError(message),
        ),
        pipeline::react(state, EventModel::Optimized(Some(message))).1 == ActionModel::Fail(
            LinkerErrorModel::OptimizeError(message),
        ),
{
}

} // verus!
