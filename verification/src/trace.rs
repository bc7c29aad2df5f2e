//! What holds of a whole run of the linker, from the first input to the module
//! that code is generated from.
use vstd::prelude::*;

use crate::archive;
use crate::error::LinkerErrorModel;
use crate::input;
use crate::input::InputType;
use crate::link;
use crate::link::{
    Awaited, DataStep, EntryModel, InputModel, LinkActionModel, LinkEventModel, LinkModel,
};
use crate::pipeline;
use crate::pipeline::{ActionModel, EventModel, PipelineModel, Stage};

verus! {

/// What linking some data starts with. Nothing is asked for where the data is no
/// module.
pub open spec fn request_of(data: Seq<u8>) -> Seq<LinkActionModel> {
    match input::input_type(data) {
        Some(InputType::Ir) => if data.contains(0u8) {
            Seq::empty()
        } else {
            seq![LinkActionModel::LinkIr(data.push(0u8))]
        },
        Some(InputType::Bitcode) => seq![LinkActionModel::LinkBitcode(data)],
        Some(InputType::Elf) => seq![LinkActionModel::FindBitcode(data)],
        _ => Seq::empty(),
    }
}

/// What linking the entries of an archive asks for.
pub open spec fn requests_of_entries(entries: Seq<EntryModel>) -> Seq<LinkActionModel>
    decreases entries.len(),
{
    if entries.len() == 0 {
        Seq::empty()
    } else {
        let first = match entries[0] {
            Ok((_, Ok(data))) => request_of(data),
            _ => Seq::empty(),
        };
        first + requests_of_entries(entries.skip(1))
    }
}

/// What linking the contents of an input asks for.
pub open spec fn requests_of_contents(data: Seq<u8>) -> Seq<LinkActionModel> {
    if input::input_type(data) == Some(InputType::Archive) {
        requests_of_entries(archive::archive_entries(archive::readable_part(data)))
    } else {
        request_of(data)
    }
}

/// What linking the inputs from number `k` on asks for, given their contents.
pub open spec fn requests_from(contents: Seq<Seq<u8>>, k: nat) -> Seq<LinkActionModel>
    decreases contents.len() - k,
{
    if k >= contents.len() {
        Seq::empty()
    } else {
        requests_of_contents(contents[k as int]) + requests_from(contents, k + 1)
    }
}

/// Whether an action asks for a module to be parsed and linked, or for the
/// bitcode in an object file.
pub open spec fn is_request(action: LinkActionModel) -> bool {
    action is LinkIr || action is LinkBitcode || action is FindBitcode
}

/// Where the linker stands at first.
pub open spec fn initial(inputs: Seq<InputModel>) -> LinkModel {
    LinkModel {
        inputs,
        index: 0,
        path: Seq::empty(),
        rest: None,
        nameless: false,
        item: None,
        awaited: Awaited::Start,
    }
}

/// Where the linker stands after some events, and its answers to them.
pub open spec fn run(inputs: Seq<InputModel>, events: Seq<LinkEventModel>) -> (
    LinkModel,
    Seq<LinkActionModel>,
)
    decreases events.len(),
{
    if events.len() == 0 {
        (initial(inputs), Seq::empty())
    } else {
        let (state, actions) = run(inputs, events.drop_last());
        let (next, action) = link::react(state, events.last());
        (next, actions.push(action))
    }
}

/// What was asked for in a run. Bitcode that was found in an object file is
/// linked in answer to that: the object file was asked about before.
pub open spec fn requests(events: Seq<LinkEventModel>, actions: Seq<LinkActionModel>) -> Seq<
    LinkActionModel,
>
    decreases events.len(),
{
    if events.len() == 0 {
        Seq::empty()
    } else {
        let before = requests(events.drop_last(), actions.drop_last());
        if events.last() is BitcodeFound && events.last()->BitcodeFound_0 is Ok
            && events.last()->BitcodeFound_0->Ok_0 is Some || !is_request(actions.last()) {
            before
        } else {
            before.push(actions.last())
        }
    }
}

/// Whether `contents` are the contents of the inputs: those of a buffer are its
/// bytes.
pub open spec fn are_contents(inputs: Seq<InputModel>, contents: Seq<Seq<u8>>) -> bool {
    &&& contents.len() == inputs.len()
    &&& forall|i: int|
        0 <= i < inputs.len() ==> match #[trigger] inputs[i] {
            InputModel::Buffer { bytes, .. } => contents[i] == bytes,
            InputModel::File { .. } => true,
        }
}

/// Whether each event was awaited when it came, and each file that was read had
/// the contents that `contents` says.
pub open spec fn is_run(
    inputs: Seq<InputModel>,
    contents: Seq<Seq<u8>>,
    events: Seq<LinkEventModel>,
) -> bool
    decreases events.len(),
{
    events.len() > 0 ==> {
        let state = run(inputs, events.drop_last()).0;
        &&& is_run(inputs, contents, events.drop_last())
        &&& link::is_awaited(state.awaited, events.last())
        &&& match events.last() {
            LinkEventModel::FileRead(Ok(data)) => data == contents[state.index as int],
            _ => true,
        }
    }
}

/// What is asked for from the next entry or input on.
spec fn due(state: LinkModel, contents: Seq<Seq<u8>>) -> Seq<LinkActionModel> {
    match state.rest {
        Some(rest) => requests_of_entries(rest) + requests_from(contents, state.index + 1),
        None => requests_from(contents, state.index),
    }
}

/// What is asked for behind the current entry or input.
spec fn due_behind(state: LinkModel, contents: Seq<Seq<u8>>) -> Seq<LinkActionModel> {
    match state.rest {
        Some(_) => due(state, contents),
        None => requests_from(contents, state.index + 1),
    }
}

/// What is still to be asked for while an event is awaited.
spec fn left(state: LinkModel, contents: Seq<Seq<u8>>) -> Seq<LinkActionModel> {
    match state.awaited {
        Awaited::Start | Awaited::Module | Awaited::File => due(state, contents),
        Awaited::Ir | Awaited::Bitcode | Awaited::Linked => due_behind(state, contents),
        Awaited::Nothing => Seq::empty(),
    }
}

/// The number of the current input is in range where it has to be.
spec fn in_range(state: LinkModel) -> bool {
    &&& state.index <= state.inputs.len()
    &&& state.rest is Some ==> state.index < state.inputs.len()
}

spec fn is_waiting(state: LinkModel) -> bool {
    &&& in_range(state)
    &&& match state.awaited {
        Awaited::Start | Awaited::Module => state.rest is None,
        Awaited::File => state.rest is None && state.index < state.inputs.len(),
        Awaited::Ir | Awaited::Bitcode | Awaited::Linked => state.index < state.inputs.len(),
        Awaited::Nothing => true,
    }
}

/// What an answer says about what is still to be asked for, where `all` was due
/// before it.
spec fn is_answer(
    answer: (LinkModel, LinkActionModel),
    contents: Seq<Seq<u8>>,
    inputs: Seq<InputModel>,
    all: Seq<LinkActionModel>,
) -> bool {
    let (next, action) = answer;
    &&& next.inputs == inputs
    &&& match action {
        LinkActionModel::Fail(_) | LinkActionModel::Panic(_) => next.awaited == Awaited::Nothing,
        LinkActionModel::Done => next.awaited == Awaited::Nothing && all.len() == 0,
        _ => {
            &&& is_waiting(next)
            &&& next.awaited != Awaited::Nothing
            &&& all == if is_request(action) {
                seq![action] + left(next, contents)
            } else {
                left(next, contents)
            }
        },
    }
}

proof fn lemma_advance(state: LinkModel, contents: Seq<Seq<u8>>)
    requires
        in_range(state),
        are_contents(state.inputs, contents),
    ensures
        is_answer(link::advance(state), contents, state.inputs, due(state, contents)),
    decreases
            state.inputs.len() - state.index,
            (if state.rest is None {
                1nat
            } else {
                0nat
            }),
            (match state.rest {
                Some(rest) => rest.len(),
                None => 0nat,
            }),
            1nat,
{
    let answer = link::advance(state);
    let all = due(state, contents);
    match state.rest {
        Some(rest) => {
            if rest.len() == 0 {
                if !state.nameless {
                    let next = LinkModel { rest: None, index: state.index + 1, ..state };
                    lemma_advance(next, contents);
                    assert(all =~= due(next, contents));
                }
            } else {
                let after = LinkModel { rest: Some(rest.skip(1)), ..state };
                if let Ok((name, Ok(data))) = rest[0] {
                    match input::input_type(data) {
                        None => {
                            lemma_advance(after, contents);
                            assert(all =~= due(after, contents));
                        },
                        Some(ty) => match link::data_step(data, ty) {
                            DataStep::Ask(action, awaited) => {
                                assert(all =~= seq![action] + due(after, contents));
                            },
                            DataStep::Ignore => {
                                lemma_advance(after, contents);
                                assert(all =~= due(after, contents));
                            },
                            DataStep::Panic(_) => {},
                        },
                    }
                }
            }
        },
        None => {
            if state.index < state.inputs.len() {
                if let InputModel::Buffer { name, bytes } = state.inputs[state.index as int] {
                    let opened = LinkModel { path: link::buffer_path(name), ..state };
                    lemma_process(opened, contents, bytes);
                    assert(answer == link::process(opened, bytes));
                }
            }
        },
    }
}

proof fn lemma_process(state: LinkModel, contents: Seq<Seq<u8>>, data: Seq<u8>)
    requires
        state.rest is None,
        state.index < state.inputs.len(),
        are_contents(state.inputs, contents),
        contents[state.index as int] == data,
    ensures
        is_answer(
            link::process(state, data),
            contents,
            state.inputs,
            requests_from(contents, state.index),
        ),
    decreases state.inputs.len() - state.index, 1nat, 0nat, 0nat,
{
    let all = requests_from(contents, state.index);
    match input::input_type(data) {
        None => {},
        Some(InputType::Archive) => {
            let unpacked = LinkModel {
                rest: Some(archive::archive_entries(archive::readable_part(data))),
                nameless: !archive::is_readable(data),
                ..state
            };
            lemma_advance(unpacked, contents);
        },
        Some(ty) => match link::data_step(data, ty) {
            DataStep::Ask(action, awaited) => {
                assert(all =~= seq![action] + requests_from(contents, state.index + 1));
            },
            DataStep::Ignore => {
                let next = LinkModel { rest: None, index: state.index + 1, ..state };
                lemma_advance(next, contents);
                assert(all =~= due(next, contents));
            },
            DataStep::Panic(_) => {},
        },
    }
}

/// What was asked for and what is left make up what the inputs ask for.
proof fn lemma_run(
    inputs: Seq<InputModel>,
    contents: Seq<Seq<u8>>,
    events: Seq<LinkEventModel>,
)
    requires
        are_contents(inputs, contents),
        is_run(inputs, contents, events),
    ensures
        ({
            let (state, actions) = run(inputs, events);
            &&& state.inputs == inputs
            &&& actions.len() == events.len()
            &&& is_waiting(state) || state.awaited == Awaited::Nothing
            &&& actions.len() > 0 && (actions.last() is Done || actions.last() is Fail
                || actions.last() is Panic) ==> state.awaited == Awaited::Nothing
            &&& !(actions.len() > 0 && (actions.last() is Fail || actions.last() is Panic))
                ==> requests(events, actions) + left(state, contents) == requests_from(contents, 0)
        }),
    decreases events.len(),
{
    if events.len() == 0 {
        assert(requests_from(contents, 0) =~= Seq::<LinkActionModel>::empty() + requests_from(
            contents,
            0,
        ));
    } else {
        lemma_run(inputs, contents, events.drop_last());
        let (state, actions) = run(inputs, events.drop_last());
        let (next, action) = link::react(state, events.last());
        let before = requests(events.drop_last(), actions);
        assert(run(inputs, events).1.drop_last() =~= actions);
        match events.last() {
            LinkEventModel::ModuleCreated(true) => {
                lemma_advance(state, contents);
            },
            LinkEventModel::FileRead(Ok(data)) => {
                lemma_process(state, contents, data);
            },
            LinkEventModel::IrLinked(Ok(true)) | LinkEventModel::BitcodeFound(Ok(None))
            | LinkEventModel::BitcodeLinked(true) => {
                let behind = if state.rest is Some {
                    LinkModel { item: None, ..state }
                } else {
                    LinkModel { item: None, index: state.index + 1, ..state }
                };
                lemma_advance(behind, contents);
            },
            _ => {},
        }
        let (after, all) = run(inputs, events);
        assert(after == next && all == actions.push(action));
        if !(action is Fail || action is Panic) {
            assert(requests(events, all) + left(next, contents) =~= before + left(
                state,
                contents,
            ));
        }
    }
}

/// When linking is done, every module of every input was asked to be linked, in
/// the order of the inputs and of the entries of archives, and nothing else was.
pub proof fn everything_is_linked(
    inputs: Seq<InputModel>,
    contents: Seq<Seq<u8>>,
    events: Seq<LinkEventModel>,
)
    requires
        are_contents(inputs, contents),
        is_run(inputs, contents, events),
        events.len() > 0,
        run(inputs, events).1.last() == LinkActionModel::Done,
    ensures
        requests(events, run(inputs, events).1) == requests_from(contents, 0),
{
    lemma_run(inputs, contents, events);
    let (state, actions) = run(inputs, events);
    assert(left(state, contents) =~= Seq::<LinkActionModel>::empty());
    assert(requests(events, actions) =~= requests(events, actions) + left(state, contents));
}

/// An input with its contents, and the bitcode that is found in it if it is an
/// object file.
pub struct Source {
    pub input: InputModel,
    pub contents: Seq<u8>,
    pub bitcode: Option<Seq<u8>>,
}

/// The inputs of some sources.
pub open spec fn inputs_of(sources: Seq<Source>) -> Seq<InputModel> {
    sources.map_values(|source: Source| source.input)
}

/// The path under which an input is reported.
pub open spec fn input_path(input: InputModel) -> Seq<u8> {
    match input {
        InputModel::File { path } => path,
        InputModel::Buffer { name, .. } => link::buffer_path(name),
    }
}

/// Whether an input holds its contents, is no archive, and can be handed to LLVM
/// if it is IR.
pub open spec fn is_plain(source: Source) -> bool {
    &&& source.input matches InputModel::Buffer { bytes, .. } ==> source.contents == bytes
    &&& input::input_type(source.contents) != Some(InputType::Archive)
    &&& input::input_type(source.contents) == Some(InputType::Ir) ==> !source.contents.contains(0u8)
}

pub open spec fn is_unknown(source: Source) -> bool {
    input::input_type(source.contents) is None
}

/// Whether an input holds nothing that can be linked: it is a Mach-O file, or an
/// object file without bitcode.
pub open spec fn is_ignored(source: Source) -> bool {
    match input::input_type(source.contents) {
        Some(InputType::MachO) => true,
        Some(InputType::Elf) => source.bitcode is None,
        _ => false,
    }
}

/// The module that an input gives, as it is handed to LLVM.
pub open spec fn modules_of(source: Source) -> Seq<LinkActionModel> {
    match input::input_type(source.contents) {
        Some(InputType::Ir) => seq![LinkActionModel::LinkIr(source.contents.push(0u8))],
        Some(InputType::Bitcode) => seq![LinkActionModel::LinkBitcode(source.contents)],
        Some(InputType::Elf) => match source.bitcode {
            Some(bitcode) => seq![LinkActionModel::LinkBitcode(bitcode)],
            None => Seq::empty(),
        },
        _ => Seq::empty(),
    }
}

/// What linking sources comes to: the modules that are handed to LLVM, and the
/// last answer. The first input of unknown type ends it.
pub open spec fn outcome(sources: Seq<Source>) -> (Seq<LinkActionModel>, LinkActionModel)
    decreases sources.len(),
{
    if sources.len() == 0 {
        (Seq::empty(), LinkActionModel::Done)
    } else if is_unknown(sources[0]) {
        (
            Seq::empty(),
            LinkActionModel::Fail(
                LinkerErrorModel::InvalidInputType(input_path(sources[0].input)),
            ),
        )
    } else {
        let (modules, last) = outcome(sources.skip(1));
        (modules_of(sources[0]) + modules, last)
    }
}

/// The modules that were handed to LLVM.
pub open spec fn linked(actions: Seq<LinkActionModel>) -> Seq<LinkActionModel> {
    actions.filter(|action: LinkActionModel| action is LinkIr || action is LinkBitcode)
}

/// Whether an event says that nothing went wrong: the module was created, the
/// contents of the current input were read, its bitcode was found or is not
/// there, and LLVM linked what it was handed.
pub open spec fn is_smooth_event(source: Option<Source>, event: LinkEventModel) -> bool {
    match event {
        LinkEventModel::Start => true,
        LinkEventModel::ModuleCreated(created) => created,
        LinkEventModel::FileRead(result) => source is Some && result == Ok::<Seq<u8>, Seq<char>>(
            source->Some_0.contents,
        ),
        LinkEventModel::IrLinked(result) => result == Ok::<bool, Seq<char>>(true),
        LinkEventModel::BitcodeFound(result) => source is Some && result == Ok::<
            Option<Seq<u8>>,
            Seq<char>,
        >(source->Some_0.bitcode),
        LinkEventModel::BitcodeLinked(linked) => linked,
    }
}

/// The source with a number.
pub open spec fn source_at(sources: Seq<Source>, k: nat) -> Option<Source> {
    if k < sources.len() {
        Some(sources[k as int])
    } else {
        None
    }
}

/// Whether each event was awaited when it came, and nothing went wrong.
pub open spec fn is_smooth_run(sources: Seq<Source>, events: Seq<LinkEventModel>) -> bool
    decreases events.len(),
{
    events.len() > 0 ==> {
        let state = run(inputs_of(sources), events.drop_last()).0;
        &&& is_smooth_run(sources, events.drop_last())
        &&& link::is_awaited(state.awaited, events.last())
        &&& is_smooth_event(source_at(sources, state.index), events.last())
    }
}

/// Whether linking ends with an answer.
pub open spec fn is_end(action: LinkActionModel) -> bool {
    action is Done || action is Fail || action is Panic
}

/// What is still to come while an event is awaited.
spec fn to_come(state: LinkModel, sources: Seq<Source>) -> (Seq<LinkActionModel>, LinkActionModel) {
    let here = outcome(sources.skip(state.index as int));
    let behind = outcome(sources.skip(state.index as int + 1));
    match state.awaited {
        Awaited::Start | Awaited::Module | Awaited::File => here,
        Awaited::Ir | Awaited::Linked => behind,
        Awaited::Bitcode => here,
        Awaited::Nothing => (Seq::empty(), LinkActionModel::Done),
    }
}

/// Where a smooth run stands.
spec fn is_smooth_state(state: LinkModel, sources: Seq<Source>) -> bool {
    &&& state.inputs == inputs_of(sources)
    &&& state.rest is None
    &&& state.item is None
    &&& state.index <= sources.len()
    &&& match state.awaited {
        Awaited::Start | Awaited::Module => true,
        Awaited::File => state.index < sources.len() && state.path == input_path(
            sources[state.index as int].input,
        ),
        Awaited::Ir | Awaited::Linked => state.index < sources.len(),
        Awaited::Bitcode => state.index < sources.len() && input::input_type(
            sources[state.index as int].contents,
        ) == Some(InputType::Elf),
        Awaited::Nothing => true,
    }
}

/// Whether an answer fits what was to come.
spec fn is_smooth_answer(
    answer: (LinkModel, LinkActionModel),
    sources: Seq<Source>,
    all: (Seq<LinkActionModel>, LinkActionModel),
) -> bool {
    let (next, action) = answer;
    if is_end(action) {
        next.awaited == Awaited::Nothing && all == (Seq::<LinkActionModel>::empty(), action)
    } else {
        &&& is_smooth_state(next, sources)
        &&& next.awaited != Awaited::Nothing
        &&& all.0 == linked(seq![action]) + to_come(next, sources).0
        &&& all.1 == to_come(next, sources).1
    }
}

proof fn lemma_linked_single(action: LinkActionModel)
    ensures
        linked(seq![action]) == if action is LinkIr || action is LinkBitcode {
            seq![action]
        } else {
            Seq::empty()
        },
{
    reveal(Seq::filter);
    assert(seq![action].drop_last() =~= Seq::<LinkActionModel>::empty());
    assert(linked(seq![action].drop_last()) =~= Seq::<LinkActionModel>::empty());
    assert(seq![action].last() == action);
    assert(Seq::<LinkActionModel>::empty().push(action) =~= seq![action]);
}

proof fn lemma_linked_push(actions: Seq<LinkActionModel>, action: LinkActionModel)
    ensures
        linked(actions.push(action)) == linked(actions) + linked(seq![action]),
{
    lemma_linked_single(action);
    reveal(Seq::filter);
    assert(actions.push(action).drop_last() =~= actions);
}

/// What the outcome from one input on is made of.
proof fn lemma_outcome_unfolds(sources: Seq<Source>, k: nat)
    requires
        k < sources.len(),
    ensures
        sources.skip(k as int)[0] == sources[k as int],
        is_unknown(sources[k as int]) ==> outcome(sources.skip(k as int)) == (
            Seq::<LinkActionModel>::empty(),
            LinkActionModel::Fail(
                LinkerErrorModel::InvalidInputType(input_path(sources[k as int].input)),
            ),
        ),
        !is_unknown(sources[k as int]) ==> outcome(sources.skip(k as int)) == (
            modules_of(sources[k as int]) + outcome(sources.skip(k as int + 1)).0,
            outcome(sources.skip(k as int + 1)).1,
        ),
{
    assert(sources.skip(k as int).skip(1) =~= sources.skip(k as int + 1));
}

proof fn lemma_smooth_advance(state: LinkModel, sources: Seq<Source>)
    requires
        state.inputs == inputs_of(sources),
        state.rest is None,
        state.item is None,
        state.index <= sources.len(),
        forall|i: int| 0 <= i < sources.len() ==> is_plain(#[trigger] sources[i]),
    ensures
        is_smooth_answer(
            link::advance(state),
            sources,
            outcome(sources.skip(state.index as int)),
        ),
    decreases sources.len() - state.index, 1nat,
{
    let all = outcome(sources.skip(state.index as int));
    if state.index < sources.len() {
        let source = sources[state.index as int];
        assert(state.inputs[state.index as int] == source.input);
        assert(is_plain(source));
        match source.input {
            InputModel::File { path } => {
                let (next, action) = link::advance(state);
                lemma_linked_single(action);
                assert(all.0 =~= linked(seq![action]) + to_come(next, sources).0);
            },
            InputModel::Buffer { name, bytes } => {
                let opened = LinkModel { path: link::buffer_path(name), ..state };
                assert(link::advance(state) == link::process(opened, bytes));
                lemma_smooth_process(opened, sources);
            },
        }
    } else {
        assert(sources.skip(state.index as int).len() == 0);
    }
}

proof fn lemma_smooth_process(state: LinkModel, sources: Seq<Source>)
    requires
        state.inputs == inputs_of(sources),
        state.rest is None,
        state.item is None,
        state.index < sources.len(),
        state.path == input_path(sources[state.index as int].input),
        forall|i: int| 0 <= i < sources.len() ==> is_plain(#[trigger] sources[i]),
    ensures
        is_smooth_answer(
            link::process(state, sources[state.index as int].contents),
            sources,
            outcome(sources.skip(state.index as int)),
        ),
    decreases sources.len() - state.index, 0nat,
{
    let source = sources[state.index as int];
    let all = outcome(sources.skip(state.index as int));
    let answer = link::process(state, source.contents);
    assert(is_plain(source));
    lemma_outcome_unfolds(sources, state.index);
    lemma_linked_single(answer.1);
    match input::input_type(source.contents) {
        None => {},
        Some(InputType::MachO) => {
            let next = LinkModel { rest: None, index: state.index + 1, ..state };
            assert(answer == link::advance(next));
            lemma_smooth_advance(next, sources);
            assert(all.0 =~= outcome(sources.skip(state.index as int + 1)).0);
        },
        Some(InputType::Elf) => {
            assert(all.0 =~= linked(seq![answer.1]) + to_come(answer.0, sources).0);
        },
        Some(_) => {
            assert(all.0 =~= linked(seq![answer.1]) + to_come(answer.0, sources).0);
        },
    }
}

proof fn lemma_smooth_react(state: LinkModel, sources: Seq<Source>, event: LinkEventModel)
    requires
        is_smooth_state(state, sources),
        link::is_awaited(state.awaited, event),
        is_smooth_event(source_at(sources, state.index), event),
        forall|i: int| 0 <= i < sources.len() ==> is_plain(#[trigger] sources[i]),
    ensures
        is_smooth_answer(link::react(state, event), sources, to_come(state, sources)),
{
    let (next, action) = link::react(state, event);
    let all = to_come(state, sources);
    lemma_linked_single(action);
    match event {
        LinkEventModel::Start => {
            assert(all.0 =~= linked(seq![action]) + to_come(next, sources).0);
        },
        LinkEventModel::ModuleCreated(_) => lemma_smooth_advance(state, sources),
        LinkEventModel::FileRead(_) => lemma_smooth_process(state, sources),
        LinkEventModel::BitcodeFound(Ok(Some(_))) => {
            lemma_outcome_unfolds(sources, state.index);
            assert(all.0 =~= linked(seq![action]) + to_come(next, sources).0);
        },
        _ => {
            lemma_outcome_unfolds(sources, state.index);
            let behind = LinkModel { item: None, index: state.index + 1, ..state };
            lemma_smooth_advance(behind, sources);
            assert(all.0 =~= outcome(sources.skip(state.index as int + 1)).0);
        },
    }
}

proof fn lemma_smooth_run(sources: Seq<Source>, events: Seq<LinkEventModel>)
    requires
        is_smooth_run(sources, events),
        forall|i: int| 0 <= i < sources.len() ==> is_plain(#[trigger] sources[i]),
    ensures
        ({
            let (state, actions) = run(inputs_of(sources), events);
            &&& actions.len() == events.len()
            &&& if actions.len() > 0 && is_end(actions.last()) {
                state.awaited == Awaited::Nothing && outcome(sources) == (
                    linked(actions),
                    actions.last(),
                )
            } else {
                &&& is_smooth_state(state, sources)
                &&& state.awaited != Awaited::Nothing
                &&& outcome(sources) == (
                    linked(actions) + to_come(state, sources).0,
                    to_come(state, sources).1,
                )
            }
        }),
    decreases events.len(),
{
    let inputs = inputs_of(sources);
    assert(sources.skip(0) =~= sources);
    if events.len() == 0 {
        reveal(Seq::filter);
        assert(linked(Seq::<LinkActionModel>::empty()) =~= Seq::<LinkActionModel>::empty());
        assert(outcome(sources).0 =~= Seq::<LinkActionModel>::empty() + outcome(sources).0);
    } else {
        lemma_smooth_run(sources, events.drop_last());
        let (state, actions) = run(inputs, events.drop_last());
        let (next, action) = link::react(state, events.last());
        let (after, all) = run(inputs, events);
        assert(after == next && all == actions.push(action));
        lemma_linked_push(actions, action);
        lemma_linked_single(action);
        lemma_smooth_react(state, sources, events.last());
        if is_end(action) {
            assert(linked(all) =~= linked(actions) + to_come(state, sources).0);
        } else {
            assert(linked(all) + to_come(next, sources).0 =~= linked(actions) + to_come(
                state,
                sources,
            ).0);
        }
    }
}

proof fn lemma_outcome_ends(sources: Seq<Source>)
    ensures
        (forall|i: int| 0 <= i < sources.len() ==> !is_unknown(#[trigger] sources[i])) ==> outcome(
            sources,
        ).1 == LinkActionModel::Done,
        forall|i: int|
            0 <= i < sources.len() && is_unknown(#[trigger] sources[i]) && (forall|j: int|
                0 <= j < i ==> !is_unknown(#[trigger] sources[j])) ==> outcome(sources).1
                == LinkActionModel::Fail(
                LinkerErrorModel::InvalidInputType(input_path(sources[i].input)),
            ),
    decreases sources.len(),
{
    if sources.len() > 0 && !is_unknown(sources[0]) {
        let rest = sources.skip(1);
        lemma_outcome_ends(rest);
        assert(forall|i: int| 0 <= i < rest.len() ==> #[trigger] rest[i] == sources[i + 1]);
        assert forall|i: int|
            0 <= i < sources.len() && is_unknown(#[trigger] sources[i]) && (forall|j: int|
                0 <= j < i ==> !is_unknown(#[trigger] sources[j])) implies outcome(sources).1
            == LinkActionModel::Fail(
            LinkerErrorModel::InvalidInputType(input_path(sources[i].input)),
        ) by {
            assert(rest[i - 1] == sources[i]);
            assert forall|j: int| 0 <= j < i - 1 implies !is_unknown(#[trigger] rest[j]) by {
                assert(rest[j] == sources[j + 1]);
            }
        }
    }
}

/// Where nothing goes wrong with reading inputs and with LLVM, and no input is an
/// archive, linking fails exactly when the type of an input is unknown, with an
/// error that names the first such input; otherwise it is done. What was handed to
/// LLVM are the modules of the inputs in front of that.
pub proof fn first_unknown_input_is_refused(sources: Seq<Source>, events: Seq<LinkEventModel>)
    requires
        forall|i: int| 0 <= i < sources.len() ==> is_plain(#[trigger] sources[i]),
        is_smooth_run(sources, events),
        events.len() > 0,
        is_end(run(inputs_of(sources), events).1.last()),
    ensures
        ({
            let actions = run(inputs_of(sources), events).1;
            &&& (linked(actions), actions.last()) == outcome(sources)
            &&& (forall|i: int| 0 <= i < sources.len() ==> !is_unknown(#[trigger] sources[i]))
                ==> actions.last() == LinkActionModel::Done
            &&& forall|i: int|
                0 <= i < sources.len() && is_unknown(#[trigger] sources[i]) && (forall|j: int|
                    0 <= j < i ==> !is_unknown(#[trigger] sources[j])) ==> actions.last()
                    == LinkActionModel::Fail(
                    LinkerErrorModel::InvalidInputType(input_path(sources[i].input)),
                )
        }),
{
    lemma_smooth_run(sources, events);
    lemma_outcome_ends(sources);
}

/// The sources that are not ignored.
pub open spec fn without_ignored(sources: Seq<Source>) -> Seq<Source>
    decreases sources.len(),
{
    if sources.len() == 0 {
        Seq::empty()
    } else {
        let rest = without_ignored(sources.skip(1));
        if is_ignored(sources[0]) {
            rest
        } else {
            seq![sources[0]] + rest
        }
    }
}

proof fn lemma_ignored_do_not_count(sources: Seq<Source>)
    requires
        forall|i: int| 0 <= i < sources.len() ==> is_plain(#[trigger] sources[i]),
    ensures
        outcome(without_ignored(sources)) == outcome(sources),
        forall|i: int|
            0 <= i < without_ignored(sources).len() ==> is_plain(
                #[trigger] without_ignored(sources)[i],
            ),
    decreases sources.len(),
{
    if sources.len() > 0 {
        let rest = sources.skip(1);
        assert forall|i: int| 0 <= i < rest.len() implies is_plain(#[trigger] rest[i]) by {
            assert(rest[i] == sources[i + 1]);
        }
        lemma_ignored_do_not_count(rest);
        let kept = without_ignored(rest);
        if is_ignored(sources[0]) {
            assert(outcome(sources).0 =~= outcome(rest).0);
        } else {
            assert((seq![sources[0]] + kept).skip(1) =~= kept);
            assert(is_plain(sources[0]));
            assert forall|i: int| 0 <= i < without_ignored(sources).len() implies is_plain(
                #[trigger] without_ignored(sources)[i],
            ) by {
                if i > 0 {
                    assert(without_ignored(sources)[i] == kept[i - 1]);
                }
            }
        }
    }
}

/// Mach-O files and object files without bitcode do not count: where nothing goes
/// wrong with reading inputs and with LLVM, linking without them hands the same
/// modules to LLVM and ends with the same answer.
pub proof fn ignored_inputs_do_not_count(
    sources: Seq<Source>,
    events: Seq<LinkEventModel>,
    others: Seq<LinkEventModel>,
)
    requires
        forall|i: int| 0 <= i < sources.len() ==> is_plain(#[trigger] sources[i]),
        is_smooth_run(sources, events),
        events.len() > 0,
        is_end(run(inputs_of(sources), events).1.last()),
        is_smooth_run(without_ignored(sources), others),
        others.len() > 0,
        is_end(run(inputs_of(without_ignored(sources)), others).1.last()),
    ensures
        ({
            let actions = run(inputs_of(sources), events).1;
            let answers = run(inputs_of(without_ignored(sources)), others).1;
            linked(actions) == linked(answers) && actions.last() == answers.last()
        }),
{
    lemma_ignored_do_not_count(sources);
    lemma_smooth_run(sources, events);
    lemma_smooth_run(without_ignored(sources), others);
}

/// Where the work stands after some events, and the answers to them.
pub open spec fn work(start: PipelineModel, events: Seq<EventModel>) -> (
    PipelineModel,
    Seq<ActionModel>,
)
    decreases events.len(),
{
    if events.len() == 0 {
        (start, Seq::empty())
    } else {
        let (state, actions) = work(start, events.drop_last());
        let (next, action) = pipeline::react(state, events.last());
        (next, actions.push(action))
    }
}

/// Whether each event was awaited when it came.
pub open spec fn is_work(start: PipelineModel, events: Seq<EventModel>) -> bool
    decreases events.len(),
{
    events.len() > 0 ==> is_work(start, events.drop_last()) && pipeline::is_awaited(
        work(start, events.drop_last()).0,
        events.last(),
    )
}

/// How debug information is prepared.
pub open spec fn debug_info_action(btf: bool) -> ActionModel {
    if btf {
        ActionModel::SanitizeDebugInfo
    } else {
        ActionModel::StripDebugInfo
    }
}

/// Whether the answer before event `i` prepared the debug information, that
/// event said that it is ready, and the optimizer ran next, without a failure.
pub open spec fn is_optimized_at(
    btf: bool,
    events: Seq<EventModel>,
    actions: Seq<ActionModel>,
    i: int,
) -> bool {
    &&& 0 < i
    &&& i + 1 < events.len()
    &&& actions[i - 1] == debug_info_action(btf)
    &&& events[i] == EventModel::DebugInfoReady
    &&& actions[i] == ActionModel::Optimize
    &&& events[i + 1] == EventModel::Optimized(None)
}

/// What has happened when the work has come to a stage.
spec fn is_history(
    start: PipelineModel,
    state: PipelineModel,
    events: Seq<EventModel>,
    actions: Seq<ActionModel>,
) -> bool {
    let n = events.len();
    &&& actions.len() == n
    &&& state.btf == start.btf
    &&& state.stage == Stage::DebugInfo ==> n > 0 && actions[n - 1] == debug_info_action(start.btf)
    &&& state.stage == Stage::Optimizer ==> n > 1 && actions[n - 2] == debug_info_action(start.btf)
        && events[n - 1] == EventModel::DebugInfoReady && actions[n - 1] == ActionModel::Optimize
    &&& state.stage == Stage::AfterOptimizer || (n > 0 && actions[n - 1] == ActionModel::Done)
        ==> exists|i: int| #[trigger] is_optimized_at(start.btf, events, actions, i)
}

proof fn lemma_history(start: PipelineModel, events: Seq<EventModel>)
    requires
        start.stage == Stage::Linking,
        is_work(start, events),
    ensures
        is_history(start, work(start, events).0, events, work(start, events).1),
    decreases events.len(),
{
    if events.len() > 0 {
        let before = events.drop_last();
        lemma_history(start, before);
        let (state, actions) = work(start, before);
        let (next, action) = pipeline::react(state, events.last());
        let all = work(start, events).1;
        let n = events.len() as int;
        assert(all == actions.push(action));
        assert(forall|i: int| 0 <= i < n - 1 ==> events[i] == before[i] && all[i] == actions[i]);
        if state.stage == Stage::Optimizer && events.last() == EventModel::Optimized(None) {
            assert(is_optimized_at(start.btf, events, all, n - 2));
        }
        if state.stage == Stage::AfterOptimizer {
            let i = choose|i: int| #[trigger] is_optimized_at(start.btf, before, actions, i);
            assert(is_optimized_at(start.btf, events, all, i));
        }
    }
}

/// A module is only ready when its debug information was prepared, sanitized for
/// BTF and removed otherwise, and the optimizer ran on it next without a failure.
pub proof fn ready_module_is_optimized(start: PipelineModel, events: Seq<EventModel>)
    requires
        start.stage == Stage::Linking,
        is_work(start, events),
        events.len() > 0,
        work(start, events).1.last() == ActionModel::Done,
    ensures
        exists|i: int| #[trigger]
            is_optimized_at(start.btf, events, work(start, events).1, i),
{
    lemma_history(start, events);
}

} // verus!
