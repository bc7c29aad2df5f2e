//! Linking of all inputs into one module.
use vstd::prelude::*;

use crate::archive;
use crate::archive::{read_entries, ArchiveItem};
use crate::bytes;
use crate::error::{LinkerError, LinkerErrorModel};
use crate::input;
use crate::input::{detect_input_type, InputType, LinkerInput};

verus! {

/// An entry of an archive: its name and contents, or why they are not there.
pub type EntryModel = Result<(Seq<u8>, Result<Seq<u8>, Seq<char>>), Seq<char>>;

/// The mathematical content of a `LinkerInput`.
pub enum InputModel {
    File { path: Seq<u8> },
    Buffer { name: Seq<char>, bytes: Seq<u8> },
}

impl<'a> View for LinkerInput<'a> {
    type V = InputModel;

    open spec fn view(&self) -> InputModel {
        match *self {
            LinkerInput::File { path } => InputModel::File { path: path@ },
            LinkerInput::Buffer { name, bytes } => InputModel::Buffer {
                name: name@,
                bytes: bytes@,
            },
        }
    }
}

/// What the linker can do nothing with.
#[derive(Clone, Copy, Debug, PartialEq, Eq, Structural)]
pub enum Unsupported {
    /// An archive inside an archive.
    NestedArchive,
    /// IR with a NUL byte in it.
    NulInIr,
    /// An archive entry whose name starts beyond the table of names.
    ArchiveName,
    /// A path with a NUL byte in it.
    NulInPath,
}

/// What is to be done next.
pub enum LinkAction {
    /// Create the module that everything is linked into.
    CreateModule,
    /// Read a file.
    ReadFile(Vec<u8>),
    /// Parse IR, which ends in a NUL byte, and link it.
    LinkIr(Vec<u8>),
    /// Look for bitcode in an object file.
    FindBitcode(Vec<u8>),
    /// Parse bitcode and link it.
    LinkBitcode(Vec<u8>),
    /// Everything is linked.
    Done,
    /// Linking failed.
    Fail(LinkerError),
    /// The program cannot go on.
    Panic(Unsupported),
}

/// The mathematical content of a `LinkAction`.
pub enum LinkActionModel {
    CreateModule,
    ReadFile(Seq<u8>),
    LinkIr(Seq<u8>),
    FindBitcode(Seq<u8>),
    LinkBitcode(Seq<u8>),
    Done,
    Fail(LinkerErrorModel),
    Panic(Unsupported),
}

impl View for LinkAction {
    type V = LinkActionModel;

    open spec fn view(&self) -> LinkActionModel {
        match *self {
            LinkAction::CreateModule => LinkActionModel::CreateModule,
            LinkAction::ReadFile(path) => LinkActionModel::ReadFile(path@),
            LinkAction::LinkIr(data) => LinkActionModel::LinkIr(data@),
            LinkAction::FindBitcode(data) => LinkActionModel::FindBitcode(data@),
            LinkAction::LinkBitcode(data) => LinkActionModel::LinkBitcode(data@),
            LinkAction::Done => LinkActionModel::Done,
            LinkAction::Fail(error) => LinkActionModel::Fail(error@),
            LinkAction::Panic(reason) => LinkActionModel::Panic(reason),
        }
    }
}

/// What came of the last action.
pub enum LinkEvent {
    /// Nothing was done yet.
    Start,
    ModuleCreated(bool),
    FileRead(Result<Vec<u8>, String>),
    IrLinked(Result<bool, String>),
    BitcodeFound(Result<Option<Vec<u8>>, String>),
    BitcodeLinked(bool),
}

/// The mathematical content of a `LinkEvent`.
pub enum LinkEventModel {
    Start,
    ModuleCreated(bool),
    FileRead(Result<Seq<u8>, Seq<char>>),
    IrLinked(Result<bool, Seq<char>>),
    BitcodeFound(Result<Option<Seq<u8>>, Seq<char>>),
    BitcodeLinked(bool),
}

impl View for LinkEvent {
    type V = LinkEventModel;

    open spec fn view(&self) -> LinkEventModel {
        match *self {
            LinkEvent::Start => LinkEventModel::Start,
            LinkEvent::ModuleCreated(ok) => LinkEventModel::ModuleCreated(ok),
            LinkEvent::FileRead(result) => LinkEventModel::FileRead(archive::result_view(result)),
            LinkEvent::IrLinked(result) => LinkEventModel::IrLinked(
                match result {
                    Ok(linked) => Ok(linked),
                    Err(message) => Err(message@),
                },
            ),
            LinkEvent::BitcodeFound(result) => LinkEventModel::BitcodeFound(
                match result {
                    Ok(Some(bitcode)) => Ok(Some(bitcode@)),
                    Ok(None) => Ok(None),
                    Err(message) => Err(message@),
                },
            ),
            LinkEvent::BitcodeLinked(ok) => LinkEventModel::BitcodeLinked(ok),
        }
    }
}

/// Which event is awaited.
#[derive(Clone, Copy, Debug, PartialEq, Eq, Structural)]
pub enum Awaited {
    Start,
    Module,
    File,
    Ir,
    Bitcode,
    Linked,
    Nothing,
}

/// Where the linker stands: the inputs and the number of the current one, the
/// path of that, the rest of an archive, whether an entry without a name comes
/// behind that, the current entry, and the awaited event.
pub struct LinkModel {
    pub inputs: Seq<InputModel>,
    pub index: nat,
    pub path: Seq<u8>,
    pub rest: Option<Seq<EntryModel>>,
    pub nameless: bool,
    pub item: Option<Seq<u8>>,
    pub awaited: Awaited,
}

/// What linking some data starts with.
pub enum DataStep {
    Ask(LinkActionModel, Awaited),
    Ignore,
    Panic(Unsupported),
}

/// How data of a given type is linked. Mach-O files occur in archives and are
/// passed over.
pub open spec fn data_step(data: Seq<u8>, ty: InputType) -> DataStep {
    match ty {
        InputType::Ir => if data.contains(0u8) {
            DataStep::Panic(Unsupported::NulInIr)
        } else {
            DataStep::Ask(LinkActionModel::LinkIr(data.push(0u8)), Awaited::Ir)
        },
        InputType::Bitcode => DataStep::Ask(LinkActionModel::LinkBitcode(data), Awaited::Linked),
        InputType::Elf => DataStep::Ask(LinkActionModel::FindBitcode(data), Awaited::Bitcode),
        InputType::MachO => DataStep::Ignore,
        InputType::Archive => DataStep::Panic(Unsupported::NestedArchive),
    }
}

/// The path under which bytes in memory are reported.
pub open spec fn buffer_path(name: Seq<char>) -> Seq<u8> {
    bytes::ascii("in_memory::"@) + vstd::utf8::encode_utf8(name)
}

/// Nothing more is awaited after the last action.
pub open spec fn finish(state: LinkModel, action: LinkActionModel) -> (LinkModel, LinkActionModel) {
    (LinkModel { awaited: Awaited::Nothing, ..state }, action)
}

/// Goes on to the next entry of an archive or the next input.
pub open spec fn advance(state: LinkModel) -> (LinkModel, LinkActionModel)
    decreases
            state.inputs.len() - state.index,
            (if state.rest is None {
                1nat
            } else {
                0nat
            }),
            (match state.rest {
                Some(rest) => rest.len(),
                None => 0nat,
            }),
            1nat,
{
    match state.rest {
        Some(rest) => if rest.len() == 0 {
            if state.nameless {
                finish(state, LinkActionModel::Panic(Unsupported::ArchiveName))
            } else if state.index >= state.inputs.len() {
                finish(state, LinkActionModel::Done)
            } else {
                advance(LinkModel { rest: None, index: state.index + 1, ..state })
            }
        } else {
            let after = LinkModel { rest: Some(rest.skip(1)), ..state };
            match rest[0] {
                Err(message) => finish(
                    after,
                    LinkActionModel::Fail(LinkerErrorModel::IoError(state.path, message)),
                ),
                Ok((name, Err(message))) => finish(
                    after,
                    LinkActionModel::Fail(LinkerErrorModel::IoError(name, message)),
                ),
                Ok((name, Ok(data))) => match input::input_type(data) {
                    None => advance(after),
                    Some(ty) => match data_step(data, ty) {
                        DataStep::Ask(action, awaited) => (
                            LinkModel { item: Some(name), awaited, ..after },
                            action,
                        ),
                        DataStep::Ignore => advance(after),
                        DataStep::Panic(reason) => finish(after, LinkActionModel::Panic(reason)),
                    },
                },
            }
        },
        None => if state.index >= state.inputs.len() {
            finish(state, LinkActionModel::Done)
        } else {
            match state.inputs[state.index as int] {
                InputModel::File { path } => (
                    LinkModel { path, awaited: Awaited::File, ..state },
                    LinkActionModel::ReadFile(path),
                ),
                InputModel::Buffer { name, bytes } => process(
                    LinkModel { path: buffer_path(name), ..state },
                    bytes,
                ),
            }
        },
    }
}

/// Links the contents of the current input.
pub open spec fn process(state: LinkModel, data: Seq<u8>) -> (LinkModel, LinkActionModel)
    decreases state.inputs.len() - state.index, 1nat, 0nat, 0nat,
{
    match input::input_type(data) {
        None => finish(
            state,
            LinkActionModel::Fail(LinkerErrorModel::InvalidInputType(state.path)),
        ),
        Some(InputType::Archive) => advance(
            LinkModel {
                rest: Some(archive::archive_entries(archive::readable_part(data))),
                nameless: !archive::is_readable(data),
                ..state
            },
        ),
        Some(ty) => match data_step(data, ty) {
            DataStep::Ask(action, awaited) => (
                LinkModel { item: None, awaited, ..state },
                action,
            ),
            DataStep::Ignore => if state.index >= state.inputs.len() {
                finish(state, LinkActionModel::Done)
            } else {
                advance(LinkModel { rest: None, index: state.index + 1, ..state })
            },
            DataStep::Panic(reason) => finish(state, LinkActionModel::Panic(reason)),
        },
    }
}

/// Goes on after the current data has been dealt with.
pub open spec fn proceed(state: LinkModel) -> (LinkModel, LinkActionModel) {
    if state.rest is Some {
        advance(LinkModel { item: None, ..state })
    } else {
        advance(LinkModel { item: None, index: state.index + 1, ..state })
    }
}

/// The path that an error about the current data names.
pub open spec fn subject(state: LinkModel) -> Seq<u8> {
    match state.item {
        Some(name) => name,
        None => state.path,
    }
}

/// Fails with `error`, or on the entry of an archive with an error that names
/// the archive and the entry.
pub open spec fn fail(state: LinkModel, error: LinkerErrorModel) -> (LinkModel, LinkActionModel) {
    match state.item {
        Some(name) => finish(
            state,
            LinkActionModel::Fail(LinkerErrorModel::LinkArchiveModuleError(state.path, name)),
        ),
        None => finish(state, LinkActionModel::Fail(error)),
    }
}

/// What follows from an event. An object file without bitcode is passed over.
pub open spec fn react(state: LinkModel, event: LinkEventModel) -> (LinkModel, LinkActionModel) {
    match event {
        LinkEventModel::Start => (
            LinkModel { awaited: Awaited::Module, ..state },
            LinkActionModel::CreateModule,
        ),
        LinkEventModel::ModuleCreated(true) => advance(state),
        LinkEventModel::ModuleCreated(false) => finish(
            state,
            LinkActionModel::Fail(LinkerErrorModel::CreateModuleError),
        ),
        LinkEventModel::FileRead(Ok(data)) => process(state, data),
        LinkEventModel::FileRead(Err(message)) => finish(
            state,
            LinkActionModel::Fail(LinkerErrorModel::IoError(state.path, message)),
        ),
        LinkEventModel::IrLinked(Ok(true)) => proceed(state),
        LinkEventModel::IrLinked(Ok(false)) => fail(
            state,
            LinkerErrorModel::LinkModuleError(subject(state)),
        ),
        LinkEventModel::IrLinked(Err(message)) => fail(
            state,
            LinkerErrorModel::IRParseError(subject(state), message),
        ),
        LinkEventModel::BitcodeFound(Ok(Some(bitcode))) => (
            LinkModel { awaited: Awaited::Linked, ..state },
            LinkActionModel::LinkBitcode(bitcode),
        ),
        LinkEventModel::BitcodeFound(Ok(None)) => proceed(state),
        LinkEventModel::BitcodeFound(Err(message)) => fail(
            state,
            LinkerErrorModel::EmbeddedBitcodeError(message),
        ),
        LinkEventModel::BitcodeLinked(true) => proceed(state),
        LinkEventModel::BitcodeLinked(false) => fail(
            state,
            LinkerErrorModel::LinkModuleError(subject(state)),
        ),
    }
}

/// Whether an event is the awaited one.
pub open spec fn is_awaited(awaited: Awaited, event: LinkEventModel) -> bool {
    match event {
        LinkEventModel::Start => awaited == Awaited::Start,
        LinkEventModel::ModuleCreated(_) => awaited == Awaited::Module,
        LinkEventModel::FileRead(_) => awaited == Awaited::File,
        LinkEventModel::IrLinked(_) => awaited == Awaited::Ir,
        LinkEventModel::BitcodeFound(_) => awaited == Awaited::Bitcode,
        LinkEventModel::BitcodeLinked(_) => awaited == Awaited::Linked,
    }
}

/// Links inputs into one module, one action at a time.
pub struct LinkModules<'a> {
    inputs: Vec<LinkerInput<'a>>,
    index: usize,
    path: Vec<u8>,
    // The entries that are left, the next one last.
    rest: Option<Vec<Result<ArchiveItem, String>>>,
    nameless: bool,
    item: Option<Vec<u8>>,
    awaited: Awaited,
}

impl<'a> View for LinkModules<'a> {
    type V = LinkModel;

    closed spec fn view(&self) -> LinkModel {
        LinkModel {
            inputs: self.inputs@.map_values(|i: LinkerInput<'a>| i@),
            index: self.index as nat,
            path: self.path@,
            rest: match self.rest {
                Some(entries) => Some(archive::entry_views(entries@).reverse()),
                None => None,
            },
            nameless: self.nameless,
            item: match self.item {
                Some(name) => Some(name@),
                None => None,
            },
            awaited: self.awaited,
        }
    }
}

/// What linking some data starts with.
enum DataRequest {
    Ir(Vec<u8>),
    Find(Vec<u8>),
    Bitcode(Vec<u8>),
    Ignore,
    Panic(Unsupported),
}

/// Whether `request` is what `step` says.
spec fn is_request(request: DataRequest, step: DataStep) -> bool {
    match request {
        DataRequest::Ir(data) => step == DataStep::Ask(
            LinkActionModel::LinkIr(data@),
            Awaited::Ir,
        ),
        DataRequest::Find(data) => step == DataStep::Ask(
            LinkActionModel::FindBitcode(data@),
            Awaited::Bitcode,
        ),
        DataRequest::Bitcode(data) => step == DataStep::Ask(
            LinkActionModel::LinkBitcode(data@),
            Awaited::Linked,
        ),
        DataRequest::Ignore => step == DataStep::Ignore,
        DataRequest::Panic(reason) => step == DataStep::Panic(reason),
    }
}

/// Whether there is a NUL byte in some data.
pub fn contains_nul(data: &Vec<u8>) -> (r: bool)
    ensures
        r == data@.contains(0u8),
{
    let mut i: usize = 0;
    while i < data.len()
        invariant
            i <= data@.len(),
            forall|j: int| 0 <= j < i ==> data@[j] != 0,
        decreases data@.len() - i,
    {
        if data[i] == 0 {
            return true;
        }
        i = i + 1;
    }
    false
}

/// Decides how data of a given type is linked.
fn link_data(data: Vec<u8>, ty: InputType) -> (r: DataRequest)
    ensures
        is_request(r, data_step(data@, ty)),
{
    match ty {
        InputType::Ir => {
            if contains_nul(&data) {
                return DataRequest::Panic(Unsupported::NulInIr);
            }
            let mut ir = data;
            ir.push(0);
            DataRequest::Ir(ir)
        },
        InputType::Bitcode => DataRequest::Bitcode(data),
        InputType::Elf => DataRequest::Find(data),
        InputType::MachO => DataRequest::Ignore,
        InputType::Archive => DataRequest::Panic(Unsupported::NestedArchive),
    }
}

fn reversed(entries: Vec<Result<ArchiveItem, String>>) -> (r: Vec<Result<ArchiveItem, String>>)
    ensures
        archive::entry_views(r@).reverse() == archive::entry_views(entries@),
{
    let mut left = entries;
    let mut out: Vec<Result<ArchiveItem, String>> = Vec::new();
    let ghost all = entries@;
    while left.len() > 0
        invariant
            left@.len() <= all.len(),
            left@ == all.take(left@.len() as int),
            out@.len() == all.len() - left@.len(),
            forall|j: int| 0 <= j < out@.len() ==> #[trigger] out@[j] == all[all.len() - 1 - j],
        decreases left@.len(),
    {
        if let Some(entry) = left.pop() {
            out.push(entry);
        }
    }
    assert(archive::entry_views(out@).reverse() =~= archive::entry_views(all));
    out
}

impl<'a> LinkModules<'a> {
    /// The number of the current input stays in range.
    closed spec fn in_range(self) -> bool {
        self.index <= self.inputs@.len() && (self.rest is Some ==> self.index < self.inputs@.len())
    }

    /// An answer is only awaited for an input, and a file is only read between
    /// archives.
    pub closed spec fn wf(self) -> bool {
        &&& self.in_range()
        &&& self.awaited == Awaited::File || self.awaited == Awaited::Ir || self.awaited
            == Awaited::Bitcode || self.awaited == Awaited::Linked ==> self.index
            < self.inputs@.len()
        &&& self.awaited == Awaited::File ==> self.rest is None
    }

    pub fn new(inputs: Vec<LinkerInput<'a>>) -> (r: Self)
        ensures
            r.wf(),
            r@ == (LinkModel {
                inputs: inputs@.map_values(|i: LinkerInput<'a>| i@),
                index: 0,
                path: Seq::empty(),
                rest: None,
                nameless: false,
                item: None,
                awaited: Awaited::Start,
            }),
    {
        LinkModules {
            inputs,
            index: 0,
            path: Vec::new(),
            rest: None,
            nameless: false,
            item: None,
            awaited: Awaited::Start,
        }
    }

    /// Asks for what linking the current data starts with; `None` where the data
    /// is passed over.
    fn ask(&mut self, request: DataRequest) -> (r: Option<LinkAction>)
        ensures
            final(self).inputs == old(self).inputs,
            final(self).index == old(self).index,
            final(self).rest == old(self).rest,
            final(self)@.path == old(self)@.path,
            final(self)@.item == old(self)@.item,
            match request {
                DataRequest::Ignore => r is None && final(self)@ == old(self)@,
                DataRequest::Panic(reason) => r is Some && r->Some_0@ == LinkActionModel::Panic(
                    reason,
                ) && final(self)@ == (LinkModel { awaited: Awaited::Nothing, ..old(self)@ }),
                DataRequest::Ir(data) => r is Some && r->Some_0@ == LinkActionModel::LinkIr(data@)
                    && final(self)@ == (LinkModel { awaited: Awaited::Ir, ..old(self)@ }),
                DataRequest::Find(data) => r is Some && r->Some_0@
                    == LinkActionModel::FindBitcode(data@) && final(self)@ == (LinkModel {
                    awaited: Awaited::Bitcode,
                    ..old(self)@
                }),
                DataRequest::Bitcode(data) => r is Some && r->Some_0@
                    == LinkActionModel::LinkBitcode(data@) && final(self)@ == (LinkModel {
                    awaited: Awaited::Linked,
                    ..old(self)@
                }),
            },
    {
        match request {
            DataRequest::Ir(data) => {
                self.awaited = Awaited::Ir;
                Some(LinkAction::LinkIr(data))
            },
            DataRequest::Find(data) => {
                self.awaited = Awaited::Bitcode;
                Some(LinkAction::FindBitcode(data))
            },
            DataRequest::Bitcode(data) => {
                self.awaited = Awaited::Linked;
                Some(LinkAction::LinkBitcode(data))
            },
            DataRequest::Ignore => None,
            DataRequest::Panic(reason) => {
                self.awaited = Awaited::Nothing;
                Some(LinkAction::Panic(reason))
            },
        }
    }

    /// Starts to link the contents of the current input. `None` means that the
    /// next entry or input is due.
    fn open_input(&mut self, data: Vec<u8>) -> (r: Option<LinkAction>)
        requires
            old(self).index < old(self).inputs@.len(),
            old(self).rest is None,
        ensures
            final(self).inputs == old(self).inputs,
            final(self).in_range(),
            r is Some ==> final(self).wf(),
            match r {
                Some(action) => (final(self)@, action@) == process(old(self)@, data@),
                None => {
                    &&& advance(final(self)@) == process(old(self)@, data@)
                    &&& final(self).index > old(self).index || final(self).rest is Some
                },
            },
            r is None ==> final(self).index >= old(self).index,
    {
        let ty: InputType = match detect_input_type(data.as_slice()) {
            Some(ty) => ty,
            None => {
                self.awaited = Awaited::Nothing;
                return Some(
                    LinkAction::Fail(
                        LinkerError::InvalidInputType(bytes::copy(self.path.as_slice())),
                    ),
                );
            },
        };
        if let InputType::Archive = ty {
            let (entries, named) = read_entries(data.as_slice());
            self.rest = Some(reversed(entries));
            self.nameless = !named;
            None
        } else {
            let request = link_data(data, ty);
            let action = self.ask(request);
            match action {
                Some(action) => {
                    if let LinkAction::Panic(_) = action {
                        return Some(action);
                    }
                    self.item = None;
                    Some(action)
                },
                None => {
                    assert(self.inputs.len() <= usize::MAX);
                    self.index = self.index + 1;
                    None
                },
            }
        }
    }

    /// Takes the next entry of an archive. `None` means that the next entry or
    /// input is due.
    fn open_entry(&mut self) -> (r: Option<LinkAction>)
        requires
            old(self).rest is Some,
            old(self).index < old(self).inputs@.len(),
        ensures
            final(self).inputs == old(self).inputs,
            final(self).in_range(),
            r is Some ==> final(self).wf(),
            match r {
                Some(action) => (final(self)@, action@) == advance(old(self)@),
                None => {
                    &&& advance(final(self)@) == advance(old(self)@)
                    &&& final(self).index > old(self).index || (final(self).index
                        == old(self).index && final(self).rest is Some
                        && final(self).rest->Some_0@.len() < old(self).rest->Some_0@.len())
                },
            },
    {
        let ghost before = self@;
        let mut entries: Vec<Result<ArchiveItem, String>> = match self.rest.take() {
            Some(entries) => entries,
            None => Vec::new(),
        };
        let ghost views = archive::entry_views(entries@);
        match entries.pop() {
            None => {
                if self.nameless {
                    assert(archive::entry_views(entries@).reverse() =~= before.rest->Some_0);
                    self.rest = Some(entries);
                    self.awaited = Awaited::Nothing;
                    return Some(LinkAction::Panic(Unsupported::ArchiveName));
                }
                assert(self.inputs.len() <= usize::MAX);
                self.index = self.index + 1;
                None
            },
            Some(entry) => {
                proof {
                    assert(before.rest->Some_0 == views.reverse());
                    assert(views.reverse()[0] == archive::entry_view(entry));
                    assert(archive::entry_views(entries@).reverse() =~= views.reverse().skip(1));
                }
                self.rest = Some(entries);
                match entry {
                    Err(message) => {
                        self.awaited = Awaited::Nothing;
                        Some(
                            LinkAction::Fail(
                                LinkerError::IoError(bytes::copy(self.path.as_slice()), message),
                            ),
                        )
                    },
                    Ok(item) => match item.data {
                        Err(message) => {
                            self.awaited = Awaited::Nothing;
                            Some(LinkAction::Fail(LinkerError::IoError(item.identifier, message)))
                        },
                        Ok(data) => match detect_input_type(data.as_slice()) {
                            None => None,
                            Some(ty) => {
                                let request = link_data(data, ty);
                                let action = self.ask(request);
                                match action {
                                    Some(action) => {
                                        if let LinkAction::Panic(_) = action {
                                            return Some(action);
                                        }
                                        self.item = Some(item.identifier);
                                        Some(action)
                                    },
                                    None => None,
                                }
                            },
                        },
                    },
                }
            },
        }
    }

    /// Goes on to the next entry of an archive or the next input.
    fn advance(&mut self) -> (r: LinkAction)
        requires
            old(self).in_range(),
        ensures
            final(self).inputs == old(self).inputs,
            final(self).wf(),
            (final(self)@, r@) == advance(old(self)@),
    {
        loop
            invariant
                self.inputs == old(self).inputs,
                self.in_range(),
                advance(self@) == advance(old(self)@),
            decreases
                    self.inputs@.len() - self.index,
                    (if self.rest is None {
                        1nat
                    } else {
                        0nat
                    }),
                    (match self.rest {
                        Some(entries) => entries@.len(),
                        None => 0nat,
                    }),
        {
            if self.rest.is_some() {
                if let Some(action) = self.open_entry() {
                    return action;
                }
            } else if self.index >= self.inputs.len() {
                self.awaited = Awaited::Nothing;
                return LinkAction::Done;
            } else {
                let ghost before = self@;
                assert(before.inputs[self.index as int] == self.inputs@[self.index as int]@);
                match &self.inputs[self.index] {
                    LinkerInput::File { path } => {
                        let name = bytes::copy(path);
                        self.path = bytes::copy(path);
                        self.awaited = Awaited::File;
                        return LinkAction::ReadFile(name);
                    },
                    LinkerInput::Buffer { name, bytes: contents } => {
                        proof {
                            reveal_strlit("in_memory::");
                        }
                        let mut path = bytes::copy(bytes::literal("in_memory::"));
                        bytes::append(&mut path, name.as_bytes());
                        let data = bytes::copy(contents);
                        self.path = path;
                        if let Some(action) = self.open_input(data) {
                            return action;
                        }
                    },
                }
            }
        }
    }

    /// Goes on after the current data has been dealt with.
    fn proceed(&mut self) -> (r: LinkAction)
        requires
            old(self).wf(),
            old(self).index < old(self).inputs@.len(),
        ensures
            final(self).inputs == old(self).inputs,
            final(self).wf(),
            (final(self)@, r@) == proceed(old(self)@),
    {
        self.item = None;
        if self.rest.is_none() {
            assert(self.inputs.len() <= usize::MAX);
            self.index = self.index + 1;
        }
        self.advance()
    }

    fn copy_subject(&self) -> (r: Vec<u8>)
        ensures
            r@ == subject(self@),
    {
        match &self.item {
            Some(name) => bytes::copy(name.as_slice()),
            None => bytes::copy(self.path.as_slice()),
        }
    }

    /// Fails with `error`, or on the entry of an archive with an error that names
    /// the archive and the entry.
    fn fail(&mut self, error: LinkerError) -> (r: LinkAction)
        requires
            old(self).in_range(),
        ensures
            final(self).inputs == old(self).inputs,
            final(self).wf(),
            (final(self)@, r@) == fail(old(self)@, error@),
    {
        self.awaited = Awaited::Nothing;
        match &self.item {
            Some(name) => LinkAction::Fail(
                LinkerError::LinkArchiveModuleError(
                    bytes::copy(self.path.as_slice()),
                    bytes::copy(name.as_slice()),
                ),
            ),
            None => LinkAction::Fail(error),
        }
    }

    /// Decides what is done next, given what came of the last action.
    pub fn step(&mut self, event: LinkEvent) -> (r: LinkAction)
        requires
            old(self).wf(),
            is_awaited(old(self)@.awaited, event@),
        ensures
            final(self).wf(),
            (final(self)@, r@) == react(old(self)@, event@),
    {
        match event {
            LinkEvent::Start => {
                self.awaited = Awaited::Module;
                LinkAction::CreateModule
            },
            LinkEvent::ModuleCreated(created) => {
                if created {
                    self.advance()
                } else {
                    self.awaited = Awaited::Nothing;
                    LinkAction::Fail(LinkerError::CreateModuleError)
                }
            },
            LinkEvent::FileRead(result) => match result {
                Ok(data) => {
                    match self.open_input(data) {
                        Some(action) => action,
                        None => self.advance(),
                    }
                },
                Err(message) => {
                    self.awaited = Awaited::Nothing;
                    LinkAction::Fail(
                        LinkerError::IoError(bytes::copy(self.path.as_slice()), message),
                    )
                },
            },
            LinkEvent::IrLinked(result) => match result {
                Ok(linked) => {
                    if linked {
                        self.proceed()
                    } else {
                        let path = self.copy_subject();
                        self.fail(LinkerError::LinkModuleError(path))
                    }
                },
                Err(message) => {
                    let path = self.copy_subject();
                    self.fail(LinkerError::IRParseError(path, message))
                },
            },
            LinkEvent::BitcodeFound(result) => match result {
                Ok(Some(bitcode)) => {
                    self.awaited = Awaited::Linked;
                    LinkAction::LinkBitcode(bitcode)
                },
                Ok(None) => self.proceed(),
                Err(message) => self.fail(LinkerError::EmbeddedBitcodeError(message)),
            },
            LinkEvent::BitcodeLinked(linked) => {
                if linked {
                    self.proceed()
                } else {
                    let path = self.copy_subject();
                    self.fail(LinkerError::LinkModuleError(path))
                }
            },
        }
    }
}

/// An archive entry that is no module is passed over: linking goes on with the
/// entries behind it.
pub proof fn unknown_entry_is_skipped(state: LinkModel, name: Seq<u8>, data: Seq<u8>)
    requires
        state.rest is Some,
        state.rest->Some_0.len() > 0,
        state.rest->Some_0[0] == Ok::<(Seq<u8>, Result<Seq<u8>, Seq<char>>), Seq<char>>(
            (name, Ok(data)),
        ),
        input::input_type(data) is None || input::input_type(data) == Some(InputType::MachO),
    ensures
        advance(state) == advance(
            LinkModel { rest: Some(state.rest->Some_0.skip(1)), ..state },
        ),
{
}

/// An object file without bitcode is passed over as if it had been linked.
pub proof fn missing_bitcode_is_skipped(state: LinkModel)
    ensures
        react(state, LinkEventModel::BitcodeFound(Ok(None))) == react(
            state,
            LinkEventModel::BitcodeLinked(true),
        ),
{
}

/// Whatever goes wrong with an entry of an archive once it is being linked, the
/// error names the archive and the entry.
pub proof fn entry_failure_names_archive(state: LinkModel, event: LinkEventModel, name: Seq<u8>)
    requires
        state.item == Some(name),
        event == LinkEventModel::BitcodeLinked(false) || (event
            matches LinkEventModel::IrLinked(result) && result != Ok::<bool, Seq<char>>(true)) || (
        event matches LinkEventModel::BitcodeFound(result) && result is Err),
    ensures
        react(state, event).1 == LinkActionModel::Fail(
            LinkerErrorModel::LinkArchiveModuleError(state.path, name),
        ),
{
}

/// An input that is no module, object file or archive is refused by its path.
pub proof fn unknown_input_is_refused(state: LinkModel, data: Seq<u8>)
    requires
        input::input_type(data) is None,
    ensures
        process(state, data).1 == LinkActionModel::Fail(
            LinkerErrorModel::InvalidInputType(state.path),
        ),
{
}

} // verus!
