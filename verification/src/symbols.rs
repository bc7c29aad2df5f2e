//! Which symbols of a module stay visible, and which passes run over it.
use vstd::prelude::*;

use crate::bytes;
use crate::options::{LinkerOptions, OptLevel};

verus! {

/// A set of symbol names.
pub struct ExportSymbols {
    names: Vec<Vec<u8>>,
}

impl View for ExportSymbols {
    type V = Set<Seq<u8>>;

    closed spec fn view(&self) -> Set<Seq<u8>> {
        Set::new(|name: Seq<u8>| exists|i: int| 0 <= i < self.names@.len() && self.names@[i]@ == name)
    }
}

impl ExportSymbols {
    /// No name is held twice.
    pub closed spec fn wf(self) -> bool {
        forall|i: int, j: int|
            0 <= i < j < self.names@.len() ==> self.names@[i]@ != self.names@[j]@
    }

    pub fn new() -> (r: Self)
        ensures
            r.wf(),
            r@ == Set::<Seq<u8>>::empty(),
    {
        let r = ExportSymbols { names: Vec::new() };
        assert(r@ =~= Set::<Seq<u8>>::empty());
        r
    }

    pub fn contains(&self, name: &[u8]) -> (r: bool)
        ensures
            r == self@.contains(name@),
    {
        let mut i: usize = 0;
        while i < self.names.len()
            invariant
                i <= self.names@.len(),
                forall|j: int| 0 <= j < i ==> self.names@[j]@ != name@,
            decreases self.names@.len() - i,
        {
            if bytes::equal(self.names[i].as_slice(), name) {
                assert(self.names@[i as int]@ == name@);
                return true;
            }
            i = i + 1;
        }
        false
    }

    pub fn insert(&mut self, name: &[u8])
        requires
            old(self).wf(),
        ensures
            final(self).wf(),
            final(self)@ == old(self)@.insert(name@),
    {
        if !self.contains(name) {
            let ghost before = self.names@;
            self.names.push(bytes::copy(name));
            let ghost after = self.names@;
            assert(after.last()@ == name@);
            assert forall|n: Seq<u8>| old(self)@.insert(name@).contains(n) implies self@.contains(
                n,
            ) by {
                if n == name@ {
                    assert(after[after.len() - 1]@ == n);
                } else {
                    let i = choose|i: int| 0 <= i < before.len() && before[i]@ == n;
                    assert(after[i]@ == n);
                }
            }
            assert forall|n: Seq<u8>| self@.contains(n) implies old(self)@.insert(
                name@,
            ).contains(n) by {
                let i = choose|i: int| 0 <= i < after.len() && after[i]@ == n;
                if i < before.len() {
                    assert(before[i]@ == n);
                }
            }
            assert forall|i: int, j: int| 0 <= i < j < after.len() implies after[i]@
                != after[j]@ by {
                if j == after.len() - 1 {
                    assert(before[i]@ != name@);
                }
            }
        }
        assert(self@ =~= old(self)@.insert(name@));
    }
}

/// The names that cover the memory builtins, which LLVM may call on its own.
pub open spec fn memory_builtins() -> Set<Seq<u8>> {
    Set::<Seq<u8>>::empty().insert(bytes::ascii("memcpy"@)).insert(bytes::ascii("memmove"@)).insert(
        bytes::ascii("memset"@),
    ).insert(bytes::ascii("memcmp"@)).insert(bytes::ascii("bcmp"@))
}

/// The set of names in a list.
pub open spec fn names_of(symbols: Seq<Vec<u8>>) -> Set<Seq<u8>>
    decreases symbols.len(),
{
    if symbols.len() == 0 {
        Set::empty()
    } else {
        names_of(symbols.drop_last()).insert(symbols.last()@)
    }
}

/// The symbols that stay visible: those that were asked for and, unless they are
/// disabled, the memory builtins.
pub open spec fn exported(symbols: Seq<Vec<u8>>, disable_memory_builtins: bool) -> Set<Seq<u8>> {
    if disable_memory_builtins {
        names_of(symbols)
    } else {
        names_of(symbols).union(memory_builtins())
    }
}

/// Collects the symbols that stay visible.
pub fn export_symbols(symbols: &Vec<Vec<u8>>, disable_memory_builtins: bool) -> (r: ExportSymbols)
    ensures
        r.wf(),
        r@ == exported(symbols@, disable_memory_builtins),
{
    let mut set = ExportSymbols::new();
    let mut i: usize = 0;
    while i < symbols.len()
        invariant
            i <= symbols@.len(),
            set.wf(),
            set@ == names_of(symbols@.take(i as int)),
        decreases symbols@.len() - i,
    {
        assert(symbols@.take(i + 1).drop_last() =~= symbols@.take(i as int));
        set.insert(symbols[i].as_slice());
        i = i + 1;
    }
    assert(symbols@.take(symbols@.len() as int) =~= symbols@);
    if !disable_memory_builtins {
        proof {
            reveal_strlit("memcpy");
            reveal_strlit("memmove");
            reveal_strlit("memset");
            reveal_strlit("memcmp");
            reveal_strlit("bcmp");
        }
        set.insert(bytes::literal("memcpy"));
        set.insert(bytes::literal("memmove"));
        set.insert(bytes::literal("memset"));
        set.insert(bytes::literal("memcmp"));
        set.insert(bytes::literal("bcmp"));
        assert(set@ =~= names_of(symbols@).union(memory_builtins()));
    }
    set
}

/// What kind of symbol is being looked at.
#[derive(Clone, Copy, Debug, PartialEq, Eq, Structural)]
pub enum SymbolKind {
    Function { num_blocks: u32 },
    GlobalVariable { is_declaration: bool },
    Alias,
}

/// A symbol of a module.
pub struct Symbol {
    pub name: Vec<u8>,
    pub kind: SymbolKind,
}

/// What is done to a symbol.
#[derive(Clone, Copy, Debug, PartialEq, Eq, Structural)]
pub enum SymbolAction {
    /// The symbol stays as it is.
    Keep,
    /// The symbol is undefined: it goes to section `.ksyms`.
    MoveToKsyms,
    /// The symbol gets internal linkage and default visibility.
    Internalize,
}

/// Whether a name belongs to LLVM itself.
pub open spec fn is_llvm_name(name: Seq<u8>) -> bool {
    bytes::begins_with(name, bytes::ascii("llvm."@))
}

/// Whether a symbol has no definition in the module.
pub open spec fn is_undefined(kind: SymbolKind) -> bool {
    match kind {
        SymbolKind::Function { num_blocks } => num_blocks == 0,
        SymbolKind::GlobalVariable { is_declaration } => is_declaration,
        SymbolKind::Alias => false,
    }
}

/// What is done to a symbol when `exports` stay visible.
pub open spec fn symbol_action(
    name: Seq<u8>,
    kind: SymbolKind,
    exports: Set<Seq<u8>>,
) -> SymbolAction {
    if is_llvm_name(name) || exports.contains(name) {
        SymbolAction::Keep
    } else if is_undefined(kind) {
        SymbolAction::MoveToKsyms
    } else {
        SymbolAction::Internalize
    }
}

/// Whether `name` starts with `llvm.`.
fn has_llvm_prefix(name: &[u8]) -> (r: bool)
    ensures
        r == is_llvm_name(name@),
{
    proof {
        reveal_strlit("llvm.");
    }
    bytes::starts_with(name, bytes::literal("llvm."))
}

/// Decides what is done to a symbol.
pub fn internalize(symbol: &Symbol, exports: &ExportSymbols) -> (r: SymbolAction)
    ensures
        r == symbol_action(symbol.name@, symbol.kind, exports@),
{
    if has_llvm_prefix(symbol.name.as_slice()) || exports.contains(symbol.name.as_slice()) {
        return SymbolAction::Keep;
    }
    match symbol.kind {
        SymbolKind::Function { num_blocks } => {
            if num_blocks == 0 {
                return SymbolAction::MoveToKsyms;
            }
        },
        SymbolKind::GlobalVariable { is_declaration } => {
            if is_declaration {
                return SymbolAction::MoveToKsyms;
            }
        },
        SymbolKind::Alias => {},
    }
    SymbolAction::Internalize
}

/// Whether the inline assembly of a module defines the stack probe of Rust.
pub open spec fn is_probestack(code: Seq<u8>) -> bool {
    exists|i: int|
        0 <= i && i + "__rust_probestack"@.len() <= code.len() && #[trigger] code.subrange(
            i,
            i + "__rust_probestack"@.len(),
        ) == bytes::ascii("__rust_probestack"@)
}

/// Whether the inline assembly of a module defines the stack probe of Rust. A
/// module without inline assembly does not.
pub fn module_asm_is_probestack(code: Option<&Vec<u8>>) -> (r: bool)
    ensures
        r == (code is Some && is_probestack(code->Some_0@)),
{
    let haystack: &Vec<u8> = match code {
        Some(haystack) => haystack,
        None => return false,
    };
    proof {
        reveal_strlit("__rust_probestack");
    }
    let needle: &[u8] = bytes::literal("__rust_probestack");
    if haystack.len() < needle.len() {
        return false;
    }
    let last: usize = haystack.len() - needle.len();
    let mut i: usize = 0;
    while i <= last
        invariant
            i <= last + 1,
            last + needle@.len() == haystack@.len(),
            haystack@.len() <= usize::MAX,
            needle@.len() > 0,
            code == Some(haystack),
            needle@ == bytes::ascii("__rust_probestack"@),
            needle@.len() == "__rust_probestack"@.len(),
            forall|j: int|
                0 <= j < i ==> #[trigger] haystack@.subrange(j, j + needle@.len()) != needle@,
        decreases last + 1 - i,
    {
        let window: &[u8] = vstd::slice::slice_subrange(
            haystack.as_slice(),
            i,
            i + needle.len(),
        );
        if bytes::equal(window, needle) {
            assert(haystack@.subrange(i as int, i + "__rust_probestack"@.len()) == needle@);
            return true;
        }
        i = i + 1;
    }
    assert(!is_probestack(haystack@)) by {
        if is_probestack(haystack@) {
            let k = choose|k: int|
                0 <= k && k + "__rust_probestack"@.len() <= haystack@.len()
                    && #[trigger] haystack@.subrange(k, k + "__rust_probestack"@.len())
                    == bytes::ascii("__rust_probestack"@);
            assert(haystack@.subrange(k, k + needle@.len()) == needle@);
        }
    }
    false
}

/// The pipeline of LLVM that an optimization level stands for.
pub open spec fn default_pass(level: OptLevel) -> Seq<char> {
    match level {
        OptLevel::No => "default<O0>"@,
        OptLevel::Less => "default<O1>"@,
        OptLevel::Default => "default<O2>"@,
        OptLevel::Aggressive => "default<O3>"@,
        OptLevel::Size => "default<Os>"@,
        OptLevel::SizeMin => "default<Oz>"@,
    }
}

/// The passes that run over a module. Where anything is optimized, dead code is
/// removed at the end, whether or not the pipeline does so itself.
pub open spec fn passes_of(level: OptLevel) -> Seq<char> {
    if level == OptLevel::No {
        default_pass(level)
    } else {
        default_pass(level) + ","@ + "dce"@
    }
}

/// Lists the passes that run over a module. The default pipeline must come first:
/// LLVM ignores it anywhere else.
pub fn passes(level: OptLevel) -> (r: String)
    ensures
        r@ == passes_of(level),
{
    let first: &str = match level {
        OptLevel::No => "default<O0>",
        OptLevel::Less => "default<O1>",
        OptLevel::Default => "default<O2>",
        OptLevel::Aggressive => "default<O3>",
        OptLevel::Size => "default<Os>",
        OptLevel::SizeMin => "default<Oz>",
    };
    let mut joined: String = String::from_str(first);
    if level != OptLevel::No {
        joined.append(",");
        joined.append("dce");
    }
    joined
}

/// What is done to a function.
#[derive(Clone, Copy, Debug, PartialEq, Eq, Structural)]
pub struct FunctionAction {
    pub remove_noinline: bool,
    pub action: SymbolAction,
}

/// What the optimizer reads of a module.
pub struct ModuleSymbols {
    pub inline_asm: Option<Vec<u8>>,
    pub globals: Vec<Symbol>,
    pub aliases: Vec<Symbol>,
    pub functions: Vec<Symbol>,
}

/// What the optimizer does to a module, in this order.
pub struct OptimizePlan {
    pub clear_inline_asm: bool,
    pub globals: Vec<SymbolAction>,
    pub aliases: Vec<SymbolAction>,
    pub functions: Vec<FunctionAction>,
    pub passes: String,
}

/// What is done to each symbol of a list.
pub open spec fn symbol_actions(symbols: Seq<Symbol>, exports: Set<Seq<u8>>) -> Seq<SymbolAction> {
    symbols.map_values(|s: Symbol| symbol_action(s.name@, s.kind, exports))
}

/// What is done to a function. A function of LLVM itself keeps its attributes.
pub open spec fn function_action(
    function: Symbol,
    ignore_inline_never: bool,
    exports: Set<Seq<u8>>,
) -> FunctionAction {
    FunctionAction {
        remove_noinline: ignore_inline_never && !is_llvm_name(function.name@),
        action: symbol_action(function.name@, function.kind, exports),
    }
}

/// Whether a name starts with the five bytes `llvm.`.
pub open spec fn starts_with_llvm_dot(name: Seq<u8>) -> bool {
    name.len() >= 5 && name[0] == 0x6c && name[1] == 0x6c && name[2] == 0x76 && name[3] == 0x6d
        && name[4] == 0x2e
}

proof fn lemma_llvm_dot(name: Seq<u8>)
    ensures
        is_llvm_name(name) == starts_with_llvm_dot(name),
{
    reveal_strlit("llvm.");
    let prefix = bytes::ascii("llvm."@);
    assert(prefix =~= seq![0x6cu8, 0x6c, 0x76, 0x6d, 0x2e]);
    if name.len() >= 5 {
        let start = name.subrange(0, 5);
        assert(start[0] == name[0] && start[1] == name[1] && start[2] == name[2] && start[3]
            == name[3] && start[4] == name[4]);
        if starts_with_llvm_dot(name) {
            assert(start =~= prefix);
        }
    }
}

/// A variable or alias that is exported, or whose name starts with `llvm.`, is kept.
/// Any other goes to `.ksyms` exactly if the module does not define it, and becomes
/// internal exactly if it does.
pub proof fn symbols_are_hidden_by_their_definition(
    symbols: Seq<Symbol>,
    exports: Set<Seq<u8>>,
    i: int,
)
    requires
        0 <= i < symbols.len(),
    ensures
        symbol_actions(symbols, exports).len() == symbols.len(),
        ({
            let symbol = symbols[i];
            let action = symbol_actions(symbols, exports)[i];
            if exports.contains(symbol.name@) || starts_with_llvm_dot(symbol.name@) {
                action == SymbolAction::Keep
            } else {
                match symbol.kind {
                    SymbolKind::GlobalVariable { is_declaration } => {
                        &&& action == SymbolAction::MoveToKsyms <==> is_declaration
                        &&& action == SymbolAction::Internalize <==> !is_declaration
                    },
                    SymbolKind::Function { num_blocks } => {
                        &&& action == SymbolAction::MoveToKsyms <==> num_blocks == 0
                        &&& action == SymbolAction::Internalize <==> num_blocks > 0
                    },
                    SymbolKind::Alias => action == SymbolAction::Internalize,
                }
            }
        }),
{
    lemma_llvm_dot(symbols[i].name@);
}

/// A function that is not exported, and whose name does not start with `llvm.`, goes to
/// `.ksyms` exactly if it has no blocks and becomes internal exactly if it has some,
/// whether or not inlining attributes are removed. Those are removed where that was
/// asked for, but not from functions whose name starts with `llvm.`.
pub proof fn functions_are_hidden_by_their_blocks(
    function: Symbol,
    num_blocks: u32,
    exports: Set<Seq<u8>>,
    ignore_inline_never: bool,
)
    requires
        function.kind == (SymbolKind::Function { num_blocks }),
    ensures
        ({
            let planned = function_action(function, ignore_inline_never, exports);
            let hidden = !exports.contains(function.name@) && !starts_with_llvm_dot(
                function.name@,
            );
            &&& planned.action == SymbolAction::MoveToKsyms <==> hidden && num_blocks == 0
            &&& planned.action == SymbolAction::Internalize <==> hidden && num_blocks > 0
            &&& planned.action == SymbolAction::Keep <==> !hidden
            &&& planned.remove_noinline <==> ignore_inline_never && !starts_with_llvm_dot(
                function.name@,
            )
        }),
        function_action(function, true, exports).action == function_action(
            function,
            false,
            exports,
        ).action,
{
    lemma_llvm_dot(function.name@);
}

/// Each optimization level runs the pipeline of LLVM with its name. `-O0` runs
/// nothing else; every other level removes dead code behind it.
pub proof fn each_level_runs_its_pipeline(level: OptLevel)
    ensures
        passes_of(level) == (match level {
            OptLevel::No => "default<O0>"@,
            OptLevel::Less => "default<O1>"@ + ",dce"@,
            OptLevel::Default => "default<O2>"@ + ",dce"@,
            OptLevel::Aggressive => "default<O3>"@ + ",dce"@,
            OptLevel::Size => "default<Os>"@ + ",dce"@,
            OptLevel::SizeMin => "default<Oz>"@ + ",dce"@,
        }),
{
    reveal_strlit(",");
    reveal_strlit("dce");
    reveal_strlit(",dce");
    assert(","@ + "dce"@ =~= ",dce"@);
    assert(default_pass(level) + ","@ + "dce"@ =~= default_pass(level) + (","@ + "dce"@));
}

/// A symbol is exported exactly if it was asked for or, unless they are disabled,
/// is one of the five memory builtins.
pub proof fn exported_are_the_names_and_the_builtins(
    symbols: Seq<Vec<u8>>,
    disable_memory_builtins: bool,
    name: Seq<u8>,
)
    ensures
        exported(symbols, disable_memory_builtins).contains(name) <==> (exists|i: int|
            0 <= i < symbols.len() && (#[trigger] symbols[i])@ == name) || (
        !disable_memory_builtins && (name == bytes::ascii("memcpy"@) || name == bytes::ascii(
            "memmove"@,
        ) || name == bytes::ascii("memset"@) || name == bytes::ascii("memcmp"@) || name
            == bytes::ascii("bcmp"@))),
    decreases symbols.len(),
{
    if symbols.len() > 0 {
        let front = symbols.drop_last();
        exported_are_the_names_and_the_builtins(front, disable_memory_builtins, name);
        if exists|i: int| 0 <= i < front.len() && (#[trigger] front[i])@ == name {
            let i = choose|i: int| 0 <= i < front.len() && (#[trigger] front[i])@ == name;
            assert(symbols[i]@ == name);
        }
        if exists|i: int| 0 <= i < symbols.len() && (#[trigger] symbols[i])@ == name {
            let i = choose|i: int| 0 <= i < symbols.len() && (#[trigger] symbols[i])@ == name;
            if i < front.len() {
                assert(front[i]@ == name);
            }
        }
        assert(symbols[symbols.len() - 1] == symbols.last());
    }
}

/// The inline assembly of a module has the stack probe of Rust in it exactly if
/// the name of that stands somewhere in it.
pub proof fn probestack_stands_in_the_code(code: Seq<u8>)
    ensures
        is_probestack(code) <==> exists|before: Seq<u8>, after: Seq<u8>|
            code == #[trigger] (before + bytes::ascii("__rust_probestack"@) + after),
{
    let needle = bytes::ascii("__rust_probestack"@);
    if is_probestack(code) {
        let i = choose|i: int|
            0 <= i && i + "__rust_probestack"@.len() <= code.len() && #[trigger] code.subrange(
                i,
                i + "__rust_probestack"@.len(),
            ) == needle;
        let before = code.take(i);
        let after = code.skip(i + needle.len());
        assert(code =~= before + needle + after);
    }
    if exists|before: Seq<u8>, after: Seq<u8>| code == #[trigger] (before + needle + after) {
        let (before, after) = choose|before: Seq<u8>, after: Seq<u8>|
            code == #[trigger] (before + needle + after);
        let i = before.len() as int;
        assert(code.subrange(i, i + "__rust_probestack"@.len()) =~= needle);
    }
}

fn internalize_all(symbols: &Vec<Symbol>, exports: &ExportSymbols) -> (r: Vec<SymbolAction>)
    ensures
        r@ == symbol_actions(symbols@, exports@),
{
    let mut actions: Vec<SymbolAction> = Vec::new();
    let mut i: usize = 0;
    while i < symbols.len()
        invariant
            i <= symbols@.len(),
            actions@ =~= symbol_actions(symbols@, exports@).take(i as int),
        decreases symbols@.len() - i,
    {
        actions.push(internalize(&symbols[i], exports));
        i = i + 1;
    }
    assert(actions@ =~= symbol_actions(symbols@, exports@));
    actions
}

/// Plans the optimization of a module: everything that is not exported becomes
/// internal, so that dead code can be removed.
pub fn optimize(
    module: &ModuleSymbols,
    level: OptLevel,
    ignore_inline_never: bool,
    exports: &ExportSymbols,
) -> (r: OptimizePlan)
    ensures
        r.clear_inline_asm == (module.inline_asm is Some && is_probestack(
            module.inline_asm->Some_0@,
        )),
        r.globals@ == symbol_actions(module.globals@, exports@),
        r.aliases@ == symbol_actions(module.aliases@, exports@),
        r.functions@ == module.functions@.map_values(
            |f: Symbol| function_action(f, ignore_inline_never, exports@),
        ),
        r.passes@ == passes_of(level),
{
    let clear_inline_asm: bool = module_asm_is_probestack(module.inline_asm.as_ref());
    let globals = internalize_all(&module.globals, exports);
    let aliases = internalize_all(&module.aliases, exports);
    let mut functions: Vec<FunctionAction> = Vec::new();
    let ghost planned = module.functions@.map_values(
        |f: Symbol| function_action(f, ignore_inline_never, exports@),
    );
    let mut i: usize = 0;
    while i < module.functions.len()
        invariant
            i <= module.functions@.len(),
            planned == module.functions@.map_values(
                |f: Symbol| function_action(f, ignore_inline_never, exports@),
            ),
            functions@ =~= planned.take(i as int),
        decreases module.functions@.len() - i,
    {
        let function = &module.functions[i];
        if has_llvm_prefix(function.name.as_slice()) {
            functions.push(FunctionAction { remove_noinline: false, action: SymbolAction::Keep });
        } else {
            let action = internalize(function, exports);
            functions.push(FunctionAction { remove_noinline: ignore_inline_never, action });
        }
        i = i + 1;
    }
    assert(functions@ =~= planned);
    OptimizePlan { clear_inline_asm, globals, aliases, functions, passes: passes(level) }
}

/// Plans the optimization of a module with the options of a linker, where
/// `names` were asked to be exported.
pub fn plan_optimization(
    options: &LinkerOptions,
    names: &Vec<Vec<u8>>,
    module: &ModuleSymbols,
) -> (r: OptimizePlan)
    ensures
        r.clear_inline_asm == (module.inline_asm is Some && is_probestack(
            module.inline_asm->Some_0@,
        )),
        ({
            let exports = exported(names@, options.disable_memory_builtins);
            &&& r.globals@ == symbol_actions(module.globals@, exports)
            &&& r.aliases@ == symbol_actions(module.aliases@, exports)
            &&& r.functions@ == module.functions@.map_values(
                |f: Symbol| function_action(f, options.ignore_inline_never, exports),
            )
        }),
        r.passes@ == passes_of(options.optimize),
{
    let exports = export_symbols(names, options.disable_memory_builtins);
    optimize(module, options.optimize, options.ignore_inline_never, &exports)
}

/// An exported symbol is never touched, and neither is one of LLVM's own.
pub proof fn exported_symbol_is_kept(name: Seq<u8>, kind: SymbolKind, exports: Set<Seq<u8>>)
    requires
        exports.contains(name) || is_llvm_name(name),
    ensures
        symbol_action(name, kind, exports) == SymbolAction::Keep,
{
}

/// A symbol that is not exported becomes internal exactly when the module
/// defines it; an undefined one is left to the kernel.
pub proof fn hidden_symbol_is_internalized(name: Seq<u8>, kind: SymbolKind, exports: Set<Seq<u8>>)
    requires
        !exports.contains(name),
        !is_llvm_name(name),
    ensures
        symbol_action(name, kind, exports) == SymbolAction::Internalize <==> !is_undefined(kind),
        symbol_action(name, kind, exports) == SymbolAction::MoveToKsyms <==> is_undefined(kind),
{
}

} // verus!
