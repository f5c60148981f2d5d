use vstd::prelude::*;
use crate::lexer::{DefaultGrammar, Lexer};
use crate::ops::OpContext;
use crate::runtime_types::RuntimeTypeContext;
use crate::source::SourceMap;
use crate::symbol::SymbolRegistry;

verus! {

/// Parts of a [`Context`], made first and set up once the whole context is
/// made.
pub trait IsContext: Sized {
    /// The part is set up for use.
    spec fn ready(&self) -> bool;

    /// Called once the context holding this part is made; the parts of
    /// this library need nothing more and are left as they are.
    fn init(&mut self)
        requires
            old(self).ready(),
        ensures
            final(self).ready(),
            *final(self) == *old(self),
    ;
}

impl IsContext for RuntimeTypeContext {
    open spec fn ready(&self) -> bool {
        self.wf()
    }

    fn init(&mut self) {
    }
}

impl IsContext for OpContext {
    open spec fn ready(&self) -> bool {
        self.wf()
    }

    fn init(&mut self) {
    }
}

impl IsContext for SourceMap {
    open spec fn ready(&self) -> bool {
        true
    }

    fn init(&mut self) {
    }
}

/// A part of a context, with the stage of its set-up: `1` once made, `2`
/// once initialized.
pub struct ContextCell<T> {
    state: u8,
    inner: T,
}

impl<T: IsContext> ContextCell<T> {
    pub closed spec fn state(&self) -> u8 {
        self.state
    }

    pub closed spec fn inner(&self) -> T {
        self.inner
    }

    /// A cell holding the made, not yet initialized, part `value`.
    pub fn new(value: T) -> (r: ContextCell<T>)
        ensures
            r.state() == 1,
            r.inner() == value,
    {
        ContextCell { state: 1, inner: value }
    }

    /// Initialize the part, once: a cell already initialized is unchanged.
    pub fn init(&mut self)
        requires
            1 <= old(self).state() <= 2,
            old(self).inner().ready(),
        ensures
            final(self).state() == 2,
            final(self).inner().ready(),
            final(self).inner() == old(self).inner(),
    {
        if self.state == 1 {
            self.inner.init();
            self.state = 2;
        }
    }

    /// The part, initialized first when it is not yet.
    pub fn get(&mut self) -> (r: &T)
        requires
            1 <= old(self).state() <= 2,
            old(self).inner().ready(),
        ensures
            final(self).state() == 2,
            final(self).inner().ready(),
            old(self).state() == 2 ==> final(self).inner() == old(self).inner(),
            *r == final(self).inner(),
    {
        self.init();
        &self.inner
    }

    /// The initialized part.
    pub fn get_ref(&self) -> (r: &T)
        requires
            self.state() == 2,
        ensures
            *r == self.inner(),
    {
        &self.inner
    }

    /// The initialized part, to change it.
    pub fn get_mut(&mut self) -> (r: &mut T)
        requires
            old(self).state() == 2,
        ensures
            *r == old(self).inner(),
            final(self).inner() == *final(r),
            final(self).state() == 2,
    {
        &mut self.inner
    }
}

/// The context of the language: the parts that hold the types, operators,
/// sources, unique symbol counters and the lexer.
pub struct Context {
    types: ContextCell<RuntimeTypeContext>,
    ops: ContextCell<OpContext>,
    sources: ContextCell<SourceMap>,
    symbols: SymbolRegistry,
    lexer: Lexer,
}

/// A shared reference to a [`Context`].
#[derive(Copy, Clone)]
pub struct ContextRef<'a> {
    ctx: &'a Context,
}

impl Context {
    /// Every part is initialized.
    pub closed spec fn set_up(&self) -> bool {
        &&& self.types.state() == 2
        &&& self.ops.state() == 2
        &&& self.sources.state() == 2
        &&& self.lexer.wf()
    }

    /// Every part is initialized and the types are well formed.
    pub open spec fn wf(&self) -> bool {
        &&& self.set_up()
        &&& self.spec_types().wf()
    }

    pub closed spec fn spec_symbols(&self) -> SymbolRegistry {
        self.symbols
    }

    pub closed spec fn spec_types(&self) -> RuntimeTypeContext {
        self.types.inner()
    }

    pub closed spec fn spec_ops(&self) -> OpContext {
        self.ops.inner()
    }

    pub closed spec fn spec_sources(&self) -> SourceMap {
        self.sources.inner()
    }

    pub closed spec fn spec_lexer(&self) -> Lexer {
        self.lexer
    }

    /// A context with the base types, no operators, the sources of the
    /// current directory and a lexer with no symbols.
    pub fn new() -> (r: Context)
        ensures
            r.wf(),
            r.spec_ops().wf(),
            r.spec_ops().spec_len() == 0,
            r.spec_lexer().spec_symbols() == Set::<Seq<u8>>::empty(),
    {
        let mut types = ContextCell::new(RuntimeTypeContext::new());
        let mut ops = ContextCell::new(OpContext::new());
        let mut sources = ContextCell::new(SourceMap::new(&[46u8]));
        types.init();
        ops.init();
        sources.init();
        Context { types, ops, sources, symbols: SymbolRegistry::new(), lexer: Lexer::new(DefaultGrammar) }
    }

    /// A shared reference to this context.
    pub fn get(&self) -> (r: ContextRef<'_>)
        ensures
            r.spec_context() == *self,
    {
        ContextRef { ctx: self }
    }

    pub fn types(&self) -> (r: &RuntimeTypeContext)
        requires
            self.wf(),
        ensures
            *r == self.spec_types(),
    {
        self.types.get_ref()
    }

    pub fn types_mut(&mut self) -> (r: &mut RuntimeTypeContext)
        requires
            old(self).wf(),
        ensures
            *r == old(self).spec_types(),
            final(self).spec_types() == *final(r),
            final(self).spec_ops() == old(self).spec_ops(),
            final(self).spec_sources() == old(self).spec_sources(),
            final(self).spec_lexer() == old(self).spec_lexer(),
            final(self).set_up(),
    {
        self.types.get_mut()
    }

    pub fn ops(&self) -> (r: &OpContext)
        requires
            self.wf(),
        ensures
            *r == self.spec_ops(),
    {
        self.ops.get_ref()
    }

    pub fn ops_mut(&mut self) -> (r: &mut OpContext)
        requires
            old(self).wf(),
        ensures
            *r == old(self).spec_ops(),
            final(self).spec_ops() == *final(r),
            final(self).spec_types() == old(self).spec_types(),
            final(self).spec_sources() == old(self).spec_sources(),
            final(self).spec_lexer() == old(self).spec_lexer(),
            final(self).wf(),
    {
        self.ops.get_mut()
    }

    pub fn sources(&self) -> (r: &SourceMap)
        requires
            self.wf(),
        ensures
            *r == self.spec_sources(),
    {
        self.sources.get_ref()
    }

    pub fn sources_mut(&mut self) -> (r: &mut SourceMap)
        requires
            old(self).wf(),
        ensures
            *r == old(self).spec_sources(),
            final(self).spec_sources() == *final(r),
            final(self).spec_types() == old(self).spec_types(),
            final(self).spec_ops() == old(self).spec_ops(),
            final(self).spec_lexer() == old(self).spec_lexer(),
            final(self).wf(),
    {
        self.sources.get_mut()
    }

    /// The counters of unique symbols.
    pub fn symbols_mut(&mut self) -> (r: &mut SymbolRegistry)
        ensures
            *r == old(self).spec_symbols(),
            final(self).spec_symbols() == *final(r),
            final(self).spec_types() == old(self).spec_types(),
            final(self).spec_ops() == old(self).spec_ops(),
            final(self).spec_sources() == old(self).spec_sources(),
            final(self).spec_lexer() == old(self).spec_lexer(),
            old(self).set_up() ==> final(self).set_up(),
    {
        &mut self.symbols
    }

    pub fn lexer(&self) -> (r: &Lexer)
        ensures
            *r == self.spec_lexer(),
    {
        &self.lexer
    }

    pub fn lexer_mut(&mut self) -> (r: &mut Lexer)
        ensures
            *r == old(self).spec_lexer(),
            final(self).spec_lexer() == *final(r),
            final(self).spec_types() == old(self).spec_types(),
            final(self).spec_ops() == old(self).spec_ops(),
            final(self).spec_sources() == old(self).spec_sources(),
            final(self).spec_symbols() == old(self).spec_symbols(),
            old(self).wf() && final(r).wf() ==> final(self).wf(),
    {
        &mut self.lexer
    }

    /// Replace the lexer.
    pub fn set_lexer(&mut self, lexer: Lexer)
        requires
            old(self).wf(),
            lexer.wf(),
        ensures
            final(self).wf(),
            final(self).spec_lexer() == lexer,
            final(self).spec_types() == old(self).spec_types(),
            final(self).spec_ops() == old(self).spec_ops(),
            final(self).spec_sources() == old(self).spec_sources(),
    {
        self.lexer = lexer;
    }
}

impl<'a> ContextRef<'a> {
    pub closed spec fn spec_context(&self) -> Context {
        *self.ctx
    }

    /// The types of the context.
    pub fn types(&self) -> (r: &'a RuntimeTypeContext)
        requires
            self.spec_context().wf(),
        ensures
            *r == self.spec_context().spec_types(),
    {
        self.ctx.types()
    }
}

} // verus!
