//! The definition table builder and the reachability traversal engine.
//!
//! A [`FunctionCallVisitor`] first registers the definitions of a parsed
//! source unit under their qualified names, tracking lexical nesting, and then
//! walks call sites from configured entry names, emitting one directed edge
//! per call expression whose target resolves to a known definition.  A call
//! stack guards against re-expanding a definition already being expanded, so
//! traversal terminates on any cyclic call structure.

use vstd::prelude::*;
use crate::ast::{CallSite, CallSiteV, FnDef, FnDefV, ParsedFile, ParsedFileV, ParsedFn,
    ParsedFnV, ParsedImpl, ParsedImplV, ParsedModV, clone_fn_def, clone_sites,
    clone_vec_string};
use crate::text::{eq_str, clone_string, find_sep, has_sep, join_segments, join_two, sep_chars,
    spec_join, spec_rsplit, rsplit_sep};

verus! {

/// An edge of the call graph: caller and callee, by qualified name.
pub type EdgeV = (Seq<char>, Seq<char>);

/// The resolver: a raw identifier that already holds a separator is used
/// verbatim; otherwise it is qualified by the lexical context, or used
/// unchanged when the context is empty.
pub open spec fn spec_resolve(name: Seq<char>, ctx: Seq<Seq<char>>) -> Seq<char> {
    if has_sep(name) || ctx.len() == 0 {
        name
    } else {
        spec_join(ctx) + sep_chars() + name
    }
}

/// The qualified name of a method of type `ty`.
pub open spec fn qn_method(ty: Seq<char>, m: Seq<char>) -> Seq<char> {
    ty + sep_chars() + m
}

/// The qualified name a method is registered under: the lexical context,
/// then the owning type, then the method name.
pub open spec fn qual_method(ctx: Seq<Seq<char>>, ty: Seq<char>, m: Seq<char>) -> Seq<char> {
    if ctx.len() == 0 {
        qn_method(ty, m)
    } else {
        spec_join(ctx) + sep_chars() + ty + sep_chars() + m
    }
}

/// First-match lookup in an association list keyed by qualified name.
pub open spec fn assoc_get<V>(pairs: Seq<(Seq<char>, V)>, k: Seq<char>) -> Option<V>
    decreases pairs.len(),
{
    if pairs.len() == 0 {
        None
    } else if pairs[0].0 == k {
        Some(pairs[0].1)
    } else {
        assoc_get(pairs.drop_first(), k)
    }
}

/// Insertion in an association list: replaces the first entry with the same
/// key in place, or appends a new entry at the end.
pub open spec fn assoc_put<V>(pairs: Seq<(Seq<char>, V)>, k: Seq<char>, v: V) -> Seq<
    (Seq<char>, V),
>
    decreases pairs.len(),
{
    if pairs.len() == 0 {
        seq![(k, v)]
    } else if pairs[0].0 == k {
        seq![(k, v)] + pairs.drop_first()
    } else {
        seq![pairs[0]] + assoc_put(pairs.drop_first(), k, v)
    }
}

pub proof fn lemma_assoc_put_at<V>(pairs: Seq<(Seq<char>, V)>, k: Seq<char>, v: V, i: int)
    requires
        0 <= i < pairs.len(),
        pairs[i].0 == k,
        forall|j: int| 0 <= j < i ==> (#[trigger] pairs[j]).0 != k,
    ensures
        assoc_put(pairs, k, v) == pairs.update(i, (k, v)),
    decreases i,
{
    if i == 0 {
        assert(assoc_put(pairs, k, v) =~= pairs.update(0, (k, v)));
    } else {
        let t = pairs.drop_first();
        assert forall|j: int| 0 <= j < i - 1 implies (#[trigger] t[j]).0 != k by {
            assert(t[j] == pairs[j + 1]);
        }
        assert(t[i - 1].0 == k);
        lemma_assoc_put_at(t, k, v, i - 1);
        assert(seq![pairs[0]] + t.update(i - 1, (k, v)) =~= pairs.update(i, (k, v)));
    }
}

pub proof fn lemma_assoc_put_none<V>(pairs: Seq<(Seq<char>, V)>, k: Seq<char>, v: V)
    requires
        forall|j: int| 0 <= j < pairs.len() ==> (#[trigger] pairs[j]).0 != k,
    ensures
        assoc_put(pairs, k, v) == pairs.push((k, v)),
    decreases pairs.len(),
{
    if pairs.len() == 0 {
        assert(assoc_put(pairs, k, v) =~= pairs.push((k, v)));
    } else {
        let t = pairs.drop_first();
        assert forall|j: int| 0 <= j < t.len() implies (#[trigger] t[j]).0 != k by {
            assert(t[j] == pairs[j + 1]);
        }
        lemma_assoc_put_none(t, k, v);
        assert(seq![pairs[0]] + t.push((k, v)) =~= pairs.push((k, v)));
    }
}

proof fn lemma_assoc_get_at<V>(pairs: Seq<(Seq<char>, V)>, k: Seq<char>, i: int)
    requires
        0 <= i < pairs.len(),
        pairs[i].0 == k,
        forall|j: int| 0 <= j < i ==> (#[trigger] pairs[j]).0 != k,
    ensures
        assoc_get(pairs, k) == Some(pairs[i].1),
    decreases i,
{
    if i > 0 {
        let t = pairs.drop_first();
        assert forall|j: int| 0 <= j < i - 1 implies (#[trigger] t[j]).0 != k by {
            assert(t[j] == pairs[j + 1]);
        }
        assert(t[i - 1] == pairs[i]);
        lemma_assoc_get_at(t, k, i - 1);
    }
}

proof fn lemma_assoc_get_none<V>(pairs: Seq<(Seq<char>, V)>, k: Seq<char>)
    requires
        forall|j: int| 0 <= j < pairs.len() ==> (#[trigger] pairs[j]).0 != k,
    ensures
        assoc_get(pairs, k) is None,
    decreases pairs.len(),
{
    if pairs.len() > 0 {
        let t = pairs.drop_first();
        assert forall|j: int| 0 <= j < t.len() implies (#[trigger] t[j]).0 != k by {
            assert(t[j] == pairs[j + 1]);
        }
        lemma_assoc_get_none(t, k);
    }
}

/// The visitor that builds one unit's definition table and then records the
/// call edges discovered from its entry points.
pub struct FunctionCallVisitor {
    /// The qualified name of the definition currently being expanded.
    pub current_function: String,
    /// The lexical context: the stack of scope names around the point of the
    /// scan.
    pub current_module: Vec<String>,
    /// The discovered call edges, in discovery order.
    pub function_calls: Vec<(String, String)>,
    /// Free functions, keyed by qualified name.
    pub functions: Vec<(String, FnDef)>,
    /// Methods, keyed by their fully qualified `scope::Type::method` name.
    pub struct_methods: Vec<(String, FnDef)>,
    /// Methods grouped by their owning type's simple name.
    pub impl_blocks: Vec<(String, Vec<FnDef>)>,
    /// Canonical paths of files already registered.
    pub visited_files: Vec<String>,
    /// The recursion guard: qualified names currently being expanded.
    pub current_call_stack: Vec<String>,
}

/// The mathematical value of a [`FunctionCallVisitor`].
pub struct VisitorV {
    pub current_function: Seq<char>,
    pub current_module: Seq<Seq<char>>,
    pub function_calls: Seq<EdgeV>,
    pub functions: Seq<(Seq<char>, FnDefV)>,
    pub struct_methods: Seq<(Seq<char>, FnDefV)>,
    pub impl_blocks: Seq<(Seq<char>, Seq<FnDefV>)>,
    pub visited_files: Seq<Seq<char>>,
    pub current_call_stack: Seq<Seq<char>>,
}

impl View for FunctionCallVisitor {
    type V = VisitorV;

    open spec fn view(&self) -> VisitorV {
        VisitorV {
            current_function: self.current_function@,
            current_module: self.current_module.deep_view(),
            function_calls: self.function_calls.deep_view(),
            functions: self.functions.deep_view(),
            struct_methods: self.struct_methods.deep_view(),
            impl_blocks: self.impl_blocks.deep_view(),
            visited_files: self.visited_files.deep_view(),
            current_call_stack: self.current_call_stack.deep_view(),
        }
    }
}

/// The read-only definition table of a unit, as the traversal sees it.
pub struct TableV {
    pub functions: Seq<(Seq<char>, FnDefV)>,
    pub struct_methods: Seq<(Seq<char>, FnDefV)>,
    pub impl_blocks: Seq<(Seq<char>, Seq<FnDefV>)>,
}

impl VisitorV {
    /// The definition table part of the visitor's state.
    pub open spec fn table(self) -> TableV {
        TableV {
            functions: self.functions,
            struct_methods: self.struct_methods,
            impl_blocks: self.impl_blocks,
        }
    }
}

/// Tests whether a name is on the recursion guard stack.
fn stack_has(v: &Vec<String>, x: &str) -> (r: bool)
    ensures
        r == v.deep_view().contains(x@),
{
    let mut i: usize = 0;
    while i < v.len()
        invariant
            i <= v@.len(),
            v.deep_view().len() == v@.len(),
            forall|j: int| 0 <= j < i ==> v.deep_view()[j] != x@,
        decreases v@.len() - i,
    {
        proof {
            assert(v.deep_view()[i as int] == v@[i as int]@);
        }
        if eq_str(v[i].as_str(), x) {
            return true;
        }
        i = i + 1;
    }
    proof {
        assert(!v.deep_view().contains(x@));
    }
    false
}

/// First-match search of the free-function table.
fn find_fn(pairs: &Vec<(String, FnDef)>, k: &str) -> (r: Option<usize>)
    ensures
        match r {
            Some(i) => i < pairs@.len() && pairs.deep_view()[i as int].0 == k@ && assoc_get(
                pairs.deep_view(),
                k@,
            ) == Some(pairs.deep_view()[i as int].1) && forall|j: int|
                0 <= j < i ==> (#[trigger] pairs.deep_view()[j]).0 != k@,
            None => assoc_get(pairs.deep_view(), k@) is None && forall|j: int|
                0 <= j < pairs@.len() ==> (#[trigger] pairs.deep_view()[j]).0 != k@,
        },
{
    let mut i: usize = 0;
    while i < pairs.len()
        invariant
            i <= pairs@.len(),
            pairs.deep_view().len() == pairs@.len(),
            forall|j: int| 0 <= j < i ==> (#[trigger] pairs.deep_view()[j]).0 != k@,
        decreases pairs@.len() - i,
    {
        proof {
            let ii = i as int;
            assert(pairs.deep_view()[ii] == (pairs@[ii].0@, pairs@[ii].1.deep_view()));
        }
        if eq_str(pairs[i].0.as_str(), k) {
            proof {
                lemma_assoc_get_at(pairs.deep_view(), k@, i as int);
            }
            return Some(i);
        }
        i = i + 1;
    }
    proof {
        lemma_assoc_get_none(pairs.deep_view(), k@);
    }
    None
}

/// First-match search of the type-to-methods table.
fn find_impl(pairs: &Vec<(String, Vec<FnDef>)>, k: &str) -> (r: Option<usize>)
    ensures
        match r {
            Some(i) => i < pairs@.len() && pairs.deep_view()[i as int].0 == k@ && assoc_get(
                pairs.deep_view(),
                k@,
            ) == Some(pairs.deep_view()[i as int].1) && forall|j: int|
                0 <= j < i ==> (#[trigger] pairs.deep_view()[j]).0 != k@,
            None => assoc_get(pairs.deep_view(), k@) is None && forall|j: int|
                0 <= j < pairs@.len() ==> (#[trigger] pairs.deep_view()[j]).0 != k@,
        },
{
    let mut i: usize = 0;
    while i < pairs.len()
        invariant
            i <= pairs@.len(),
            pairs.deep_view().len() == pairs@.len(),
            forall|j: int| 0 <= j < i ==> (#[trigger] pairs.deep_view()[j]).0 != k@,
        decreases pairs@.len() - i,
    {
        proof {
            let ii = i as int;
            assert(pairs.deep_view()[ii] == (pairs@[ii].0@, pairs@[ii].1.deep_view()));
        }
        if eq_str(pairs[i].0.as_str(), k) {
            proof {
                lemma_assoc_get_at(pairs.deep_view(), k@, i as int);
            }
            return Some(i);
        }
        i = i + 1;
    }
    proof {
        lemma_assoc_get_none(pairs.deep_view(), k@);
    }
    None
}

/// Replaces the first entry keyed `k`, or appends one.
fn put_fn(pairs: &mut Vec<(String, FnDef)>, k: String, v: FnDef)
    ensures
        final(pairs).deep_view() == assoc_put(old(pairs).deep_view(), k@, v@),
{
    let found = find_fn(pairs, k.as_str());
    let ghost pre = pairs.deep_view();
    match found {
        Some(i) => {
            proof {
                lemma_assoc_put_at(pre, k@, v@, i as int);
            }
            vstd::std_specs::core::index_set(pairs, i, (k, v));
            proof {
                assert(pairs.deep_view() =~= pre.update(i as int, (k@, v@)));
            }
        },
        None => {
            proof {
                lemma_assoc_put_none(pre, k@, v@);
            }
            pairs.push((k, v));
            proof {
                assert(pairs.deep_view() =~= pre.push((k@, v@)));
            }
        },
    }
}

/// Replaces the first type entry keyed `k`, or appends one.
fn put_impl(pairs: &mut Vec<(String, Vec<FnDef>)>, k: String, v: Vec<FnDef>)
    ensures
        final(pairs).deep_view() == assoc_put(old(pairs).deep_view(), k@, v.deep_view()),
{
    let found = find_impl(pairs, k.as_str());
    let ghost pre = pairs.deep_view();
    let ghost vv = v.deep_view();
    match found {
        Some(i) => {
            proof {
                lemma_assoc_put_at(pre, k@, vv, i as int);
            }
            vstd::std_specs::core::index_set(pairs, i, (k, v));
            proof {
                assert(pairs.deep_view() =~= pre.update(i as int, (k@, vv)));
            }
        },
        None => {
            proof {
                lemma_assoc_put_none(pre, k@, vv);
            }
            pairs.push((k, v));
            proof {
                assert(pairs.deep_view() =~= pre.push((k@, vv)));
            }
        },
    }
}

/// Resolves a raw identifier against a lexical context (the resolver of the
/// engine, used both while registering and while traversing).
pub fn resolve_name(ctx: &Vec<String>, name: &str) -> (r: String)
    ensures
        r@ == spec_resolve(name@, ctx.deep_view()),
{
    if find_sep(name) || ctx.len() == 0 {
        String::from_str(name)
    } else {
        let joined = join_segments(ctx);
        let r = join_two(joined.as_str(), name);
        r
    }
}

/// The definition a parsed function is registered as, under context `ctx`.
pub open spec fn mk_def(ctx: Seq<Seq<char>>, f: ParsedFnV) -> FnDefV {
    FnDefV { name: f.name, context: ctx, calls: f.calls }
}

/// The definitions of an implementation block's methods, under context `ctx`.
pub open spec fn mk_defs(ctx: Seq<Seq<char>>, ms: Seq<ParsedFnV>) -> Seq<FnDefV> {
    ms.map_values(|m: ParsedFnV| mk_def(ctx, m))
}

/// Registers free functions in declaration order.
pub open spec fn reg_fns(
    fns: Seq<(Seq<char>, FnDefV)>,
    ctx: Seq<Seq<char>>,
    list: Seq<ParsedFnV>,
) -> Seq<(Seq<char>, FnDefV)>
    decreases list.len(),
{
    if list.len() == 0 {
        fns
    } else {
        assoc_put(
            reg_fns(fns, ctx, list.drop_last()),
            spec_resolve(list.last().name, ctx),
            mk_def(ctx, list.last()),
        )
    }
}

/// Registers the methods of one type under their qualified names.
pub open spec fn reg_methods(
    sm: Seq<(Seq<char>, FnDefV)>,
    ctx: Seq<Seq<char>>,
    ty: Seq<char>,
    ms: Seq<ParsedFnV>,
) -> Seq<(Seq<char>, FnDefV)>
    decreases ms.len(),
{
    if ms.len() == 0 {
        sm
    } else {
        assoc_put(
            reg_methods(sm, ctx, ty, ms.drop_last()),
            qual_method(ctx, ty, ms.last().name),
            mk_def(ctx, ms.last()),
        )
    }
}

/// Registers one implementation block: its methods by qualified name, and the
/// type-to-methods entry used for instance-call resolution.
pub open spec fn reg_impl(
    sm: Seq<(Seq<char>, FnDefV)>,
    ib: Seq<(Seq<char>, Seq<FnDefV>)>,
    ctx: Seq<Seq<char>>,
    imp: ParsedImplV,
) -> (Seq<(Seq<char>, FnDefV)>, Seq<(Seq<char>, Seq<FnDefV>)>) {
    (
        reg_methods(sm, ctx, imp.owner, imp.methods),
        assoc_put(ib, imp.owner, mk_defs(ctx, imp.methods)),
    )
}

/// Registers implementation blocks in declaration order.
pub open spec fn reg_impls(
    sm: Seq<(Seq<char>, FnDefV)>,
    ib: Seq<(Seq<char>, Seq<FnDefV>)>,
    ctx: Seq<Seq<char>>,
    impls: Seq<ParsedImplV>,
) -> (Seq<(Seq<char>, FnDefV)>, Seq<(Seq<char>, Seq<FnDefV>)>)
    decreases impls.len(),
{
    if impls.len() == 0 {
        (sm, ib)
    } else {
        let p = reg_impls(sm, ib, ctx, impls.drop_last());
        reg_impl(p.0, p.1, ctx, impls.last())
    }
}

/// Registers one nested scope: its name is pushed onto the context for its
/// own functions and implementation blocks.
pub open spec fn reg_mod(
    fns: Seq<(Seq<char>, FnDefV)>,
    sm: Seq<(Seq<char>, FnDefV)>,
    ib: Seq<(Seq<char>, Seq<FnDefV>)>,
    ctx: Seq<Seq<char>>,
    m: ParsedModV,
) -> (Seq<(Seq<char>, FnDefV)>, Seq<(Seq<char>, FnDefV)>, Seq<(Seq<char>, Seq<FnDefV>)>) {
    let ctx2 = ctx.push(m.name);
    let f2 = reg_fns(fns, ctx2, m.fns);
    let p = reg_impls(sm, ib, ctx2, m.impls);
    (f2, p.0, p.1)
}

/// Registers nested scopes in declaration order.
pub open spec fn reg_mods(
    fns: Seq<(Seq<char>, FnDefV)>,
    sm: Seq<(Seq<char>, FnDefV)>,
    ib: Seq<(Seq<char>, Seq<FnDefV>)>,
    ctx: Seq<Seq<char>>,
    mods: Seq<ParsedModV>,
) -> (Seq<(Seq<char>, FnDefV)>, Seq<(Seq<char>, FnDefV)>, Seq<(Seq<char>, Seq<FnDefV>)>)
    decreases mods.len(),
{
    if mods.len() == 0 {
        (fns, sm, ib)
    } else {
        let p = reg_mods(fns, sm, ib, ctx, mods.drop_last());
        reg_mod(p.0, p.1, p.2, ctx, mods.last())
    }
}

/// What registering a whole parsed file does to the three tables.
pub open spec fn reg_file(
    fns: Seq<(Seq<char>, FnDefV)>,
    sm: Seq<(Seq<char>, FnDefV)>,
    ib: Seq<(Seq<char>, Seq<FnDefV>)>,
    ctx: Seq<Seq<char>>,
    file: ParsedFileV,
) -> (Seq<(Seq<char>, FnDefV)>, Seq<(Seq<char>, FnDefV)>, Seq<(Seq<char>, Seq<FnDefV>)>) {
    let f1 = reg_fns(fns, ctx, file.fns);
    let p = reg_impls(sm, ib, ctx, file.impls);
    reg_mods(f1, p.0, p.1, ctx, file.mods)
}

/// What registering a file at path `path` does to the whole visitor: nothing
/// when the path was already visited; otherwise the tables grow by the file's
/// definitions, under the file's scope name unless it is a root file.
pub open spec fn spec_process_module(
    v: VisitorV,
    path: Seq<char>,
    module_name: Seq<char>,
    file: ParsedFileV,
) -> VisitorV {
    if v.visited_files.contains(path) {
        v
    } else {
        let ctx = if module_name != "main"@ && module_name != "lib"@ {
            v.current_module.push(module_name)
        } else {
            v.current_module
        };
        let p = reg_file(v.functions, v.struct_methods, v.impl_blocks, ctx, file);
        VisitorV {
            functions: p.0,
            struct_methods: p.1,
            impl_blocks: p.2,
            visited_files: v.visited_files.push(path),
            ..v
        }
    }
}

/// The qualified registration name of a method, built from the context, the
/// owning type and the method name.
fn qual_method_name(ctx: &Vec<String>, ty: &str, m: &str) -> (r: String)
    ensures
        r@ == qual_method(ctx.deep_view(), ty@, m@),
{
    if ctx.len() == 0 {
        join_two(ty, m)
    } else {
        let joined = join_segments(ctx);
        let a = join_two(joined.as_str(), ty);
        let r = join_two(a.as_str(), m);
        proof {
            assert(r@ =~= spec_join(ctx.deep_view()) + sep_chars() + ty@ + sep_chars() + m@);
        }
        r
    }
}

impl FunctionCallVisitor {
    /// A visitor with empty tables and no recorded state.
    pub fn new() -> (r: FunctionCallVisitor)
        ensures
            r@ == empty_visitor(),
    {
        let r = FunctionCallVisitor {
            current_function: String::new(),
            current_module: Vec::new(),
            function_calls: Vec::new(),
            functions: Vec::new(),
            struct_methods: Vec::new(),
            impl_blocks: Vec::new(),
            visited_files: Vec::new(),
            current_call_stack: Vec::new(),
        };
        proof {
            assert(r@.current_module =~= empty_visitor().current_module);
            assert(r@.function_calls =~= empty_visitor().function_calls);
            assert(r@.functions =~= empty_visitor().functions);
            assert(r@.struct_methods =~= empty_visitor().struct_methods);
            assert(r@.impl_blocks =~= empty_visitor().impl_blocks);
            assert(r@.visited_files =~= empty_visitor().visited_files);
            assert(r@.current_call_stack =~= empty_visitor().current_call_stack);
        }
        r
    }

    /// The resolver applied to the visitor's own lexical context.
    fn get_qualified_name(&self, name: &str) -> (r: String)
        ensures
            r@ == spec_resolve(name@, self@.current_module),
    {
        resolve_name(&self.current_module, name)
    }

    /// Registers a list of free functions under the current context.
    fn register_fns(&mut self, fns: &Vec<ParsedFn>)
        ensures
            final(self)@ == (VisitorV {
                functions: reg_fns(
                    old(self)@.functions,
                    old(self)@.current_module,
                    fns.deep_view(),
                ),
                ..old(self)@
            }),
    {
        let ghost ctx = self@.current_module;
        let ghost f0 = self@.functions;
        let ghost fdv = fns.deep_view();
        let mut i: usize = 0;
        proof {
            assert(fdv.subrange(0, 0) =~= Seq::<ParsedFnV>::empty());
        }
        while i < fns.len()
            invariant
                i <= fns@.len(),
                fdv == fns.deep_view(),
                fdv.len() == fns@.len(),
                self@.current_module == ctx,
                self@.functions == reg_fns(f0, ctx, fdv.subrange(0, i as int)),
                self@ == (VisitorV { functions: self@.functions, ..old(self)@ }),
            decreases fns@.len() - i,
        {
            let f = &fns[i];
            proof {
                assert(fdv[i as int] == fns@[i as int]@);
            }
            let qualified = resolve_name(&self.current_module, f.name.as_str());
            let def = FnDef {
                name: clone_string(&f.name),
                context: clone_vec_string(&self.current_module),
                calls: clone_sites(&f.calls),
            };
            proof {
                assert(def@ == mk_def(ctx, fdv[i as int]));
            }
            put_fn(&mut self.functions, qualified, def);
            proof {
                assert(fdv.subrange(0, i + 1).drop_last() =~= fdv.subrange(0, i as int));
                assert(fdv.subrange(0, i + 1).last() == fdv[i as int]);
            }
            i = i + 1;
        }
        proof {
            assert(fdv.subrange(0, fns@.len() as int) =~= fdv);
        }
    }

    /// Registers one implementation block: each method under its qualified
    /// name, and the block's method list under the owning type's name.
    fn process_impl_block(&mut self, imp: &ParsedImpl)
        ensures
            final(self)@ == (VisitorV {
                struct_methods: reg_impl(
                    old(self)@.struct_methods,
                    old(self)@.impl_blocks,
                    old(self)@.current_module,
                    imp@,
                ).0,
                impl_blocks: reg_impl(
                    old(self)@.struct_methods,
                    old(self)@.impl_blocks,
                    old(self)@.current_module,
                    imp@,
                ).1,
                ..old(self)@
            }),
    {
        let ghost ctx = self@.current_module;
        let ghost s0 = self@.struct_methods;
        let ghost mdv = imp.methods.deep_view();
        let mut methods: Vec<FnDef> = Vec::new();
        let mut i: usize = 0;
        proof {
            assert(mdv.subrange(0, 0) =~= Seq::<ParsedFnV>::empty());
            assert(methods.deep_view() =~= mk_defs(ctx, mdv.subrange(0, 0)));
        }
        while i < imp.methods.len()
            invariant
                i <= imp.methods@.len(),
                mdv == imp.methods.deep_view(),
                mdv.len() == imp.methods@.len(),
                self@.current_module == ctx,
                self@.struct_methods == reg_methods(s0, ctx, imp@.owner, mdv.subrange(0, i as int)),
                methods.deep_view() == mk_defs(ctx, mdv.subrange(0, i as int)),
                self@ == (VisitorV { struct_methods: self@.struct_methods, ..old(self)@ }),
            decreases imp.methods@.len() - i,
        {
            let m = &imp.methods[i];
            proof {
                assert(mdv[i as int] == imp.methods@[i as int]@);
            }
            let qualified = qual_method_name(&self.current_module, imp.owner.as_str(), m.name.as_str());
            let def = FnDef {
                name: clone_string(&m.name),
                context: clone_vec_string(&self.current_module),
                calls: clone_sites(&m.calls),
            };
            proof {
                assert(def@ == mk_def(ctx, mdv[i as int]));
            }
            put_fn(&mut self.struct_methods, qualified, def);
            let ghost pre = methods.deep_view();
            methods.push(FnDef {
                name: clone_string(&m.name),
                context: clone_vec_string(&self.current_module),
                calls: clone_sites(&m.calls),
            });
            proof {
                assert(mdv.subrange(0, i + 1).drop_last() =~= mdv.subrange(0, i as int));
                assert(mdv.subrange(0, i + 1).last() == mdv[i as int]);
                assert(methods.deep_view() =~= pre.push(mk_def(ctx, mdv[i as int])));
                assert(pre.push(mk_def(ctx, mdv[i as int])) =~= mk_defs(
                    ctx,
                    mdv.subrange(0, i + 1),
                ));
            }
            i = i + 1;
        }
        proof {
            assert(mdv.subrange(0, imp.methods@.len() as int) =~= mdv);
        }
        put_impl(&mut self.impl_blocks, clone_string(&imp.owner), methods);
    }

    /// Registers a list of implementation blocks in order.
    fn register_impls(&mut self, impls: &Vec<ParsedImpl>)
        ensures
            final(self)@ == (VisitorV {
                struct_methods: reg_impls(
                    old(self)@.struct_methods,
                    old(self)@.impl_blocks,
                    old(self)@.current_module,
                    impls.deep_view(),
                ).0,
                impl_blocks: reg_impls(
                    old(self)@.struct_methods,
                    old(self)@.impl_blocks,
                    old(self)@.current_module,
                    impls.deep_view(),
                ).1,
                ..old(self)@
            }),
    {
        let ghost ctx = self@.current_module;
        let ghost s0 = self@.struct_methods;
        let ghost b0 = self@.impl_blocks;
        let ghost idv = impls.deep_view();
        let mut i: usize = 0;
        proof {
            assert(idv.subrange(0, 0) =~= Seq::<ParsedImplV>::empty());
        }
        while i < impls.len()
            invariant
                i <= impls@.len(),
                idv == impls.deep_view(),
                idv.len() == impls@.len(),
                self@.current_module == ctx,
                self@.struct_methods == reg_impls(s0, b0, ctx, idv.subrange(0, i as int)).0,
                self@.impl_blocks == reg_impls(s0, b0, ctx, idv.subrange(0, i as int)).1,
                self@ == (VisitorV {
                    struct_methods: self@.struct_methods,
                    impl_blocks: self@.impl_blocks,
                    ..old(self)@
                }),
            decreases impls@.len() - i,
        {
            proof {
                assert(idv[i as int] == impls@[i as int]@);
            }
            self.process_impl_block(&impls[i]);
            proof {
                assert(idv.subrange(0, i + 1).drop_last() =~= idv.subrange(0, i as int));
                assert(idv.subrange(0, i + 1).last() == idv[i as int]);
            }
            i = i + 1;
        }
        proof {
            assert(idv.subrange(0, impls@.len() as int) =~= idv);
        }
    }

    /// Registers a parsed file under `path`.  A path already in the visited
    /// set is skipped entirely, so registering the same resolved file twice
    /// registers its definitions exactly once.  Unless the file is a unit
    /// root (`main` or `lib`), its scope name is pushed onto the lexical
    /// context while its items are registered, and popped afterwards.
    pub fn process_module(&mut self, path: &str, module_name: &str, file: &ParsedFile)
        ensures
            final(self)@ == spec_process_module(old(self)@, path@, module_name@, file@),
    {
        if stack_has(&self.visited_files, path) {
            return;
        }
        let ghost v0 = self@;
        let ghost fdv = file@;
        let ghost mods_dv = file.mods.deep_view();
        self.visited_files.push(String::from_str(path));
        proof {
            assert(self@.visited_files =~= v0.visited_files.push(path@));
        }
        let pushed = !(eq_str(module_name, "main") || eq_str(module_name, "lib"));
        if pushed {
            self.current_module.push(String::from_str(module_name));
            proof {
                assert(self@.current_module =~= v0.current_module.push(module_name@));
            }
        }
        let ghost ctx = self@.current_module;
        self.register_fns(&file.fns);
        self.register_impls(&file.impls);
        let ghost after_tops = reg_impls(v0.struct_methods, v0.impl_blocks, ctx, fdv.impls);
        let ghost f1 = reg_fns(v0.functions, ctx, fdv.fns);
        let mut i: usize = 0;
        proof {
            assert(mods_dv.subrange(0, 0) =~= Seq::<ParsedModV>::empty());
        }
        while i < file.mods.len()
            invariant
                i <= file.mods@.len(),
                mods_dv == file.mods.deep_view(),
                mods_dv.len() == file.mods@.len(),
                self@.current_module == ctx,
                self@.functions == reg_mods(f1, after_tops.0, after_tops.1, ctx, mods_dv.subrange(0, i as int)).0,
                self@.struct_methods == reg_mods(f1, after_tops.0, after_tops.1, ctx, mods_dv.subrange(0, i as int)).1,
                self@.impl_blocks == reg_mods(f1, after_tops.0, after_tops.1, ctx, mods_dv.subrange(0, i as int)).2,
                self@ == (VisitorV {
                    functions: self@.functions,
                    struct_methods: self@.struct_methods,
                    impl_blocks: self@.impl_blocks,
                    visited_files: v0.visited_files.push(path@),
                    current_module: ctx,
                    ..v0
                }),
            decreases file.mods@.len() - i,
        {
            let md = &file.mods[i];
            proof {
                assert(mods_dv[i as int] == file.mods@[i as int]@);
            }
            self.current_module.push(clone_string(&md.name));
            proof {
                assert(self@.current_module =~= ctx.push(mods_dv[i as int].name));
            }
            self.register_fns(&md.fns);
            self.register_impls(&md.impls);
            self.current_module.pop();
            proof {
                assert(ctx.push(mods_dv[i as int].name).drop_last() =~= ctx);
                assert(self@.current_module =~= ctx);
                assert(mods_dv.subrange(0, i + 1).drop_last() =~= mods_dv.subrange(0, i as int));
                assert(mods_dv.subrange(0, i + 1).last() == mods_dv[i as int]);
            }
            i = i + 1;
        }
        proof {
            assert(mods_dv.subrange(0, file.mods@.len() as int) =~= mods_dv);
        }
        if pushed {
            self.current_module.pop();
            proof {
                assert(v0.current_module.push(module_name@).drop_last() =~= v0.current_module);
            }
        }
        proof {
            let res = spec_process_module(v0, path@, module_name@, file@);
            let sctx = if module_name@ != "main"@ && module_name@ != "lib"@ {
                v0.current_module.push(module_name@)
            } else {
                v0.current_module
            };
            assert(ctx == sctx);
            let p0 = reg_impls(v0.struct_methods, v0.impl_blocks, sctx, fdv.impls);
            let pr = reg_mods(reg_fns(v0.functions, sctx, fdv.fns), p0.0, p0.1, sctx, fdv.mods);
            assert(self@.functions == pr.0);
            assert(self@.struct_methods == pr.1);
            assert(self@.impl_blocks == pr.2);
            assert(self@.current_module == v0.current_module);
            assert(self@ == res);
        }
    }
}

/// The first method named `mn` in a type's method list.
pub open spec fn find_method(ms: Seq<FnDefV>, mn: Seq<char>) -> Option<FnDefV>
    decreases ms.len(),
{
    if ms.len() == 0 {
        None
    } else if ms[0].name == mn {
        Some(ms[0])
    } else {
        find_method(ms.drop_first(), mn)
    }
}

/// The first type in the type-to-methods table that exposes a method named
/// `mn`.
pub open spec fn find_owner(ib: Seq<(Seq<char>, Seq<FnDefV>)>, mn: Seq<char>) -> Option<Seq<char>>
    decreases ib.len(),
{
    if ib.len() == 0 {
        None
    } else if find_method(ib[0].1, mn) is Some {
        Some(ib[0].0)
    } else {
        find_owner(ib.drop_first(), mn)
    }
}

/// How many free functions are not yet on the guard stack.
pub open spec fn count_fns(fs: Seq<(Seq<char>, FnDefV)>, st: Seq<Seq<char>>) -> nat
    decreases fs.len(),
{
    if fs.len() == 0 {
        0
    } else {
        (if st.contains(fs[0].0) {
            0nat
        } else {
            1nat
        }) + count_fns(fs.drop_first(), st)
    }
}

/// How many methods of type `ty` are not yet on the guard stack.
pub open spec fn count_methods(ms: Seq<FnDefV>, ty: Seq<char>, st: Seq<Seq<char>>) -> nat
    decreases ms.len(),
{
    if ms.len() == 0 {
        0
    } else {
        (if st.contains(qn_method(ty, ms[0].name)) {
            0nat
        } else {
            1nat
        }) + count_methods(ms.drop_first(), ty, st)
    }
}

/// How many methods across the whole type table are not yet on the guard
/// stack.
pub open spec fn count_impls(ib: Seq<(Seq<char>, Seq<FnDefV>)>, st: Seq<Seq<char>>) -> nat
    decreases ib.len(),
{
    if ib.len() == 0 {
        0
    } else {
        count_methods(ib[0].1, ib[0].0, st) + count_impls(ib.drop_first(), st)
    }
}

/// The traversal's termination measure: definitions not yet being expanded.
pub open spec fn t_measure(t: TableV, st: Seq<Seq<char>>) -> nat {
    count_fns(t.functions, st) + count_impls(t.impl_blocks, st)
}

proof fn lemma_push_contains_iff(st: Seq<Seq<char>>, x: Seq<char>, y: Seq<char>)
    ensures
        st.push(x).contains(y) <==> (st.contains(y) || y == x),
{
    if st.push(x).contains(y) {
        let w = choose|w: int| 0 <= w < st.push(x).len() && st.push(x)[w] == y;
        if w < st.len() {
            assert(st[w] == y);
        }
    }
    if st.contains(y) {
        let w = choose|w: int| 0 <= w < st.len() && st[w] == y;
        assert(st.push(x)[w] == y);
    }
    if y == x {
        assert(st.push(x)[st.len() as int] == y);
    }
}

proof fn lemma_count_fns_mono(fs: Seq<(Seq<char>, FnDefV)>, st: Seq<Seq<char>>, x: Seq<char>)
    ensures
        count_fns(fs, st.push(x)) <= count_fns(fs, st),
    decreases fs.len(),
{
    if fs.len() > 0 {
        lemma_push_contains_iff(st, x, fs[0].0);
        lemma_count_fns_mono(fs.drop_first(), st, x);
    }
}

proof fn lemma_count_fns_dec(fs: Seq<(Seq<char>, FnDefV)>, st: Seq<Seq<char>>, x: Seq<char>)
    requires
        assoc_get(fs, x) is Some,
        !st.contains(x),
    ensures
        count_fns(fs, st.push(x)) < count_fns(fs, st),
    decreases fs.len(),
{
    lemma_push_contains_iff(st, x, fs[0].0);
    if fs[0].0 == x {
        lemma_count_fns_mono(fs.drop_first(), st, x);
    } else {
        lemma_count_fns_dec(fs.drop_first(), st, x);
    }
}

proof fn lemma_count_methods_mono(
    ms: Seq<FnDefV>,
    ty: Seq<char>,
    st: Seq<Seq<char>>,
    x: Seq<char>,
)
    ensures
        count_methods(ms, ty, st.push(x)) <= count_methods(ms, ty, st),
    decreases ms.len(),
{
    if ms.len() > 0 {
        lemma_push_contains_iff(st, x, qn_method(ty, ms[0].name));
        lemma_count_methods_mono(ms.drop_first(), ty, st, x);
    }
}

proof fn lemma_count_methods_dec(ms: Seq<FnDefV>, ty: Seq<char>, st: Seq<Seq<char>>, mn: Seq<char>)
    requires
        find_method(ms, mn) is Some,
        !st.contains(qn_method(ty, mn)),
    ensures
        count_methods(ms, ty, st.push(qn_method(ty, mn))) < count_methods(ms, ty, st),
    decreases ms.len(),
{
    lemma_push_contains_iff(st, qn_method(ty, mn), qn_method(ty, ms[0].name));
    if ms[0].name == mn {
        lemma_count_methods_mono(ms.drop_first(), ty, st, qn_method(ty, mn));
    } else {
        lemma_count_methods_dec(ms.drop_first(), ty, st, mn);
    }
}

proof fn lemma_count_impls_mono(ib: Seq<(Seq<char>, Seq<FnDefV>)>, st: Seq<Seq<char>>, x: Seq<char>)
    ensures
        count_impls(ib, st.push(x)) <= count_impls(ib, st),
    decreases ib.len(),
{
    if ib.len() > 0 {
        lemma_count_methods_mono(ib[0].1, ib[0].0, st, x);
        lemma_count_impls_mono(ib.drop_first(), st, x);
    }
}

proof fn lemma_count_impls_dec(
    ib: Seq<(Seq<char>, Seq<FnDefV>)>,
    st: Seq<Seq<char>>,
    ty: Seq<char>,
    mn: Seq<char>,
)
    requires
        assoc_get(ib, ty) is Some,
        find_method(assoc_get(ib, ty)->Some_0, mn) is Some,
        !st.contains(qn_method(ty, mn)),
    ensures
        count_impls(ib, st.push(qn_method(ty, mn))) < count_impls(ib, st),
    decreases ib.len(),
{
    if ib[0].0 == ty {
        lemma_count_methods_dec(ib[0].1, ty, st, mn);
        lemma_count_impls_mono(ib.drop_first(), st, qn_method(ty, mn));
    } else {
        lemma_count_methods_mono(ib[0].1, ib[0].0, st, qn_method(ty, mn));
        lemma_count_impls_dec(ib.drop_first(), st, ty, mn);
    }
}

pub proof fn lemma_measure_fn_dec(t: TableV, st: Seq<Seq<char>>, qn: Seq<char>)
    requires
        assoc_get(t.functions, qn) is Some,
        !st.contains(qn),
    ensures
        t_measure(t, st.push(qn)) < t_measure(t, st),
{
    lemma_count_fns_dec(t.functions, st, qn);
    lemma_count_impls_mono(t.impl_blocks, st, qn);
}

pub proof fn lemma_measure_method_dec(t: TableV, st: Seq<Seq<char>>, ty: Seq<char>, mn: Seq<char>)
    requires
        assoc_get(t.impl_blocks, ty) is Some,
        find_method(assoc_get(t.impl_blocks, ty)->Some_0, mn) is Some,
        !st.contains(qn_method(ty, mn)),
    ensures
        t_measure(t, st.push(qn_method(ty, mn))) < t_measure(t, st),
{
    lemma_count_impls_dec(t.impl_blocks, st, ty, mn);
    lemma_count_fns_mono(t.functions, st, qn_method(ty, mn));
}

/// The edges that expanding the definition named `qn` emits: nothing when
/// `qn` is already being expanded or is unknown; otherwise the edges of its
/// body's call sites, with `qn` held on the guard stack meanwhile.
pub open spec fn expand_fn(t: TableV, st: Seq<Seq<char>>, qn: Seq<char>) -> Seq<EdgeV>
    decreases t_measure(t, st), 0int, 0int,
{
    if st.contains(qn) {
        Seq::empty()
    } else {
        match assoc_get(t.functions, qn) {
            Some(d) => {
                proof {
                    lemma_measure_fn_dec(t, st, qn);
                }
                expand_sites(t, st.push(qn), qn, d.context, d.calls)
            },
            None => Seq::empty(),
        }
    }
}

/// The edges that expanding method `mn` of type `ty` emits.
pub open spec fn expand_method(
    t: TableV,
    st: Seq<Seq<char>>,
    ty: Seq<char>,
    mn: Seq<char>,
) -> Seq<EdgeV>
    decreases t_measure(t, st), 0int, 0int,
{
    let qm = qn_method(ty, mn);
    if st.contains(qm) {
        Seq::empty()
    } else {
        match assoc_get(t.impl_blocks, ty) {
            Some(ms) => match find_method(ms, mn) {
                Some(d) => {
                    proof {
                        lemma_measure_method_dec(t, st, ty, mn);
                    }
                    expand_sites(t, st.push(qm), qm, d.context, d.calls)
                },
                None => Seq::empty(),
            },
            None => Seq::empty(),
        }
    }
}

/// The name a direct call site refers to: a multi-segment path is used
/// verbatim, a single name is resolved against the caller's context.
pub open spec fn direct_callee(segments: Seq<Seq<char>>, ctx: Seq<Seq<char>>) -> Seq<char> {
    if segments.len() == 1 {
        spec_resolve(segments[0], ctx)
    } else {
        spec_join(segments)
    }
}

/// The edges one call site emits: nothing when its target matches no known
/// definition; otherwise the edge itself followed by whatever expanding the
/// target emits under the guard.
pub open spec fn expand_one(
    t: TableV,
    st: Seq<Seq<char>>,
    caller: Seq<char>,
    ctx: Seq<Seq<char>>,
    site: CallSiteV,
) -> Seq<EdgeV>
    decreases t_measure(t, st), 1int, 0int,
{
    match site {
        CallSiteV::Direct { segments } => {
            let callee = direct_callee(segments, ctx);
            if assoc_get(t.functions, callee) is Some || assoc_get(t.struct_methods, callee)
                is Some {
                seq![(caller, callee)] + (if assoc_get(t.functions, callee) is Some {
                    expand_fn(t, st, callee)
                } else {
                    match spec_rsplit(callee) {
                        Some(pair) => expand_method(t, st, pair.0, pair.1),
                        None => expand_fn(t, st, callee),
                    }
                })
            } else {
                Seq::empty()
            }
        },
        CallSiteV::Method { name } => {
            match find_owner(t.impl_blocks, name) {
                Some(ty) => seq![(caller, qn_method(ty, name))] + expand_method(t, st, ty, name),
                None => Seq::empty(),
            }
        },
    }
}

/// The edges that scanning a body's call sites emits, in source order.
pub open spec fn expand_sites(
    t: TableV,
    st: Seq<Seq<char>>,
    caller: Seq<char>,
    ctx: Seq<Seq<char>>,
    sites: Seq<CallSiteV>,
) -> Seq<EdgeV>
    decreases t_measure(t, st), 2int, sites.len(),
{
    if sites.len() == 0 {
        Seq::empty()
    } else {
        expand_one(t, st, caller, ctx, sites[0]) + expand_sites(
            t,
            st,
            caller,
            ctx,
            sites.drop_first(),
        )
    }
}

proof fn lemma_expand_sites_push(
    t: TableV,
    st: Seq<Seq<char>>,
    caller: Seq<char>,
    ctx: Seq<Seq<char>>,
    s: Seq<CallSiteV>,
    x: CallSiteV,
)
    ensures
        expand_sites(t, st, caller, ctx, s.push(x)) == expand_sites(t, st, caller, ctx, s)
            + expand_one(t, st, caller, ctx, x),
    decreases s.len(),
{
    if s.len() == 0 {
        reveal_with_fuel(expand_sites, 3);
        assert(s.push(x)[0] == x);
        assert(s.push(x).drop_first() =~= Seq::<CallSiteV>::empty());
        assert(expand_sites(t, st, caller, ctx, s.push(x)) =~= expand_sites(t, st, caller, ctx, s)
            + expand_one(t, st, caller, ctx, x));
    } else {
        assert(s.push(x)[0] == s[0]);
        assert(s.push(x).drop_first() =~= s.drop_first().push(x));
        lemma_expand_sites_push(t, st, caller, ctx, s.drop_first(), x);
        let h = expand_one(t, st, caller, ctx, s[0]);
        let mid = expand_sites(t, st, caller, ctx, s.drop_first());
        let last = expand_one(t, st, caller, ctx, x);
        assert(expand_sites(t, st, caller, ctx, s.push(x)) == h + (mid + last));
        assert(h + (mid + last) =~= (h + mid) + last);
    }
}

proof fn lemma_find_method_at(ms: Seq<FnDefV>, mn: Seq<char>, j: int)
    requires
        0 <= j < ms.len(),
        ms[j].name == mn,
        forall|k: int| 0 <= k < j ==> (#[trigger] ms[k]).name != mn,
    ensures
        find_method(ms, mn) == Some(ms[j]),
    decreases j,
{
    if j > 0 {
        let t = ms.drop_first();
        assert forall|k: int| 0 <= k < j - 1 implies (#[trigger] t[k]).name != mn by {
            assert(t[k] == ms[k + 1]);
        }
        assert(t[j - 1] == ms[j]);
        lemma_find_method_at(t, mn, j - 1);
    }
}

proof fn lemma_find_method_none(ms: Seq<FnDefV>, mn: Seq<char>)
    requires
        forall|k: int| 0 <= k < ms.len() ==> (#[trigger] ms[k]).name != mn,
    ensures
        find_method(ms, mn) is None,
    decreases ms.len(),
{
    if ms.len() > 0 {
        let t = ms.drop_first();
        assert forall|k: int| 0 <= k < t.len() implies (#[trigger] t[k]).name != mn by {
            assert(t[k] == ms[k + 1]);
        }
        lemma_find_method_none(t, mn);
    }
}

proof fn lemma_find_owner_at(ib: Seq<(Seq<char>, Seq<FnDefV>)>, mn: Seq<char>, i: int)
    requires
        0 <= i < ib.len(),
        find_method(ib[i].1, mn) is Some,
        forall|j: int| 0 <= j < i ==> find_method((#[trigger] ib[j]).1, mn) is None,
    ensures
        find_owner(ib, mn) == Some(ib[i].0),
    decreases i,
{
    if i > 0 {
        let t = ib.drop_first();
        assert forall|j: int| 0 <= j < i - 1 implies find_method((#[trigger] t[j]).1, mn)
            is None by {
            assert(t[j] == ib[j + 1]);
        }
        assert(t[i - 1] == ib[i]);
        lemma_find_owner_at(t, mn, i - 1);
    }
}

proof fn lemma_find_owner_none(ib: Seq<(Seq<char>, Seq<FnDefV>)>, mn: Seq<char>)
    requires
        forall|j: int| 0 <= j < ib.len() ==> find_method((#[trigger] ib[j]).1, mn) is None,
    ensures
        find_owner(ib, mn) is None,
    decreases ib.len(),
{
    if ib.len() > 0 {
        let t = ib.drop_first();
        assert forall|j: int| 0 <= j < t.len() implies find_method((#[trigger] t[j]).1, mn)
            is None by {
            assert(t[j] == ib[j + 1]);
        }
        lemma_find_owner_none(t, mn);
    }
}

/// First-match search of a method list by simple name.
fn find_method_in(ms: &Vec<FnDef>, mn: &str) -> (r: Option<usize>)
    ensures
        match r {
            Some(j) => j < ms@.len() && find_method(ms.deep_view(), mn@) == Some(
                ms.deep_view()[j as int],
            ),
            None => find_method(ms.deep_view(), mn@) is None,
        },
{
    let mut j: usize = 0;
    while j < ms.len()
        invariant
            j <= ms@.len(),
            ms.deep_view().len() == ms@.len(),
            forall|k: int| 0 <= k < j ==> (#[trigger] ms.deep_view()[k]).name != mn@,
        decreases ms@.len() - j,
    {
        proof {
            assert(ms.deep_view()[j as int] == ms@[j as int]@);
        }
        if eq_str(ms[j].name.as_str(), mn) {
            proof {
                lemma_find_method_at(ms.deep_view(), mn@, j as int);
            }
            return Some(j);
        }
        j = j + 1;
    }
    proof {
        lemma_find_method_none(ms.deep_view(), mn@);
    }
    None
}

/// First entry of the type-to-methods table exposing a method named `mn`.
fn find_owner_idx(pairs: &Vec<(String, Vec<FnDef>)>, mn: &str) -> (r: Option<usize>)
    ensures
        match r {
            Some(i) => i < pairs@.len() && find_owner(pairs.deep_view(), mn@) == Some(
                pairs.deep_view()[i as int].0,
            ),
            None => find_owner(pairs.deep_view(), mn@) is None,
        },
{
    let mut i: usize = 0;
    while i < pairs.len()
        invariant
            i <= pairs@.len(),
            pairs.deep_view().len() == pairs@.len(),
            forall|j: int| 0 <= j < i ==> find_method(
                (#[trigger] pairs.deep_view()[j]).1,
                mn@,
            ) is None,
        decreases pairs@.len() - i,
    {
        proof {
            let ii = i as int;
            assert(pairs.deep_view()[ii] == (pairs@[ii].0@, pairs@[ii].1.deep_view()));
        }
        if find_method_in(&pairs[i].1, mn).is_some() {
            proof {
                lemma_find_owner_at(pairs.deep_view(), mn@, i as int);
            }
            return Some(i);
        }
        i = i + 1;
    }
    proof {
        lemma_find_owner_none(pairs.deep_view(), mn@);
    }
    None
}

impl FunctionCallVisitor {
    /// Expands the definition that `name` resolves to in the visitor's
    /// current lexical context, recording every call edge discovered.  The
    /// definition table, the lexical context and the guard stack are left as
    /// they were.
    pub fn process_function(&mut self, name: &str)
        ensures
            final(self)@ == (VisitorV {
                function_calls: old(self)@.function_calls + expand_fn(
                    old(self)@.table(),
                    old(self)@.current_call_stack,
                    spec_resolve(name@, old(self)@.current_module),
                ),
                ..old(self)@
            }),
    {
        let qn = self.get_qualified_name(name);
        self.expand_function(qn);
    }

    /// Expands the definition with qualified name `qn`: a no-op when `qn` is
    /// already being expanded or unknown; otherwise scans its body under the
    /// recursion guard.
    fn expand_function(&mut self, qn: String)
        ensures
            final(self)@ == (VisitorV {
                function_calls: old(self)@.function_calls + expand_fn(
                    old(self)@.table(),
                    old(self)@.current_call_stack,
                    qn@,
                ),
                ..old(self)@
            }),
        decreases t_measure(self@.table(), self@.current_call_stack), 0int,
    {
        let ghost v0 = self@;
        let ghost t = v0.table();
        if stack_has(&self.current_call_stack, qn.as_str()) {
            proof {
                assert(v0.function_calls + expand_fn(t, v0.current_call_stack, qn@)
                    =~= v0.function_calls);
            }
            return;
        }
        self.current_call_stack.push(clone_string(&qn));
        proof {
            assert(self@.current_call_stack =~= v0.current_call_stack.push(qn@));
        }
        let found = find_fn(&self.functions, qn.as_str());
        match found {
            Some(i) => {
                proof {
                    let ii = i as int;
                    assert(self.functions.deep_view()[ii] == (self.functions@[ii].0@, self
                        .functions@[ii].1.deep_view()));
                }
                let def = clone_fn_def(&self.functions[i].1);
                proof {
                    assert(def@ == assoc_get(t.functions, qn@)->Some_0);
                }
                let saved = clone_string(&self.current_function);
                self.current_function = clone_string(&qn);
                proof {
                    lemma_measure_fn_dec(t, v0.current_call_stack, qn@);
                    assert(self@.table() == t);
                    assert(self@.current_call_stack == v0.current_call_stack.push(qn@));
                }
                self.expand_sites_of(&qn, &def.context, &def.calls);
                self.current_function = saved;
                proof {
                    let d = assoc_get(t.functions, qn@)->Some_0;
                    assert(expand_fn(t, v0.current_call_stack, qn@) == expand_sites(
                        t,
                        v0.current_call_stack.push(qn@),
                        qn@,
                        d.context,
                        d.calls,
                    ));
                    assert(self@.function_calls == v0.function_calls + expand_fn(
                        t,
                        v0.current_call_stack,
                        qn@,
                    ));
                }
            },
            None => {
                proof {
                    assert(v0.function_calls + expand_fn(t, v0.current_call_stack, qn@)
                        =~= v0.function_calls);
                }
            },
        }
        let ghost before = self@.current_call_stack;
        self.current_call_stack.pop();
        proof {
            assert(self@.current_call_stack =~= before.drop_last());
            assert(before.drop_last() =~= v0.current_call_stack);
            assert(self@ == (VisitorV {
                function_calls: v0.function_calls + expand_fn(t, v0.current_call_stack, qn@),
                ..v0
            }));
        }
    }

    /// Expands method `mn` of type `ty`, under the guard name `ty::mn`.
    fn process_method(&mut self, ty: &str, mn: &str)
        ensures
            final(self)@ == (VisitorV {
                function_calls: old(self)@.function_calls + expand_method(
                    old(self)@.table(),
                    old(self)@.current_call_stack,
                    ty@,
                    mn@,
                ),
                ..old(self)@
            }),
        decreases t_measure(self@.table(), self@.current_call_stack), 0int,
    {
        let ghost v0 = self@;
        let ghost t = v0.table();
        let qm = join_two(ty, mn);
        proof {
            assert(qm@ == qn_method(ty@, mn@));
        }
        if stack_has(&self.current_call_stack, qm.as_str()) {
            proof {
                assert(v0.function_calls + expand_method(t, v0.current_call_stack, ty@, mn@)
                    =~= v0.function_calls);
            }
            return;
        }
        self.current_call_stack.push(clone_string(&qm));
        proof {
            assert(self@.current_call_stack =~= v0.current_call_stack.push(qm@));
        }
        let found = find_impl(&self.impl_blocks, ty);
        let mut expanded = false;
        match found {
            Some(i) => {
                proof {
                    let ii = i as int;
                    assert(self.impl_blocks.deep_view()[ii] == (self.impl_blocks@[ii].0@, self
                        .impl_blocks@[ii].1.deep_view()));
                }
                let fj = find_method_in(&self.impl_blocks[i].1, mn);
                match fj {
                    Some(j) => {
                        proof {
                            let jj = j as int;
                            assert(self.impl_blocks@[i as int].1.deep_view()[jj] == self
                                .impl_blocks@[i as int].1@[jj]@);
                        }
                        let def = clone_fn_def(&self.impl_blocks[i].1[j]);
                        proof {
                            let ms = assoc_get(t.impl_blocks, ty@)->Some_0;
                            assert(def@ == find_method(ms, mn@)->Some_0);
                        }
                        let saved = clone_string(&self.current_function);
                        self.current_function = clone_string(&qm);
                        proof {
                            lemma_measure_method_dec(t, v0.current_call_stack, ty@, mn@);
                            assert(self@.table() == t);
                            assert(self@.current_call_stack == v0.current_call_stack.push(qm@));
                        }
                        self.expand_sites_of(&qm, &def.context, &def.calls);
                        self.current_function = saved;
                        proof {
                            let ms = assoc_get(t.impl_blocks, ty@)->Some_0;
                            let d = find_method(ms, mn@)->Some_0;
                            assert(expand_method(t, v0.current_call_stack, ty@, mn@)
                                == expand_sites(
                                t,
                                v0.current_call_stack.push(qm@),
                                qm@,
                                d.context,
                                d.calls,
                            ));
                            assert(self@.function_calls == v0.function_calls + expand_method(
                                t,
                                v0.current_call_stack,
                                ty@,
                                mn@,
                            ));
                        }
                        expanded = true;
                    },
                    None => {},
                }
            },
            None => {},
        }
        if !expanded {
            proof {
                assert(v0.function_calls + expand_method(t, v0.current_call_stack, ty@, mn@)
                    =~= v0.function_calls);
            }
        }
        let ghost before = self@.current_call_stack;
        self.current_call_stack.pop();
        proof {
            assert(self@.current_call_stack =~= before.drop_last());
            assert(before.drop_last() =~= v0.current_call_stack);
            assert(self@ == (VisitorV {
                function_calls: v0.function_calls + expand_method(
                    t,
                    v0.current_call_stack,
                    ty@,
                    mn@,
                ),
                ..v0
            }));
        }
    }

    /// Scans a body's call sites in order, emitting an edge for each site
    /// whose target resolves to a known definition and then expanding that
    /// target under the guard.
    fn expand_sites_of(&mut self, caller: &String, ctx: &Vec<String>, sites: &Vec<CallSite>)
        ensures
            final(self)@ == (VisitorV {
                function_calls: old(self)@.function_calls + expand_sites(
                    old(self)@.table(),
                    old(self)@.current_call_stack,
                    caller@,
                    ctx.deep_view(),
                    sites.deep_view(),
                ),
                ..old(self)@
            }),
        decreases t_measure(self@.table(), self@.current_call_stack), 1int,
    {
        let ghost v0 = self@;
        let ghost t = v0.table();
        let ghost st = v0.current_call_stack;
        let ghost sdv = sites.deep_view();
        let ghost cdv = ctx.deep_view();
        let mut i: usize = 0;
        proof {
            assert(sdv.subrange(0, 0) =~= Seq::<CallSiteV>::empty());
            assert(v0.function_calls + expand_sites(t, st, caller@, cdv, sdv.subrange(0, 0))
                =~= v0.function_calls);
        }
        while i < sites.len()
            invariant
                i <= sites@.len(),
                v0 == old(self)@,
                t == v0.table(),
                st == v0.current_call_stack,
                sdv == sites.deep_view(),
                sdv.len() == sites@.len(),
                cdv == ctx.deep_view(),
                self@ == (VisitorV { function_calls: self@.function_calls, ..v0 }),
                self@.function_calls == v0.function_calls + expand_sites(
                    t,
                    st,
                    caller@,
                    cdv,
                    sdv.subrange(0, i as int),
                ),
            decreases sites@.len() - i,
        {
            let ghost pre_calls = self@.function_calls;
            proof {
                assert(sdv[i as int] == sites@[i as int]@);
                assert(self@.functions == v0.functions);
                assert(self@.table() == t);
                assert(self@.current_call_stack == st);
            }
            let site = &sites[i];
            match site {
                CallSite::Direct { segments } => {
                    let callee: String = if segments.len() == 1 {
                        resolve_name(ctx, segments[0].as_str())
                    } else {
                        join_segments(segments)
                    };
                    proof {
                        if segments@.len() == 1 {
                            assert(segments.deep_view()[0] == segments@[0]@);
                        }
                        assert(callee@ == direct_callee(segments.deep_view(), cdv));
                    }
                    let in_fns = find_fn(&self.functions, callee.as_str());
                    let in_sm = find_fn(&self.struct_methods, callee.as_str());
                    if in_fns.is_some() || in_sm.is_some() {
                        self.function_calls.push((clone_string(caller), clone_string(&callee)));
                        proof {
                            assert(self@.function_calls =~= pre_calls.push((caller@, callee@)));
                        }
                        let ghost mid_calls = self@.function_calls;
                        if in_fns.is_some() {
                            self.expand_function(callee);
                            proof {
                                assert(self@.function_calls == mid_calls + expand_fn(
                                    t,
                                    st,
                                    direct_callee(segments.deep_view(), cdv),
                                ));
                            }
                        } else {
                            let split = rsplit_sep(callee.as_str());
                            match split {
                                Some(pair) => {
                                    self.process_method(pair.0.as_str(), pair.1.as_str());
                                },
                                None => {
                                    self.expand_function(callee);
                                },
                            }
                        }
                        proof {
                            assert(self@.function_calls =~= pre_calls + expand_one(
                                t,
                                st,
                                caller@,
                                cdv,
                                sdv[i as int],
                            ));
                        }
                    } else {
                        proof {
                            assert(expand_one(t, st, caller@, cdv, sdv[i as int])
                                =~= Seq::<EdgeV>::empty());
                            assert(self@.function_calls =~= pre_calls + expand_one(
                                t,
                                st,
                                caller@,
                                cdv,
                                sdv[i as int],
                            ));
                        }
                    }
                },
                CallSite::Method { name } => {
                    let oi = find_owner_idx(&self.impl_blocks, name.as_str());
                    match oi {
                        Some(ix) => {
                            proof {
                                let xx = ix as int;
                                assert(self.impl_blocks.deep_view()[xx] == (self.impl_blocks@[
                                    xx].0@, self.impl_blocks@[xx].1.deep_view()));
                            }
                            let ty = clone_string(&self.impl_blocks[ix].0);
                            proof {
                                assert(ty@ == find_owner(t.impl_blocks, name@)->Some_0);
                            }
                            let qm = join_two(ty.as_str(), name.as_str());
                            self.function_calls.push((clone_string(caller), qm));
                            proof {
                                assert(self@.function_calls =~= pre_calls.push((caller@,
                                    qn_method(ty@, name@))));
                            }
                            self.process_method(ty.as_str(), name.as_str());
                            proof {
                                assert(self@.function_calls =~= pre_calls + expand_one(
                                    t,
                                    st,
                                    caller@,
                                    cdv,
                                    sdv[i as int],
                                ));
                            }
                        },
                        None => {
                            proof {
                                assert(expand_one(t, st, caller@, cdv, sdv[i as int])
                                    =~= Seq::<EdgeV>::empty());
                                assert(self@.function_calls =~= pre_calls + expand_one(
                                    t,
                                    st,
                                    caller@,
                                    cdv,
                                    sdv[i as int],
                                ));
                            }
                        },
                    }
                },
            }
            proof {
                lemma_expand_sites_push(t, st, caller@, cdv, sdv.subrange(0, i as int), sdv[
                    i as int]);
                assert(sdv.subrange(0, i as int).push(sdv[i as int]) =~= sdv.subrange(0, i + 1));
                assert(self@.function_calls == v0.function_calls + expand_sites(
                    t,
                    st,
                    caller@,
                    cdv,
                    sdv.subrange(0, i + 1),
                ));
            }
            i = i + 1;
        }
        proof {
            assert(sdv.subrange(0, sites@.len() as int) =~= sdv);
        }
    }
}

proof fn lemma_assoc_get_mem<V>(pairs: Seq<(Seq<char>, V)>, k: Seq<char>)
    requires
        assoc_get(pairs, k) is Some,
    ensures
        exists|i: int| 0 <= i < pairs.len() && #[trigger] pairs[i] == (k, assoc_get(
            pairs,
            k,
        )->Some_0),
    decreases pairs.len(),
{
    if pairs[0].0 == k {
        assert(pairs[0] == (k, assoc_get(pairs, k)->Some_0));
    } else {
        lemma_assoc_get_mem(pairs.drop_first(), k);
        let i = choose|i: int| 0 <= i < pairs.drop_first().len() && #[trigger] pairs.drop_first()[
            i] == (k, assoc_get(pairs.drop_first(), k)->Some_0);
        assert(pairs[i + 1] == (k, assoc_get(pairs, k)->Some_0));
    }
}

proof fn lemma_find_method_mem(ms: Seq<FnDefV>, mn: Seq<char>)
    requires
        find_method(ms, mn) is Some,
    ensures
        exists|j: int| 0 <= j < ms.len() && #[trigger] ms[j] == find_method(ms, mn)->Some_0,
    decreases ms.len(),
{
    if ms[0].name == mn {
        assert(ms[0] == find_method(ms, mn)->Some_0);
    } else {
        lemma_find_method_mem(ms.drop_first(), mn);
        let j = choose|j: int| 0 <= j < ms.drop_first().len() && #[trigger] ms.drop_first()[j]
            == find_method(ms.drop_first(), mn)->Some_0;
        assert(ms[j + 1] == find_method(ms, mn)->Some_0);
    }
}

/// A table in which no definition's body holds any call expression.
pub open spec fn table_has_no_calls(t: TableV) -> bool {
    &&& forall|i: int| 0 <= i < t.functions.len() ==> (#[trigger] t.functions[i]).1.calls.len()
        == 0
    &&& forall|i: int, j: int|
        0 <= i < t.impl_blocks.len() && 0 <= j < t.impl_blocks[i].1.len() ==> (#[trigger] t
            .impl_blocks[i].1[j]).calls.len() == 0
}

/// A unit whose definitions make no calls contributes no edges: expanding
/// any name, from any guard state, emits nothing.
pub proof fn lemma_no_calls_no_edges(t: TableV, st: Seq<Seq<char>>, qn: Seq<char>)
    requires
        table_has_no_calls(t),
    ensures
        expand_fn(t, st, qn) =~= Seq::<EdgeV>::empty(),
{
    if !st.contains(qn) && assoc_get(t.functions, qn) is Some {
        let d = assoc_get(t.functions, qn)->Some_0;
        lemma_assoc_get_mem(t.functions, qn);
        assert(d.calls.len() == 0);
        assert(expand_sites(t, st.push(qn), qn, d.context, d.calls) =~= Seq::<EdgeV>::empty());
    }
}

/// The method-expansion form of [`lemma_no_calls_no_edges`].
pub proof fn lemma_no_calls_no_edges_method(
    t: TableV,
    st: Seq<Seq<char>>,
    ty: Seq<char>,
    mn: Seq<char>,
)
    requires
        table_has_no_calls(t),
    ensures
        expand_method(t, st, ty, mn) =~= Seq::<EdgeV>::empty(),
{
    let qm = qn_method(ty, mn);
    if !st.contains(qm) && assoc_get(t.impl_blocks, ty) is Some {
        let ms = assoc_get(t.impl_blocks, ty)->Some_0;
        if find_method(ms, mn) is Some {
            let d = find_method(ms, mn)->Some_0;
            lemma_assoc_get_mem(t.impl_blocks, ty);
            lemma_find_method_mem(ms, mn);
            let i = choose|i: int| 0 <= i < t.impl_blocks.len() && #[trigger] t.impl_blocks[i]
                == (ty, ms);
            let j = choose|j: int| 0 <= j < ms.len() && #[trigger] ms[j] == d;
            assert(t.impl_blocks[i].1[j] == d);
            assert(d.calls.len() == 0);
            assert(expand_sites(t, st.push(qm), qm, d.context, d.calls) =~= Seq::<
                EdgeV,
            >::empty());
        }
    }
}

/// A function whose single call site resolves back to its own qualified name
/// yields exactly one edge, from itself to itself: the guard stops the
/// re-expansion, not the edge.
pub proof fn lemma_self_recursion(t: TableV, qn: Seq<char>, segs: Seq<Seq<char>>)
    requires
        assoc_get(t.functions, qn) is Some,
        assoc_get(t.functions, qn)->Some_0.calls == seq![CallSiteV::Direct { segments: segs }],
        direct_callee(segs, assoc_get(t.functions, qn)->Some_0.context) == qn,
    ensures
        expand_fn(t, Seq::empty(), qn) =~= seq![(qn, qn)],
{
    let d = assoc_get(t.functions, qn)->Some_0;
    let st1 = Seq::<Seq<char>>::empty().push(qn);
    assert(st1[0] == qn);
    assert(st1.contains(qn));
    assert(expand_fn(t, st1, qn) =~= Seq::<EdgeV>::empty());
    assert(d.calls[0] == CallSiteV::Direct { segments: segs });
    assert(expand_one(t, st1, qn, d.context, d.calls[0]) =~= seq![(qn, qn)]);
    assert(d.calls.drop_first() =~= Seq::<CallSiteV>::empty());
    assert(expand_sites(t, st1, qn, d.context, d.calls.drop_first()) =~= Seq::<EdgeV>::empty());
    assert(expand_sites(t, st1, qn, d.context, d.calls) =~= seq![(qn, qn)]);
    assert(!Seq::<Seq<char>>::empty().contains(qn));
}

/// Two mutually recursive functions yield exactly the two edges between
/// them, each once, whichever of the two the traversal starts from.
pub proof fn lemma_mutual_recursion(
    t: TableV,
    f: Seq<char>,
    g: Seq<char>,
    sf: Seq<Seq<char>>,
    sg: Seq<Seq<char>>,
)
    requires
        f != g,
        assoc_get(t.functions, f) is Some,
        assoc_get(t.functions, g) is Some,
        assoc_get(t.functions, f)->Some_0.calls == seq![CallSiteV::Direct { segments: sf }],
        assoc_get(t.functions, g)->Some_0.calls == seq![CallSiteV::Direct { segments: sg }],
        direct_callee(sf, assoc_get(t.functions, f)->Some_0.context) == g,
        direct_callee(sg, assoc_get(t.functions, g)->Some_0.context) == f,
    ensures
        expand_fn(t, Seq::empty(), f) =~= seq![(f, g), (g, f)],
        expand_fn(t, Seq::empty(), g) =~= seq![(g, f), (f, g)],
{
    lemma_mutual_one_sided(t, f, g, sf, sg);
    lemma_mutual_one_sided(t, g, f, sg, sf);
}

proof fn lemma_mutual_one_sided(
    t: TableV,
    f: Seq<char>,
    g: Seq<char>,
    sf: Seq<Seq<char>>,
    sg: Seq<Seq<char>>,
)
    requires
        f != g,
        assoc_get(t.functions, f) is Some,
        assoc_get(t.functions, g) is Some,
        assoc_get(t.functions, f)->Some_0.calls == seq![CallSiteV::Direct { segments: sf }],
        assoc_get(t.functions, g)->Some_0.calls == seq![CallSiteV::Direct { segments: sg }],
        direct_callee(sf, assoc_get(t.functions, f)->Some_0.context) == g,
        direct_callee(sg, assoc_get(t.functions, g)->Some_0.context) == f,
    ensures
        expand_fn(t, Seq::empty(), f) =~= seq![(f, g), (g, f)],
{
    let df = assoc_get(t.functions, f)->Some_0;
    let dg = assoc_get(t.functions, g)->Some_0;
    let st1 = Seq::<Seq<char>>::empty().push(f);
    let st2 = st1.push(g);
    assert(st1[0] == f);
    assert(st1.contains(f));
    assert(!st1.contains(g)) by {
        if st1.contains(g) {
            let w = choose|w: int| 0 <= w < st1.len() && st1[w] == g;
            assert(st1[w] == f);
        }
    }
    assert(st2[0] == f);
    assert(st2[1] == g);
    assert(st2.contains(f));
    assert(expand_fn(t, st2, f) =~= Seq::<EdgeV>::empty());
    assert(dg.calls[0] == CallSiteV::Direct { segments: sg });
    assert(expand_one(t, st2, g, dg.context, dg.calls[0]) =~= seq![(g, f)]);
    assert(dg.calls.drop_first() =~= Seq::<CallSiteV>::empty());
    assert(expand_sites(t, st2, g, dg.context, dg.calls.drop_first()) =~= Seq::<EdgeV>::empty());
    assert(expand_sites(t, st2, g, dg.context, dg.calls) =~= seq![(g, f)]);
    assert(expand_fn(t, st1, g) =~= seq![(g, f)]);
    assert(df.calls[0] == CallSiteV::Direct { segments: sf });
    assert(expand_one(t, st1, f, df.context, df.calls[0]) =~= seq![(f, g), (g, f)]);
    assert(df.calls.drop_first() =~= Seq::<CallSiteV>::empty());
    assert(expand_sites(t, st1, f, df.context, df.calls.drop_first()) =~= Seq::<EdgeV>::empty());
    assert(expand_sites(t, st1, f, df.context, df.calls) =~= seq![(f, g), (g, f)]);
    assert(!Seq::<Seq<char>>::empty().contains(f));
}

/// Registering the same resolved file path twice registers its definitions
/// exactly once: the second registration is a no-op.
pub proof fn lemma_discovery_idempotent(
    v: VisitorV,
    path: Seq<char>,
    module_name: Seq<char>,
    file: ParsedFileV,
)
    ensures
        spec_process_module(spec_process_module(v, path, module_name, file), path, module_name,
            file) == spec_process_module(v, path, module_name, file),
{
    let once = spec_process_module(v, path, module_name, file);
    if v.visited_files.contains(path) {
    } else {
        assert(once.visited_files == v.visited_files.push(path));
        assert(once.visited_files[v.visited_files.len() as int] == path);
        assert(once.visited_files.contains(path));
    }
}

/// A parsed file in which no function body holds any call expression.
pub open spec fn file_has_no_calls(f: ParsedFileV) -> bool {
    &&& forall|i: int| 0 <= i < f.fns.len() ==> (#[trigger] f.fns[i]).calls.len() == 0
    &&& forall|i: int, j: int|
        0 <= i < f.impls.len() && 0 <= j < f.impls[i].methods.len() ==> (#[trigger] f.impls[
            i].methods[j]).calls.len() == 0
    &&& forall|i: int, j: int|
        0 <= i < f.mods.len() && 0 <= j < f.mods[i].fns.len() ==> (#[trigger] f.mods[i].fns[
            j]).calls.len() == 0
    &&& forall|i: int, j: int, k: int|
        0 <= i < f.mods.len() && 0 <= j < f.mods[i].impls.len() && 0 <= k < f.mods[i].impls[
            j].methods.len() ==> (#[trigger] f.mods[i].impls[j].methods[k]).calls.len() == 0
}

spec fn fns_no_calls(pairs: Seq<(Seq<char>, FnDefV)>) -> bool {
    forall|i: int| 0 <= i < pairs.len() ==> (#[trigger] pairs[i]).1.calls.len() == 0
}

spec fn impls_no_calls(ib: Seq<(Seq<char>, Seq<FnDefV>)>) -> bool {
    forall|i: int, j: int|
        0 <= i < ib.len() && 0 <= j < ib[i].1.len() ==> (#[trigger] ib[i].1[j]).calls.len() == 0
}

proof fn lemma_put_keeps_fns_no_calls(
    pairs: Seq<(Seq<char>, FnDefV)>,
    k: Seq<char>,
    v: FnDefV,
)
    requires
        fns_no_calls(pairs),
        v.calls.len() == 0,
    ensures
        fns_no_calls(assoc_put(pairs, k, v)),
    decreases pairs.len(),
{
    let r = assoc_put(pairs, k, v);
    if pairs.len() == 0 {
        assert(r[0].1.calls.len() == 0);
    } else if pairs[0].0 == k {
        assert forall|i: int| 0 <= i < r.len() implies (#[trigger] r[i]).1.calls.len() == 0 by {
            if i > 0 {
                assert(r[i] == pairs[i]);
            }
        }
    } else {
        assert(fns_no_calls(pairs.drop_first())) by {
            assert forall|i: int| 0 <= i < pairs.drop_first().len() implies (#[trigger] pairs
                .drop_first()[i]).1.calls.len() == 0 by {
                assert(pairs.drop_first()[i] == pairs[i + 1]);
            }
        }
        lemma_put_keeps_fns_no_calls(pairs.drop_first(), k, v);
        let t = assoc_put(pairs.drop_first(), k, v);
        assert forall|i: int| 0 <= i < r.len() implies (#[trigger] r[i]).1.calls.len() == 0 by {
            if i > 0 {
                assert(r[i] == t[i - 1]);
            }
        }
    }
}

proof fn lemma_put_keeps_impls_no_calls(
    ib: Seq<(Seq<char>, Seq<FnDefV>)>,
    k: Seq<char>,
    v: Seq<FnDefV>,
)
    requires
        impls_no_calls(ib),
        forall|j: int| 0 <= j < v.len() ==> (#[trigger] v[j]).calls.len() == 0,
    ensures
        impls_no_calls(assoc_put(ib, k, v)),
    decreases ib.len(),
{
    let r = assoc_put(ib, k, v);
    if ib.len() == 0 {
        assert forall|i: int, j: int| 0 <= i < r.len() && 0 <= j < r[i].1.len() implies (
        #[trigger] r[i].1[j]).calls.len() == 0 by {
            assert(r[i] == (k, v));
        }
    } else if ib[0].0 == k {
        assert forall|i: int, j: int| 0 <= i < r.len() && 0 <= j < r[i].1.len() implies (
        #[trigger] r[i].1[j]).calls.len() == 0 by {
            if i > 0 {
                assert(r[i] == ib[i]);
            } else {
                assert(r[0] == (k, v));
            }
        }
    } else {
        assert(impls_no_calls(ib.drop_first())) by {
            assert forall|i: int, j: int|
                0 <= i < ib.drop_first().len() && 0 <= j < ib.drop_first()[i].1.len() implies (
            #[trigger] ib.drop_first()[i].1[j]).calls.len() == 0 by {
                assert(ib.drop_first()[i] == ib[i + 1]);
            }
        }
        lemma_put_keeps_impls_no_calls(ib.drop_first(), k, v);
        let t = assoc_put(ib.drop_first(), k, v);
        assert forall|i: int, j: int| 0 <= i < r.len() && 0 <= j < r[i].1.len() implies (
        #[trigger] r[i].1[j]).calls.len() == 0 by {
            if i > 0 {
                assert(r[i] == t[i - 1]);
            } else {
                assert(r[0] == ib[0]);
            }
        }
    }
}

proof fn lemma_reg_fns_keeps_no_calls(
    fns: Seq<(Seq<char>, FnDefV)>,
    ctx: Seq<Seq<char>>,
    list: Seq<ParsedFnV>,
)
    requires
        fns_no_calls(fns),
        forall|i: int| 0 <= i < list.len() ==> (#[trigger] list[i]).calls.len() == 0,
    ensures
        fns_no_calls(reg_fns(fns, ctx, list)),
    decreases list.len(),
{
    if list.len() > 0 {
        assert forall|i: int| 0 <= i < list.drop_last().len() implies (#[trigger] list
            .drop_last()[i]).calls.len() == 0 by {
            assert(list.drop_last()[i] == list[i]);
        }
        lemma_reg_fns_keeps_no_calls(fns, ctx, list.drop_last());
        assert(list.last().calls.len() == 0);
        lemma_put_keeps_fns_no_calls(
            reg_fns(fns, ctx, list.drop_last()),
            spec_resolve(list.last().name, ctx),
            mk_def(ctx, list.last()),
        );
    }
}

proof fn lemma_reg_impls_keeps_no_calls(
    sm: Seq<(Seq<char>, FnDefV)>,
    ib: Seq<(Seq<char>, Seq<FnDefV>)>,
    ctx: Seq<Seq<char>>,
    impls: Seq<ParsedImplV>,
)
    requires
        impls_no_calls(ib),
        forall|i: int, j: int|
            0 <= i < impls.len() && 0 <= j < impls[i].methods.len() ==> (#[trigger] impls[
                i].methods[j]).calls.len() == 0,
    ensures
        impls_no_calls(reg_impls(sm, ib, ctx, impls).1),
    decreases impls.len(),
{
    if impls.len() > 0 {
        assert forall|i: int, j: int|
            0 <= i < impls.drop_last().len() && 0 <= j < impls.drop_last()[i].methods.len()
            implies (#[trigger] impls.drop_last()[i].methods[j]).calls.len() == 0 by {
            assert(impls.drop_last()[i] == impls[i]);
        }
        lemma_reg_impls_keeps_no_calls(sm, ib, ctx, impls.drop_last());
        let p = reg_impls(sm, ib, ctx, impls.drop_last());
        let last = impls.last();
        assert forall|j: int| 0 <= j < mk_defs(ctx, last.methods).len() implies (
        #[trigger] mk_defs(ctx, last.methods)[j]).calls.len() == 0 by {
            assert(mk_defs(ctx, last.methods)[j] == mk_def(ctx, last.methods[j]));
        }
        lemma_put_keeps_impls_no_calls(p.1, last.owner, mk_defs(ctx, last.methods));
    }
}

proof fn lemma_reg_mods_keeps_no_calls(
    fns: Seq<(Seq<char>, FnDefV)>,
    sm: Seq<(Seq<char>, FnDefV)>,
    ib: Seq<(Seq<char>, Seq<FnDefV>)>,
    ctx: Seq<Seq<char>>,
    mods: Seq<ParsedModV>,
)
    requires
        fns_no_calls(fns),
        impls_no_calls(ib),
        forall|i: int, j: int|
            0 <= i < mods.len() && 0 <= j < mods[i].fns.len() ==> (#[trigger] mods[i].fns[
                j]).calls.len() == 0,
        forall|i: int, j: int, k: int|
            0 <= i < mods.len() && 0 <= j < mods[i].impls.len() && 0 <= k < mods[i].impls[
                j].methods.len() ==> (#[trigger] mods[i].impls[j].methods[k]).calls.len() == 0,
    ensures
        fns_no_calls(reg_mods(fns, sm, ib, ctx, mods).0),
        impls_no_calls(reg_mods(fns, sm, ib, ctx, mods).2),
    decreases mods.len(),
{
    if mods.len() > 0 {
        assert forall|i: int, j: int|
            0 <= i < mods.drop_last().len() && 0 <= j < mods.drop_last()[i].fns.len() implies (
        #[trigger] mods.drop_last()[i].fns[j]).calls.len() == 0 by {
            assert(mods.drop_last()[i] == mods[i]);
        }
        assert forall|i: int, j: int, k: int|
            0 <= i < mods.drop_last().len() && 0 <= j < mods.drop_last()[i].impls.len() && 0
            <= k < mods.drop_last()[i].impls[j].methods.len() implies (#[trigger] mods
            .drop_last()[i].impls[j].methods[k]).calls.len() == 0 by {
            assert(mods.drop_last()[i] == mods[i]);
        }
        lemma_reg_mods_keeps_no_calls(fns, sm, ib, ctx, mods.drop_last());
        let p = reg_mods(fns, sm, ib, ctx, mods.drop_last());
        let m = mods.last();
        let ctx2 = ctx.push(m.name);
        assert(forall|j: int| 0 <= j < m.fns.len() ==> (#[trigger] m.fns[j]).calls.len() == 0);
        lemma_reg_fns_keeps_no_calls(p.0, ctx2, m.fns);
        assert forall|i: int, j: int|
            0 <= i < m.impls.len() && 0 <= j < m.impls[i].methods.len() implies (#[trigger] m
            .impls[i].methods[j]).calls.len() == 0 by {}
        lemma_reg_impls_keeps_no_calls(p.1, p.2, ctx2, m.impls);
    }
}

/// Registering a file without call expressions yields a definition table
/// without call expressions, whatever was in the tables before — provided
/// those tables were call-free too.
pub proof fn lemma_reg_file_keeps_no_calls(v: VisitorV, path: Seq<char>, module_name: Seq<char>, file: ParsedFileV)
    requires
        table_has_no_calls(v.table()),
        file_has_no_calls(file),
    ensures
        table_has_no_calls(spec_process_module(v, path, module_name, file).table()),
{
    if !v.visited_files.contains(path) {
        let ctx = if module_name != "main"@ && module_name != "lib"@ {
            v.current_module.push(module_name)
        } else {
            v.current_module
        };
        assert(fns_no_calls(v.functions)) by {
            assert forall|i: int| 0 <= i < v.functions.len() implies (#[trigger] v.functions[
                i]).1.calls.len() == 0 by {
                assert(v.table().functions[i] == v.functions[i]);
            }
        }
        assert(impls_no_calls(v.impl_blocks)) by {
            assert forall|i: int, j: int|
                0 <= i < v.impl_blocks.len() && 0 <= j < v.impl_blocks[i].1.len() implies (
            #[trigger] v.impl_blocks[i].1[j]).calls.len() == 0 by {
                assert(v.table().impl_blocks[i] == v.impl_blocks[i]);
            }
        }
        lemma_reg_fns_keeps_no_calls(v.functions, ctx, file.fns);
        lemma_reg_impls_keeps_no_calls(v.struct_methods, v.impl_blocks, ctx, file.impls);
        let f1 = reg_fns(v.functions, ctx, file.fns);
        let p = reg_impls(v.struct_methods, v.impl_blocks, ctx, file.impls);
        lemma_reg_mods_keeps_no_calls(f1, p.0, p.1, ctx, file.mods);
        let res = spec_process_module(v, path, module_name, file);
        let triple = reg_mods(f1, p.0, p.1, ctx, file.mods);
        assert(res.table().functions == triple.0);
        assert(res.table().impl_blocks == triple.2);
        assert forall|i: int| 0 <= i < res.table().functions.len() implies (#[trigger] res
            .table().functions[i]).1.calls.len() == 0 by {
            assert(res.table().functions[i] == triple.0[i]);
        }
        assert forall|i: int, j: int|
            0 <= i < res.table().impl_blocks.len() && 0 <= j < res.table().impl_blocks[
            i].1.len() implies (#[trigger] res.table().impl_blocks[i].1[j]).calls.len()
            == 0 by {
            assert(res.table().impl_blocks[i] == triple.2[i]);
        }
    }
}

/// The value of a freshly created visitor.
pub open spec fn empty_visitor() -> VisitorV {
    VisitorV {
        current_function: Seq::empty(),
        current_module: Seq::empty(),
        function_calls: Seq::empty(),
        functions: Seq::empty(),
        struct_methods: Seq::empty(),
        impl_blocks: Seq::empty(),
        visited_files: Seq::empty(),
        current_call_stack: Seq::empty(),
    }
}

} // verus!
