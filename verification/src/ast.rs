//! The shape of a parsed source unit, as the engine reads it: free functions,
//! type-implementation blocks and nested scopes, each function body reduced to
//! the ordered list of call expressions it holds.

use vstd::prelude::*;
use crate::text::clone_string;

verus! {

/// A call expression found inside a definition body, in source order.
pub enum CallSite {
    /// A direct call to a path of names, such as `f` or `a::b::f`.
    Direct { segments: Vec<String> },
    /// A call made through an instance receiver, such as `x.m()`.
    Method { name: String },
}

/// The mathematical value of a [`CallSite`].
pub enum CallSiteV {
    Direct { segments: Seq<Seq<char>> },
    Method { name: Seq<char> },
}

impl View for CallSite {
    type V = CallSiteV;

    open spec fn view(&self) -> CallSiteV {
        match self {
            CallSite::Direct { segments } => CallSiteV::Direct {
                segments: segments.deep_view(),
            },
            CallSite::Method { name } => CallSiteV::Method { name: name@ },
        }
    }
}

impl DeepView for CallSite {
    type V = CallSiteV;

    open spec fn deep_view(&self) -> CallSiteV {
        self.view()
    }
}

/// A function as it appears in a parsed unit: its simple name and the call
/// expressions of its body.
pub struct ParsedFn {
    pub name: String,
    pub calls: Vec<CallSite>,
}

/// The mathematical value of a [`ParsedFn`].
pub struct ParsedFnV {
    pub name: Seq<char>,
    pub calls: Seq<CallSiteV>,
}

impl View for ParsedFn {
    type V = ParsedFnV;

    open spec fn view(&self) -> ParsedFnV {
        ParsedFnV { name: self.name@, calls: self.calls.deep_view() }
    }
}

impl DeepView for ParsedFn {
    type V = ParsedFnV;

    open spec fn deep_view(&self) -> ParsedFnV {
        self.view()
    }
}

/// A type-implementation block: the implementing type's simple name and its
/// methods.
pub struct ParsedImpl {
    pub owner: String,
    pub methods: Vec<ParsedFn>,
}

/// The mathematical value of a [`ParsedImpl`].
pub struct ParsedImplV {
    pub owner: Seq<char>,
    pub methods: Seq<ParsedFnV>,
}

impl View for ParsedImpl {
    type V = ParsedImplV;

    open spec fn view(&self) -> ParsedImplV {
        ParsedImplV { owner: self.owner@, methods: self.methods.deep_view() }
    }
}

impl DeepView for ParsedImpl {
    type V = ParsedImplV;

    open spec fn deep_view(&self) -> ParsedImplV {
        self.view()
    }
}

/// A nested scope declared inline in a unit, with its own functions and
/// implementation blocks.
pub struct ParsedMod {
    pub name: String,
    pub fns: Vec<ParsedFn>,
    pub impls: Vec<ParsedImpl>,
}

/// The mathematical value of a [`ParsedMod`].
pub struct ParsedModV {
    pub name: Seq<char>,
    pub fns: Seq<ParsedFnV>,
    pub impls: Seq<ParsedImplV>,
}

impl View for ParsedMod {
    type V = ParsedModV;

    open spec fn view(&self) -> ParsedModV {
        ParsedModV {
            name: self.name@,
            fns: self.fns.deep_view(),
            impls: self.impls.deep_view(),
        }
    }
}

impl DeepView for ParsedMod {
    type V = ParsedModV;

    open spec fn deep_view(&self) -> ParsedModV {
        self.view()
    }
}

/// One parsed source file: its top-level functions, implementation blocks and
/// inline scopes.
pub struct ParsedFile {
    pub fns: Vec<ParsedFn>,
    pub impls: Vec<ParsedImpl>,
    pub mods: Vec<ParsedMod>,
}

/// The mathematical value of a [`ParsedFile`].
pub struct ParsedFileV {
    pub fns: Seq<ParsedFnV>,
    pub impls: Seq<ParsedImplV>,
    pub mods: Seq<ParsedModV>,
}

impl View for ParsedFile {
    type V = ParsedFileV;

    open spec fn view(&self) -> ParsedFileV {
        ParsedFileV {
            fns: self.fns.deep_view(),
            impls: self.impls.deep_view(),
            mods: self.mods.deep_view(),
        }
    }
}

/// A registered definition: its simple name, the lexical context it was
/// declared under, and the call expressions of its body.
pub struct FnDef {
    pub name: String,
    pub context: Vec<String>,
    pub calls: Vec<CallSite>,
}

/// The mathematical value of an [`FnDef`].
pub struct FnDefV {
    pub name: Seq<char>,
    pub context: Seq<Seq<char>>,
    pub calls: Seq<CallSiteV>,
}

impl View for FnDef {
    type V = FnDefV;

    open spec fn view(&self) -> FnDefV {
        FnDefV {
            name: self.name@,
            context: self.context.deep_view(),
            calls: self.calls.deep_view(),
        }
    }
}

impl DeepView for FnDef {
    type V = FnDefV;

    open spec fn deep_view(&self) -> FnDefV {
        self.view()
    }
}

/// A copy of a list of names with the same characters.
pub fn clone_vec_string(v: &Vec<String>) -> (r: Vec<String>)
    ensures
        r.deep_view() == v.deep_view(),
{
    let mut r: Vec<String> = Vec::new();
    let mut i: usize = 0;
    while i < v.len()
        invariant
            i <= v@.len(),
            r.deep_view() == v.deep_view().subrange(0, i as int),
        decreases v@.len() - i,
    {
        let ghost pre = r.deep_view();
        r.push(clone_string(&v[i]));
        proof {
            assert(r.deep_view() =~= pre.push(v.deep_view()[i as int]));
            assert(pre.push(v.deep_view()[i as int]) =~= v.deep_view().subrange(0, i + 1));
        }
        i = i + 1;
    }
    proof {
        assert(v.deep_view().subrange(0, v@.len() as int) =~= v.deep_view());
    }
    r
}

/// A copy of a call site with the same value.
pub fn clone_site(c: &CallSite) -> (r: CallSite)
    ensures
        r@ == c@,
{
    match c {
        CallSite::Direct { segments } => CallSite::Direct {
            segments: clone_vec_string(segments),
        },
        CallSite::Method { name } => CallSite::Method { name: clone_string(name) },
    }
}

/// A copy of a body's call sites with the same values.
pub fn clone_sites(v: &Vec<CallSite>) -> (r: Vec<CallSite>)
    ensures
        r.deep_view() == v.deep_view(),
{
    let mut r: Vec<CallSite> = Vec::new();
    let mut i: usize = 0;
    while i < v.len()
        invariant
            i <= v@.len(),
            r.deep_view() == v.deep_view().subrange(0, i as int),
        decreases v@.len() - i,
    {
        let ghost pre = r.deep_view();
        r.push(clone_site(&v[i]));
        proof {
            assert(r.deep_view() =~= pre.push(v.deep_view()[i as int]));
            assert(pre.push(v.deep_view()[i as int]) =~= v.deep_view().subrange(0, i + 1));
        }
        i = i + 1;
    }
    proof {
        assert(v.deep_view().subrange(0, v@.len() as int) =~= v.deep_view());
    }
    r
}

/// A copy of a registered definition with the same value.
pub fn clone_fn_def(d: &FnDef) -> (r: FnDef)
    ensures
        r@ == d@,
{
    FnDef {
        name: clone_string(&d.name),
        context: clone_vec_string(&d.context),
        calls: clone_sites(&d.calls),
    }
}

} // verus!
