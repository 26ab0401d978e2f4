//! The pluggable hook interface: resolver overrides and content
//! transforms.
//!
//! A `PluginManager` holds any number of hooks of one plugin type; an empty
//! manager is the built-in behaviour, one registration is a single hook,
//! and several registrations chain, first match winning. Each hook method
//! is specified by a spec function of the implementing plugin, so a
//! manager's answers are functions of its plugins and inputs.

use vstd::prelude::*;

use crate::bytesutil::opt_view;

verus! {

/// A build plugin. Each hook may claim an input by returning `Some` or
/// decline it with `None`; the spec functions pin each hook's answer so
/// that builds with a fixed plugin set are deterministic.
pub trait Plugin: Sized {
    /// What `on_resolve` answers for a reference.
    spec fn resolve_spec(&self, file_path: Seq<u8>) -> Option<Seq<u8>>;

    /// What `on_load` answers for a file's content.
    spec fn load_spec(&self, file_path: Seq<u8>, content: Seq<u8>) -> Option<Seq<u8>>;

    /// What `on_transform` answers for a file's content.
    spec fn transform_spec(&self, file_path: Seq<u8>, content: Seq<u8>) -> Option<Seq<u8>>;

    /// Resolver override: maps an import reference to a resolved path, or
    /// declines.
    fn on_resolve(&self, file_path: &Vec<u8>) -> (r: Option<Vec<u8>>)
        ensures
            opt_view(r) == self.resolve_spec(file_path@),
    ;

    /// Load-time transform: replacement content for a file, or no change.
    fn on_load(&self, file_path: &Vec<u8>, content: &Vec<u8>) -> (r: Option<Vec<u8>>)
        ensures
            opt_view(r) == self.load_spec(file_path@, content@),
    ;

    /// Late transform: replacement content for a file, or no change.
    fn on_transform(&self, file_path: &Vec<u8>, content: &Vec<u8>) -> (r: Option<Vec<u8>>)
        ensures
            opt_view(r) == self.transform_spec(file_path@, content@),
    ;
}

/// A plugin that declines every hook: the built-in behaviour.
pub struct IdentityPlugin;

impl Plugin for IdentityPlugin {
    open spec fn resolve_spec(&self, file_path: Seq<u8>) -> Option<Seq<u8>> {
        None
    }

    open spec fn load_spec(&self, file_path: Seq<u8>, content: Seq<u8>) -> Option<Seq<u8>> {
        None
    }

    open spec fn transform_spec(&self, file_path: Seq<u8>, content: Seq<u8>) -> Option<Seq<u8>> {
        None
    }

    fn on_resolve(&self, file_path: &Vec<u8>) -> (r: Option<Vec<u8>>) {
        None
    }

    fn on_load(&self, file_path: &Vec<u8>, content: &Vec<u8>) -> (r: Option<Vec<u8>>) {
        None
    }

    fn on_transform(&self, file_path: &Vec<u8>, content: &Vec<u8>) -> (r: Option<Vec<u8>>) {
        None
    }
}

/// The answer of a chain of resolver hooks: the first `Some`, else `None`.
pub open spec fn chain_resolve<P: Plugin>(ps: Seq<P>, file_path: Seq<u8>) -> Option<Seq<u8>>
    decreases ps.len(),
{
    if ps.len() == 0 {
        None
    } else {
        match ps.first().resolve_spec(file_path) {
            Some(v) => Some(v),
            None => chain_resolve(ps.drop_first(), file_path),
        }
    }
}

/// The answer of a chain of load hooks: the first `Some`, else `None`.
pub open spec fn chain_load<P: Plugin>(ps: Seq<P>, file_path: Seq<u8>, content: Seq<u8>) -> Option<
    Seq<u8>,
>
    decreases ps.len(),
{
    if ps.len() == 0 {
        None
    } else {
        match ps.first().load_spec(file_path, content) {
            Some(v) => Some(v),
            None => chain_load(ps.drop_first(), file_path, content),
        }
    }
}

/// The answer of a chain of transform hooks: the first `Some`, else `None`.
pub open spec fn chain_transform<P: Plugin>(
    ps: Seq<P>,
    file_path: Seq<u8>,
    content: Seq<u8>,
) -> Option<Seq<u8>>
    decreases ps.len(),
{
    if ps.len() == 0 {
        None
    } else {
        match ps.first().transform_spec(file_path, content) {
            Some(v) => Some(v),
            None => chain_transform(ps.drop_first(), file_path, content),
        }
    }
}

/// An ordered collection of plugins, consulted first to last.
pub struct PluginManager<P: Plugin> {
    plugins: Vec<P>,
}

impl<P: Plugin> PluginManager<P> {
    /// The registered plugins, in registration order.
    pub closed spec fn model(self) -> Seq<P> {
        self.plugins@
    }

    /// Creates a manager with no plugins registered.
    pub fn new() -> (m: PluginManager<P>)
        ensures
            m.model() =~= Seq::<P>::empty(),
    {
        PluginManager { plugins: Vec::new() }
    }

    /// Registers a plugin after all previously registered ones.
    pub fn register(&mut self, plugin: P)
        ensures
            final(self).model() == old(self).model().push(plugin),
    {
        self.plugins.push(plugin);
    }

    /// Asks each plugin to resolve the reference; the first answer wins.
    pub fn resolve(&self, file_path: &Vec<u8>) -> (r: Option<Vec<u8>>)
        ensures
            opt_view(r) == chain_resolve(self.model(), file_path@),
    {
        let ghost ps = self.model();
        let mut i: usize = 0;
        proof {
            assert(ps.skip(0) =~= ps);
        }
        while i < self.plugins.len()
            invariant
                0 <= i <= ps.len(),
                chain_resolve(ps, file_path@) == chain_resolve(ps.skip(i as int), file_path@),
            decreases ps.len() - i,
        {
            proof {
                assert(ps.skip(i as int).first() == ps[i as int]);
                assert(ps.skip(i as int).drop_first() =~= ps.skip(i + 1));
            }
            let answer = self.plugins[i].on_resolve(file_path);
            if answer.is_some() {
                return answer;
            }
            i = i + 1;
        }
        proof {
            assert(ps.skip(ps.len() as int) =~= Seq::<P>::empty());
        }
        None
    }

    /// Asks each plugin for load-time replacement content; the first
    /// answer wins.
    pub fn load(&self, file_path: &Vec<u8>, content: &Vec<u8>) -> (r: Option<Vec<u8>>)
        ensures
            opt_view(r) == chain_load(self.model(), file_path@, content@),
    {
        let ghost ps = self.model();
        let mut i: usize = 0;
        proof {
            assert(ps.skip(0) =~= ps);
        }
        while i < self.plugins.len()
            invariant
                0 <= i <= ps.len(),
                chain_load(ps, file_path@, content@) == chain_load(
                    ps.skip(i as int),
                    file_path@,
                    content@,
                ),
            decreases ps.len() - i,
        {
            proof {
                assert(ps.skip(i as int).first() == ps[i as int]);
                assert(ps.skip(i as int).drop_first() =~= ps.skip(i + 1));
            }
            let answer = self.plugins[i].on_load(file_path, content);
            if answer.is_some() {
                return answer;
            }
            i = i + 1;
        }
        proof {
            assert(ps.skip(ps.len() as int) =~= Seq::<P>::empty());
        }
        None
    }

    /// Asks each plugin for a late transform; the first answer wins.
    pub fn transform(&self, file_path: &Vec<u8>, content: &Vec<u8>) -> (r: Option<Vec<u8>>)
        ensures
            opt_view(r) == chain_transform(self.model(), file_path@, content@),
    {
        let ghost ps = self.model();
        let mut i: usize = 0;
        proof {
            assert(ps.skip(0) =~= ps);
        }
        while i < self.plugins.len()
            invariant
                0 <= i <= ps.len(),
                chain_transform(ps, file_path@, content@) == chain_transform(
                    ps.skip(i as int),
                    file_path@,
                    content@,
                ),
            decreases ps.len() - i,
        {
            proof {
                assert(ps.skip(i as int).first() == ps[i as int]);
                assert(ps.skip(i as int).drop_first() =~= ps.skip(i + 1));
            }
            let answer = self.plugins[i].on_transform(file_path, content);
            if answer.is_some() {
                return answer;
            }
            i = i + 1;
        }
        proof {
            assert(ps.skip(ps.len() as int) =~= Seq::<P>::empty());
        }
        None
    }
}

} // verus!
