//! Plugin selection: loaders that know which plugins they can load, a static
//! registry of built-in plugins, and the manager that asks each loader in
//! turn.
use vstd::hash_map::StringHashMap;
use vstd::prelude::*;

verus! {

/// Errors of plugin loading.
#[derive(Debug, Clone)]
pub enum PluginError {
    /// No loader knows a plugin of this name.
    NotFound(String),
    /// A loader failed to load the plugin.
    LoadError(String),
}

/// A source of plugins of type `P`, implemented by the plugin hosts.
pub trait PluginLoader<P> {
    /// Whether this loader can load the plugin named `name`.
    fn can_load(&self, name: &str) -> bool;

    /// Loads the plugin named `name`.
    fn load(&self, name: &str) -> Result<P, PluginError>;
}

/// Whether `loader`, asked whether it can load `name`, may answer `yes`.
pub open spec fn answers<P, L: PluginLoader<P>>(loader: L, name: &str, yes: bool) -> bool {
    call_ensures(L::can_load, (&loader, name), yes)
}

/// Whether `loader`, asked to load `name`, may give `r`.
pub open spec fn loads<P, L: PluginLoader<P>>(
    loader: L,
    name: &str,
    r: Result<P, PluginError>,
) -> bool {
    call_ensures(L::load, (&loader, name), r)
}

/// Whether every loader of `loaders`, asked about `name`, may answer no.
pub open spec fn none_answers<P, L: PluginLoader<P>>(loaders: Seq<L>, name: &str) -> bool {
    forall|j: int| 0 <= j < loaders.len() ==> answers::<P, L>(#[trigger] loaders[j], name, false)
}

/// Whether some loader of `loaders` may be the first to answer yes about
/// `name` and, asked to load it, may give `r`.
pub open spec fn chosen_loads<P, L: PluginLoader<P>>(
    loaders: Seq<L>,
    name: &str,
    r: Result<P, PluginError>,
) -> bool {
    exists|i: int|
        0 <= i < loaders.len() && answers::<P, L>(loaders[i], name, true) && (forall|j: int|
            0 <= j < i ==> answers::<P, L>(#[trigger] loaders[j], name, false)) && loads::<P, L>(
            loaders[i],
            name,
            r,
        )
}

/// Whether asking `loaders` in order for the plugin `name` may give `r`:
/// what the first loader that answers yes loads, or `NotFound` when none
/// does.
pub open spec fn may_get<P, L: PluginLoader<P>>(
    loaders: Seq<L>,
    name: &str,
    r: Result<P, PluginError>,
) -> bool {
    chosen_loads::<P, L>(loaders, name, r) || (none_answers::<P, L>(loaders, name) && (r matches Err(
        PluginError::NotFound(n),
    ) && n@ == name@))
}

/// Registering a loader after the others changes no answer for a plugin
/// that an earlier loader takes: a request gives what it gave before. For a
/// plugin that none of the earlier loaders takes, it gives what the new
/// loader loads when that one answers yes, and `NotFound` when it answers
/// no.
pub proof fn law_register_then_get<P, L: PluginLoader<P>>(
    loaders: Seq<L>,
    loader: L,
    name: &str,
    r: Result<P, PluginError>,
)
    ensures
        may_get::<P, L>(loaders.push(loader), name, r) <==> (chosen_loads::<P, L>(loaders, name, r)
            || (none_answers::<P, L>(loaders, name) && ((answers::<P, L>(loader, name, true)
            && loads::<P, L>(loader, name, r)) || (answers::<P, L>(loader, name, false) && (r matches Err(
            PluginError::NotFound(n),
        ) && n@ == name@))))),
{
    let all = loaders.push(loader);
    let n = loaders.len() as int;
    assert forall|j: int| 0 <= j < n implies #[trigger] all[j] == loaders[j] by {}
    assert(all[n] == loader);
    assert(none_answers::<P, L>(all, name) <==> (none_answers::<P, L>(loaders, name) && answers::<
        P,
        L,
    >(loader, name, false))) by {
        if none_answers::<P, L>(loaders, name) && answers::<P, L>(loader, name, false) {
            assert forall|j: int| 0 <= j < all.len() implies answers::<P, L>(
                #[trigger] all[j],
                name,
                false,
            ) by {
                if j < n {
                    assert(all[j] == loaders[j]);
                }
            }
        }
        if none_answers::<P, L>(all, name) {
            assert(answers::<P, L>(all[n], name, false));
            assert forall|j: int| 0 <= j < loaders.len() implies answers::<P, L>(
                #[trigger] loaders[j],
                name,
                false,
            ) by {
                assert(answers::<P, L>(all[j], name, false));
            }
        }
    }
    assert(chosen_loads::<P, L>(all, name, r) <==> (chosen_loads::<P, L>(loaders, name, r) || (
    none_answers::<P, L>(loaders, name) && answers::<P, L>(loader, name, true) && loads::<P, L>(
        loader,
        name,
        r,
    )))) by {
        if chosen_loads::<P, L>(all, name, r) {
            let i = choose|i: int|
                0 <= i < all.len() && answers::<P, L>(all[i], name, true) && (forall|j: int|
                    0 <= j < i ==> answers::<P, L>(#[trigger] all[j], name, false)) && loads::<
                    P,
                    L,
                >(all[i], name, r);
            if i < n {
                assert forall|j: int| 0 <= j < i implies answers::<P, L>(
                    #[trigger] loaders[j],
                    name,
                    false,
                ) by {
                    assert(answers::<P, L>(all[j], name, false));
                }
                assert(chosen_loads::<P, L>(loaders, name, r));
            } else {
                assert forall|j: int| 0 <= j < loaders.len() implies answers::<P, L>(
                    #[trigger] loaders[j],
                    name,
                    false,
                ) by {
                    assert(answers::<P, L>(all[j], name, false));
                }
            }
        }
        if chosen_loads::<P, L>(loaders, name, r) {
            let i = choose|i: int|
                0 <= i < loaders.len() && answers::<P, L>(loaders[i], name, true) && (forall|
                    j: int,
                | 0 <= j < i ==> answers::<P, L>(#[trigger] loaders[j], name, false)) && loads::<
                    P,
                    L,
                >(loaders[i], name, r);
            assert forall|j: int| 0 <= j < i implies answers::<P, L>(#[trigger] all[j], name, false) by {
                assert(answers::<P, L>(loaders[j], name, false));
            }
            assert(all[i] == loaders[i]);
        }
        if none_answers::<P, L>(loaders, name) && answers::<P, L>(loader, name, true) && loads::<
            P,
            L,
        >(loader, name, r) {
            assert forall|j: int| 0 <= j < n implies answers::<P, L>(#[trigger] all[j], name, false) by {
                assert(answers::<P, L>(loaders[j], name, false));
            }
        }
    }
}

/// A boxed loader asks the loader in the box.
impl<P, T: PluginLoader<P> + ?Sized> PluginLoader<P> for Box<T> {
    fn can_load(&self, name: &str) -> bool {
        (**self).can_load(name)
    }

    fn load(&self, name: &str) -> Result<P, PluginError> {
        (**self).load(name)
    }
}

/// Asks registered loaders of type `L`, in the order of registration, for
/// plugins of type `P`.
#[verifier::reject_recursive_types(P)]
#[verifier::reject_recursive_types(L)]
pub struct PluginManager<P, L: PluginLoader<P>> {
    loaders: Vec<L>,
    kind: std::marker::PhantomData<P>,
}

impl<P, L: PluginLoader<P>> PluginManager<P, L> {
    /// The registered loaders, in order.
    pub closed spec fn loaders(&self) -> Seq<L> {
        self.loaders@
    }

    /// A manager with no loaders.
    pub fn new() -> (m: Self)
        ensures
            m.loaders().len() == 0,
    {
        PluginManager { loaders: Vec::new(), kind: std::marker::PhantomData }
    }

    /// Registers `loader` after those registered before.
    pub fn register_loader(&mut self, loader: L)
        ensures
            final(self).loaders() == old(self).loaders().push(loader),
    {
        self.loaders.push(loader);
    }

    /// The first registered loader, in order of registration, whose
    /// `can_load` answers yes for `name`, if any; later loaders are not asked.
    pub fn select_loader(&self, name: &str) -> (r: Option<usize>)
        ensures
            match r {
                Some(i) => i < self.loaders().len() && answers(self.loaders()[i as int], name, true)
                    && forall|j: int|
                    0 <= j < i ==> answers(#[trigger] self.loaders()[j], name, false),
                None => forall|j: int|
                    0 <= j < self.loaders().len() ==> answers(
                        #[trigger] self.loaders()[j],
                        name,
                        false,
                    ),
            },
    {
        let mut i: usize = 0;
        while i < self.loaders.len()
            invariant
                i <= self.loaders@.len(),
                forall|j: int| 0 <= j < i ==> answers(#[trigger] self.loaders@[j], name, false),
            decreases self.loaders@.len() - i,
        {
            let yes = self.loaders[i].can_load(name);
            assert(answers(self.loaders@[i as int], name, yes));
            if yes {
                return Some(i);
            }
            i = i + 1;
        }
        None
    }

    /// Loads the plugin named `name` with the first registered loader that
    /// can load it; `NotFound` when none can.
    pub fn get_plugin(&self, name: &str) -> (r: Result<P, PluginError>)
        ensures
            may_get::<P, L>(self.loaders(), name, r),
    {
        match self.select_loader(name) {
            Some(i) => {
                let r = self.loaders[i].load(name);
                assert(loads(self.loaders@[i as int], name, r));
                r
            },
            None => Err(PluginError::NotFound(name.to_owned())),
        }
    }
}

/// A registry of plugins known by name.
#[verifier::reject_recursive_types(P)]
pub struct StaticPluginLoader<P> {
    plugins: StringHashMap<P>,
}

impl<P: Clone> StaticPluginLoader<P> {
    /// The registered plugins, by name.
    pub closed spec fn plugins(&self) -> Map<Seq<char>, P> {
        self.plugins@
    }

    /// A registry holding the built-in key-value plugin under the names `kv`
    /// and `simple`.
    pub fn new(builtin_kv: P) -> (l: Self)
        ensures
            l.plugins().dom() == set![seq!['k', 'v'], seq!['s', 'i', 'm', 'p', 'l', 'e']],
            cloned(builtin_kv, l.plugins()[seq!['k', 'v']]),
            l.plugins()[seq!['s', 'i', 'm', 'p', 'l', 'e']] == builtin_kv,
    {
        let mut plugins: StringHashMap<P> = StringHashMap::new();
        proof {
            reveal_strlit("kv");
            reveal_strlit("simple");
        }
        let kv = "kv".to_owned();
        assert(kv@ == seq!['k', 'v']);
        let copy = builtin_kv.clone();
        assert(cloned(builtin_kv, copy));
        plugins.insert(kv, copy);
        let simple = "simple".to_owned();
        assert(simple@ == seq!['s', 'i', 'm', 'p', 'l', 'e']);
        plugins.insert(simple, builtin_kv);
        assert(plugins@.dom() =~= set![seq!['k', 'v'], seq!['s', 'i', 'm', 'p', 'l', 'e']]);
        StaticPluginLoader { plugins }
    }

    /// Registers `plugin` under `name`, replacing what was registered there.
    pub fn register(&mut self, name: &str, plugin: P)
        ensures
            final(self).plugins() == old(self).plugins().insert(name@, plugin),
    {
        self.plugins.insert(name.to_owned(), plugin);
    }
}

impl<P: Clone> PluginLoader<P> for StaticPluginLoader<P> {
    /// Whether a plugin is registered under `name`.
    fn can_load(&self, name: &str) -> (r: bool)
        ensures
            r == self.plugins().contains_key(name@),
    {
        self.plugins.contains_key(name)
    }

    /// A copy of the plugin registered under `name`, or `NotFound`.
    fn load(&self, name: &str) -> (r: Result<P, PluginError>)
        ensures
            self.plugins().contains_key(name@) ==> (r matches Ok(p) && cloned(self.plugins()[name@], p)),
            !self.plugins().contains_key(name@) ==> (r matches Err(PluginError::NotFound(n)) && n@ == name@),
    {
        match self.plugins.get(name) {
            Some(p) => Ok(p.clone()),
            None => Err(PluginError::NotFound(name.to_owned())),
        }
    }
}

} // verus!
