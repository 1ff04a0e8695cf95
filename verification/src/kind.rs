//! Which platform a unit is compiled for, and what is known of each
//! platform.

use vstd::prelude::*;
use crate::error::{ConfigurationError, PlanError};
use crate::feature::Symbol;
use crate::symbols::{spec_intern_name, SymbolTable};
use crate::target::BuildTarget;

verus! {

/// The platform a unit is compiled for: the machine that drives the build,
/// or a platform named by its triple (which may be that machine's own).
///
/// `Host` is a request. A unit that has been planned always carries
/// `Target`, with the host's triple where the host was meant.
#[derive(Clone, Copy, Debug, PartialEq, Eq, Structural, Hash)]
pub enum CompileKind {
    Host,
    Target(Symbol),
}

impl CompileKind {
    pub open spec fn spec_is_host(&self) -> bool {
        *self == CompileKind::Host
    }

    #[verifier::when_used_as_spec(spec_is_host)]
    pub fn is_host(&self) -> (r: bool)
        ensures
            r == self.spec_is_host(),
    {
        match self {
            CompileKind::Host => true,
            CompileKind::Target(_) => false,
        }
    }

    pub open spec fn spec_for_target(self, target: &BuildTarget) -> CompileKind {
        match self {
            CompileKind::Host => CompileKind::Host,
            CompileKind::Target(t) => if target.for_host {
                CompileKind::Host
            } else {
                CompileKind::Target(t)
            },
        }
    }

    /// The kind that `target` is compiled for where this kind was asked
    /// for: a target that must run on the host is lifted to `Host`.
    #[verifier::when_used_as_spec(spec_for_target)]
    pub fn for_target(self, target: &BuildTarget) -> (r: CompileKind)
        ensures
            r == self.spec_for_target(target),
    {
        match self {
            CompileKind::Host => CompileKind::Host,
            CompileKind::Target(t) => if target.for_host {
                CompileKind::Host
            } else {
                CompileKind::Target(t)
            },
        }
    }

    /// The triple this kind stands for on a machine whose triple is `host`.
    pub open spec fn triple(self, host: Symbol) -> Symbol {
        match self {
            CompileKind::Host => host,
            CompileKind::Target(t) => t,
        }
    }
}

/// Flags handed to the compiler and to the documentation tool for one
/// platform.
#[derive(Debug)]
pub struct TargetInfo {
    pub compiler_flags: Vec<Symbol>,
    pub doc_flags: Vec<Symbol>,
}

/// Per-platform settings: the native libraries whose build script is
/// replaced by configured output.
#[derive(Debug)]
pub struct TargetConfig {
    pub link_overrides: Vec<Symbol>,
}

/// What is known of one installed platform.
#[derive(Debug)]
pub struct Platform {
    pub triple: Symbol,
    pub info: TargetInfo,
    pub config: TargetConfig,
}

/// The first platform in `platforms` with the given triple.
pub open spec fn spec_find_platform(platforms: Seq<Platform>, triple: Symbol) -> Option<int>
    decreases platforms.len(),
{
    if platforms.len() == 0 {
        None
    } else if platforms[0].triple == triple {
        Some(0int)
    } else {
        match spec_find_platform(platforms.skip(1), triple) {
            Some(i) => Some(i + 1),
            None => None,
        }
    }
}

/// [`spec_find_platform`] finds the least index that holds the triple, and
/// finds none only where no index holds it.
pub proof fn lemma_find_platform(platforms: Seq<Platform>, triple: Symbol)
    ensures
        match spec_find_platform(platforms, triple) {
            Some(i) => 0 <= i < platforms.len() && platforms[i].triple == triple && forall|
                k: int,
            | 0 <= k < i ==> platforms[k].triple != triple,
            None => forall|k: int| 0 <= k < platforms.len() ==> platforms[k].triple != triple,
        },
    decreases platforms.len(),
{
    if platforms.len() == 0 {
    } else if platforms[0].triple == triple {
    } else {
        let rest = platforms.skip(1);
        lemma_find_platform(rest, triple);
        match spec_find_platform(rest, triple) {
            Some(i) => {
                assert(rest[i] == platforms[i + 1]);
                assert forall|k: int| 0 <= k < i + 1 implies platforms[k].triple != triple by {
                    if k > 0 {
                        assert(rest[k - 1] == platforms[k]);
                    }
                }
            },
            None => {
                assert forall|k: int| 0 <= k < platforms.len() implies platforms[k].triple
                    != triple by {
                    if k > 0 {
                        assert(rest[k - 1] == platforms[k]);
                    }
                }
            },
        }
    }
}

/// The first of `kinds` whose triple no platform in `platforms` has.
pub open spec fn spec_first_unrecognized(
    platforms: Seq<Platform>,
    host: Symbol,
    kinds: Seq<CompileKind>,
) -> Option<Symbol>
    decreases kinds.len(),
{
    if kinds.len() == 0 {
        None
    } else if spec_find_platform(platforms, kinds[0].triple(host)) is None {
        Some(kinds[0].triple(host))
    } else {
        spec_first_unrecognized(platforms, host, kinds.skip(1))
    }
}

/// Where [`spec_first_unrecognized`] finds nothing, every kind is known.
pub proof fn lemma_all_recognized(platforms: Seq<Platform>, host: Symbol, kinds: Seq<CompileKind>)
    requires
        spec_first_unrecognized(platforms, host, kinds) is None,
    ensures
        forall|i: int|
            0 <= i < kinds.len() ==> spec_find_platform(
                platforms,
                (#[trigger] kinds[i]).triple(host),
            ) is Some,
    decreases kinds.len(),
{
    if kinds.len() > 0 {
        let rest = kinds.skip(1);
        lemma_all_recognized(platforms, host, rest);
        assert forall|i: int| 0 <= i < kinds.len() implies spec_find_platform(
            platforms,
            (#[trigger] kinds[i]).triple(host),
        ) is Some by {
            if i > 0 {
                assert(rest[i - 1] == kinds[i]);
            }
        }
    }
}

/// The platform descriptor: the host's triple and what is known of each
/// installed platform. Nothing in it changes once it is made.
#[derive(Debug)]
pub struct TargetData {
    host: Symbol,
    platforms: Vec<Platform>,
}

impl TargetData {
    /// The triple of the machine that drives the build.
    pub closed spec fn host_triple(&self) -> Symbol {
        self.host
    }

    /// The installed platforms, as they were given.
    pub closed spec fn platforms(&self) -> Seq<Platform> {
        self.platforms@
    }

    /// The host itself is an installed platform.
    pub open spec fn wf(&self) -> bool {
        spec_find_platform(self.platforms(), self.host_triple()) is Some
    }

    /// The triple that `kind` stands for.
    pub open spec fn triple_of(&self, kind: CompileKind) -> Symbol {
        kind.triple(self.host_triple())
    }

    /// `kind` with the host's triple written out.
    pub open spec fn spec_resolve(&self, kind: CompileKind) -> CompileKind {
        CompileKind::Target(self.triple_of(kind))
    }

    /// The platform that `kind` stands for is installed.
    pub open spec fn knows(&self, kind: CompileKind) -> bool {
        spec_find_platform(self.platforms(), self.triple_of(kind)) is Some
    }

    /// The platform that `kind` stands for.
    pub open spec fn platform_of(&self, kind: CompileKind) -> Platform
        recommends
            self.knows(kind),
    {
        self.platforms()[spec_find_platform(self.platforms(), self.triple_of(kind)).unwrap()]
    }

    /// Makes the descriptor for a build that was asked to cover
    /// `requested`. Fails where the host, or a platform asked for, is not
    /// among `platforms`; the error names the first such triple, the host's
    /// before any other.
    pub fn new(host: Symbol, platforms: Vec<Platform>, requested: &[CompileKind]) -> (r: Result<
        TargetData,
        PlanError,
    >)
        ensures
            match r {
                Ok(d) => {
                    &&& d.wf()
                    &&& d.host_triple() == host
                    &&& d.platforms() == platforms@
                    &&& forall|i: int| 0 <= i < requested@.len() ==> d.knows(#[trigger] requested@[i])
                    &&& spec_first_unrecognized(
                        platforms@,
                        host,
                        seq![CompileKind::Host] + requested@,
                    ) is None
                },
                Err(e) => {
                    &&& spec_first_unrecognized(
                        platforms@,
                        host,
                        seq![CompileKind::Host] + requested@,
                    ) matches Some(t)
                    &&& e == PlanError::Configuration(
                        ConfigurationError::UnrecognizedTriple { triple: t },
                    )
                },
            },
    {
        let d = TargetData { host, platforms };
        let ghost all = seq![CompileKind::Host] + requested@;
        assert(all.skip(1) =~= requested@);
        if d.find(host).is_none() {
            return Err(
                PlanError::Configuration(ConfigurationError::UnrecognizedTriple { triple: host }),
            );
        }
        let n = requested.len();
        let mut i: usize = 0;
        assert(requested@.skip(0) =~= requested@);
        assert(all[0].triple(host) == host);
        while i < n
            invariant
                n == requested@.len(),
                i <= n,
                d.host == host,
                d.platforms@ == platforms@,
                spec_first_unrecognized(platforms@, host, seq![CompileKind::Host] + requested@)
                    == spec_first_unrecognized(platforms@, host, requested@.skip(i as int)),
                spec_first_unrecognized(platforms@, host, requested@) == spec_first_unrecognized(
                    platforms@,
                    host,
                    requested@.skip(i as int),
                ),
            decreases n - i,
        {
            let t = d.resolve_triple(requested[i]);
            assert(requested@.skip(i as int)[0] == requested@[i as int]);
            if d.find(t).is_none() {
                return Err(
                    PlanError::Configuration(ConfigurationError::UnrecognizedTriple { triple: t }),
                );
            }
            assert(requested@.skip(i as int).skip(1) =~= requested@.skip(i + 1));
            i = i + 1;
        }
        proof {
            lemma_all_recognized(platforms@, host, requested@);
        }
        Ok(d)
    }

    fn find(&self, triple: Symbol) -> (r: Option<usize>)
        ensures
            match r {
                Some(i) => spec_find_platform(self.platforms(), triple) == Some(i as int) && i
                    < self.platforms().len(),
                None => spec_find_platform(self.platforms(), triple) is None,
            },
    {
        let n = self.platforms.len();
        let mut i: usize = 0;
        assert(self.platforms@.skip(0) =~= self.platforms@);
        while i < n
            invariant
                n == self.platforms@.len(),
                i <= n,
                match spec_find_platform(self.platforms@.skip(i as int), triple) {
                    Some(k) => spec_find_platform(self.platforms@, triple) == Some(k + i),
                    None => spec_find_platform(self.platforms@, triple) is None,
                },
            decreases n - i,
        {
            assert(self.platforms@.skip(i as int)[0] == self.platforms@[i as int]);
            if self.platforms[i].triple.id == triple.id {
                return Some(i);
            }
            assert(self.platforms@.skip(i as int).skip(1) =~= self.platforms@.skip(i + 1));
            i = i + 1;
        }
        None
    }

    /// The triple that `kind` stands for.
    pub fn resolve_triple(&self, kind: CompileKind) -> (t: Symbol)
        ensures
            t == self.triple_of(kind),
    {
        match kind {
            CompileKind::Host => self.host,
            CompileKind::Target(t) => t,
        }
    }

    /// The triple of the machine that drives the build.
    pub fn host(&self) -> (t: Symbol)
        ensures
            t == self.host_triple(),
    {
        self.host
    }

    /// The host's platform, by its triple.
    pub fn explicit_host_kind(&self) -> (k: CompileKind)
        ensures
            k == CompileKind::Target(self.host_triple()),
    {
        CompileKind::Target(self.host)
    }

    /// `kind` with the host's triple written out.
    #[verifier::when_used_as_spec(spec_resolve)]
    pub fn resolve(&self, kind: CompileKind) -> (k: CompileKind)
        ensures
            k == self.spec_resolve(kind),
    {
        CompileKind::Target(self.resolve_triple(kind))
    }

    /// Whether the platform that `kind` stands for is installed.
    pub fn is_known(&self, kind: CompileKind) -> (r: bool)
        ensures
            r == self.knows(kind),
    {
        let t = self.resolve_triple(kind);
        self.find(t).is_some()
    }

    /// The compiler and documentation flags for `kind`; `None` where the
    /// platform is not installed.
    pub fn info(&self, kind: CompileKind) -> (r: Option<&TargetInfo>)
        ensures
            match r {
                Some(info) => self.knows(kind) && *info == self.platform_of(kind).info,
                None => !self.knows(kind),
            },
    {
        let t = self.resolve_triple(kind);
        match self.find(t) {
            Some(i) => Some(&self.platforms[i].info),
            None => None,
        }
    }

    /// The per-platform settings for `kind`; `None` where the platform is
    /// not installed.
    pub fn target_config(&self, kind: CompileKind) -> (r: Option<&TargetConfig>)
        ensures
            match r {
                Some(config) => self.knows(kind) && *config == self.platform_of(kind).config,
                None => !self.knows(kind),
            },
    {
        let t = self.resolve_triple(kind);
        match self.find(t) {
            Some(i) => Some(&self.platforms[i].config),
            None => None,
        }
    }
}

/// The five characters `.json` stand in `name` from place `i` on.
pub open spec fn json_at(name: Seq<char>, i: int) -> bool {
    &&& name[i] == '.'
    &&& name[i + 1] == 'j'
    &&& name[i + 2] == 's'
    &&& name[i + 3] == 'o'
    &&& name[i + 4] == 'n'
}

/// `name` holds `.json` somewhere: it may name a file that describes a
/// platform, which is read from disk, and not a platform by its triple.
pub open spec fn names_target_file(name: Seq<char>) -> bool {
    exists|i: int| 0 <= i && i + 5 <= name.len() && #[trigger] json_at(name, i)
}

/// Whether `name` holds `.json` somewhere.
pub fn holds_json(name: &str) -> (r: bool)
    ensures
        r == names_target_file(name@),
{
    let n = name.unicode_len();
    if n < 5 {
        return false;
    }
    let mut i: usize = 0;
    while i <= n - 5
        invariant
            n == name@.len(),
            5 <= n,
            i <= n - 4,
            forall|k: int| 0 <= k < i ==> !json_at(name@, k),
        decreases n - i,
    {
        if name.get_char(i) == '.' && name.get_char(i + 1) == 'j' && name.get_char(i + 2) == 's'
            && name.get_char(i + 3) == 'o' && name.get_char(i + 4) == 'n' {
            assert(json_at(name@, i as int));
            return true;
        }
        i = i + 1;
    }
    false
}

/// The name under which the build driver knows the platform that `name`
/// asks for; `None` where it refuses `name`.
pub uninterp spec fn cargo_target_name(name: Seq<char>) -> Option<Seq<char>>;

/// Asks `cargo::core::compiler::CompileTarget::new` what platform `name`
/// names, and takes the name that `rustc_target` gives for it.
///
/// Believed without proof: what comes back depends on `name` alone. For a
/// name that does not end in `.json`, `CompileTarget::new` reads no file:
/// it strips the white space around the name, refuses what is then empty,
/// and keeps the rest as it is. A name that holds `.json` nowhere cannot
/// end in it once stripped, so such names are all that is let in.
#[verifier::external_body]
fn compile_target_name(name: &str) -> (r: Option<String>)
    requires
        !names_target_file(name@),
    ensures
        match r {
            Some(known) => cargo_target_name(name@) == Some(known@),
            None => cargo_target_name(name@) is None,
        },
{
    match cargo::core::compiler::CompileTarget::new(name) {
        Ok(target) => Some(target.rustc_target().to_string()),
        Err(_) => None,
    }
}

/// What comes of a platform name once the build driver has been asked
/// about it: the platform under the symbol of the name it is known by, or
/// the refusal.
pub open spec fn spec_kind_of_answer(known: Seq<Seq<char>>, answer: Option<Seq<char>>) -> (
    Result<CompileKind, PlanError>,
    Seq<Seq<char>>,
) {
    match answer {
        Some(name) => {
            let (after, id) = spec_intern_name(known, name);
            (Ok(CompileKind::Target(Symbol { id: id as u64 })), after)
        },
        None => (Err(PlanError::Configuration(ConfigurationError::InvalidTripleName)), known),
    }
}

/// The platform that the build driver knows by the name `answer`, with
/// the name interned in `names`; a configuration error where the driver
/// refused and `answer` is `None`.
pub fn kind_of_answer(names: &mut SymbolTable, answer: Option<String>) -> (r: Result<
    CompileKind,
    PlanError,
>)
    requires
        old(names).wf(),
    ensures
        final(names).wf(),
        (r, final(names)@) == spec_kind_of_answer(
            old(names)@,
            match answer {
                Some(name) => Some(name@),
                None => None,
            },
        ),
{
    match answer {
        Some(name) => {
            let symbol = names.intern(name);
            Ok(CompileKind::Target(symbol))
        },
        None => Err(PlanError::Configuration(ConfigurationError::InvalidTripleName)),
    }
}

/// The platform named `name`, as the build driver knows it, with its name
/// interned in `names`.
///
/// Fails, and leaves `names` as it was, where `name` holds `.json` and so
/// may name a file, and where the build driver refuses the name.
pub fn target_kind(names: &mut SymbolTable, name: &str) -> (r: Result<CompileKind, PlanError>)
    requires
        old(names).wf(),
    ensures
        final(names).wf(),
        (r, final(names)@) == if names_target_file(name@) {
            (Err(PlanError::Configuration(ConfigurationError::TargetFile)), old(names)@)
        } else {
            spec_kind_of_answer(old(names)@, cargo_target_name(name@))
        },
{
    if holds_json(name) {
        return Err(PlanError::Configuration(ConfigurationError::TargetFile));
    }
    let answer = compile_target_name(name);
    kind_of_answer(names, answer)
}

} // verus!
