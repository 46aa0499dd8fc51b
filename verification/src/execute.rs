//! Tag resolution and the bookkeeping of one command run: a resolved,
//! deduplicated path set, and per-path results collected into input order
//! whatever the completion order was.

use crate::configmodels::ConfigFile;
use crate::configmodels::Tag;
use crate::configmodels::lemma_missing_tag_has_no_paths;
use crate::configmodels::paths_of_entries;
use vstd::pervasive::VecAdditionalExecFns;
use vstd::prelude::*;

verus! {

// ---------------------------------------------------------------------------
// Tag resolution
// ---------------------------------------------------------------------------
/// `acc` extended by the paths of one tag, skipping every path already
/// present, in stored order.
pub open spec fn dedup_append(acc: Seq<Seq<char>>, paths: Seq<Seq<char>>) -> Seq<Seq<char>>
    decreases paths.len(),
{
    if paths.len() == 0 {
        acc
    } else if acc.contains(paths[0]) {
        dedup_append(acc, paths.drop_first())
    } else {
        dedup_append(acc.push(paths[0]), paths.drop_first())
    }
}

/// The resolved path set grown from `acc` by the requested tags, taken in
/// request order; each tag contributes its stored paths in stored order,
/// already-present paths skipped.
pub open spec fn resolve_from(
    acc: Seq<Seq<char>>,
    tags: Seq<Seq<char>>,
    config: &ConfigFile,
) -> Seq<Seq<char>>
    decreases tags.len(),
{
    if tags.len() == 0 {
        acc
    } else {
        resolve_from(dedup_append(acc, config.spec_paths_of(tags[0])), tags.drop_first(), config)
    }
}

/// The path set that a request resolves to: first-seen tag order, then
/// first-seen path order within the tag, without duplicates.
pub open spec fn resolve_spec(tags: Seq<Seq<char>>, config: &ConfigFile) -> Seq<Seq<char>> {
    resolve_from(Seq::empty(), tags, config)
}

/// Whether a vector of strings holds one with this view.
fn contains_string(v: &Vec<String>, s: &String) -> (b: bool)
    ensures
        b == v.deep_view().contains(s@),
{
    let mut i: usize = 0;
    while i < v.len()
        invariant
            i <= v.len(),
            forall|k: int| 0 <= k < i ==> v.deep_view()[k] != s@,
        decreases v.len() - i,
    {
        if v[i].eq(s) {
            assert(v.deep_view()[i as int] == s@);
            return true;
        }
        i = i + 1;
    }
    false
}

/// The stored tag of this name, or `None` when the store has no such tag.
fn find_tag<'a>(config: &'a ConfigFile, name: &String) -> (r: Option<&'a Tag>)
    ensures
        match r {
            Some(t) => t.spec_paths() == config.spec_paths_of(name@),
            None => config.spec_paths_of(name@) == Seq::<Seq<char>>::empty(),
        },
{
    let mut i: usize = 0;
    proof {
        assert(config.tags@.skip(0) =~= config.tags@);
    }
    while i < config.tags.len()
        invariant
            i <= config.tags.len(),
            paths_of_entries(config.tags@.skip(i as int), name@) == config.spec_paths_of(name@),
        decreases config.tags.len() - i,
    {
        if config.tags[i].0.eq(name) {
            proof {
                assert(config.tags@.skip(i as int)[0] == config.tags@[i as int]);
            }
            return Some(&config.tags[i].1);
        }
        proof {
            assert(config.tags@.skip(i as int).drop_first() =~= config.tags@.skip(i + 1));
        }
        i = i + 1;
    }
    proof {
        assert(config.tags@.skip(config.tags.len() as int) =~= Seq::<(String, Tag)>::empty());
    }
    None
}

/// Resolves the requested tag names against the configuration snapshot:
/// the result holds, without duplicates, every path stored under any
/// requested tag, in first-seen tag order and then first-seen path order;
/// a name the store does not know contributes nothing, and is no error.
pub fn resolve(tags: &Vec<String>, config: &ConfigFile) -> (r: Vec<String>)
    ensures
        r.deep_view() == resolve_spec(tags.deep_view(), config),
        r.deep_view().no_duplicates(),
{
    let mut result: Vec<String> = Vec::new();
    let mut i: usize = 0;
    proof {
        assert(result.deep_view() =~= Seq::<Seq<char>>::empty());
        assert(tags.deep_view().skip(0) =~= tags.deep_view());
    }
    while i < tags.len()
        invariant
            i <= tags.len(),
            resolve_from(result.deep_view(), tags.deep_view().skip(i as int), config)
                == resolve_spec(tags.deep_view(), config),
            result.deep_view().no_duplicates(),
        decreases tags.len() - i,
    {
        let ghost pre = result.deep_view();
        let ghost rest = tags.deep_view().skip(i as int);
        match find_tag(config, &tags[i]) {
            Some(tag) => {
                let ghost tag_paths = tag.spec_paths();
                let mut j: usize = 0;
                proof {
                    assert(tag_paths.skip(0) =~= tag_paths);
                }
                while j < tag.paths.len()
                    invariant
                        j <= tag.paths.len(),
                        tag.spec_paths() == tag_paths,
                        dedup_append(result.deep_view(), tag_paths.skip(j as int))
                            == dedup_append(pre, tag_paths),
                        result.deep_view().no_duplicates(),
                    decreases tag.paths.len() - j,
                {
                    let ghost before = result.deep_view();
                    let ghost ps = tag_paths.skip(j as int);
                    proof {
                        assert(ps[0] == tag_paths[j as int]);
                        assert(ps.drop_first() =~= tag_paths.skip(j + 1));
                        assert(tag_paths[j as int] == tag.paths@[j as int]@);
                    }
                    if !contains_string(&result, &tag.paths[j]) {
                        result.push(tag.paths[j].clone());
                        proof {
                            assert(result.deep_view() =~= before.push(tag_paths[j as int]));
                            assert forall|a: int, b: int|
                                0 <= a < b < result.deep_view().len() implies result.deep_view()[a]
                                != result.deep_view()[b] by {
                                if b < before.len() {
                                } else {
                                    assert(result.deep_view()[b] == tag_paths[j as int]);
                                    assert(before[a] == result.deep_view()[a]);
                                    if before.contains(result.deep_view()[a]) {
                                    }
                                }
                            }
                            assert(result.deep_view().no_duplicates());
                        }
                    }
                    j = j + 1;
                }
                proof {
                    assert(tag_paths.skip(tag.paths.len() as int) =~= Seq::<Seq<char>>::empty());
                    assert(dedup_append(result.deep_view(), Seq::<Seq<char>>::empty())
                        == result.deep_view());
                }
            },
            None => {
                proof {
                    assert(dedup_append(pre, config.spec_paths_of(tags.deep_view()[i as int]))
                        == pre);
                }
            },
        }
        proof {
            assert(rest[0] == tags.deep_view()[i as int]);
            assert(rest.drop_first() =~= tags.deep_view().skip(i + 1));
        }
        i = i + 1;
    }
    proof {
        assert(tags.deep_view().skip(tags.len() as int) =~= Seq::<Seq<char>>::empty());
    }
    result
}

// ---------------------------------------------------------------------------
// Laws of tag resolution
// ---------------------------------------------------------------------------
proof fn lemma_contains_split<T>(s: Seq<T>, x: T)
    requires
        s.len() > 0,
    ensures
        s.contains(x) <==> (s[0] == x || s.drop_first().contains(x)),
{
    if s.contains(x) {
        let i = choose|i: int| 0 <= i < s.len() && s[i] == x;
        if i > 0 {
            assert(s.drop_first()[i - 1] == x);
        }
    }
    if s.drop_first().contains(x) {
        let i = choose|i: int| 0 <= i < s.drop_first().len() && s.drop_first()[i] == x;
        assert(s[i + 1] == x);
    }
}

proof fn lemma_contains_push<T>(s: Seq<T>, p: T, x: T)
    ensures
        s.push(p).contains(x) <==> (s.contains(x) || p == x),
{
    if s.contains(x) {
        let i = choose|i: int| 0 <= i < s.len() && s[i] == x;
        assert(s.push(p)[i] == x);
    }
    assert(s.push(p)[s.len() as int] == p);
    if s.push(p).contains(x) {
        let i = choose|i: int| 0 <= i < s.push(p).len() && s.push(p)[i] == x;
        if i < s.len() {
            assert(s[i] == x);
        }
    }
}

proof fn lemma_dedup_append_membership(acc: Seq<Seq<char>>, paths: Seq<Seq<char>>, x: Seq<char>)
    ensures
        dedup_append(acc, paths).contains(x) <==> (acc.contains(x) || paths.contains(x)),
    decreases paths.len(),
{
    if paths.len() == 0 {
    } else {
        lemma_contains_split(paths, x);
        if acc.contains(paths[0]) {
            lemma_dedup_append_membership(acc, paths.drop_first(), x);
        } else {
            lemma_contains_push(acc, paths[0], x);
            lemma_dedup_append_membership(acc.push(paths[0]), paths.drop_first(), x);
        }
    }
}

proof fn lemma_resolve_from_membership(
    acc: Seq<Seq<char>>,
    tags: Seq<Seq<char>>,
    config: &ConfigFile,
    x: Seq<char>,
)
    ensures
        resolve_from(acc, tags, config).contains(x) <==> (acc.contains(x) || exists|i: int|
            0 <= i < tags.len() && #[trigger] config.spec_paths_of(tags[i]).contains(x)),
    decreases tags.len(),
{
    if tags.len() == 0 {
    } else {
        let acc1 = dedup_append(acc, config.spec_paths_of(tags[0]));
        lemma_dedup_append_membership(acc, config.spec_paths_of(tags[0]), x);
        lemma_resolve_from_membership(acc1, tags.drop_first(), config, x);
        let rest = tags.drop_first();
        if exists|i: int| 0 <= i < rest.len() && #[trigger] config.spec_paths_of(
            rest[i],
        ).contains(x) {
            let i = choose|i: int|
                0 <= i < rest.len() && #[trigger] config.spec_paths_of(rest[i]).contains(x);
            assert(tags[i + 1] == rest[i]);
        }
        if exists|i: int| 0 <= i < tags.len() && #[trigger] config.spec_paths_of(
            tags[i],
        ).contains(x) {
            let i = choose|i: int|
                0 <= i < tags.len() && #[trigger] config.spec_paths_of(tags[i]).contains(x);
            if i > 0 {
                assert(rest[i - 1] == tags[i]);
            }
        }
    }
}

/// Resolution deduplicates across overlapping tags: the resolved set holds
/// a path exactly when some requested tag stores it; with the resolver's
/// `no_duplicates` guarantee, it holds it exactly once.
pub proof fn lemma_resolve_deduplicates(tags: Seq<Seq<char>>, config: &ConfigFile)
    ensures
        forall|x: Seq<char>|
            #[trigger] resolve_spec(tags, config).contains(x) <==> (exists|i: int|
                0 <= i < tags.len() && #[trigger] config.spec_paths_of(tags[i]).contains(x)),
{
    assert forall|x: Seq<char>|
        #[trigger] resolve_spec(tags, config).contains(x) <==> (exists|i: int|
            0 <= i < tags.len() && #[trigger] config.spec_paths_of(tags[i]).contains(x)) by {
        lemma_resolve_from_membership(Seq::empty(), tags, config, x);
    }
}

proof fn lemma_resolve_from_concat(
    acc: Seq<Seq<char>>,
    t1: Seq<Seq<char>>,
    t2: Seq<Seq<char>>,
    config: &ConfigFile,
)
    ensures
        resolve_from(acc, t1 + t2, config) == resolve_from(
            resolve_from(acc, t1, config),
            t2,
            config,
        ),
    decreases t1.len(),
{
    if t1.len() == 0 {
        assert(t1 + t2 =~= t2);
    } else {
        assert((t1 + t2)[0] == t1[0]);
        assert((t1 + t2).drop_first() =~= t1.drop_first() + t2);
        lemma_resolve_from_concat(
            dedup_append(acc, config.spec_paths_of(t1[0])),
            t1.drop_first(),
            t2,
            config,
        );
    }
}

proof fn lemma_dedup_append_subsumed(acc: Seq<Seq<char>>, paths: Seq<Seq<char>>)
    requires
        forall|x: Seq<char>| #[trigger] paths.contains(x) ==> acc.contains(x),
    ensures
        dedup_append(acc, paths) == acc,
    decreases paths.len(),
{
    if paths.len() > 0 {
        assert(paths.contains(paths[0]));
        assert forall|x: Seq<char>| #[trigger] paths.drop_first().contains(x) implies acc.contains(
            x,
        ) by {
            lemma_contains_split(paths, x);
        }
        lemma_dedup_append_subsumed(acc, paths.drop_first());
    }
}

proof fn lemma_resolve_from_subsumed(acc: Seq<Seq<char>>, tags: Seq<Seq<char>>, config: &ConfigFile)
    requires
        forall|i: int, x: Seq<char>|
            0 <= i < tags.len() && #[trigger] config.spec_paths_of(tags[i]).contains(x)
                ==> acc.contains(x),
    ensures
        resolve_from(acc, tags, config) == acc,
    decreases tags.len(),
{
    if tags.len() > 0 {
        assert forall|x: Seq<char>| #[trigger] config.spec_paths_of(tags[0]).contains(
            x,
        ) implies acc.contains(x) by {}
        lemma_dedup_append_subsumed(acc, config.spec_paths_of(tags[0]));
        assert forall|i: int, x: Seq<char>|
            0 <= i < tags.drop_first().len() && #[trigger] config.spec_paths_of(
                tags.drop_first()[i],
            ).contains(x) implies acc.contains(x) by {
            assert(tags[i + 1] == tags.drop_first()[i]);
        }
        lemma_resolve_from_subsumed(acc, tags.drop_first(), config);
    }
}

/// Resolution is idempotent on repeated identical requests: asking for the
/// same tags twice over resolves to exactly what asking once does.
pub proof fn lemma_resolve_idempotent(tags: Seq<Seq<char>>, config: &ConfigFile)
    ensures
        resolve_spec(tags + tags, config) == resolve_spec(tags, config),
{
    lemma_resolve_from_concat(Seq::empty(), tags, tags, config);
    let r = resolve_spec(tags, config);
    assert forall|i: int, x: Seq<char>|
        0 <= i < tags.len() && #[trigger] config.spec_paths_of(tags[i]).contains(x) implies r
        .contains(x) by {
        lemma_resolve_from_membership(Seq::empty(), tags, config, x);
    }
    lemma_resolve_from_subsumed(r, tags, config);
}

/// A requested tag the store does not know contributes nothing — and is
/// never an error: resolution is defined on every request.
pub proof fn lemma_unknown_tag_ignored(tags: Seq<Seq<char>>, name: Seq<char>, config: &ConfigFile)
    requires
        !config.spec_has_tag(name),
    ensures
        resolve_spec(tags.push(name), config) == resolve_spec(tags, config),
{
    assert(tags.push(name) =~= tags + seq![name]);
    lemma_resolve_from_concat(Seq::empty(), tags, seq![name], config);
    lemma_missing_tag_has_no_paths(config, name);
    let r = resolve_spec(tags, config);
    assert(seq![name][0] == name);
    assert(seq![name].drop_first() =~= Seq::<Seq<char>>::empty());
    assert(resolve_from(r, seq![name], config) == resolve_from(
        dedup_append(r, config.spec_paths_of(name)),
        Seq::<Seq<char>>::empty(),
        config,
    ));
}

// ---------------------------------------------------------------------------
// Command execution bookkeeping
// ---------------------------------------------------------------------------
/// A command to replicate across paths: a program name and its arguments.
/// The runner never interprets it; it is forwarded to a subprocess
/// launcher with a per-path working directory.
pub struct CommandSpec {
    pub program: String,
    pub args: Vec<String>,
}

/// The concurrency regime of one run.
#[derive(Clone, Copy, Debug, PartialEq, Eq, Structural)]
pub enum ExecutionMode {
    /// One subprocess at a time, in path order.
    Sequential,
    /// A bounded worker pool; results are buffered and read back in path
    /// order, whatever the completion order was.
    Parallel,
    /// A bounded worker pool; each result is shown as soon as it arrives,
    /// in no particular order, for a quicker first line of output.
    ParallelStreaming,
}

/// How the work for one path ended.
#[derive(Debug)]
pub enum CompletionOutcome {
    /// The subprocess ran to completion and exited with this code.
    Exited(i32),
    /// The subprocess could not be launched; the reason travels as data
    /// and the rest of the run goes on.
    LaunchFailed(String),
    /// No completion has been observed (streaming delivery).
    Pending,
}

/// What the subprocess for one path produced.
#[derive(Debug)]
pub struct ExecutionResult {
    pub path: String,
    pub stdout: Vec<u8>,
    pub stderr: Vec<u8>,
    pub outcome: CompletionOutcome,
}

/// The bookkeeping of one run: the resolved paths, the command, the
/// chosen mode, and one result slot per path. Each slot is written once,
/// in whatever order completions arrive; the results are read back in
/// path order.
pub struct ExecutionRun {
    paths: Vec<String>,
    command: CommandSpec,
    mode: ExecutionMode,
    slots: Vec<Option<ExecutionResult>>,
}

impl ExecutionRun {
    /// The paths of this run, in request order.
    pub closed spec fn spec_paths(&self) -> Seq<Seq<char>> {
        self.paths.deep_view()
    }

    /// The result slots, one per path.
    pub closed spec fn spec_slots(&self) -> Seq<Option<ExecutionResult>> {
        self.slots@
    }

    /// The command of this run.
    pub closed spec fn spec_command(&self) -> CommandSpec {
        self.command
    }

    /// The mode of this run.
    pub closed spec fn spec_mode(&self) -> ExecutionMode {
        self.mode
    }

    /// One slot per path, and a filled slot carries the result of its own
    /// path.
    pub closed spec fn wf(&self) -> bool {
        &&& self.slots@.len() == self.paths@.len()
        &&& forall|i: int|
            0 <= i < self.slots@.len() ==> match #[trigger] self.slots@[i] {
                Some(r) => r.path@ == self.paths@[i]@,
                None => true,
            }
    }

    /// Start the bookkeeping of a run: every slot is empty.
    pub fn new(paths: Vec<String>, command: CommandSpec, mode: ExecutionMode) -> (run:
        ExecutionRun)
        ensures
            run.wf(),
            run.spec_paths() == paths.deep_view(),
            run.spec_command() == command,
            run.spec_mode() == mode,
            run.spec_slots().len() == paths.deep_view().len(),
            forall|i: int| 0 <= i < run.spec_slots().len() ==> run.spec_slots()[i] is None,
    {
        let n = paths.len();
        let mut slots: Vec<Option<ExecutionResult>> = Vec::new();
        while slots.len() < n
            invariant
                slots.len() <= n,
                forall|i: int| 0 <= i < slots@.len() ==> slots@[i] is None,
            decreases n - slots.len(),
        {
            slots.push(None);
        }
        ExecutionRun { paths, command, mode, slots }
    }

    /// How many paths this run covers.
    pub fn path_count(&self) -> (n: usize)
        ensures
            n == self.spec_paths().len(),
    {
        self.paths.len()
    }

    /// The paths of this run.
    pub fn paths(&self) -> (paths: &Vec<String>)
        ensures
            paths.deep_view() == self.spec_paths(),
    {
        &self.paths
    }

    /// The command of this run.
    pub fn command(&self) -> (command: &CommandSpec)
        ensures
            *command == self.spec_command(),
    {
        &self.command
    }

    /// The mode of this run.
    pub fn mode(&self) -> (mode: ExecutionMode)
        ensures
            mode == self.spec_mode(),
    {
        self.mode
    }

    /// Deposit the result for the path at `index`. Every other slot is
    /// left untouched, so deposits at distinct indices may come in any
    /// order — and a failure outcome is deposited like any success, never
    /// stopping the rest of the run.
    pub fn record(&mut self, index: usize, result: ExecutionResult)
        requires
            old(self).wf(),
            index < old(self).spec_slots().len(),
            old(self).spec_slots()[index as int] is None,
            result.path@ == old(self).spec_paths()[index as int],
        ensures
            final(self).wf(),
            final(self).spec_slots() == old(self).spec_slots().update(
                index as int,
                Some(result),
            ),
            final(self).spec_paths() == old(self).spec_paths(),
            final(self).spec_command() == old(self).spec_command(),
            final(self).spec_mode() == old(self).spec_mode(),
    {
        self.slots.set(index, Some(result));
    }

    /// Whether every path has a result.
    pub fn is_complete(&self) -> (b: bool)
        ensures
            b == (forall|i: int|
                0 <= i < self.spec_slots().len() ==> self.spec_slots()[i] is Some),
    {
        let mut i: usize = 0;
        while i < self.slots.len()
            invariant
                i <= self.slots@.len(),
                forall|k: int| 0 <= k < i ==> self.spec_slots()[k] is Some,
            decreases self.slots@.len() - i,
        {
            if self.slots[i].is_none() {
                return false;
            }
            i = i + 1;
        }
        true
    }

    /// The first path index still without a result: sequential dispatch
    /// takes exactly this path next, so paths are processed one at a time
    /// in the given order.
    pub fn next_pending(&self) -> (r: Option<usize>)
        ensures
            match r {
                Some(i) => i < self.spec_slots().len() && self.spec_slots()[i as int] is None
                    && forall|k: int| 0 <= k < i ==> self.spec_slots()[k] is Some,
                None => forall|k: int|
                    0 <= k < self.spec_slots().len() ==> self.spec_slots()[k] is Some,
            },
    {
        let mut i: usize = 0;
        while i < self.slots.len()
            invariant
                i <= self.slots@.len(),
                forall|k: int| 0 <= k < i ==> self.spec_slots()[k] is Some,
            decreases self.slots@.len() - i,
        {
            if self.slots[i].is_none() {
                return Some(i);
            }
            i = i + 1;
        }
        None
    }

    /// The per-path results, in input path order — whatever order they
    /// were recorded in. The result at position `i` belongs to the path
    /// at position `i` of the request.
    pub fn into_results(self) -> (results: Vec<ExecutionResult>)
        requires
            self.wf(),
            forall|i: int| 0 <= i < self.spec_slots().len() ==> self.spec_slots()[i] is Some,
        ensures
            results@.len() == self.spec_paths().len(),
            forall|i: int|
                0 <= i < results@.len() ==> results@[i] == self.spec_slots()[i]->Some_0,
            forall|i: int|
                0 <= i < results@.len() ==> (#[trigger] results@[i]).path@ == self.spec_paths()[i],
    {
        let ghost orig = self.slots@;
        let mut slots = self.slots;
        let mut results: Vec<ExecutionResult> = Vec::new();
        while slots.len() > 0
            invariant
                results@.len() + slots@.len() == orig.len(),
                slots@ =~= orig.skip(results@.len() as int),
                forall|i: int| 0 <= i < orig.len() ==> orig[i] is Some,
                forall|i: int| 0 <= i < results@.len() ==> results@[i] == orig[i]->Some_0,
            decreases slots@.len(),
        {
            let ghost k = results@.len() as int;
            let slot = slots.remove(0);
            proof {
                assert(orig.skip(k)[0] == orig[k]);
                assert(orig.skip(k).drop_first() =~= orig.skip(k + 1));
            }
            match slot {
                Some(r) => {
                    results.push(r);
                },
                None => {
                    proof {
                        assert(false);
                    }
                },
            }
        }
        results
    }
}

/// Results recorded for two distinct paths land in their own slots
/// whichever arrives first: recording them in either order gives the same
/// slot state, so buffered parallel delivery is ordered by path, not by
/// completion.
pub proof fn lemma_record_order_irrelevant(
    slots: Seq<Option<ExecutionResult>>,
    i: int,
    ri: ExecutionResult,
    j: int,
    rj: ExecutionResult,
)
    requires
        0 <= i < slots.len(),
        0 <= j < slots.len(),
        i != j,
    ensures
        slots.update(i, Some(ri)).update(j, Some(rj)) == slots.update(j, Some(rj)).update(
            i,
            Some(ri),
        ),
{
    assert(slots.update(i, Some(ri)).update(j, Some(rj)) =~= slots.update(j, Some(rj)).update(
        i,
        Some(ri),
    ));
}

} // verus!
