//! The decisions behind `child_process.fork` and `cluster.fork`: which
//! interpreter runs a forked module and with which arguments, how a cluster
//! worker is told apart, and the environment a worker is started with.
use crate::text::{chars_of, concat, push_char, views};
use vstd::prelude::*;

verus! {

/// The characters of an optional string.
pub open spec fn opt_view(s: Option<String>) -> Option<Seq<char>> {
    match s {
        Some(v) => Some(v@),
        None => None,
    }
}

/// The interpreter a forked module runs under: the `execPath` option when it
/// is non-empty, else the `PERRY_FORK_EXECPATH` environment value when it is
/// non-empty, else `node`.
pub open spec fn spec_fork_exec_path(option: Option<Seq<char>>, env: Option<Seq<char>>) -> Seq<
    char,
> {
    match option {
        Some(o) if o.len() > 0 => o,
        _ => match env {
            Some(e) if e.len() > 0 => e,
            _ => "node"@,
        },
    }
}

/// `s` ends with `suffix`.
pub open spec fn ends_with(s: Seq<char>, suffix: Seq<char>) -> bool {
    s.len() >= suffix.len() && s.subrange(s.len() - suffix.len(), s.len() as int) == suffix
}

/// `pattern` occurs somewhere in `s`.
pub open spec fn contains_text(s: Seq<char>, pattern: Seq<char>) -> bool {
    exists|i: int|
        0 <= i && i + pattern.len() <= s.len() && #[trigger] s.subrange(i, i + pattern.len())
            == pattern
}

/// The interpreter options of a fork: as given, except that an empty list for
/// a `.ts` module run under an interpreter whose path mentions `node` gets
/// `--experimental-strip-types`.
pub open spec fn spec_fork_exec_argv(
    exec_argv: Seq<Seq<char>>,
    module: Seq<char>,
    exec_path: Seq<char>,
) -> Seq<Seq<char>> {
    if exec_argv.len() == 0 && ends_with(module, ".ts"@) && contains_text(exec_path, "node"@) {
        seq!["--experimental-strip-types"@]
    } else {
        exec_argv
    }
}

/// A `.ts` module forked with no interpreter options under an interpreter
/// whose path has `node` anywhere in it (`/usr/bin/nodejs`, `node.exe`,
/// `/opt/node/bin/run`) gets exactly `--experimental-strip-types`; given
/// options are kept as they are.
pub proof fn law_strip_types_for_node_anywhere(
    name: Seq<char>,
    before: Seq<char>,
    after: Seq<char>,
    exec_argv: Seq<Seq<char>>,
)
    ensures
        spec_fork_exec_argv(Seq::empty(), name + ".ts"@, before + "node"@ + after) == seq![
            "--experimental-strip-types"@,
        ],
        exec_argv.len() > 0 ==> spec_fork_exec_argv(exec_argv, name + ".ts"@, before + "node"@
            + after) == exec_argv,
{
    let m = name + ".ts"@;
    let p = before + "node"@ + after;
    assert(m.subrange(m.len() - ".ts"@.len(), m.len() as int) =~= ".ts"@);
    reveal_strlit("node");
    let k: int = before.len() as int;
    assert(p.subrange(k, k + 4) =~= "node"@);
    assert(contains_text(p, "node"@));
}

/// The decimal digits of `n`.
pub open spec fn decimal(n: nat) -> Seq<char>
    decreases n,
{
    if n < 10 {
        seq![('0' as u8 + n) as char]
    } else {
        decimal(n / 10).push(('0' as u8 + n % 10) as char)
    }
}

/// The decimal digits of `n`, as `n.to_string()` writes them.
fn u64_to_string(n: u64) -> (r: String)
    ensures
        r@ == decimal(n as nat),
    decreases n,
{
    let mut s = if n < 10 {
        String::new()
    } else {
        u64_to_string(n / 10)
    };
    let digit: u8 = (n % 10) as u8;
    push_char(&mut s, (48u8 + digit) as char);
    proof {
        if n < 10 {
            assert(s@ =~= seq![('0' as u8 + n) as char]);
        }
    }
    s
}

/// Whether `pattern` occurs in the characters `v`.
fn chars_contain(v: &Vec<char>, pattern: &Vec<char>) -> (b: bool)
    ensures
        b == contains_text(v@, pattern@),
{
    if pattern.len() > v.len() {
        proof {
            assert forall|i: int|
                0 <= i && i + pattern@.len() <= v@.len() implies #[trigger] v@.subrange(
                i,
                i + pattern@.len(),
            ) != pattern@ by {}
        }
        return false;
    }
    let n = v.len();
    let last = n - pattern.len();
    let mut i: usize = 0;
    while i <= last
        invariant
            n == v@.len(),
            last == v@.len() - pattern@.len(),
            i <= last + 1,
            forall|j: int| 0 <= j < i ==> #[trigger] v@.subrange(j, j + pattern@.len()) != pattern@,
        decreases last + 1 - i,
    {
        let mut k: usize = 0;
        let mut same = true;
        while k < pattern.len()
            invariant
                n == v@.len(),
                i <= last,
                last == v@.len() - pattern@.len(),
                k <= pattern@.len(),
                same == forall|m: int| 0 <= m < k ==> v@[i + m] == pattern@[m],
            decreases pattern@.len() - k,
        {
            if v[i + k] != pattern[k] {
                same = false;
            }
            k = k + 1;
        }
        if same {
            assert(v@.subrange(i as int, i + pattern@.len()) =~= pattern@);
            return true;
        }
        proof {
            let m = choose|m: int| 0 <= m < pattern@.len() && v@[i + m] != pattern@[m];
            assert(v@.subrange(i as int, i + pattern@.len())[m] != pattern@[m]);
        }
        if i == last {
            assert forall|j: int|
                0 <= j && j + pattern@.len() <= v@.len() implies #[trigger] v@.subrange(
                j,
                j + pattern@.len(),
            ) != pattern@ by {
                assert(j <= i);
            }
            return false;
        }
        i = i + 1;
    }
    false
}

/// Whether the characters `v` end with `suffix`.
fn chars_end_with(v: &Vec<char>, suffix: &Vec<char>) -> (b: bool)
    ensures
        b == ends_with(v@, suffix@),
{
    if suffix.len() > v.len() {
        return false;
    }
    let n = v.len();
    let off = n - suffix.len();
    let mut k: usize = 0;
    while k < suffix.len()
        invariant
            n == v@.len(),
            off == v@.len() - suffix@.len(),
            k <= suffix@.len(),
            forall|m: int| 0 <= m < k ==> v@[off + m] == suffix@[m],
        decreases suffix@.len() - k,
    {
        if v[off + k] != suffix[k] {
            assert(v@.subrange(off as int, v@.len() as int)[k as int] != suffix@[k as int]);
            return false;
        }
        k = k + 1;
    }
    assert(v@.subrange(off as int, v@.len() as int) =~= suffix@);
    true
}

/// The interpreter `child_process.fork` launches.
pub fn fork_exec_path(option_exec_path: Option<String>, env_exec_path: Option<String>) -> (r:
    String)
    ensures
        r@ == spec_fork_exec_path(opt_view(option_exec_path), opt_view(env_exec_path)),
{
    match option_exec_path {
        Some(o) => {
            if !o.as_str().is_empty() {
                return o;
            }
        },
        None => {},
    }
    match env_exec_path {
        Some(e) => {
            if !e.as_str().is_empty() {
                return e;
            }
        },
        None => {},
    }
    "node".to_owned()
}

/// The interpreter options of a fork (see `spec_fork_exec_argv`).
pub fn fork_exec_argv(exec_argv: Vec<String>, module: &str, exec_path: &str) -> (r: Vec<String>)
    ensures
        views(r@) == spec_fork_exec_argv(views(exec_argv@), module@, exec_path@),
{
    let mut argv = exec_argv;
    if argv.len() == 0 {
        let m = chars_of(module);
        let suffix = chars_of(".ts");
        let p = chars_of(exec_path);
        let node = chars_of("node");
        if chars_end_with(&m, &suffix) && chars_contain(&p, &node) {
            argv.push("--experimental-strip-types".to_owned());
            assert(views(argv@) =~= seq!["--experimental-strip-types"@]);
        }
    }
    argv
}

/// The arguments the interpreter is started with: its options, the module,
/// then the module's arguments.
pub fn fork_command_args(exec_argv: &Vec<String>, module: &str, args: &Vec<String>) -> (r: Vec<
    String,
>)
    ensures
        views(r@) == views(exec_argv@) + seq![module@] + views(args@),
{
    let ghost want = views(exec_argv@) + seq![module@] + views(args@);
    let mut out: Vec<String> = Vec::new();
    let mut i: usize = 0;
    while i < exec_argv.len()
        invariant
            want == views(exec_argv@) + seq![module@] + views(args@),
            i <= exec_argv@.len(),
            out@.len() == i,
            forall|k: int| 0 <= k < i ==> #[trigger] out@[k]@ == want[k],
        decreases exec_argv@.len() - i,
    {
        let a = exec_argv[i].clone();
        assert(a@ == want[i as int]);
        out.push(a);
        i = i + 1;
    }
    out.push(module.to_owned());
    let base = out.len();
    let mut j: usize = 0;
    while j < args.len()
        invariant
            want == views(exec_argv@) + seq![module@] + views(args@),
            base == exec_argv@.len() + 1,
            j <= args@.len(),
            out@.len() == base + j,
            forall|k: int| 0 <= k < base + j ==> #[trigger] out@[k]@ == want[k],
        decreases args@.len() - j,
    {
        let a = args[j].clone();
        assert(a@ == want[base + j]);
        out.push(a);
        j = j + 1;
    }
    assert(views(out@) =~= want);
    out
}

/// The `spawnargs` a forked child reports: the interpreter, then the
/// arguments it was started with.
pub fn fork_spawn_args(exec_path: &str, exec_argv: &Vec<String>, module: &str, args: &Vec<String>) -> (r: Vec<String>)
    ensures
        views(r@) == seq![exec_path@] + views(exec_argv@) + seq![module@] + views(args@),
{
    let rest = fork_command_args(exec_argv, module, args);
    let ghost want = seq![exec_path@] + views(rest@);
    let mut out: Vec<String> = Vec::new();
    out.push(exec_path.to_owned());
    let mut i: usize = 0;
    while i < rest.len()
        invariant
            want == seq![exec_path@] + views(rest@),
            i <= rest@.len(),
            out@.len() == i + 1,
            forall|k: int| 0 <= k < i + 1 ==> #[trigger] out@[k]@ == want[k],
        decreases rest@.len() - i,
    {
        let a = rest[i].clone();
        assert(a@ == want[i + 1]);
        out.push(a);
        i = i + 1;
    }
    assert(views(out@) =~= want);
    assert(want =~= seq![exec_path@] + views(exec_argv@) + seq![module@] + views(args@));
    out
}

/// The message of the error a failed `child_process.fork` emits.
pub fn fork_failure_message(exec_path: &str) -> (r: String)
    ensures
        r@ == "fork failed: "@ + exec_path@,
{
    concat("fork failed: ", exec_path)
}

/// The message of the error a failed `cluster.fork` emits.
pub fn cluster_fork_failure_message(exec_path: &str) -> (r: String)
    ensures
        r@ == "cluster.fork failed: "@ + exec_path@,
{
    concat("cluster.fork failed: ", exec_path)
}

/// Whether a process is a cluster worker, given its `NODE_UNIQUE_ID`
/// environment value: it is when that value is set and non-empty.
pub fn is_cluster_worker_value(node_unique_id: Option<&str>) -> (b: bool)
    ensures
        b == (match node_unique_id {
            Some(v) => v@.len() > 0,
            None => false,
        }),
{
    match node_unique_id {
        Some(v) => !v.is_empty(),
        None => false,
    }
}

/// The environment entries a cluster worker is started with on top of the
/// inherited environment: the caller's entries in order, then
/// `NODE_UNIQUE_ID` set to the worker id in decimal (last, so it wins).
pub fn cluster_worker_env(entries: Vec<(String, String)>, worker_id: u64) -> (r: Vec<
    (String, String),
>)
    ensures
        r@.len() == entries@.len() + 1,
        r@.drop_last() == entries@,
        r@.last().0@ == "NODE_UNIQUE_ID"@,
        r@.last().1@ == decimal(worker_id as nat),
{
    let mut env = entries;
    let id = u64_to_string(worker_id);
    env.push(("NODE_UNIQUE_ID".to_owned(), id));
    assert(env@.drop_last() =~= entries@);
    env
}

/// A counter handing out ids 1, 2, 3, … (as `cluster.fork` numbers its
/// workers), wrapping around after `u64::MAX` as an atomic `fetch_add` does.
pub struct IdCounter {
    next: u64,
}

/// The id handed out after `id`.
pub open spec fn following_id(id: u64) -> u64 {
    if id == u64::MAX {
        0
    } else {
        (id + 1) as u64
    }
}

impl IdCounter {
    /// The id the next call of `next_id` hands out.
    pub closed spec fn upcoming(&self) -> u64 {
        self.next
    }

    /// `id` was handed out by a call that took the counter from `old` to `new`.
    pub open spec fn issued(old: IdCounter, new: IdCounter, id: u64) -> bool {
        id == old.upcoming() && new.upcoming() == following_id(old.upcoming())
    }

    /// A counter whose first id is 1.
    pub fn new() -> (c: Self)
        ensures
            c.upcoming() == 1,
    {
        IdCounter { next: 1 }
    }

    /// Hands out the upcoming id and moves on to the following one.
    pub fn next_id(&mut self) -> (id: u64)
        ensures
            IdCounter::issued(*old(self), *final(self), id),
    {
        let id = self.next;
        self.next = if id == u64::MAX {
            0
        } else {
            id + 1
        };
        id
    }
}

/// Successive calls on a fresh counter hand out 1, 2, 3, …: the `j`-th call
/// (counting from 0) gives `j + 1`, for fewer than `u64::MAX` calls; so a
/// later call always gives a larger id and no id is handed out twice.
pub proof fn law_ids_count_up(counters: Seq<IdCounter>, ids: Seq<u64>)
    requires
        counters.len() == ids.len() + 1,
        ids.len() < u64::MAX,
        counters[0].upcoming() == 1,
        forall|j: int|
            0 <= j < ids.len() ==> IdCounter::issued(counters[j], #[trigger] counters[j + 1], ids[j]),
    ensures
        forall|j: int| 0 <= j < ids.len() ==> #[trigger] ids[j] == j + 1,
        forall|j: int, k: int| 0 <= j < k < ids.len() ==> #[trigger] ids[j] < #[trigger] ids[k],
{
    assert forall|j: int| 0 <= j < ids.len() implies #[trigger] ids[j] == j + 1 by {
        lemma_upcoming(counters, ids, j);
    }
}

proof fn lemma_upcoming(counters: Seq<IdCounter>, ids: Seq<u64>, j: int)
    requires
        counters.len() == ids.len() + 1,
        ids.len() < u64::MAX,
        counters[0].upcoming() == 1,
        forall|k: int|
            0 <= k < ids.len() ==> IdCounter::issued(counters[k], #[trigger] counters[k + 1], ids[k]),
        0 <= j <= ids.len(),
    ensures
        counters[j].upcoming() == j + 1,
        j < ids.len() ==> ids[j] == j + 1,
    decreases j,
{
    if j > 0 {
        lemma_upcoming(counters, ids, j - 1);
        assert(IdCounter::issued(counters[j - 1], counters[j], ids[j - 1]));
    }
    if j < ids.len() {
        assert(IdCounter::issued(counters[j], counters[j + 1], ids[j]));
    }
}

} // verus!
