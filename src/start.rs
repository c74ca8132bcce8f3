//! Starting a formation: from the Procfile, the environment file and the
//! options to the list of replicas to launch, each with its name, command,
//! port and environment.
use crate::env::{parse_env_text, Env, EnvError};
use crate::keyed::{insert_entry, keys_distinct, lemma_insert_keeps_distinct, lemma_lookup_insert, lookup};
use crate::num::{decimal, parse_usize, usize_value};
use crate::procfile::{
    padding_of, parse_procfile_text, total_concurrency, with_formation, EntryModel, Procfile,
    ProcfileError,
};
use crate::process::{
    base_port_text, opt_view, port_for, port_key, port_number, ps_for, ps_key, ps_text, PortError,
    ProcessOpts,
};
use vstd::prelude::*;

verus! {

/// The options of the `start` command.
pub struct StartOpts {
    /// The formation, `NAME=UINT(,NAME=UINT)*`.
    pub formation: String,
    /// Where the environment file is.
    pub env_path: String,
    /// Where the Procfile is.
    pub procfile_path: String,
    /// Seconds between SIGTERM and SIGKILL.
    pub timeout: String,
    /// The explicit base port.
    pub port: Option<String>,
    /// Leave timestamps out of the output.
    pub is_no_timestamp: bool,
}

/// One replica to launch.
pub struct Replica {
    /// The 0-based position of its process type.
    pub proc_index: usize,
    /// Its 1-based number among the replicas of its type.
    pub replica: usize,
    /// The process type.
    pub proctype: String,
    /// The display name `<proctype>.<replica>`, also its `PS`.
    pub name: String,
    /// The shell command.
    pub command: String,
    /// Its `PORT`.
    pub port: String,
    /// The environment file's entries, with `PORT` and `PS` set.
    pub env: Env,
}

/// What starting a formation needs.
pub struct StartPlan {
    pub replicas: Vec<Replica>,
    /// The parties of the start barrier: every replica and the supervisor.
    pub barrier_parties: usize,
    /// Seconds between SIGTERM and SIGKILL.
    pub timeout: usize,
    pub opts: ProcessOpts,
}

/// Why a formation cannot start.
pub enum StartError {
    Procfile(ProcfileError),
    Env(EnvError),
    /// The timeout is not an unsigned integer.
    Timeout,
    /// More replicas than a `usize` counts.
    TooManyReplicas,
    Port(PortError),
}

/// The replicas of the process type at `i` with `c` replicas: `(i, 1)` to `(i, c)`.
pub open spec fn type_slots(i: nat, c: nat) -> Seq<(nat, nat)> {
    Seq::new(c, |r: int| (i, (r + 1) as nat))
}

/// Every replica as `(type index, replica number)`, in launch order: the
/// types in order, the replicas of each from 1 up.
pub open spec fn slots(e: Seq<(Seq<char>, EntryModel)>) -> Seq<(nat, nat)>
    decreases e.len(),
{
    if e.len() == 0 {
        Seq::empty()
    } else {
        slots(e.drop_last()) + type_slots((e.len() - 1) as nat, e.last().1.1 as nat)
    }
}

/// Every replica's port fits a `usize`.
pub open spec fn ports_fit(e: Seq<(Seq<char>, EntryModel)>, b: nat) -> bool {
    forall|k: int|
        0 <= k < slots(e).len() ==> port_number(b, #[trigger] slots(e)[k].0, slots(e)[k].1)
            <= usize::MAX
}

/// `rep` is the replica at `slot` of the entries `e`, with base port `b` and
/// the environment file's entries `env`.
pub open spec fn replica_matches(
    rep: &Replica,
    e: Seq<(Seq<char>, EntryModel)>,
    env: Seq<(Seq<char>, Seq<char>)>,
    b: nat,
    slot: (nat, nat),
) -> bool {
    let i = slot.0;
    let r = slot.1;
    &&& rep.proc_index == i
    &&& rep.replica == r
    &&& rep.proctype@ == e[i as int].0
    &&& rep.command@ == e[i as int].1.0
    &&& rep.name@ == ps_text(e[i as int].0, r)
    &&& rep.port@ == decimal(port_number(b, i, r) as nat)
    &&& rep.env@ == insert_entry(insert_entry(env, port_key(), rep.port@), ps_key(), rep.name@)
}

/// `plan` launches exactly the replicas of `e`, in order.
pub open spec fn plan_matches(
    plan: &StartPlan,
    e: Seq<(Seq<char>, EntryModel)>,
    env: Seq<(Seq<char>, Seq<char>)>,
    b: nat,
) -> bool {
    &&& plan.replicas@.len() == slots(e).len()
    &&& forall|k: int|
        0 <= k < plan.replicas@.len() ==> replica_matches(
            &#[trigger] plan.replicas@[k],
            e,
            env,
            b,
            slots(e)[k],
        )
}

pub proof fn lemma_slots_len(e: Seq<(Seq<char>, EntryModel)>)
    ensures
        slots(e).len() == total_concurrency(e),
    decreases e.len(),
{
    if e.len() > 0 {
        lemma_slots_len(e.drop_last());
    }
}

/// The slots of a prefix of the entries begin the slots of all of them.
pub proof fn lemma_slots_prefix(e: Seq<(Seq<char>, EntryModel)>, j: int)
    requires
        0 <= j <= e.len(),
    ensures
        slots(e.subrange(0, j)).len() <= slots(e).len(),
        forall|k: int|
            0 <= k < slots(e.subrange(0, j)).len() ==> #[trigger] slots(e)[k] == slots(
                e.subrange(0, j),
            )[k],
    decreases e.len(),
{
    if j < e.len() {
        lemma_slots_prefix(e.drop_last(), j);
        assert(e.drop_last().subrange(0, j) =~= e.subrange(0, j));
    } else {
        assert(e.subrange(0, j) =~= e);
    }
}

pub proof fn lemma_slots_bounds(e: Seq<(Seq<char>, EntryModel)>)
    ensures
        forall|k: int|
            0 <= k < slots(e).len() ==> (#[trigger] slots(e)[k]).0 < e.len() && 1 <= slots(e)[k].1
                <= e[slots(e)[k].0 as int].1.1,
    decreases e.len(),
{
    if e.len() > 0 {
        let e0 = e.drop_last();
        lemma_slots_bounds(e0);
        assert forall|k: int| 0 <= k < slots(e).len() implies (#[trigger] slots(e)[k]).0 < e.len()
            && 1 <= slots(e)[k].1 <= e[slots(e)[k].0 as int].1.1 by {
            if k < slots(e0).len() {
                assert(slots(e)[k] == slots(e0)[k]);
                assert(e0[slots(e0)[k].0 as int] == e[slots(e0)[k].0 as int]);
            }
        }
    }
}

/// No replica is listed twice.
pub proof fn lemma_slots_distinct(e: Seq<(Seq<char>, EntryModel)>)
    ensures
        forall|k1: int, k2: int|
            0 <= k1 < k2 < slots(e).len() ==> #[trigger] slots(e)[k1] != #[trigger] slots(e)[k2],
    decreases e.len(),
{
    if e.len() > 0 {
        let e0 = e.drop_last();
        lemma_slots_distinct(e0);
        lemma_slots_bounds(e0);
        let s0 = slots(e0);
        assert forall|k1: int, k2: int| 0 <= k1 < k2 < slots(e).len() implies #[trigger] slots(
            e,
        )[k1] != #[trigger] slots(e)[k2] by {
            if k2 < s0.len() {
                assert(slots(e)[k1] == s0[k1]);
                assert(slots(e)[k2] == s0[k2]);
            } else if k1 < s0.len() {
                assert(slots(e)[k1] == s0[k1]);
            }
        }
    }
}

/// Starting a formation launches as many replicas as the entries' counts
/// add up to, after the formation has been applied.
pub proof fn lemma_replica_count(plan: &StartPlan, e: Seq<(Seq<char>, EntryModel)>, env: Seq<(Seq<char>, Seq<char>)>, b: nat)
    requires
        plan_matches(plan, e, env, b),
    ensures
        plan.replicas@.len() == total_concurrency(e),
{
    lemma_slots_len(e);
}

/// Where no process type has more than 100 replicas, no two replicas get
/// the same `PORT`.
pub proof fn lemma_ports_distinct(
    plan: &StartPlan,
    e: Seq<(Seq<char>, EntryModel)>,
    env: Seq<(Seq<char>, Seq<char>)>,
    b: nat,
)
    requires
        plan_matches(plan, e, env, b),
        forall|i: int| 0 <= i < e.len() ==> (#[trigger] e[i]).1.1 <= 100,
    ensures
        forall|k1: int, k2: int|
            0 <= k1 < k2 < plan.replicas@.len() ==> (#[trigger] plan.replicas@[k1]).port@
                != (#[trigger] plan.replicas@[k2]).port@,
{
    lemma_slots_distinct(e);
    lemma_slots_bounds(e);
    assert forall|k1: int, k2: int| 0 <= k1 < k2 < plan.replicas@.len() implies (
    #[trigger] plan.replicas@[k1]).port@ != (#[trigger] plan.replicas@[k2]).port@ by {
        let s1 = slots(e)[k1];
        let s2 = slots(e)[k2];
        assert(replica_matches(&plan.replicas@[k1], e, env, b, s1));
        assert(replica_matches(&plan.replicas@[k2], e, env, b, s2));
        assert(s1 != s2);
        assert(e[s1.0 as int].1.1 <= 100);
        assert(e[s2.0 as int].1.1 <= 100);
        let p1 = port_number(b, s1.0, s1.1);
        let p2 = port_number(b, s2.0, s2.1);
        if p1 == p2 {
            assert(s1.0 == s2.0 && s1.1 == s2.1) by (nonlinear_arith)
                requires
                    p1 == b + s1.0 * 100 + s1.1 - 1,
                    p2 == b + s2.0 * 100 + s2.1 - 1,
                    p1 == p2,
                    1 <= s1.1 <= 100,
                    1 <= s2.1 <= 100,
            ;
        }
        if plan.replicas@[k1].port@ == plan.replicas@[k2].port@ {
            crate::num::lemma_decimal_injective(p1 as nat, p2 as nat);
        }
    }
}

/// How starting with these inputs ends: the first failing step's error, or
/// `Ok` with the entries after the formation, the environment file's
/// entries, the base port and the timeout.
pub open spec fn start_outcome(
    opts: &StartOpts,
    procfile_text: Seq<char>,
    env_text: Seq<char>,
    ambient_port: Option<Seq<char>>,
) -> Result<(Seq<(Seq<char>, EntryModel)>, Seq<(Seq<char>, Seq<char>)>, Option<usize>, usize), StartErrorKind> {
    match parse_procfile_text(procfile_text) {
        Err(n) => Err(StartErrorKind::Procfile(n)),
        Ok(e0) => match parse_env_text(env_text) {
            Err(n) => Err(StartErrorKind::Env(n)),
            Ok(env) => match usize_value(opts.timeout@) {
                None => Err(StartErrorKind::Timeout),
                Some(t) => {
                    let e = with_formation(e0, opts.formation@);
                    let b = usize_value(base_port_text(opt_view(opts.port), env, ambient_port));
                    if total_concurrency(e) + 1 > usize::MAX {
                        Err(StartErrorKind::TooManyReplicas)
                    } else if total_concurrency(e) > 0 && b.is_none() {
                        Err(StartErrorKind::InvalidBase)
                    } else if b.is_some() && !ports_fit(e, b.unwrap() as nat) {
                        Err(StartErrorKind::Overflow)
                    } else {
                        Ok((e, env, b, t))
                    }
                },
            },
        },
    }
}

/// The inputs read without error into the entries `e`, after the
/// formation, and the environment file's entries `env`.
pub open spec fn inputs_read(
    opts: &StartOpts,
    procfile_text: Seq<char>,
    env_text: Seq<char>,
    e: Seq<(Seq<char>, EntryModel)>,
    env: Seq<(Seq<char>, Seq<char>)>,
) -> bool {
    &&& parse_procfile_text(procfile_text) is Ok
    &&& e == with_formation(parse_procfile_text(procfile_text)->Ok_0, opts.formation@)
    &&& parse_env_text(env_text) == Ok::<_, nat>(env)
    &&& usize_value(opts.timeout@) is Some
    &&& total_concurrency(e) + 1 <= usize::MAX
}

/// The kinds of `StartError`, with the line numbers as naturals.
pub enum StartErrorKind {
    Procfile(nat),
    Env(nat),
    Timeout,
    TooManyReplicas,
    InvalidBase,
    Overflow,
}

pub open spec fn error_kind(err: &StartError) -> StartErrorKind {
    match err {
        StartError::Procfile(e) => StartErrorKind::Procfile(e.line as nat),
        StartError::Env(e) => StartErrorKind::Env(e.line as nat),
        StartError::Timeout => StartErrorKind::Timeout,
        StartError::TooManyReplicas => StartErrorKind::TooManyReplicas,
        StartError::Port(PortError::InvalidBase) => StartErrorKind::InvalidBase,
        StartError::Port(PortError::Overflow) => StartErrorKind::Overflow,
    }
}

fn clone_opt(o: &Option<String>) -> (r: Option<String>)
    ensures
        r == *o,
{
    match o {
        Some(s) => Some(s.clone()),
        None => None,
    }
}

/// Plans the start of a formation: reads the Procfile's text, applies the
/// formation, reads the environment file's text (empty where there is no
/// file) and the timeout, and lists every replica in launch order with its
/// display name, command, `PORT` and environment.
pub fn run(opts: &StartOpts, procfile_text: &str, env_text: &str, ambient_port: Option<String>) -> (r: Result<StartPlan, StartError>)
    ensures
        match start_outcome(opts, procfile_text@, env_text@, opt_view(ambient_port)) {
            Err(kind) => r is Err && error_kind(&r->Err_0) == kind,
            Ok((e, env, b, t)) => r is Ok && {
                let plan = r->Ok_0;
                &&& plan_matches(&plan, e, env, if b is Some { b.unwrap() as nat } else { 0 })
                &&& plan.barrier_parties == total_concurrency(e) + 1
                &&& plan.timeout == t
                &&& plan.opts.padding == if padding_of(e) <= usize::MAX {
                    padding_of(e)
                } else {
                    usize::MAX as nat
                }
                &&& plan.opts.is_timestamp == !opts.is_no_timestamp
            },
        },
{
    let mut procfile = match Procfile::parse(procfile_text) {
        Ok(p) => p,
        Err(e) => {
            return Err(StartError::Procfile(e));
        },
    };
    let file_env = match Env::parse(env_text) {
        Ok(env) => env,
        Err(e) => {
            return Err(StartError::Env(e));
        },
    };
    let timeout = match parse_usize(opts.timeout.as_str()) {
        Some(t) => t,
        None => {
            return Err(StartError::Timeout);
        },
    };
    procfile.set_concurrency(opts.formation.as_str());
    let ghost e = procfile@;
    let ghost env = file_env@;
    let ghost bopt = usize_value(base_port_text(opt_view(opts.port), env, opt_view(ambient_port)));
    let ghost b: nat = if bopt is Some { bopt.unwrap() as nat } else { 0 };
    let total = match procfile.process_len() {
        Some(n) if n < usize::MAX => n,
        _ => {
            return Err(StartError::TooManyReplicas);
        },
    };
    let padding = procfile.padding();
    let mut replicas: Vec<Replica> = Vec::new();
    let mut i: usize = 0;
    proof {
        reveal_strlit("PORT");
        reveal_strlit("PS");
        assert("PORT"@ =~= port_key());
        assert("PS"@ =~= ps_key());
        assert(e.subrange(0, 0) =~= Seq::<(Seq<char>, EntryModel)>::empty());
        lemma_slots_prefix(e, 0);
        lemma_slots_len(e);
        lemma_slots_bounds(e);
    }
    while i < procfile.len()
        invariant
            e == procfile@,
            env == file_env@,
            inputs_read(opts, procfile_text@, env_text@, e, env),
            file_env.wf(),
            "PORT"@ == port_key(),
            "PS"@ == ps_key(),
            bopt == usize_value(base_port_text(opt_view(opts.port), env, opt_view(ambient_port))),
            b == if bopt is Some { bopt.unwrap() as nat } else { 0 },
            i <= e.len(),
            replicas@.len() == slots(e.subrange(0, i as int)).len(),
            slots(e).len() == total_concurrency(e),
            forall|k: int|
                0 <= k < slots(e).len() ==> (#[trigger] slots(e)[k]).0 < e.len() && 1 <= slots(e)[k].1
                    <= e[slots(e)[k].0 as int].1.1,
            forall|k: int|
                0 <= k < replicas@.len() ==> replica_matches(
                    &#[trigger] replicas@[k],
                    e,
                    env,
                    b,
                    slots(e)[k],
                ) && port_number(b, slots(e)[k].0, slots(e)[k].1) <= usize::MAX,
            replicas@.len() > 0 ==> bopt is Some,
        decreases e.len() - i,
    {
        let (name, entry) = procfile.entry(i);
        let con = entry.concurrency;
        let ghost pre = e.subrange(0, i as int);
        let ghost next = e.subrange(0, i + 1);
        proof {
            assert(next.drop_last() =~= pre);
            assert(next.last() == e[i as int]);
            lemma_slots_prefix(e, i + 1);
        }
        let mut n: usize = 0;
        while n < con
            invariant
                e == procfile@,
                env == file_env@,
                inputs_read(opts, procfile_text@, env_text@, e, env),
                file_env.wf(),
                "PORT"@ == port_key(),
                "PS"@ == ps_key(),
                bopt == usize_value(base_port_text(opt_view(opts.port), env, opt_view(ambient_port))),
                b == if bopt is Some { bopt.unwrap() as nat } else { 0 },
                i < e.len(),
                next == e.subrange(0, i + 1),
                next.drop_last() == pre,
                next.last() == e[i as int],
                pre == e.subrange(0, i as int),
                name@ == e[i as int].0,
                entry.command@ == e[i as int].1.0,
                con == e[i as int].1.1,
                n <= con,
                replicas@.len() == slots(pre).len() + n,
                slots(e).len() == total_concurrency(e),
                slots(next).len() <= slots(e).len(),
                forall|k: int|
                    0 <= k < slots(next).len() ==> #[trigger] slots(e)[k] == slots(next)[k],
                forall|k: int|
                    0 <= k < slots(e).len() ==> (#[trigger] slots(e)[k]).0 < e.len() && 1
                        <= slots(e)[k].1 <= e[slots(e)[k].0 as int].1.1,
                forall|k: int|
                    0 <= k < replicas@.len() ==> replica_matches(
                        &#[trigger] replicas@[k],
                        e,
                        env,
                        b,
                        slots(e)[k],
                    ) && port_number(b, slots(e)[k].0, slots(e)[k].1) <= usize::MAX,
                replicas@.len() > 0 ==> bopt is Some,
            decreases con - n,
        {
            let k = replicas.len();
            proof {
                assert(slots(next)[k as int] == (i as nat, (n + 1) as nat));
                assert(slots(e)[k as int] == (i as nat, (n + 1) as nat));
            }
            let port = match port_for(&file_env, clone_opt(&opts.port), clone_opt(&ambient_port), i, n + 1) {
                Ok(p) => p,
                Err(err) => {
                    proof {
                        assert(slots(next) == slots(pre) + type_slots(i as nat, con as nat));
                        assert((k as int) < slots(e).len());
                        assert(total_concurrency(e) > 0);
                        if bopt is Some {
                            assert(port_number(b, slots(e)[k as int].0, slots(e)[k as int].1)
                                > usize::MAX);
                            assert(!ports_fit(e, b));
                        }
                    }
                    return Err(StartError::Port(err));
                },
            };
            let ps = ps_for(name.as_str(), n + 1);
            let mut child_env = file_env.clone_env();
            child_env.insert(String::from_str("PORT"), port.clone());
            child_env.insert(String::from_str("PS"), ps.clone());
            let rep = Replica {
                proc_index: i,
                replica: n + 1,
                proctype: name.clone(),
                name: ps,
                command: entry.command.clone(),
                port,
                env: child_env,
            };
            replicas.push(rep);
            n = n + 1;
            proof {
                assert(replica_matches(&replicas@[k as int], e, env, b, slots(e)[k as int]));
            }
        }
        i = i + 1;
    }
    proof {
        assert(e.subrange(0, i as int) =~= e);
        if bopt is Some {
            assert forall|k: int| 0 <= k < slots(e).len() implies port_number(
                b,
                #[trigger] slots(e)[k].0,
                slots(e)[k].1,
            ) <= usize::MAX by {
                assert(replica_matches(&replicas@[k], e, env, b, slots(e)[k]));
            }
        } else if total_concurrency(e) > 0 {
            assert(replica_matches(&replicas@[0], e, env, b, slots(e)[0]));
        }
    }
    Ok(
        StartPlan {
            replicas,
            barrier_parties: total + 1,
            timeout,
            opts: ProcessOpts { padding, is_timestamp: !opts.is_no_timestamp },
        },
    )
}

/// Every replica's environment has `PS` set to `<proctype>.<replica>` and
/// `PORT` set to its port; every other key is as in the environment file.
pub proof fn lemma_child_env(
    plan: &StartPlan,
    e: Seq<(Seq<char>, EntryModel)>,
    env: Seq<(Seq<char>, Seq<char>)>,
    b: nat,
)
    requires
        plan_matches(plan, e, env, b),
        keys_distinct(env),
    ensures
        forall|k: int|
            0 <= k < plan.replicas@.len() ==> {
                let rep = #[trigger] plan.replicas@[k];
                &&& lookup(rep.env@, ps_key()) == Some(ps_text(rep.proctype@, rep.replica as nat))
                &&& lookup(rep.env@, port_key()) == Some(rep.port@)
                &&& forall|key: Seq<char>|
                    key != ps_key() && key != port_key() ==> lookup(rep.env@, key) == lookup(
                        env,
                        key,
                    )
            },
{
    assert(ps_key() != port_key()) by {
        assert(ps_key().len() != port_key().len());
    }
    assert forall|k: int| 0 <= k < plan.replicas@.len() implies {
        let rep = #[trigger] plan.replicas@[k];
        &&& lookup(rep.env@, ps_key()) == Some(ps_text(rep.proctype@, rep.replica as nat))
        &&& lookup(rep.env@, port_key()) == Some(rep.port@)
        &&& forall|key: Seq<char>|
            key != ps_key() && key != port_key() ==> lookup(rep.env@, key) == lookup(env, key)
    } by {
        let rep = plan.replicas@[k];
        assert(replica_matches(&rep, e, env, b, slots(e)[k]));
        let mid = insert_entry(env, port_key(), rep.port@);
        lemma_insert_keeps_distinct(env, port_key(), rep.port@);
        lemma_lookup_insert(mid, ps_key(), rep.name@, port_key());
        lemma_lookup_insert(env, port_key(), rep.port@, ps_key());
        assert forall|key: Seq<char>| key != ps_key() && key != port_key() implies lookup(
            rep.env@,
            key,
        ) == lookup(env, key) by {
            lemma_lookup_insert(mid, ps_key(), rep.name@, key);
            lemma_lookup_insert(env, port_key(), rep.port@, key);
        }
    }
}

/// A formation whose counts are all zero, or a Procfile with no entries,
/// launches no replica, and the start barrier waits for the supervisor alone.
pub proof fn lemma_no_replicas(
    plan: &StartPlan,
    e: Seq<(Seq<char>, EntryModel)>,
    env: Seq<(Seq<char>, Seq<char>)>,
    b: nat,
)
    requires
        plan_matches(plan, e, env, b),
        plan.barrier_parties == total_concurrency(e) + 1,
        forall|i: int| 0 <= i < e.len() ==> (#[trigger] e[i]).1.1 == 0,
    ensures
        plan.replicas@.len() == 0,
        plan.barrier_parties == 1,
{
    lemma_zero_total(e);
    lemma_slots_len(e);
}

proof fn lemma_zero_total(e: Seq<(Seq<char>, EntryModel)>)
    requires
        forall|i: int| 0 <= i < e.len() ==> (#[trigger] e[i]).1.1 == 0,
    ensures
        total_concurrency(e) == 0,
    decreases e.len(),
{
    if e.len() > 0 {
        let e0 = e.drop_last();
        assert forall|i: int| 0 <= i < e0.len() implies (#[trigger] e0[i]).1.1 == 0 by {
            assert(e0[i] == e[i]);
        }
        lemma_zero_total(e0);
        assert(e[e.len() - 1].1.1 == 0);
    }
}

} // verus!
