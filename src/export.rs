//! The exporter's settings and the paths of its templates.
use crate::env::Env;
use crate::keyed::insert_entry;
use crate::num::{decimal, decimal_string, usize_value};
use crate::process::{base_port_text, opt_view, port_for, port_key, port_number, PortError};
use crate::procfile::{EntryModel, Procfile};
use crate::start::{lemma_slots_bounds, lemma_slots_len, lemma_slots_prefix, slots, type_slots};
use vstd::prelude::*;

verus! {

/// Settings for writing supervision scripts of a Procfile.
pub struct Exporter {
    pub procfile: Procfile,
    pub format: String,
    pub location: String,
    pub app: Option<String>,
    pub formation: String,
    pub log_path: Option<String>,
    pub run_path: Option<String>,
    pub port: Option<String>,
    pub template_path: Option<String>,
    pub user: Option<String>,
    pub env_path: String,
    pub procfile_path: String,
    pub root_path: Option<String>,
    pub timeout: String,
}

/// `base` joined with the relative path `rel`: a `/` between them unless
/// `base` is empty or already ends in one.
pub open spec fn path_join(base: Seq<char>, rel: Seq<char>) -> Seq<char> {
    if base.len() == 0 {
        rel
    } else if base.last() == '/' {
        base + rel
    } else {
        base + seq!['/'] + rel
    }
}

pub open spec fn run_template() -> Seq<char> {
    "src/cmd/export/templates/runit/run.hbs"@
}

pub open spec fn log_run_template() -> Seq<char> {
    "src/cmd/export/templates/runit/log/run.hbs"@
}

/// The directory the template paths are relative to: the root path, or the
/// current directory `.` where none is set.
pub open spec fn root_of(root_path: Option<String>) -> Seq<char> {
    match root_path {
        Some(r) => r@,
        None => seq!['.'],
    }
}

fn join(base: &str, rel: &str) -> (r: String)
    ensures
        r@ == path_join(base@, rel@),
{
    let n = base.unicode_len();
    let mut s = String::from_str(base);
    if n > 0 && base.get_char(n - 1) != '/' {
        s.append("/");
        proof {
            reveal_strlit("/");
        }
    }
    s.append(rel);
    proof {
        if n > 0 {
            assert(base@.last() == base@[n - 1]);
        }
        assert(s@ =~= path_join(base@, rel@));
    }
    s
}

impl Default for Exporter {
    fn default() -> (r: Exporter)
        ensures
            r.procfile@.len() == 0,
            r.procfile.wf(),
            r.format@ == Seq::<char>::empty(),
            r.location@ == "location"@,
            r.app is None,
            r.formation@ == "all=1"@,
            r.log_path is None,
            r.run_path is None,
            r.port is None,
            r.template_path is None,
            r.user is None,
            r.env_path@ == ".env"@,
            r.procfile_path@ == "Procfile"@,
            r.root_path is None,
            r.timeout@ == "5"@,
    {
        Exporter {
            procfile: Procfile::new(),
            format: String::new(),
            location: String::from_str("location"),
            app: None,
            formation: String::from_str("all=1"),
            log_path: None,
            run_path: None,
            port: None,
            template_path: None,
            user: None,
            env_path: String::from_str(".env"),
            procfile_path: String::from_str("Procfile"),
            root_path: None,
            timeout: String::from_str("5"),
        }
    }
}

impl Exporter {
    fn boxed(self) -> (r: Box<Self>)
        ensures
            *r == self,
    {
        Box::new(self)
    }

    /// An exporter with the default settings, on the heap.
    pub fn boxed_new() -> (r: Box<Self>)
        ensures
            r.procfile@.len() == 0,
            r.procfile.wf(),
            r.formation@ == "all=1"@,
            r.env_path@ == ".env"@,
            r.procfile_path@ == "Procfile"@,
            r.timeout@ == "5"@,
            r.location@ == "location"@,
            r.app is None && r.port is None && r.root_path is None,
    {
        Self::default().boxed()
    }

    /// The directory the templates are found under.
    pub fn project_root_path(&self) -> (r: String)
        ensures
            r@ == root_of(self.root_path),
    {
        match &self.root_path {
            Some(p) => p.clone(),
            None => {
                proof {
                    reveal_strlit(".");
                }
                String::from_str(".")
            },
        }
    }

    /// The path of the template of a service's `run` script.
    pub fn run_tmpl_path(&self) -> (r: String)
        ensures
            r@ == path_join(root_of(self.root_path), run_template()),
    {
        let root = self.project_root_path();
        join(root.as_str(), "src/cmd/export/templates/runit/run.hbs")
    }

    /// The path of the template of a service's `log/run` script.
    pub fn log_run_tmpl_path(&self) -> (r: String)
        ensures
            r@ == path_join(root_of(self.root_path), log_run_template()),
    {
        let root = self.project_root_path();
        join(root.as_str(), "src/cmd/export/templates/runit/log/run.hbs")
    }
}

/// One supervised service: a replica of a process type.
pub struct Service {
    /// `<proctype>-<replica>`.
    pub process_name: String,
    /// `<app>-<proctype>-<replica>`.
    pub service_name: String,
    pub command: String,
    /// The environment file's entries with `PORT` set.
    pub env: Env,
}

pub open spec fn dashed(a: Seq<char>, r: nat) -> Seq<char> {
    a + seq!['-'] + decimal(r)
}

/// `s` is the service at position `k` of the entries `e`, which is replica
/// `slot.1` of the type at `slot.0`: services are numbered from 1 over all
/// types, and that number takes the place of the type's index in the port.
pub open spec fn service_matches(
    s: &Service,
    e: Seq<(Seq<char>, EntryModel)>,
    app: Seq<char>,
    env: Seq<(Seq<char>, Seq<char>)>,
    b: nat,
    k: int,
    slot: (nat, nat),
) -> bool {
    let i = slot.0 as int;
    let r = slot.1;
    let port = decimal(port_number(b, (k + 1) as nat, r) as nat);
    &&& s.process_name@ == dashed(e[i].0, r)
    &&& s.service_name@ == dashed(app + seq!['-'] + e[i].0, r)
    &&& s.command@ == e[i].1.0
    &&& s.env@ == insert_entry(env, port_key(), port)
}

fn dashed_string(a: &str, r: usize) -> (s: String)
    ensures
        s@ == dashed(a@, r as nat),
{
    let mut s = String::from_str(a);
    s.append("-");
    let d = decimal_string(r);
    s.append(d.as_str());
    proof {
        reveal_strlit("-");
        assert(s@ =~= dashed(a@, r as nat));
    }
    s
}

impl Exporter {
    /// Every service to write, in order: for each process type, replicas 1
    /// up to its count. Fails where the base port is not a number or a port
    /// does not fit a `usize`.
    pub fn services(&self, app: &str, env: &Env, ambient_port: Option<String>) -> (r: Result<Vec<Service>, PortError>)
        requires
            env.wf(),
        ensures
            ({
                let e = self.procfile@;
                let bopt = usize_value(base_port_text(opt_view(self.port), env@, opt_view(ambient_port)));
                let b: nat = if bopt is Some { bopt.unwrap() as nat } else { 0 };
                let fits = forall|k: int| 0 <= k < slots(e).len() ==> port_number(b, (k + 1) as nat, (#[trigger] slots(e)[k]).1) <= usize::MAX;
                match r {
                    Ok(v) => (slots(e).len() == 0 || (bopt is Some && fits))
                        && v@.len() == slots(e).len()
                        && forall|k: int| 0 <= k < v@.len() ==> service_matches(&#[trigger] v@[k], e, app@, env@, b, k, slots(e)[k]),
                    Err(PortError::InvalidBase) => slots(e).len() > 0 && bopt is None,
                    Err(PortError::Overflow) => bopt is Some && !fits,
                }
            }),
    {
        let ghost e = self.procfile@;
        let ghost bopt = usize_value(base_port_text(opt_view(self.port), env@, opt_view(ambient_port)));
        let ghost b: nat = if bopt is Some { bopt.unwrap() as nat } else { 0 };
        let mut out: Vec<Service> = Vec::new();
        let mut app_dash = String::from_str(app);
        app_dash.append("-");
        proof {
            reveal_strlit("-");
            reveal_strlit("PORT");
            assert("PORT"@ =~= port_key());
            assert(e.subrange(0, 0) =~= Seq::<(Seq<char>, EntryModel)>::empty());
            lemma_slots_prefix(e, 0);
            lemma_slots_len(e);
            lemma_slots_bounds(e);
        }
        let mut i: usize = 0;
        while i < self.procfile.len()
            invariant
                e == self.procfile@,
                env.wf(),
                app_dash@ == app@ + seq!['-'],
                "PORT"@ == port_key(),
                bopt == usize_value(base_port_text(opt_view(self.port), env@, opt_view(ambient_port))),
                b == if bopt is Some { bopt.unwrap() as nat } else { 0 },
                i <= e.len(),
                out@.len() == slots(e.subrange(0, i as int)).len(),
                slots(e).len() == crate::procfile::total_concurrency(e),
                forall|k: int|
                    0 <= k < slots(e).len() ==> (#[trigger] slots(e)[k]).0 < e.len() && 1 <= slots(e)[k].1
                        <= e[slots(e)[k].0 as int].1.1,
                forall|k: int|
                    0 <= k < out@.len() ==> service_matches(&#[trigger] out@[k], e, app@, env@, b, k, slots(e)[k])
                        && port_number(b, (k + 1) as nat, slots(e)[k].1) <= usize::MAX,
                out@.len() > 0 ==> bopt is Some,
            decreases e.len() - i,
        {
            let (name, entry) = self.procfile.entry(i);
            let con = entry.concurrency;
            let ghost pre = e.subrange(0, i as int);
            let ghost next = e.subrange(0, i + 1);
            proof {
                assert(next.drop_last() =~= pre);
                assert(next.last() == e[i as int]);
                lemma_slots_prefix(e, i + 1);
            }
            let service_prefix = {
                let mut s = app_dash.clone();
                s.append(name.as_str());
                s
            };
            let mut n: usize = 0;
            while n < con
                invariant
                    e == self.procfile@,
                    env.wf(),
                    "PORT"@ == port_key(),
                    bopt == usize_value(base_port_text(opt_view(self.port), env@, opt_view(ambient_port))),
                    b == if bopt is Some { bopt.unwrap() as nat } else { 0 },
                    i < e.len(),
                    next == e.subrange(0, i + 1),
                    next.drop_last() == pre,
                    next.last() == e[i as int],
                    pre == e.subrange(0, i as int),
                    name@ == e[i as int].0,
                    service_prefix@ == app@ + seq!['-'] + e[i as int].0,
                    entry.command@ == e[i as int].1.0,
                    con == e[i as int].1.1,
                    n <= con,
                    out@.len() == slots(pre).len() + n,
                    slots(next).len() <= slots(e).len(),
                    slots(e).len() == crate::procfile::total_concurrency(e),
                    forall|k: int|
                        0 <= k < slots(next).len() ==> #[trigger] slots(e)[k] == slots(next)[k],
                    forall|k: int|
                        0 <= k < out@.len() ==> service_matches(&#[trigger] out@[k], e, app@, env@, b, k, slots(e)[k])
                            && port_number(b, (k + 1) as nat, slots(e)[k].1) <= usize::MAX,
                    out@.len() > 0 ==> bopt is Some,
                decreases con - n,
            {
                let k = out.len();
                proof {
                    assert(slots(next) == slots(pre) + type_slots(i as nat, con as nat));
                    assert(slots(next)[k as int] == (i as nat, (n + 1) as nat));
                    assert(slots(e)[k as int] == (i as nat, (n + 1) as nat));
                }
                if k == usize::MAX {
                    // the service number k + 1 does not fit, and neither does its port
                    proof {
                        assert(port_number(b, (k + 1) as nat, (n + 1) as nat) > usize::MAX) by (nonlinear_arith)
                            requires
                                k == usize::MAX,
                        ;
                    }
                    return match self.port_base_error(env, clone_opt(&ambient_port)) {
                        Some(err) => Err(err),
                        None => Err(PortError::Overflow),
                    };
                }
                let port = match port_for(env, clone_opt(&self.port), clone_opt(&ambient_port), k + 1, n + 1) {
                    Ok(p) => p,
                    Err(err) => {
                        return Err(err);
                    },
                };
                let mut service_env = env.clone_env();
                service_env.insert(String::from_str("PORT"), port);
                let service = Service {
                    process_name: dashed_string(name.as_str(), n + 1),
                    service_name: dashed_string(service_prefix.as_str(), n + 1),
                    command: entry.command.clone(),
                    env: service_env,
                };
                out.push(service);
                n = n + 1;
                proof {
                    assert(service_matches(&out@[k as int], e, app@, env@, b, k as int, slots(e)[k as int]));
                }
            }
            i = i + 1;
        }
        proof {
            assert(e.subrange(0, i as int) =~= e);
        }
        Ok(out)
    }

    /// `InvalidBase` where the base port is not a number.
    fn port_base_error(&self, env: &Env, ambient_port: Option<String>) -> (r: Option<PortError>)
        ensures
            r is Some <==> usize_value(base_port_text(opt_view(self.port), env@, opt_view(ambient_port))) is None,
            r is Some ==> r == Some(PortError::InvalidBase),
    {
        let text = crate::process::base_port(clone_opt(&self.port), env, ambient_port);
        match crate::num::parse_usize(text.as_str()) {
            Some(_) => None,
            None => Some(PortError::InvalidBase),
        }
    }
}

fn clone_opt(o: &Option<String>) -> (r: Option<String>)
    ensures
        r == *o,
{
    match o {
        Some(s) => Some(s.clone()),
        None => None,
    }
}

} // verus!
