//! Each replica's display name and `PORT`.
use crate::env::Env;
use crate::keyed::lookup;
use crate::num::{decimal, decimal_string, parse_usize, usize_value};
use vstd::prelude::*;

verus! {

/// How a process's output is laid out.
pub struct ProcessOpts {
    pub padding: usize,
    pub is_timestamp: bool,
}

/// The display name `<proctype>.<replica>`.
pub open spec fn ps_text(name: Seq<char>, replica: nat) -> Seq<char> {
    name + seq!['.'] + decimal(replica)
}

pub open spec fn port_key() -> Seq<char> {
    seq!['P', 'O', 'R', 'T']
}

pub open spec fn ps_key() -> Seq<char> {
    seq!['P', 'S']
}

pub open spec fn default_port() -> Seq<char> {
    seq!['5', '0', '0', '0']
}

/// The base port: the explicit one, else `PORT` of the environment file,
/// else `PORT` of the ambient environment, else `5000`.
pub open spec fn base_port_text(
    port: Option<Seq<char>>,
    env: Seq<(Seq<char>, Seq<char>)>,
    ambient: Option<Seq<char>>,
) -> Seq<char> {
    match port {
        Some(p) => p,
        None => match lookup(env, port_key()) {
            Some(v) => v,
            None => match ambient {
                Some(a) => a,
                None => default_port(),
            },
        },
    }
}

pub open spec fn opt_view(o: Option<String>) -> Option<Seq<char>> {
    match o {
        Some(s) => Some(s@),
        None => None,
    }
}

/// The port of replica `replica` (1-based) of the process type at `index`.
pub open spec fn port_number(base: nat, index: nat, replica: nat) -> int {
    base + index * 100 + replica - 1
}

/// Why no port could be given.
#[derive(Debug, Clone, Copy, PartialEq, Eq, Structural)]
pub enum PortError {
    /// The base port is not an unsigned integer.
    InvalidBase,
    /// The port does not fit a `usize`.
    Overflow,
}

/// The display name of a replica, `<process_name>.<concurrency>`.
pub fn ps_for(process_name: &str, concurrency: usize) -> (r: String)
    ensures
        r@ == ps_text(process_name@, concurrency as nat),
{
    let mut s = String::from_str(process_name);
    proof {
        reveal_strlit(".");
    }
    s.append(".");
    let d = decimal_string(concurrency);
    s.append(d.as_str());
    proof {
        assert(s@ =~= ps_text(process_name@, concurrency as nat));
    }
    s
}

/// The base port text, first match wins: `port`, then `PORT` in `env`, then
/// `ambient_port`, then `5000`.
pub fn base_port(port: Option<String>, env: &Env, ambient_port: Option<String>) -> (r: String)
    ensures
        r@ == base_port_text(opt_view(port), env@, opt_view(ambient_port)),
{
    proof {
        reveal_strlit("PORT");
        reveal_strlit("5000");
        assert("PORT"@ =~= port_key());
        assert("5000"@ =~= default_port());
    }
    match port {
        Some(p) => p,
        None => match env.get("PORT") {
            Some(v) => v.clone(),
            None => match ambient_port {
                Some(a) => a,
                None => String::from_str("5000"),
            },
        },
    }
}

/// The `PORT` of replica `concurrency` (1-based) of the process type at
/// `index`: the base port plus `index * 100` plus `concurrency - 1`.
pub fn port_for(
    env: &Env,
    port: Option<String>,
    ambient_port: Option<String>,
    index: usize,
    concurrency: usize,
) -> (r: Result<String, PortError>)
    requires
        concurrency >= 1,
    ensures
        match usize_value(base_port_text(opt_view(port), env@, opt_view(ambient_port))) {
            None => r == Err::<String, PortError>(PortError::InvalidBase),
            Some(b) => if port_number(b as nat, index as nat, concurrency as nat) <= usize::MAX {
                r is Ok && r->Ok_0@ == decimal(
                    port_number(b as nat, index as nat, concurrency as nat) as nat,
                )
            } else {
                r == Err::<String, PortError>(PortError::Overflow)
            },
        },
{
    let text = base_port(port, env, ambient_port);
    let b = match parse_usize(text.as_str()) {
        Some(b) => b,
        None => {
            return Err(PortError::InvalidBase);
        },
    };
    if index > (usize::MAX - b) / 100 {
        proof {
            assert(index * 100 > usize::MAX - b) by (nonlinear_arith)
                requires
                    index > (usize::MAX - b) / 100,
            ;
        }
        return Err(PortError::Overflow);
    }
    proof {
        assert(index * 100 <= usize::MAX - b) by (nonlinear_arith)
            requires
                index <= (usize::MAX - b) / 100,
        ;
    }
    let step = b + index * 100;
    if step > usize::MAX - (concurrency - 1) {
        return Err(PortError::Overflow);
    }
    let n = step + (concurrency - 1);
    Ok(decimal_string(n))
}

} // verus!
