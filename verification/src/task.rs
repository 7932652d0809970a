//! Task descriptors and the per-execution decisions.
//!
//! A task carries what to run (a shell script or an argument vector), its
//! timing rule, and how the child's environment is shaped. The functions
//! here make the decisions an execution worker needs: the program and
//! argument vector to invoke, the resolved environment after the overlay
//! is applied, and whether the rule re-arms at dispatch time or after the
//! run finishes. Spawning the process itself happens outside the library.

use vstd::prelude::*;

use crate::rules::Time;

verus! {

/// What a task runs: a script handed to the shell, or a program with its
/// arguments.
#[derive(Debug, Clone)]
pub enum Command {
    Shell(String),
    Argv(Vec<String>),
}

/// One environment-overlay entry: set the variable, or remove it.
#[derive(Debug, Clone)]
pub enum EnvVal {
    Clear,
    Assign(String),
}

/// An immutable task descriptor.
#[derive(Debug, Clone)]
pub struct Task {
    pub name: String,
    pub command: Command,
    pub time: Time,
    pub shell: String,
    pub env: Vec<(String, EnvVal)>,
    pub clear_env: bool,
    pub on_startup: bool,
}

impl Command {
    pub open spec fn wf(self) -> bool {
        match self {
            Command::Shell(script) => script@.len() > 0,
            Command::Argv(args) => args@.len() > 0,
        }
    }
}

impl Task {
    pub open spec fn wf(self) -> bool {
        self.command.wf() && self.time.wf()
    }

    /// Whether the rule re-arms at dispatch time (*On* and *Every*, so the
    /// period is anchored to the scheduled instant) or only after the run
    /// finishes (*After*, so runs never overlap).
    pub fn rearms_at_dispatch(&self) -> (r: bool)
        ensures
            r == !(self.time is After),
    {
        match self.time {
            Time::After { .. } => false,
            _ => true,
        }
    }

    /// The program to invoke and its argument vector: the shell with
    /// a run-string flag and the script for a shell command, the first
    /// element and the rest for an argument vector.
    pub fn build_invocation(&self) -> (r: (String, Vec<String>))
        requires
            self.wf(),
        ensures
            match self.command {
                Command::Shell(script) => {
                    &&& r.0@ == self.shell@
                    &&& r.1@.len() == 2
                    &&& r.1@[0]@ == "-c"@
                    &&& r.1@[1]@ == script@
                },
                Command::Argv(args) => {
                    &&& r.0@ == args@[0]@
                    &&& r.1@.len() == args@.len() - 1
                    &&& forall|i: int| 0 <= i < r.1@.len() ==> r.1@[i]@ == args@[i + 1]@
                },
            },
    {
        match &self.command {
            Command::Shell(script) => {
                let mut args: Vec<String> = Vec::new();
                args.push(String::from_str("-c"));
                args.push(script.clone());
                (self.shell.clone(), args)
            },
            Command::Argv(argv) => {
                let program = argv[0].clone();
                let mut args: Vec<String> = Vec::new();
                let mut i: usize = 1;
                while i < argv.len()
                    invariant
                        1 <= i <= argv@.len(),
                        args@.len() == i - 1,
                        forall|j: int| 0 <= j < args@.len() ==> args@[j]@ == argv@[j + 1]@,
                    decreases argv@.len() - i,
                {
                    args.push(argv[i].clone());
                    i += 1;
                }
                (program, args)
            },
        }
    }
}

/// The value the variable `k` ends up with: the last entry for `k` wins.
pub open spec fn lookup(entries: Seq<(String, String)>, k: Seq<char>) -> Option<Seq<char>>
    decreases entries.len(),
{
    if entries.len() == 0 {
        None
    } else if entries.last().0@ == k {
        Some(entries.last().1@)
    } else {
        lookup(entries.drop_last(), k)
    }
}

/// The last overlay entry for `k`, if any.
pub open spec fn overlay_lookup(ov: Seq<(String, EnvVal)>, k: Seq<char>) -> Option<EnvVal>
    decreases ov.len(),
{
    if ov.len() == 0 {
        None
    } else if ov.last().0@ == k {
        Some(ov.last().1)
    } else {
        overlay_lookup(ov.drop_last(), k)
    }
}

/// No two entries name the same variable.
pub open spec fn distinct_keys(entries: Seq<(String, String)>) -> bool {
    forall|i: int, j: int| 0 <= i < j < entries.len() ==> entries[i].0@ != entries[j].0@
}

proof fn lemma_lookup_absent(s: Seq<(String, String)>, k: Seq<char>)
    requires
        forall|i: int| 0 <= i < s.len() ==> s[i].0@ != k,
    ensures
        lookup(s, k) is None,
    decreases s.len(),
{
    if s.len() > 0 {
        lemma_lookup_absent(s.drop_last(), k);
    }
}

proof fn lemma_lookup_remove(s: Seq<(String, String)>, j: int)
    requires
        distinct_keys(s),
        0 <= j < s.len(),
    ensures
        forall|k: Seq<char>|
            #[trigger] lookup(s.remove(j), k) == if k == s[j].0@ {
                None::<Seq<char>>
            } else {
                lookup(s, k)
            },
    decreases s.len(),
{
    if j == s.len() - 1 {
        assert(s.remove(j) =~= s.drop_last());
        assert forall|k: Seq<char>|
            #[trigger] lookup(s.remove(j), k) == if k == s[j].0@ {
                None::<Seq<char>>
            } else {
                lookup(s, k)
            } by {
            if k == s[j].0@ {
                lemma_lookup_absent(s.drop_last(), k);
            }
        }
    } else {
        assert(s.remove(j).drop_last() =~= s.drop_last().remove(j));
        assert(s.remove(j).last() == s.last());
        lemma_lookup_remove(s.drop_last(), j);
        assert forall|k: Seq<char>|
            #[trigger] lookup(s.remove(j), k) == if k == s[j].0@ {
                None::<Seq<char>>
            } else {
                lookup(s, k)
            } by {
            assert(lookup(s.drop_last().remove(j), k) == if k == s.drop_last()[j].0@ {
                None::<Seq<char>>
            } else {
                lookup(s.drop_last(), k)
            });
            assert(s.drop_last()[j].0@ == s[j].0@);
            if k == s.last().0@ {
                assert(s[j].0@ != s[s.len() - 1].0@);
            }
        }
    }
}

/// The environment a child process receives: the base environment (or an
/// empty one when `clear_env` is set) with the overlay applied in order,
/// later entries for the same variable winning.
pub fn resolve_env(base: Vec<(String, String)>, clear_env: bool, overlay: &Vec<(String, EnvVal)>)
    -> (r: Vec<(String, String)>)
    requires
        distinct_keys(base@),
    ensures
        distinct_keys(r@),
        forall|k: Seq<char>|
            #[trigger] lookup(r@, k) == match overlay_lookup(overlay@, k) {
                Some(EnvVal::Assign(v)) => Some(v@),
                Some(EnvVal::Clear) => None::<Seq<char>>,
                None => if clear_env {
                    None::<Seq<char>>
                } else {
                    lookup(base@, k)
                },
            },
{
    let ghost base_view = base@;
    let mut out: Vec<(String, String)> = if clear_env {
        Vec::new()
    } else {
        base
    };
    proof {
        if clear_env {
            assert forall|k: Seq<char>| #[trigger] lookup(out@, k) is None by {
                lemma_lookup_absent(out@, k);
            }
        }
    }
    let mut i: usize = 0;
    while i < overlay.len()
        invariant
            0 <= i <= overlay@.len(),
            distinct_keys(out@),
            forall|k: Seq<char>|
                #[trigger] lookup(out@, k) == match overlay_lookup(
                    overlay@.subrange(0, i as int),
                    k,
                ) {
                    Some(EnvVal::Assign(v)) => Some(v@),
                    Some(EnvVal::Clear) => None::<Seq<char>>,
                    None => if clear_env {
                        None::<Seq<char>>
                    } else {
                        lookup(base_view, k)
                    },
                },
        decreases overlay@.len() - i,
    {
        let entry = &overlay[i];
        remove_key(&mut out, &entry.0);
        let ghost mid = out@;
        proof {
            let sub = overlay@.subrange(0, i + 1);
            assert(sub.drop_last() =~= overlay@.subrange(0, i as int));
            assert(sub.last() == overlay@[i as int]);
        }
        match &entry.1 {
            EnvVal::Assign(v) => {
                out.push((entry.0.clone(), v.clone()));
                proof {
                    let sub = overlay@.subrange(0, i + 1);
                    assert(out@.drop_last() =~= mid);
                    assert(out@.last().0@ == overlay@[i as int].0@);
                    assert(overlay@[i as int].1 == EnvVal::Assign(*v));
                    assert(out@.last().1@ == v@);
                    assert forall|k: Seq<char>|
                        #[trigger] lookup(out@, k) == match overlay_lookup(sub, k) {
                            Some(EnvVal::Assign(vv)) => Some(vv@),
                            Some(EnvVal::Clear) => None::<Seq<char>>,
                            None => if clear_env {
                                None::<Seq<char>>
                            } else {
                                lookup(base_view, k)
                            },
                        } by {
                        if k == out@.last().0@ {
                            assert(lookup(out@, k) == Some(v@));
                            assert(overlay_lookup(sub, k) == Some(EnvVal::Assign(*v)));
                        } else {
                            assert(lookup(out@, k) == lookup(mid, k));
                        }
                    }
                    assert forall|a: int, b: int| 0 <= a < b < out@.len() implies out@[a].0@
                        != out@[b].0@ by {
                        if b == out@.len() - 1 {
                            assert(out@[b].0@ == entry.0@);
                            assert(lookup(mid, entry.0@) is None);
                            assert(out@[a] == mid[a]);
                            if mid[a].0@ == out@[b].0@ {
                                lemma_lookup_present(mid, a);
                            }
                        } else {
                            assert(out@[a] == mid[a] && out@[b] == mid[b]);
                        }
                    }
                }
            },
            EnvVal::Clear => {
                proof {
                    let sub = overlay@.subrange(0, i + 1);
                    assert(overlay@[i as int].1 == EnvVal::Clear);
                    assert forall|k: Seq<char>|
                        #[trigger] lookup(out@, k) == match overlay_lookup(sub, k) {
                            Some(EnvVal::Assign(vv)) => Some(vv@),
                            Some(EnvVal::Clear) => None::<Seq<char>>,
                            None => if clear_env {
                                None::<Seq<char>>
                            } else {
                                lookup(base_view, k)
                            },
                        } by {
                        if k == entry.0@ {
                            assert(overlay_lookup(sub, k) == Some(EnvVal::Clear));
                        }
                    }
                }
            },
        };
        i += 1;
    }
    proof {
        assert(overlay@.subrange(0, overlay@.len() as int) =~= overlay@);
    }
    out
}

proof fn lemma_lookup_present(s: Seq<(String, String)>, i: int)
    requires
        0 <= i < s.len(),
    ensures
        lookup(s, s[i].0@) is Some,
    decreases s.len(),
{
    if i < s.len() - 1 && s.last().0@ != s[i].0@ {
        lemma_lookup_present(s.drop_last(), i);
    }
}

/// Removes the entry for `key`, if one is there; everything else keeps
/// its value.
fn remove_key(out: &mut Vec<(String, String)>, key: &String)
    requires
        distinct_keys(old(out)@),
    ensures
        distinct_keys(final(out)@),
        forall|k: Seq<char>|
            #[trigger] lookup(final(out)@, k) == if k == key@ {
                None::<Seq<char>>
            } else {
                lookup(old(out)@, k)
            },
{
    let mut j: usize = 0;
    while j < out.len()
        invariant
            distinct_keys(out@),
            out@ == old(out)@,
            0 <= j <= out@.len(),
            forall|t: int| 0 <= t < j ==> out@[t].0@ != key@,
        decreases out@.len() - j,
    {
        if out[j].0 == *key {
            proof {
                lemma_lookup_remove(out@, j as int);
            }
            let ghost before = out@;
            out.remove(j);
            proof {
                assert(out@ =~= before.remove(j as int));
            }
            return ;
        }
        j += 1;
    }
    proof {
        assert forall|k: Seq<char>|
            #[trigger] lookup(out@, k) == if k == key@ {
                None::<Seq<char>>
            } else {
                lookup(old(out)@, k)
            } by {
            if k == key@ {
                lemma_lookup_absent(out@, k);
            }
        }
    }
}

} // verus!
