use crate::interp::stmt::Stmt;
use crate::val::Val;
use vstd::prelude::*;
use vstd::string::*;

verus! {

/// The name a binding or function is stored under, compared by text.
pub open spec fn lookup_val(bs: Seq<(String, Val)>, name: Seq<char>) -> Option<Val>
    decreases bs.len(),
{
    if bs.len() == 0 {
        None
    } else if bs.last().0@ == name {
        Some(bs.last().1)
    } else {
        lookup_val(bs.drop_last(), name)
    }
}

/// The stored parameter names and body of a function, latest first.
pub open spec fn lookup_func(fs: Seq<(String, Vec<String>, Stmt)>, name: Seq<char>) -> Option<
    (Vec<String>, Stmt),
>
    decreases fs.len(),
{
    if fs.len() == 0 {
        None
    } else if fs.last().0@ == name {
        Some((fs.last().1, fs.last().2))
    } else {
        lookup_func(fs.drop_last(), name)
    }
}

/// The evaluator's environment: named values and named functions, the
/// latest definition of a name winning.
pub struct Env {
    pub bindings: Vec<(String, Val)>,
    pub funcs: Vec<(String, Vec<String>, Stmt)>,
}

impl Default for Env {
    /// The empty environment.
    fn default() -> (r: Env)
        ensures
            r.bindings@ =~= Seq::<(String, Val)>::empty(),
            r.funcs@ =~= Seq::<(String, Vec<String>, Stmt)>::empty(),
    {
        Env { bindings: Vec::new(), funcs: Vec::new() }
    }
}

impl Env {
    /// Stores a value under a name, shadowing earlier definitions.
    pub fn store_binding(&mut self, name: String, val: Val)
        ensures
            final (self).bindings@ == old(self).bindings@.push((name, val)),
            final (self).funcs == old(self).funcs,
    {
        self.bindings.push((name, val));
    }

    /// Stores a function under a name, shadowing earlier definitions.
    pub fn store_func(&mut self, name: String, params: Vec<String>, body: Stmt)
        ensures
            final (self).funcs@ == old(self).funcs@.push((name, params, body)),
            final (self).bindings == old(self).bindings,
    {
        self.funcs.push((name, params, body));
    }

    /// Looks a value up by name.
    pub fn get_binding(&self, name: &str) -> (r: Result<Val, String>)
        ensures
            match lookup_val(self.bindings@, name@) {
                Some(v) => r == Ok::<Val, String>(v),
                None => {
                    &&& r is Err
                    &&& r->Err_0@ == "binding with name '"@ + name@ + "' does not exist"@
                },
            },
    {
        let name_key = String::from_str(name);
        let mut i = self.bindings.len();
        proof {
            assert(self.bindings@.take(i as int) =~= self.bindings@);
        }
        while i > 0
            invariant
                i <= self.bindings@.len(),
                name_key@ == name@,
                lookup_val(self.bindings@, name@) == lookup_val(
                    self.bindings@.take(i as int),
                    name@,
                ),
            decreases i,
        {
            i = i - 1;
            proof {
                assert(self.bindings@.take(i + 1).drop_last() =~= self.bindings@.take(i as int));
                assert(self.bindings@.take(i + 1).last() == self.bindings@[i as int]);
            }
            if self.bindings[i].0 == name_key {
                return Ok(self.bindings[i].1);
            }
        }
        proof {
            assert(self.bindings@.take(0) =~= Seq::<(String, Val)>::empty());
        }
        let mut msg = String::new();
        msg.append("binding with name '");
        msg.append(name);
        msg.append("' does not exist");
        Err(msg)
    }

    /// Looks a function up by name.
    pub fn get_func(&self, name: &str) -> (r: Result<(&Vec<String>, &Stmt), String>)
        ensures
            match lookup_func(self.funcs@, name@) {
                Some(f) => match r {
                    Ok(pf) => pf.0@ == f.0@ && *pf.1 == f.1,
                    Err(_) => false,
                },
                None => {
                    &&& r is Err
                    &&& r->Err_0@ == "function with name '"@ + name@ + "' does not exist"@
                },
            },
    {
        let name_key = String::from_str(name);
        let mut i = self.funcs.len();
        proof {
            assert(self.funcs@.take(i as int) =~= self.funcs@);
        }
        while i > 0
            invariant
                i <= self.funcs@.len(),
                name_key@ == name@,
                lookup_func(self.funcs@, name@) == lookup_func(self.funcs@.take(i as int), name@),
            decreases i,
        {
            i = i - 1;
            proof {
                assert(self.funcs@.take(i + 1).drop_last() =~= self.funcs@.take(i as int));
                assert(self.funcs@.take(i + 1).last() == self.funcs@[i as int]);
            }
            if self.funcs[i].0 == name_key {
                return Ok((&self.funcs[i].1, &self.funcs[i].2));
            }
        }
        proof {
            assert(self.funcs@.take(0) =~= Seq::<(String, Vec<String>, Stmt)>::empty());
        }
        let mut msg = String::new();
        msg.append("function with name '");
        msg.append(name);
        msg.append("' does not exist");
        Err(msg)
    }

    /// A scope of its own that starts out seeing the current values. Values
    /// stored in the child stay in the child.
    pub fn create_child(&self) -> (r: Env)
        ensures
            r.bindings@ == self.bindings@,
            r.funcs@ =~= Seq::<(String, Vec<String>, Stmt)>::empty(),
    {
        let mut bindings: Vec<(String, Val)> = Vec::new();
        let mut i: usize = 0;
        proof {
            assert(self.bindings@.take(0) =~= Seq::<(String, Val)>::empty());
        }
        while i < self.bindings.len()
            invariant
                i <= self.bindings@.len(),
                bindings@ == self.bindings@.take(i as int),
            decreases self.bindings@.len() - i,
        {
            let name = self.bindings[i].0.clone();
            let val = self.bindings[i].1;
            proof {
                assert(self.bindings@.take(i + 1) =~= self.bindings@.take(i as int).push(
                    self.bindings@[i as int],
                ));
            }
            bindings.push((name, val));
            i = i + 1;
        }
        proof {
            assert(self.bindings@.take(self.bindings@.len() as int) =~= self.bindings@);
        }
        Env { bindings, funcs: Vec::new() }
    }
}

} // verus!
