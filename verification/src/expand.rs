//! Expansion of `$(NAME)` references inside task arguments.
//!
//! A token `$(NAME)` is replaced by the resolver's value for `NAME` when one
//! is defined; otherwise the literal token is retained.  Values returned by
//! the resolver are inserted verbatim: expansion continues strictly after the
//! inserted text, so a value containing `$(...)` is never re-expanded.

use vstd::prelude::*;
use vstd::string::*;

verus! {

/// A finite environment resolver: an association list of variable bindings.
/// The earliest binding of a name wins.
pub struct EnvMap {
    pub vars: Vec<(String, String)>,
}

/// The mathematical reading of an association list, earliest binding winning.
pub open spec fn assoc_view(s: Seq<(String, String)>) -> Map<Seq<char>, Seq<char>>
    decreases s.len(),
{
    if s.len() == 0 {
        Map::empty()
    } else {
        assoc_view(s.skip(1)).insert(s[0].0@, s[0].1@)
    }
}

impl EnvMap {
    pub open spec fn view(&self) -> Map<Seq<char>, Seq<char>> {
        assoc_view(self.vars@)
    }

    pub fn new() -> (r: EnvMap)
        ensures
            r@ == Map::<Seq<char>, Seq<char>>::empty(),
    {
        EnvMap { vars: Vec::new() }
    }

    /// Bind `name` to `value`; an earlier binding of the same name still wins.
    pub fn push(&mut self, name: String, value: String)
        ensures
            final(self)@ == (if old(self)@.contains_key(name@) {
                old(self)@
            } else {
                old(self)@.insert(name@, value@)
            }),
    {
        let ghost old_vars = self.vars@;
        self.vars.push((name, value));
        proof {
            lemma_assoc_push(old_vars, self.vars@[old_vars.len() as int]);
            assert(self.vars@.take(old_vars.len() as int) =~= old_vars);
        }
    }

    /// First-match lookup of `name` among the bindings.
    pub fn lookup(&self, name: &String) -> (r: Option<&String>)
        ensures
            match r {
                Some(v) => self@.contains_key(name@) && v@ == self@[name@],
                None => !self@.contains_key(name@),
            },
    {
        let n = self.vars.len();
        let mut i: usize = 0;
        while i < n
            invariant
                n == self.vars.len(),
                i <= n,
                forall|j: int| 0 <= j < i ==> self.vars@[j].0@ != name@,
            decreases n - i,
        {
            if self.vars[i].0 == *name {
                proof {
                    lemma_assoc_first_match(self.vars@, name@, i as int);
                }
                return Some(&self.vars[i].1);
            }
            i = i + 1;
        }
        proof {
            lemma_assoc_absent(self.vars@, name@);
        }
        None
    }
}

/// Appending a binding changes the map only where the name was unbound.
proof fn lemma_assoc_push(s: Seq<(String, String)>, b: (String, String))
    ensures
        assoc_view(s.push(b)) == (if assoc_view(s).contains_key(b.0@) {
            assoc_view(s)
        } else {
            assoc_view(s).insert(b.0@, b.1@)
        }),
    decreases s.len(),
{
    if s.len() == 0 {
        assert(s.push(b)[0] == b);
        assert(s.push(b).skip(1) =~= Seq::<(String, String)>::empty());
        assert(s.push(b).len() == 1);
        assert(assoc_view(s.push(b)) == assoc_view(s.push(b).skip(1)).insert(s.push(b)[0].0@, s.push(b)[0].1@));
        assert(assoc_view(s.push(b).skip(1)) == Map::<Seq<char>, Seq<char>>::empty());
        assert(assoc_view(s) == Map::<Seq<char>, Seq<char>>::empty());
        assert(assoc_view(s.push(b)) =~= assoc_view(s).insert(b.0@, b.1@));
    } else {
        lemma_assoc_push(s.skip(1), b);
        assert(s.push(b).skip(1) =~= s.skip(1).push(b));
        if assoc_view(s).contains_key(b.0@) {
            if s[0].0@ == b.0@ {
                if assoc_view(s.skip(1)).contains_key(b.0@) {
                    assert(assoc_view(s.push(b)) =~= assoc_view(s));
                } else {
                    assert(assoc_view(s.push(b)) =~= assoc_view(s));
                }
            } else {
                assert(assoc_view(s.skip(1)).contains_key(b.0@));
                assert(assoc_view(s.push(b)) =~= assoc_view(s));
            }
        } else {
            assert(!assoc_view(s.skip(1)).contains_key(b.0@));
            assert(s[0].0@ != b.0@);
            assert(assoc_view(s.push(b)) =~= assoc_view(s).insert(b.0@, b.1@));
        }
    }
}

/// The first binding of `name` gives the map's value for it.
proof fn lemma_assoc_first_match(s: Seq<(String, String)>, name: Seq<char>, i: int)
    requires
        0 <= i < s.len(),
        forall|j: int| 0 <= j < i ==> s[j].0@ != name,
        s[i].0@ == name,
    ensures
        assoc_view(s).contains_key(name),
        assoc_view(s)[name] == s[i].1@,
    decreases i,
{
    if i == 0 {
    } else {
        assert(forall|j: int| 0 <= j < i - 1 ==> s.skip(1)[j].0@ != name);
        lemma_assoc_first_match(s.skip(1), name, i - 1);
    }
}

/// A name bound nowhere in the list is absent from the map.
proof fn lemma_assoc_absent(s: Seq<(String, String)>, name: Seq<char>)
    requires
        forall|j: int| 0 <= j < s.len() ==> s[j].0@ != name,
    ensures
        !assoc_view(s).contains_key(name),
    decreases s.len(),
{
    if s.len() == 0 {
    } else {
        assert(forall|j: int| 0 <= j < s.skip(1).len() ==> s.skip(1)[j].0@ != name);
        lemma_assoc_absent(s.skip(1), name);
    }
}

/// A `$(` opener starts at index `i` of `s`.
pub open spec fn is_open_at(s: Seq<char>, i: int) -> bool {
    0 <= i && i + 2 <= s.len() && s[i] == '$' && s[i + 1] == '('
}

/// Index of the first `)` at or after `i`, if any.
pub open spec fn find_close_from(s: Seq<char>, i: nat) -> Option<nat>
    decreases s.len() - i,
{
    if i >= s.len() {
        None
    } else if s[i as int] == ')' {
        Some(i)
    } else {
        find_close_from(s, i + 1)
    }
}

/// What expansion of `s` under resolver `env` yields.
///
/// The scan looks for the next `$(`; at one, the text up to the first `)`
/// names a variable.  A bound name is replaced by its value — inserted
/// verbatim, never rescanned — and the scan resumes after the `)`.  An
/// unbound name, or an opener with no closing `)`, is kept literally.
pub open spec fn expand_spec(s: Seq<char>, env: Map<Seq<char>, Seq<char>>) -> Seq<char>
    decreases s.len(),
{
    if s.len() < 2 {
        s
    } else if s[0] == '$' && s[1] == '(' {
        match find_close_from(s, 0) {
            None => s,
            Some(e) => {
                let rest = if e + 1 <= s.len() {
                    expand_spec(s.skip(e + 1 as int), env)
                } else {
                    Seq::empty()
                };
                let name = s.subrange(2, e as int);
                if env.contains_key(name) {
                    env[name] + rest
                } else {
                    s.subrange(0, e + 1 as int) + rest
                }
            },
        }
    } else {
        seq![s[0]] + expand_spec(s.skip(1), env)
    }
}

/// A scan that saw no `)` in `[i, e)` and a `)` at `e` found the first close.
proof fn lemma_find_close_found(s: Seq<char>, i: nat, e: nat)
    requires
        i <= e < s.len(),
        forall|j: int| i <= j < e ==> s[j] != ')',
        s[e as int] == ')',
    ensures
        find_close_from(s, i) == Some(e),
    decreases e - i,
{
    if i < e {
        lemma_find_close_found(s, i + 1, e);
    }
}

/// A scan that saw no `)` from `i` to the end finds no close at all.
proof fn lemma_find_close_none(s: Seq<char>, i: nat)
    requires
        forall|j: int| i <= j < s.len() ==> s[j] != ')',
    ensures
        find_close_from(s, i) == None::<nat>,
    decreases s.len() - i,
{
    if i < s.len() {
        lemma_find_close_none(s, i + 1);
    }
}

/// Text holding no `$(` opener before `k` passes through expansion unchanged
/// up to `k`; expansion continues on the remainder.
proof fn lemma_expand_skip_prefix(s: Seq<char>, k: int, env: Map<Seq<char>, Seq<char>>)
    requires
        0 <= k <= s.len(),
        forall|j: int| 0 <= j < k ==> !is_open_at(s, j),
    ensures
        expand_spec(s, env) == s.subrange(0, k) + expand_spec(s.skip(k), env),
    decreases k,
{
    if k == 0 {
        assert(s.skip(0) =~= s);
        assert(s.subrange(0, 0) + expand_spec(s, env) =~= expand_spec(s, env));
    } else if s.len() < 2 {
        assert(expand_spec(s.skip(k), env) == s.skip(k));
        assert(s.subrange(0, k) + s.skip(k) =~= s);
    } else {
        assert(!is_open_at(s, 0));
        assert(expand_spec(s, env) == seq![s[0]] + expand_spec(s.skip(1), env));
        let t = s.skip(1);
        assert(forall|j: int| 0 <= j < k - 1 ==> !is_open_at(t, j)) by {
            assert forall|j: int| 0 <= j < k - 1 implies !is_open_at(t, j) by {
                assert(!is_open_at(s, j + 1));
                if is_open_at(t, j) {
                    assert(t[j] == s[j + 1]);
                    assert(t[j + 1] == s[j + 2]);
                }
            }
        }
        lemma_expand_skip_prefix(t, k - 1, env);
        assert(t.skip(k - 1) =~= s.skip(k));
        vstd::seq_lib::lemma_concat_associative(
            seq![s[0]],
            t.subrange(0, k - 1),
            expand_spec(s.skip(k), env),
        );
        assert(seq![s[0]] + t.subrange(0, k - 1) =~= s.subrange(0, k));
    }
}

impl EnvMap {
    /// Expand every `$(NAME)` reference in `arg` against this resolver.
    pub fn expand_arg(&self, arg: &str) -> (r: String)
        ensures
            r@ == expand_spec(arg@, self@),
    {
        let ghost vp = arg@;
        let ghost env = self@;
        let n = arg.unicode_len();
        let mut result = String::new();
        let mut pos: usize = 0;
        proof {
            assert(vp.skip(0) =~= vp);
            assert(result@ + expand_spec(vp.skip(0), env) =~= expand_spec(vp, env));
        }
        while pos < n
            invariant
                n == vp.len(),
                vp == arg@,
                env == self@,
                pos <= n,
                result@ + expand_spec(vp.skip(pos as int), env) == expand_spec(vp, env),
            decreases n - pos,
        {
            // Scan for the next `$(` opener.
            let mut b: usize = pos;
            while n - b > 1 && !(arg.get_char(b) == '$' && arg.get_char(b + 1) == '(')
                invariant
                    n == vp.len(),
                    vp == arg@,
                    pos <= b <= n,
                    forall|j: int| pos <= j < b ==> !is_open_at(vp, j),
                decreases n - b,
            {
                b = b + 1;
            }
            let ghost t = vp.skip(pos as int);
            if n - b <= 1 {
                // No opener remains: the rest of the text passes through.
                proof {
                    assert forall|j: int| 0 <= j < t.len() implies !is_open_at(t, j) by {
                        if is_open_at(t, j) {
                            assert(t[j] == vp[pos + j]);
                            assert(t[j + 1] == vp[pos + j + 1]);
                            assert(is_open_at(vp, pos + j));
                        }
                    }
                    lemma_expand_skip_prefix(t, t.len() as int, env);
                    assert(expand_spec(t.skip(t.len() as int), env) == Seq::<char>::empty());
                    assert(t.subrange(0, t.len() as int) + Seq::<char>::empty() =~= t);
                    assert(vp.subrange(pos as int, n as int) =~= t);
                }
                let tail = arg.substring_char(pos, n);
                result.append(tail);
                proof {
                    assert(result@ == expand_spec(vp, env));
                    assert(vp.skip(n as int) =~= Seq::<char>::empty());
                    assert(result@ + Seq::<char>::empty() =~= result@);
                }
                pos = n;
            } else {
                // Opener at `b`; scan for the first `)` after it.
                proof {
                    assert(is_open_at(vp, b as int));
                }
                let mut e: usize = b + 2;
                while e < n && arg.get_char(e) != ')'
                    invariant
                        n == vp.len(),
                        vp == arg@,
                        b + 2 <= e <= n,
                        forall|j: int| b + 2 <= j < e ==> vp[j] != ')',
                    decreases n - e,
                {
                    e = e + 1;
                }
                let ghost t2 = vp.skip(b as int);
                proof {
                    assert forall|j: int| 0 <= j < b - pos implies !is_open_at(t, j) by {
                        if is_open_at(t, j) {
                            assert(t[j] == vp[pos + j]);
                            assert(t[j + 1] == vp[pos + j + 1]);
                            assert(is_open_at(vp, pos + j));
                        }
                    }
                    lemma_expand_skip_prefix(t, b - pos, env);
                    assert(t.skip(b - pos) =~= t2);
                    assert(t.subrange(0, b - pos) =~= vp.subrange(pos as int, b as int));
                    assert(t2[0] == '$' && t2[1] == '(');
                }
                if e >= n {
                    // Unterminated reference: kept literally, as is the rest.
                    proof {
                        assert forall|j: int| 0 <= j < t2.len() implies t2[j] != ')' by {
                            assert(t2[j] == vp[b + j]);
                        }
                        lemma_find_close_none(t2, 0);
                        assert(expand_spec(t2, env) == t2);
                        assert(vp.subrange(pos as int, b as int) + t2 =~= vp.subrange(
                            pos as int,
                            n as int,
                        ));
                    }
                    let tail = arg.substring_char(pos, n);
                    result.append(tail);
                    proof {
                        assert(result@ == expand_spec(vp, env));
                        assert(vp.skip(n as int) =~= Seq::<char>::empty());
                        assert(result@ + Seq::<char>::empty() =~= result@);
                    }
                    pos = n;
                } else {
                    proof {
                        assert(vp[e as int] == ')');
                        assert forall|j: int| 0 <= j < e - b implies t2[j] != ')' by {
                            assert(t2[j] == vp[b + j]);
                        }
                        assert(t2[e - b] == ')');
                        lemma_find_close_found(t2, 0, (e - b) as nat);
                    }
                    let ghost ec: nat = (e - b) as nat;
                    let ghost name = t2.subrange(2, ec as int);
                    let ghost rest = vp.skip(e + 1);
                    proof {
                        assert(t2.skip(ec + 1 as int) =~= rest);
                        assert(t2.subrange(2, ec as int) =~= vp.subrange(b + 2, e as int));
                    }
                    let name_str = arg.substring_char(b + 2, e);
                    let name_owned = name_str.to_owned();
                    let ghost result0 = result@;
                    match self.lookup(&name_owned) {
                        Some(value) => {
                            proof {
                                assert(env.contains_key(name));
                                assert(expand_spec(t2, env) == env[name] + expand_spec(
                                    rest,
                                    env,
                                ));
                            }
                            let head = arg.substring_char(pos, b);
                            result.append(head);
                            result.append(value.as_str());
                            proof {
                                vstd::seq_lib::lemma_concat_associative(
                                    vp.subrange(pos as int, b as int),
                                    env[name],
                                    expand_spec(rest, env),
                                );
                                vstd::seq_lib::lemma_concat_associative(
                                    result0,
                                    vp.subrange(pos as int, b as int),
                                    env[name],
                                );
                                vstd::seq_lib::lemma_concat_associative(
                                    result0,
                                    vp.subrange(pos as int, b as int) + env[name],
                                    expand_spec(rest, env),
                                );
                                assert(result@ + expand_spec(rest, env) == expand_spec(vp, env));
                            }
                        },
                        None => {
                            proof {
                                assert(!env.contains_key(name));
                                assert(expand_spec(t2, env) == t2.subrange(0, ec + 1 as int)
                                    + expand_spec(rest, env));
                                assert(t2.subrange(0, ec + 1 as int) =~= vp.subrange(
                                    b as int,
                                    e + 1 as int,
                                ));
                                assert(vp.subrange(pos as int, b as int) + vp.subrange(
                                    b as int,
                                    e + 1 as int,
                                ) =~= vp.subrange(pos as int, e + 1 as int));
                            }
                            let head = arg.substring_char(pos, e + 1);
                            result.append(head);
                            proof {
                                vstd::seq_lib::lemma_concat_associative(
                                    vp.subrange(pos as int, b as int),
                                    vp.subrange(b as int, e + 1 as int),
                                    expand_spec(rest, env),
                                );
                                vstd::seq_lib::lemma_concat_associative(
                                    result0,
                                    vp.subrange(pos as int, e + 1 as int),
                                    expand_spec(rest, env),
                                );
                                assert(result@ + expand_spec(rest, env) == expand_spec(vp, env));
                            }
                        },
                    }
                    pos = e + 1;
                }
            }
        }
        proof {
            assert(vp.skip(pos as int) =~= Seq::<char>::empty());
            assert(expand_spec(vp.skip(pos as int), env) == vp.skip(pos as int));
            assert(result@ + Seq::<char>::empty() =~= result@);
        }
        result
    }

    /// Expand every argument of a task's command line.
    pub fn expand_args(&self, args: &Vec<String>) -> (r: Vec<String>)
        ensures
            r@.len() == args@.len(),
            forall|i: int| 0 <= i < args@.len() ==> r@[i]@ == expand_spec(args@[i]@, self@),
    {
        let mut result: Vec<String> = Vec::new();
        let n = args.len();
        let mut i: usize = 0;
        while i < n
            invariant
                n == args@.len(),
                i <= n,
                result@.len() == i,
                forall|j: int| 0 <= j < i ==> result@[j]@ == expand_spec(args@[j]@, self@),
            decreases n - i,
        {
            let expanded = self.expand_arg(args[i].as_str());
            result.push(expanded);
            i = i + 1;
        }
        result
    }
}

/// A value handed back by the resolver is inserted verbatim and never
/// re-expanded: for a bound name, expanding `$(NAME)` followed by any text
/// yields the bound value followed by the expansion of that text alone,
/// whatever `$(...)` references the value itself may contain.
pub proof fn lemma_expand_inserts_verbatim(
    name: Seq<char>,
    rest: Seq<char>,
    env: Map<Seq<char>, Seq<char>>,
)
    requires
        env.contains_key(name),
        forall|j: int| 0 <= j < name.len() ==> name[j] != ')',
    ensures
        expand_spec(seq!['$', '('] + name + seq![')'] + rest, env) == env[name] + expand_spec(
            rest,
            env,
        ),
{
    let s = seq!['$', '('] + name + seq![')'] + rest;
    assert(s.len() == name.len() + 3 + rest.len());
    assert(s[0] == '$');
    assert(s[1] == '(');
    let e: nat = (name.len() + 2) as nat;
    assert(s[e as int] == ')');
    assert forall|j: int| 0 <= j < e implies s[j] != ')' by {
        if 2 <= j < e {
            assert(s[j] == name[j - 2]);
        }
    }
    lemma_find_close_found(s, 0, e);
    assert(s.subrange(2, e as int) =~= name);
    assert(s.skip(e + 1 as int) =~= rest);
}

} // verus!
