//! A process tree grown by `fork` and pruned by `exit`: each process has a
//! list of children and a parent; the orphans of an exiting process go to
//! its parent or to the root.

use vstd::prelude::*;
use crate::afs::find_entry;
use crate::assoc::{first_key, assoc_get, assoc_put, law_assoc_get_put};
use crate::text::{chars_of, split_chars, split_spec, views_of};

verus! {

/// Why an action cannot be carried out (the simulator stops there).
#[derive(Clone, Copy, PartialEq, Eq, Structural, Debug)]
pub enum ForkError {
    /// The action is not `X+Y` or `X-`, or names a process that is not
    /// running.
    BadAction,
    /// The process has no list of children.
    NoChildren(char),
    /// The process has no parent.
    NoParent(char),
    /// The process is not in the list it should be in.
    Missing(char),
    /// The tree is deeper than the number of lists of children: it has a
    /// cycle.
    TooDeep,
}

/// An action: `X+Y` (X forks Y) or `X-` (X exits).
#[derive(Clone, Copy, PartialEq, Eq, Structural, Debug)]
pub enum ForkAction {
    Fork(char, char),
    Exit(char),
}

/// What an action did.
#[derive(Clone, Copy, PartialEq, Eq, Structural, Debug)]
pub enum ForkOutcome {
    Forked(char, char),
    Exited(char),
    /// The process has children and only leaves may exit.
    ExitRefused(char),
}

pub open spec fn kids_view(v: Seq<(char, Vec<char>)>) -> Seq<(char, Seq<char>)> {
    Seq::new(v.len(), |i: int| (v[i].0, v[i].1@))
}

proof fn lemma_first_key_view(v: Seq<(char, Vec<char>)>, k: char, i: int)
    requires
        0 <= i,
    ensures
        first_key(kids_view(v), k, i) == first_key(v, k, i),
    decreases v.len() - i,
{
    if i < v.len() {
        lemma_first_key_view(v, k, i + 1);
    }
}

/// The names `A` to `Z` and `a` to `z`.
pub open spec fn base_names() -> Seq<char> {
    seq![
        'A', 'B', 'C', 'D', 'E', 'F', 'G', 'H', 'I', 'J', 'K', 'L', 'M', 'N', 'O', 'P', 'Q', 'R', 'S', 'T', 'U', 'V', 'W', 'X', 'Y', 'Z',
        'a', 'b', 'c', 'd', 'e', 'f', 'g', 'h', 'i', 'j', 'k', 'l', 'm', 'n', 'o', 'p', 'q', 'r', 's', 't', 'u', 'v', 'w', 'x', 'y', 'z'
    ]
}

/// The next list of names: each name of `curr` as many times as there are
/// base names (a name is one character, so a longer name keeps only its
/// first).
pub open spec fn grow_spec(curr: Seq<char>, n: nat) -> Seq<char>
    decreases curr.len(),
{
    if curr.len() == 0 {
        Seq::empty()
    } else {
        grow_spec(curr.drop_last(), n) + Seq::new(n, |j: int| curr.last())
    }
}

pub struct ForkState {
    pub leaf_only: bool,
    pub local_reparent: bool,
    pub root: char,
    pub procs: Seq<char>,
    pub children: Seq<(char, Seq<char>)>,
    pub parents: Seq<(char, char)>,
    pub base: Seq<char>,
    pub curr: Seq<char>,
    pub idx: int,
}

/// The process tree: the running processes, each process's children and
/// parent, and the names still to give out.
pub struct Forker {
    pub leaf_only: bool,
    pub local_reparent: bool,
    pub root_name: char,
    pub process_list: Vec<char>,
    pub children: Vec<(char, Vec<char>)>,
    pub parents: Vec<(char, char)>,
    pub name_length: u32,
    pub base_names: Vec<char>,
    pub curr_names: Vec<char>,
    pub curr_index: usize,
}

impl View for Forker {
    type V = ForkState;

    open spec fn view(&self) -> ForkState {
        ForkState {
            leaf_only: self.leaf_only,
            local_reparent: self.local_reparent,
            root: self.root_name,
            procs: self.process_list@,
            children: kids_view(self.children@),
            parents: self.parents@,
            base: self.base_names@,
            curr: self.curr_names@,
            idx: self.curr_index as int,
        }
    }
}

/// `c` forked by `p`: `c` runs, has no children, is the last child of `p`
/// and has parent `p`.
pub open spec fn fork_spec(s: ForkState, p: char, c: char) -> Result<ForkState, ForkError> {
    let ch = assoc_put(s.children, c, Seq::<char>::empty());
    match assoc_get(ch, p) {
        None => Err(ForkError::NoChildren(p)),
        Some(kids) => Ok(ForkState {
            procs: s.procs.push(c),
            children: assoc_put(ch, p, kids.push(c)),
            parents: assoc_put(s.parents, c, p),
            ..s
        }),
    }
}

/// The processes of the subtree of `p`, `p` first, each followed by the
/// subtrees of its children in order; `fuel` bounds the depth.
pub open spec fn collect_spec(ch: Seq<(char, Seq<char>)>, p: char, fuel: nat) -> Result<Seq<char>, ForkError>
    decreases fuel, 0nat,
{
    if fuel == 0 {
        Err(ForkError::TooDeep)
    } else {
        match assoc_get(ch, p) {
            None => Err(ForkError::NoChildren(p)),
            Some(kids) => match collect_list(ch, kids, 0, (fuel - 1) as nat) {
                Err(e) => Err(e),
                Ok(rest) => Ok(seq![p] + rest),
            },
        }
    }
}

/// The subtrees of `kids[i..]`, one after the other.
pub open spec fn collect_list(ch: Seq<(char, Seq<char>)>, kids: Seq<char>, i: int, fuel: nat) -> Result<Seq<char>, ForkError>
    decreases fuel, kids.len() - i + 1,
{
    if i < 0 || i >= kids.len() {
        Ok(Seq::empty())
    } else {
        match collect_spec(ch, kids[i], fuel) {
            Err(e) => Err(e),
            Ok(a) => match collect_list(ch, kids, i + 1, fuel) {
                Err(e) => Err(e),
                Ok(b) => Ok(a + b),
            },
        }
    }
}

/// The depth bound for walking the tree: one more than the number of lists
/// of children, which no path without a cycle exceeds.
pub open spec fn depth_bound(s: ForkState) -> nat {
    (s.children.len() + 1) as nat
}

/// `p`'s children, handed to `to` one by one: each gets parent `to` and
/// joins the end of `to`'s children.
pub open spec fn adopt_spec(ch: Seq<(char, Seq<char>)>, par: Seq<(char, char)>, to: char, orphans: Seq<char>, i: int) -> Result<
    (Seq<(char, Seq<char>)>, Seq<(char, char)>),
    ForkError,
>
    decreases orphans.len() - i,
{
    if i < 0 || i >= orphans.len() {
        Ok((ch, par))
    } else {
        let o = orphans[i];
        let par1 = assoc_put(par, o, to);
        match assoc_get(ch, to) {
            None => Err(ForkError::NoChildren(to)),
            Some(kids) => adopt_spec(assoc_put(ch, to, kids.push(o)), par1, to, orphans, i + 1),
        }
    }
}

/// The descendants `ds[i..]` moved to the root: each loses its children,
/// gets the root as parent and joins the end of the root's children.
pub open spec fn to_root_spec(ch: Seq<(char, Seq<char>)>, par: Seq<(char, char)>, root: char, ds: Seq<char>, i: int) -> Result<
    (Seq<(char, Seq<char>)>, Seq<(char, char)>),
    ForkError,
>
    decreases ds.len() - i,
{
    if i < 0 || i >= ds.len() {
        Ok((ch, par))
    } else {
        let d = ds[i];
        let ch1 = assoc_put(ch, d, Seq::<char>::empty());
        let par1 = assoc_put(par, d, root);
        match assoc_get(ch1, root) {
            None => Err(ForkError::NoChildren(root)),
            Some(kids) => to_root_spec(assoc_put(ch1, root, kids.push(d)), par1, root, ds, i + 1),
        }
    }
}

/// `p` exits: it stops running; its children go to its parent (local
/// reparenting) or all its descendants go to the root, each without
/// children; and it leaves its parent's children.
pub open spec fn exit_spec(s: ForkState, p: char) -> Result<ForkState, ForkError> {
    match assoc_get(s.parents, p) {
        None => Err(ForkError::NoParent(p)),
        Some(ep) => match s.procs.index_of_first(p) {
            None => Err(ForkError::Missing(p)),
            Some(pos) => {
                let procs = s.procs.remove(pos);
                let moved = if s.local_reparent {
                    match assoc_get(s.children, p) {
                        None => Err(ForkError::NoChildren(p)),
                        Some(orphans) => adopt_spec(s.children, s.parents, ep, orphans, 0),
                    }
                } else {
                    match collect_spec(s.children, p, depth_bound(s)) {
                        Err(e) => Err(e),
                        Ok(ds) => to_root_spec(s.children, s.parents, s.root, ds.drop_first(), 0),
                    }
                };
                match moved {
                    Err(e) => Err(e),
                    Ok((ch, par)) => match assoc_get(ch, ep) {
                        None => Err(ForkError::NoChildren(ep)),
                        Some(kids) => match kids.index_of_first(p) {
                            None => Err(ForkError::Missing(p)),
                            Some(k) => Ok(ForkState { procs, children: assoc_put(ch, ep, kids.remove(k)), parents: par, ..s }),
                        },
                    },
                }
            },
        },
    }
}

/// The action that the text `cs` describes: `X+Y` (two pieces around one
/// `+`, each starting with a name) or `X-` (two pieces around one `-`, the
/// first starting with a name).
pub open spec fn parse_action(cs: Seq<char>) -> Result<ForkAction, ForkError> {
    if cs.contains('+') {
        let parts = split_spec(cs, '+');
        if parts.len() != 2 || parts[0].len() == 0 || parts[1].len() == 0 {
            Err(ForkError::BadAction)
        } else {
            Ok(ForkAction::Fork(parts[0][0], parts[1][0]))
        }
    } else if cs.contains('-') {
        let parts = split_spec(cs, '-');
        if parts.len() != 2 || parts[0].len() == 0 {
            Err(ForkError::BadAction)
        } else {
            Ok(ForkAction::Exit(parts[0][0]))
        }
    } else {
        Err(ForkError::BadAction)
    }
}

/// Carrying out an action: the acting process must be running; with
/// leaves only, a process with children does not exit.
pub open spec fn apply_spec(s: ForkState, a: ForkAction) -> Result<(ForkState, ForkOutcome), ForkError> {
    match a {
        ForkAction::Fork(p, c) => if !s.procs.contains(p) {
            Err(ForkError::BadAction)
        } else {
            match fork_spec(s, p, c) {
                Err(e) => Err(e),
                Ok(t) => Ok((t, ForkOutcome::Forked(p, c))),
            }
        },
        ForkAction::Exit(p) => if !s.procs.contains(p) {
            Err(ForkError::BadAction)
        } else {
            match assoc_get(s.children, p) {
                None => Err(ForkError::NoChildren(p)),
                Some(kids) => if s.leaf_only && kids.len() > 0 {
                    Ok((s, ForkOutcome::ExitRefused(p)))
                } else {
                    match exit_spec(s, p) {
                        Err(e) => Err(e),
                        Ok(t) => Ok((t, ForkOutcome::Exited(p))),
                    }
                },
            }
        },
    }
}

fn vec_contains_char(v: &Vec<char>, c: char) -> (r: Option<usize>)
    ensures
        match r {
            Some(i) => v@.index_of_first(c) == Some(i as int),
            None => v@.index_of_first(c) is None,
        },
{
    let mut i: usize = 0;
    while i < v.len()
        invariant
            i <= v@.len(),
            forall|k: int| 0 <= k < i ==> v@[k] != c,
        decreases v@.len() - i,
    {
        if v[i] == c {
            proof {
                v@.index_of_first_ensures(c);
                assert(v@.contains(c));
                let j = v@.index_of_first(c)->0;
                assert(j == i);
            }
            return Some(i);
        }
        i = i + 1;
    }
    proof {
        v@.index_of_first_ensures(c);
        if v@.contains(c) {
            let j = v@.index_of_first(c)->0;
            assert(v@[j] != c);
        }
    }
    None
}

/// Reads an action such as `a+b` or `b-` (see `parse_action`).
pub fn check_legal(action: &str) -> (r: Result<ForkAction, ForkError>)
    ensures
        r == parse_action(action@),
{
    let cs = chars_of(action);
    if vec_contains_char(&cs, '+').is_some() {
        proof {
            cs@.index_of_first_ensures('+');
        }
        let parts = split_chars(&cs, '+');
        if parts.len() != 2 || parts[0].len() == 0 || parts[1].len() == 0 {
            proof {
                if parts@.len() == 2 {
                    assert(views_of(parts@)[0] == parts@[0]@);
                    assert(views_of(parts@)[1] == parts@[1]@);
                }
            }
            return Err(ForkError::BadAction);
        }
        assert(views_of(parts@)[0] == parts@[0]@);
        assert(views_of(parts@)[1] == parts@[1]@);
        Ok(ForkAction::Fork(parts[0][0], parts[1][0]))
    } else if vec_contains_char(&cs, '-').is_some() {
        proof {
            cs@.index_of_first_ensures('+');
            cs@.index_of_first_ensures('-');
        }
        let parts = split_chars(&cs, '-');
        if parts.len() != 2 || parts[0].len() == 0 {
            proof {
                if parts@.len() == 2 {
                    assert(views_of(parts@)[0] == parts@[0]@);
                }
            }
            return Err(ForkError::BadAction);
        }
        assert(views_of(parts@)[0] == parts@[0]@);
        Ok(ForkAction::Exit(parts[0][0]))
    } else {
        proof {
            cs@.index_of_first_ensures('+');
            cs@.index_of_first_ensures('-');
        }
        Err(ForkError::BadAction)
    }
}

impl Forker {
    /// A tree of the root `A` alone, without children, the names `B`, `C`,
    /// ... to give out next.
    pub fn new(leaf_only: bool, local_reparent: bool) -> (f: Forker)
        ensures
            f@ == (ForkState {
                leaf_only,
                local_reparent,
                root: 'A',
                procs: seq!['A'],
                children: seq![('A', Seq::<char>::empty())],
                parents: Seq::empty(),
                base: base_names(),
                curr: base_names(),
                idx: 1,
            }),
            f.name_length == 1,
    {
        let base: Vec<char> = vec![
            'A', 'B', 'C', 'D', 'E', 'F', 'G', 'H', 'I', 'J', 'K', 'L', 'M', 'N', 'O', 'P', 'Q', 'R', 'S', 'T', 'U', 'V', 'W', 'X', 'Y', 'Z',
            'a', 'b', 'c', 'd', 'e', 'f', 'g', 'h', 'i', 'j', 'k', 'l', 'm', 'n', 'o', 'p', 'q', 'r', 's', 't', 'u', 'v', 'w', 'x', 'y', 'z'
        ];
        let curr = base.clone();
        let mut process_list: Vec<char> = Vec::new();
        process_list.push('A');
        let mut children: Vec<(char, Vec<char>)> = Vec::new();
        children.push(('A', Vec::new()));
        let f = Forker {
            leaf_only,
            local_reparent,
            root_name: 'A',
            process_list,
            children,
            parents: Vec::new(),
            name_length: 1,
            base_names: base,
            curr_names: curr,
            curr_index: 1,
        };
        assert(f@.base =~= base_names());
        assert(f@.curr =~= base_names());
        assert(f@.procs =~= seq!['A']);
        assert(f@.children =~= seq![('A', Seq::<char>::empty())]);
        assert(f@.parents =~= Seq::<(char, char)>::empty());
        f
    }

    /// The next list of names (see `grow_spec`), given out from its start.
    pub fn grow_names(&mut self)
        requires
            old(self)@.curr.len() * old(self)@.base.len() <= usize::MAX,
        ensures
            final(self)@ == (ForkState { curr: grow_spec(old(self)@.curr, old(self)@.base.len()), idx: 0, ..old(self)@ }),
    {
        let n = self.base_names.len();
        let mut new_names: Vec<char> = Vec::new();
        let mut i: usize = 0;
        while i < self.curr_names.len()
            invariant
                i <= self@.curr.len(),
                self@ == old(self)@,
                n == self@.base.len(),
                self@.curr.len() * n <= usize::MAX,
                new_names@ == grow_spec(self@.curr.take(i as int), n as nat),
            decreases self@.curr.len() - i,
        {
            let b1 = self.curr_names[i];
            let ghost before = new_names@;
            proof {
                assert(self@.curr.take(i + 1).drop_last() =~= self@.curr.take(i as int));
                assert(self@.curr.take(i + 1).last() == b1);
            }
            let mut j: usize = 0;
            while j < n
                invariant
                    j <= n,
                    new_names@ == before + Seq::new(j as nat, |k: int| b1),
                decreases n - j,
            {
                new_names.push(b1);
                j = j + 1;
                assert(new_names@ =~= before + Seq::new(j as nat, |k: int| b1));
            }
            i = i + 1;
        }
        assert(self@.curr.take(i as int) =~= self@.curr);
        self.curr_names = new_names;
        self.curr_index = 0;
    }

    /// The next name to give out, growing the list of names when it is used
    /// up.
    pub fn get_name(&mut self) -> (name: char)
        requires
            old(self)@.curr.len() * old(self)@.base.len() <= usize::MAX,
            old(self)@.base.len() > 0,
            old(self)@.idx <= old(self)@.curr.len(),
            old(self)@.curr.len() > 0,
        ensures
            ({
                let t = if old(self)@.idx == old(self)@.curr.len() {
                    ForkState { curr: grow_spec(old(self)@.curr, old(self)@.base.len()), idx: 0, ..old(self)@ }
                } else {
                    old(self)@
                };
                &&& name == t.curr[t.idx]
                &&& final(self)@ == (ForkState { idx: t.idx + 1, ..t })
            }),
    {
        if self.curr_index == self.curr_names.len() {
            self.grow_names();
            proof {
                lemma_grow_len(old(self)@.curr, old(self)@.base.len());
                let a = old(self)@.curr.len();
                let b = old(self)@.base.len();
                assert(a * b >= 1) by (nonlinear_arith)
                    requires
                        a >= 1,
                        b >= 1,
                ;
            }
        }
        let name = self.curr_names[self.curr_index];
        self.curr_index = self.curr_index + 1;
        name
    }

    fn kids_of(&self, k: char) -> (r: Option<Vec<char>>)
        ensures
            match r {
                Some(v) => assoc_get(self@.children, k) == Some(v@),
                None => assoc_get(self@.children, k) is None,
            },
    {
        proof {
            lemma_first_key_view(self.children@, k, 0);
        }
        match find_entry(&self.children, k) {
            Some(i) => Some(self.children[i].1.clone()),
            None => None,
        }
    }

    fn set_kids(&mut self, k: char, v: Vec<char>)
        ensures
            final(self)@ == (ForkState { children: assoc_put(old(self)@.children, k, v@), ..old(self)@ }),
    {
        proof {
            lemma_first_key_view(self.children@, k, 0);
        }
        let ghost c0 = self@.children;
        match find_entry(&self.children, k) {
            Some(i) => {
                let ghost vv = v@;
                self.children.set(i, (k, v));
                assert(self@.children =~= c0.update(i as int, (k, vv)));
            },
            None => {
                let ghost vv = v@;
                self.children.push((k, v));
                assert(self@.children =~= c0.push((k, vv)));
            },
        }
    }

    fn set_parent(&mut self, k: char, p: char)
        ensures
            final(self)@ == (ForkState { parents: assoc_put(old(self)@.parents, k, p), ..old(self)@ }),
    {
        match find_entry(&self.parents, k) {
            Some(i) => {
                self.parents.set(i, (k, p));
            },
            None => {
                self.parents.push((k, p));
            },
        }
    }

    fn parent_of(&self, k: char) -> (r: Option<char>)
        ensures
            r == assoc_get(self@.parents, k),
    {
        match find_entry(&self.parents, k) {
            Some(i) => Some(self.parents[i].1),
            None => None,
        }
    }

    fn push_kid(&mut self, k: char, c: char) -> (r: Result<(), ForkError>)
        ensures
            match assoc_get(old(self)@.children, k) {
                Some(kids) => r is Ok && final(self)@ == (ForkState { children: assoc_put(old(self)@.children, k, kids.push(c)), ..old(self)@ }),
                None => r == Err::<(), ForkError>(ForkError::NoChildren(k)),
            },
    {
        match self.kids_of(k) {
            None => Err(ForkError::NoChildren(k)),
            Some(mut v) => {
                v.push(c);
                self.set_kids(k, v);
                Ok(())
            },
        }
    }

    /// `p` forks `c` (see `fork_spec`).
    pub fn do_fork(&mut self, p: char, c: char) -> (r: Result<(), ForkError>)
        ensures
            match fork_spec(old(self)@, p, c) {
                Ok(t) => r is Ok && final(self)@ == t,
                Err(e) => r == Err::<(), ForkError>(e),
            },
    {
        let ghost s0 = self@;
        self.process_list.push(c);
        self.set_kids(c, Vec::new());
        match self.push_kid(p, c) {
            Err(e) => {
                return Err(e);
            },
            Ok(()) => {},
        }
        self.set_parent(c, p);
        assert(self@.procs =~= s0.procs.push(c));
        proof {
            let ch = assoc_put(s0.children, c, Seq::<char>::empty());
            assert(assoc_put(s0.children, c, Seq::<char>::empty()) == ch);
        }
        Ok(())
    }

    fn collect_x(&self, p: char, fuel: usize) -> (r: Result<Vec<char>, ForkError>)
        ensures
            match r {
                Ok(v) => collect_spec(self@.children, p, fuel as nat) == Ok::<Seq<char>, ForkError>(v@),
                Err(e) => collect_spec(self@.children, p, fuel as nat) == Err::<Seq<char>, ForkError>(e),
            },
        decreases fuel, 0nat,
    {
        if fuel == 0 {
            return Err(ForkError::TooDeep);
        }
        let kids = match self.kids_of(p) {
            None => {
                return Err(ForkError::NoChildren(p));
            },
            Some(k) => k,
        };
        let rest = match self.collect_list_x(&kids, 0, fuel - 1) {
            Err(e) => {
                return Err(e);
            },
            Ok(v) => v,
        };
        let mut out: Vec<char> = Vec::new();
        out.push(p);
        let mut k: usize = 0;
        while k < rest.len()
            invariant
                k <= rest@.len(),
                out@ == seq![p] + rest@.take(k as int),
            decreases rest@.len() - k,
        {
            out.push(rest[k]);
            k = k + 1;
            assert(out@ =~= seq![p] + rest@.take(k as int));
        }
        assert(rest@.take(k as int) =~= rest@);
        Ok(out)
    }

    fn collect_list_x(&self, kids: &Vec<char>, i: usize, fuel: usize) -> (r: Result<Vec<char>, ForkError>)
        requires
            i <= kids@.len(),
        ensures
            match r {
                Ok(v) => collect_list(self@.children, kids@, i as int, fuel as nat) == Ok::<Seq<char>, ForkError>(v@),
                Err(e) => collect_list(self@.children, kids@, i as int, fuel as nat) == Err::<Seq<char>, ForkError>(e),
            },
        decreases fuel, kids@.len() - i + 1,
    {
        if i >= kids.len() {
            return Ok(Vec::new());
        }
        let a = match self.collect_x(kids[i], fuel) {
            Err(e) => {
                return Err(e);
            },
            Ok(v) => v,
        };
        let b = match self.collect_list_x(kids, i + 1, fuel) {
            Err(e) => {
                return Err(e);
            },
            Ok(v) => v,
        };
        let mut out = a;
        let ghost a0 = out@;
        let mut k: usize = 0;
        while k < b.len()
            invariant
                k <= b@.len(),
                out@ == a0 + b@.take(k as int),
            decreases b@.len() - k,
        {
            out.push(b[k]);
            k = k + 1;
            assert(out@ =~= a0 + b@.take(k as int));
        }
        assert(b@.take(k as int) =~= b@);
        Ok(out)
    }

    /// The subtree of `p`, `p` first (see `collect_spec`, with the depth
    /// bound `depth_bound`); `TooDeep` where the tree has a cycle.
    pub fn collect_children(&self, p: char) -> (r: Result<Vec<char>, ForkError>)
        requires
            self@.children.len() < usize::MAX,
        ensures
            match r {
                Ok(v) => collect_spec(self@.children, p, depth_bound(self@)) == Ok::<Seq<char>, ForkError>(v@),
                Err(e) => collect_spec(self@.children, p, depth_bound(self@)) == Err::<Seq<char>, ForkError>(e),
            },
    {
        let fuel = self.children.len() + 1;
        assert(fuel as nat == depth_bound(self@));
        self.collect_x(p, fuel)
    }

    /// `p` exits (see `exit_spec`).
    pub fn do_exit(&mut self, p: char) -> (r: Result<(), ForkError>)
        requires
            old(self)@.children.len() < usize::MAX,
        ensures
            match exit_spec(old(self)@, p) {
                Ok(t) => r is Ok && final(self)@ == t,
                Err(e) => r == Err::<(), ForkError>(e),
            },
    {
        let ep = match self.parent_of(p) {
            None => {
                return Err(ForkError::NoParent(p));
            },
            Some(e) => e,
        };
        let pos = match vec_contains_char(&self.process_list, p) {
            None => {
                return Err(ForkError::Missing(p));
            },
            Some(i) => i,
        };
        proof {
            self@.procs.index_of_first_ensures(p);
        }
        let ghost s0 = self@;
        let descendants = if self.local_reparent {
            None
        } else {
            match self.collect_children(p) {
                Err(e) => {
                    return Err(e);
                },
                Ok(v) => Some(v),
            }
        };
        self.process_list.remove(pos);
        assert(self@.procs =~= s0.procs.remove(pos as int));
        let ghost s1 = self@;
        if self.local_reparent {
            let orphans = match self.kids_of(p) {
                None => {
                    return Err(ForkError::NoChildren(p));
                },
                Some(k) => k,
            };
            let mut i: usize = 0;
            while i < orphans.len()
                invariant
                    i <= orphans@.len(),
                    s0 == old(self)@,
                    s0.local_reparent,
                    assoc_get(s0.parents, p) == Some(ep),
                    s0.procs.index_of_first(p) == Some(pos as int),
                    s1 == (ForkState { procs: s0.procs.remove(pos as int), ..s0 }),
                    assoc_get(s0.children, p) == Some(orphans@),
                    self@ == (ForkState { children: self@.children, parents: self@.parents, ..s1 }),
                    adopt_spec(s1.children, s1.parents, ep, orphans@, 0) == adopt_spec(self@.children, self@.parents, ep, orphans@, i as int),
                decreases orphans@.len() - i,
            {
                let o = orphans[i];
                self.set_parent(o, ep);
                match self.push_kid(ep, o) {
                    Err(e) => {
                        return Err(e);
                    },
                    Ok(()) => {},
                }
                i = i + 1;
            }
        } else {
            let ds = match descendants {
                Some(v) => v,
                None => {
                    return Err(ForkError::TooDeep);
                },
            };
            let ghost dsv = ds@;
            let root = self.root_name;
            let mut i: usize = 1;
            proof {
                if dsv.len() > 0 {
                    assert(to_root_spec(s1.children, s1.parents, root, dsv.drop_first(), 0) == to_root_spec(s1.children, s1.parents, root, dsv.drop_first(), 0));
                }
            }
            while i < ds.len()
                invariant
                    1 <= i,
                    s0 == old(self)@,
                    !s0.local_reparent,
                    assoc_get(s0.parents, p) == Some(ep),
                    s0.procs.index_of_first(p) == Some(pos as int),
                    s1 == (ForkState { procs: s0.procs.remove(pos as int), ..s0 }),
                    i <= ds@.len() || ds@.len() == 0,
                    dsv == ds@,
                    collect_spec(s0.children, p, depth_bound(s0)) == Ok::<Seq<char>, ForkError>(dsv),
                    root == s1.root,
                    self@ == (ForkState { children: self@.children, parents: self@.parents, ..s1 }),
                    dsv.len() > 0 ==> to_root_spec(s1.children, s1.parents, root, dsv.drop_first(), 0) == to_root_spec(
                        self@.children,
                        self@.parents,
                        root,
                        dsv.drop_first(),
                        i - 1,
                    ),
                decreases ds@.len() - i,
            {
                let d = ds[i];
                assert(dsv.drop_first()[i - 1] == d);
                self.set_kids(d, Vec::new());
                self.set_parent(d, root);
                match self.push_kid(root, d) {
                    Err(e) => {
                        return Err(e);
                    },
                    Ok(()) => {},
                }
                i = i + 1;
            }
        }
        let mut kids = match self.kids_of(ep) {
            None => {
                return Err(ForkError::NoChildren(ep));
            },
            Some(k) => k,
        };
        let k = match vec_contains_char(&kids, p) {
            None => {
                return Err(ForkError::Missing(p));
            },
            Some(k) => k,
        };
        let ghost kv = kids@;
        proof {
            kv.index_of_first_ensures(p);
        }
        kids.remove(k);
        assert(kids@ =~= kv.remove(k as int));
        self.set_kids(ep, kids);
        Ok(())
    }

    /// Carries out `action` (see `apply_spec`).
    pub fn apply(&mut self, action: ForkAction) -> (r: Result<ForkOutcome, ForkError>)
        requires
            old(self)@.children.len() < usize::MAX,
        ensures
            match apply_spec(old(self)@, action) {
                Ok((t, o)) => r == Ok::<ForkOutcome, ForkError>(o) && final(self)@ == t,
                Err(e) => r == Err::<ForkOutcome, ForkError>(e),
            },
    {
        match action {
            ForkAction::Fork(p, c) => {
                if vec_contains_char(&self.process_list, p).is_none() {
                    proof {
                        self@.procs.index_of_first_ensures(p);
                    }
                    return Err(ForkError::BadAction);
                }
                proof {
                    self@.procs.index_of_first_ensures(p);
                }
                match self.do_fork(p, c) {
                    Err(e) => Err(e),
                    Ok(()) => Ok(ForkOutcome::Forked(p, c)),
                }
            },
            ForkAction::Exit(p) => {
                if vec_contains_char(&self.process_list, p).is_none() {
                    proof {
                        self@.procs.index_of_first_ensures(p);
                    }
                    return Err(ForkError::BadAction);
                }
                proof {
                    self@.procs.index_of_first_ensures(p);
                }
                let kids = match self.kids_of(p) {
                    None => {
                        return Err(ForkError::NoChildren(p));
                    },
                    Some(k) => k,
                };
                if self.leaf_only && kids.len() > 0 {
                    return Ok(ForkOutcome::ExitRefused(p));
                }
                match self.do_exit(p) {
                    Err(e) => Err(e),
                    Ok(()) => Ok(ForkOutcome::Exited(p)),
                }
            },
        }
    }
}

proof fn lemma_grow_len(curr: Seq<char>, n: nat)
    ensures
        grow_spec(curr, n).len() == curr.len() * n,
    decreases curr.len(),
{
    if curr.len() > 0 {
        lemma_grow_len(curr.drop_last(), n);
        assert(curr.len() * n == (curr.len() - 1) * n + n) by (nonlinear_arith);
    }
}
/// `m` with entry `k` set to `v` (entries are numbered from 0 without
/// gaps, so a new entry goes at the end).
pub open spec fn mask_set(m: Seq<bool>, k: int, v: bool) -> Seq<bool> {
    if k < m.len() {
        m.update(k, v)
    } else {
        m.push(v)
    }
}

/// The drawing in front of a name at depth `level`: a bar or blanks for
/// each ancestor level, then the branch; `None` where the mask lacks a
/// level.
pub open spec fn prefix_spec(pmask: Seq<bool>, level: int, is_last: bool) -> Option<Seq<char>>
    decreases level,
{
    if level <= 0 {
        Some(Seq::empty())
    } else if level > pmask.len() {
        None
    } else {
        let branch = if pmask[level - 1] {
            if is_last { seq!['\u{2514}', '\u{2500}', '\u{2500}', ' '] } else { seq!['\u{251c}', '\u{2500}', '\u{2500}', ' '] }
        } else {
            seq!['\u{2500}', '\u{2500}', '\u{2500}', ' ']
        };
        Some(bars_spec(pmask, level - 1) + branch)
    }
}

/// A bar or three blanks for each of the levels `0..n`.
pub open spec fn bars_spec(pmask: Seq<bool>, n: int) -> Seq<char>
    decreases n,
{
    if n <= 0 {
        Seq::empty()
    } else {
        bars_spec(pmask, n - 1) + if pmask[n - 1] { seq!['\u{2502}', ' ', ' '] } else { seq![' ', ' ', ' '] }
    }
}

pub open spec fn indent35() -> Seq<char> {
    Seq::new(35, |i: int| ' ')
}

/// The lines that draw the subtree of `p` at depth `level`, and the mask
/// of levels that still have siblings to come afterwards.
pub open spec fn walk_spec(ch: Seq<(char, Seq<char>)>, p: char, level: int, pmask: Seq<bool>, is_last: bool, fuel: nat) -> Result<
    (Seq<Seq<char>>, Seq<bool>),
    ForkError,
>
    decreases fuel, 0nat,
{
    if fuel == 0 {
        Err(ForkError::TooDeep)
    } else {
        match prefix_spec(pmask, level, is_last) {
            None => Err(ForkError::Missing(p)),
            Some(pre) => if is_last && level == 0 {
                Err(ForkError::Missing(p))
            } else {
                let line = indent35() + pre + seq![p];
                let pm1 = if is_last { mask_set(pmask, level - 1, false) } else { pmask };
                let pm2 = mask_set(pm1, level, true);
                match assoc_get(ch, p) {
                    None => Err(ForkError::NoChildren(p)),
                    Some(kids) => if kids.len() == 0 {
                        Ok((seq![line], pm2))
                    } else {
                        match walk_kids(ch, kids, 0, kids.last(), level + 1, pm2, (fuel - 1) as nat) {
                            Err(e) => Err(e),
                            Ok((lines, pm3)) => Ok((seq![line] + lines, pm3)),
                        }
                    },
                }
            },
        }
    }
}

/// The drawings of the children `kids[i..]`, stopping after the first one
/// named as the last child.
pub open spec fn walk_kids(ch: Seq<(char, Seq<char>)>, kids: Seq<char>, i: int, last: char, level: int, pmask: Seq<bool>, fuel: nat) -> Result<
    (Seq<Seq<char>>, Seq<bool>),
    ForkError,
>
    decreases fuel, kids.len() - i + 1,
{
    if i < 0 || i >= kids.len() {
        Ok((Seq::empty(), pmask))
    } else if kids[i] == last {
        walk_spec(ch, kids[i], level, pmask, true, fuel)
    } else {
        match walk_spec(ch, kids[i], level, pmask, false, fuel) {
            Err(e) => Err(e),
            Ok((l1, pm1)) => match walk_kids(ch, kids, i + 1, last, level, pm1, fuel) {
                Err(e) => Err(e),
                Ok((l2, pm2)) => Ok((l1 + l2, pm2)),
            },
        }
    }
}

fn mask_set_x(m: &mut Vec<bool>, k: usize, v: bool)
    ensures
        final(m)@ == mask_set(old(m)@, k as int, v),
{
    if k < m.len() {
        m.set(k, v);
    } else {
        m.push(v);
    }
}

fn prefix_x(pmask: &Vec<bool>, level: usize, is_last: bool) -> (r: Option<String>)
    ensures
        match r {
            Some(s) => prefix_spec(pmask@, level as int, is_last) == Some(s@),
            None => prefix_spec(pmask@, level as int, is_last) is None,
        },
{
    if level == 0 {
        let s = String::new();
        return Some(s);
    }
    if level > pmask.len() {
        return None;
    }
    let mut s = String::new();
    let mut i: usize = 0;
    while i < level - 1
        invariant
            1 <= level <= pmask@.len(),
            i <= level - 1,
            s@ == bars_spec(pmask@, i as int),
        decreases level - 1 - i,
    {
        if pmask[i] {
            s.push('\u{2502}');
        } else {
            s.push(' ');
        }
        s.push(' ');
        s.push(' ');
        i = i + 1;
        assert(s@ =~= bars_spec(pmask@, i as int));
    }
    let ghost bars = s@;
    if pmask[level - 1] {
        if is_last {
            s.push('\u{2514}');
        } else {
            s.push('\u{251c}');
        }
    } else {
        s.push('\u{2500}');
    }
    s.push('\u{2500}');
    s.push('\u{2500}');
    s.push(' ');
    proof {
        let branch = if pmask@[level - 1] {
            if is_last { seq!['\u{2514}', '\u{2500}', '\u{2500}', ' '] } else { seq!['\u{251c}', '\u{2500}', '\u{2500}', ' '] }
        } else {
            seq!['\u{2500}', '\u{2500}', '\u{2500}', ' ']
        };
        assert(s@ =~= bars + branch);
    }
    Some(s)
}

impl Forker {
    fn walk_x(&self, p: char, level: usize, pmask: &mut Vec<bool>, is_last: bool, fuel: usize, out: &mut Vec<String>) -> (r: Result<(), ForkError>)
        requires
            level + fuel < usize::MAX,
        ensures
            match walk_spec(self@.children, p, level as int, old(pmask)@, is_last, fuel as nat) {
                Ok((lines, pm)) => r is Ok && strings_of(final(out)@) == strings_of(old(out)@) + lines && final(pmask)@ == pm,
                Err(e) => r == Err::<(), ForkError>(e),
            },
        decreases fuel, 0nat,
    {
        if fuel == 0 {
            return Err(ForkError::TooDeep);
        }
        let pre = match prefix_x(pmask, level, is_last) {
            None => {
                return Err(ForkError::Missing(p));
            },
            Some(s) => s,
        };
        if is_last && level == 0 {
            return Err(ForkError::Missing(p));
        }
        let mut line = String::new();
        let mut k: usize = 0;
        while k < 35
            invariant
                k <= 35,
                line@ == Seq::new(k as nat, |i: int| ' '),
            decreases 35 - k,
        {
            line.push(' ');
            k = k + 1;
            assert(line@ =~= Seq::new(k as nat, |i: int| ' '));
        }
        let pcs = chars_of(pre.as_str());
        let mut m: usize = 0;
        let ghost l0 = line@;
        while m < pcs.len()
            invariant
                m <= pcs@.len(),
                line@ == l0 + pcs@.take(m as int),
            decreases pcs@.len() - m,
        {
            line.push(pcs[m]);
            m = m + 1;
            assert(line@ =~= l0 + pcs@.take(m as int));
        }
        assert(pcs@.take(m as int) =~= pcs@);
        line.push(p);
        assert(line@ =~= indent35() + pre@ + seq![p]);
        let ghost o0 = strings_of(out@);
        let ghost lv = line@;
        out.push(line);
        assert(strings_of(out@) =~= o0.push(lv));
        if is_last {
            mask_set_x(pmask, level - 1, false);
        }
        mask_set_x(pmask, level, true);
        let kids = match self.kids_of(p) {
            None => {
                return Err(ForkError::NoChildren(p));
            },
            Some(v) => v,
        };
        if kids.len() == 0 {
            assert(o0.push(lv) =~= o0 + seq![lv]);
            return Ok(());
        }
        let last = kids[kids.len() - 1];
        let ghost o1 = strings_of(out@);
        match self.walk_kids_x(&kids, 0, last, level + 1, pmask, fuel - 1, out) {
            Err(e) => Err(e),
            Ok(()) => {
                assert(strings_of(out@) =~= o0 + (seq![lv] + (strings_of(out@).subrange(o1.len() as int, strings_of(out@).len() as int))));
                Ok(())
            },
        }
    }

    fn walk_kids_x(&self, kids: &Vec<char>, i: usize, last: char, level: usize, pmask: &mut Vec<bool>, fuel: usize, out: &mut Vec<String>) -> (r: Result<(), ForkError>)
        requires
            i <= kids@.len(),
            level + fuel < usize::MAX,
        ensures
            match walk_kids(self@.children, kids@, i as int, last, level as int, old(pmask)@, fuel as nat) {
                Ok((lines, pm)) => r is Ok && strings_of(final(out)@) == strings_of(old(out)@) + lines && final(pmask)@ == pm,
                Err(e) => r == Err::<(), ForkError>(e),
            },
        decreases fuel, kids@.len() - i + 1,
    {
        if i >= kids.len() {
            assert(strings_of(out@) =~= strings_of(out@) + Seq::<Seq<char>>::empty());
            return Ok(());
        }
        if kids[i] == last {
            return self.walk_x(kids[i], level, pmask, true, fuel, out);
        }
        let ghost o0 = strings_of(out@);
        match self.walk_x(kids[i], level, pmask, false, fuel, out) {
            Err(e) => {
                return Err(e);
            },
            Ok(()) => {},
        }
        let ghost o1 = strings_of(out@);
        match self.walk_kids_x(kids, i + 1, last, level, pmask, fuel, out) {
            Err(e) => Err(e),
            Ok(()) => {
                proof {
                    let l1 = o1.subrange(o0.len() as int, o1.len() as int);
                    let l2 = strings_of(out@).subrange(o1.len() as int, strings_of(out@).len() as int);
                    assert(strings_of(out@) =~= o0 + (l1 + l2));
                }
                Ok(())
            },
        }
    }

    /// The lines that draw the tree from the root (see `walk_spec`, with
    /// the depth bound `depth_bound`); `TooDeep` where the tree has a cycle.
    pub fn print_tree(&self) -> (r: Result<Vec<String>, ForkError>)
        requires
            self@.children.len() + 2 < usize::MAX,
        ensures
            match walk_spec(self@.children, self@.root, 0, Seq::empty(), false, depth_bound(self@)) {
                Ok((lines, _)) => r matches Ok(v) && strings_of(v@) == lines,
                Err(e) => r == Err::<Vec<String>, ForkError>(e),
            },
    {
        let mut pmask: Vec<bool> = Vec::new();
        let mut out: Vec<String> = Vec::new();
        assert(strings_of(out@) =~= Seq::<Seq<char>>::empty());
        assert(pmask@ =~= Seq::<bool>::empty());
        let fuel = self.children.len() + 1;
        match self.walk_x(self.root_name, 0, &mut pmask, false, fuel, &mut out) {
            Err(e) => Err(e),
            Ok(()) => {
                assert(strings_of(out@) =~= Seq::<Seq<char>>::empty() + strings_of(out@));
                Ok(out)
            },
        }
    }
}

/// The basic drawing of the subtree of `p` at depth `level`: the name,
/// right-aligned in three places after three blanks for each level, then
/// the subtrees of its children in order.
pub open spec fn basic_walk(ch: Seq<(char, Seq<char>)>, p: char, level: int, fuel: nat) -> Result<Seq<Seq<char>>, ForkError>
    decreases fuel, 0nat,
{
    if fuel == 0 {
        Err(ForkError::TooDeep)
    } else {
        let line = indent35() + Seq::new((3 * level) as nat, |i: int| ' ') + seq![' ', ' ', p];
        match assoc_get(ch, p) {
            None => Err(ForkError::NoChildren(p)),
            Some(kids) => match basic_kids(ch, kids, 0, level + 1, (fuel - 1) as nat) {
                Err(e) => Err(e),
                Ok(rest) => Ok(seq![line] + rest),
            },
        }
    }
}

/// The basic drawings of the subtrees of `kids[i..]`, one after the other.
pub open spec fn basic_kids(ch: Seq<(char, Seq<char>)>, kids: Seq<char>, i: int, level: int, fuel: nat) -> Result<Seq<Seq<char>>, ForkError>
    decreases fuel, kids.len() - i + 1,
{
    if i < 0 || i >= kids.len() {
        Ok(Seq::empty())
    } else {
        match basic_walk(ch, kids[i], level, fuel) {
            Err(e) => Err(e),
            Ok(a) => match basic_kids(ch, kids, i + 1, level, fuel) {
                Err(e) => Err(e),
                Ok(b) => Ok(a + b),
            },
        }
    }
}

impl Forker {
    fn basic_walk_x(&self, p: char, level: usize, fuel: usize, out: &mut Vec<String>) -> (r: Result<(), ForkError>)
        requires
            level + fuel < usize::MAX,
        ensures
            match basic_walk(self@.children, p, level as int, fuel as nat) {
                Ok(lines) => r is Ok && strings_of(final(out)@) == strings_of(old(out)@) + lines,
                Err(e) => r == Err::<(), ForkError>(e),
            },
        decreases fuel, 0nat,
    {
        if fuel == 0 {
            return Err(ForkError::TooDeep);
        }
        let mut line = String::new();
        let mut k: usize = 0;
        while k < 35
            invariant
                k <= 35,
                line@ == Seq::new(k as nat, |i: int| ' '),
            decreases 35 - k,
        {
            line.push(' ');
            k = k + 1;
            assert(line@ =~= Seq::new(k as nat, |i: int| ' '));
        }
        let mut j: usize = 0;
        while j < level
            invariant
                j <= level,
                line@ == indent35() + Seq::new((3 * j) as nat, |i: int| ' '),
            decreases level - j,
        {
            line.push(' ');
            line.push(' ');
            line.push(' ');
            j = j + 1;
            assert(line@ =~= indent35() + Seq::new((3 * j) as nat, |i: int| ' '));
        }
        line.push(' ');
        line.push(' ');
        line.push(p);
        assert(line@ =~= indent35() + Seq::new((3 * level) as nat, |i: int| ' ') + seq![' ', ' ', p]);
        let kids = match self.kids_of(p) {
            None => {
                return Err(ForkError::NoChildren(p));
            },
            Some(v) => v,
        };
        let ghost o0 = strings_of(out@);
        let ghost lv = line@;
        out.push(line);
        assert(strings_of(out@) =~= o0.push(lv));
        let ghost o1 = strings_of(out@);
        match self.basic_kids_x(&kids, 0, level + 1, fuel - 1, out) {
            Err(e) => Err(e),
            Ok(()) => {
                assert(strings_of(out@) =~= o0 + (seq![lv] + (strings_of(out@).subrange(o1.len() as int, strings_of(out@).len() as int))));
                Ok(())
            },
        }
    }

    fn basic_kids_x(&self, kids: &Vec<char>, i: usize, level: usize, fuel: usize, out: &mut Vec<String>) -> (r: Result<(), ForkError>)
        requires
            i <= kids@.len(),
            level + fuel < usize::MAX,
        ensures
            match basic_kids(self@.children, kids@, i as int, level as int, fuel as nat) {
                Ok(lines) => r is Ok && strings_of(final(out)@) == strings_of(old(out)@) + lines,
                Err(e) => r == Err::<(), ForkError>(e),
            },
        decreases fuel, kids@.len() - i + 1,
    {
        if i >= kids.len() {
            assert(strings_of(out@) =~= strings_of(out@) + Seq::<Seq<char>>::empty());
            return Ok(());
        }
        let ghost o0 = strings_of(out@);
        match self.basic_walk_x(kids[i], level, fuel, out) {
            Err(e) => {
                return Err(e);
            },
            Ok(()) => {},
        }
        let ghost o1 = strings_of(out@);
        match self.basic_kids_x(kids, i + 1, level, fuel, out) {
            Err(e) => Err(e),
            Ok(()) => {
                proof {
                    let l1 = o1.subrange(o0.len() as int, o1.len() as int);
                    let l2 = strings_of(out@).subrange(o1.len() as int, strings_of(out@).len() as int);
                    assert(strings_of(out@) =~= o0 + (l1 + l2));
                }
                Ok(())
            },
        }
    }

    /// The lines of the basic drawing of the tree from the root (see
    /// `basic_walk`, with the depth bound `depth_bound`); `TooDeep` where
    /// the tree has a cycle.
    pub fn print_tree_basic(&self) -> (r: Result<Vec<String>, ForkError>)
        requires
            self@.children.len() + 2 < usize::MAX,
        ensures
            match basic_walk(self@.children, self@.root, 0, depth_bound(self@)) {
                Ok(lines) => r matches Ok(v) && strings_of(v@) == lines,
                Err(e) => r == Err::<Vec<String>, ForkError>(e),
            },
    {
        let mut out: Vec<String> = Vec::new();
        assert(strings_of(out@) =~= Seq::<Seq<char>>::empty());
        let fuel = self.children.len() + 1;
        match self.basic_walk_x(self.root_name, 0, fuel, &mut out) {
            Err(e) => Err(e),
            Ok(()) => {
                assert(strings_of(out@) =~= Seq::<Seq<char>>::empty() + strings_of(out@));
                Ok(out)
            },
        }
    }
}

pub open spec fn strings_of(v: Seq<String>) -> Seq<Seq<char>> {
    Seq::new(v.len(), |i: int| v[i]@)
}

/// A new tree (see `Forker::new`) gives out its first 51 names from the
/// list of base names without growing it, the `k`-th call returning
/// `base_names()[k]` for `k` from 1 to 51: `B` to `Z`, then `a` to `z`. No
/// two of these names are equal, and none is the root `A`.
pub proof fn law_first_names_distinct(i: int, j: int)
    requires
        1 <= i < j <= 51,
    ensures
        base_names().len() == 52,
        base_names()[0] == 'A',
        base_names()[i] != base_names()[j],
        base_names()[i] != 'A',
{
    let b = base_names();
    assert forall|x: int| 0 <= x < 52 implies (b[x] as u32) == (if x < 26 { 65 + x } else { 97 + (x - 26) }) by {
        assert(b[0] == 'A');
    }
}

/// After `p` forks `c`, `c` runs, has `p` as its parent, is the last of
/// `p`'s children, and (unless it is `p` itself) has no children.
pub proof fn law_fork_links(s: ForkState, p: char, c: char)
    requires
        fork_spec(s, p, c) is Ok,
    ensures
        ({
            let t = fork_spec(s, p, c)->Ok_0;
            &&& t.procs == s.procs.push(c)
            &&& assoc_get(t.parents, c) == Some(p)
            &&& assoc_get(t.children, p) matches Some(kids) && kids.len() > 0 && kids.last() == c
            &&& c != p ==> assoc_get(t.children, c) == Some(Seq::<char>::empty())
        }),
{
    let ch = assoc_put(s.children, c, Seq::<char>::empty());
    let kids = assoc_get(ch, p)->0;
    law_assoc_get_put(s.parents, c, p, c);
    law_assoc_get_put(ch, p, kids.push(c), p);
    law_assoc_get_put(ch, p, kids.push(c), c);
    law_assoc_get_put(s.children, c, Seq::<char>::empty(), c);
}

/// After `p` exits, the first occurrence of `p` has left the running
/// processes, and `p` has left the children of its parent.
pub proof fn law_exit_unlinks(s: ForkState, p: char)
    requires
        exit_spec(s, p) is Ok,
    ensures
        ({
            let t = exit_spec(s, p)->Ok_0;
            let ep = assoc_get(s.parents, p)->0;
            &&& s.procs.index_of_first(p) matches Some(pos) && t.procs == s.procs.remove(pos)
            &&& assoc_get(t.children, ep) matches Some(kids) && kids.len() + 1 == (match exit_spec_moved(s, p) {
                Ok((ch, _)) => assoc_get(ch, ep)->0.len(),
                Err(_) => 0,
            })
        }),
{
    let ep = assoc_get(s.parents, p)->0;
    let (ch, par) = exit_spec_moved(s, p)->Ok_0;
    let kids = assoc_get(ch, ep)->0;
    let k = kids.index_of_first(p)->0;
    kids.index_of_first_ensures(p);
    law_assoc_get_put(ch, ep, kids.remove(k), ep);
}

/// The children lists and parents after the orphans of `p` have moved (the
/// middle step of `exit_spec`).
pub open spec fn exit_spec_moved(s: ForkState, p: char) -> Result<(Seq<(char, Seq<char>)>, Seq<(char, char)>), ForkError> {
    let ep = assoc_get(s.parents, p)->0;
    if s.local_reparent {
        match assoc_get(s.children, p) {
            None => Err(ForkError::NoChildren(p)),
            Some(orphans) => adopt_spec(s.children, s.parents, ep, orphans, 0),
        }
    } else {
        match collect_spec(s.children, p, depth_bound(s)) {
            Err(e) => Err(e),
            Ok(ds) => to_root_spec(s.children, s.parents, s.root, ds.drop_first(), 0),
        }
    }
}

} // verus!
