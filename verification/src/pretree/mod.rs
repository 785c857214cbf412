//! A prefix tree of URL routing rules, one tree per HTTP method.
//!
//! A rule is a path of segments separated by `/`; a segment written `{name}`
//! (or `:name`) is a variable that matches any one segment of a queried path.
use vstd::prelude::*;

pub mod parse;

use crate::pretree::parse::{
    formatted,
    is_var_word,
    is_variable,
    no_braces,
    parse_path,
    parse_rule,
    segments,
    trim_colons,
    trim_start_colons,
    views,
};

verus! {

/// Why a routing rule could not be stored.
#[derive(Debug, PartialOrd, PartialEq)]
pub enum PreTreeErr {
    /// The HTTP method has no tree.
    MethodDisallow(String),
    /// The rule is stored already.
    Duplicated(String),
    /// The rule puts a second variable beside another one at the same level.
    Ambiguity(String),
    /// The rule could not be placed.
    Unknow(String),
}

/// Why the segments of a rule cannot go into a tree.
pub enum Conflict {
    /// Their node holds a rule already.
    Duplicate,
    /// One of them is a variable where the level has another variable.
    Ambiguous,
}

/// A node: the segment `name` that leads to it, its children, and, where a
/// rule ends here (`is_end`), the rule.
#[derive(Debug)]
pub struct Tree {
    pub rule: String,
    pub name: String,
    pub nodes: Vec<Tree>,
    pub is_end: bool,
    pub is_variable: bool,
}

/// The last child named `w`, or -1.
pub open spec fn last_named(nodes: Seq<Tree>, w: Seq<char>) -> int
    decreases nodes.len(),
{
    if nodes.len() == 0 {
        -1
    } else if nodes.last().name@ == w {
        nodes.len() - 1
    } else {
        last_named(nodes.drop_last(), w)
    }
}

/// The first child named `w`, or -1.
pub open spec fn first_named(nodes: Seq<Tree>, w: Seq<char>) -> int
    decreases nodes.len(),
{
    if nodes.len() == 0 {
        -1
    } else if first_named(nodes.drop_last(), w) >= 0 {
        first_named(nodes.drop_last(), w)
    } else if nodes.last().name@ == w {
        nodes.len() - 1
    } else {
        -1
    }
}

/// The first child that is a variable, or -1.
pub open spec fn first_var(nodes: Seq<Tree>) -> int
    decreases nodes.len(),
{
    if nodes.len() == 0 {
        -1
    } else if first_var(nodes.drop_last()) >= 0 {
        first_var(nodes.drop_last())
    } else if nodes.last().is_variable {
        nodes.len() - 1
    } else {
        -1
    }
}

/// Some child is a variable.
pub open spec fn any_var(nodes: Seq<Tree>) -> bool {
    exists|k: int| 0 <= k < nodes.len() && (#[trigger] nodes[k]).is_variable
}

/// What stops the segments `words` from going into `t`, if anything: the
/// walk follows the last child with each name; a missing variable segment
/// where the level has a variable is ambiguous; the node reached must not
/// hold a rule.
pub open spec fn clash(t: Tree, words: Seq<Seq<char>>) -> Option<Conflict>
    decreases words.len(),
{
    if words.len() == 0 {
        if t.is_end {
            Some(Conflict::Duplicate)
        } else {
            None
        }
    } else {
        let i = last_named(t.nodes@, words[0]);
        if 0 <= i < t.nodes@.len() {
            clash(t.nodes@[i], words.drop_first())
        } else if any_var(t.nodes@) && is_var_word(words[0]) {
            Some(Conflict::Ambiguous)
        } else {
            None
        }
    }
}

/// A node with no children and no rule, named `w`.
pub open spec fn is_fresh(f: Tree, w: Seq<char>) -> bool {
    &&& f.name@ == w
    &&& f.rule@ == Seq::<char>::empty()
    &&& f.nodes@.len() == 0
    &&& !f.is_end
    &&& f.is_variable == is_var_word(w)
}

/// `new` is `old` with the rule `rule` stored along the segments `words`:
/// the path follows existing children where it can and goes on through new
/// ones, and its last node holds the rule.
pub open spec fn inserted(old: Tree, new: Tree, words: Seq<Seq<char>>, rule: Seq<char>) -> bool
    decreases words.len(),
{
    &&& new.name == old.name
    &&& new.is_variable == old.is_variable
    &&& if words.len() == 0 {
        &&& new.nodes == old.nodes
        &&& new.is_end
        &&& new.rule@ == rule
    } else {
        let i = last_named(old.nodes@, words[0]);
        &&& new.is_end == old.is_end
        &&& new.rule == old.rule
        &&& if 0 <= i < old.nodes@.len() {
            &&& new.nodes@.len() == old.nodes@.len()
            &&& forall|j: int|
                0 <= j < old.nodes@.len() && j != i ==> #[trigger] new.nodes@[j] == old.nodes@[j]
            &&& inserted(old.nodes@[i], new.nodes@[i], words.drop_first(), rule)
        } else {
            &&& new.nodes@.len() == old.nodes@.len() + 1
            &&& forall|j: int| 0 <= j < old.nodes@.len() ==> #[trigger] new.nodes@[j] == old.nodes@[j]
            &&& exists|f: Tree|
                is_fresh(f, words[0]) && inserted(
                    f,
                    #[trigger] new.nodes@[old.nodes@.len() as int],
                    words.drop_first(),
                    rule,
                )
        }
    }
}

proof fn lemma_last_named(nodes: Seq<Tree>, w: Seq<char>)
    ensures
        -1 <= last_named(nodes, w) < nodes.len(),
        last_named(nodes, w) >= 0 ==> nodes[last_named(nodes, w)].name@ == w,
        forall|k: int| last_named(nodes, w) < k < nodes.len() ==> (#[trigger] nodes[k]).name@ != w,
    decreases nodes.len(),
{
    if nodes.len() > 0 {
        let d = nodes.drop_last();
        lemma_last_named(d, w);
        assert forall|k: int| last_named(nodes, w) < k < nodes.len() implies (
        #[trigger] nodes[k]).name@ != w by {
            if k < nodes.len() - 1 {
                assert(nodes[k] == d[k]);
            }
        }
    }
}

proof fn lemma_first_named(nodes: Seq<Tree>, w: Seq<char>)
    ensures
        -1 <= first_named(nodes, w) < nodes.len(),
        first_named(nodes, w) >= 0 ==> nodes[first_named(nodes, w)].name@ == w,
        first_named(nodes, w) < 0 ==> forall|k: int|
            0 <= k < nodes.len() ==> (#[trigger] nodes[k]).name@ != w,
        forall|k: int| 0 <= k < first_named(nodes, w) ==> (#[trigger] nodes[k]).name@ != w,
    decreases nodes.len(),
{
    if nodes.len() > 0 {
        let d = nodes.drop_last();
        lemma_first_named(d, w);
        assert forall|k: int| 0 <= k < nodes.len() - 1 implies #[trigger] nodes[k] == d[k] by {}
    }
}

proof fn lemma_first_var(nodes: Seq<Tree>)
    ensures
        -1 <= first_var(nodes) < nodes.len(),
        first_var(nodes) >= 0 ==> nodes[first_var(nodes)].is_variable,
        first_var(nodes) < 0 ==> forall|k: int|
            0 <= k < nodes.len() ==> !(#[trigger] nodes[k]).is_variable,
        forall|k: int| 0 <= k < first_var(nodes) ==> !(#[trigger] nodes[k]).is_variable,
    decreases nodes.len(),
{
    if nodes.len() > 0 {
        let d = nodes.drop_last();
        lemma_first_var(d);
        assert forall|k: int| 0 <= k < nodes.len() - 1 implies #[trigger] nodes[k] == d[k] by {}
    }
}

/// A fresh node takes any path of segments.
proof fn lemma_fresh_no_clash(f: Tree, w: Seq<char>, words: Seq<Seq<char>>)
    requires
        is_fresh(f, w),
    ensures
        clash(f, words) is None,
{
    if words.len() > 0 {
        assert(!any_var(f.nodes@));
    }
}

impl Tree {
    /// The segment that leads to this node.
    pub open spec fn label(&self) -> Seq<char> {
        self.name@
    }

    /// Whether this node is a variable.
    pub open spec fn var_flag(&self) -> bool {
        self.is_variable
    }

    /// The children.
    pub open spec fn children(&self) -> Seq<Tree> {
        self.nodes@
    }

    /// Whether a rule ends at this node.
    pub open spec fn ends(&self) -> bool {
        self.is_end
    }

    /// The rule that ends at this node.
    pub open spec fn rule_text(&self) -> Seq<char> {
        self.rule@
    }

    /// A node named `name` that is no variable, with no children and no
    /// rule.
    pub fn new(name: &str) -> (t: Self)
        ensures
            t.label() == name@,
            t.rule_text() == Seq::<char>::empty(),
            t.children().len() == 0,
            !t.ends(),
            !t.var_flag(),
    {
        Tree::variable(name, false)
    }

    /// A node named `name` that is a variable where `is_variable` says so.
    pub fn variable(name: &str, is_variable: bool) -> (t: Self)
        ensures
            t.label() == name@,
            t.rule_text() == Seq::<char>::empty(),
            t.children().len() == 0,
            !t.ends(),
            t.var_flag() == is_variable,
    {
        Tree {
            rule: String::new(),
            name: name.to_owned(),
            nodes: Vec::new(),
            is_end: false,
            is_variable,
        }
    }

    /// The name of the variable at this node: its segment without the
    /// leading `:` characters.
    pub fn var_name(&self) -> (res: String)
        ensures
            res@ == trim_colons(self.label()),
    {
        trim_start_colons(self.name.as_str())
    }

    /// The last child named `w`, if any, and whether some child is a
    /// variable.
    fn find_child(&self, w: &String) -> (res: (Option<usize>, bool))
        ensures
            res.0 is Some ==> res.0->0 == last_named(self.nodes@, w@) && res.0->0 < self.nodes@.len(),
            res.0 is None ==> last_named(self.nodes@, w@) == -1,
            res.1 == any_var(self.nodes@),
    {
        let mut index: usize = 0;
        let mut found = false;
        let mut has_var = false;
        let mut i: usize = 0;
        while i < self.nodes.len()
            invariant
                i <= self.nodes@.len(),
                found ==> index < i && self.nodes@[index as int].name@ == w@,
                found ==> forall|q: int| index < q < i ==> (#[trigger] self.nodes@[q]).name@ != w@,
                !found ==> forall|q: int| 0 <= q < i ==> (#[trigger] self.nodes@[q]).name@ != w@,
                has_var == exists|q: int| 0 <= q < i && (#[trigger] self.nodes@[q]).is_variable,
            decreases self.nodes@.len() - i,
        {
            has_var = has_var || self.nodes[i].is_variable;
            if self.nodes[i].name == *w {
                index = i;
                found = true;
            }
            i += 1;
        }
        proof {
            lemma_last_named(self.nodes@, w@);
        }
        if found {
            (Some(index), has_var)
        } else {
            (None, has_var)
        }
    }

    /// What stops `words[k..]` from going in below this node, if anything.
    fn clash_at(&self, words: &Vec<String>, k: usize) -> (r: Option<Conflict>)
        requires
            k <= words@.len(),
        ensures
            r == clash(*self, views(words@).skip(k as int)),
        decreases words@.len() - k,
    {
        let ghost ws = views(words@).skip(k as int);
        if k == words.len() {
            if self.is_end {
                return Some(Conflict::Duplicate);
            }
            return None;
        }
        let w = &words[k];
        assert(ws[0] == w@);
        assert(views(words@).skip(k + 1) =~= ws.drop_first());
        let (index, has_var) = self.find_child(w);
        match index {
            Some(i) => self.nodes[i].clash_at(words, k + 1),
            None => {
                if has_var && is_variable(w.as_str()) {
                    Some(Conflict::Ambiguous)
                } else {
                    None
                }
            },
        }
    }

    /// Stores `rule` along `words[k..]` below this node, where nothing stops
    /// it.
    fn insert_at(&mut self, words: &Vec<String>, k: usize, rule: &str)
        requires
            k <= words@.len(),
            clash(*old(self), views(words@).skip(k as int)) is None,
        ensures
            inserted(*old(self), *final(self), views(words@).skip(k as int), rule@),
        decreases words@.len() - k,
    {
        let ghost ws = views(words@).skip(k as int);
        if k == words.len() {
            self.rule = rule.to_owned();
            self.is_end = true;
            return;
        }
        let w = &words[k];
        assert(ws[0] == w@);
        assert(views(words@).skip(k + 1) =~= ws.drop_first());
        let (index, _) = self.find_child(w);
        let ghost old_self = *self;
        match index {
            Some(i) => {
                let mut child = Tree::new("");
                self.nodes.set_and_swap(i, &mut child);
                child.insert_at(words, k + 1, rule);
                let ghost c1 = child;
                self.nodes.set_and_swap(i, &mut child);
                assert(self.nodes@ =~= old_self.nodes@.update(i as int, c1));
            },
            None => {
                let mut node = Tree::variable(w.as_str(), is_variable(w.as_str()));
                let ghost fresh = node;
                proof {
                    lemma_fresh_no_clash(fresh, w@, ws.drop_first());
                }
                node.insert_at(words, k + 1, rule);
                self.nodes.push(node);
                assert(is_fresh(fresh, ws[0]));
            },
        }
    }

    /// Stores the routing rule `url_rule` below this node: `Duplicated` where
    /// its node holds a rule already, `Ambiguity` where it would put a second
    /// variable at a level; nothing changes then.
    pub fn insert(&mut self, url_rule: &str) -> (res: Result<(), PreTreeErr>)
        ensures
            rule_stored(*old(self), *final(self), url_rule@, res),
    {
        let list = parse_rule(url_rule);
        assert(views(list@).skip(0) =~= views(list@));
        match self.clash_at(&list, 0) {
            Some(Conflict::Duplicate) => Err(PreTreeErr::Duplicated(url_rule.to_owned())),
            Some(Conflict::Ambiguous) => Err(PreTreeErr::Ambiguity(url_rule.to_owned())),
            None => {
                self.insert_at(&list, 0, url_rule);
                Ok(())
            },
        }
    }
}

/// The segments of the routing rule `rule`, its variables written `:name`.
pub open spec fn rule_words(rule: Seq<char>) -> Seq<Seq<char>> {
    segments(formatted(rule))
}

/// The outcome `res` of storing `rule` in `old`, giving `new`: the error
/// that `clash` names, with the rule in it and nothing changed, or `Ok` and
/// the rule stored.
pub open spec fn rule_stored(old: Tree, new: Tree, rule: Seq<char>, res: Result<(), PreTreeErr>) -> bool {
    let words = rule_words(rule);
    match clash(old, words) {
        Some(Conflict::Duplicate) => res matches Err(PreTreeErr::Duplicated(s)) && s@ == rule && new
            == old,
        Some(Conflict::Ambiguous) => res matches Err(PreTreeErr::Ambiguity(s)) && s@ == rule && new
            == old,
        None => res is Ok && inserted(old, new, words, rule),
    }
}

/// No two children of a node share a name, at any depth.
pub open spec fn unique_names(t: Tree) -> bool
    decreases t,
{
    &&& forall|a: int, b: int|
        0 <= a < b < t.nodes@.len() ==> (#[trigger] t.nodes@[a]).name@ != (#[trigger] t.nodes@[b]).name@
    &&& forall|k: int| 0 <= k < t.nodes@.len() ==> unique_names(#[trigger] t.nodes@[k])
}

proof fn lemma_inserted_unique(old: Tree, new: Tree, words: Seq<Seq<char>>, rule: Seq<char>)
    requires
        unique_names(old),
        inserted(old, new, words, rule),
    ensures
        unique_names(new),
    decreases words.len(),
{
    if words.len() > 0 {
        let i = last_named(old.nodes@, words[0]);
        lemma_last_named(old.nodes@, words[0]);
        if 0 <= i < old.nodes@.len() {
            lemma_inserted_unique(old.nodes@[i], new.nodes@[i], words.drop_first(), rule);
            assert(inserted(old.nodes@[i], new.nodes@[i], words.drop_first(), rule));
            assert(new.nodes@[i].name == old.nodes@[i].name);
            assert forall|a: int, b: int| 0 <= a < b < new.nodes@.len() implies (
            #[trigger] new.nodes@[a]).name@ != (#[trigger] new.nodes@[b]).name@ by {
                assert(old.nodes@[a].name@ != old.nodes@[b].name@);
                assert(new.nodes@[a].name@ == old.nodes@[a].name@);
                assert(new.nodes@[b].name@ == old.nodes@[b].name@);
            }
            assert forall|k: int| 0 <= k < new.nodes@.len() implies unique_names(
                #[trigger] new.nodes@[k],
            ) by {
                if k != i {
                    assert(unique_names(old.nodes@[k]));
                }
            }
        } else {
            let n = old.nodes@.len() as int;
            let f = choose|f: Tree|
                is_fresh(f, words[0]) && inserted(f, #[trigger] new.nodes@[n], words.drop_first(), rule);
            lemma_inserted_unique(f, new.nodes@[n], words.drop_first(), rule);
            assert forall|a: int, b: int| 0 <= a < b < new.nodes@.len() implies (
            #[trigger] new.nodes@[a]).name@ != (#[trigger] new.nodes@[b]).name@ by {
                if b < n {
                    assert(old.nodes@[a].name@ != old.nodes@[b].name@);
                } else {
                    assert(new.nodes@[a] == old.nodes@[a]);
                }
            }
            assert forall|k: int| 0 <= k < new.nodes@.len() implies unique_names(
                #[trigger] new.nodes@[k],
            ) by {
                if k < n {
                    assert(unique_names(old.nodes@[k]));
                }
            }
        }
    }
}

/// The node that the segments `words` of a path reach from `t`: each segment
/// goes to the first child of that name, or else, but for the first segment
/// of the path (`first`), to the first variable child; `None` where neither
/// is there.
pub open spec fn walk(t: Tree, words: Seq<Seq<char>>, first: bool) -> Option<Tree>
    decreases words.len(),
{
    if words.len() == 0 {
        Some(t)
    } else {
        let i = first_named(t.nodes@, words[0]);
        let v = first_var(t.nodes@);
        if 0 <= i < t.nodes@.len() {
            walk(t.nodes@[i], words.drop_first(), false)
        } else if !first && 0 <= v < t.nodes@.len() {
            walk(t.nodes@[v], words.drop_first(), false)
        } else {
            None
        }
    }
}

/// `vars` with `key` bound to `value`: in place where `key` is bound already,
/// else at the end.
pub open spec fn put_var(vars: Seq<(Seq<char>, Seq<char>)>, key: Seq<char>, value: Seq<char>) -> Seq<
    (Seq<char>, Seq<char>),
> {
    if exists|i: int| 0 <= i < vars.len() && (#[trigger] vars[i]).0 == key {
        let i = choose|i: int| 0 <= i < vars.len() && (#[trigger] vars[i]).0 == key;
        vars.update(i, (key, value))
    } else {
        vars.push((key, value))
    }
}

/// No two bindings of `vars` share a name.
pub open spec fn unique_keys(vars: Seq<(Seq<char>, Seq<char>)>) -> bool {
    forall|a: int, b: int| 0 <= a < b < vars.len() ==> (#[trigger] vars[a]).0 != (#[trigger] vars[b]).0
}

/// The variables bound along `walk(t, words, first)`, after those of `vars`:
/// each segment that goes to a variable child binds the child's variable
/// name to the segment.
pub open spec fn walk_vars(
    t: Tree,
    words: Seq<Seq<char>>,
    first: bool,
    vars: Seq<(Seq<char>, Seq<char>)>,
) -> Seq<(Seq<char>, Seq<char>)>
    decreases words.len(),
{
    if words.len() == 0 {
        vars
    } else {
        let i = first_named(t.nodes@, words[0]);
        let v = first_var(t.nodes@);
        if 0 <= i < t.nodes@.len() {
            walk_vars(t.nodes@[i], words.drop_first(), false, vars)
        } else if !first && 0 <= v < t.nodes@.len() {
            walk_vars(
                t.nodes@[v],
                words.drop_first(),
                false,
                put_var(vars, trim_colons(t.nodes@[v].name@), words[0]),
            )
        } else {
            vars
        }
    }
}

/// The names and values of the bindings.
pub open spec fn pair_views(v: Seq<(String, String)>) -> Seq<(Seq<char>, Seq<char>)> {
    v.map_values(|p: (String, String)| (p.0@, p.1@))
}

/// Binds `key` to `value` in `vars`, in place where `key` is bound already.
fn put_var_exec(vars: &mut Vec<(String, String)>, key: String, value: String)
    requires
        unique_keys(pair_views(old(vars)@)),
    ensures
        pair_views(final(vars)@) == put_var(pair_views(old(vars)@), key@, value@),
        unique_keys(pair_views(final(vars)@)),
{
    let ghost pv = pair_views(vars@);
    let mut i: usize = 0;
    while i < vars.len()
        invariant
            i <= vars@.len(),
            pv == pair_views(vars@),
            pv == pair_views(old(vars)@),
            unique_keys(pv),
            forall|q: int| 0 <= q < i ==> (#[trigger] pv[q]).0 != key@,
        decreases vars@.len() - i,
    {
        if vars[i].0 == key {
            proof {
                assert(pv[i as int].0 == key@);
                let c = choose|i: int| 0 <= i < pv.len() && (#[trigger] pv[i]).0 == key@;
                assert(c == i) by {
                    if c != i {
                        if c < i {
                            assert(pv[c].0 != key@);
                        } else {
                            assert(pv[i as int].0 != pv[c].0);
                        }
                    }
                }
            }
            let ghost k = key@;
            let ghost val = value@;
            vars.set(i, (key, value));
            assert(pair_views(vars@) =~= pv.update(i as int, (k, val)));
            assert(put_var(pv, k, val) == pv.update(i as int, (k, val)));
            return;
        }
        i += 1;
    }
    let ghost k = key@;
    let ghost val = value@;
    vars.push((key, value));
    assert(pair_views(vars@) =~= pv.push((k, val)));
}

impl Tree {
    /// The first child named `w`, if any.
    fn first_child_named(&self, w: &String) -> (res: Option<usize>)
        ensures
            res is Some ==> res->0 == first_named(self.nodes@, w@) && res->0 < self.nodes@.len(),
            res is None ==> first_named(self.nodes@, w@) == -1,
    {
        proof {
            lemma_first_named(self.nodes@, w@);
        }
        let mut i: usize = 0;
        while i < self.nodes.len()
            invariant
                i <= self.nodes@.len(),
                forall|q: int| 0 <= q < i ==> (#[trigger] self.nodes@[q]).name@ != w@,
                -1 <= first_named(self.nodes@, w@) < self.nodes@.len(),
                first_named(self.nodes@, w@) >= 0 ==> self.nodes@[first_named(
                    self.nodes@,
                    w@,
                )].name@ == w@,
                first_named(self.nodes@, w@) < 0 ==> forall|k: int|
                    0 <= k < self.nodes@.len() ==> (#[trigger] self.nodes@[k]).name@ != w@,
                forall|k: int|
                    0 <= k < first_named(self.nodes@, w@) ==> (#[trigger] self.nodes@[k]).name@
                        != w@,
            decreases self.nodes@.len() - i,
        {
            if self.nodes[i].name == *w {
                return Some(i);
            }
            i += 1;
        }
        None
    }

    /// The first child that is a variable, if any.
    fn first_var_child(&self) -> (res: Option<usize>)
        ensures
            res is Some ==> res->0 == first_var(self.nodes@) && res->0 < self.nodes@.len(),
            res is None ==> first_var(self.nodes@) == -1,
    {
        proof {
            lemma_first_var(self.nodes@);
        }
        let mut i: usize = 0;
        while i < self.nodes.len()
            invariant
                i <= self.nodes@.len(),
                forall|q: int| 0 <= q < i ==> !(#[trigger] self.nodes@[q]).is_variable,
                -1 <= first_var(self.nodes@) < self.nodes@.len(),
                first_var(self.nodes@) >= 0 ==> self.nodes@[first_var(self.nodes@)].is_variable,
                first_var(self.nodes@) < 0 ==> forall|k: int|
                    0 <= k < self.nodes@.len() ==> !(#[trigger] self.nodes@[k]).is_variable,
                forall|k: int|
                    0 <= k < first_var(self.nodes@) ==> !(#[trigger] self.nodes@[k]).is_variable,
            decreases self.nodes@.len() - i,
        {
            if self.nodes[i].is_variable {
                return Some(i);
            }
            i += 1;
        }
        None
    }

    /// The node that the path `url_path` reaches from this node, and the
    /// variables bound on the way: each segment goes to the child of that
    /// name, or else, but for the first segment, to the variable child,
    /// whose variable it binds.
    pub fn search(&self, url_path: &str) -> (res: Option<(&Tree, Vec<(String, String)>)>)
        ensures
            res is None <==> walk(*self, segments(url_path@), true) is None,
            res matches Some((t, vars)) ==> *t == walk(*self, segments(url_path@), true)->0
                && pair_views(vars@) == walk_vars(*self, segments(url_path@), true, Seq::empty()),
    {
        let list = parse_path(url_path);
        let ghost ws = views(list@);
        let mut vars: Vec<(String, String)> = Vec::new();
        let mut cursor: &Tree = self;
        let mut k: usize = 0;
        assert(ws.skip(0) =~= ws);
        assert(pair_views(vars@) =~= Seq::<(Seq<char>, Seq<char>)>::empty());
        while k < list.len()
            invariant
                k <= list@.len(),
                ws == views(list@),
                ws == segments(url_path@),
                walk(*self, ws, true) == walk(*cursor, ws.skip(k as int), k == 0),
                walk_vars(*self, ws, true, Seq::empty()) == walk_vars(
                    *cursor,
                    ws.skip(k as int),
                    k == 0,
                    pair_views(vars@),
                ),
                unique_keys(pair_views(vars@)),
            decreases list@.len() - k,
        {
            let w = &list[k];
            let ghost rest = ws.skip(k as int);
            assert(rest[0] == w@);
            assert(ws.skip(k + 1) =~= rest.drop_first());
            match cursor.first_child_named(w) {
                Some(i) => {
                    cursor = &cursor.nodes[i];
                },
                None => {
                    if k == 0 {
                        return None;
                    }
                    match cursor.first_var_child() {
                        Some(v) => {
                            let name = cursor.nodes[v].var_name();
                            put_var_exec(&mut vars, name, w.clone());
                            cursor = &cursor.nodes[v];
                        },
                        None => {
                            return None;
                        },
                    }
                },
            }
            k += 1;
        }
        assert(ws.skip(k as int) =~= Seq::<Seq<char>>::empty());
        Some((cursor, vars))
    }
}

/// The HTTP methods that a `PreTree` has a tree for, in order.
pub open spec fn http_methods() -> Seq<Seq<char>> {
    seq![
        "GET"@,
        "HEAD"@,
        "POST"@,
        "PUT"@,
        "PATCH"@,
        "DELETE"@,
        "CONNECT"@,
        "OPTIONS"@,
        "TRACE"@,
    ]
}

/// Routing rules by HTTP method: a prefix tree for each method, its root
/// named by the method.
#[derive(Debug)]
pub struct PreTree {
    pub tree_group: Vec<Tree>,
}

/// The outcome `res` of storing `rule` for `method` in `old`, giving `new`:
/// `MethodDisallow` where no tree is named `method`, else the outcome of
/// storing the rule in the first tree of that name, the others unchanged.
pub open spec fn stored(
    old: PreTree,
    new: PreTree,
    method: Seq<char>,
    rule: Seq<char>,
    res: Result<(), PreTreeErr>,
) -> bool {
    let g = first_named(old.tree_group@, method);
    if g < 0 {
        &&& res matches Err(PreTreeErr::MethodDisallow(s)) && s@ == method
        &&& new.tree_group@ == old.tree_group@
    } else {
        &&& new.tree_group@.len() == old.tree_group@.len()
        &&& forall|j: int|
            0 <= j < old.tree_group@.len() && j != g ==> #[trigger] new.tree_group@[j]
                == old.tree_group@[j]
        &&& rule_stored(old.tree_group@[g], new.tree_group@[g], rule, res)
    }
}

/// What `query` finds for the path `path` under `method` in the trees
/// `groups`: the rule of the node that the path reaches in the first tree
/// named `method`, where a rule ends there, and the variables bound on the
/// way.
pub open spec fn query_spec(groups: Seq<Tree>, method: Seq<char>, path: Seq<char>) -> Option<
    (Seq<char>, Seq<(Seq<char>, Seq<char>)>),
> {
    let g = first_named(groups, method);
    if g < 0 || g >= groups.len() {
        None
    } else {
        let w = walk(groups[g], segments(path), true);
        if w is Some && w->0.is_end {
            Some((w->0.rule@, walk_vars(groups[g], segments(path), true, Seq::empty())))
        } else {
            None
        }
    }
}

impl PreTree {
    /// The trees, one per method.
    pub open spec fn groups(&self) -> Seq<Tree> {
        self.tree_group@
    }

    /// There is one tree for each HTTP method, in order, its root named by
    /// the method, and in every tree no two children of a node share a name.
    pub open spec fn wf(&self) -> bool {
        &&& self.tree_group@.len() == http_methods().len()
        &&& forall|g: int|
            0 <= g < self.tree_group@.len() ==> (#[trigger] self.tree_group@[g]).name@
                == http_methods()[g]
        &&& forall|g: int| 0 <= g < self.tree_group@.len() ==> unique_names(#[trigger] self.tree_group@[g])
        &&& forall|g: int| 0 <= g < self.tree_group@.len() ==> vars_ok(#[trigger] self.tree_group@[g])
    }

    /// An empty tree for each HTTP method.
    pub fn new() -> (p: Self)
        ensures
            p.wf(),
            empty_router(p),
            p.groups().len() == http_methods().len(),
            forall|g: int|
                0 <= g < http_methods().len() ==> {
                    let t = #[trigger] p.groups()[g];
                    &&& t.label() == http_methods()[g]
                    &&& t.rule_text() == Seq::<char>::empty()
                    &&& t.children().len() == 0
                    &&& !t.ends()
                    &&& !t.var_flag()
                },
    {
        let mut tree_group: Vec<Tree> = Vec::new();
        tree_group.push(Tree::new("GET"));
        tree_group.push(Tree::new("HEAD"));
        tree_group.push(Tree::new("POST"));
        tree_group.push(Tree::new("PUT"));
        tree_group.push(Tree::new("PATCH"));
        tree_group.push(Tree::new("DELETE"));
        tree_group.push(Tree::new("CONNECT"));
        tree_group.push(Tree::new("OPTIONS"));
        tree_group.push(Tree::new("TRACE"));
        let p = PreTree { tree_group };
        assert forall|g: int| 0 <= g < p.tree_group@.len() implies unique_names(
            #[trigger] p.tree_group@[g],
        ) by {
            assert(p.tree_group@[g].nodes@.len() == 0);
        }
        p
    }

    /// Stores the routing rule `url_rule` for the HTTP method `method`:
    /// `MethodDisallow` where the method has no tree, `Duplicated` where the
    /// rule is stored already, `Ambiguity` where it would put a second
    /// variable at a level; nothing changes on an error.
    pub fn store(&mut self, method: &str, url_rule: &str) -> (res: Result<(), PreTreeErr>)
        requires
            old(self).wf(),
        ensures
            final(self).wf(),
            stored(*old(self), *final(self), method@, url_rule@, res),
    {
        let m = method.to_owned();
        proof {
            lemma_first_named(self.tree_group@, m@);
        }
        let mut g: usize = 0;
        while g < self.tree_group.len() && self.tree_group[g].name != m
            invariant
                g <= self.tree_group@.len(),
                forall|q: int| 0 <= q < g ==> (#[trigger] self.tree_group@[q]).name@ != m@,
            decreases self.tree_group@.len() - g,
        {
            g += 1;
        }
        proof {
            lemma_first_named_is(self.tree_group@, m@, g as int);
        }
        if g == self.tree_group.len() {
            return Err(PreTreeErr::MethodDisallow(m));
        }
        let ghost old_groups = self.tree_group@;
        let mut t = Tree::new("");
        self.tree_group.set_and_swap(g, &mut t);
        let res = t.insert(url_rule);
        proof {
            if res is Ok {
                lemma_inserted_unique(old_groups[g as int], t, rule_words(url_rule@), url_rule@);
                lemma_inserted_vars_ok(old_groups[g as int], t, rule_words(url_rule@), url_rule@);
            }
        }
        self.tree_group.set_and_swap(g, &mut t);
        proof {
            assert forall|q: int| 0 <= q < self.tree_group@.len() implies unique_names(
                #[trigger] self.tree_group@[q],
            ) by {
                if q != g {
                    assert(self.tree_group@[q] == old_groups[q]);
                }
            }
            assert forall|q: int| 0 <= q < self.tree_group@.len() implies vars_ok(
                #[trigger] self.tree_group@[q],
            ) by {
                if q != g {
                    assert(self.tree_group@[q] == old_groups[q]);
                }
            }
        }
        res
    }

    /// The rule that the path `url_path` reaches under `method`, and the
    /// variables that it binds, where it reaches a node that holds a rule.
    pub fn query(&self, method: &str, url_path: &str) -> (res: Option<
        (&String, Vec<(String, String)>),
    >)
        ensures
            res is None <==> query_spec(self.groups(), method@, url_path@) is None,
            res matches Some((rule, vars)) ==> (rule@, pair_views(vars@)) == query_spec(
                self.groups(),
                method@,
                url_path@,
            )->0,
    {
        let m = method.to_owned();
        proof {
            lemma_first_named(self.tree_group@, m@);
        }
        let mut g: usize = 0;
        while g < self.tree_group.len() && self.tree_group[g].name != m
            invariant
                g <= self.tree_group@.len(),
                forall|q: int| 0 <= q < g ==> (#[trigger] self.tree_group@[q]).name@ != m@,
            decreases self.tree_group@.len() - g,
        {
            g += 1;
        }
        proof {
            lemma_first_named_is(self.tree_group@, m@, g as int);
        }
        if g == self.tree_group.len() {
            return None;
        }
        match self.tree_group[g].search(url_path) {
            Some((t, vars)) => {
                if t.is_end {
                    Some((&t.rule, vars))
                } else {
                    None
                }
            },
            None => None,
        }
    }
}

/// Where `nodes[i]` is the first node named `w` (or `i` is the length and
/// none is), `first_named` says so.
proof fn lemma_first_named_is(nodes: Seq<Tree>, w: Seq<char>, i: int)
    requires
        0 <= i <= nodes.len(),
        forall|q: int| 0 <= q < i ==> (#[trigger] nodes[q]).name@ != w,
        i < nodes.len() ==> nodes[i].name@ == w,
    ensures
        i < nodes.len() ==> first_named(nodes, w) == i,
        i == nodes.len() ==> first_named(nodes, w) == -1,
    decreases nodes.len(),
{
    lemma_first_named(nodes, w);
    if nodes.len() > 0 {
        let d = nodes.drop_last();
        if i < nodes.len() - 1 {
            lemma_first_named_is(d, w, i);
        } else {
            lemma_first_named_is(d, w, nodes.len() - 1);
        }
    }
}

/// Where `nodes[i]` is the last node named `w`, `last_named` says so.
proof fn lemma_last_named_is(nodes: Seq<Tree>, w: Seq<char>, i: int)
    requires
        0 <= i < nodes.len(),
        nodes[i].name@ == w,
        forall|q: int| i < q < nodes.len() ==> (#[trigger] nodes[q]).name@ != w,
    ensures
        last_named(nodes, w) == i,
    decreases nodes.len(),
{
    if i < nodes.len() - 1 {
        let d = nodes.drop_last();
        assert(nodes[nodes.len() - 1].name@ != w);
        lemma_last_named_is(d, w, i);
    }
}

/// Along the segments of a stored rule, the walk that a query makes reaches
/// the node that holds the rule and binds no variable.
proof fn lemma_walk_inserted(
    old: Tree,
    new: Tree,
    words: Seq<Seq<char>>,
    rule: Seq<char>,
    first: bool,
    vars: Seq<(Seq<char>, Seq<char>)>,
)
    requires
        unique_names(old),
        inserted(old, new, words, rule),
    ensures
        walk(new, words, first) is Some,
        walk(new, words, first)->0.is_end,
        walk(new, words, first)->0.rule@ == rule,
        walk_vars(new, words, first, vars) == vars,
    decreases words.len(),
{
    if words.len() > 0 {
        let w = words[0];
        let i = last_named(old.nodes@, w);
        lemma_last_named(old.nodes@, w);
        if 0 <= i < old.nodes@.len() {
            assert(inserted(old.nodes@[i], new.nodes@[i], words.drop_first(), rule));
            assert(new.nodes@[i].name == old.nodes@[i].name);
            assert forall|q: int| 0 <= q < i implies (#[trigger] new.nodes@[q]).name@ != w by {
                assert(new.nodes@[q] == old.nodes@[q]);
                assert(old.nodes@[q].name@ != old.nodes@[i].name@);
            }
            lemma_first_named_is(new.nodes@, w, i);
            assert(unique_names(old.nodes@[i]));
            lemma_walk_inserted(old.nodes@[i], new.nodes@[i], words.drop_first(), rule, false, vars);
        } else {
            let n = old.nodes@.len() as int;
            let f = choose|f: Tree|
                is_fresh(f, words[0]) && inserted(f, #[trigger] new.nodes@[n], words.drop_first(), rule);
            assert(inserted(f, new.nodes@[n], words.drop_first(), rule));
            assert(new.nodes@[n].name == f.name);
            assert forall|q: int| 0 <= q < n implies (#[trigger] new.nodes@[q]).name@ != w by {
                assert(new.nodes@[q] == old.nodes@[q]);
            }
            lemma_first_named_is(new.nodes@, w, n);
            lemma_walk_inserted(f, new.nodes@[n], words.drop_first(), rule, false, vars);
        }
    }
}

/// Storing the same segments again, into a tree that holds them, meets the
/// stored rule.
proof fn lemma_clash_inserted(old: Tree, new: Tree, words: Seq<Seq<char>>, rule: Seq<char>)
    requires
        inserted(old, new, words, rule),
    ensures
        clash(new, words) == Some(Conflict::Duplicate),
    decreases words.len(),
{
    if words.len() > 0 {
        let w = words[0];
        let i = last_named(old.nodes@, w);
        lemma_last_named(old.nodes@, w);
        if 0 <= i < old.nodes@.len() {
            assert(inserted(old.nodes@[i], new.nodes@[i], words.drop_first(), rule));
            assert(new.nodes@[i].name == old.nodes@[i].name);
            assert forall|q: int| i < q < new.nodes@.len() implies (#[trigger] new.nodes@[q]).name@
                != w by {
                assert(new.nodes@[q] == old.nodes@[q]);
            }
            lemma_last_named_is(new.nodes@, w, i);
            lemma_clash_inserted(old.nodes@[i], new.nodes@[i], words.drop_first(), rule);
        } else {
            let n = old.nodes@.len() as int;
            let f = choose|f: Tree|
                is_fresh(f, words[0]) && inserted(f, #[trigger] new.nodes@[n], words.drop_first(), rule);
            assert(inserted(f, new.nodes@[n], words.drop_first(), rule));
            assert(new.nodes@[n].name == f.name);
            lemma_last_named_is(new.nodes@, w, n);
            lemma_clash_inserted(f, new.nodes@[n], words.drop_first(), rule);
        }
    }
}

/// The tree that storing a rule touched is still the first one of its
/// method.
proof fn lemma_group_kept(old: PreTree, new: PreTree, method: Seq<char>, rule: Seq<char>, res: Result<(), PreTreeErr>)
    requires
        stored(old, new, method, rule, res),
        res is Ok,
    ensures
        0 <= first_named(old.tree_group@, method) < old.tree_group@.len(),
        first_named(new.tree_group@, method) == first_named(old.tree_group@, method),
        inserted(
            old.tree_group@[first_named(old.tree_group@, method)],
            new.tree_group@[first_named(old.tree_group@, method)],
            rule_words(rule),
            rule,
        ),
{
    let g = first_named(old.tree_group@, method);
    lemma_first_named(old.tree_group@, method);
    assert(g >= 0);
    assert(inserted(old.tree_group@[g], new.tree_group@[g], rule_words(rule), rule));
    assert(new.tree_group@[g].name == old.tree_group@[g].name);
    assert forall|q: int| 0 <= q < g implies (#[trigger] new.tree_group@[q]).name@ != method by {
        assert(new.tree_group@[q] == old.tree_group@[q]);
    }
    lemma_first_named_is(new.tree_group@, method, g);
}

/// A routing rule without variables, once stored, is what a query for the
/// same path finds, with no variables bound.
pub proof fn law_stored_rule_found(
    old: PreTree,
    new: PreTree,
    method: Seq<char>,
    rule: Seq<char>,
    res: Result<(), PreTreeErr>,
)
    requires
        old.wf(),
        stored(old, new, method, rule, res),
        res is Ok,
        no_braces(rule),
    ensures
        query_spec(new.groups(), method, rule) == Some((rule, Seq::<(Seq<char>, Seq<char>)>::empty())),
{
    lemma_group_kept(old, new, method, rule, res);
    let g = first_named(old.tree_group@, method);
    crate::pretree::parse::lemma_formatted_no_braces(rule);
    assert(unique_names(old.tree_group@[g]));
    lemma_walk_inserted(
        old.tree_group@[g],
        new.tree_group@[g],
        segments(rule),
        rule,
        true,
        Seq::empty(),
    );
}

/// Storing a rule that was just stored for the same method fails with
/// `Duplicated` and the rule.
pub proof fn law_store_twice_duplicated(
    old: PreTree,
    new: PreTree,
    newer: PreTree,
    method: Seq<char>,
    rule: Seq<char>,
    res: Result<(), PreTreeErr>,
    res2: Result<(), PreTreeErr>,
)
    requires
        stored(old, new, method, rule, res),
        res is Ok,
        stored(new, newer, method, rule, res2),
    ensures
        res2 matches Err(PreTreeErr::Duplicated(s)) && s@ == rule,
{
    lemma_group_kept(old, new, method, rule, res);
    let g = first_named(old.tree_group@, method);
    lemma_clash_inserted(old.tree_group@[g], new.tree_group@[g], rule_words(rule), rule);
}

/// Storing a rule is refused with `MethodDisallow` exactly when the method
/// is not one of the nine HTTP methods, and a query under such a method
/// finds nothing.
pub proof fn law_method_disallow(
    old: PreTree,
    new: PreTree,
    method: Seq<char>,
    rule: Seq<char>,
    res: Result<(), PreTreeErr>,
    path: Seq<char>,
)
    requires
        old.wf(),
        stored(old, new, method, rule, res),
    ensures
        (res matches Err(PreTreeErr::MethodDisallow(_))) <==> !http_methods().contains(method),
        !http_methods().contains(method) ==> query_spec(old.groups(), method, path) is None,
{
    lemma_first_named(old.tree_group@, method);
    let g = first_named(old.tree_group@, method);
    if g >= 0 {
        assert(http_methods()[g] == method);
    } else if http_methods().contains(method) {
        let k = choose|k: int| 0 <= k < http_methods().len() && http_methods()[k] == method;
        assert(old.tree_group@[k].name@ == method);
    }
}

/// The segments `words` lead from `t` through children named by them, the
/// first child of each name, to a node that holds the rule `rule`.
pub open spec fn reaches(t: Tree, words: Seq<Seq<char>>, rule: Seq<char>) -> bool
    decreases words.len(),
{
    if words.len() == 0 {
        t.is_end && t.rule@ == rule
    } else {
        let i = first_named(t.nodes@, words[0]);
        0 <= i < t.nodes@.len() && reaches(t.nodes@[i], words.drop_first(), rule)
    }
}

/// Where two sequences of nodes have the same names, the first node of a
/// name is at the same place in both.
proof fn lemma_first_named_same_names(a: Seq<Tree>, b: Seq<Tree>, w: Seq<char>)
    requires
        a.len() == b.len(),
        forall|k: int| 0 <= k < a.len() ==> (#[trigger] a[k]).name@ == b[k].name@,
    ensures
        first_named(a, w) == first_named(b, w),
{
    lemma_first_named(a, w);
    let i = first_named(a, w);
    if i >= 0 {
        assert forall|q: int| 0 <= q < i implies (#[trigger] b[q]).name@ != w by {
            assert(a[q].name@ != w);
        }
        lemma_first_named_is(b, w, i);
    } else {
        assert forall|q: int| 0 <= q < b.len() implies (#[trigger] b[q]).name@ != w by {
            assert(a[q].name@ != w);
        }
        lemma_first_named_is(b, w, b.len() as int);
    }
}

/// A path of named children that reaches a rule is what a walk takes: it
/// ends at the rule's node and binds no variables.
proof fn lemma_reaches_walk(
    t: Tree,
    words: Seq<Seq<char>>,
    rule: Seq<char>,
    first: bool,
    vars: Seq<(Seq<char>, Seq<char>)>,
)
    requires
        reaches(t, words, rule),
    ensures
        walk(t, words, first) is Some,
        walk(t, words, first)->0.is_end,
        walk(t, words, first)->0.rule@ == rule,
        walk_vars(t, words, first, vars) == vars,
    decreases words.len(),
{
    if words.len() > 0 {
        let i = first_named(t.nodes@, words[0]);
        lemma_reaches_walk(t.nodes@[i], words.drop_first(), rule, false, vars);
    }
}

/// After a rule is inserted along `words`, those segments reach it.
proof fn lemma_reaches_inserted(old: Tree, new: Tree, words: Seq<Seq<char>>, rule: Seq<char>)
    requires
        unique_names(old),
        inserted(old, new, words, rule),
    ensures
        reaches(new, words, rule),
    decreases words.len(),
{
    if words.len() > 0 {
        let w = words[0];
        let i = last_named(old.nodes@, w);
        lemma_last_named(old.nodes@, w);
        if 0 <= i < old.nodes@.len() {
            assert(inserted(old.nodes@[i], new.nodes@[i], words.drop_first(), rule));
            assert(new.nodes@[i].name == old.nodes@[i].name);
            assert forall|q: int| 0 <= q < i implies (#[trigger] new.nodes@[q]).name@ != w by {
                assert(new.nodes@[q] == old.nodes@[q]);
                assert(old.nodes@[q].name@ != old.nodes@[i].name@);
            }
            lemma_first_named_is(new.nodes@, w, i);
            assert(unique_names(old.nodes@[i]));
            lemma_reaches_inserted(old.nodes@[i], new.nodes@[i], words.drop_first(), rule);
        } else {
            let n = old.nodes@.len() as int;
            let f = choose|f: Tree|
                is_fresh(f, words[0]) && inserted(f, #[trigger] new.nodes@[n], words.drop_first(), rule);
            assert(inserted(f, new.nodes@[n], words.drop_first(), rule));
            assert(new.nodes@[n].name == f.name);
            assert forall|q: int| 0 <= q < n implies (#[trigger] new.nodes@[q]).name@ != w by {
                assert(new.nodes@[q] == old.nodes@[q]);
            }
            lemma_first_named_is(new.nodes@, w, n);
            lemma_reaches_inserted(f, new.nodes@[n], words.drop_first(), rule);
        }
    }
}

/// Inserting another rule, where nothing clashes, keeps every path of named
/// children that reached a rule.
proof fn lemma_reaches_kept(
    old: Tree,
    new: Tree,
    words2: Seq<Seq<char>>,
    rule2: Seq<char>,
    words: Seq<Seq<char>>,
    rule: Seq<char>,
)
    requires
        unique_names(old),
        inserted(old, new, words2, rule2),
        clash(old, words2) is None,
        reaches(old, words, rule),
    ensures
        reaches(new, words, rule),
    decreases words.len(),
{
    if words.len() > 0 && words2.len() > 0 {
        let w = words[0];
        let i = first_named(old.nodes@, w);
        lemma_first_named(old.nodes@, w);
        let j = last_named(old.nodes@, words2[0]);
        lemma_last_named(old.nodes@, words2[0]);
        if 0 <= j < old.nodes@.len() {
            assert(inserted(old.nodes@[j], new.nodes@[j], words2.drop_first(), rule2));
            assert forall|k: int| 0 <= k < old.nodes@.len() implies (#[trigger] old.nodes@[k]).name@
                == new.nodes@[k].name@ by {
                if k == j {
                    assert(new.nodes@[j].name == old.nodes@[j].name);
                }
            }
            lemma_first_named_same_names(old.nodes@, new.nodes@, w);
            if i == j {
                assert(unique_names(old.nodes@[j]));
                lemma_reaches_kept(
                    old.nodes@[j],
                    new.nodes@[j],
                    words2.drop_first(),
                    rule2,
                    words.drop_first(),
                    rule,
                );
            }
        } else {
            assert forall|q: int| 0 <= q < i implies (#[trigger] new.nodes@[q]).name@ != w by {
                assert(new.nodes@[q] == old.nodes@[q]);
            }
            assert(new.nodes@[i] == old.nodes@[i]);
            lemma_first_named_is(new.nodes@, w, i);
        }
    }
}

/// The routing rule `rule` is held by the tree of `method` along its own
/// segments, each the first child of its name, so that a query for `rule`
/// finds it and binds no variables.
pub open spec fn holds_rule(p: PreTree, method: Seq<char>, rule: Seq<char>) -> bool {
    let g = first_named(p.tree_group@, method);
    0 <= g < p.tree_group@.len() && reaches(p.tree_group@[g], segments(rule), rule)
}

/// A routing rule without braces that was stored is held by its method's
/// tree.
pub proof fn law_stored_rule_held(
    old: PreTree,
    new: PreTree,
    method: Seq<char>,
    rule: Seq<char>,
    res: Result<(), PreTreeErr>,
)
    requires
        old.wf(),
        stored(old, new, method, rule, res),
        res is Ok,
        no_braces(rule),
    ensures
        holds_rule(new, method, rule),
{
    lemma_group_kept(old, new, method, rule, res);
    let g = first_named(old.tree_group@, method);
    crate::pretree::parse::lemma_formatted_no_braces(rule);
    assert(unique_names(old.tree_group@[g]));
    lemma_reaches_inserted(old.tree_group@[g], new.tree_group@[g], segments(rule), rule);
}

/// A rule that a tree holds stays held whatever is stored next, under any
/// method and whether or not that store succeeds.
pub proof fn law_held_rule_kept(
    old: PreTree,
    new: PreTree,
    method: Seq<char>,
    rule: Seq<char>,
    method2: Seq<char>,
    rule2: Seq<char>,
    res2: Result<(), PreTreeErr>,
)
    requires
        old.wf(),
        holds_rule(old, method, rule),
        stored(old, new, method2, rule2, res2),
    ensures
        holds_rule(new, method, rule),
{
    let g = first_named(old.tree_group@, method);
    let g2 = first_named(old.tree_group@, method2);
    lemma_first_named(old.tree_group@, method2);
    if g2 >= 0 {
        let words2 = rule_words(rule2);
        assert(rule_stored(old.tree_group@[g2], new.tree_group@[g2], rule2, res2));
        assert(new.tree_group@[g2].name == old.tree_group@[g2].name) by {
            if clash(old.tree_group@[g2], words2) is None {
                assert(inserted(old.tree_group@[g2], new.tree_group@[g2], words2, rule2));
            }
        }
        assert forall|k: int| 0 <= k < old.tree_group@.len() implies (
        #[trigger] old.tree_group@[k]).name@ == new.tree_group@[k].name@ by {
            if k != g2 {
                assert(new.tree_group@[k] == old.tree_group@[k]);
            }
        }
        lemma_first_named_same_names(old.tree_group@, new.tree_group@, method);
        if g == g2 {
            if clash(old.tree_group@[g], words2) is None {
                assert(unique_names(old.tree_group@[g]));
                lemma_reaches_kept(
                    old.tree_group@[g],
                    new.tree_group@[g],
                    words2,
                    rule2,
                    segments(rule),
                    rule,
                );
            }
        } else {
            assert(new.tree_group@[g] == old.tree_group@[g]);
        }
    }
}

/// A query for a rule that its method's tree holds finds that rule, with no
/// variables bound.
pub proof fn law_held_rule_found(p: PreTree, method: Seq<char>, rule: Seq<char>)
    requires
        holds_rule(p, method, rule),
    ensures
        query_spec(p.groups(), method, rule) == Some((rule, Seq::<(Seq<char>, Seq<char>)>::empty())),
{
    let g = first_named(p.tree_group@, method);
    lemma_reaches_walk(p.tree_group@[g], segments(rule), rule, true, Seq::empty());
}

/// A store that fails changes nothing: every tree, and so every later
/// query, is as before.
pub proof fn law_failed_store_unchanged(
    old: PreTree,
    new: PreTree,
    method: Seq<char>,
    rule: Seq<char>,
    res: Result<(), PreTreeErr>,
    path: Seq<char>,
)
    requires
        stored(old, new, method, rule, res),
        res is Err,
    ensures
        new.groups() == old.groups(),
        query_spec(new.groups(), method, path) == query_spec(old.groups(), method, path),
{
    let g = first_named(old.tree_group@, method);
    if g >= 0 {
        assert(new.tree_group@[g] == old.tree_group@[g]);
        assert(new.tree_group@ =~= old.tree_group@);
    }
}

/// Where the segments `words` reach a rule along first-named children, in
/// a tree where no two children of a node share a name, storing along them
/// meets that rule.
proof fn lemma_reaches_clash(t: Tree, words: Seq<Seq<char>>, rule: Seq<char>)
    requires
        unique_names(t),
        reaches(t, words, rule),
    ensures
        clash(t, words) == Some(Conflict::Duplicate),
    decreases words.len(),
{
    if words.len() > 0 {
        let w = words[0];
        let i = first_named(t.nodes@, w);
        lemma_first_named(t.nodes@, w);
        assert forall|q: int| i < q < t.nodes@.len() implies (#[trigger] t.nodes@[q]).name@ != w by {
            assert(t.nodes@[i].name@ != t.nodes@[q].name@);
        }
        lemma_last_named_is(t.nodes@, w, i);
        assert(unique_names(t.nodes@[i]));
        lemma_reaches_clash(t.nodes@[i], words.drop_first(), rule);
    }
}

/// Storing again a rule without braces that its method's tree holds, with
/// any stores in between, fails with `Duplicated` and the rule.
pub proof fn law_held_rule_duplicated(
    old: PreTree,
    new: PreTree,
    method: Seq<char>,
    rule: Seq<char>,
    res: Result<(), PreTreeErr>,
)
    requires
        old.wf(),
        holds_rule(old, method, rule),
        no_braces(rule),
        stored(old, new, method, rule, res),
    ensures
        res matches Err(PreTreeErr::Duplicated(s)) && s@ == rule,
{
    let g = first_named(old.tree_group@, method);
    crate::pretree::parse::lemma_formatted_no_braces(rule);
    assert(unique_names(old.tree_group@[g]));
    lemma_reaches_clash(old.tree_group@[g], segments(rule), rule);
}

/// A tree without children or rule, after one rule is inserted along
/// `words`, holds no rule at any proper prefix of `words`.
proof fn lemma_prefix_not_end(
    old: Tree,
    new: Tree,
    words: Seq<Seq<char>>,
    rule: Seq<char>,
    k: int,
    first: bool,
)
    requires
        old.nodes@.len() == 0,
        !old.is_end,
        inserted(old, new, words, rule),
        0 <= k < words.len(),
    ensures
        walk(new, words.take(k), first) is Some,
        !walk(new, words.take(k), first)->0.is_end,
    decreases k,
{
    if k > 0 {
        let w = words[0];
        assert(last_named(old.nodes@, w) == -1);
        let f = choose|f: Tree|
            is_fresh(f, words[0]) && inserted(f, #[trigger] new.nodes@[0], words.drop_first(), rule);
        assert(inserted(f, new.nodes@[0], words.drop_first(), rule));
        assert(new.nodes@[0].name == f.name);
        lemma_first_named_is(new.nodes@, w, 0);
        assert(words.take(k).drop_first() =~= words.drop_first().take(k - 1));
        assert(words.take(k)[0] == w);
        lemma_prefix_not_end(f, new.nodes@[0], words.drop_first(), rule, k - 1, false);
    }
}

/// A router whose trees have no children and hold no rule, as `new` makes
/// it.
pub open spec fn empty_router(p: PreTree) -> bool {
    &&& p.wf()
    &&& forall|g: int|
        0 <= g < p.groups().len() ==> (#[trigger] p.groups()[g]).children().len() == 0
            && !p.groups()[g].ends()
}

/// After one rule is stored in an empty router, a path whose segments are a
/// proper prefix of the rule's segments finds nothing: no rule was stored
/// there.
pub proof fn law_unstored_prefix_not_found(
    old: PreTree,
    new: PreTree,
    method: Seq<char>,
    rule: Seq<char>,
    res: Result<(), PreTreeErr>,
    path: Seq<char>,
)
    requires
        empty_router(old),
        stored(old, new, method, rule, res),
        res is Ok,
        segments(path).len() < rule_words(rule).len(),
        segments(path) == rule_words(rule).take(segments(path).len() as int),
    ensures
        query_spec(new.groups(), method, path) is None,
{
    lemma_group_kept(old, new, method, rule, res);
    let g = first_named(old.tree_group@, method);
    let k = segments(path).len() as int;
    assert(old.groups()[g].children().len() == 0 && !old.groups()[g].ends());
    lemma_prefix_not_end(
        old.tree_group@[g],
        new.tree_group@[g],
        rule_words(rule),
        rule,
        k,
        true,
    );
}

/// Below `t`, a child is a variable exactly when its segment names one, and
/// no node has two variable children.
pub open spec fn vars_ok(t: Tree) -> bool
    decreases t,
{
    &&& forall|k: int|
        0 <= k < t.nodes@.len() ==> (#[trigger] t.nodes@[k]).is_variable == is_var_word(
            t.nodes@[k].name@,
        )
    &&& forall|a: int, b: int|
        0 <= a < b < t.nodes@.len() ==> !((#[trigger] t.nodes@[a]).is_variable
            && (#[trigger] t.nodes@[b]).is_variable)
    &&& forall|k: int| 0 <= k < t.nodes@.len() ==> vars_ok(#[trigger] t.nodes@[k])
}

/// Inserting a rule that clashes with nothing keeps `vars_ok`.
proof fn lemma_inserted_vars_ok(old: Tree, new: Tree, words: Seq<Seq<char>>, rule: Seq<char>)
    requires
        vars_ok(old),
        inserted(old, new, words, rule),
        clash(old, words) is None,
    ensures
        vars_ok(new),
    decreases words.len(),
{
    if words.len() > 0 {
        let i = last_named(old.nodes@, words[0]);
        lemma_last_named(old.nodes@, words[0]);
        if 0 <= i < old.nodes@.len() {
            assert(inserted(old.nodes@[i], new.nodes@[i], words.drop_first(), rule));
            assert(vars_ok(old.nodes@[i]));
            lemma_inserted_vars_ok(old.nodes@[i], new.nodes@[i], words.drop_first(), rule);
            assert forall|k: int| 0 <= k < new.nodes@.len() implies (
            #[trigger] new.nodes@[k]).is_variable == is_var_word(new.nodes@[k].name@) by {
                if k != i {
                    assert(new.nodes@[k] == old.nodes@[k]);
                }
            }
            assert forall|a: int, b: int| 0 <= a < b < new.nodes@.len() implies !((
            #[trigger] new.nodes@[a]).is_variable && (#[trigger] new.nodes@[b]).is_variable) by {
                assert(new.nodes@[a].is_variable == old.nodes@[a].is_variable);
                assert(new.nodes@[b].is_variable == old.nodes@[b].is_variable);
                assert(!(old.nodes@[a].is_variable && old.nodes@[b].is_variable));
            }
            assert forall|k: int| 0 <= k < new.nodes@.len() implies vars_ok(#[trigger] new.nodes@[k]) by {
                if k != i {
                    assert(new.nodes@[k] == old.nodes@[k]);
                    assert(vars_ok(old.nodes@[k]));
                }
            }
        } else {
            let n = old.nodes@.len() as int;
            let f = choose|f: Tree|
                is_fresh(f, words[0]) && inserted(f, #[trigger] new.nodes@[n], words.drop_first(), rule);
            assert(inserted(f, new.nodes@[n], words.drop_first(), rule));
            lemma_fresh_no_clash(f, words[0], words.drop_first());
            lemma_inserted_vars_ok(f, new.nodes@[n], words.drop_first(), rule);
            if is_var_word(words[0]) {
                assert(!any_var(old.nodes@));
            }
            assert forall|k: int| 0 <= k < new.nodes@.len() implies (
            #[trigger] new.nodes@[k]).is_variable == is_var_word(new.nodes@[k].name@) by {
                if k < n {
                    assert(new.nodes@[k] == old.nodes@[k]);
                }
            }
            assert forall|a: int, b: int| 0 <= a < b < new.nodes@.len() implies !((
            #[trigger] new.nodes@[a]).is_variable && (#[trigger] new.nodes@[b]).is_variable) by {
                assert(new.nodes@[a] == old.nodes@[a]);
                if b < n {
                    assert(new.nodes@[b] == old.nodes@[b]);
                } else if new.nodes@[a].is_variable && new.nodes@[b].is_variable {
                    assert(old.nodes@[a].is_variable);
                    assert(any_var(old.nodes@));
                }
            }
            assert forall|k: int| 0 <= k < new.nodes@.len() implies vars_ok(#[trigger] new.nodes@[k]) by {
                if k < n {
                    assert(new.nodes@[k] == old.nodes@[k]);
                    assert(vars_ok(old.nodes@[k]));
                }
            }
        }
    }
}

/// The segments `words` lead from `t` through children named by them, the
/// first child of each name.
pub open spec fn has_path(t: Tree, words: Seq<Seq<char>>) -> bool
    decreases words.len(),
{
    words.len() == 0 || {
        let i = first_named(t.nodes@, words[0]);
        0 <= i < t.nodes@.len() && has_path(t.nodes@[i], words.drop_first())
    }
}

proof fn lemma_path_inserted(old: Tree, new: Tree, words: Seq<Seq<char>>, rule: Seq<char>)
    requires
        unique_names(old),
        inserted(old, new, words, rule),
    ensures
        has_path(new, words),
    decreases words.len(),
{
    if words.len() > 0 {
        let w = words[0];
        let i = last_named(old.nodes@, w);
        lemma_last_named(old.nodes@, w);
        if 0 <= i < old.nodes@.len() {
            assert(inserted(old.nodes@[i], new.nodes@[i], words.drop_first(), rule));
            assert(new.nodes@[i].name == old.nodes@[i].name);
            assert forall|q: int| 0 <= q < i implies (#[trigger] new.nodes@[q]).name@ != w by {
                assert(new.nodes@[q] == old.nodes@[q]);
                assert(old.nodes@[q].name@ != old.nodes@[i].name@);
            }
            lemma_first_named_is(new.nodes@, w, i);
            assert(unique_names(old.nodes@[i]));
            lemma_path_inserted(old.nodes@[i], new.nodes@[i], words.drop_first(), rule);
        } else {
            let n = old.nodes@.len() as int;
            let f = choose|f: Tree|
                is_fresh(f, words[0]) && inserted(f, #[trigger] new.nodes@[n], words.drop_first(), rule);
            assert(inserted(f, new.nodes@[n], words.drop_first(), rule));
            assert(new.nodes@[n].name == f.name);
            assert forall|q: int| 0 <= q < n implies (#[trigger] new.nodes@[q]).name@ != w by {
                assert(new.nodes@[q] == old.nodes@[q]);
            }
            lemma_first_named_is(new.nodes@, w, n);
            lemma_path_inserted(f, new.nodes@[n], words.drop_first(), rule);
        }
    }
}

proof fn lemma_path_kept(
    old: Tree,
    new: Tree,
    words2: Seq<Seq<char>>,
    rule2: Seq<char>,
    words: Seq<Seq<char>>,
)
    requires
        unique_names(old),
        inserted(old, new, words2, rule2),
        has_path(old, words),
    ensures
        has_path(new, words),
    decreases words.len(),
{
    if words.len() > 0 && words2.len() > 0 {
        let w = words[0];
        let i = first_named(old.nodes@, w);
        lemma_first_named(old.nodes@, w);
        let j = last_named(old.nodes@, words2[0]);
        lemma_last_named(old.nodes@, words2[0]);
        if 0 <= j < old.nodes@.len() {
            assert(inserted(old.nodes@[j], new.nodes@[j], words2.drop_first(), rule2));
            assert forall|k: int| 0 <= k < old.nodes@.len() implies (#[trigger] old.nodes@[k]).name@
                == new.nodes@[k].name@ by {
                if k == j {
                    assert(new.nodes@[j].name == old.nodes@[j].name);
                }
            }
            lemma_first_named_same_names(old.nodes@, new.nodes@, w);
            if i == j {
                assert(unique_names(old.nodes@[j]));
                lemma_path_kept(old.nodes@[j], new.nodes@[j], words2.drop_first(), rule2, words.drop_first());
            }
        } else {
            assert forall|q: int| 0 <= q < i implies (#[trigger] new.nodes@[q]).name@ != w by {
                assert(new.nodes@[q] == old.nodes@[q]);
            }
            assert(new.nodes@[i] == old.nodes@[i]);
            lemma_first_named_is(new.nodes@, w, i);
        }
    }
}

proof fn lemma_path_prefix(t: Tree, words: Seq<Seq<char>>, k: int)
    requires
        has_path(t, words),
        0 <= k <= words.len(),
    ensures
        has_path(t, words.take(k)),
    decreases k,
{
    if k > 0 {
        let i = first_named(t.nodes@, words[0]);
        assert(words.take(k).drop_first() =~= words.drop_first().take(k - 1));
        lemma_path_prefix(t.nodes@[i], words.drop_first(), k - 1);
    }
}

/// Where a node has a child for the variable segment `v1`, storing along a
/// different variable segment there is ambiguous.
proof fn lemma_clash_ambiguous(t: Tree, ws: Seq<Seq<char>>, v1: Seq<char>, words: Seq<Seq<char>>)
    requires
        unique_names(t),
        vars_ok(t),
        has_path(t, ws.push(v1)),
        is_var_word(v1),
        words.len() > ws.len(),
        words.take(ws.len() as int) == ws,
        is_var_word(words[ws.len() as int]),
        words[ws.len() as int] != v1,
    ensures
        clash(t, words) == Some(Conflict::Ambiguous),
    decreases ws.len(),
{
    if ws.len() == 0 {
        assert(ws.push(v1)[0] == v1);
        let i = first_named(t.nodes@, v1);
        lemma_first_named(t.nodes@, v1);
        assert(t.nodes@[i].is_variable);
        assert(any_var(t.nodes@));
        let w = words[0];
        lemma_last_named(t.nodes@, w);
        let j = last_named(t.nodes@, w);
        if j >= 0 {
            assert(t.nodes@[j].is_variable);
            assert(i != j);
            if i < j {
                assert(!(t.nodes@[i].is_variable && t.nodes@[j].is_variable));
            } else {
                assert(!(t.nodes@[j].is_variable && t.nodes@[i].is_variable));
            }
        }
    } else {
        let w = ws[0];
        assert(ws.push(v1)[0] == w);
        assert(words[0] == words.take(ws.len() as int)[0]);
        let i = first_named(t.nodes@, w);
        lemma_first_named(t.nodes@, w);
        assert forall|q: int| i < q < t.nodes@.len() implies (#[trigger] t.nodes@[q]).name@ != w by {
            assert(t.nodes@[i].name@ != t.nodes@[q].name@);
        }
        lemma_last_named_is(t.nodes@, w, i);
        assert(unique_names(t.nodes@[i]));
        assert(vars_ok(t.nodes@[i]));
        assert(ws.push(v1).drop_first() =~= ws.drop_first().push(v1));
        assert(words.drop_first().take(ws.len() - 1) =~= ws.drop_first());
        lemma_clash_ambiguous(t.nodes@[i], ws.drop_first(), v1, words.drop_first());
    }
}

/// The tree of `method` leads along the segments `words`, each the first
/// child of its name.
pub open spec fn holds_path(p: PreTree, method: Seq<char>, words: Seq<Seq<char>>) -> bool {
    let g = first_named(p.tree_group@, method);
    0 <= g < p.tree_group@.len() && has_path(p.tree_group@[g], words)
}

/// After a rule is stored, its method's tree leads along the rule's
/// segments, and along every prefix of them.
pub proof fn law_stored_path_held(
    old: PreTree,
    new: PreTree,
    method: Seq<char>,
    rule: Seq<char>,
    res: Result<(), PreTreeErr>,
    k: int,
)
    requires
        old.wf(),
        stored(old, new, method, rule, res),
        res is Ok,
        0 <= k <= rule_words(rule).len(),
    ensures
        holds_path(new, method, rule_words(rule).take(k)),
{
    lemma_group_kept(old, new, method, rule, res);
    let g = first_named(old.tree_group@, method);
    assert(unique_names(old.tree_group@[g]));
    lemma_path_inserted(old.tree_group@[g], new.tree_group@[g], rule_words(rule), rule);
    lemma_path_prefix(new.tree_group@[g], rule_words(rule), k);
}

/// A path that a tree leads along stays there whatever is stored next.
pub proof fn law_held_path_kept(
    old: PreTree,
    new: PreTree,
    method: Seq<char>,
    words: Seq<Seq<char>>,
    method2: Seq<char>,
    rule2: Seq<char>,
    res2: Result<(), PreTreeErr>,
)
    requires
        old.wf(),
        holds_path(old, method, words),
        stored(old, new, method2, rule2, res2),
    ensures
        holds_path(new, method, words),
{
    let g = first_named(old.tree_group@, method);
    let g2 = first_named(old.tree_group@, method2);
    lemma_first_named(old.tree_group@, method2);
    if g2 >= 0 {
        let words2 = rule_words(rule2);
        assert(rule_stored(old.tree_group@[g2], new.tree_group@[g2], rule2, res2));
        assert(new.tree_group@[g2].name == old.tree_group@[g2].name) by {
            if clash(old.tree_group@[g2], words2) is None {
                assert(inserted(old.tree_group@[g2], new.tree_group@[g2], words2, rule2));
            }
        }
        assert forall|k: int| 0 <= k < old.tree_group@.len() implies (
        #[trigger] old.tree_group@[k]).name@ == new.tree_group@[k].name@ by {
            if k != g2 {
                assert(new.tree_group@[k] == old.tree_group@[k]);
            }
        }
        lemma_first_named_same_names(old.tree_group@, new.tree_group@, method);
        if g == g2 {
            if clash(old.tree_group@[g], words2) is None {
                assert(unique_names(old.tree_group@[g]));
                lemma_path_kept(old.tree_group@[g], new.tree_group@[g], words2, rule2, words);
            }
        } else {
            assert(new.tree_group@[g] == old.tree_group@[g]);
        }
    }
}

/// One path variable per level: where the tree leads along `prefix` to a
/// child for the variable segment `v1`, a rule that goes on from `prefix`
/// with another variable segment is refused with `Ambiguity` and the rule.
pub proof fn law_second_variable_ambiguous(
    old: PreTree,
    new: PreTree,
    method: Seq<char>,
    prefix: Seq<Seq<char>>,
    v1: Seq<char>,
    rule: Seq<char>,
    res: Result<(), PreTreeErr>,
)
    requires
        old.wf(),
        holds_path(old, method, prefix.push(v1)),
        is_var_word(v1),
        rule_words(rule).len() > prefix.len(),
        rule_words(rule).take(prefix.len() as int) == prefix,
        is_var_word(rule_words(rule)[prefix.len() as int]),
        rule_words(rule)[prefix.len() as int] != v1,
        stored(old, new, method, rule, res),
    ensures
        res matches Err(PreTreeErr::Ambiguity(s)) && s@ == rule,
{
    let g = first_named(old.tree_group@, method);
    assert(unique_names(old.tree_group@[g]));
    assert(vars_ok(old.tree_group@[g]));
    lemma_clash_ambiguous(old.tree_group@[g], prefix, v1, rule_words(rule));
}

} // verus!
