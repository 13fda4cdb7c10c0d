//! Module paths: the hierarchical names of classes and programs.
use vstd::prelude::*;
use crate::class::Class;
use crate::node::Node;
use crate::text::{
    chars_of, copy_strings, free_of, lemma_deep_view_is_map, lemma_deep_view_push, join_with, lemma_split_join, lemma_split_len, push_char, push_str,
    split_chars, split_on,
};

verus! {

/// The canonical text of a path: its segments and its leaf joined with dots.
pub open spec fn path_text(segs: Seq<Seq<char>>, leaf: Seq<char>) -> Seq<char> {
    join_with(segs.push(leaf), '.')
}

/// What reading a text as a module path gives: the pieces between dots, the last one
/// being the leaf, which may not be empty.
pub open spec fn parsed_path(s: Seq<char>) -> Option<(Seq<Seq<char>>, Seq<char>)> {
    let parts = split_on(s, '.');
    if parts.last().len() == 0 {
        None
    } else {
        Some((parts.drop_last(), parts.last()))
    }
}

/// A path whose text reads back as itself: a non-empty leaf, and no dot in any part.
pub open spec fn path_valid(segs: Seq<Seq<char>>, leaf: Seq<char>) -> bool {
    &&& leaf.len() > 0
    &&& free_of(leaf, '.')
    &&& forall|i: int| 0 <= i < segs.len() ==> free_of(#[trigger] segs[i], '.')
}

/// Path in the module tree: the enclosing module segments, then the leaf name.
#[derive(Debug, Clone)]
pub struct ModulePath(pub Vec<String>, pub String);

#[derive(Debug, Clone, PartialEq, Eq)]
pub enum ModulePathParseError {
    NotEnoughItems,
}

impl ModulePath {
    pub open spec fn segs(&self) -> Seq<Seq<char>> {
        self.0.deep_view()
    }

    pub open spec fn leaf(&self) -> Seq<char> {
        self.1@
    }

    pub open spec fn text(&self) -> Seq<char> {
        path_text(self.segs(), self.leaf())
    }

    pub open spec fn valid(&self) -> bool {
        path_valid(self.segs(), self.leaf())
    }

    /// A path with no enclosing module.
    pub fn top(leaf: String) -> (r: ModulePath)
        ensures
            r.segs() == Seq::<Seq<char>>::empty(),
            r.leaf() == leaf@,
    {
        let r = ModulePath(Vec::new(), leaf);
        assert(r.segs() =~= Seq::<Seq<char>>::empty());
        r
    }

    /// Reads a dot-separated path; the rightmost piece becomes the leaf.
    pub fn parse(s: &str) -> (r: Result<ModulePath, ModulePathParseError>)
        ensures
            match parsed_path(s@) {
                Some(p) => r is Ok && r->Ok_0.segs() == p.0 && r->Ok_0.leaf() == p.1,
                None => r == Err::<ModulePath, ModulePathParseError>(
                    ModulePathParseError::NotEnoughItems,
                ),
            },
    {
        let v = chars_of(s);
        assert(v@.subrange(0, v@.len() as int) =~= s@);
        Self::parse_chars(&v, 0, v.len())
    }

    /// Reads the path written in `v[lo..hi]`.
    pub fn parse_chars(v: &Vec<char>, lo: usize, hi: usize) -> (r: Result<
        ModulePath,
        ModulePathParseError,
    >)
        requires
            lo <= hi <= v@.len(),
        ensures
            match parsed_path(v@.subrange(lo as int, hi as int)) {
                Some(p) => r is Ok && r->Ok_0.segs() == p.0 && r->Ok_0.leaf() == p.1,
                None => r == Err::<ModulePath, ModulePathParseError>(
                    ModulePathParseError::NotEnoughItems,
                ),
            },
    {
        let mut pieces = split_chars(v, lo, hi, '.');
        proof {
            lemma_split_len(v@.subrange(lo as int, hi as int), '.');
        }
        let ghost all = pieces.deep_view();
        let leaf = pieces.pop().unwrap();
        assert(pieces.deep_view() =~= all.drop_last());
        if leaf.unicode_len() == 0 {
            Err(ModulePathParseError::NotEnoughItems)
        } else {
            Ok(ModulePath(pieces, leaf))
        }
    }

    /// Appends the dot-joined text of the path to `out`.
    pub fn write_text(&self, out: &mut String)
        ensures
            final(out)@ == old(out)@ + self.text(),
    {
        let ghost start = out@;
        let n = self.0.len();
        let mut i: usize = 0;
        while i < n
            invariant
                n == self.0@.len(),
                i <= n,
                out@ == start + (if i == 0 {
                    Seq::<char>::empty()
                } else {
                    join_with(self.segs().subrange(0, i as int), '.') + seq!['.']
                }),
            decreases n - i,
        {
            push_str(out, &self.0[i]);
            push_char(out, '.');
            proof {
                let p = self.segs().subrange(0, i + 1);
                assert(p.drop_last() =~= self.segs().subrange(0, i as int));
                assert(p.last() == self.0@[i as int]@);
                if i == 0 {
                    assert(join_with(p, '.') == p[0]);
                }
            }
            i = i + 1;
            assert(out@ =~= start + (join_with(self.segs().subrange(0, i as int), '.') + seq![
                '.',
            ]));
        }
        push_str(out, &self.1);
        proof {
            let all = self.segs().push(self.leaf());
            assert(all.drop_last() =~= self.segs());
            assert(self.segs().subrange(0, n as int) =~= self.segs());
            if n == 0 {
                assert(all =~= seq![self.leaf()]);
            }
        }
        assert(out@ =~= start + self.text());
    }

    /// The dot-joined text of the path.
    pub fn to_text(&self) -> (r: String)
        ensures
            r@ == self.text(),
    {
        let mut r = String::new();
        self.write_text(&mut r);
        assert(r@ =~= self.text());
        r
    }

    /// Two paths are the same iff their segments and leaves are.
    pub fn same_as(&self, other: &ModulePath) -> (r: bool)
        ensures
            r == (self.segs() == other.segs() && self.leaf() == other.leaf()),
    {
        assert(self.segs().len() == self.0@.len());
        assert(other.segs().len() == other.0@.len());
        if self.0.len() != other.0.len() {
            return false;
        }
        let mut i: usize = 0;
        while i < self.0.len()
            invariant
                self.0@.len() == other.0@.len(),
                i <= self.0@.len(),
                forall|j: int| 0 <= j < i ==> self.segs()[j] == other.segs()[j],
            decreases self.0@.len() - i,
        {
            assert(self.segs()[i as int] == self.0@[i as int]@);
            assert(other.segs()[i as int] == other.0@[i as int]@);
            if self.0[i] != other.0[i] {
                return false;
            }
            i = i + 1;
        }
        assert(self.segs() =~= other.segs());
        self.1 == other.1
    }
}

/// Reading the text of a valid path gives the path back.
pub proof fn lemma_module_path_round_trip(segs: Seq<Seq<char>>, leaf: Seq<char>)
    requires
        path_valid(segs, leaf),
    ensures
        parsed_path(path_text(segs, leaf)) == Some((segs, leaf)),
{
    let parts = segs.push(leaf);
    assert forall|i: int| 0 <= i < parts.len() implies free_of(#[trigger] parts[i], '.') by {
        if i < segs.len() {
            assert(parts[i] == segs[i]);
        }
    }
    lemma_split_join(parts, '.');
    assert(parts.drop_last() =~= segs);
}

/// The full key of a path: its segments, then its leaf.
pub open spec fn full_key(p: ModulePath) -> Seq<Seq<char>> {
    p.segs().push(p.leaf())
}

pub open spec fn is_prefix(a: Seq<Seq<char>>, b: Seq<Seq<char>>) -> bool {
    a.len() <= b.len() && b.subrange(0, a.len() as int) == a
}

pub proof fn lemma_prefix_trans(a: Seq<Seq<char>>, b: Seq<Seq<char>>, c: Seq<Seq<char>>)
    requires
        is_prefix(a, b),
        is_prefix(b, c),
    ensures
        is_prefix(a, c),
{
    assert(c.subrange(0, a.len() as int) =~= b.subrange(0, a.len() as int));
}

/// The segments of a path are a prefix of its full key.
pub proof fn lemma_segs_prefix(p: ModulePath)
    ensures
        is_prefix(p.segs(), full_key(p)),
{
    assert(full_key(p).subrange(0, p.segs().len() as int) =~= p.segs());
}

/// The full key of a path as strings.
pub fn key_of(p: &ModulePath) -> (r: Vec<String>)
    ensures
        r.deep_view() == full_key(*p),
{
    let mut r = copy_strings(&p.0);
    let ghost before = r@;
    proof {
        lemma_deep_view_is_map(r);
    }
    let leaf = p.1.clone();
    r.push(leaf);
    proof {
        lemma_deep_view_push(before, r, leaf);
    }
    r
}

/// Whether `a` is a prefix of `b`.
pub fn strings_prefix(a: &Vec<String>, b: &Vec<String>) -> (r: bool)
    ensures
        r == is_prefix(a.deep_view(), b.deep_view()),
{
    if a.len() > b.len() {
        return false;
    }
    let mut i: usize = 0;
    while i < a.len()
        invariant
            i <= a@.len() <= b@.len(),
            forall|j: int| 0 <= j < i ==> a.deep_view()[j] == b.deep_view()[j],
        decreases a@.len() - i,
    {
        assert(a.deep_view()[i as int] == a@[i as int]@);
        assert(b.deep_view()[i as int] == b@[i as int]@);
        if a[i] != b[i] {
            assert(b.deep_view().subrange(0, a@.len() as int)[i as int] != a.deep_view()[i as int]);
            return false;
        }
        i = i + 1;
    }
    assert(b.deep_view().subrange(0, a@.len() as int) =~= a.deep_view());
    true
}

#[derive(Debug, Clone, Copy, PartialEq, Eq, Structural)]
pub enum ModuleError {
    /// A path runs through an item that is not a module.
    NonModuleSegment,
}

/// The module tree, as the list of the classes at its leaves, each with its path.
/// A path's segments name modules; no class stands where a module is needed.
#[derive(Debug)]
pub struct Module {
    pub items: Vec<(ModulePath, Class)>,
}

impl Module {
    pub open spec fn key(&self, i: int) -> Seq<Seq<char>> {
        full_key(self.items@[i].0)
    }

    /// Some class stands on the way to `segs`, where a module would be needed.
    pub open spec fn blocks(&self, segs: Seq<Seq<char>>) -> bool {
        exists|i: int| 0 <= i < self.items@.len() && is_prefix(#[trigger] self.key(i), segs)
    }

    /// The place of `key` is taken: by a class there, or by a module below it.
    pub open spec fn occupied(&self, key: Seq<Seq<char>>) -> bool {
        exists|i: int| 0 <= i < self.items@.len() && is_prefix(key, #[trigger] self.key(i))
    }

    pub open spec fn holds(&self, key: Seq<Seq<char>>) -> bool {
        exists|i: int| 0 <= i < self.items@.len() && #[trigger] self.key(i) == key
    }

    pub open spec fn wf(&self) -> bool {
        forall|i: int, j: int|
            0 <= i < self.items@.len() && 0 <= j < self.items@.len() && i != j ==> !is_prefix(
                #[trigger] self.key(i),
                #[trigger] self.key(j),
            )
    }

    pub fn new() -> (r: Module)
        ensures
            r.wf(),
            r.items@.len() == 0,
    {
        Module { items: Vec::new() }
    }

    /// Places a class at a path, making the modules along the way. A class already at
    /// that place, or a module there, is kept.
    pub fn insert(&mut self, path: ModulePath, class: Class) -> (r: Result<(), ModuleError>)
        requires
            old(self).wf(),
        ensures
            final(self).wf(),
            old(self).blocks(path.segs()) ==> r == Err::<(), ModuleError>(
                ModuleError::NonModuleSegment,
            ) && final(self).items@ == old(self).items@,
            !old(self).blocks(path.segs()) && old(self).occupied(full_key(path)) ==> r is Ok
                && final(self).items@ == old(self).items@,
            !old(self).blocks(path.segs()) && !old(self).occupied(full_key(path)) ==> r is Ok
                && final(self).items@ == old(self).items@.push((path, class)),
    {
        let key = key_of(&path);
        let mut i: usize = 0;
        while i < self.items.len()
            invariant
                self.wf(),
                self.items@ == old(self).items@,
                i <= self.items@.len(),
                key.deep_view() == full_key(path),
                forall|j: int| 0 <= j < i ==> !is_prefix(#[trigger] self.key(j), path.segs()),
                forall|j: int| 0 <= j < i ==> !is_prefix(full_key(path), #[trigger] self.key(j)),
            decreases self.items@.len() - i,
        {
            let k = key_of(&self.items[i].0);
            let segs = copy_strings(&path.0);
            if strings_prefix(&k, &segs) {
                assert(is_prefix(self.key(i as int), path.segs()));
                assert(old(self).blocks(path.segs()));
                return Err(ModuleError::NonModuleSegment);
            }
            if strings_prefix(&key, &k) {
                proof {
                    assert(is_prefix(full_key(path), self.key(i as int)));
                    assert(self.occupied(full_key(path)));
                    lemma_segs_prefix(path);
                    assert forall|j: int| 0 <= j < self.items@.len() implies !is_prefix(
                        #[trigger] self.key(j),
                        path.segs(),
                    ) by {
                        if is_prefix(self.key(j), path.segs()) {
                            lemma_prefix_trans(self.key(j), path.segs(), full_key(path));
                            lemma_prefix_trans(self.key(j), full_key(path), self.key(i as int));
                            if j == i {
                                assert(self.key(j).len() <= path.segs().len());
                            }
                        }
                    }
                }
                return Ok(());
            }
            i = i + 1;
        }
        let ghost before = self.items@;
        self.items.push((path, class));
        proof {
            let n = before.len() as int;
            assert(self.key(n) == full_key(path));
            assert forall|a: int, b: int|
                0 <= a < self.items@.len() && 0 <= b < self.items@.len() && a != b implies !is_prefix(
                #[trigger] self.key(a),
                #[trigger] self.key(b),
            ) by {
                if a < n && b < n {
                    assert(self.key(a) == full_key(before[a].0));
                    assert(self.key(b) == full_key(before[b].0));
                    assert(old(self).key(a) == self.key(a));
                    assert(old(self).key(b) == self.key(b));
                } else if a == n {
                    assert(self.key(b) == old(self).key(b));
                } else {
                    assert(self.key(a) == old(self).key(a));
                    if is_prefix(self.key(a), full_key(path)) {
                        if self.key(a).len() == full_key(path).len() {
                            assert(self.key(a) =~= full_key(path));
                            assert(is_prefix(full_key(path), old(self).key(a))) by {
                                assert(old(self).key(a).subrange(0, full_key(path).len() as int)
                                    =~= old(self).key(a));
                            }
                        } else {
                            assert(is_prefix(old(self).key(a), path.segs())) by {
                                assert(path.segs().subrange(0, self.key(a).len() as int)
                                    =~= full_key(path).subrange(0, self.key(a).len() as int));
                            }
                        }
                    }
                }
            }
        }
        Ok(())
    }

    /// The class at a path, if one stands there.
    pub fn get_class(&self, path: &ModulePath) -> (r: Option<&Class>)
        ensures
            match r {
                Some(c) => exists|i: int|
                    0 <= i < self.items@.len() && #[trigger] self.key(i) == full_key(*path) && *c
                        == self.items@[i].1,
                None => !self.holds(full_key(*path)),
            },
    {
        match self.find(path) {
            Some(i) => Some(&self.items[i].1),
            None => None,
        }
    }

    fn find(&self, path: &ModulePath) -> (r: Option<usize>)
        ensures
            match r {
                Some(i) => i < self.items@.len() && self.key(i as int) == full_key(*path),
                None => !self.holds(full_key(*path)),
            },
    {
        let key = key_of(path);
        let mut i: usize = 0;
        while i < self.items.len()
            invariant
                i <= self.items@.len(),
                key.deep_view() == full_key(*path),
                forall|j: int| 0 <= j < i ==> #[trigger] self.key(j) != full_key(*path),
            decreases self.items@.len() - i,
        {
            let k = key_of(&self.items[i].0);
            if strings_prefix(&k, &key) && k.len() == key.len() {
                assert(key.deep_view().subrange(0, k@.len() as int) =~= key.deep_view());
                return Some(i);
            }
            proof {
                if self.key(i as int) == full_key(*path) {
                    assert(key.deep_view().subrange(0, k.deep_view().len() as int) =~= key.deep_view());
                }
            }
            i = i + 1;
        }
        None
    }

    /// Replaces the prototype palette of the class at a path; false if no class
    /// stands there.
    pub fn set_class_nodes(&mut self, path: &ModulePath, nodes: Vec<Node>) -> (r: bool)
        requires
            old(self).wf(),
        ensures
            final(self).wf(),
            r == old(self).holds(full_key(*path)),
            final(self).items@.len() == old(self).items@.len(),
            forall|i: int|
                0 <= i < old(self).items@.len() ==> (#[trigger] final(self).items@[i]).0 == old(
                    self,
                ).items@[i].0,
            forall|i: int|
                0 <= i < old(self).items@.len() && old(self).key(i) != full_key(*path) ==> (
                #[trigger] final(self).items@[i]).1 == old(self).items@[i].1,
            forall|i: int|
                0 <= i < old(self).items@.len() && old(self).key(i) == full_key(*path) ==> (
                #[trigger] final(self).items@[i]).1.nodes == nodes,
            forall|i: int|
                0 <= i < old(self).items@.len() ==> (#[trigger] final(self).items@[i]).1.name
                    == old(self).items@[i].1.name && final(self).items@[i].1.obj_from_str == old(
                    self,
                ).items@[i].1.obj_from_str,
    {
        match self.find(path) {
            Some(i) => {
                let (p, c) = self.items.remove(i);
                let ghost mid = self.items@;
                let c2 = Class { name: c.name, nodes, obj_from_str: c.obj_from_str };
                self.items.insert(i, (p, c2));
                proof {
                    assert forall|j: int|
                        0 <= j < old(self).items@.len() && j != i implies (
                        #[trigger] self.items@[j]) == old(self).items@[j] by {
                        if j < i {
                            assert(self.items@[j] == mid[j]);
                        } else {
                            assert(self.items@[j] == mid[j - 1]);
                        }
                    }
                    assert forall|j: int|
                        0 <= j < old(self).items@.len() && old(self).key(j) == full_key(
                            *path,
                        ) implies j == i by {
                        if j != i {
                            assert(is_prefix(old(self).key(j), old(self).key(i as int))) by {
                                assert(old(self).key(i as int).subrange(
                                    0,
                                    old(self).key(j).len() as int,
                                ) =~= old(self).key(i as int));
                            }
                        }
                    }
                    assert forall|a: int, b: int|
                        0 <= a < self.items@.len() && 0 <= b < self.items@.len() && a != b implies !is_prefix(
                        #[trigger] self.key(a),
                        #[trigger] self.key(b),
                    ) by {
                        assert(self.key(a) == old(self).key(a));
                        assert(self.key(b) == old(self).key(b));
                    }
                }
                true
            },
            None => false,
        }
    }
}

} // verus!
