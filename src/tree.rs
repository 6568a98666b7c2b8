use vstd::prelude::*;
use crate::version::texts;

verus! {

/// Each node as the view sees it: its parent's index and its name.
pub type LinksView = Seq<(int, Seq<char>)>;

/// A name-keyed tree stored as an arena: node `0` is the root, and node `k`
/// records its parent and the name it has there. Both the installed
/// `node_modules` tree and the nested lockfile are held this way.
pub struct Links {
    nodes: Vec<(usize, String)>,
}

/// The first node from index `from` on that is a child named `name` of `k`.
pub open spec fn find_from(v: LinksView, k: int, name: Seq<char>, from: int) -> Option<int>
    decreases v.len() - from,
{
    if from >= v.len() || from < 1 {
        None
    } else if v[from].0 == k && v[from].1 == name {
        Some(from)
    } else {
        find_from(v, k, name, from + 1)
    }
}

pub open spec fn child_of(v: LinksView, k: int, name: Seq<char>) -> Option<int> {
    find_from(v, k, name, 1)
}

/// The nodes met when following the names of `at` down from node `k`, as
/// far as they exist; `k` first.
pub open spec fn descend(v: LinksView, k: int, at: Seq<Seq<char>>) -> Seq<int>
    decreases at.len(),
{
    if at.len() == 0 {
        seq![k]
    } else {
        match child_of(v, k, at[0]) {
            Some(c) => seq![k] + descend(v, c, at.drop_first()),
            None => seq![k],
        }
    }
}

/// Hoisted resolution along a chain of nodes: the child named `name` of the
/// deepest node that has one, with that node's place in the chain.
pub open spec fn hoisted(v: LinksView, chain: Seq<int>, name: Seq<char>) -> Option<(int, int)>
    decreases chain.len(),
{
    if chain.len() == 0 {
        None
    } else {
        match child_of(v, chain.last(), name) {
            Some(c) => Some((c, chain.len() - 1)),
            None => hoisted(v, chain.drop_last(), name),
        }
    }
}

/// Resolution of `name` seen from the node that the path `at` leads to.
pub open spec fn lookup_spec(v: LinksView, at: Seq<Seq<char>>, name: Seq<char>) -> Option<(int, int)> {
    hoisted(v, descend(v, 0, at), name)
}

impl View for Links {
    type V = LinksView;

    closed spec fn view(&self) -> LinksView {
        self.nodes@.map_values(|p: (usize, String)| (p.0 as int, p.1@))
    }
}

impl Links {
    pub open spec fn wf(&self) -> bool {
        &&& self@.len() >= 1
        &&& forall|k: int| 0 <= k < self@.len() ==> 0 <= #[trigger] self@[k].0 < self@.len()
    }

    /// A tree of the root alone.
    pub fn new() -> (r: Links)
        ensures
            r.wf(),
            r@ == seq![(0int, Seq::<char>::empty())],
    {
        let mut nodes: Vec<(usize, String)> = Vec::new();
        nodes.push((0, String::new()));
        let r = Links { nodes };
        assert(r@ =~= seq![(0int, Seq::<char>::empty())]);
        r
    }

    pub fn len(&self) -> (r: usize)
        ensures
            r == self@.len(),
    {
        self.nodes.len()
    }

    /// Adds a node named `name` under `parent`, and returns its index.
    pub fn add(&mut self, parent: usize, name: String) -> (r: Option<usize>)
        requires
            old(self).wf(),
            parent < old(self)@.len(),
        ensures
            final(self).wf(),
            r matches Some(c) ==> c == old(self)@.len() && final(self)@ == old(self)@.push(
                (parent as int, name@),
            ),
            r is None ==> final(self)@ == old(self)@,
            old(self)@.len() < usize::MAX ==> r is Some,
    {
        let c = self.nodes.len();
        if c == usize::MAX {
            return None;
        }
        let ghost before = self@;
        self.nodes.push((parent, name));
        assert(self@ =~= before.push((parent as int, name@)));
        Some(c)
    }

    /// The child named `name` of node `k`, if any.
    pub fn child(&self, k: usize, name: &String) -> (r: Option<usize>)
        requires
            self.wf(),
            k < self@.len(),
        ensures
            r matches Some(c) ==> child_of(self@, k as int, name@) == Some(c as int) && c
                < self@.len(),
            r is None ==> child_of(self@, k as int, name@) is None,
    {
        let mut i: usize = 1;
        while i < self.nodes.len()
            invariant
                1 <= i <= self.nodes.len(),
                self.nodes@.len() == self@.len(),
                child_of(self@, k as int, name@) == find_from(self@, k as int, name@, i as int),
            decreases self.nodes.len() - i,
        {
            assert(self@[i as int] == (self.nodes@[i as int].0 as int, self.nodes@[i as int].1@));
            if self.nodes[i].0 == k && self.nodes[i].1 == *name {
                return Some(i);
            }
            i = i + 1;
        }
        None
    }

    /// The chain of nodes that the path `at` leads through from the root.
    pub fn chain(&self, at: &Vec<String>) -> (r: Vec<usize>)
        requires
            self.wf(),
        ensures
            r@.map_values(|x: usize| x as int) == descend(self@, 0, texts(at@)),
            forall|i: int| 0 <= i < r@.len() ==> r@[i] < self@.len(),
    {
        let ghost names = texts(at@);
        let mut out: Vec<usize> = Vec::new();
        out.push(0);
        let mut cur: usize = 0;
        let mut i: usize = 0;
        assert(names.subrange(0, names.len() as int) =~= names);
        while i < at.len()
            invariant
                0 <= i <= at.len(),
                names == texts(at@),
                self.wf(),
                cur < self@.len(),
                out@.len() >= 1,
                out@.last() == cur,
                forall|j: int| 0 <= j < out@.len() ==> out@[j] < self@.len(),
                descend(self@, 0, names) == out@.map_values(|x: usize| x as int).drop_last()
                    + descend(self@, cur as int, names.subrange(i as int, names.len() as int)),
            decreases at.len() - i,
        {
            let ghost rest = names.subrange(i as int, names.len() as int);
            assert(rest[0] == at@[i as int]@);
            assert(rest.drop_first() =~= names.subrange(i + 1, names.len() as int));
            match self.child(cur, &at[i]) {
                Some(c) => {
                    let ghost before = out@;
                    out.push(c);
                    assert(out@.map_values(|x: usize| x as int).drop_last() =~= before.map_values(
                        |x: usize| x as int,
                    ).drop_last() + seq![cur as int]);
                    cur = c;
                    i = i + 1;
                },
                None => {
                    assert(out@.map_values(|x: usize| x as int) =~= out@.map_values(
                        |x: usize| x as int,
                    ).drop_last() + seq![cur as int]);
                    return out;
                },
            }
        }
        assert(out@.map_values(|x: usize| x as int) =~= out@.map_values(|x: usize| x as int).drop_last()
            + seq![cur as int]);
        out
    }

    /// Hoisted resolution of `name` from the node that `at` leads to: the
    /// child of that name of the deepest node on the way that has one,
    /// together with that node's depth.
    pub fn get(&self, name: &String, at: &Vec<String>) -> (r: Option<(usize, usize)>)
        requires
            self.wf(),
        ensures
            r matches Some((c, d)) ==> lookup_spec(self@, texts(at@), name@) == Some(
                (c as int, d as int),
            ),
            r is None ==> lookup_spec(self@, texts(at@), name@) is None,
            r matches Some((c, d)) ==> c < self@.len() && d <= at@.len(),
    {
        let chain = self.chain(at);
        let ghost cv = chain@.map_values(|x: usize| x as int);
        proof {
            lemma_descend_len(self@, 0, texts(at@));
        }
        let mut j: usize = chain.len();
        assert(cv.subrange(0, cv.len() as int) =~= cv);
        while j > 0
            invariant
                0 <= j <= chain@.len(),
                chain@.len() <= at@.len() + 1,
                cv == chain@.map_values(|x: usize| x as int),
                cv == descend(self@, 0, texts(at@)),
                self.wf(),
                forall|i: int| 0 <= i < chain@.len() ==> chain@[i] < self@.len(),
                hoisted(self@, cv, name@) == hoisted(self@, cv.subrange(0, j as int), name@),
            decreases j,
        {
            let ghost part = cv.subrange(0, j as int);
            assert(part.last() == chain@[j - 1] as int);
            assert(part.drop_last() =~= cv.subrange(0, j - 1));
            match self.child(chain[j - 1], name) {
                Some(c) => {
                    assert(hoisted(self@, part, name@) == Some((c as int, (j - 1) as int)));
                    return Some((c, j - 1));
                },
                None => {},
            }
            j = j - 1;
        }
        None
    }
}

proof fn lemma_descend_len(v: LinksView, k: int, at: Seq<Seq<char>>)
    ensures
        1 <= descend(v, k, at).len() <= at.len() + 1,
        descend(v, k, at)[0] == k,
    decreases at.len(),
{
    if at.len() > 0 {
        if let Some(c) = child_of(v, k, at[0]) {
            lemma_descend_len(v, c, at.drop_first());
        }
    }
}

/// Hoisted lookup finds the entry of the deepest node on the chain that has
/// a child of that name: no deeper node has one; and it finds nothing only
/// where no node on the chain has one.
pub proof fn lemma_hoisted_is_deepest(v: LinksView, chain: Seq<int>, name: Seq<char>)
    ensures
        hoisted(v, chain, name) matches Some((c, d)) ==> {
            &&& 0 <= d < chain.len()
            &&& child_of(v, chain[d], name) == Some(c)
            &&& forall|e: int| d < e < chain.len() ==> child_of(v, #[trigger] chain[e], name) is None
        },
        hoisted(v, chain, name) is None ==> forall|e: int|
            0 <= e < chain.len() ==> child_of(v, #[trigger] chain[e], name) is None,
    decreases chain.len(),
{
    if chain.len() > 0 {
        let init = chain.drop_last();
        lemma_hoisted_is_deepest(v, init, name);
        assert forall|e: int| 0 <= e < init.len() implies chain[e] == #[trigger] init[e] by {}
        match child_of(v, chain.last(), name) {
            Some(c) => {
                assert(hoisted(v, chain, name) == Some((c, chain.len() - 1)));
            },
            None => {
                assert(hoisted(v, chain, name) == hoisted(v, init, name));
                if let Some((c, d)) = hoisted(v, init, name) {
                    assert forall|e: int| d < e < chain.len() implies child_of(v, #[trigger] chain[e], name) is None by {
                        if e < init.len() {
                            assert(chain[e] == init[e]);
                        }
                    }
                } else {
                    assert forall|e: int| 0 <= e < chain.len() implies child_of(v, #[trigger] chain[e], name) is None by {
                        if e < init.len() {
                            assert(chain[e] == init[e]);
                        }
                    }
                }
            },
        }
    }
}

} // verus!
