use vstd::prelude::*;
use crate::version::{split_on, views};

verus! {

/// The byte `/`.
pub const SLASH: u8 = 47;

/// The byte `.`.
pub const DOT: u8 = 46;

/// A piece that names no directory level: empty (a doubled slash) or `.`.
pub open spec fn is_trivial(s: Seq<u8>) -> bool {
    s.len() == 0 || s == seq![DOT]
}

pub open spec fn is_parent(s: Seq<u8>) -> bool {
    s == seq![DOT, DOT]
}

/// The conventional top directory of a registry archive.
pub open spec fn is_package_dir(s: Seq<u8>) -> bool {
    s == seq![112u8, 97u8, 99u8, 107u8, 97u8, 103u8, 101u8]
}

/// A component that can be joined under a directory and stays strictly inside it.
pub open spec fn is_normal(s: Seq<u8>) -> bool {
    &&& s.len() > 0
    &&& !is_trivial(s)
    &&& !is_parent(s)
    &&& forall|i: int| 0 <= i < s.len() ==> s[i] != SLASH
}

/// One piece of the walk: `stack` holds the components kept so far and
/// `started` says whether a meaningful piece was met already. `None` means
/// that the path climbs above its root.
pub open spec fn walk_step(stack: Seq<Seq<u8>>, started: bool, s: Seq<u8>) -> Option<
    (Seq<Seq<u8>>, bool),
> {
    if is_trivial(s) {
        Some((stack, started))
    } else if !started && is_package_dir(s) {
        Some((stack, true))
    } else if is_parent(s) {
        if stack.len() == 0 {
            None
        } else {
            Some((stack.drop_last(), true))
        }
    } else {
        Some((stack.push(s), true))
    }
}

pub open spec fn walk(ps: Seq<Seq<u8>>) -> Option<(Seq<Seq<u8>>, bool)>
    decreases ps.len(),
{
    if ps.len() == 0 {
        Some((Seq::empty(), false))
    } else {
        match walk(ps.drop_last()) {
            None => None,
            Some((stack, started)) => walk_step(stack, started, ps.last()),
        }
    }
}

/// Where an archive entry lands, as components below the cache slot: a
/// leading `package` component is dropped, `.` and empty pieces are ignored,
/// `..` removes the component before it. `None` for an absolute path and for
/// one that climbs out of the slot.
pub open spec fn destination(p: Seq<u8>) -> Option<Seq<Seq<u8>>> {
    if p.len() > 0 && p[0] == SLASH {
        None
    } else {
        match walk(split_on(p, SLASH)) {
            None => None,
            Some((stack, _)) => Some(stack),
        }
    }
}

pub open spec fn all_normal(cs: Seq<Seq<u8>>) -> bool {
    forall|i: int| 0 <= i < cs.len() ==> is_normal(#[trigger] cs[i])
}

pub open spec fn has_no_slash(ps: Seq<Seq<u8>>) -> bool {
    forall|i: int, j: int| 0 <= i < ps.len() && 0 <= j < ps[i].len() ==> ps[i][j] != SLASH
}

proof fn lemma_pieces(p: Seq<u8>)
    ensures
        split_on(p, SLASH).len() >= 1,
        has_no_slash(split_on(p, SLASH)),
    decreases p.len(),
{
    if p.len() > 0 {
        lemma_pieces(p.drop_last());
        let prev = split_on(p.drop_last(), SLASH);
        if p.last() != SLASH {
            let np = prev.update(prev.len() - 1, prev.last().push(p.last()));
            assert forall|i: int, j: int| 0 <= i < np.len() && 0 <= j < np[i].len() implies np[i][j]
                != SLASH by {
                if i == prev.len() - 1 && j == prev.last().len() {
                } else {
                    assert(np[i][j] == prev[i][j]);
                }
            }
        } else {
            let np = prev.push(Seq::empty());
            assert forall|i: int, j: int| 0 <= i < np.len() && 0 <= j < np[i].len() implies np[i][j]
                != SLASH by {
                assert(np[i] == prev[i]);
            }
        }
    }
}

proof fn lemma_walk_normal(ps: Seq<Seq<u8>>)
    requires
        has_no_slash(ps),
    ensures
        walk(ps) matches Some((stack, _)) ==> all_normal(stack),
    decreases ps.len(),
{
    if ps.len() > 0 {
        let init = ps.drop_last();
        assert(has_no_slash(init)) by {
            assert forall|i: int, j: int| 0 <= i < init.len() && 0 <= j < init[i].len() implies init[i][j]
                != SLASH by {
                assert(init[i] == ps[i]);
            }
        }
        lemma_walk_normal(init);
        let s = ps.last();
        assert forall|j: int| 0 <= j < s.len() implies s[j] != SLASH by {
            assert(s == ps[ps.len() - 1]);
        }
        match walk(init) {
            None => {},
            Some((stack, started)) => {
                match walk_step(stack, started, s) {
                    None => {},
                    Some((ns, _)) => {
                        assert forall|i: int| 0 <= i < ns.len() implies is_normal(#[trigger] ns[i]) by {
                            if !is_trivial(s) && !(!started && is_package_dir(s)) && !is_parent(s)
                                && i == stack.len() {
                                assert(ns[i] == s);
                            } else {
                                assert(ns[i] == stack[i]);
                            }
                        }
                    },
                }
            },
        }
    }
}

/// Every component of a destination can be joined under the slot without
/// leaving it: none is empty, `.`, `..`, or holds a slash, so the joined
/// path has the slot as a proper ancestor.
pub proof fn lemma_destination_stays_inside(p: Seq<u8>)
    ensures
        destination(p) matches Some(cs) ==> all_normal(cs),
{
    lemma_pieces(p);
    lemma_walk_normal(split_on(p, SLASH));
}

fn piece_is_package(s: &Vec<u8>) -> (r: bool)
    ensures
        r == is_package_dir(s@),
{
    let r = s.len() == 7 && s[0] == 112u8 && s[1] == 97u8 && s[2] == 99u8 && s[3] == 107u8 && s[4]
        == 97u8 && s[5] == 103u8 && s[6] == 101u8;
    proof {
        if r {
            assert(s@ =~= seq![112u8, 97u8, 99u8, 107u8, 97u8, 103u8, 101u8]);
        }
    }
    r
}

/// Applies one piece to the walk state; `false` when the path climbs out.
fn apply_piece(stack: &mut Vec<Vec<u8>>, started: &mut bool, s: Vec<u8>) -> (ok: bool)
    ensures
        ok == walk_step(views(old(stack)@), *old(started), s@).is_some(),
        ok ==> walk_step(views(old(stack)@), *old(started), s@) == Some(
            (views(final(stack)@), *final(started)),
        ),
{
    let ghost old_stack = stack@;
    let trivial = s.len() == 0 || (s.len() == 1 && s[0] == DOT);
    let parent = s.len() == 2 && s[0] == DOT && s[1] == DOT;
    proof {
        if s.len() == 1 && s[0] == DOT {
            assert(s@ =~= seq![DOT]);
        }
        if s@ == seq![DOT] {
            assert(s@[0] == DOT);
        }
        if parent {
            assert(s@ =~= seq![DOT, DOT]);
        }
        if s@ == seq![DOT, DOT] {
            assert(s@[0] == DOT && s@[1] == DOT);
        }
    }
    if trivial {
        return true;
    }
    if !*started && piece_is_package(&s) {
        *started = true;
        return true;
    }
    *started = true;
    if parent {
        if stack.len() == 0 {
            return false;
        }
        stack.pop();
        assert(views(stack@) =~= views(old_stack).drop_last());
        true
    } else {
        stack.push(s);
        assert(views(stack@) =~= views(old_stack).push(s@));
        true
    }
}

/// The components below the slot where an entry with path `path` is written,
/// or `None` where the path is absolute or climbs out of the slot.
pub fn entry_destination(path: &[u8]) -> (r: Option<Vec<Vec<u8>>>)
    ensures
        r is None <==> destination(path@) is None,
        r matches Some(cs) ==> destination(path@) == Some(views(cs@)),
{
    if path.len() > 0 && path[0] == SLASH {
        return None;
    }
    let mut stack: Vec<Vec<u8>> = Vec::new();
    let mut started = false;
    let mut out = false;
    let mut cur: Vec<u8> = Vec::new();
    let mut i: usize = 0;
    proof {
        assert(path@.subrange(0, 0) =~= Seq::<u8>::empty());
        assert(views(stack@) =~= Seq::<Seq<u8>>::empty());
    }
    while i < path.len()
        invariant
            0 <= i <= path.len(),
            split_on(path@.subrange(0, i as int), SLASH).len() >= 1,
            cur@ == split_on(path@.subrange(0, i as int), SLASH).last(),
            out ==> walk(split_on(path@.subrange(0, i as int), SLASH).drop_last()) is None,
            !out ==> walk(split_on(path@.subrange(0, i as int), SLASH).drop_last()) == Some(
                (views(stack@), started),
            ),
        decreases path.len() - i,
    {
        let ghost pre = path@.subrange(0, i as int);
        let ghost next = path@.subrange(0, i + 1);
        assert(next.drop_last() =~= pre);
        assert(next.last() == path@[i as int]);
        proof {
            lemma_pieces(pre);
        }
        let b = path[i];
        if b == SLASH {
            let piece = cur;
            cur = Vec::new();
            proof {
                let pp = split_on(pre, SLASH);
                assert(split_on(next, SLASH) == pp.push(Seq::empty()));
                assert(split_on(next, SLASH).drop_last() =~= pp);
                assert(pp =~= pp.drop_last().push(pp.last()));
            }
            if !out {
                let ok = apply_piece(&mut stack, &mut started, piece);
                if !ok {
                    out = true;
                }
            }
        } else {
            cur.push(b);
            proof {
                let pp = split_on(pre, SLASH);
                let np = pp.update(pp.len() - 1, pp.last().push(b));
                assert(split_on(next, SLASH) == np);
                assert(np.drop_last() =~= pp.drop_last());
            }
        }
        i = i + 1;
    }
    assert(path@.subrange(0, path.len() as int) =~= path@);
    proof {
        lemma_pieces(path@);
        let ps = split_on(path@, SLASH);
        assert(ps =~= ps.drop_last().push(ps.last()));
    }
    if out {
        return None;
    }
    let ok = apply_piece(&mut stack, &mut started, cur);
    if ok {
        Some(stack)
    } else {
        None
    }
}

} // verus!
