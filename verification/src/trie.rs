//! The per-zone domain trie: records keyed by their owner name, one tree
//! level per label, walked from the rightmost label down and compared
//! case-insensitively.  Sibling lists are kept in canonical order — labels
//! case-folded and compared octet by octet (RFC 4034 §6.1) — and
//! [`DomainTree::push`] provably preserves that order, so a full traversal
//! visits owner names canonically.

use vstd::prelude::*;
use crate::name::{lower_seq, split_dots, split_name};
use crate::rr::RR;

verus! {

/// One node of the trie: its label, its children, and the record attached
/// to it, if any.
#[derive(Debug)]
pub struct DomainTree {
    pub owner: String,
    pub leaves: Vec<DomainTree>,
    pub rr: Option<RR>,
}

/// The first child whose label matches `lab` case-insensitively, or -1.
pub open spec fn child_idx(leaves: Seq<DomainTree>, lab: Seq<char>) -> int
    decreases leaves.len(),
{
    if leaves.len() == 0 {
        -1
    } else if lower_seq(leaves[0].owner@) == lower_seq(lab) {
        0
    } else {
        let r = child_idx(leaves.drop_first(), lab);
        if r == -1 {
            -1
        } else {
            r + 1
        }
    }
}

/// The matched child is a real index with the right label.
pub proof fn lemma_child_idx(leaves: Seq<DomainTree>, lab: Seq<char>)
    ensures
        child_idx(leaves, lab) == -1 || (0 <= child_idx(leaves, lab) < leaves.len() && lower_seq(
            leaves[child_idx(leaves, lab)].owner@,
        ) == lower_seq(lab)),
    decreases leaves.len(),
{
    if leaves.len() > 0 && lower_seq(leaves[0].owner@) != lower_seq(lab) {
        lemma_child_idx(leaves.drop_first(), lab);
        if child_idx(leaves.drop_first(), lab) != -1 {
            assert(leaves.drop_first()[child_idx(leaves.drop_first(), lab)] == leaves[child_idx(
                leaves,
                lab,
            )]);
        }
    }
}

/// Strict lexicographic order on character sequences, by code point.
pub open spec fn seq_lt(a: Seq<char>, b: Seq<char>) -> bool
    decreases a.len(),
{
    if a.len() == 0 {
        b.len() > 0
    } else if b.len() == 0 {
        false
    } else if a[0] != b[0] {
        a[0] < b[0]
    } else {
        seq_lt(a.drop_first(), b.drop_first())
    }
}

/// The order is connex: sequences that each fail to precede the other are
/// equal.
pub proof fn lemma_seq_lt_connex(a: Seq<char>, b: Seq<char>)
    requires
        !seq_lt(a, b),
        !seq_lt(b, a),
    ensures
        a == b,
    decreases a.len(),
{
    if a.len() == 0 || b.len() == 0 {
        assert(a =~= b);
    } else {
        assert(a[0] == b[0]);
        lemma_seq_lt_connex(a.drop_first(), b.drop_first());
        assert(a =~= b) by {
            assert(a.drop_first() == b.drop_first());
            assert forall|m: int| 0 <= m < a.len() implies a[m] == b[m] by {
                if m > 0 {
                    assert(a.drop_first()[m - 1] == b.drop_first()[m - 1]);
                }
            }
        }
    }
}

/// The order is asymmetric: no two sequences precede each other.
pub proof fn lemma_seq_lt_asym(a: Seq<char>, b: Seq<char>)
    requires
        seq_lt(a, b),
    ensures
        !seq_lt(b, a),
    decreases a.len(),
{
    if a.len() > 0 && b.len() > 0 && a[0] == b[0] {
        lemma_seq_lt_asym(a.drop_first(), b.drop_first());
    }
}

/// Sibling labels in strictly increasing canonical order: case-folded,
/// octet by octet (RFC 4034 §6.1, restricted to this library's ASCII
/// names).
pub open spec fn children_sorted(ls: Seq<DomainTree>) -> bool {
    forall|i: int|
        0 <= i < ls.len() - 1 ==> seq_lt(
            lower_seq(#[trigger] ls[i].owner@),
            lower_seq(ls[i + 1].owner@),
        )
}

/// Every sibling list in the tree is canonically sorted.
pub open spec fn tree_sorted(t: DomainTree) -> bool
    decreases t,
{
    children_sorted(t.leaves@) && forall|i: int|
        0 <= i < t.leaves@.len() ==> tree_sorted(#[trigger] t.leaves@[i])
}

/// A list with no match for `lab` holds no label folding to it.
pub proof fn lemma_child_idx_none(ls: Seq<DomainTree>, lab: Seq<char>)
    requires
        child_idx(ls, lab) == -1,
    ensures
        forall|i: int| 0 <= i < ls.len() ==> lower_seq(#[trigger] ls[i].owner@) != lower_seq(lab),
    decreases ls.len(),
{
    if ls.len() > 0 {
        lemma_child_idx(ls.drop_first(), lab);
        lemma_child_idx_none(ls.drop_first(), lab);
        assert forall|i: int| 0 <= i < ls.len() implies lower_seq(#[trigger] ls[i].owner@)
            != lower_seq(lab) by {
            if i > 0 {
                assert(ls.drop_first()[i - 1] == ls[i]);
            }
        }
    }
}

/// Case-folded comparison of two labels in the canonical order.
pub fn str_lt_fold(a: &str, b: &str) -> (r: bool)
    ensures
        r == seq_lt(lower_seq(a@), lower_seq(b@)),
{
    let an = a.unicode_len();
    let bn = b.unicode_len();
    let mut i: usize = 0;
    proof {
        assert(lower_seq(a@).skip(0) =~= lower_seq(a@));
        assert(lower_seq(b@).skip(0) =~= lower_seq(b@));
    }
    loop
        invariant_except_break
            i <= an,
            i <= bn,
            an == a@.len(),
            bn == b@.len(),
            forall|j: int| 0 <= j < i ==> lower_seq(a@)[j] == lower_seq(b@)[j],
            seq_lt(lower_seq(a@), lower_seq(b@)) == seq_lt(
                lower_seq(a@).skip(i as int),
                lower_seq(b@).skip(i as int),
            ),
        ensures
            true,
        decreases an - i,
    {
        proof {
            crate::trie::lemma_seq_lt_skip(lower_seq(a@), lower_seq(b@), i as int);
        }
        if i >= an || i >= bn {
            proof {
                assert(lower_seq(a@).skip(i as int).len() == a@.len() - i);
                assert(lower_seq(b@).skip(i as int).len() == b@.len() - i);
            }
            return i >= an && i < bn;
        }
        let ca = a.get_char(i);
        let cb = b.get_char(i);
        let la: char = if 'A' <= ca && ca <= 'Z' {
            ((ca as u8) + 32) as char
        } else {
            ca
        };
        let lb: char = if 'A' <= cb && cb <= 'Z' {
            ((cb as u8) + 32) as char
        } else {
            cb
        };
        proof {
            assert(lower_seq(a@)[i as int] == la);
            assert(lower_seq(b@)[i as int] == lb);
            assert(lower_seq(a@).skip(i as int)[0] == la);
            assert(lower_seq(b@).skip(i as int)[0] == lb);
            assert(lower_seq(a@).skip(i as int).drop_first() =~= lower_seq(a@).skip(i + 1));
            assert(lower_seq(b@).skip(i as int).drop_first() =~= lower_seq(b@).skip(i + 1));
        }
        if la != lb {
            return la < lb;
        }
        i = i + 1;
    }
}

/// Dropping the same matched prefix leaves the order unchanged.
pub proof fn lemma_seq_lt_skip(a: Seq<char>, b: Seq<char>, i: int)
    requires
        0 <= i <= a.len(),
        0 <= i <= b.len(),
        forall|j: int| 0 <= j < i ==> a[j] == b[j],
    ensures
        seq_lt(a, b) == seq_lt(a.skip(i), b.skip(i)),
    decreases i,
{
    if i > 0 {
        assert(a[0] == b[0]);
        assert(a.drop_first() =~= a.skip(1));
        assert(b.drop_first() =~= b.skip(1));
        assert forall|j: int| 0 <= j < i - 1 implies a.skip(1)[j] == b.skip(1)[j] by {
            assert(a[j + 1] == b[j + 1]);
        }
        lemma_seq_lt_skip(a.skip(1), b.skip(1), i - 1);
        assert(a.skip(1).skip(i - 1) =~= a.skip(i));
        assert(b.skip(1).skip(i - 1) =~= b.skip(i));
        assert(a.len() > 0 && b.len() > 0);
        assert(seq_lt(a, b) == seq_lt(a.drop_first(), b.drop_first()));
    } else {
        assert(a.skip(0) =~= a);
        assert(b.skip(0) =~= b);
    }
}

/// A label path folded to lower case: lookups depend on labels only through
/// this image.
pub open spec fn fold_path(p: Seq<Seq<char>>) -> Seq<Seq<char>> {
    Seq::new(p.len(), |i: int| lower_seq(p[i]))
}

/// Matching is case-insensitive: labels with the same folded image match
/// the same child.
pub proof fn lemma_child_idx_fold(leaves: Seq<DomainTree>, a: Seq<char>, b: Seq<char>)
    requires
        lower_seq(a) == lower_seq(b),
    ensures
        child_idx(leaves, a) == child_idx(leaves, b),
    decreases leaves.len(),
{
    if leaves.len() > 0 {
        lemma_child_idx_fold(leaves.drop_first(), a, b);
    }
}

/// A child that matches nothing new leaves every match where it was.
pub proof fn lemma_child_idx_push_nomatch(a: Seq<DomainTree>, node: DomainTree, lab: Seq<char>)
    requires
        lower_seq(node.owner@) != lower_seq(lab),
    ensures
        child_idx(a.push(node), lab) == child_idx(a, lab),
    decreases a.len(),
{
    reveal_with_fuel(child_idx, 3);
    if a.len() == 0 {
        assert(a.push(node)[0] == node);
        assert(a.push(node).drop_first() =~= Seq::<DomainTree>::empty());
    } else {
        assert(a.push(node)[0] == a[0]);
        assert(a.push(node).drop_first() =~= a.drop_first().push(node));
        lemma_child_idx_push_nomatch(a.drop_first(), node, lab);
    }
}

/// Inserting the only matching child puts the match at its position.
pub proof fn lemma_child_idx_insert_match(
    a: Seq<DomainTree>,
    node: DomainTree,
    j: int,
    lab: Seq<char>,
)
    requires
        child_idx(a, lab) == -1,
        lower_seq(node.owner@) == lower_seq(lab),
        0 <= j <= a.len(),
    ensures
        child_idx(a.insert(j, node), lab) == j,
    decreases j,
{
    reveal_with_fuel(child_idx, 3);
    if j == 0 {
        assert(a.insert(0, node)[0] == node);
    } else {
        assert(a.insert(j, node)[0] == a[0]);
        assert(lower_seq(a[0].owner@) != lower_seq(lab)) by {
            lemma_child_idx_none(a, lab);
        }
        assert(child_idx(a.drop_first(), lab) == -1) by {
            lemma_child_idx(a.drop_first(), lab);
        }
        assert(a.insert(j, node).drop_first() =~= a.drop_first().insert(j - 1, node));
        lemma_child_idx_insert_match(a.drop_first(), node, j - 1, lab);
    }
}

/// Inserting a child that matches nothing moves every match past the
/// insertion point one step along, to the same subtree.
pub proof fn lemma_child_idx_insert_nomatch(
    a: Seq<DomainTree>,
    node: DomainTree,
    j: int,
    lab: Seq<char>,
)
    requires
        lower_seq(node.owner@) != lower_seq(lab),
        0 <= j <= a.len(),
    ensures
        child_idx(a.insert(j, node), lab) == (if child_idx(a, lab) == -1 {
            -1int
        } else if child_idx(a, lab) < j {
            child_idx(a, lab)
        } else {
            child_idx(a, lab) + 1
        }),
    decreases j,
{
    reveal_with_fuel(child_idx, 3);
    lemma_child_idx(a, lab);
    if j == 0 {
        assert(a.insert(0, node)[0] == node);
        assert(a.insert(0, node).drop_first() =~= a);
    } else {
        assert(a.insert(j, node)[0] == a[0]);
        assert(a.insert(j, node).drop_first() =~= a.drop_first().insert(j - 1, node));
        lemma_child_idx_insert_nomatch(a.drop_first(), node, j - 1, lab);
        lemma_child_idx(a.drop_first(), lab);
    }
}

/// The record at the end of a label path, walked most significant label
/// first; `None` where the path or the record is absent.
pub open spec fn tree_lookup(t: DomainTree, path: Seq<Seq<char>>) -> Option<RR>
    decreases path.len(),
{
    if path.len() == 0 {
        t.rr
    } else {
        let i = child_idx(t.leaves@, path[0]);
        if i == -1 {
            None
        } else {
            tree_lookup(t.leaves@[i], path.drop_first())
        }
    }
}

/// Whether a label path exists in the tree, record or not.
pub open spec fn has_path(t: DomainTree, path: Seq<Seq<char>>) -> bool
    decreases path.len(),
{
    if path.len() == 0 {
        true
    } else {
        let i = child_idx(t.leaves@, path[0]);
        i != -1 && has_path(t.leaves@[i], path.drop_first())
    }
}

/// The label path a dotted name is filed under: its labels, rightmost
/// first.
pub open spec fn name_path(s: Seq<char>) -> Seq<Seq<char>> {
    split_dots(s).reverse()
}

impl DomainTree {
    /// An empty tree: the implicit root, labelled with a dot.
    pub fn new() -> (r: Self)
        ensures
            r.leaves@.len() == 0,
            r.rr is None,
            r.owner@ == "."@,
            tree_sorted(r),
    {
        let r = DomainTree { owner: ".".to_owned(), leaves: Vec::new(), rr: None };
        proof {
            assert(children_sorted(r.leaves@));
        }
        r
    }

    /// The first child matching `lab` case-insensitively.
    fn find_child(&self, lab: &str) -> (r: Option<usize>)
        ensures
            match r {
                Some(i) => child_idx(self.leaves@, lab@) == i && i < self.leaves@.len(),
                None => child_idx(self.leaves@, lab@) == -1,
            },
    {
        let mut i: usize = 0;
        proof {
            assert(self.leaves@.skip(0) =~= self.leaves@);
        }
        while i < self.leaves.len()
            invariant
                i <= self.leaves@.len(),
                child_idx(self.leaves@, lab@) == (if child_idx(
                    self.leaves@.skip(i as int),
                    lab@,
                ) == -1 {
                    -1int
                } else {
                    child_idx(self.leaves@.skip(i as int), lab@) + i
                }),
            decreases self.leaves@.len() - i,
        {
            proof {
                assert(self.leaves@.skip(i as int)[0] == self.leaves@[i as int]);
                assert(self.leaves@.skip(i as int).drop_first() =~= self.leaves@.skip(i + 1));
            }
            if crate::name::str_eq_fold(self.leaves[i].owner.as_str(), lab) {
                proof {
                    assert(child_idx(self.leaves@.skip(i as int), lab@) == 0);
                }
                return Some(i);
            }
            proof {
                let tail = child_idx(self.leaves@.skip(i + 1), lab@);
                lemma_child_idx(self.leaves@.skip(i + 1), lab@);
                assert(child_idx(self.leaves@.skip(i as int), lab@) == (if tail == -1 {
                    -1int
                } else {
                    tail + 1
                }));
            }
            i = i + 1;
        }
        proof {
            assert(self.leaves@.skip(i as int).len() == 0);
        }
        None
    }

    /// Walks the path of `domain` and creates every node that is missing,
    /// each inserted at its canonical position among its siblings, so that
    /// the path exists afterwards and a sorted tree stays sorted.  No
    /// attached record changes: every lookup answers as before.  The node
    /// labels keep the case they were first created with.
    pub fn push(&mut self, domain: &str)
        requires
            domain.is_ascii(),
        ensures
            has_path(*final(self), name_path(domain@)),
            final(self).owner == old(self).owner,
            final(self).rr == old(self).rr,
            tree_sorted(*old(self)) ==> tree_sorted(*final(self)),
            forall|q: Seq<Seq<char>>| #[trigger]
                tree_lookup(*final(self), q) == tree_lookup(*old(self), q),
    {
        let path = split_name(domain);
        let n = path.len();
        proof {
            assert(path.deep_view().take(n as int) =~= path.deep_view());
        }
        self.push_path(&path, n);
    }

    /// Creates the path held in `path[..i]`, walked from its last label
    /// down.
    #[verifier::rlimit(100)]
    fn push_path(&mut self, path: &Vec<String>, i: usize)
        requires
            i <= path@.len(),
        ensures
            has_path(*final(self), path.deep_view().take(i as int).reverse()),
            final(self).owner == old(self).owner,
            final(self).rr == old(self).rr,
            forall|q: Seq<Seq<char>>| #[trigger]
                tree_lookup(*final(self), q) == tree_lookup(*old(self), q),
            tree_sorted(*old(self)) ==> tree_sorted(*final(self)),
        decreases i,
    {
        if i == 0 {
            proof {
                assert(path.deep_view().take(0).reverse().len() == 0);
            }
            return ;
        }
        let ghost rev = path.deep_view().take(i as int).reverse();
        proof {
            assert(rev[0] == path.deep_view()[i - 1]);
            assert(rev.drop_first() =~= path.deep_view().take(i - 1).reverse());
        }
        let lab: &String = &path[i - 1];
        match self.find_child(lab.as_str()) {
            Some(k) => {
                let mut child = self.leaves.remove(k);
                let ghost pre = child;
                child.push_path(path, i - 1);
                proof {
                    assert(child.owner == pre.owner);
                }
                self.leaves.insert(k, child);
                proof {
                    assert(self.leaves@ =~= old(self).leaves@.update(k as int, child));
                    assert forall|j: int|
                        0 <= j < self.leaves@.len() implies (#[trigger] self.leaves@[j]).owner
                        == old(self).leaves@[j].owner by {}
                    lemma_child_idx_owners(self.leaves@, old(self).leaves@, lab@);
                    assert(child_idx(self.leaves@, rev[0]) == k);
                    assert(has_path(*self, rev));
                    assert forall|q: Seq<Seq<char>>| #[trigger] tree_lookup(*self, q)
                        == tree_lookup(*old(self), q) by {
                        if q.len() > 0 {
                            lemma_child_idx_owners(self.leaves@, old(self).leaves@, q[0]);
                            let kq = child_idx(old(self).leaves@, q[0]);
                            lemma_child_idx(old(self).leaves@, q[0]);
                            if kq != -1 {
                                if kq == k {
                                    assert(tree_lookup(child, q.drop_first()) == tree_lookup(
                                        pre,
                                        q.drop_first(),
                                    ));
                                } else {
                                    assert(self.leaves@[kq] == old(self).leaves@[kq]);
                                }
                            }
                        }
                    }
                    if tree_sorted(*old(self)) {
                        assert(tree_sorted(pre));
                        assert(children_sorted(self.leaves@)) by {
                            assert forall|m: int|
                                0 <= m < self.leaves@.len() - 1 implies seq_lt(
                                lower_seq(#[trigger] self.leaves@[m].owner@),
                                lower_seq(self.leaves@[m + 1].owner@),
                            ) by {
                                assert(self.leaves@[m].owner == old(self).leaves@[m].owner);
                                assert(self.leaves@[m + 1].owner == old(
                                    self,
                                ).leaves@[m + 1].owner);
                            }
                        }
                        assert forall|m: int| 0 <= m < self.leaves@.len() implies tree_sorted(
                            #[trigger] self.leaves@[m],
                        ) by {
                            if m != k {
                                assert(self.leaves@[m] == old(self).leaves@[m]);
                            }
                        }
                        assert(tree_sorted(*self));
                    }
                }
            },
            None => {
                let mut j: usize = 0;
                proof {
                    lemma_child_idx_none(self.leaves@, lab@);
                }
                loop
                    invariant_except_break
                        j <= self.leaves@.len(),
                        *self == *old(self),
                        forall|m: int|
                            0 <= m < j ==> seq_lt(
                                lower_seq(#[trigger] self.leaves@[m].owner@),
                                lower_seq(lab@),
                            ),
                    ensures
                        *self == *old(self),
                        j <= self.leaves@.len(),
                        forall|m: int|
                            0 <= m < j ==> seq_lt(
                                lower_seq(#[trigger] self.leaves@[m].owner@),
                                lower_seq(lab@),
                            ),
                        j < self.leaves@.len() ==> !seq_lt(
                            lower_seq(self.leaves@[j as int].owner@),
                            lower_seq(lab@),
                        ),
                    decreases self.leaves@.len() - j,
                {
                    if j == self.leaves.len() {
                        break ;
                    }
                    if !str_lt_fold(self.leaves[j].owner.as_str(), lab.as_str()) {
                        break ;
                    }
                    j = j + 1;
                }
                let mut node = DomainTree { owner: lab.clone(), leaves: Vec::new(), rr: None };
                let ghost fresh = node;
                node.push_path(path, i - 1);
                let ghost nodeg = node;
                let ghost jj = j as int;
                self.leaves.insert(j, node);
                proof {
                    assert(self.leaves@ =~= old(self).leaves@.insert(jj, nodeg));
                    assert(self.leaves@[jj] == nodeg);
                    lemma_child_idx_insert_match(old(self).leaves@, nodeg, jj, rev[0]);
                    assert(child_idx(self.leaves@, rev[0]) == jj);
                    assert(has_path(*self, rev));
                    assert forall|q: Seq<Seq<char>>| #[trigger] tree_lookup(nodeg, q) == None::<
                        RR,
                    > by {
                        assert(tree_lookup(nodeg, q) == tree_lookup(fresh, q));
                        if q.len() > 0 {
                            assert(child_idx(fresh.leaves@, q[0]) == -1);
                        }
                    }
                    assert forall|q: Seq<Seq<char>>| #[trigger] tree_lookup(*self, q)
                        == tree_lookup(*old(self), q) by {
                        if q.len() > 0 {
                            let kq = child_idx(old(self).leaves@, q[0]);
                            lemma_child_idx(old(self).leaves@, q[0]);
                            if lower_seq(q[0]) == lower_seq(lab@) {
                                lemma_child_idx_fold(old(self).leaves@, q[0], lab@);
                                assert(kq == -1);
                                lemma_child_idx_insert_match(old(self).leaves@, nodeg, jj, q[0]);
                                assert(child_idx(self.leaves@, q[0]) == jj);
                                assert(tree_lookup(*self, q) == tree_lookup(
                                    nodeg,
                                    q.drop_first(),
                                ));
                            } else {
                                lemma_child_idx_insert_nomatch(
                                    old(self).leaves@,
                                    nodeg,
                                    jj,
                                    q[0],
                                );
                                if kq != -1 {
                                    let kq2 = child_idx(self.leaves@, q[0]);
                                    assert(self.leaves@[kq2] == old(self).leaves@[kq]);
                                }
                            }
                        }
                    }
                    if tree_sorted(*old(self)) {
                        assert(tree_sorted(fresh)) by {
                            assert(children_sorted(fresh.leaves@));
                        }
                        assert(tree_sorted(nodeg));
                        assert(children_sorted(self.leaves@)) by {
                            assert forall|m: int|
                                0 <= m < self.leaves@.len() - 1 implies seq_lt(
                                lower_seq(#[trigger] self.leaves@[m].owner@),
                                lower_seq(self.leaves@[m + 1].owner@),
                            ) by {
                                assert(nodeg.owner@ == lab@);
                                if m + 1 < jj {
                                    assert(self.leaves@[m] == old(self).leaves@[m]);
                                    assert(self.leaves@[m + 1] == old(self).leaves@[m + 1]);
                                } else if m + 1 == jj {
                                    assert(self.leaves@[m] == old(self).leaves@[m]);
                                    assert(seq_lt(
                                        lower_seq(old(self).leaves@[m].owner@),
                                        lower_seq(lab@),
                                    ));
                                } else if m == jj {
                                    assert(self.leaves@[m + 1] == old(self).leaves@[m]);
                                    assert(!seq_lt(
                                        lower_seq(old(self).leaves@[m].owner@),
                                        lower_seq(lab@),
                                    ));
                                    assert(lower_seq(old(self).leaves@[m].owner@) != lower_seq(
                                        lab@,
                                    ));
                                    assert(seq_lt(
                                        lower_seq(lab@),
                                        lower_seq(old(self).leaves@[m].owner@),
                                    )) by {
                                        if !seq_lt(
                                            lower_seq(lab@),
                                            lower_seq(old(self).leaves@[m].owner@),
                                        ) {
                                            lemma_seq_lt_connex(
                                                lower_seq(old(self).leaves@[m].owner@),
                                                lower_seq(lab@),
                                            );
                                        }
                                    }
                                } else {
                                    assert(self.leaves@[m] == old(self).leaves@[m - 1]);
                                    assert(self.leaves@[m + 1] == old(self).leaves@[m]);
                                }
                            }
                        }
                        assert forall|m: int| 0 <= m < self.leaves@.len() implies tree_sorted(
                            #[trigger] self.leaves@[m],
                        ) by {
                            if m < jj {
                                assert(self.leaves@[m] == old(self).leaves@[m]);
                            } else if m == jj {
                            } else {
                                assert(self.leaves@[m] == old(self).leaves@[m - 1]);
                            }
                        }
                        assert(tree_sorted(*self));
                    }
                }
            },
        }
    }

    /// Attaches `rr` at the end of the path of `domain`, replacing any
    /// record there and touching nothing else: afterwards every name whose
    /// folded path is `domain`'s answers `rr`, and every other lookup
    /// answers as before.  A name whose path was never created is ignored,
    /// as the tree cannot answer for it.
    pub fn set_rr(&mut self, domain: &str, rr: RR)
        requires
            domain.is_ascii(),
        ensures
            has_path(*old(self), name_path(domain@)) ==> forall|q: Seq<Seq<char>>| #[trigger]
                tree_lookup(*final(self), q) == (if fold_path(q) == fold_path(
                    name_path(domain@),
                ) {
                    Some(rr)
                } else {
                    tree_lookup(*old(self), q)
                }),
            !has_path(*old(self), name_path(domain@)) ==> *final(self) == *old(self),
            final(self).owner == old(self).owner,
            tree_sorted(*old(self)) ==> tree_sorted(*final(self)),
    {
        let path = split_name(domain);
        let n = path.len();
        proof {
            assert(path.deep_view().take(n as int) =~= path.deep_view());
        }
        self.set_path(&path, n, rr);
    }

    /// Attaches `rr` at the end of the path held in `path[..i]`.
    fn set_path(&mut self, path: &Vec<String>, i: usize, rr: RR)
        requires
            i <= path@.len(),
        ensures
            final(self).owner == old(self).owner,
            tree_sorted(*old(self)) ==> tree_sorted(*final(self)),
            !has_path(*old(self), path.deep_view().take(i as int).reverse()) ==> *final(self)
                == *old(self),
            has_path(*old(self), path.deep_view().take(i as int).reverse()) ==> forall|
                q: Seq<Seq<char>>,
            | #[trigger]
                tree_lookup(*final(self), q) == (if fold_path(q) == fold_path(
                    path.deep_view().take(i as int).reverse(),
                ) {
                    Some(rr)
                } else {
                    tree_lookup(*old(self), q)
                }),
        decreases i,
    {
        if !self.has_path_exec(path, i) {
            return ;
        }
        let ghost rev = path.deep_view().take(i as int).reverse();
        if i == 0 {
            self.rr = Some(rr);
            proof {
                assert(rev.len() == 0);
                if tree_sorted(*old(self)) {
                    assert(tree_sorted(*self)) by {
                        assert(self.leaves@ == old(self).leaves@);
                    }
                }
                assert forall|q: Seq<Seq<char>>| #[trigger] tree_lookup(*self, q) == (if fold_path(
                    q,
                ) == fold_path(rev) {
                    Some(rr)
                } else {
                    tree_lookup(*old(self), q)
                }) by {
                    assert(fold_path(q).len() == q.len());
                    if q.len() == 0 {
                        assert(fold_path(q) =~= fold_path(rev));
                    }
                }
            }
            return ;
        }
        proof {
            assert(rev[0] == path.deep_view()[i - 1]);
            assert(rev.drop_first() =~= path.deep_view().take(i - 1).reverse());
        }
        let lab: &String = &path[i - 1];
        match self.find_child(lab.as_str()) {
            Some(k) => {
                let mut child = self.leaves.remove(k);
                let ghost pre = child;
                child.set_path(path, i - 1, rr);
                proof {
                    assert(child.owner == pre.owner);
                }
                self.leaves.insert(k, child);
                proof {
                    assert(self.leaves@ =~= old(self).leaves@.update(k as int, child));
                    assert forall|j: int|
                        0 <= j < self.leaves@.len() implies (#[trigger] self.leaves@[j]).owner
                        == old(self).leaves@[j].owner by {}
                    lemma_child_idx_owners(self.leaves@, old(self).leaves@, lab@);
                    assert(child_idx(self.leaves@, rev[0]) == k);
                    assert(has_path(pre, rev.drop_first()));
                    assert forall|q: Seq<Seq<char>>| #[trigger] tree_lookup(*self, q) == (if fold_path(
                        q,
                    ) == fold_path(rev) {
                        Some(rr)
                    } else {
                        tree_lookup(*old(self), q)
                    }) by {
                        assert(fold_path(q).len() == q.len());
                        assert(fold_path(rev).len() == rev.len());
                        if q.len() == 0 {
                            assert(fold_path(q) != fold_path(rev));
                        } else {
                            lemma_child_idx_owners(self.leaves@, old(self).leaves@, q[0]);
                            let kq = child_idx(old(self).leaves@, q[0]);
                            lemma_child_idx(old(self).leaves@, q[0]);
                            lemma_child_idx(old(self).leaves@, rev[0]);
                            if lower_seq(q[0]) == lower_seq(rev[0]) {
                                lemma_child_idx_fold(old(self).leaves@, q[0], rev[0]);
                                assert(kq == k);
                                assert(tree_lookup(*self, q) == tree_lookup(
                                    child,
                                    q.drop_first(),
                                ));
                                assert(tree_lookup(child, q.drop_first()) == (if fold_path(
                                    q.drop_first(),
                                ) == fold_path(rev.drop_first()) {
                                    Some(rr)
                                } else {
                                    tree_lookup(pre, q.drop_first())
                                }));
                                assert(fold_path(q) == fold_path(rev) <==> fold_path(
                                    q.drop_first(),
                                ) == fold_path(rev.drop_first())) by {
                                    if fold_path(q.drop_first()) == fold_path(rev.drop_first()) {
                                        assert(fold_path(q.drop_first()).len() == fold_path(
                                            rev.drop_first(),
                                        ).len());
                                        assert(q.len() == rev.len());
                                        assert(fold_path(q) =~= fold_path(rev)) by {
                                            assert forall|m: int|
                                                0 <= m < q.len() implies fold_path(q)[m]
                                                == fold_path(rev)[m] by {
                                                if m == 0 {
                                                    assert(fold_path(q)[0] == lower_seq(q[0]));
                                                    assert(fold_path(rev)[0] == lower_seq(
                                                        rev[0],
                                                    ));
                                                } else {
                                                    assert(fold_path(q.drop_first())[m - 1]
                                                        == fold_path(rev.drop_first())[m - 1]);
                                                    assert(fold_path(q.drop_first())[m - 1]
                                                        == lower_seq(q[m]));
                                                    assert(fold_path(rev.drop_first())[m - 1]
                                                        == lower_seq(rev[m]));
                                                }
                                            }
                                        }
                                    }
                                    if fold_path(q) == fold_path(rev) {
                                        assert(fold_path(q.drop_first()) =~= fold_path(
                                            rev.drop_first(),
                                        )) by {
                                            assert forall|m: int|
                                                0 <= m < q.len() - 1 implies fold_path(
                                                q.drop_first(),
                                            )[m] == fold_path(rev.drop_first())[m] by {
                                                assert(fold_path(q)[m + 1] == fold_path(
                                                    rev,
                                                )[m + 1]);
                                            }
                                        }
                                    }
                                }
                                assert(tree_lookup(*old(self), q) == tree_lookup(
                                    pre,
                                    q.drop_first(),
                                ));
                            } else {
                                assert(fold_path(q) != fold_path(rev)) by {
                                    if fold_path(q) == fold_path(rev) {
                                        assert(fold_path(q)[0] == fold_path(rev)[0]);
                                    }
                                }
                                if kq != -1 {
                                    assert(kq != k) by {
                                        if kq == k {
                                            assert(lower_seq(
                                                old(self).leaves@[k as int].owner@,
                                            ) == lower_seq(q[0]));
                                            lemma_child_idx(old(self).leaves@, rev[0]);
                                            assert(lower_seq(
                                                old(self).leaves@[k as int].owner@,
                                            ) == lower_seq(rev[0]));
                                        }
                                    }
                                    assert(self.leaves@[kq] == old(self).leaves@[kq]);
                                }
                            }
                        }
                    }
                    if tree_sorted(*old(self)) {
                        assert(tree_sorted(pre));
                        assert(children_sorted(self.leaves@)) by {
                            assert forall|m: int|
                                0 <= m < self.leaves@.len() - 1 implies seq_lt(
                                lower_seq(#[trigger] self.leaves@[m].owner@),
                                lower_seq(self.leaves@[m + 1].owner@),
                            ) by {
                                assert(self.leaves@[m].owner == old(self).leaves@[m].owner);
                                assert(self.leaves@[m + 1].owner == old(
                                    self,
                                ).leaves@[m + 1].owner);
                            }
                        }
                        assert forall|m: int| 0 <= m < self.leaves@.len() implies tree_sorted(
                            #[trigger] self.leaves@[m],
                        ) by {
                            if m != k {
                                assert(self.leaves@[m] == old(self).leaves@[m]);
                            }
                        }
                        assert(tree_sorted(*self));
                    }
                }
            },
            None => {
                proof {
                    assert(false);
                }
            },
        }
    }

    /// Whether the path held in `path[..i]` exists in the tree.
    fn has_path_exec(&self, path: &Vec<String>, i: usize) -> (r: bool)
        requires
            i <= path@.len(),
        ensures
            r == has_path(*self, path.deep_view().take(i as int).reverse()),
        decreases i,
    {
        if i == 0 {
            proof {
                assert(path.deep_view().take(0).reverse().len() == 0);
            }
            return true;
        }
        let ghost rev = path.deep_view().take(i as int).reverse();
        proof {
            assert(rev[0] == path.deep_view()[i - 1]);
            assert(rev.drop_first() =~= path.deep_view().take(i - 1).reverse());
        }
        let lab: &String = &path[i - 1];
        match self.find_child(lab.as_str()) {
            Some(k) => self.leaves[k].has_path_exec(path, i - 1),
            None => false,
        }
    }

    /// The record filed under `domain`, cloned out of the tree; `None`
    /// where the path or the record is absent.
    pub fn get_rr(&self, domain: &str) -> (r: Option<&RR>)
        requires
            domain.is_ascii(),
        ensures
            match r {
                Some(rr) => tree_lookup(*self, name_path(domain@)) == Some(*rr),
                None => tree_lookup(*self, name_path(domain@)) is None,
            },
    {
        let path = split_name(domain);
        let n = path.len();
        proof {
            assert(path.deep_view().take(n as int) =~= path.deep_view());
        }
        self.get_path(&path, n)
    }

    /// The record at the end of the path held in `path[..i]`.
    fn get_path(&self, path: &Vec<String>, i: usize) -> (r: Option<&RR>)
        requires
            i <= path@.len(),
        ensures
            match r {
                Some(rr) => tree_lookup(*self, path.deep_view().take(i as int).reverse()) == Some(
                    *rr,
                ),
                None => tree_lookup(*self, path.deep_view().take(i as int).reverse()) is None,
            },
        decreases i,
    {
        if i == 0 {
            proof {
                assert(path.deep_view().take(0).reverse().len() == 0);
            }
            return match &self.rr {
                Some(rr) => Some(rr),
                None => None,
            };
        }
        let ghost rev = path.deep_view().take(i as int).reverse();
        proof {
            assert(rev[0] == path.deep_view()[i - 1]);
            assert(rev.drop_first() =~= path.deep_view().take(i - 1).reverse());
        }
        let lab: &String = &path[i - 1];
        match self.find_child(lab.as_str()) {
            Some(k) => self.leaves[k].get_path(path, i - 1),
            None => None,
        }
    }
}

/// Two child lists whose labels agree position by position match the same
/// index.
pub proof fn lemma_child_idx_owners(a: Seq<DomainTree>, b: Seq<DomainTree>, lab: Seq<char>)
    requires
        a.len() == b.len(),
        forall|j: int| 0 <= j < a.len() ==> (#[trigger] a[j]).owner == b[j].owner,
    ensures
        child_idx(a, lab) == child_idx(b, lab),
    decreases a.len(),
{
    if a.len() > 0 {
        assert(a[0].owner == b[0].owner);
        assert(forall|j: int|
            0 <= j < a.drop_first().len() ==> (#[trigger] a.drop_first()[j]).owner
                == b.drop_first()[j].owner);
        lemma_child_idx_owners(a.drop_first(), b.drop_first(), lab);
    }
}

/// Appending a child to a list with no match makes it the match; earlier
/// matches stay where they were.
pub proof fn lemma_child_idx_append(a: Seq<DomainTree>, node: DomainTree, lab: Seq<char>)
    requires
        child_idx(a, lab) == -1,
        lower_seq(node.owner@) == lower_seq(lab),
    ensures
        child_idx(a.push(node), lab) == a.len(),
    decreases a.len(),
{
    if a.len() == 0 {
        assert(a.push(node)[0] == node);
    } else {
        assert(a.push(node)[0] == a[0]);
        assert(lower_seq(a[0].owner@) != lower_seq(lab));
        lemma_child_idx(a.drop_first(), lab);
        assert(child_idx(a.drop_first(), lab) == -1);
        assert(a.push(node).drop_first() =~= a.drop_first().push(node));
        lemma_child_idx_append(a.drop_first(), node, lab);
    }
}


/// The images of every record the tree holds: the node's own first, then
/// each child's, in child order.
pub open spec fn tree_rr_views(t: DomainTree) -> Seq<crate::rr::RRView>
    decreases t,
{
    (match t.rr {
        Some(rr) => seq![rr@],
        None => Seq::empty(),
    }) + forest_rr_views(t.leaves@)
}

/// The record images of a child list, in order.
pub open spec fn forest_rr_views(ls: Seq<DomainTree>) -> Seq<crate::rr::RRView>
    decreases ls,
{
    if ls.len() == 0 {
        Seq::empty()
    } else {
        tree_rr_views(ls[0]) + forest_rr_views(ls.drop_first())
    }
}

impl DomainTree {
    /// Every record the tree holds, copied out in traversal order: each
    /// node's own record first, then its children's, child by child.  In a
    /// tree built through [`DomainTree::push`] the children stand in
    /// canonical label order, so the traversal enumerates owner names
    /// canonically.
    pub fn get_all_rrs(&self) -> (r: Vec<RR>)
        ensures
            r.deep_view() == tree_rr_views(*self),
    {
        let mut out: Vec<RR> = Vec::new();
        self.collect_rrs(&mut out);
        proof {
            assert(Seq::<crate::rr::RRView>::empty() + tree_rr_views(*self) =~= tree_rr_views(
                *self,
            ));
        }
        out
    }

    /// Appends this subtree's records to `out` in traversal order.
    fn collect_rrs(&self, out: &mut Vec<RR>)
        ensures
            final(out).deep_view() == old(out).deep_view() + tree_rr_views(*self),
        decreases *self,
    {
        match &self.rr {
            Some(rr) => {
                let ghost pre = out.deep_view();
                out.push(rr.copy());
                proof {
                    assert(out.deep_view() =~= pre + seq![rr@]);
                }
            },
            None => {},
        }
        let ghost mid = out.deep_view();
        let mut z: usize = 0;
        proof {
            assert(self.leaves@.skip(0) =~= self.leaves@);
            assert(mid + forest_rr_views(self.leaves@) =~= mid + forest_rr_views(self.leaves@));
        }
        while z < self.leaves.len()
            invariant
                z <= self.leaves@.len(),
                mid + forest_rr_views(self.leaves@) == out.deep_view() + forest_rr_views(
                    self.leaves@.skip(z as int),
                ),
            decreases self.leaves@.len() - z,
        {
            let ghost rem = self.leaves@.skip(z as int);
            proof {
                assert(rem[0] == self.leaves@[z as int]);
                assert(rem.drop_first() =~= self.leaves@.skip(z + 1));
            }
            self.leaves[z].collect_rrs(out);
            z = z + 1;
        }
        proof {
            assert(forest_rr_views(self.leaves@.skip(self.leaves@.len() as int)) =~= Seq::<
                crate::rr::RRView,
            >::empty());
            assert(out.deep_view() =~= mid + forest_rr_views(self.leaves@));
            assert(mid =~= old(out).deep_view() + (match self.rr {
                Some(rr) => seq![rr@],
                None => Seq::<crate::rr::RRView>::empty(),
            }));
            assert(old(out).deep_view() + tree_rr_views(*self) =~= out.deep_view());
        }
    }
}

} // verus!
